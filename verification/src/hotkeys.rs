//! The keys that work in any window.
use vstd::prelude::*;
use vstd::string::*;

verus! {

/// What the user presses to say that they are leaving.
pub const MANUAL_AWAY_SHORTCUT_LABEL: &'static str = "Ctrl+Alt+Enter";

} // verus!
