//! Attribution, review and synchronisation of recorded screen time.
use vstd::prelude::*;

pub mod agreement;
pub mod amend;
pub mod attribution;
pub mod catalog;
pub mod clock;
pub mod collector;
pub mod context;
pub mod corrections;
pub mod effects;
pub mod envelope;
pub mod export;
pub mod hierarchy;
pub mod hotkeys;
pub mod ics;
pub mod ids;
pub mod ingest;
pub mod jobs;
pub mod journal;
pub mod json;
pub mod labels;
pub mod laws;
pub mod ledger;
pub mod lists;
pub mod maintenance;
pub mod memory;
pub mod models;
pub mod plan;
pub mod pricing;
pub mod recall;
pub mod remote;
pub mod rules;
pub mod score;
pub mod sessions;
pub mod settings;
pub mod sleep;
pub mod sync;
pub mod text;
pub mod timeline;
pub mod trends;
pub mod undo;
pub mod upkeep;

verus! {

} // verus!
