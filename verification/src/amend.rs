//! The steps of a correction that the user makes.
//!
//! A correction changes several tables in turn. Each step can fail, and a correction that fails is
//! taken back as a whole.
use vstd::prelude::*;
use vstd::string::*;

use crate::models::{SessionView, WorkSession};
use crate::sessions;
use crate::text;

verus! {

broadcast use vstd::seq_lib::group_seq_properties;

/// A step of a correction whose sessions were noted.
#[derive(Clone, Copy, Debug, PartialEq, Eq, Structural)]
pub enum AmendStep {
    /// Change the sessions.
    Update,
    /// Remember what the sessions were about.
    Remember,
    /// Learn a rule from one of the changed sessions.
    Learn { index: usize },
    /// Pin the context of the first changed session.
    Pin,
    /// Keep what was noted, so that the user can undo the correction.
    Save,
    /// Restore what was noted, and fail.
    TakeBack,
    /// The correction stands.
    Stand,
    /// The correction was taken back.
    Failed,
}

/// What the user asked for beyond the change itself, and how many sessions were changed.
#[derive(Clone, Copy, Debug, PartialEq, Eq, Structural)]
pub struct AmendPlan {
    pub learn: bool,
    pub pin: bool,
    pub changed: usize,
}

/// The step behind the rules.
pub open spec fn behind_rules(plan: AmendPlan) -> AmendStep {
    if plan.pin {
        AmendStep::Pin
    } else {
        AmendStep::Save
    }
}

/// The step that follows.
pub open spec fn following(step: AmendStep, succeeded: bool, plan: AmendPlan) -> AmendStep {
    match step {
        AmendStep::Stand => AmendStep::Stand,
        AmendStep::Failed => AmendStep::Failed,
        AmendStep::TakeBack => AmendStep::Failed,
        _ => if !succeeded {
            AmendStep::TakeBack
        } else {
            match step {
                AmendStep::Update => AmendStep::Remember,
                AmendStep::Remember => if plan.learn && plan.changed > 0 {
                    AmendStep::Learn { index: 0 }
                } else {
                    behind_rules(plan)
                },
                AmendStep::Learn { index } => if index + 1 < plan.changed {
                    AmendStep::Learn { index: (index + 1) as usize }
                } else {
                    behind_rules(plan)
                },
                AmendStep::Pin => AmendStep::Save,
                _ => AmendStep::Stand,
            }
        },
    }
}

/// Says which step follows on one that was made.
pub fn next_amend_step(step: AmendStep, succeeded: bool, plan: AmendPlan) -> (result: AmendStep)
    ensures
        result == following(step, succeeded, plan),
{
    let after = if plan.pin {
        AmendStep::Pin
    } else {
        AmendStep::Save
    };
    match step {
        AmendStep::Stand => AmendStep::Stand,
        AmendStep::Failed => AmendStep::Failed,
        AmendStep::TakeBack => AmendStep::Failed,
        AmendStep::Update => if succeeded {
            AmendStep::Remember
        } else {
            AmendStep::TakeBack
        },
        AmendStep::Remember => if !succeeded {
            AmendStep::TakeBack
        } else if plan.learn && plan.changed > 0 {
            AmendStep::Learn { index: 0 }
        } else {
            after
        },
        AmendStep::Learn { index } => if !succeeded {
            AmendStep::TakeBack
        } else if index < plan.changed && index + 1 < plan.changed {
            AmendStep::Learn { index: index + 1 }
        } else {
            after
        },
        AmendStep::Pin => if succeeded {
            AmendStep::Save
        } else {
            AmendStep::TakeBack
        },
        AmendStep::Save => if succeeded {
            AmendStep::Stand
        } else {
            AmendStep::TakeBack
        },
    }
}

/// Why the context of a correction cannot be pinned.
#[derive(Clone, Copy, Debug, PartialEq, Eq, Structural)]
pub enum PinTargetError {
    NoSession,
    NoProject,
}

/// The project and task that a correction pins.
pub open spec fn pin_target_of(changed: Seq<SessionView>) -> Result<
    (Seq<char>, Option<Seq<char>>),
    PinTargetError,
> {
    if changed.len() == 0 {
        Err(PinTargetError::NoSession)
    } else {
        match changed[0].project_id {
            Some(project) => Ok((project, changed[0].task_id)),
            None => Err(PinTargetError::NoProject),
        }
    }
}

/// Finds the project and task that a correction pins.
pub fn pin_target(changed: &Vec<WorkSession>) -> (result: Result<
    (String, Option<String>),
    PinTargetError,
>)
    ensures
        match result {
            Ok((project, task)) => pin_target_of(sessions::session_views(changed@)) == Ok::<
                (Seq<char>, Option<Seq<char>>),
                PinTargetError,
            >((project@, text::optional(task))),
            Err(error) => pin_target_of(sessions::session_views(changed@)) == Err::<
                (Seq<char>, Option<Seq<char>>),
                PinTargetError,
            >(error),
        },
{
    if changed.len() == 0 {
        return Err(PinTargetError::NoSession);
    }
    assert(sessions::session_views(changed@)[0] == changed@[0]@);
    match &changed[0].project_id {
        Some(project) => Ok((project.clone(), changed[0].task_id.clone())),
        None => Err(PinTargetError::NoProject),
    }
}

/// How many steps can still follow.
pub open spec fn steps_left(step: AmendStep, plan: AmendPlan) -> nat {
    match step {
        AmendStep::Stand => 0,
        AmendStep::Failed => 0,
        AmendStep::TakeBack => 1,
        AmendStep::Save => 2,
        AmendStep::Pin => 3,
        AmendStep::Learn { index } => if index < plan.changed {
            (4 + plan.changed - index) as nat
        } else {
            4
        },
        AmendStep::Remember => (5 + plan.changed) as nat,
        AmendStep::Update => (6 + plan.changed) as nat,
    }
}

/// A correction comes to an end; it stands only when the last step succeeded, and what fails
/// before is taken back.
pub proof fn corrections_stand_or_are_taken_back(step: AmendStep, succeeded: bool, plan: AmendPlan)
    ensures
        !(step is Stand) && !(step is Failed) ==> steps_left(
            following(step, succeeded, plan),
            plan,
        ) < steps_left(step, plan),
        following(step, succeeded, plan) is Stand ==> step is Stand || (step is Save && succeeded),
        !succeeded && !(step is Stand) && !(step is Failed) && !(step is TakeBack) ==> following(
            step,
            succeeded,
            plan,
        ) is TakeBack,
{
}

} // verus!
