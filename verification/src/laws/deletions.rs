//! Promises of deletions, those of this device and those that arrive from others.
use vstd::prelude::*;
use vstd::string::*;

use crate::clock;
use crate::ledger;
use crate::ledger::LedgerView;
use crate::lists;
use crate::models::{ProjectView, SyncConfigView, SyncDeviceView, TaskView};
use crate::sync::{SyncCategoryView, SyncRuleView, SyncSessionView, TombstoneView};
use crate::text;

verus! {

broadcast use vstd::seq_lib::group_seq_properties;

/// The session holds what it held, but for its project and task.
pub open spec fn same_but_for_place(before: SyncSessionView, after: SyncSessionView) -> bool {
    &&& after.updated_at == before.updated_at
    &&& after.session.id == before.session.id
    &&& after.session.started_at == before.session.started_at
    &&& after.session.ended_at == before.session.ended_at
    &&& after.session.category == before.session.category
    &&& after.session.summary == before.session.summary
    &&& after.session.confidence == before.session.confidence
    &&& after.session.evidence == before.session.evidence
    &&& after.session.user_confirmed == before.session.user_confirmed
    &&& after.session.source == before.session.source
}

/// The task belongs to the project.
pub open spec fn belongs(tasks: Seq<TaskView>, task: Seq<char>, project: Seq<char>) -> bool {
    exists|k: int|
        0 <= k < tasks.len() && (#[trigger] tasks[k]).id == task && tasks[k].project_id == project
}

pub(crate) proof fn lemma_tasks_of(tasks: Seq<TaskView>, project: Seq<char>)
    ensures
        forall|id: Seq<char>| #[trigger]
            ledger::tasks_of(tasks, project).contains(id) <==> belongs(tasks, id, project),
{
    let keep = |task: TaskView| task.project_id == project;
    let chosen = tasks.filter(keep);
    let ids = ledger::tasks_of(tasks, project);
    lists::lemma_filtered(tasks, keep);
    assert forall|id: Seq<char>| #[trigger] ids.contains(id) <==> belongs(tasks, id, project) by {
        if ids.contains(id) {
            let k = choose|k: int| 0 <= k < ids.len() && ids[k] == id;
            let m = choose|m: int| 0 <= m < tasks.len() && tasks[m] == chosen[k];
            assert(tasks[m].id == id);
        }
        if belongs(tasks, id, project) {
            let k = choose|k: int|
                0 <= k < tasks.len() && (#[trigger] tasks[k]).id == id && tasks[k].project_id
                    == project;
            assert(chosen.contains(tasks[k]));
            let m = choose|m: int| 0 <= m < chosen.len() && chosen[m] == tasks[k];
            assert(ids[m] == id);
        }
    }
}

/// Deleting a project takes its tasks and the rules that lead to them along. Sessions stay, and lose
/// the project and its tasks but nothing else; everything that does not concern the project stays as
/// it is.
pub proof fn a_deleted_project_takes_only_its_own(before: LedgerView, id: Seq<char>)
    ensures
        ({
            let after = ledger::without_project(before, id);
            &&& after.categories == before.categories
            &&& after.tombstones == before.tombstones
            &&& forall|item: ProjectView| #[trigger]
                after.projects.contains(item) <==> before.projects.contains(item) && item.id != id
            &&& forall|item: TaskView| #[trigger]
                after.tasks.contains(item) <==> before.tasks.contains(item) && item.project_id != id
            &&& after.sessions.len() == before.sessions.len()
            &&& forall|k: int|
                0 <= k < before.sessions.len() ==> {
                    let row = before.sessions[k];
                    let left = #[trigger] after.sessions[k];
                    &&& same_but_for_place(row, left)
                    &&& left.session.project_id == if row.session.project_id == Some(id) {
                        None
                    } else {
                        row.session.project_id
                    }
                    &&& left.session.task_id == match row.session.task_id {
                        Some(task) => if belongs(before.tasks, task, id) {
                            None
                        } else {
                            Some(task)
                        },
                        None => None,
                    }
                }
            &&& forall|item: SyncRuleView| #[trigger]
                after.rules.contains(item) <==> before.rules.contains(item) && item.rule.project_id
                    != Some(id) && (item.rule.task_id matches Some(task) ==> !belongs(
                    before.tasks,
                    task,
                    id,
                ))
        }),
{
    let tasks = ledger::tasks_of(before.tasks, id);
    lemma_tasks_of(before.tasks, id);
    lists::lemma_filtered(before.projects, |item: ProjectView| item.id != id);
    lists::lemma_filtered(before.tasks, |item: TaskView| item.project_id != id);
    lists::lemma_filtered(
        before.rules,
        |item: SyncRuleView|
            !ledger::touches(item.rule.project_id, item.rule.task_id, Some(id), tasks),
    );
}

/// Deleting a task takes the rules that lead to it along. Sessions stay, and lose the task but
/// nothing else; everything that does not concern the task stays as it is.
pub proof fn a_deleted_task_takes_only_its_own(before: LedgerView, id: Seq<char>)
    ensures
        ({
            let after = ledger::without_task(before, id);
            &&& after.categories == before.categories
            &&& after.projects == before.projects
            &&& after.tombstones == before.tombstones
            &&& forall|item: TaskView| #[trigger]
                after.tasks.contains(item) <==> before.tasks.contains(item) && item.id != id
            &&& after.sessions.len() == before.sessions.len()
            &&& forall|k: int|
                0 <= k < before.sessions.len() ==> {
                    let row = before.sessions[k];
                    let left = #[trigger] after.sessions[k];
                    &&& same_but_for_place(row, left)
                    &&& left.session.project_id == row.session.project_id
                    &&& left.session.task_id == if row.session.task_id == Some(id) {
                        None
                    } else {
                        row.session.task_id
                    }
                }
            &&& forall|item: SyncRuleView| #[trigger]
                after.rules.contains(item) <==> before.rules.contains(item) && item.rule.task_id
                    != Some(id)
        }),
{
    let one = seq![id];
    assert(forall|other: Seq<char>| #[trigger] one.contains(other) <==> other == id) by {
        assert(one[0] == id);
    }
    lists::lemma_filtered(before.tasks, |item: TaskView| item.id != id);
    lists::lemma_filtered(
        before.rules,
        |item: SyncRuleView|
            !ledger::touches(item.rule.project_id, item.rule.task_id, None, seq![id]),
    );
}

/// What stood under a deleted category stands under its heir from then on, changed at the time of the
/// deletion; projects take the colour of the heir. Nothing else changes, and no record is lost.
pub proof fn a_deleted_category_passes_on_its_own(
    before: LedgerView,
    name: Seq<char>,
    heir: SyncCategoryView,
    at: Seq<char>,
)
    ensures
        ({
            let after = ledger::without_category(before, name, heir, at);
            &&& after.tasks == before.tasks
            &&& after.tombstones == before.tombstones
            &&& forall|item: SyncCategoryView| #[trigger]
                after.categories.contains(item) <==> before.categories.contains(item) && item.name
                    != name
            &&& after.projects.len() == before.projects.len()
            &&& forall|k: int|
                0 <= k < before.projects.len() ==> {
                    let row = before.projects[k];
                    let left = #[trigger] after.projects[k];
                    if row.category == name {
                        &&& left.category == heir.name
                        &&& left.color == heir.color
                        &&& left.updated_at == at
                        &&& left.id == row.id
                        &&& left.name == row.name
                        &&& left.source == row.source
                        &&& left.description == row.description
                        &&& left.created_at == row.created_at
                    } else {
                        left == row
                    }
                }
            &&& after.sessions.len() == before.sessions.len()
            &&& forall|k: int|
                0 <= k < before.sessions.len() ==> {
                    let row = before.sessions[k];
                    let left = #[trigger] after.sessions[k];
                    if row.session.category == name {
                        &&& left.session.category == heir.name
                        &&& left.updated_at == at
                        &&& left.session.id == row.session.id
                        &&& left.session.started_at == row.session.started_at
                        &&& left.session.ended_at == row.session.ended_at
                        &&& left.session.project_id == row.session.project_id
                        &&& left.session.task_id == row.session.task_id
                        &&& left.session.summary == row.session.summary
                        &&& left.session.confidence == row.session.confidence
                        &&& left.session.evidence == row.session.evidence
                        &&& left.session.user_confirmed == row.session.user_confirmed
                        &&& left.session.source == row.session.source
                    } else {
                        left == row
                    }
                }
            &&& after.rules.len() == before.rules.len()
            &&& forall|k: int|
                0 <= k < before.rules.len() ==> {
                    let row = before.rules[k];
                    let left = #[trigger] after.rules[k];
                    if row.rule.category == name {
                        &&& left.rule.category == heir.name
                        &&& left.updated_at == at
                        &&& left.rule.id == row.rule.id
                        &&& left.rule.name == row.rule.name
                        &&& left.rule.priority == row.rule.priority
                        &&& left.rule.matcher == row.rule.matcher
                        &&& left.rule.project_id == row.rule.project_id
                        &&& left.rule.task_id == row.rule.task_id
                        &&& left.rule.created_from_correction == row.rule.created_from_correction
                        &&& left.rule.enabled == row.rule.enabled
                    } else {
                        left == row
                    }
                }
        }),
{
    lists::lemma_filtered(before.categories, |item: SyncCategoryView| item.name != name);
}

/// The heir of a deleted category is another one that is there, and there is one as soon as another
/// category is there. The catch-all inherits before any other; otherwise a built-in category before
/// one that the user made, and an older one before a newer one.
pub proof fn heirs_are_chosen_well(categories: Seq<SyncCategoryView>, gone: Seq<char>)
    ensures
        ledger::stand_in(categories, gone) is Some <==> exists|k: int|
            0 <= k < categories.len() && (#[trigger] categories[k]).name != gone,
        ledger::stand_in(categories, gone) matches Some(heir) ==> {
            &&& categories.contains(heir)
            &&& heir.name != gone
            &&& forall|k: int|
                0 <= k < categories.len() && (#[trigger] categories[k]).name != gone ==> {
                    let other = categories[k];
                    &&& other.name == "杂务"@ ==> heir.name == "杂务"@
                    &&& (other.name == "杂务"@) == (heir.name == "杂务"@) && other.is_builtin
                        ==> heir.is_builtin
                    &&& (other.name == "杂务"@) == (heir.name == "杂务"@) && other.is_builtin
                        == heir.is_builtin ==> !text::precedes(other.created_at, heir.created_at)
                }
        },
    decreases categories.len(),
{
    if categories.len() > 0 {
        let rest = categories.drop_last();
        let last = categories.last();
        heirs_are_chosen_well(rest, gone);
        assert(categories[categories.len() - 1] == last);
        assert(forall|k: int| 0 <= k < rest.len() ==> categories[k] == rest[k]);
        let found = ledger::stand_in(rest, gone);
        if let Some(best) = found {
            let m = choose|m: int| 0 <= m < rest.len() && rest[m] == best;
            assert(categories[m] == best && categories[m].name != gone);
        }
        text::lemma_precedes_total(last.created_at, last.created_at);
        if let Some(heir) = ledger::stand_in(categories, gone) {
            if heir == last {
                assert(categories.contains(heir));
            } else {
                assert(rest.contains(heir));
            }
            assert forall|k: int|
                0 <= k < categories.len() && (#[trigger] categories[k]).name != gone implies {
                let other = categories[k];
                &&& other.name == "杂务"@ ==> heir.name == "杂务"@
                &&& (other.name == "杂务"@) == (heir.name == "杂务"@) && other.is_builtin
                        ==> heir.is_builtin
                &&& (other.name == "杂务"@) == (heir.name == "杂务"@) && other.is_builtin
                    == heir.is_builtin ==> !text::precedes(other.created_at, heir.created_at)
            } by {
                let other = categories[k];
                if k < rest.len() {
                    assert(rest[k].name != gone);
                    assert(found is Some);
                    let best = found.unwrap();
                    text::lemma_precedes_total(last.created_at, best.created_at);
                    text::lemma_precedes_total(other.created_at, best.created_at);
                    if text::precedes(other.created_at, last.created_at) && text::precedes(
                        last.created_at,
                        best.created_at,
                    ) {
                        text::lemma_precedes_transitive(
                            other.created_at,
                            last.created_at,
                            best.created_at,
                        );
                    }
                }
            }
        }
    }
}

/// A deletion that arrives does what deleting on this device does, and one of a session or a rule
/// takes that record and no other. A note of an unknown kind changes nothing.
pub proof fn an_arriving_deletion_takes_only_its_own(before: LedgerView, note: TombstoneView)
    ensures
        note.entity_kind == "session"@ ==> (ledger::cleared(before, note) matches Some(after) && {
            &&& forall|item: SyncSessionView| #[trigger]
                after.sessions.contains(item) <==> before.sessions.contains(item) && item.session.id
                    != note.entity_id
            &&& after.categories == before.categories
            &&& after.projects == before.projects
            &&& after.tasks == before.tasks
            &&& after.rules == before.rules
            &&& after.tombstones == before.tombstones
        }),
        note.entity_kind == "rule"@ ==> (ledger::cleared(before, note) matches Some(after) && {
            &&& forall|item: SyncRuleView| #[trigger]
                after.rules.contains(item) <==> before.rules.contains(item) && item.rule.id
                    != note.entity_id
            &&& after.categories == before.categories
            &&& after.projects == before.projects
            &&& after.tasks == before.tasks
            &&& after.sessions == before.sessions
            &&& after.tombstones == before.tombstones
        }),
        note.entity_kind == "project"@ ==> ledger::cleared(before, note) == Some(
            ledger::without_project(before, note.entity_id),
        ),
        note.entity_kind == "task"@ ==> ledger::cleared(before, note) == Some(
            ledger::without_task(before, note.entity_id),
        ),
        note.entity_kind == "category"@ ==> match ledger::stand_in(
            before.categories,
            note.entity_id,
        ) {
            Some(heir) => ledger::cleared(before, note) == Some(
                ledger::without_category(before, note.entity_id, heir, note.deleted_at),
            ),
            None => ledger::cleared(before, note) is None,
        },
        note.entity_kind != "session"@ && note.entity_kind != "rule"@ && note.entity_kind
            != "project"@ && note.entity_kind != "task"@ && note.entity_kind != "category"@
            ==> ledger::cleared(before, note) == Some(before),
{
    let id = note.entity_id;
    reveal_strlit("project");
    reveal_strlit("task");
    reveal_strlit("category");
    reveal_strlit("session");
    reveal_strlit("rule");
    assert("project"@[0] == 'p' && "session"@[0] == 's' && "category"@[0] == 'c');
    assert("task"@[0] == 't' && "rule"@[0] == 'r');
    lists::lemma_filtered(before.sessions, |item: SyncSessionView| item.session.id != id);
    lists::lemma_filtered(before.rules, |item: SyncRuleView| item.rule.id != id);
}

/// The notes of a snapshot are honoured in turn: what one leaves, the next starts from.
pub proof fn arriving_deletions_follow_each_other(
    before: LedgerView,
    notes: Seq<TombstoneView>,
    last: TombstoneView,
)
    ensures
        ledger::cleared_all(before, Seq::empty()) == Some(before),
        ledger::cleared_all(before, notes.push(last)) == match ledger::cleared_all(before, notes) {
            Some(between) => ledger::cleared(between, last),
            None => None,
        },
{
    assert(notes.push(last).drop_last() =~= notes);
}

/// Sleep is counted from the earlier of the two days; a day that is no date does not count.
pub proof fn sleep_counts_from_the_earlier_day(
    old: Option<Seq<char>>,
    new: Option<Seq<char>>,
)
    ensures
        new is None ==> ledger::settled_start(old, new) == old,
        new matches Some(day) ==> clock::calendar_day(day) is None ==> ledger::settled_start(
            old,
            new,
        ) == old,
        new matches Some(day) ==> clock::calendar_day(day) is Some ==> match old {
            None => ledger::settled_start(old, new) == Some(day),
            Some(known) => ledger::settled_start(old, new) == Some(
                if text::precedes(day, known) {
                    day
                } else {
                    known
                },
            ),
        },
{
}

/// An export holds every record of this device as it stands, names this device as its origin, and
/// says when it was made.
pub proof fn exports_hold_everything(
    records: LedgerView,
    devices: Seq<SyncDeviceView>,
    config: SyncConfigView,
    now: Seq<char>,
)
    ensures
        ({
            let snapshot = ledger::exported(records, devices, config, now);
            &&& snapshot.schema_version == 1
            &&& snapshot.generated_at == now
            &&& snapshot.generated_by == config.device_id
            &&& snapshot.categories == records.categories
            &&& snapshot.projects == records.projects
            &&& snapshot.tasks == records.tasks
            &&& snapshot.sessions == records.sessions
            &&& snapshot.rules == records.rules
            &&& snapshot.tombstones == records.tombstones
            &&& snapshot.sleep_debt_started_on == records.sleep_debt_started_on
        }),
{
}

} // verus!
