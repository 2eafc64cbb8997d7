//! Promises of the synchronisation between devices.
use vstd::prelude::*;

use crate::ledger;
use crate::ledger::{LedgerView, Stored};
use crate::models::{Project, ProjectView, SessionView, SyncConfigView, SyncDeviceView, Task,
    TaskView};
use crate::sync;
use crate::sync::{
    Record, SnapshotView, SyncCategory, SyncRule, SyncSession, TombstoneRow, TombstoneView,
};
use crate::text;

verus! {

broadcast use vstd::seq_lib::group_seq_properties;

/// What writing records over others leaves of both, key by key.
pub open spec fn holds_newest<T: Stored>(
    list: Seq<T::V>,
    items: Seq<T::V>,
    after: Seq<T::V>,
) -> bool {
    &&& sync::keys_differ::<T>(after)
    &&& list.len() <= after.len()
    &&& forall|k: int|
        0 <= k < list.len() ==> T::key_of(#[trigger] after[k]) == T::key_of(list[k])
    &&& forall|k: int|
        0 <= k < list.len() && (forall|i: int|
            0 <= i < items.len() ==> T::key_of(#[trigger] items[i]) != T::key_of(list[k]))
            ==> #[trigger] after[k] == list[k]
    &&& forall|k: int|
        list.len() <= k < after.len() ==> items.contains(#[trigger] after[k]) || exists|i: int|
            0 <= i < items.len() && T::key_of(#[trigger] items[i]) == T::key_of(after[k])
    &&& sync::keys_differ::<T>(items) ==> forall|i: int, k: int|
        0 <= i < items.len() && 0 <= k < list.len() && T::key_of(#[trigger] items[i]) == T::key_of(
            #[trigger] list[k],
        ) ==> after[k] == if text::precedes(T::time_of(items[i]), T::time_of(list[k])) {
            list[k]
        } else {
            T::combined(list[k], items[i])
        }
    &&& sync::keys_differ::<T>(items) ==> forall|i: int|
        0 <= i < items.len() && (forall|k: int|
            0 <= k < list.len() ==> T::key_of(#[trigger] list[k]) != T::key_of(items[i]))
            ==> after.contains(#[trigger] items[i])
}

proof fn lemma_holds_newest<T: Stored>(
    list: Seq<T::V>,
    items: Seq<T::V>,
    projects: Set<Seq<char>>,
    tasks: Set<Seq<char>>,
    after: Seq<T::V>,
)
    requires
        sync::keys_differ::<T>(list),
        ledger::written_all::<T>(list, items, projects, tasks) == Some(after),
    ensures
        holds_newest::<T>(list, items, after),
    decreases items.len(),
{
    if items.len() > 0 {
        let rest = items.drop_last();
        let item = items.last();
        let key = T::key_of(item);
        let before = ledger::written_all::<T>(list, rest, projects, tasks).unwrap();
        lemma_holds_newest::<T>(list, rest, projects, tasks, before);
        sync::lemma_spot::<T>(before, key);
        let at = sync::spot::<T>(before, key) as int;
        assert(items[items.len() - 1] == item);
        assert(forall|i: int| 0 <= i < rest.len() ==> items[i] == rest[i]);
        if at < before.len() {
            T::combining_keeps_the_key(before[at], item);
        }
        assert forall|k: int| 0 <= k < before.len() implies T::key_of(#[trigger] after[k])
            == T::key_of(before[k]) by {}
        assert forall|i: int, j: int| 0 <= i < j < after.len() implies T::key_of(
            #[trigger] after[i],
        ) != T::key_of(#[trigger] after[j]) by {
            if j < before.len() {
                assert(T::key_of(before[i]) != T::key_of(before[j]));
            } else {
                assert(T::key_of(before[i]) != key);
            }
        }
        assert forall|k: int|
            0 <= k < list.len() && (forall|i: int|
                0 <= i < items.len() ==> T::key_of(#[trigger] items[i]) != T::key_of(
                    list[k],
                )) implies #[trigger] after[k] == list[k] by {
            assert forall|i: int| 0 <= i < rest.len() implies T::key_of(#[trigger] rest[i])
                != T::key_of(list[k]) by {
                assert(T::key_of(items[i]) != T::key_of(list[k]));
            }
            assert(before[k] == list[k]);
            assert(T::key_of(items[items.len() - 1]) != T::key_of(list[k]));
        }
        assert forall|k: int| list.len() <= k < after.len() implies items.contains(
            #[trigger] after[k],
        ) || exists|i: int|
            0 <= i < items.len() && T::key_of(#[trigger] items[i]) == T::key_of(after[k]) by {
            if k < before.len() {
                assert(rest.contains(before[k]) || exists|i: int|
                    0 <= i < rest.len() && T::key_of(#[trigger] rest[i]) == T::key_of(before[k]));
                let i = if rest.contains(before[k]) {
                    choose|i: int| 0 <= i < rest.len() && rest[i] == before[k]
                } else {
                    choose|i: int|
                        0 <= i < rest.len() && T::key_of(#[trigger] rest[i]) == T::key_of(before[k])
                };
                assert(T::key_of(items[i]) == T::key_of(after[k]));
            } else {
                assert(T::key_of(items[items.len() - 1]) == T::key_of(after[k]));
            }
        }
        if sync::keys_differ::<T>(items) {
            assert(sync::keys_differ::<T>(rest));
            assert forall|i: int| 0 <= i < rest.len()
                implies T::key_of(#[trigger] rest[i]) != key by {
                assert(T::key_of(items[i]) != T::key_of(items[items.len() - 1]));
            }
            assert forall|i: int, k: int|
                0 <= i < items.len() && 0 <= k < list.len() && T::key_of(#[trigger] items[i])
                    == T::key_of(#[trigger] list[k]) implies after[k] == if text::precedes(
                T::time_of(items[i]),
                T::time_of(list[k]),
            ) {
                list[k]
            } else {
                T::combined(list[k], items[i])
            } by {
                assert(T::key_of(before[k]) == T::key_of(list[k]));
                if i < rest.len() {
                    assert(T::key_of(rest[i]) == T::key_of(list[k]));
                    assert(T::key_of(before[k]) != key);
                    assert(after[k] == before[k]);
                } else {
                    assert forall|m: int| 0 <= m < rest.len() implies T::key_of(#[trigger] rest[m])
                        != T::key_of(list[k]) by {}
                    assert(before[k] == list[k]);
                    if at < k {
                        assert(T::key_of(before[at]) != T::key_of(before[k]));
                    }
                    assert(at == k);
                }
            }
            assert forall|i: int|
                0 <= i < items.len() && (forall|k: int|
                    0 <= k < list.len() ==> T::key_of(#[trigger] list[k]) != T::key_of(
                        items[i],
                    )) implies after.contains(#[trigger] items[i]) by {
                if i < rest.len() {
                    assert(before.contains(rest[i]));
                    let m = choose|m: int| 0 <= m < before.len() && before[m] == rest[i];
                    assert(T::key_of(before[m]) != key);
                    assert(after[m] == rest[i]);
                } else {
                    if at < list.len() {
                        assert(T::key_of(list[at]) != key);
                    } else if at < before.len() {
                        assert(rest.contains(before[at]) || exists|m: int|
                            0 <= m < rest.len() && T::key_of(#[trigger] rest[m]) == T::key_of(
                                before[at],
                            ));
                    }
                    assert(after[before.len() as int] == item);
                }
            }
        }
    }
}

/// The snapshot holds one record of every key.
pub open spec fn snapshot_keys_differ(snapshot: SnapshotView) -> bool {
    &&& sync::keys_differ::<SyncCategory>(snapshot.categories)
    &&& sync::keys_differ::<Project>(snapshot.projects)
    &&& sync::keys_differ::<Task>(snapshot.tasks)
    &&& sync::keys_differ::<SyncSession>(snapshot.sessions)
    &&& sync::keys_differ::<SyncRule>(snapshot.rules)
    &&& sync::keys_differ::<TombstoneRow>(snapshot.tombstones)
}

proof fn lemma_all_newest(ledger: LedgerView, snapshot: SnapshotView, after: LedgerView)
    requires
        ledger::sound(ledger),
        ledger::overwritten(ledger, snapshot) == Some(after),
    ensures
        holds_newest::<SyncCategory>(ledger.categories, snapshot.categories, after.categories),
        holds_newest::<Project>(ledger.projects, snapshot.projects, after.projects),
        holds_newest::<Task>(ledger.tasks, snapshot.tasks, after.tasks),
        holds_newest::<SyncSession>(ledger.sessions, snapshot.sessions, after.sessions),
        holds_newest::<SyncRule>(ledger.rules, snapshot.rules, after.rules),
        holds_newest::<TombstoneRow>(ledger.tombstones, snapshot.tombstones, after.tombstones),
{
    let none = Set::<Seq<char>>::empty();
    lemma_holds_newest::<SyncCategory>(
        ledger.categories,
        snapshot.categories,
        none,
        none,
        after.categories,
    );
    lemma_holds_newest::<Project>(ledger.projects, snapshot.projects, none, none, after.projects);
    lemma_holds_newest::<SyncRule>(ledger.rules, snapshot.rules, none, none, after.rules);
    lemma_holds_newest::<TombstoneRow>(
        ledger.tombstones,
        snapshot.tombstones,
        none,
        none,
        after.tombstones,
    );
    let ids = ledger::key_set::<Project>(after.projects);
    lemma_holds_newest::<Task>(ledger.tasks, snapshot.tasks, ids, none, after.tasks);
    lemma_holds_newest::<SyncSession>(
        ledger.sessions,
        snapshot.sessions,
        ids,
        ledger::key_set::<Task>(after.tasks),
        after.sessions,
    );
}

proof fn lemma_kept_notes(ledger: LedgerView, tombstones: Seq<TombstoneView>)
    requires
        ledger::cleared_all(ledger, tombstones) is Some,
    ensures
        ledger::cleared_all(ledger, tombstones).unwrap().tombstones == ledger.tombstones,
        ledger::cleared_all(ledger, tombstones).unwrap().sleep_debt_started_on
            == ledger.sleep_debt_started_on,
    decreases tombstones.len(),
{
    if tombstones.len() > 0 {
        lemma_kept_notes(ledger, tombstones.drop_last());
    }
}

proof fn lemma_all_written(ledger: LedgerView, snapshot: SnapshotView, after: LedgerView)
    requires
        ledger::sound(ledger),
        ledger::applied(ledger, snapshot) == Ok::<LedgerView, ledger::ApplyError>(after),
    ensures
        snapshot.tombstones.len() == 0 ==> {
            &&& holds_newest::<SyncCategory>(
                ledger.categories,
                snapshot.categories,
                after.categories,
            )
            &&& holds_newest::<Project>(ledger.projects, snapshot.projects, after.projects)
            &&& holds_newest::<Task>(ledger.tasks, snapshot.tasks, after.tasks)
            &&& holds_newest::<SyncSession>(ledger.sessions, snapshot.sessions, after.sessions)
            &&& holds_newest::<SyncRule>(ledger.rules, snapshot.rules, after.rules)
        },
        holds_newest::<TombstoneRow>(ledger.tombstones, snapshot.tombstones, after.tombstones),
{
    let full = ledger::overwritten(ledger, snapshot).unwrap();
    lemma_all_newest(ledger, snapshot, full);
    lemma_kept_notes(full, snapshot.tombstones);
}

/// A change that another device made to a project arrives: the newer of the two records stands with
/// all that it says, only when the project was first entered stays as this device knows it. What the
/// snapshot does not hold stays, what this device did not hold is added, and nothing else comes.
pub proof fn newer_projects_arrive(ledger: LedgerView, snapshot: SnapshotView, after: LedgerView)
    requires
        ledger::sound(ledger),
        snapshot_keys_differ(snapshot),
        snapshot.tombstones.len() == 0,
        ledger::applied(ledger, snapshot) == Ok::<LedgerView, ledger::ApplyError>(after),
    ensures
        forall|i: int, k: int|
            0 <= i < snapshot.projects.len() && 0 <= k < ledger.projects.len()
                && (#[trigger] snapshot.projects[i]).id == (#[trigger] ledger.projects[k]).id
                ==> after.projects[k].id == ledger.projects[k].id
                    && if text::precedes(snapshot.projects[i].updated_at,
                    ledger.projects[k].updated_at) {
                after.projects[k] == ledger.projects[k]
            } else {
                &&& after.projects[k].name == snapshot.projects[i].name
                &&& after.projects[k].category == snapshot.projects[i].category
                &&& after.projects[k].source == snapshot.projects[i].source
                &&& after.projects[k].color == snapshot.projects[i].color
                &&& after.projects[k].description == snapshot.projects[i].description
                &&& after.projects[k].updated_at == snapshot.projects[i].updated_at
                &&& after.projects[k].created_at == ledger.projects[k].created_at
            },
        forall|i: int|
            0 <= i < snapshot.projects.len() && (forall|k: int|
                0 <= k < ledger.projects.len() ==> !((#[trigger] ledger.projects[k]).id
                    == snapshot.projects[i].id))
                ==> after.projects.contains(#[trigger] snapshot.projects[i]),
        forall|k: int|
            0 <= k < ledger.projects.len() && (forall|i: int|
                0 <= i < snapshot.projects.len() ==> !((#[trigger] snapshot.projects[i]).id
                    == ledger.projects[k].id))
                ==> after.projects.contains(#[trigger] ledger.projects[k]),
        forall|m: int|
            0 <= m < after.projects.len() ==> (exists|k: int|
                0 <= k < ledger.projects.len() && (#[trigger] ledger.projects[k]).id
                    == after.projects[m].id) || (exists|
                i: int,
            |
                0 <= i < snapshot.projects.len() && (#[trigger] snapshot.projects[i]).id
                    == (#[trigger] after.projects[m]).id),
{
    lemma_all_written(ledger, snapshot, after);
    let list = ledger.projects;
    let items = snapshot.projects;
    let rows = after.projects;
    assert forall|i: int, k: int|
        0 <= i < items.len() && 0 <= k < list.len() && (#[trigger] items[i]).id
            == (#[trigger] list[k]).id implies rows[k].id == list[k].id
            && if text::precedes(items[i].updated_at, list[k].updated_at) {
        rows[k] == list[k]
    } else {
        &&& rows[k].name == items[i].name
        &&& rows[k].category == items[i].category
        &&& rows[k].source == items[i].source
        &&& rows[k].color == items[i].color
        &&& rows[k].description == items[i].description
        &&& rows[k].updated_at == items[i].updated_at
        &&& rows[k].created_at == list[k].created_at
    } by {
        assert(Project::key_of(items[i]) == Project::key_of(list[k]));
        assert(Project::key_of(rows[k]) == Project::key_of(list[k]));
    }
    assert forall|i: int|
        0 <= i < items.len() && (forall|k: int|
            0 <= k < list.len() ==> !((#[trigger] list[k]).id == items[i].id))
                implies rows.contains(#[trigger] items[i]) by {
        assert forall|k: int| 0 <= k < list.len() implies Project::key_of(#[trigger] list[k])
            != Project::key_of(items[i]) by {
        }
    }
    assert forall|k: int|
        0 <= k < list.len() && (forall|i: int|
            0 <= i < items.len() ==> !((#[trigger] items[i]).id == list[k].id))
                implies rows.contains(#[trigger] list[k]) by {
        assert forall|i: int| 0 <= i < items.len() implies Project::key_of(#[trigger] items[i])
            != Project::key_of(list[k]) by {
        }
        assert(rows[k] == list[k]);
    }
    assert forall|m: int| 0 <= m < rows.len() implies (exists|k: int|
        0 <= k < list.len() && (#[trigger] list[k]).id == rows[m].id) || (exists|i: int|
        0 <= i < items.len() && (#[trigger] items[i]).id == (#[trigger] rows[m]).id) by {
        if m < list.len() {
            assert(Project::key_of(rows[m]) == Project::key_of(list[m]));
            assert(list[m].id == rows[m].id);
        } else {
            assert(items.contains(rows[m]) || exists|i: int|
                0 <= i < items.len() && Project::key_of(#[trigger] items[i])
                    == Project::key_of(rows[m]));
            let i = if items.contains(rows[m]) {
                choose|i: int| 0 <= i < items.len() && items[i] == rows[m]
            } else {
                choose|i: int|
                    0 <= i < items.len() && Project::key_of(#[trigger] items[i])
                        == Project::key_of(rows[m])
            };
            assert(items[i].id == rows[m].id);
        }
    }
}

/// A change that another device made to a task arrives, as one to a project does.
pub proof fn newer_tasks_arrive(ledger: LedgerView, snapshot: SnapshotView, after: LedgerView)
    requires
        ledger::sound(ledger),
        snapshot_keys_differ(snapshot),
        snapshot.tombstones.len() == 0,
        ledger::applied(ledger, snapshot) == Ok::<LedgerView, ledger::ApplyError>(after),
    ensures
        forall|i: int, k: int|
            0 <= i < snapshot.tasks.len() && 0 <= k < ledger.tasks.len()
                && (#[trigger] snapshot.tasks[i]).id == (#[trigger] ledger.tasks[k]).id
                ==> after.tasks[k].id == ledger.tasks[k].id
                && if text::precedes(snapshot.tasks[i].updated_at, ledger.tasks[k].updated_at) {
                after.tasks[k] == ledger.tasks[k]
            } else {
                &&& after.tasks[k].project_id == snapshot.tasks[i].project_id
                &&& after.tasks[k].title == snapshot.tasks[i].title
                &&& after.tasks[k].status == snapshot.tasks[i].status
                &&& after.tasks[k].source == snapshot.tasks[i].source
                &&& after.tasks[k].planned_due_at == snapshot.tasks[i].planned_due_at
                &&& after.tasks[k].updated_at == snapshot.tasks[i].updated_at
                &&& after.tasks[k].created_at == ledger.tasks[k].created_at
            },
        forall|i: int|
            0 <= i < snapshot.tasks.len() && (forall|k: int|
                0 <= k < ledger.tasks.len() ==> !((#[trigger] ledger.tasks[k]).id
                    == snapshot.tasks[i].id))
                ==> after.tasks.contains(#[trigger] snapshot.tasks[i]),
        forall|k: int|
            0 <= k < ledger.tasks.len() && (forall|i: int|
                0 <= i < snapshot.tasks.len() ==> !((#[trigger] snapshot.tasks[i]).id
                    == ledger.tasks[k].id))
                ==> after.tasks.contains(#[trigger] ledger.tasks[k]),
        forall|m: int|
            0 <= m < after.tasks.len() ==> (exists|k: int|
                0 <= k < ledger.tasks.len() && (#[trigger] ledger.tasks[k]).id
                    == after.tasks[m].id) || (exists|
                i: int,
            |
                0 <= i < snapshot.tasks.len() && (#[trigger] snapshot.tasks[i]).id
                    == (#[trigger] after.tasks[m]).id),
{
    lemma_all_written(ledger, snapshot, after);
    let list = ledger.tasks;
    let items = snapshot.tasks;
    let rows = after.tasks;
    assert forall|i: int, k: int|
        0 <= i < items.len() && 0 <= k < list.len() && (#[trigger] items[i]).id
            == (#[trigger] list[k]).id implies rows[k].id == list[k].id
            && if text::precedes(items[i].updated_at, list[k].updated_at) {
        rows[k] == list[k]
    } else {
        &&& rows[k].project_id == items[i].project_id
        &&& rows[k].title == items[i].title
        &&& rows[k].status == items[i].status
        &&& rows[k].source == items[i].source
        &&& rows[k].planned_due_at == items[i].planned_due_at
        &&& rows[k].updated_at == items[i].updated_at
        &&& rows[k].created_at == list[k].created_at
    } by {
        assert(Task::key_of(items[i]) == Task::key_of(list[k]));
        assert(Task::key_of(rows[k]) == Task::key_of(list[k]));
    }
    assert forall|i: int|
        0 <= i < items.len() && (forall|k: int|
            0 <= k < list.len() ==> !((#[trigger] list[k]).id == items[i].id))
                implies rows.contains(#[trigger] items[i]) by {
        assert forall|k: int| 0 <= k < list.len() implies Task::key_of(#[trigger] list[k])
            != Task::key_of(items[i]) by {
        }
    }
    assert forall|k: int|
        0 <= k < list.len() && (forall|i: int|
            0 <= i < items.len() ==> !((#[trigger] items[i]).id == list[k].id))
                implies rows.contains(#[trigger] list[k]) by {
        assert forall|i: int| 0 <= i < items.len() implies Task::key_of(#[trigger] items[i])
            != Task::key_of(list[k]) by {
        }
        assert(rows[k] == list[k]);
    }
    assert forall|m: int| 0 <= m < rows.len() implies (exists|k: int|
        0 <= k < list.len() && (#[trigger] list[k]).id == rows[m].id) || (exists|i: int|
        0 <= i < items.len() && (#[trigger] items[i]).id == (#[trigger] rows[m]).id) by {
        if m < list.len() {
            assert(Task::key_of(rows[m]) == Task::key_of(list[m]));
            assert(list[m].id == rows[m].id);
        } else {
            assert(items.contains(rows[m]) || exists|i: int|
                0 <= i < items.len() && Task::key_of(#[trigger] items[i]) == Task::key_of(rows[m]));
            let i = if items.contains(rows[m]) {
                choose|i: int| 0 <= i < items.len() && items[i] == rows[m]
            } else {
                choose|i: int|
                    0 <= i < items.len() && Task::key_of(#[trigger] items[i])
                        == Task::key_of(rows[m])
            };
            assert(items[i].id == rows[m].id);
        }
    }
}

/// A change that another device made to a category arrives, as one to a project does. A category
/// that came with either device stays one of those.
pub proof fn newer_categories_arrive(ledger: LedgerView, snapshot: SnapshotView, after: LedgerView)
    requires
        ledger::sound(ledger),
        snapshot_keys_differ(snapshot),
        snapshot.tombstones.len() == 0,
        ledger::applied(ledger, snapshot) == Ok::<LedgerView, ledger::ApplyError>(after),
    ensures
        forall|i: int, k: int|
            0 <= i < snapshot.categories.len() && 0 <= k < ledger.categories.len()
                && (#[trigger] snapshot.categories[i]).name
                == (#[trigger] ledger.categories[k]).name
                ==> after.categories[k].name == ledger.categories[k].name
                    && if text::precedes(snapshot.categories[i].updated_at,
                    ledger.categories[k].updated_at) {
                after.categories[k] == ledger.categories[k]
            } else {
                &&& after.categories[k].color == snapshot.categories[i].color
                &&& after.categories[k].updated_at == snapshot.categories[i].updated_at
                &&& after.categories[k].is_builtin == (ledger.categories[k].is_builtin
                    || snapshot.categories[i].is_builtin)
                &&& after.categories[k].created_at == ledger.categories[k].created_at
            },
        forall|i: int|
            0 <= i < snapshot.categories.len() && (forall|k: int|
                0 <= k < ledger.categories.len() ==> !((#[trigger] ledger.categories[k]).name
                    == snapshot.categories[i].name))
                ==> after.categories.contains(#[trigger] snapshot.categories[i]),
        forall|k: int|
            0 <= k < ledger.categories.len() && (forall|i: int|
                0 <= i < snapshot.categories.len()
                    ==> !((#[trigger] snapshot.categories[i]).name == ledger.categories[k].name))
                ==> after.categories.contains(#[trigger] ledger.categories[k]),
        forall|m: int|
            0 <= m < after.categories.len() ==> (exists|k: int|
                0 <= k < ledger.categories.len() && (#[trigger] ledger.categories[k]).name
                    == after.categories[m].name) || (exists|
                i: int,
            |
                0 <= i < snapshot.categories.len() && (#[trigger] snapshot.categories[i]).name
                    == (#[trigger] after.categories[m]).name),
{
    lemma_all_written(ledger, snapshot, after);
    let list = ledger.categories;
    let items = snapshot.categories;
    let rows = after.categories;
    assert forall|i: int, k: int|
        0 <= i < items.len() && 0 <= k < list.len() && (#[trigger] items[i]).name
            == (#[trigger] list[k]).name implies rows[k].name == list[k].name
            && if text::precedes(items[i].updated_at, list[k].updated_at) {
        rows[k] == list[k]
    } else {
        &&& rows[k].color == items[i].color
        &&& rows[k].updated_at == items[i].updated_at
        &&& rows[k].is_builtin == (list[k].is_builtin || items[i].is_builtin)
        &&& rows[k].created_at == list[k].created_at
    } by {
        assert(SyncCategory::key_of(items[i]) == SyncCategory::key_of(list[k]));
        assert(SyncCategory::key_of(rows[k]) == SyncCategory::key_of(list[k]));
    }
    assert forall|i: int|
        0 <= i < items.len() && (forall|k: int|
            0 <= k < list.len() ==> !((#[trigger] list[k]).name == items[i].name))
                implies rows.contains(#[trigger] items[i]) by {
        assert forall|k: int| 0 <= k < list.len() implies SyncCategory::key_of(#[trigger] list[k])
            != SyncCategory::key_of(items[i]) by {
        }
    }
    assert forall|k: int|
        0 <= k < list.len() && (forall|i: int|
            0 <= i < items.len() ==> !((#[trigger] items[i]).name == list[k].name))
                implies rows.contains(#[trigger] list[k]) by {
        assert forall|i: int| 0 <= i < items.len() implies SyncCategory::key_of(#[trigger] items[i])
            != SyncCategory::key_of(list[k]) by {
        }
        assert(rows[k] == list[k]);
    }
    assert forall|m: int| 0 <= m < rows.len() implies (exists|k: int|
        0 <= k < list.len() && (#[trigger] list[k]).name == rows[m].name) || (exists|i: int|
        0 <= i < items.len() && (#[trigger] items[i]).name == (#[trigger] rows[m]).name) by {
        if m < list.len() {
            assert(SyncCategory::key_of(rows[m]) == SyncCategory::key_of(list[m]));
            assert(list[m].name == rows[m].name);
        } else {
            assert(items.contains(rows[m]) || exists|i: int|
                0 <= i < items.len() && SyncCategory::key_of(#[trigger] items[i])
                    == SyncCategory::key_of(rows[m]));
            let i = if items.contains(rows[m]) {
                choose|i: int| 0 <= i < items.len() && items[i] == rows[m]
            } else {
                choose|i: int|
                    0 <= i < items.len() && SyncCategory::key_of(#[trigger] items[i])
                        == SyncCategory::key_of(rows[m])
            };
            assert(items[i].name == rows[m].name);
        }
    }
}

/// A correction that another device made to a session arrives whole: the newer of the two records
/// stands. What the snapshot does not hold stays, what this device did not hold is added, and nothing
/// else comes.
pub proof fn newer_sessions_arrive(ledger: LedgerView, snapshot: SnapshotView, after: LedgerView)
    requires
        ledger::sound(ledger),
        snapshot_keys_differ(snapshot),
        snapshot.tombstones.len() == 0,
        ledger::applied(ledger, snapshot) == Ok::<LedgerView, ledger::ApplyError>(after),
    ensures
        forall|i: int, k: int|
            0 <= i < snapshot.sessions.len() && 0 <= k < ledger.sessions.len()
                && (#[trigger] snapshot.sessions[i]).session.id
                == (#[trigger] ledger.sessions[k]).session.id
                ==> after.sessions[k].session.id == ledger.sessions[k].session.id
                    && if text::precedes(snapshot.sessions[i].updated_at,
                    ledger.sessions[k].updated_at) {
                after.sessions[k] == ledger.sessions[k]
            } else {
                &&& after.sessions[k] == snapshot.sessions[i]
            },
        forall|i: int|
            0 <= i < snapshot.sessions.len() && (forall|k: int|
                0 <= k < ledger.sessions.len() ==> !((#[trigger] ledger.sessions[k]).session.id
                    == snapshot.sessions[i].session.id))
                ==> after.sessions.contains(#[trigger] snapshot.sessions[i]),
        forall|k: int|
            0 <= k < ledger.sessions.len() && (forall|i: int|
                0 <= i < snapshot.sessions.len()
                    ==> !((#[trigger] snapshot.sessions[i]).session.id
                    == ledger.sessions[k].session.id))
                ==> after.sessions.contains(#[trigger] ledger.sessions[k]),
        forall|m: int|
            0 <= m < after.sessions.len() ==> (exists|k: int|
                0 <= k < ledger.sessions.len() && (#[trigger] ledger.sessions[k]).session.id
                    == after.sessions[m].session.id) || (exists|
                i: int,
            |
                0 <= i < snapshot.sessions.len()
                    && (#[trigger] snapshot.sessions[i]).session.id
                    == (#[trigger] after.sessions[m]).session.id),
{
    lemma_all_written(ledger, snapshot, after);
    let list = ledger.sessions;
    let items = snapshot.sessions;
    let rows = after.sessions;
    assert forall|i: int, k: int|
        0 <= i < items.len() && 0 <= k < list.len() && (#[trigger] items[i]).session.id
            == (#[trigger] list[k]).session.id implies rows[k].session.id == list[k].session.id
            && if text::precedes(items[i].updated_at, list[k].updated_at) {
        rows[k] == list[k]
    } else {
        &&& rows[k] == items[i]
    } by {
        assert(SyncSession::key_of(items[i]) == SyncSession::key_of(list[k]));
        assert(SyncSession::key_of(rows[k]) == SyncSession::key_of(list[k]));
    }
    assert forall|i: int|
        0 <= i < items.len() && (forall|k: int|
            0 <= k < list.len() ==> !((#[trigger] list[k]).session.id
                == items[i].session.id)) implies rows.contains(#[trigger] items[i]) by {
        assert forall|k: int| 0 <= k < list.len() implies SyncSession::key_of(#[trigger] list[k])
            != SyncSession::key_of(items[i]) by {
        }
    }
    assert forall|k: int|
        0 <= k < list.len() && (forall|i: int|
            0 <= i < items.len() ==> !((#[trigger] items[i]).session.id
                == list[k].session.id)) implies rows.contains(#[trigger] list[k]) by {
        assert forall|i: int| 0 <= i < items.len() implies SyncSession::key_of(#[trigger] items[i])
            != SyncSession::key_of(list[k]) by {
        }
        assert(rows[k] == list[k]);
    }
    assert forall|m: int| 0 <= m < rows.len() implies (exists|k: int|
        0 <= k < list.len() && (#[trigger] list[k]).session.id == rows[m].session.id)
            || (exists|i: int|
        0 <= i < items.len() && (#[trigger] items[i]).session.id
            == (#[trigger] rows[m]).session.id) by {
        if m < list.len() {
            assert(SyncSession::key_of(rows[m]) == SyncSession::key_of(list[m]));
            assert(list[m].session.id == rows[m].session.id);
        } else {
            assert(items.contains(rows[m]) || exists|i: int|
                0 <= i < items.len() && SyncSession::key_of(#[trigger] items[i])
                    == SyncSession::key_of(rows[m]));
            let i = if items.contains(rows[m]) {
                choose|i: int| 0 <= i < items.len() && items[i] == rows[m]
            } else {
                choose|i: int|
                    0 <= i < items.len() && SyncSession::key_of(#[trigger] items[i])
                        == SyncSession::key_of(rows[m])
            };
            assert(items[i].session.id == rows[m].session.id);
        }
    }
}

/// A rule that another device taught or changed arrives whole.
pub proof fn newer_rules_arrive(ledger: LedgerView, snapshot: SnapshotView, after: LedgerView)
    requires
        ledger::sound(ledger),
        snapshot_keys_differ(snapshot),
        snapshot.tombstones.len() == 0,
        ledger::applied(ledger, snapshot) == Ok::<LedgerView, ledger::ApplyError>(after),
    ensures
        forall|i: int, k: int|
            0 <= i < snapshot.rules.len() && 0 <= k < ledger.rules.len()
                && (#[trigger] snapshot.rules[i]).rule.id == (#[trigger] ledger.rules[k]).rule.id
                ==> after.rules[k].rule.id == ledger.rules[k].rule.id
                    && if text::precedes(snapshot.rules[i].updated_at, ledger.rules[k].updated_at) {
                after.rules[k] == ledger.rules[k]
            } else {
                &&& after.rules[k] == snapshot.rules[i]
            },
        forall|i: int|
            0 <= i < snapshot.rules.len() && (forall|k: int|
                0 <= k < ledger.rules.len() ==> !((#[trigger] ledger.rules[k]).rule.id
                    == snapshot.rules[i].rule.id))
                ==> after.rules.contains(#[trigger] snapshot.rules[i]),
        forall|k: int|
            0 <= k < ledger.rules.len() && (forall|i: int|
                0 <= i < snapshot.rules.len() ==> !((#[trigger] snapshot.rules[i]).rule.id
                    == ledger.rules[k].rule.id))
                ==> after.rules.contains(#[trigger] ledger.rules[k]),
        forall|m: int|
            0 <= m < after.rules.len() ==> (exists|k: int|
                0 <= k < ledger.rules.len() && (#[trigger] ledger.rules[k]).rule.id
                    == after.rules[m].rule.id) || (exists|
                i: int,
            |
                0 <= i < snapshot.rules.len() && (#[trigger] snapshot.rules[i]).rule.id
                    == (#[trigger] after.rules[m]).rule.id),
{
    lemma_all_written(ledger, snapshot, after);
    let list = ledger.rules;
    let items = snapshot.rules;
    let rows = after.rules;
    assert forall|i: int, k: int|
        0 <= i < items.len() && 0 <= k < list.len() && (#[trigger] items[i]).rule.id
            == (#[trigger] list[k]).rule.id implies rows[k].rule.id == list[k].rule.id
            && if text::precedes(items[i].updated_at, list[k].updated_at) {
        rows[k] == list[k]
    } else {
        &&& rows[k] == items[i]
    } by {
        assert(SyncRule::key_of(items[i]) == SyncRule::key_of(list[k]));
        assert(SyncRule::key_of(rows[k]) == SyncRule::key_of(list[k]));
    }
    assert forall|i: int|
        0 <= i < items.len() && (forall|k: int|
            0 <= k < list.len() ==> !((#[trigger] list[k]).rule.id == items[i].rule.id))
                implies rows.contains(#[trigger] items[i]) by {
        assert forall|k: int| 0 <= k < list.len() implies SyncRule::key_of(#[trigger] list[k])
            != SyncRule::key_of(items[i]) by {
        }
    }
    assert forall|k: int|
        0 <= k < list.len() && (forall|i: int|
            0 <= i < items.len() ==> !((#[trigger] items[i]).rule.id == list[k].rule.id))
                implies rows.contains(#[trigger] list[k]) by {
        assert forall|i: int| 0 <= i < items.len() implies SyncRule::key_of(#[trigger] items[i])
            != SyncRule::key_of(list[k]) by {
        }
        assert(rows[k] == list[k]);
    }
    assert forall|m: int| 0 <= m < rows.len() implies (exists|k: int|
        0 <= k < list.len() && (#[trigger] list[k]).rule.id == rows[m].rule.id) || (exists|i: int|
        0 <= i < items.len() && (#[trigger] items[i]).rule.id == (#[trigger] rows[m]).rule.id) by {
        if m < list.len() {
            assert(SyncRule::key_of(rows[m]) == SyncRule::key_of(list[m]));
            assert(list[m].rule.id == rows[m].rule.id);
        } else {
            assert(items.contains(rows[m]) || exists|i: int|
                0 <= i < items.len() && SyncRule::key_of(#[trigger] items[i])
                    == SyncRule::key_of(rows[m]));
            let i = if items.contains(rows[m]) {
                choose|i: int| 0 <= i < items.len() && items[i] == rows[m]
            } else {
                choose|i: int|
                    0 <= i < items.len() && SyncRule::key_of(#[trigger] items[i])
                        == SyncRule::key_of(rows[m])
            };
            assert(items[i].rule.id == rows[m].rule.id);
        }
    }
}

/// A deletion that another device noted arrives whole.
pub proof fn newer_deletions_arrive(ledger: LedgerView, snapshot: SnapshotView, after: LedgerView)
    requires
        ledger::sound(ledger),
        snapshot_keys_differ(snapshot),
        ledger::applied(ledger, snapshot) == Ok::<LedgerView, ledger::ApplyError>(after),
    ensures
        forall|i: int, k: int|
            0 <= i < snapshot.tombstones.len() && 0 <= k < ledger.tombstones.len()
                && ((#[trigger] snapshot.tombstones[i]).entity_kind
                == (#[trigger] ledger.tombstones[k]).entity_kind
                && (snapshot.tombstones[i]).entity_id == (ledger.tombstones[k]).entity_id)
                ==> (after.tombstones[k].entity_kind == ledger.tombstones[k].entity_kind
                    && after.tombstones[k].entity_id == ledger.tombstones[k].entity_id)
                    && if text::precedes(snapshot.tombstones[i].deleted_at,
                    ledger.tombstones[k].deleted_at) {
                after.tombstones[k] == ledger.tombstones[k]
            } else {
                &&& after.tombstones[k] == snapshot.tombstones[i]
            },
        forall|i: int|
            0 <= i < snapshot.tombstones.len() && (forall|k: int|
                0 <= k < ledger.tombstones.len()
                    ==> !(((#[trigger] ledger.tombstones[k]).entity_kind
                    == snapshot.tombstones[i].entity_kind && (ledger.tombstones[k]).entity_id
                    == snapshot.tombstones[i].entity_id)))
                ==> after.tombstones.contains(#[trigger] snapshot.tombstones[i]),
        forall|k: int|
            0 <= k < ledger.tombstones.len() && (forall|i: int|
                0 <= i < snapshot.tombstones.len()
                    ==> !(((#[trigger] snapshot.tombstones[i]).entity_kind
                    == ledger.tombstones[k].entity_kind && (snapshot.tombstones[i]).entity_id
                    == ledger.tombstones[k].entity_id)))
                ==> after.tombstones.contains(#[trigger] ledger.tombstones[k]),
        forall|m: int|
            0 <= m < after.tombstones.len() ==> (exists|k: int|
                0 <= k < ledger.tombstones.len()
                    && ((#[trigger] ledger.tombstones[k]).entity_kind
                    == after.tombstones[m].entity_kind
                    && (ledger.tombstones[k]).entity_id == after.tombstones[m].entity_id))
                    || (exists|
                i: int,
            |
                0 <= i < snapshot.tombstones.len()
                    && ((#[trigger] snapshot.tombstones[i]).entity_kind
                    == (#[trigger] after.tombstones[m]).entity_kind
                    && (snapshot.tombstones[i]).entity_id == (after.tombstones[m]).entity_id)),
{
    lemma_all_written(ledger, snapshot, after);
    let list = ledger.tombstones;
    let items = snapshot.tombstones;
    let rows = after.tombstones;
    assert forall|i: int, k: int|
        0 <= i < items.len() && 0 <= k < list.len() && ((#[trigger] items[i]).entity_kind
            == (#[trigger] list[k]).entity_kind && (items[i]).entity_id
            == (list[k]).entity_id) implies (rows[k].entity_kind == list[k].entity_kind
            && rows[k].entity_id == list[k].entity_id) && if text::precedes(items[i].deleted_at,
            list[k].deleted_at) {
        rows[k] == list[k]
    } else {
        &&& rows[k] == items[i]
    } by {
        assert(TombstoneRow::key_of(items[i]) == TombstoneRow::key_of(list[k]));
        assert(TombstoneRow::key_of(rows[k]) == TombstoneRow::key_of(list[k]));
        sync::stored_tombstones_are_told_apart(rows[k].entity_kind, rows[k].entity_id,
            list[k].entity_kind, list[k].entity_id);
    }
    assert forall|i: int|
        0 <= i < items.len() && (forall|k: int|
            0 <= k < list.len() ==> !(((#[trigger] list[k]).entity_kind == items[i].entity_kind
                && (list[k]).entity_id == items[i].entity_id)))
                implies rows.contains(#[trigger] items[i]) by {
        assert forall|k: int| 0 <= k < list.len() implies TombstoneRow::key_of(#[trigger] list[k])
            != TombstoneRow::key_of(items[i]) by {
            sync::stored_tombstones_are_told_apart(list[k].entity_kind, list[k].entity_id,
                items[i].entity_kind, items[i].entity_id);
        }
    }
    assert forall|k: int|
        0 <= k < list.len() && (forall|i: int|
            0 <= i < items.len() ==> !(((#[trigger] items[i]).entity_kind
                == list[k].entity_kind && (items[i]).entity_id == list[k].entity_id)))
                implies rows.contains(#[trigger] list[k]) by {
        assert forall|i: int| 0 <= i < items.len() implies TombstoneRow::key_of(#[trigger] items[i])
            != TombstoneRow::key_of(list[k]) by {
            sync::stored_tombstones_are_told_apart(items[i].entity_kind, items[i].entity_id,
                list[k].entity_kind, list[k].entity_id);
        }
        assert(rows[k] == list[k]);
    }
    assert forall|m: int| 0 <= m < rows.len() implies (exists|k: int|
        0 <= k < list.len() && ((#[trigger] list[k]).entity_kind == rows[m].entity_kind
            && (list[k]).entity_id == rows[m].entity_id)) || (exists|i: int|
        0 <= i < items.len() && ((#[trigger] items[i]).entity_kind
            == (#[trigger] rows[m]).entity_kind && (items[i]).entity_id
            == (rows[m]).entity_id)) by {
        if m < list.len() {
            assert(TombstoneRow::key_of(rows[m]) == TombstoneRow::key_of(list[m]));
            sync::stored_tombstones_are_told_apart(rows[m].entity_kind, rows[m].entity_id,
                list[m].entity_kind, list[m].entity_id);
            assert((list[m].entity_kind == rows[m].entity_kind && list[m].entity_id
                == rows[m].entity_id));
        } else {
            assert(items.contains(rows[m]) || exists|i: int|
                0 <= i < items.len() && TombstoneRow::key_of(#[trigger] items[i])
                    == TombstoneRow::key_of(rows[m]));
            let i = if items.contains(rows[m]) {
                choose|i: int| 0 <= i < items.len() && items[i] == rows[m]
            } else {
                choose|i: int|
                    0 <= i < items.len() && TombstoneRow::key_of(#[trigger] items[i])
                        == TombstoneRow::key_of(rows[m])
            };
            sync::stored_tombstones_are_told_apart(items[i].entity_kind, items[i].entity_id,
                rows[m].entity_kind, rows[m].entity_id);
            assert((items[i].entity_kind == rows[m].entity_kind && items[i].entity_id
                == rows[m].entity_id));
        }
    }
}

} // verus!
