//! Promises of merging what two devices recorded.
use vstd::prelude::*;

use crate::lists;
use crate::models::{Project, ProjectView, SyncDeviceInfo, Task, TaskView};
use crate::sync;
use crate::sync::{
    Record, SnapshotView, SyncCategory, SyncCategoryView, SyncRule, SyncRuleView, SyncSession,
    SyncSessionView, SyncTombstone, TombstoneView,
};
use crate::text;

verus! {

broadcast use vstd::seq_lib::group_seq_properties;

proof fn lemma_newest_is_kept<T: Record>(left: Seq<T::V>, right: Seq<T::V>, item: T::V)
    requires
        (left + right).contains(item),
        forall|k: int|
            0 <= k < (left + right).len() && T::key_of(#[trigger] (left + right)[k]) == T::key_of(
                item,
            ) ==> (left + right)[k] == item || text::precedes(
                T::time_of((left + right)[k]),
                T::time_of(item),
            ),
    ensures
        sync::latest::<T>(left, right).contains(item),
{
    let all = left + right;
    let list = sync::latest::<T>(left, right);
    sync::merging_keeps_the_newest_of_every_key::<T>(left, right);
    let k = choose|k: int| 0 <= k < all.len() && all[k] == item;
    let at = sync::spot::<T>(list, T::key_of(all[k])) as int;
    sync::lemma_spot::<T>(list, T::key_of(item));
    let kept = list[at];
    assert(sync::stands_for::<T>(all, kept));
    let m = choose|m: int| 0 <= m < all.len() && all[m] == kept;
    assert(!text::precedes(T::time_of(kept), T::time_of(all[k])));
    assert(all[m] == item || text::precedes(T::time_of(all[m]), T::time_of(item)));
}

proof fn lemma_comes_from_a_side<T: Record>(left: Seq<T::V>, right: Seq<T::V>, item: T::V)
    requires
        sync::latest::<T>(left, right).contains(item),
    ensures
        (left + right).contains(item),
        forall|k: int|
            0 <= k < (left + right).len() && T::key_of(#[trigger] (left + right)[k]) == T::key_of(
                item,
            ) ==> !text::precedes(T::time_of(item), T::time_of((left + right)[k])),
{
    let list = sync::latest::<T>(left, right);
    sync::merging_keeps_the_newest_of_every_key::<T>(left, right);
    let k = choose|k: int| 0 <= k < list.len() && list[k] == item;
    assert(sync::stands_for::<T>(left + right, list[k]));
}

/// All deletions that either side noted.
pub open spec fn all_notes(left: SnapshotView, right: SnapshotView) -> Seq<TombstoneView> {
    left.tombstones + right.tombstones
}

/// Every deletion of the record that either side noted is older than the record.
pub open spec fn outlives(
    left: SnapshotView,
    right: SnapshotView,
    kind: Seq<char>,
    id: Seq<char>,
    updated_at: Seq<char>,
) -> bool {
    forall|k: int|
        0 <= k < all_notes(left, right).len() && (#[trigger] all_notes(left, right)[k]).entity_kind
            + ":"@ + all_notes(left, right)[k].entity_id == kind + ":"@ + id ==> text::precedes(
            all_notes(left, right)[k].deleted_at,
            updated_at,
        )
}

proof fn lemma_not_buried(
    left: SnapshotView,
    right: SnapshotView,
    kind: Seq<char>,
    id: Seq<char>,
    updated_at: Seq<char>,
)
    requires
        outlives(left, right, kind, id, updated_at),
    ensures
        !sync::buried(sync::merged_tombstones(left, right), kind, id, updated_at),
{
    let dead = sync::merged_tombstones(left, right);
    let key = sync::entity_key(kind, id);
    let at = sync::spot::<SyncTombstone>(dead, key) as int;
    sync::lemma_spot::<SyncTombstone>(dead, key);
    if at < dead.len() {
        assert(dead.contains(dead[at]));
        lemma_comes_from_a_side::<SyncTombstone>(left.tombstones, right.tombstones, dead[at]);
        let k = choose|k: int|
            0 <= k < all_notes(left, right).len() && all_notes(left, right)[k] == dead[at];
        assert(all_notes(left, right)[k].entity_kind + ":"@ + all_notes(left, right)[k].entity_id
            == kind + ":"@ + id);
    }
}

proof fn lemma_buried(
    left: SnapshotView,
    right: SnapshotView,
    note: TombstoneView,
    updated_at: Seq<char>,
)
    requires
        all_notes(left, right).contains(note),
        !text::precedes(note.deleted_at, updated_at),
    ensures
        sync::buried(
            sync::merged_tombstones(left, right),
            note.entity_kind,
            note.entity_id,
            updated_at,
        ),
{
    let all = all_notes(left, right);
    let dead = sync::merged_tombstones(left, right);
    let key = sync::entity_key(note.entity_kind, note.entity_id);
    let at = sync::spot::<SyncTombstone>(dead, key) as int;
    sync::lemma_spot::<SyncTombstone>(dead, key);
    sync::merging_keeps_the_newest_of_every_key::<SyncTombstone>(left.tombstones, right.tombstones);
    let k = choose|k: int| 0 <= k < all.len() && all[k] == note;
    assert(SyncTombstone::key_of(all[k]) == key);
    assert(at < dead.len());
    assert(sync::stands_for::<SyncTombstone>(all, dead[at]));
    assert(!text::precedes(dead[at].deleted_at, all[k].deleted_at));
    text::lemma_precedes_total(note.deleted_at, updated_at);
    text::lemma_precedes_total(dead[at].deleted_at, note.deleted_at);
    if text::precedes(dead[at].deleted_at, updated_at) {
        if note.deleted_at != updated_at {
            text::lemma_precedes_transitive(dead[at].deleted_at, updated_at, note.deleted_at);
        }
    }
}

/// A category that no other record of its name is as new as, and that no deletion is as new as, is
/// there after merging, as it stands.
pub proof fn newest_categories_are_merged(
    left: SnapshotView,
    right: SnapshotView,
    at: Seq<char>,
    item: SyncCategoryView,
)
    requires
        sync::merged(left, right, at) is Ok,
        left.categories.contains(item) || right.categories.contains(item),
        forall|other: SyncCategoryView|
            (#[trigger] left.categories.contains(other) || right.categories.contains(other))
                && other.name == item.name ==> other == item || text::precedes(
                other.updated_at,
                item.updated_at,
            ),
        outlives(left, right, "category"@, item.name, item.updated_at),
    ensures
        sync::merged(left, right, at)->Ok_0.categories.contains(item),
{
    let all = left.categories + right.categories;
    lemma_in_sum(left.categories, right.categories, item);
    assert forall|k: int|
        0 <= k < all.len() && SyncCategory::key_of(#[trigger] all[k]) == SyncCategory::key_of(
            item,
        ) implies all[k] == item || text::precedes(
        SyncCategory::time_of(all[k]),
        SyncCategory::time_of(item),
    ) by {
        lemma_of_sum(left.categories, right.categories, k);
        assert(left.categories.contains(all[k]) || right.categories.contains(all[k]));
    }
    lemma_newest_is_kept::<SyncCategory>(left.categories, right.categories, item);
    lemma_not_buried(left, right, "category"@, item.name, item.updated_at);
    lists::lemma_filtered(
        sync::latest::<SyncCategory>(left.categories, right.categories),
        |item: SyncCategoryView|
            !sync::buried(
                sync::merged_tombstones(left, right),
                "category"@,
                item.name,
                item.updated_at,
            ),
    );
}

proof fn lemma_in_sum<A>(left: Seq<A>, right: Seq<A>, item: A)
    requires
        left.contains(item) || right.contains(item),
    ensures
        (left + right).contains(item),
{
    if left.contains(item) {
        let k = choose|k: int| 0 <= k < left.len() && left[k] == item;
        assert((left + right)[k] == item);
    } else {
        let k = choose|k: int| 0 <= k < right.len() && right[k] == item;
        assert((left + right)[left.len() + k] == item);
    }
}

proof fn lemma_of_sum<A>(left: Seq<A>, right: Seq<A>, k: int)
    requires
        0 <= k < (left + right).len(),
    ensures
        left.contains((left + right)[k]) || right.contains((left + right)[k]),
{
    if k < left.len() {
        assert(left[k] == (left + right)[k]);
    } else {
        assert(right[k - left.len()] == (left + right)[k]);
    }
}

/// Some category of the list has this name.
pub open spec fn is_category(list: Seq<SyncCategoryView>, name: Seq<char>) -> bool {
    exists|k: int| 0 <= k < list.len() && (#[trigger] list[k]).name == name
}

/// Some project of the list has this id.
pub open spec fn is_project(list: Seq<ProjectView>, id: Seq<char>) -> bool {
    exists|k: int| 0 <= k < list.len() && (#[trigger] list[k]).id == id
}

/// Some task of the list has this id.
pub open spec fn is_task(list: Seq<TaskView>, id: Seq<char>) -> bool {
    exists|k: int| 0 <= k < list.len() && (#[trigger] list[k]).id == id
}

proof fn lemma_key_lists(snapshot: SnapshotView)
    ensures
        forall|name: Seq<char>| #[trigger]
            sync::keys::<SyncCategory>(snapshot.categories).contains(name) <==> is_category(
                snapshot.categories,
                name,
            ),
        forall|id: Seq<char>| #[trigger]
            sync::keys::<Project>(snapshot.projects).contains(id) <==> is_project(
                snapshot.projects,
                id,
            ),
        forall|id: Seq<char>| #[trigger]
            sync::keys::<Task>(snapshot.tasks).contains(id) <==> is_task(snapshot.tasks, id),
{
    let names = sync::keys::<SyncCategory>(snapshot.categories);
    let projects = sync::keys::<Project>(snapshot.projects);
    let tasks = sync::keys::<Task>(snapshot.tasks);
    assert forall|name: Seq<char>| #[trigger] names.contains(name) <==> is_category(
        snapshot.categories,
        name,
    ) by {
        if names.contains(name) {
            let k = choose|k: int| 0 <= k < names.len() && names[k] == name;
            assert(snapshot.categories[k].name == name);
        }
        if is_category(snapshot.categories, name) {
            let k = choose|k: int|
                0 <= k < snapshot.categories.len() && (#[trigger] snapshot.categories[k]).name
                    == name;
            assert(names[k] == name);
        }
    }
    assert forall|id: Seq<char>| #[trigger] projects.contains(id) <==> is_project(
        snapshot.projects,
        id,
    ) by {
        if projects.contains(id) {
            let k = choose|k: int| 0 <= k < projects.len() && projects[k] == id;
            assert(snapshot.projects[k].id == id);
        }
        if is_project(snapshot.projects, id) {
            let k = choose|k: int|
                0 <= k < snapshot.projects.len() && (#[trigger] snapshot.projects[k]).id == id;
            assert(projects[k] == id);
        }
    }
    assert forall|id: Seq<char>| #[trigger] tasks.contains(id) <==> is_task(
        snapshot.tasks,
        id,
    ) by {
        if tasks.contains(id) {
            let k = choose|k: int| 0 <= k < tasks.len() && tasks[k] == id;
            assert(snapshot.tasks[k].id == id);
        }
        if is_task(snapshot.tasks, id) {
            let k = choose|k: int|
                0 <= k < snapshot.tasks.len() && (#[trigger] snapshot.tasks[k]).id == id;
            assert(tasks[k] == id);
        }
    }
}

/// A project that is the newest of its id and outlives its deletions is there after merging, under
/// its category where that is there.
pub proof fn newest_projects_are_merged(
    left: SnapshotView,
    right: SnapshotView,
    at: Seq<char>,
    item: ProjectView,
)
    requires
        sync::merged(left, right, at) is Ok,
        left.projects.contains(item) || right.projects.contains(item),
        forall|other: ProjectView|
            (#[trigger] left.projects.contains(other) || right.projects.contains(other))
                && other.id == item.id ==> other == item || text::precedes(
                other.updated_at,
                item.updated_at,
            ),
        outlives(left, right, "project"@, item.id, item.updated_at),
    ensures
        ({
            let snapshot = sync::merged(left, right, at)->Ok_0;
            exists|k: int|
                0 <= k < snapshot.projects.len() && (#[trigger] snapshot.projects[k]).id == item.id
                    && snapshot.projects[k].name == item.name && snapshot.projects[k].source
                    == item.source && snapshot.projects[k].color == item.color
                    && snapshot.projects[k].description == item.description
                    && snapshot.projects[k].created_at == item.created_at
                    && snapshot.projects[k].updated_at == item.updated_at && (is_category(
                    snapshot.categories,
                    item.category,
                ) ==> snapshot.projects[k].category == item.category) && is_category(
                    snapshot.categories,
                    snapshot.projects[k].category,
                )
        }),
{
    let snapshot = sync::merged(left, right, at)->Ok_0;
    let all = left.projects + right.projects;
    let keep = |item: ProjectView|
        !sync::buried(sync::merged_tombstones(left, right), "project"@, item.id, item.updated_at);
    let newest = sync::latest::<Project>(left.projects, right.projects);
    lemma_in_sum(left.projects, right.projects, item);
    assert forall|k: int|
        0 <= k < all.len() && Project::key_of(#[trigger] all[k]) == Project::key_of(
            item,
        ) implies all[k] == item || text::precedes(
        Project::time_of(all[k]),
        Project::time_of(item),
    ) by {
        lemma_of_sum(left.projects, right.projects, k);
        assert(left.projects.contains(all[k]) || right.projects.contains(all[k]));
    }
    lemma_newest_is_kept::<Project>(left.projects, right.projects, item);
    lemma_not_buried(left, right, "project"@, item.id, item.updated_at);
    lists::lemma_filtered(newest, keep);
    assert(newest.filter(keep).contains(item));
    let k = choose|k: int| 0 <= k < newest.filter(keep).len() && newest.filter(keep)[k] == item;
    lemma_key_lists(snapshot);
    sync::merged_references_resolve(left, right, at);
    assert(snapshot.projects[k].id == item.id);
    assert(sync::keys::<SyncCategory>(snapshot.categories).contains(snapshot.projects[k].category));
}

/// A task that is the newest of its id, outlives its deletions and has its project is there after
/// merging, as it stands.
pub proof fn newest_tasks_are_merged(
    left: SnapshotView,
    right: SnapshotView,
    at: Seq<char>,
    item: TaskView,
)
    requires
        sync::merged(left, right, at) is Ok,
        left.tasks.contains(item) || right.tasks.contains(item),
        forall|other: TaskView|
            (#[trigger] left.tasks.contains(other) || right.tasks.contains(other)) && other.id
                == item.id ==> other == item || text::precedes(other.updated_at, item.updated_at),
        outlives(left, right, "task"@, item.id, item.updated_at),
        is_project(sync::merged(left, right, at)->Ok_0.projects, item.project_id),
    ensures
        sync::merged(left, right, at)->Ok_0.tasks.contains(item),
{
    let snapshot = sync::merged(left, right, at)->Ok_0;
    let all = left.tasks + right.tasks;
    let keep = |item: TaskView|
        sync::keys::<Project>(sync::merged_projects(left, right)).contains(item.project_id)
            && !sync::buried(
            sync::merged_tombstones(left, right),
            "task"@,
            item.id,
            item.updated_at,
        );
    let newest = sync::latest::<Task>(left.tasks, right.tasks);
    lemma_in_sum(left.tasks, right.tasks, item);
    assert forall|k: int|
        0 <= k < all.len() && Task::key_of(#[trigger] all[k]) == Task::key_of(
            item,
        ) implies all[k] == item || text::precedes(Task::time_of(all[k]), Task::time_of(item)) by {
        lemma_of_sum(left.tasks, right.tasks, k);
        assert(left.tasks.contains(all[k]) || right.tasks.contains(all[k]));
    }
    lemma_newest_is_kept::<Task>(left.tasks, right.tasks, item);
    lemma_not_buried(left, right, "task"@, item.id, item.updated_at);
    lemma_key_lists(snapshot);
    assert(sync::keys::<Project>(snapshot.projects).contains(item.project_id));
    lists::lemma_filtered(newest, keep);
    assert(newest.filter(keep).contains(item));
}

/// A session that is the newest of its id and outlives its deletions is there after merging with all
/// that it says; its category, project and task are the same where they are there, and a project or
/// task that is not there is dropped.
pub proof fn newest_sessions_are_merged(
    left: SnapshotView,
    right: SnapshotView,
    at: Seq<char>,
    item: SyncSessionView,
)
    requires
        sync::merged(left, right, at) is Ok,
        left.sessions.contains(item) || right.sessions.contains(item),
        forall|other: SyncSessionView|
            (#[trigger] left.sessions.contains(other) || right.sessions.contains(other))
                && other.session.id == item.session.id ==> other == item || text::precedes(
                other.updated_at,
                item.updated_at,
            ),
        outlives(left, right, "session"@, item.session.id, item.updated_at),
    ensures
        ({
            let snapshot = sync::merged(left, right, at)->Ok_0;
            exists|k: int|
                0 <= k < snapshot.sessions.len() && session_arrived(
                    snapshot,
                    item,
                    #[trigger] snapshot.sessions[k],
                )
        }),
{
    let snapshot = sync::merged(left, right, at)->Ok_0;
    let all = left.sessions + right.sessions;
    let keep = |item: SyncSessionView|
        !sync::buried(
            sync::merged_tombstones(left, right),
            "session"@,
            item.session.id,
            item.updated_at,
        );
    let newest = sync::latest::<SyncSession>(left.sessions, right.sessions);
    lemma_in_sum(left.sessions, right.sessions, item);
    assert forall|k: int|
        0 <= k < all.len() && SyncSession::key_of(#[trigger] all[k]) == SyncSession::key_of(
            item,
        ) implies all[k] == item || text::precedes(
        SyncSession::time_of(all[k]),
        SyncSession::time_of(item),
    ) by {
        lemma_of_sum(left.sessions, right.sessions, k);
        assert(left.sessions.contains(all[k]) || right.sessions.contains(all[k]));
    }
    lemma_newest_is_kept::<SyncSession>(left.sessions, right.sessions, item);
    lemma_not_buried(left, right, "session"@, item.session.id, item.updated_at);
    lists::lemma_filtered(newest, keep);
    assert(newest.filter(keep).contains(item));
    let k = choose|k: int| 0 <= k < newest.filter(keep).len() && newest.filter(keep)[k] == item;
    lemma_key_lists(snapshot);
    sync::merged_references_resolve(left, right, at);
    assert(session_arrived(snapshot, item, snapshot.sessions[k]));
}

/// What is kept of a reference whose target may be gone.
pub open spec fn kept_if(there: bool, id: Option<Seq<char>>) -> Option<Seq<char>> {
    if there {
        id
    } else {
        None
    }
}

/// The session holds what the other one said, as far as what it refers to is there.
pub open spec fn session_arrived(
    snapshot: SnapshotView,
    item: SyncSessionView,
    row: SyncSessionView,
) -> bool {
    &&& row.updated_at == item.updated_at
    &&& row.session.id == item.session.id
    &&& row.session.started_at == item.session.started_at
    &&& row.session.ended_at == item.session.ended_at
    &&& row.session.summary == item.session.summary
    &&& row.session.confidence == item.session.confidence
    &&& row.session.evidence == item.session.evidence
    &&& row.session.user_confirmed == item.session.user_confirmed
    &&& row.session.source == item.session.source
    &&& is_category(snapshot.categories, item.session.category) ==> row.session.category
        == item.session.category
    &&& is_category(snapshot.categories, row.session.category)
    &&& row.session.project_id == match item.session.project_id {
        Some(id) => kept_if(is_project(snapshot.projects, id), Some(id)),
        None => None,
    }
    &&& row.session.task_id == match item.session.task_id {
        Some(id) => kept_if(is_task(snapshot.tasks, id), Some(id)),
        None => None,
    }
}

/// A rule that is the newest of its id and outlives its deletions is there after merging with all
/// that it says, as far as what it refers to is there.
pub proof fn newest_rules_are_merged(
    left: SnapshotView,
    right: SnapshotView,
    at: Seq<char>,
    item: SyncRuleView,
)
    requires
        sync::merged(left, right, at) is Ok,
        left.rules.contains(item) || right.rules.contains(item),
        forall|other: SyncRuleView|
            (#[trigger] left.rules.contains(other) || right.rules.contains(other)) && other.rule.id
                == item.rule.id ==> other == item || text::precedes(
                other.updated_at,
                item.updated_at,
            ),
        outlives(left, right, "rule"@, item.rule.id, item.updated_at),
    ensures
        ({
            let snapshot = sync::merged(left, right, at)->Ok_0;
            exists|k: int|
                0 <= k < snapshot.rules.len() && rule_arrived(
                    snapshot,
                    item,
                    #[trigger] snapshot.rules[k],
                )
        }),
{
    let snapshot = sync::merged(left, right, at)->Ok_0;
    let all = left.rules + right.rules;
    let keep = |item: SyncRuleView|
        !sync::buried(sync::merged_tombstones(left, right), "rule"@, item.rule.id, item.updated_at);
    let newest = sync::latest::<SyncRule>(left.rules, right.rules);
    lemma_in_sum(left.rules, right.rules, item);
    assert forall|k: int|
        0 <= k < all.len() && SyncRule::key_of(#[trigger] all[k]) == SyncRule::key_of(
            item,
        ) implies all[k] == item || text::precedes(
        SyncRule::time_of(all[k]),
        SyncRule::time_of(item),
    ) by {
        lemma_of_sum(left.rules, right.rules, k);
        assert(left.rules.contains(all[k]) || right.rules.contains(all[k]));
    }
    lemma_newest_is_kept::<SyncRule>(left.rules, right.rules, item);
    lemma_not_buried(left, right, "rule"@, item.rule.id, item.updated_at);
    lists::lemma_filtered(newest, keep);
    assert(newest.filter(keep).contains(item));
    let k = choose|k: int| 0 <= k < newest.filter(keep).len() && newest.filter(keep)[k] == item;
    lemma_key_lists(snapshot);
    assert(rule_arrived(snapshot, item, snapshot.rules[k]));
}

/// The rule holds what the other one said, as far as what it refers to is there.
pub open spec fn rule_arrived(
    snapshot: SnapshotView,
    item: SyncRuleView,
    row: SyncRuleView,
) -> bool {
    &&& row.updated_at == item.updated_at
    &&& row.rule.id == item.rule.id
    &&& row.rule.name == item.rule.name
    &&& row.rule.priority == item.rule.priority
    &&& row.rule.matcher == item.rule.matcher
    &&& row.rule.created_from_correction == item.rule.created_from_correction
    &&& row.rule.enabled == item.rule.enabled
    &&& is_category(snapshot.categories, item.rule.category) ==> row.rule.category
        == item.rule.category
    &&& row.rule.project_id == match item.rule.project_id {
        Some(id) => kept_if(is_project(snapshot.projects, id), Some(id)),
        None => None,
    }
    &&& row.rule.task_id == match item.rule.task_id {
        Some(id) => kept_if(is_task(snapshot.tasks, id), Some(id)),
        None => None,
    }
}

/// A session whose deletion is noted on either side, no earlier than any record of it, is not there
/// after merging.
pub proof fn deleted_sessions_stay_deleted(
    left: SnapshotView,
    right: SnapshotView,
    at: Seq<char>,
    note: TombstoneView,
)
    requires
        sync::merged(left, right, at) is Ok,
        left.tombstones.contains(note) || right.tombstones.contains(note),
        note.entity_kind == "session"@,
        forall|other: SyncSessionView|
            (#[trigger] left.sessions.contains(other) || right.sessions.contains(other))
                && other.session.id == note.entity_id ==> !text::precedes(
                note.deleted_at,
                other.updated_at,
            ),
    ensures
        forall|k: int|
            0 <= k < sync::merged(left, right, at)->Ok_0.sessions.len() ==> (
            #[trigger] sync::merged(left, right, at)->Ok_0.sessions[k]).session.id
                != note.entity_id,
{
    let snapshot = sync::merged(left, right, at)->Ok_0;
    let keep = |item: SyncSessionView|
        !sync::buried(
            sync::merged_tombstones(left, right),
            "session"@,
            item.session.id,
            item.updated_at,
        );
    let newest = sync::latest::<SyncSession>(left.sessions, right.sessions);
    lemma_in_sum(left.tombstones, right.tombstones, note);
    lists::lemma_filtered(newest, keep);
    assert forall|k: int| 0 <= k < snapshot.sessions.len() implies (
    #[trigger] snapshot.sessions[k]).session.id != note.entity_id by {
        let item = newest.filter(keep)[k];
        assert(newest.contains(item) && keep(item));
        lemma_comes_from_a_side::<SyncSession>(left.sessions, right.sessions, item);
        let m = choose|m: int|
            0 <= m < (left.sessions + right.sessions).len() && (left.sessions + right.sessions)[m]
                == item;
        lemma_of_sum(left.sessions, right.sessions, m);
        if item.session.id == note.entity_id {
            assert(left.sessions.contains(item) || right.sessions.contains(item));
            lemma_buried(left, right, note, item.updated_at);
        }
    }
}

/// The same holds of projects, tasks, rules and categories: a deletion that is no earlier than any
/// record of what it is about is honoured.
pub proof fn deletions_are_honoured(
    left: SnapshotView,
    right: SnapshotView,
    at: Seq<char>,
    note: TombstoneView,
)
    requires
        sync::merged(left, right, at) is Ok,
        left.tombstones.contains(note) || right.tombstones.contains(note),
    ensures
        note.entity_kind == "project"@ && (forall|other: ProjectView|
            (#[trigger] left.projects.contains(other) || right.projects.contains(other))
                && other.id == note.entity_id ==> !text::precedes(
                note.deleted_at,
                other.updated_at,
            )) ==> !is_project(sync::merged(left, right, at)->Ok_0.projects, note.entity_id),
        note.entity_kind == "task"@ && (forall|other: TaskView|
            (#[trigger] left.tasks.contains(other) || right.tasks.contains(other)) && other.id
                == note.entity_id ==> !text::precedes(note.deleted_at, other.updated_at))
            ==> !is_task(sync::merged(left, right, at)->Ok_0.tasks, note.entity_id),
        note.entity_kind == "category"@ && (forall|other: SyncCategoryView|
            (#[trigger] left.categories.contains(other) || right.categories.contains(other))
                && other.name == note.entity_id ==> !text::precedes(
                note.deleted_at,
                other.updated_at,
            )) ==> !is_category(sync::merged(left, right, at)->Ok_0.categories, note.entity_id),
        note.entity_kind == "rule"@ && (forall|other: SyncRuleView|
            (#[trigger] left.rules.contains(other) || right.rules.contains(other)) && other.rule.id
                == note.entity_id ==> !text::precedes(note.deleted_at, other.updated_at))
            ==> forall|k: int|
            0 <= k < sync::merged(left, right, at)->Ok_0.rules.len() ==> (
            #[trigger] sync::merged(left, right, at)->Ok_0.rules[k]).rule.id != note.entity_id,
{
    let snapshot = sync::merged(left, right, at)->Ok_0;
    let dead = sync::merged_tombstones(left, right);
    lemma_in_sum(left.tombstones, right.tombstones, note);
    if note.entity_kind == "project"@ && is_project(snapshot.projects, note.entity_id) && (forall|
        other: ProjectView,
    |
        (#[trigger] left.projects.contains(other) || right.projects.contains(other)) && other.id
            == note.entity_id ==> !text::precedes(note.deleted_at, other.updated_at)) {
        let keep = |item: ProjectView|
            !sync::buried(dead, "project"@, item.id, item.updated_at);
        let newest = sync::latest::<Project>(left.projects, right.projects);
        lists::lemma_filtered(newest, keep);
        let k = choose|k: int|
            0 <= k < snapshot.projects.len() && (#[trigger] snapshot.projects[k]).id
                == note.entity_id;
        let item = newest.filter(keep)[k];
        assert(newest.contains(item) && keep(item));
        lemma_comes_from_a_side::<Project>(left.projects, right.projects, item);
        let m = choose|m: int|
            0 <= m < (left.projects + right.projects).len() && (left.projects + right.projects)[m]
                == item;
        lemma_of_sum(left.projects, right.projects, m);
        assert(left.projects.contains(item) || right.projects.contains(item));
        lemma_buried(left, right, note, item.updated_at);
    }
    if note.entity_kind == "task"@ && is_task(snapshot.tasks, note.entity_id) && (forall|
        other: TaskView,
    |
        (#[trigger] left.tasks.contains(other) || right.tasks.contains(other)) && other.id
            == note.entity_id ==> !text::precedes(note.deleted_at, other.updated_at)) {
        let keep = |item: TaskView|
            sync::keys::<Project>(sync::merged_projects(left, right)).contains(item.project_id)
                && !sync::buried(dead, "task"@, item.id, item.updated_at);
        let newest = sync::latest::<Task>(left.tasks, right.tasks);
        lists::lemma_filtered(newest, keep);
        let k = choose|k: int|
            0 <= k < snapshot.tasks.len() && (#[trigger] snapshot.tasks[k]).id == note.entity_id;
        let item = newest.filter(keep)[k];
        assert(newest.contains(item) && keep(item));
        lemma_comes_from_a_side::<Task>(left.tasks, right.tasks, item);
        let m = choose|m: int|
            0 <= m < (left.tasks + right.tasks).len() && (left.tasks + right.tasks)[m] == item;
        lemma_of_sum(left.tasks, right.tasks, m);
        assert(left.tasks.contains(item) || right.tasks.contains(item));
        lemma_buried(left, right, note, item.updated_at);
    }
    if note.entity_kind == "category"@ && is_category(snapshot.categories, note.entity_id) && (
    forall|other: SyncCategoryView|
        (#[trigger] left.categories.contains(other) || right.categories.contains(other))
            && other.name == note.entity_id ==> !text::precedes(
            note.deleted_at,
            other.updated_at,
        )) {
        let keep = |item: SyncCategoryView|
            !sync::buried(dead, "category"@, item.name, item.updated_at);
        let newest = sync::latest::<SyncCategory>(left.categories, right.categories);
        lists::lemma_filtered(newest, keep);
        let k = choose|k: int|
            0 <= k < snapshot.categories.len() && (#[trigger] snapshot.categories[k]).name
                == note.entity_id;
        let item = newest.filter(keep)[k];
        assert(newest.contains(item) && keep(item));
        lemma_comes_from_a_side::<SyncCategory>(left.categories, right.categories, item);
        let m = choose|m: int|
            0 <= m < (left.categories + right.categories).len() && (left.categories
                + right.categories)[m] == item;
        lemma_of_sum(left.categories, right.categories, m);
        assert(left.categories.contains(item) || right.categories.contains(item));
        lemma_buried(left, right, note, item.updated_at);
    }
    if note.entity_kind == "rule"@ && (forall|other: SyncRuleView|
        (#[trigger] left.rules.contains(other) || right.rules.contains(other)) && other.rule.id
            == note.entity_id ==> !text::precedes(note.deleted_at, other.updated_at)) {
        let keep = |item: SyncRuleView|
            !sync::buried(dead, "rule"@, item.rule.id, item.updated_at);
        let newest = sync::latest::<SyncRule>(left.rules, right.rules);
        lists::lemma_filtered(newest, keep);
        assert forall|k: int| 0 <= k < snapshot.rules.len() implies (
        #[trigger] snapshot.rules[k]).rule.id != note.entity_id by {
            let item = newest.filter(keep)[k];
            assert(newest.contains(item) && keep(item));
            lemma_comes_from_a_side::<SyncRule>(left.rules, right.rules, item);
            let m = choose|m: int|
                0 <= m < (left.rules + right.rules).len() && (left.rules + right.rules)[m] == item;
            lemma_of_sum(left.rules, right.rules, m);
            if item.rule.id == note.entity_id {
                assert(left.rules.contains(item) || right.rules.contains(item));
                lemma_buried(left, right, note, item.updated_at);
            }
        }
    }
}

/// Merging succeeds exactly for snapshots of the known version between which a category is left, and
/// the merged snapshot comes from the left device, knows every device of either side, and counts
/// sleep from the earlier day.
pub proof fn merging_succeeds_and_knows_the_devices(
    left: SnapshotView,
    right: SnapshotView,
    at: Seq<char>,
)
    ensures
        left.schema_version != 1 || right.schema_version != 1 ==> sync::merged(left, right, at)
            == Err::<SnapshotView, sync::SnapshotError>(sync::SnapshotError::Incompatible),
        sync::merged(left, right, at) matches Ok(snapshot) ==> {
            &&& left.schema_version == 1 && right.schema_version == 1
            &&& snapshot.schema_version == 1
            &&& snapshot.categories.len() > 0
            &&& snapshot.generated_by == left.generated_by
            &&& snapshot.generated_at == at
            &&& forall|k: int|
                0 <= k < left.devices.len() ==> exists|m: int|
                    0 <= m < snapshot.devices.len() && (#[trigger] snapshot.devices[m]).id == (
                    #[trigger] left.devices[k]).id && !text::precedes(
                        snapshot.devices[m].last_seen_at,
                        left.devices[k].last_seen_at,
                    )
            &&& forall|k: int|
                0 <= k < right.devices.len() ==> exists|m: int|
                    0 <= m < snapshot.devices.len() && (#[trigger] snapshot.devices[m]).id == (
                    #[trigger] right.devices[k]).id && !text::precedes(
                        snapshot.devices[m].last_seen_at,
                        right.devices[k].last_seen_at,
                    )
            &&& match (left.sleep_debt_started_on, right.sleep_debt_started_on) {
                (Some(a), Some(b)) => snapshot.sleep_debt_started_on matches Some(day) && (day == a
                    || day == b) && !text::precedes(a, day) && !text::precedes(b, day),
                (Some(a), None) => snapshot.sleep_debt_started_on == Some(a),
                (None, other) => snapshot.sleep_debt_started_on == other,
            }
        },
{
    if let Ok(snapshot) = sync::merged(left, right, at) {
        let all = left.devices + right.devices;
        let list = snapshot.devices;
        sync::merging_keeps_the_newest_of_every_key::<SyncDeviceInfo>(left.devices, right.devices);
        assert forall|k: int| 0 <= k < all.len() implies exists|m: int|
            0 <= m < list.len() && (#[trigger] list[m]).id == (#[trigger] all[k]).id
                && !text::precedes(list[m].last_seen_at, all[k].last_seen_at) by {
            let m = sync::spot::<SyncDeviceInfo>(list, SyncDeviceInfo::key_of(all[k])) as int;
            sync::lemma_spot::<SyncDeviceInfo>(list, SyncDeviceInfo::key_of(all[k]));
            assert(sync::stands_for::<SyncDeviceInfo>(all, list[m]));
            assert(list[m].id == all[k].id);
        }
        assert forall|k: int| 0 <= k < left.devices.len() implies exists|m: int|
            0 <= m < list.len() && (#[trigger] list[m]).id == (#[trigger] left.devices[k]).id
                && !text::precedes(list[m].last_seen_at, left.devices[k].last_seen_at) by {
            assert(all[k] == left.devices[k]);
        }
        assert forall|k: int| 0 <= k < right.devices.len() implies exists|m: int|
            0 <= m < list.len() && (#[trigger] list[m]).id == (#[trigger] right.devices[k]).id
                && !text::precedes(list[m].last_seen_at, right.devices[k].last_seen_at) by {
            assert(all[left.devices.len() + k] == right.devices[k]);
        }
        match (left.sleep_debt_started_on, right.sleep_debt_started_on) {
            (Some(a), Some(b)) => {
                text::lemma_precedes_total(a, b);
                text::lemma_precedes_total(a, a);
                text::lemma_precedes_total(b, b);
            },
            _ => {},
        }
    }
}

/// The list holds the record in the place of its key.
pub open spec fn holds_at_key<T: Record>(list: Seq<T::V>, item: T::V) -> bool {
    let at = sync::spot::<T>(list, T::key_of(item)) as int;
    0 <= at < list.len() && list[at] == item
}

proof fn lemma_place_of_key<T: Record>(list: Seq<T::V>, key: Seq<char>, at: int)
    requires
        0 <= at < list.len(),
        T::key_of(list[at]) == key,
        forall|k: int| 0 <= k < at ==> T::key_of(#[trigger] list[k]) != key,
    ensures
        sync::spot::<T>(list, key) == at,
{
    sync::lemma_spot::<T>(list, key);
    let spot = sync::spot::<T>(list, key) as int;
    if spot < at {
        assert(T::key_of(list[spot]) != key);
    } else if at < spot {
        assert(T::key_of(list[at]) != key);
    }
}

/// A record takes the place of its key unless a newer one holds it; once there, it gives way to no
/// older one and to none of another key.
pub proof fn records_give_way_to_newer_ones<T: Record>(
    list: Seq<T::V>,
    item: T::V,
    other: T::V,
)
    ensures
        (forall|k: int|
            0 <= k < list.len() && T::key_of(#[trigger] list[k]) == T::key_of(item)
                ==> !text::precedes(T::time_of(item), T::time_of(list[k]))) ==> holds_at_key::<T>(
            sync::placed::<T>(list, item),
            item,
        ),
        holds_at_key::<T>(list, item) && (T::key_of(other) != T::key_of(item) || text::precedes(
            T::time_of(other),
            T::time_of(item),
        )) ==> holds_at_key::<T>(sync::placed::<T>(list, other), item),
{
    let key = T::key_of(item);
    sync::lemma_spot::<T>(list, key);
    let at = sync::spot::<T>(list, key) as int;
    if forall|k: int|
        0 <= k < list.len() && T::key_of(#[trigger] list[k]) == key ==> !text::precedes(
            T::time_of(item),
            T::time_of(list[k]),
        ) {
        let after = sync::placed::<T>(list, item);
        assert(after[at] == item);
        assert forall|k: int| 0 <= k < at implies T::key_of(#[trigger] after[k]) != key by {
            assert(after[k] == list[k]);
        }
        lemma_place_of_key::<T>(after, key, at);
    }
    if holds_at_key::<T>(list, item) && (T::key_of(other) != key || text::precedes(
        T::time_of(other),
        T::time_of(item),
    )) {
        let after = sync::placed::<T>(list, other);
        let elsewhere = sync::spot::<T>(list, T::key_of(other)) as int;
        sync::lemma_spot::<T>(list, T::key_of(other));
        assert(after[at] == item);
        assert forall|k: int| 0 <= k < at implies T::key_of(#[trigger] after[k]) != key by {
            if k == elsewhere {
                assert(T::key_of(list[k]) != key);
            } else {
                assert(after[k] == list[k]);
            }
        }
        lemma_place_of_key::<T>(after, key, at);
    }
}

proof fn lemma_placed_members<T: Record>(list: Seq<T::V>, items: Seq<T::V>, item: T::V)
    requires
        forall|k: int|
            0 <= k < list.len() && T::key_of(#[trigger] list[k]) == T::key_of(item)
                ==> !text::precedes(T::time_of(item), T::time_of(list[k])),
        forall|k: int|
            0 <= k < items.len() && T::key_of(#[trigger] items[k]) == T::key_of(item)
                ==> !text::precedes(T::time_of(item), T::time_of(items[k])),
    ensures
        forall|k: int|
            0 <= k < sync::placed_all::<T>(list, items).len() && T::key_of(
                #[trigger] sync::placed_all::<T>(list, items)[k],
            ) == T::key_of(item) ==> !text::precedes(
                T::time_of(item),
                T::time_of(sync::placed_all::<T>(list, items)[k]),
            ),
    decreases items.len(),
{
    if items.len() > 0 {
        let rest = items.drop_last();
        assert forall|k: int|
            0 <= k < rest.len() && T::key_of(#[trigger] rest[k]) == T::key_of(
                item,
            ) implies !text::precedes(T::time_of(item), T::time_of(rest[k])) by {
            assert(rest[k] == items[k]);
        }
        lemma_placed_members::<T>(list, rest, item);
        let before = sync::placed_all::<T>(list, rest);
        let after = sync::placed_all::<T>(list, items);
        assert(items[items.len() - 1] == items.last());
        assert forall|k: int|
            0 <= k < after.len() && T::key_of(#[trigger] after[k]) == T::key_of(
                item,
            ) implies !text::precedes(T::time_of(item), T::time_of(after[k])) by {
            if k < before.len() && after[k] == before[k] {
                assert(T::key_of(before[k]) == T::key_of(item));
            } else {
                assert(after[k] == items.last());
            }
        }
    }
}

proof fn lemma_kept_on<T: Record>(list: Seq<T::V>, items: Seq<T::V>, item: T::V)
    requires
        holds_at_key::<T>(list, item),
        forall|k: int|
            0 <= k < items.len() && T::key_of(#[trigger] items[k]) == T::key_of(item)
                ==> text::precedes(T::time_of(items[k]), T::time_of(item)),
    ensures
        holds_at_key::<T>(sync::placed_all::<T>(list, items), item),
    decreases items.len(),
{
    if items.len() > 0 {
        let rest = items.drop_last();
        assert forall|k: int|
            0 <= k < rest.len() && T::key_of(#[trigger] rest[k]) == T::key_of(
                item,
            ) implies text::precedes(T::time_of(rest[k]), T::time_of(item)) by {
            assert(rest[k] == items[k]);
        }
        lemma_kept_on::<T>(list, rest, item);
        assert(items[items.len() - 1] == items.last());
        records_give_way_to_newer_ones::<T>(
            sync::placed_all::<T>(list, rest),
            item,
            items.last(),
        );
    }
}

/// Of records that are equally new the last one counts: a record on the right that nothing is newer
/// than is kept, where what follows it on the right is older.
pub proof fn the_last_of_equally_new_records_is_kept<T: Record>(
    left: Seq<T::V>,
    right: Seq<T::V>,
    i: int,
)
    requires
        0 <= i < right.len(),
        forall|k: int|
            0 <= k < left.len() && T::key_of(#[trigger] left[k]) == T::key_of(right[i])
                ==> !text::precedes(T::time_of(right[i]), T::time_of(left[k])),
        forall|k: int|
            0 <= k < i && T::key_of(#[trigger] right[k]) == T::key_of(right[i])
                ==> !text::precedes(T::time_of(right[i]), T::time_of(right[k])),
        forall|k: int|
            i < k < right.len() && T::key_of(#[trigger] right[k]) == T::key_of(right[i])
                ==> text::precedes(T::time_of(right[k]), T::time_of(right[i])),
    ensures
        sync::latest::<T>(left, right).contains(right[i]),
{
    let item = right[i];
    let none = Seq::<T::V>::empty();
    let base = sync::placed_all::<T>(none, left);
    lemma_placed_members::<T>(none, left, item);
    let head = right.take(i);
    let tail = right.skip(i + 1);
    assert forall|k: int|
        0 <= k < head.len() && T::key_of(#[trigger] head[k]) == T::key_of(
            item,
        ) implies !text::precedes(T::time_of(item), T::time_of(head[k])) by {
        assert(head[k] == right[k]);
    }
    lemma_placed_members::<T>(base, head, item);
    let before = sync::placed_all::<T>(base, head);
    records_give_way_to_newer_ones::<T>(before, item, item);
    let met = sync::placed::<T>(before, item);
    assert(right.take(i + 1).drop_last() =~= head);
    assert(right.take(i + 1).last() == item);
    assert(sync::placed_all::<T>(base, right.take(i + 1)) == met);
    assert forall|k: int|
        0 <= k < tail.len() && T::key_of(#[trigger] tail[k]) == T::key_of(
            item,
        ) implies text::precedes(T::time_of(tail[k]), T::time_of(item)) by {
        assert(tail[k] == right[i + 1 + k]);
    }
    lemma_kept_on::<T>(met, tail, item);
    lemma_placed_further::<T>(base, right.take(i + 1), tail);
    assert(right.take(i + 1) + tail =~= right);
    let all = sync::latest::<T>(left, right);
    let at = sync::spot::<T>(all, T::key_of(item)) as int;
    assert(all[at] == item);
}

proof fn lemma_placed_further<T: Record>(list: Seq<T::V>, first: Seq<T::V>, then: Seq<T::V>)
    ensures
        sync::placed_all::<T>(list, first + then) == sync::placed_all::<T>(
            sync::placed_all::<T>(list, first),
            then,
        ),
    decreases then.len(),
{
    if then.len() == 0 {
        assert(first + then =~= first);
    } else {
        lemma_placed_further::<T>(list, first, then.drop_last());
        assert((first + then).drop_last() =~= first + then.drop_last());
        assert((first + then).last() == then.last());
    }
}

} // verus!
