//! Why devices agree: merging two snapshots keeps the same records in either order.
use vstd::prelude::*;
use vstd::string::*;

use crate::models::{Project, ProjectView, SyncDeviceInfo, Task, TaskView};
use crate::sync;
use crate::sync::{
    Record, SnapshotView, SyncCategory, SyncCategoryView, SyncRule, SyncRuleView, SyncSession,
    SyncSessionView, SyncTombstone, TombstoneView,
};
use crate::text;

verus! {

/// Two lists hold the same records.
pub open spec fn same_records<A>(left: Seq<A>, right: Seq<A>) -> bool {
    forall|item: A| #[trigger] left.contains(item) <==> right.contains(item)
}

proof fn lemma_filtered<A>(list: Seq<A>, keep: spec_fn(A) -> bool, item: A)
    ensures
        list.filter(keep).contains(item) <==> list.contains(item) && keep(item),
{
    if list.filter(keep).contains(item) {
        list.lemma_filter_contains_rev(keep, item);
    }
    if list.contains(item) && keep(item) {
        let i = choose|i: int| 0 <= i < list.len() && list[i] == item;
        list.lemma_filter_contains(keep, i);
    }
}

proof fn lemma_filters_agree<A>(
    left: Seq<A>,
    right: Seq<A>,
    keep: spec_fn(A) -> bool,
    hold: spec_fn(A) -> bool,
)
    requires
        same_records(left, right),
        forall|item: A| #[trigger] keep(item) == hold(item),
    ensures
        same_records(left.filter(keep), right.filter(hold)),
{
    assert forall|item: A| #[trigger] left.filter(keep).contains(item) <==> right.filter(
        hold,
    ).contains(item) by {
        lemma_filtered(left, keep, item);
        lemma_filtered(right, hold, item);
        assert(left.contains(item) <==> right.contains(item));
        assert(keep(item) == hold(item));
    }
}

proof fn lemma_one_map_agrees<A, B>(
    left: Seq<A>,
    right: Seq<A>,
    turn: spec_fn(A) -> B,
    twist: spec_fn(A) -> B,
    item: B,
)
    requires
        same_records(left, right),
        forall|from: A| #[trigger] turn(from) == twist(from),
        left.map_values(turn).contains(item),
    ensures
        right.map_values(twist).contains(item),
{
    let i = choose|i: int| 0 <= i < left.map_values(turn).len() && left.map_values(turn)[i] == item;
    let from = left[i];
    assert(left.contains(from));
    assert(right.contains(from));
    let k = choose|k: int| 0 <= k < right.len() && right[k] == from;
    assert(turn(from) == twist(from));
    assert(right.map_values(twist)[k] == item);
}

proof fn lemma_maps_agree<A, B>(
    left: Seq<A>,
    right: Seq<A>,
    turn: spec_fn(A) -> B,
    twist: spec_fn(A) -> B,
)
    requires
        same_records(left, right),
        forall|from: A| #[trigger] turn(from) == twist(from),
    ensures
        same_records(left.map_values(turn), right.map_values(twist)),
{
    assert forall|item: B| #[trigger] left.map_values(turn).contains(item)
        <==> right.map_values(twist).contains(item) by {
        if left.map_values(turn).contains(item) {
            lemma_one_map_agrees(left, right, turn, twist, item);
        }
        if right.map_values(twist).contains(item) {
            assert(same_records(right, left)) by {
                assert forall|one: A| #[trigger] right.contains(one) <==> left.contains(one) by {
                    assert(left.contains(one) <==> right.contains(one));
                }
            }
            assert forall|from: A| #[trigger] twist(from) == turn(from) by {
                assert(turn(from) == twist(from));
            }
            lemma_one_map_agrees(right, left, twist, turn, item);
        }
    }
}

proof fn lemma_buried_by(
    tombstones: Seq<TombstoneView>,
    kind: Seq<char>,
    id: Seq<char>,
    updated_at: Seq<char>,
)
    requires
        sync::keys_differ::<SyncTombstone>(tombstones),
    ensures
        sync::buried(tombstones, kind, id, updated_at) <==> exists|item: TombstoneView| #[trigger]
            tombstones.contains(item) && sync::entity_key(item.entity_kind, item.entity_id)
                == sync::entity_key(kind, id) && !text::precedes(item.deleted_at, updated_at),
{
    let key = sync::entity_key(kind, id);
    let at = sync::spot::<SyncTombstone>(tombstones, key) as int;
    sync::lemma_spot::<SyncTombstone>(tombstones, key);
    if sync::buried(tombstones, kind, id, updated_at) {
        assert(tombstones.contains(tombstones[at]));
    }
    if exists|item: TombstoneView| #[trigger]
        tombstones.contains(item) && sync::entity_key(item.entity_kind, item.entity_id)
            == sync::entity_key(kind, id) && !text::precedes(item.deleted_at, updated_at) {
        let item = choose|item: TombstoneView| #[trigger]
            tombstones.contains(item) && sync::entity_key(item.entity_kind, item.entity_id)
                == sync::entity_key(kind, id) && !text::precedes(item.deleted_at, updated_at);
        let k = choose|k: int| 0 <= k < tombstones.len() && tombstones[k] == item;
        assert(at <= k);
        if at < k {
            assert(SyncTombstone::key_of(tombstones[at]) != SyncTombstone::key_of(tombstones[k]));
        }
    }
}

proof fn lemma_burials_agree(
    left: Seq<TombstoneView>,
    right: Seq<TombstoneView>,
    kind: Seq<char>,
    id: Seq<char>,
    updated_at: Seq<char>,
)
    requires
        sync::keys_differ::<SyncTombstone>(left),
        sync::keys_differ::<SyncTombstone>(right),
        same_records(left, right),
    ensures
        sync::buried(left, kind, id, updated_at) == sync::buried(right, kind, id, updated_at),
{
    lemma_buried_by(left, kind, id, updated_at);
    lemma_buried_by(right, kind, id, updated_at);
    if sync::buried(left, kind, id, updated_at) {
        let item = choose|item: TombstoneView| #[trigger]
            left.contains(item) && sync::entity_key(item.entity_kind, item.entity_id)
                == sync::entity_key(kind, id) && !text::precedes(item.deleted_at, updated_at);
        assert(right.contains(item));
    }
    if sync::buried(right, kind, id, updated_at) {
        let item = choose|item: TombstoneView| #[trigger]
            right.contains(item) && sync::entity_key(item.entity_kind, item.entity_id)
                == sync::entity_key(kind, id) && !text::precedes(item.deleted_at, updated_at);
        assert(left.contains(item) <==> right.contains(item));
    }
}

proof fn lemma_least_is_least(list: Seq<Seq<char>>)
    requires
        list.len() > 0,
    ensures
        list.contains(sync::least(list)),
        forall|item: Seq<char>| #[trigger]
            list.contains(item) ==> !text::precedes(item, sync::least(list)),
    decreases list.len(),
{
    if list.len() == 1 {
        assert(list[0] == sync::least(list));
        text::lemma_precedes_total(list[0], list[0]);
        assert forall|item: Seq<char>| #[trigger] list.contains(item) implies !text::precedes(
            item,
            sync::least(list),
        ) by {
            assert(item == list[0]);
        }
    } else {
        let rest = list.drop_last();
        lemma_least_is_least(rest);
        let k = choose|k: int| 0 <= k < rest.len() && rest[k] == sync::least(rest);
        assert(list[k] == sync::least(rest));
        assert(list[list.len() - 1] == list.last());
        assert forall|item: Seq<char>| #[trigger] list.contains(item) implies !text::precedes(
            item,
            sync::least(list),
        ) by {
            let m = choose|m: int| 0 <= m < list.len() && list[m] == item;
            text::lemma_precedes_total(list.last(), list.last());
            if m < rest.len() {
                assert(rest[m] == item);
                assert(rest.contains(item));
                if text::precedes(list.last(), sync::least(rest)) && text::precedes(
                    item,
                    list.last(),
                ) {
                    text::lemma_precedes_transitive(item, list.last(), sync::least(rest));
                }
            }
        }
    }
}

proof fn lemma_fallbacks_agree(left: Seq<SyncCategoryView>, right: Seq<SyncCategoryView>)
    requires
        same_records(left, right),
        left.len() > 0,
        right.len() > 0,
    ensures
        same_records(sync::keys::<SyncCategory>(left), sync::keys::<SyncCategory>(right)),
        sync::fallback(left) == sync::fallback(right),
{
    let name = |item: SyncCategoryView| SyncCategory::key_of(item);
    lemma_maps_agree(left, right, name, name);
    let a = sync::keys::<SyncCategory>(left);
    let b = sync::keys::<SyncCategory>(right);
    assert(a =~= left.map_values(name));
    assert(b =~= right.map_values(name));
    assert(a.contains("杂务"@) <==> b.contains("杂务"@));
    lemma_least_is_least(a);
    lemma_least_is_least(b);
    assert(b.contains(sync::least(a)));
    assert(a.contains(sync::least(b)) <==> b.contains(sync::least(b)));
    text::lemma_precedes_total(sync::least(a), sync::least(b));
}

/// In both snapshots together, equally new records of one key are the same, for every kind of
/// record.
pub open spec fn no_disputes(left: SnapshotView, right: SnapshotView) -> bool {
    &&& sync::ties_agree::<SyncTombstone>(left.tombstones + right.tombstones)
    &&& sync::ties_agree::<SyncCategory>(left.categories + right.categories)
    &&& sync::ties_agree::<Project>(left.projects + right.projects)
    &&& sync::ties_agree::<Task>(left.tasks + right.tasks)
    &&& sync::ties_agree::<SyncSession>(left.sessions + right.sessions)
    &&& sync::ties_agree::<SyncRule>(left.rules + right.rules)
    &&& sync::ties_agree::<SyncDeviceInfo>(left.devices + right.devices)
}

proof fn lemma_no_disputes(left: SnapshotView, right: SnapshotView)
    requires
        no_disputes(left, right),
    ensures
        same_records(sync::merged_tombstones(left, right), sync::merged_tombstones(right, left)),
        sync::keys_differ::<SyncTombstone>(sync::merged_tombstones(left, right)),
        sync::keys_differ::<SyncTombstone>(sync::merged_tombstones(right, left)),
        same_records(
            sync::latest::<SyncCategory>(left.categories, right.categories),
            sync::latest::<SyncCategory>(right.categories, left.categories),
        ),
        same_records(
            sync::latest::<Project>(left.projects, right.projects),
            sync::latest::<Project>(right.projects, left.projects),
        ),
        same_records(
            sync::latest::<Task>(left.tasks, right.tasks),
            sync::latest::<Task>(right.tasks, left.tasks),
        ),
        same_records(
            sync::latest::<SyncSession>(left.sessions, right.sessions),
            sync::latest::<SyncSession>(right.sessions, left.sessions),
        ),
        same_records(
            sync::latest::<SyncRule>(left.rules, right.rules),
            sync::latest::<SyncRule>(right.rules, left.rules),
        ),
        same_records(
            sync::latest::<SyncDeviceInfo>(left.devices, right.devices),
            sync::latest::<SyncDeviceInfo>(right.devices, left.devices),
        ),
{
    sync::the_order_of_merging_does_not_matter::<SyncTombstone>(left.tombstones, right.tombstones);
    sync::the_order_of_merging_does_not_matter::<SyncCategory>(left.categories, right.categories);
    sync::the_order_of_merging_does_not_matter::<Project>(left.projects, right.projects);
    sync::the_order_of_merging_does_not_matter::<Task>(left.tasks, right.tasks);
    sync::the_order_of_merging_does_not_matter::<SyncSession>(left.sessions, right.sessions);
    sync::the_order_of_merging_does_not_matter::<SyncRule>(left.rules, right.rules);
    sync::the_order_of_merging_does_not_matter::<SyncDeviceInfo>(left.devices, right.devices);
    sync::merging_keeps_the_newest_of_every_key::<SyncTombstone>(
        left.tombstones,
        right.tombstones,
    );
    sync::merging_keeps_the_newest_of_every_key::<SyncTombstone>(
        right.tombstones,
        left.tombstones,
    );
}

proof fn lemma_categories_agree(left: SnapshotView, right: SnapshotView)
    requires
        no_disputes(left, right),
    ensures
        same_records(sync::merged_categories(left, right), sync::merged_categories(right, left)),
{
    lemma_no_disputes(left, right);
    let a = sync::merged_tombstones(left, right);
    let b = sync::merged_tombstones(right, left);
    let keep = |item: SyncCategoryView| !sync::buried(a, "category"@, item.name, item.updated_at);
    let hold = |item: SyncCategoryView| !sync::buried(b, "category"@, item.name, item.updated_at);
    assert forall|item: SyncCategoryView| #[trigger] keep(item) == hold(item) by {
        lemma_burials_agree(a, b, "category"@, item.name, item.updated_at);
    }
    lemma_filters_agree(
        sync::latest::<SyncCategory>(left.categories, right.categories),
        sync::latest::<SyncCategory>(right.categories, left.categories),
        keep,
        hold,
    );
}

proof fn lemma_same_emptiness<A>(left: Seq<A>, right: Seq<A>)
    requires
        same_records(left, right),
    ensures
        left.len() == 0 <==> right.len() == 0,
{
    if left.len() > 0 {
        assert(left.contains(left[0]));
        assert(right.contains(left[0]));
    }
    if right.len() > 0 {
        assert(right.contains(right[0]));
        assert(left.contains(right[0]) <==> right.contains(right[0]));
    }
}

proof fn lemma_projects_agree(left: SnapshotView, right: SnapshotView)
    requires
        no_disputes(left, right),
        sync::merged_categories(left, right).len() > 0,
    ensures
        same_records(sync::merged_projects(left, right), sync::merged_projects(right, left)),
        same_records(
            sync::keys::<Project>(sync::merged_projects(left, right)),
            sync::keys::<Project>(sync::merged_projects(right, left)),
        ),
{
    lemma_no_disputes(left, right);
    lemma_categories_agree(left, right);
    let a = sync::merged_tombstones(left, right);
    let b = sync::merged_tombstones(right, left);
    let c = sync::merged_categories(left, right);
    let d = sync::merged_categories(right, left);
    lemma_same_emptiness(c, d);
    lemma_fallbacks_agree(c, d);
    let keep = |item: ProjectView| !sync::buried(a, "project"@, item.id, item.updated_at);
    let hold = |item: ProjectView| !sync::buried(b, "project"@, item.id, item.updated_at);
    assert forall|item: ProjectView| #[trigger] keep(item) == hold(item) by {
        lemma_burials_agree(a, b, "project"@, item.id, item.updated_at);
    }
    let one = sync::latest::<Project>(left.projects, right.projects);
    let two = sync::latest::<Project>(right.projects, left.projects);
    lemma_filters_agree(one, two, keep, hold);
    let turn = |item: ProjectView|
        ProjectView { category: sync::standing_category(c, item.category), ..item };
    let twist = |item: ProjectView|
        ProjectView { category: sync::standing_category(d, item.category), ..item };
    assert forall|item: ProjectView| #[trigger] turn(item) == twist(item) by {
        lemma_standing(c, d, item.category);
    }
    lemma_maps_agree(one.filter(keep), two.filter(hold), turn, twist);
    let name = |item: ProjectView| Project::key_of(item);
    lemma_maps_agree(
        sync::merged_projects(left, right),
        sync::merged_projects(right, left),
        name,
        name,
    );
}

proof fn lemma_standing(
    left: Seq<SyncCategoryView>,
    right: Seq<SyncCategoryView>,
    category: Seq<char>,
)
    requires
        same_records(sync::keys::<SyncCategory>(left), sync::keys::<SyncCategory>(right)),
        sync::fallback(left) == sync::fallback(right),
    ensures
        sync::standing_category(left, category) == sync::standing_category(right, category),
{
    assert(sync::keys::<SyncCategory>(left).contains(category) <==> sync::keys::<SyncCategory>(
        right,
    ).contains(category));
}

proof fn lemma_tasks_agree(left: SnapshotView, right: SnapshotView)
    requires
        no_disputes(left, right),
        sync::merged_categories(left, right).len() > 0,
    ensures
        same_records(sync::merged_tasks(left, right), sync::merged_tasks(right, left)),
        same_records(
            sync::keys::<Task>(sync::merged_tasks(left, right)),
            sync::keys::<Task>(sync::merged_tasks(right, left)),
        ),
{
    lemma_no_disputes(left, right);
    lemma_projects_agree(left, right);
    let a = sync::merged_tombstones(left, right);
    let b = sync::merged_tombstones(right, left);
    let p = sync::keys::<Project>(sync::merged_projects(left, right));
    let q = sync::keys::<Project>(sync::merged_projects(right, left));
    let keep = |item: TaskView|
        p.contains(item.project_id) && !sync::buried(a, "task"@, item.id, item.updated_at);
    let hold = |item: TaskView|
        q.contains(item.project_id) && !sync::buried(b, "task"@, item.id, item.updated_at);
    assert forall|item: TaskView| #[trigger] keep(item) == hold(item) by {
        lemma_burials_agree(a, b, "task"@, item.id, item.updated_at);
        assert(p.contains(item.project_id) <==> q.contains(item.project_id));
    }
    lemma_filters_agree(
        sync::latest::<Task>(left.tasks, right.tasks),
        sync::latest::<Task>(right.tasks, left.tasks),
        keep,
        hold,
    );
    let name = |item: TaskView| Task::key_of(item);
    lemma_maps_agree(
        sync::merged_tasks(left, right),
        sync::merged_tasks(right, left),
        name,
        name,
    );
}

proof fn lemma_sessions_agree(left: SnapshotView, right: SnapshotView)
    requires
        no_disputes(left, right),
        sync::merged_categories(left, right).len() > 0,
    ensures
        same_records(sync::merged_sessions(left, right), sync::merged_sessions(right, left)),
{
    lemma_no_disputes(left, right);
    lemma_categories_agree(left, right);
    lemma_projects_agree(left, right);
    lemma_tasks_agree(left, right);
    let a = sync::merged_tombstones(left, right);
    let b = sync::merged_tombstones(right, left);
    let c = sync::merged_categories(left, right);
    let d = sync::merged_categories(right, left);
    lemma_same_emptiness(c, d);
    lemma_fallbacks_agree(c, d);
    let p = sync::keys::<Project>(sync::merged_projects(left, right));
    let q = sync::keys::<Project>(sync::merged_projects(right, left));
    let t = sync::keys::<Task>(sync::merged_tasks(left, right));
    let u = sync::keys::<Task>(sync::merged_tasks(right, left));
    let keep = |item: SyncSessionView|
        !sync::buried(a, "session"@, item.session.id, item.updated_at);
    let hold = |item: SyncSessionView|
        !sync::buried(b, "session"@, item.session.id, item.updated_at);
    assert forall|item: SyncSessionView| #[trigger] keep(item) == hold(item) by {
        lemma_burials_agree(a, b, "session"@, item.session.id, item.updated_at);
    }
    let one = sync::latest::<SyncSession>(left.sessions, right.sessions);
    let two = sync::latest::<SyncSession>(right.sessions, left.sessions);
    lemma_filters_agree(one, two, keep, hold);
    let turn = |item: SyncSessionView| sync::resolved_session(c, p, t, item);
    let twist = |item: SyncSessionView| sync::resolved_session(d, q, u, item);
    assert forall|item: SyncSessionView| #[trigger] turn(item) == twist(item) by {
        lemma_standing(c, d, item.session.category);
        if let Some(id) = item.session.project_id {
            assert(p.contains(id) <==> q.contains(id));
        }
        if let Some(id) = item.session.task_id {
            assert(t.contains(id) <==> u.contains(id));
        }
    }
    lemma_maps_agree(one.filter(keep), two.filter(hold), turn, twist);
}

proof fn lemma_rules_agree(left: SnapshotView, right: SnapshotView)
    requires
        no_disputes(left, right),
        sync::merged_categories(left, right).len() > 0,
    ensures
        same_records(sync::merged_rules(left, right), sync::merged_rules(right, left)),
{
    lemma_no_disputes(left, right);
    lemma_categories_agree(left, right);
    lemma_projects_agree(left, right);
    lemma_tasks_agree(left, right);
    let a = sync::merged_tombstones(left, right);
    let b = sync::merged_tombstones(right, left);
    let c = sync::merged_categories(left, right);
    let d = sync::merged_categories(right, left);
    lemma_same_emptiness(c, d);
    lemma_fallbacks_agree(c, d);
    let p = sync::keys::<Project>(sync::merged_projects(left, right));
    let q = sync::keys::<Project>(sync::merged_projects(right, left));
    let t = sync::keys::<Task>(sync::merged_tasks(left, right));
    let u = sync::keys::<Task>(sync::merged_tasks(right, left));
    let keep = |item: SyncRuleView| !sync::buried(a, "rule"@, item.rule.id, item.updated_at);
    let hold = |item: SyncRuleView| !sync::buried(b, "rule"@, item.rule.id, item.updated_at);
    assert forall|item: SyncRuleView| #[trigger] keep(item) == hold(item) by {
        lemma_burials_agree(a, b, "rule"@, item.rule.id, item.updated_at);
    }
    let one = sync::latest::<SyncRule>(left.rules, right.rules);
    let two = sync::latest::<SyncRule>(right.rules, left.rules);
    lemma_filters_agree(one, two, keep, hold);
    let turn = |item: SyncRuleView| sync::resolved_rule(c, p, t, item);
    let twist = |item: SyncRuleView| sync::resolved_rule(d, q, u, item);
    assert forall|item: SyncRuleView| #[trigger] turn(item) == twist(item) by {
        lemma_standing(c, d, item.rule.category);
        if let Some(id) = item.rule.project_id {
            assert(p.contains(id) <==> q.contains(id));
        }
        if let Some(id) = item.rule.task_id {
            assert(t.contains(id) <==> u.contains(id));
        }
    }
    lemma_maps_agree(one.filter(keep), two.filter(hold), turn, twist);
}

/// Devices that merge the same two snapshots end up with the same ledger, whichever is merged into
/// which: both refuse, or both hold the same records of every kind.
pub proof fn devices_agree(left: SnapshotView, right: SnapshotView, at: Seq<char>, then_at: Seq<char>)
    requires
        no_disputes(left, right),
    ensures
        match (sync::merged(left, right, at), sync::merged(right, left, then_at)) {
            (Ok(one), Ok(two)) => {
                &&& same_records(one.categories, two.categories)
                &&& same_records(one.projects, two.projects)
                &&& same_records(one.tasks, two.tasks)
                &&& same_records(one.sessions, two.sessions)
                &&& same_records(one.rules, two.rules)
                &&& same_records(one.tombstones, two.tombstones)
                &&& same_records(one.devices, two.devices)
                &&& one.sleep_debt_started_on == two.sleep_debt_started_on
            },
            (Err(one), Err(two)) => one == two,
            _ => false,
        },
{
    lemma_no_disputes(left, right);
    lemma_categories_agree(left, right);
    lemma_same_emptiness(
        sync::merged_categories(left, right),
        sync::merged_categories(right, left),
    );
    if left.schema_version == sync::SNAPSHOT_SCHEMA && right.schema_version
        == sync::SNAPSHOT_SCHEMA && sync::merged_categories(left, right).len() > 0 {
        lemma_projects_agree(left, right);
        lemma_tasks_agree(left, right);
        lemma_sessions_agree(left, right);
        lemma_rules_agree(left, right);
        if let (Some(a), Some(b)) = (left.sleep_debt_started_on, right.sleep_debt_started_on) {
            text::lemma_precedes_total(a, b);
        }
    }
}

} // verus!
