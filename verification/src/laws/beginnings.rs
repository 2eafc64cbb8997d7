//! Promises of how things begin: first settings, default categories, and what is asked for first.
use vstd::prelude::*;

use crate::collector;
use crate::hierarchy;
use crate::json::JsonView;
use crate::lists;
use crate::memory;
use crate::memory::{MatchScore, MemoryRecord};
use crate::models::SettingsView;
use crate::settings;
use crate::sync;
use crate::sync::{SyncCategory, SyncCategoryView, TombstoneRow, TombstoneView};
use crate::text;

verus! {

broadcast use vstd::seq_lib::group_seq_properties;

/// The first settings ask no service and are in their normal form but for the service that none has
/// chosen yet; they are used where none are stored.
pub proof fn first_settings_stay_local(migrated: bool)
    ensures
        settings::initial().ai_mode == "off"@,
        settings::initial().analysis_timing == "local-only"@,
        settings::initial().capture_scope == "metadata-only"@,
        settings::initial().ai_secret_ref is None,
        !settings::initial().launch_at_login,
        settings::on_load(None, true) == settings::initial(),
        settings::on_load(None, false).ai_mode == "off"@,
{
}

/// Stored settings are used as they are. Those from before the intervals changed get the new ones, and
/// keep everything else.
pub proof fn stored_settings_are_used(stored: SettingsView)
    ensures
        settings::on_load(Some(stored), true) == stored,
        ({
            let used = settings::on_load(Some(stored), false);
            &&& used.poll_interval_seconds == 1
            &&& used.heartbeat_seconds == 5
            &&& used == (SettingsView {
                poll_interval_seconds: used.poll_interval_seconds,
                heartbeat_seconds: used.heartbeat_seconds,
                ..stored
            })
        }),
{
}

/// The category has its name and its colour, and is one of those that come along.
pub open spec fn comes_along(category: SyncCategoryView, name: Seq<char>, at: Seq<char>) -> bool {
    &&& category.name == name
    &&& category.is_builtin
    &&& category.created_at == at
    &&& category.updated_at == at
}

/// Default categories come along unless they are there or were deleted; those that are there stay as
/// they are, in front.
pub proof fn default_categories_come_along(
    list: Seq<SyncCategoryView>,
    tombstones: Seq<TombstoneView>,
    names: Seq<Seq<char>>,
    at: Seq<char>,
)
    ensures
        ({
            let after = hierarchy::with_defaults(list, tombstones, names, at);
            &&& list.len() <= after.len() <= list.len() + names.len()
            &&& forall|k: int| 0 <= k < list.len() ==> #[trigger] after[k] == list[k]
            &&& forall|k: int|
                list.len() <= k < after.len() ==> names.contains((#[trigger] after[k]).name)
                    && comes_along(after[k], after[k].name, at) && sync::spot::<TombstoneRow>(
                    tombstones,
                    sync::row_key("category"@, after[k].name),
                ) >= tombstones.len()
            &&& forall|m: int|
                0 <= m < names.len() && sync::spot::<TombstoneRow>(
                    tombstones,
                    sync::row_key("category"@, #[trigger] names[m]),
                ) >= tombstones.len() ==> hierarchy::category_row(after, names[m]) is Some
        }),
    decreases names.len(),
{
    if names.len() > 0 {
        let rest = names.drop_last();
        let last = names.last();
        default_categories_come_along(list, tombstones, rest, at);
        let before = hierarchy::with_defaults(list, tombstones, rest, at);
        let after = hierarchy::with_defaults(list, tombstones, names, at);
        assert forall|k: int| list.len() <= k < after.len() implies names.contains(
            (#[trigger] after[k]).name,
        ) && comes_along(after[k], after[k].name, at) && sync::spot::<TombstoneRow>(
            tombstones,
            sync::row_key("category"@, after[k].name),
        ) >= tombstones.len() by {
            if k < before.len() {
                assert(after[k] == before[k]);
                assert(rest.contains(before[k].name));
                let m = choose|m: int| 0 <= m < rest.len() && rest[m] == before[k].name;
                assert(names[m] == after[k].name);
            } else {
                assert(names[names.len() - 1] == after[k].name);
            }
        }
        assert forall|m: int|
            0 <= m < names.len() && sync::spot::<TombstoneRow>(
                tombstones,
                sync::row_key("category"@, #[trigger] names[m]),
            ) >= tombstones.len() implies hierarchy::category_row(after, names[m]) is Some by {
            if m < rest.len() {
                assert(rest[m] == names[m]);
            }
            if after.len() > before.len() {
                lemma_still_there(before, after.last(), names[m]);
            }
        }
    }
}

proof fn lemma_still_there(
    list: Seq<SyncCategoryView>,
    more: SyncCategoryView,
    name: Seq<char>,
)
    ensures
        hierarchy::category_row(list, name) is Some || more.name == name
            ==> hierarchy::category_row(list.push(more), name) is Some,
{
    sync::lemma_spot::<SyncCategory>(list, name);
    sync::lemma_spot::<SyncCategory>(list.push(more), name);
    let at = sync::spot::<SyncCategory>(list, name) as int;
    let all = list.push(more);
    let found = sync::spot::<SyncCategory>(all, name) as int;
    if at < list.len() {
        assert(all[at] == list[at]);
        if at < found {
            assert(all[at].name != name);
        }
    }
    if more.name == name && found >= all.len() {
        assert(all[list.len() as int].name != name);
    }
}

/// A review that a prompt asked for was about time away where its target says so, by its words, its
/// source or its place.
pub proof fn questions_about_time_away_are_told(target: JsonView, given: SettingsView)
    ensures
        collector::asks_about_idle(target, given) <==> (target.member_text("source"@) == Some(
            "collector-idle"@,
        ) || (target.member_text("summary"@) is Some && text::trimmed(
            target.member_text("summary"@).unwrap(),
        ) == "离开/空闲"@) || (target.member_text("category"@) == Some(given.idle_category)
            && target.member_text("projectName"@) == Some(given.idle_project_name))),
{
}

/// The sessions that a prompt asked about as time away are those of its items whose target says so.
pub proof fn prompts_name_their_sessions(document: JsonView, given: SettingsView, k: int)
    requires
        0 <= k < document.member_items("reviewItems"@).len(),
    ensures
        document.member_items("reviewItems"@)[k].member("targetSession"@) matches Some(target)
            ==> (collector::asks_about_idle(target, given) && target.member_text(
            "sessionId"@,
        ) is Some ==> collector::idle_targets(document, given).contains(
            target.member_text("sessionId"@).unwrap(),
        )),
{
    let items = document.member_items("reviewItems"@);
    let pick = |item: JsonView| collector::idle_target(item, given);
    if pick(items[k]) is Some {
        lists::lemma_picked(items, pick, k);
    }
}

/// The examples that are shown are at most so many, each similar by at least 0.34, best first, and
/// no two of one assignment.
pub proof fn examples_differ_in_assignment(
    records: Seq<MemoryRecord>,
    scores: Seq<MatchScore>,
    limit: nat,
    order: Seq<usize>,
    groups: Seq<usize>,
    result: Seq<usize>,
)
    requires
        records.len() == scores.len(),
        memory::examples(records, scores, limit, order, groups, result),
    ensures
        result.len() <= limit,
        forall|k: int|
            0 <= k < result.len() ==> #[trigger] result[k] < records.len()
                && scores[result[k] as int].score >= 0x3EAE147B,
        forall|k: int, l: int|
            0 <= k < l < result.len() ==> memory::assignment(records[#[trigger] result[k] as int])
                != memory::assignment(records[#[trigger] result[l] as int])
                && scores[result[k] as int].score >= scores[result[l] as int].score,
{
    let heads = memory::group_heads(groups, limit, groups.len() as int);
    lemma_heads(groups, limit, groups.len() as int);
    assert forall|k: int| 0 <= k < result.len() implies #[trigger] result[k] < records.len()
        && scores[result[k] as int].score >= 0x3EAE147B by {
        assert(result[k] == order[heads[k] as int]);
        assert(memory::example_flags(scores)[order[heads[k] as int] as int]);
    }
    assert forall|k: int, l: int| 0 <= k < l < result.len() implies memory::assignment(
        records[#[trigger] result[k] as int],
    ) != memory::assignment(records[#[trigger] result[l] as int])
        && scores[result[k] as int].score >= scores[result[l] as int].score by {
        let p = heads[k] as int;
        let q = heads[l] as int;
        assert(p < q);
        assert(groups[q] == q);
        assert(memory::first_with_assignment(records, order, q, groups[q] as int));
        assert(memory::assignment(records[order[p] as int]) != memory::assignment(
            records[order[q] as int],
        ));
        assert(memory::ahead(records, scores, order[p] as int, order[q] as int));
    }
}

proof fn lemma_heads(groups: Seq<usize>, limit: nat, n: int)
    requires
        n <= groups.len(),
    ensures
        memory::group_heads(groups, limit, n).len() <= limit,
        forall|k: int|
            0 <= k < memory::group_heads(groups, limit, n).len() ==> (
            #[trigger] memory::group_heads(groups, limit, n)[k]) < n && groups[memory::group_heads(
                groups,
                limit,
                n,
            )[k] as int] == memory::group_heads(groups, limit, n)[k],
        forall|k: int, l: int|
            0 <= k < l < memory::group_heads(groups, limit, n).len() ==> (
            #[trigger] memory::group_heads(groups, limit, n)[k]) < (
            #[trigger] memory::group_heads(groups, limit, n)[l]),
    decreases n,
{
    if n > 0 {
        lemma_heads(groups, limit, n - 1);
    }
}

} // verus!
