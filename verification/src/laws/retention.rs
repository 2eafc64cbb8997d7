//! Promises of upkeep: what stays, what leaves, and what is noted in plans.
use vstd::prelude::*;

use crate::clock;
use crate::clock::Moment;
use crate::lists;
use crate::maintenance;
use crate::models::{AnalysisJobView, PlanItemView, SessionView};
use crate::plan;
use crate::recall::StoredView;
use crate::sync::SyncRuleView;
use crate::text;
use crate::trends;
use crate::trends::TrendKind;

verus! {

broadcast use vstd::seq_lib::group_seq_properties;

/// Something is stale from so many days ago on, and never where its time cannot be read.
pub proof fn staleness_is_counted_in_days(timestamp: Seq<char>, now: Moment, days: u32)
    requires
        now.nanos < 1_000_000_000,
        i64::MIN <= now.seconds - 86_400 * days,
    ensures
        clock::moment_of(timestamp) is None ==> !maintenance::stale(timestamp, now, days),
        clock::moment_of(timestamp) matches Some(at) ==> {
            &&& at.seconds + 86_400 * days < now.seconds ==> maintenance::stale(
                timestamp,
                now,
                days,
            )
            &&& at.seconds + 86_400 * days > now.seconds ==> !maintenance::stale(
                timestamp,
                now,
                days,
            )
            &&& at.seconds + 86_400 * days == now.seconds ==> (maintenance::stale(
                timestamp,
                now,
                days,
            ) <==> at.nanos < now.nanos)
        },
{
}

proof fn lemma_ahead(keys: Seq<Option<Seq<char>>>, older: int, newer: int, n: nat)
    requires
        n <= keys.len(),
        0 <= older < keys.len(),
        0 <= newer < keys.len(),
        keys[older] is Some,
        keys[newer] is Some,
        text::precedes(keys[older].unwrap(), keys[newer].unwrap()),
    ensures
        maintenance::ahead(keys, older, n) >= maintenance::ahead(keys, newer, n) + if newer < n {
            1nat
        } else {
            0nat
        },
    decreases n,
{
    if n > 0 {
        let k = n - 1;
        lemma_ahead(keys, older, newer, k as nat);
        text::lemma_precedes_total(keys[newer].unwrap(), keys[newer].unwrap());
        if maintenance::outdoes(keys, k, newer) {
            let left = keys[k].unwrap();
            if text::precedes(keys[newer].unwrap(), left) {
                text::lemma_precedes_transitive(
                    keys[older].unwrap(),
                    keys[newer].unwrap(),
                    left,
                );
            }
            assert(maintenance::outdoes(keys, k, older));
        }
        if k == newer {
            assert(maintenance::outdoes(keys, k, older));
        }
    }
}

/// How many of the first keys compete.
pub open spec fn competing(keys: Seq<Option<Seq<char>>>, n: nat) -> nat
    decreases n,
{
    if n == 0 {
        0
    } else {
        competing(keys, (n - 1) as nat) + if keys[n - 1] is Some {
            1nat
        } else {
            0nat
        }
    }
}

proof fn lemma_room(keys: Seq<Option<Seq<char>>>, i: int, n: nat)
    requires
        n <= keys.len(),
        0 <= i < keys.len(),
        keys[i] is Some,
    ensures
        maintenance::ahead(keys, i, n) + if i < n {
            1nat
        } else {
            0nat
        } <= competing(keys, n),
    decreases n,
{
    if n > 0 {
        lemma_room(keys, i, (n - 1) as nat);
        text::lemma_precedes_total(keys[i].unwrap(), keys[i].unwrap());
    }
}

proof fn lemma_competing(keys: Seq<Option<Seq<char>>>, n: nat)
    ensures
        competing(keys, n) <= n,
    decreases n,
{
    if n > 0 {
        lemma_competing(keys, (n - 1) as nat);
    }
}

/// The item is one of the first, and survives there.
pub open spec fn is_survivor<T>(
    items: Seq<T>,
    keys: Seq<Option<Seq<char>>>,
    limit: nat,
    n: nat,
    item: T,
) -> bool {
    exists|i: int|
        0 <= i < n && maintenance::survives(keys, i, limit) && #[trigger] items[i] == item
}

proof fn lemma_kept<T>(items: Seq<T>, keys: Seq<Option<Seq<char>>>, limit: nat, n: nat)
    requires
        n <= items.len(),
        keys.len() == items.len(),
    ensures
        forall|i: int|
            0 <= i < n && maintenance::survives(keys, i, limit) ==> maintenance::kept(
                items,
                keys,
                limit,
                n,
            ).contains(#[trigger] items[i]),
        forall|m: int|
            0 <= m < maintenance::kept(items, keys, limit, n).len() ==> is_survivor(
                items,
                keys,
                limit,
                n,
                #[trigger] maintenance::kept(items, keys, limit, n)[m],
            ),
    decreases n,
{
    if n > 0 {
        let less = (n - 1) as nat;
        lemma_kept(items, keys, limit, less);
        let before = maintenance::kept(items, keys, limit, less);
        let after = maintenance::kept(items, keys, limit, n);
        assert forall|i: int| 0 <= i < n && maintenance::survives(keys, i, limit) implies after.contains(
            #[trigger] items[i],
        ) by {
            if i < less {
                assert(before.contains(items[i]));
                let m = choose|m: int| 0 <= m < before.len() && before[m] == items[i];
                assert(after[m] == items[i]);
            } else {
                assert(after[after.len() - 1] == items[i]);
            }
        }
        assert forall|m: int| 0 <= m < after.len() implies is_survivor(
            items,
            keys,
            limit,
            n,
            #[trigger] after[m],
        ) by {
            if m < before.len() {
                assert(after[m] == before[m]);
                assert(is_survivor(items, keys, limit, less, before[m]));
                let i = choose|i: int|
                    0 <= i < less && maintenance::survives(keys, i, limit) && #[trigger] items[i]
                        == before[m];
                assert(items[i] == after[m]);
            } else {
                assert(items[n - 1] == after[m]);
            }
        }
    }
}

/// Up to two thousand memories all stay. Where some leave, none that leaves was confirmed later than
/// one that stays, and nothing is made up.
pub proof fn the_latest_memories_stay(items: Seq<StoredView>)
    ensures
        forall|memory: StoredView| #[trigger]
            maintenance::pruned_memories(items).contains(memory) ==> items.contains(memory),
        items.len() <= 2000 ==> forall|i: int|
            0 <= i < items.len() ==> maintenance::pruned_memories(items).contains(
                #[trigger] items[i],
            ),
        forall|stays: StoredView, leaves: StoredView|
            #![trigger maintenance::pruned_memories(items).contains(stays), items.contains(leaves)]
            maintenance::pruned_memories(items).contains(stays) && items.contains(leaves)
                && !maintenance::pruned_memories(items).contains(leaves) ==> !text::precedes(
                stays.confirmed_at,
                leaves.confirmed_at,
            ),
{
    let keys = maintenance::memory_keys(items);
    let left = maintenance::pruned_memories(items);
    lemma_kept(items, keys, 2000, items.len());
    lemma_competing(keys, keys.len());
    assert forall|memory: StoredView| #[trigger] left.contains(memory) implies items.contains(
        memory,
    ) by {
        let m = choose|m: int| 0 <= m < left.len() && left[m] == memory;
        assert(is_survivor(items, keys, 2000, items.len(), left[m]));
        let i = choose|i: int|
            0 <= i < items.len() && maintenance::survives(keys, i, 2000) && #[trigger] items[i]
                == left[m];
        assert(items[i] == memory);
    }
    if items.len() <= 2000 {
        assert forall|i: int| 0 <= i < items.len() implies left.contains(#[trigger] items[i]) by {
            lemma_room(keys, i, keys.len());
            assert(maintenance::survives(keys, i, 2000));
        }
    }
    assert forall|stays: StoredView, leaves: StoredView|
        #![trigger left.contains(stays), items.contains(leaves)]
        left.contains(stays) && items.contains(leaves) && !left.contains(
            leaves,
        ) implies !text::precedes(stays.confirmed_at, leaves.confirmed_at) by {
        let m = choose|m: int| 0 <= m < left.len() && left[m] == stays;
        assert(is_survivor(items, keys, 2000, items.len(), left[m]));
        let k = choose|k: int|
            0 <= k < items.len() && maintenance::survives(keys, k, 2000) && #[trigger] items[k]
                == left[m];
        let i = choose|i: int| 0 <= i < items.len() && items[i] == leaves;
        assert(!maintenance::survives(keys, i, 2000));
        if text::precedes(stays.confirmed_at, leaves.confirmed_at) {
            lemma_ahead(keys, k, i, keys.len());
        }
    }
}

/// A rule that was not learned always stays. Of those that were, none that leaves changed later than
/// one that stays, and all stay where there are at most two thousand rules.
pub proof fn the_latest_learned_rules_stay(items: Seq<SyncRuleView>)
    ensures
        forall|item: SyncRuleView| #[trigger]
            maintenance::pruned_rules(items).contains(item) ==> items.contains(item),
        forall|item: SyncRuleView| #[trigger]
            items.contains(item) && !item.rule.created_from_correction
                ==> maintenance::pruned_rules(items).contains(item),
        items.len() <= 2000 ==> forall|i: int|
            0 <= i < items.len() ==> maintenance::pruned_rules(items).contains(#[trigger] items[i]),
        forall|stays: SyncRuleView, leaves: SyncRuleView|
            #![trigger maintenance::pruned_rules(items).contains(stays), items.contains(leaves)]
            maintenance::pruned_rules(items).contains(stays) && stays.rule.created_from_correction
                && items.contains(leaves) && !maintenance::pruned_rules(items).contains(leaves)
                ==> !text::precedes(stays.updated_at, leaves.updated_at),
{
    let keys = maintenance::rule_keys(items);
    let left = maintenance::pruned_rules(items);
    lemma_kept(items, keys, 2000, items.len());
    lemma_competing(keys, keys.len());
    assert forall|item: SyncRuleView| #[trigger] left.contains(item) implies items.contains(
        item,
    ) by {
        let m = choose|m: int| 0 <= m < left.len() && left[m] == item;
        assert(is_survivor(items, keys, 2000, items.len(), left[m]));
        let i = choose|i: int|
            0 <= i < items.len() && maintenance::survives(keys, i, 2000) && #[trigger] items[i]
                == left[m];
        assert(items[i] == item);
    }
    assert forall|item: SyncRuleView| #[trigger]
        items.contains(item) && !item.rule.created_from_correction implies left.contains(item) by {
        let i = choose|i: int| 0 <= i < items.len() && items[i] == item;
        assert(keys[i] is None);
        assert(maintenance::survives(keys, i, 2000));
    }
    if items.len() <= 2000 {
        assert forall|i: int| 0 <= i < items.len() implies left.contains(#[trigger] items[i]) by {
            if keys[i] is Some {
                lemma_room(keys, i, keys.len());
            }
            assert(maintenance::survives(keys, i, 2000));
        }
    }
    assert forall|stays: SyncRuleView, leaves: SyncRuleView|
        #![trigger left.contains(stays), items.contains(leaves)]
        left.contains(stays) && stays.rule.created_from_correction && items.contains(leaves)
            && !left.contains(leaves) implies !text::precedes(
        stays.updated_at,
        leaves.updated_at,
    ) by {
        let m = choose|m: int| 0 <= m < left.len() && left[m] == stays;
        assert(is_survivor(items, keys, 2000, items.len(), left[m]));
        let k = choose|k: int|
            0 <= k < items.len() && maintenance::survives(keys, k, 2000) && #[trigger] items[k]
                == left[m];
        let i = choose|i: int| 0 <= i < items.len() && items[i] == leaves;
        assert(!maintenance::survives(keys, i, 2000));
        if text::precedes(stays.updated_at, leaves.updated_at) {
            lemma_ahead(keys, k, i, keys.len());
        }
    }
}

/// The review is done.
pub open spec fn is_over(job: AnalysisJobView) -> bool {
    job.status == "completed"@ || job.status == "failed"@ || job.status == "downgraded"@
        || job.status == "skipped"@
}

/// A review that is not done never leaves, and keeps everything. One that is done loses at most what
/// was asked and answered, and that only fourteen days after it was over.
pub proof fn open_reviews_stay(items: Seq<AnalysisJobView>, now: Moment, days: u32, i: int)
    requires
        0 <= i < items.len(),
        items[i].mode == "metadata-context-review"@,
    ensures
        !is_over(items[i]) ==> maintenance::pruned_jobs(items, now, days).contains(items[i]),
        ({
            let after = maintenance::untraced(items[i], now);
            let over = match items[i].completed_at {
                Some(at) => at,
                None => items[i].metadata_range.ended_at,
            };
            &&& !is_over(items[i]) || !maintenance::stale(over, now, 14) ==> after == items[i]
            &&& after.id == items[i].id && after.status == items[i].status && after.usage
                == items[i].usage && after.chunk_ids == items[i].chunk_ids && after.completed_at
                == items[i].completed_at && after.queued_at == items[i].queued_at && after.error
                == items[i].error && after.metadata_range == items[i].metadata_range
        }),
{
    let keep = |job: AnalysisJobView|
        maintenance::reviews_metadata(job) && !maintenance::outlived(job, now, days);
    let aired = maintenance::aired_jobs(items, now, days);
    let keys = maintenance::job_keys(aired);
    if !is_over(items[i]) {
        lists::lemma_filtered(items, keep);
        assert(items.contains(items[i]) && keep(items[i]));
        assert(items.filter(keep).contains(items[i]));
        let m = choose|m: int| 0 <= m < items.filter(keep).len() && items.filter(keep)[m]
            == items[i];
        assert(aired[m] == items[i]);
        assert(keys[m] is None);
        lemma_kept(aired, keys, 1000, aired.len());
        assert(maintenance::survives(keys, m, 1000));
    }
}

/// A word of the text is found.
pub open spec fn some_word_occurs(hay: Seq<char>, words: Seq<char>) -> bool {
    exists|i: int|
        0 <= i < text::word_list(words).len() && text::occurs(
            hay,
            #[trigger] text::word_list(words)[i],
        )
}

/// A session is noted under an entry once, at the end, and only where the entry's words are found in
/// the session; nothing else of the entry changes.
pub proof fn sessions_are_noted_where_words_meet(
    item: PlanItemView,
    hay: Seq<char>,
    session_id: Seq<char>,
)
    ensures
        ({
            let after = plan::noted(item, hay, session_id);
            let words = text::lowercase(item.title + " "@ + item.note.unwrap_or(Seq::empty()));
            &&& after.id == item.id && after.title == item.title && after.note == item.note
                && after.source == item.source
            &&& item.matched_session_ids.contains(session_id) ==> after == item
            &&& words.len() > 0 && text::occurs(hay, words) && !item.matched_session_ids.contains(
                session_id,
            ) ==> after.matched_session_ids == item.matched_session_ids.push(session_id)
            &&& after.matched_session_ids == item.matched_session_ids
                || after.matched_session_ids == item.matched_session_ids.push(session_id)
            &&& after != item ==> words.len() > 0 && (text::occurs(hay, words) || some_word_occurs(
                hay,
                words,
            ))
        }),
{
    let words = plan::item_words(item);
    assert(words == text::lowercase(item.title + " "@ + item.note.unwrap_or(Seq::empty())));
    if plan::fits(hay, words) && !text::occurs(hay, words) {
        let i = choose|i: int|
            0 <= i < text::word_list(words).len() && plan::telling(
                hay,
                #[trigger] text::word_list(words)[i],
            );
        assert(text::occurs(hay, text::word_list(words)[i]));
    }
}

/// An entry keeps its latest 256 sessions, in their order.
pub proof fn entries_keep_their_latest_sessions(ids: Seq<Seq<char>>)
    ensures
        plan::latest_links(ids).len() <= 256,
        ids.len() <= 256 ==> plan::latest_links(ids) == ids,
        ids.len() > 256 ==> plan::latest_links(ids) == ids.subrange(
            ids.len() - 256,
            ids.len() as int,
        ),
{
}

/// Where a session is absorbed, its entry names the session that absorbed it instead; an entry that
/// does not name it is left as it is.
pub proof fn absorbed_sessions_are_replaced(
    list: Seq<Seq<char>>,
    absorbed: Seq<char>,
    anchor: Seq<char>,
)
    requires
        absorbed != anchor,
    ensures
        !list.contains(absorbed) ==> plan::relinked(list, absorbed, anchor) == list,
        list.contains(absorbed) ==> forall|id: Seq<char>| #[trigger]
            plan::relinked(list, absorbed, anchor).contains(id) <==> id == anchor || (
            list.contains(id) && id != absorbed),
{
    if list.contains(absorbed) {
        let mapped = list.map_values(|id: Seq<char>| plan::renamed(id, absorbed, anchor));
        assert(plan::relinked(list, absorbed, anchor) == text::sorted_distinct(mapped));
        assert forall|id: Seq<char>| #[trigger]
            plan::relinked(list, absorbed, anchor).contains(id) <==> id == anchor || (
            list.contains(id) && id != absorbed) by {
            text::lemma_sorted_texts(mapped);
            if id == anchor {
                let k = choose|k: int| 0 <= k < list.len() && list[k] == absorbed;
                assert(mapped[k] == anchor);
                assert(mapped.contains(id));
            } else if list.contains(id) && id != absorbed {
                let k = choose|k: int| 0 <= k < list.len() && list[k] == id;
                assert(mapped[k] == id);
                assert(mapped.contains(id));
            }
            assert(text::sorted_distinct(mapped).contains(id) <==> mapped.contains(id));
            if mapped.contains(id) {
                let k = choose|k: int| 0 <= k < mapped.len() && mapped[k] == id;
                assert(list[k] == absorbed || list[k] == id);
                assert(list.contains(list[k]));
            }
        }
    }
}

/// Trends by project leave out time away that the user has not confirmed; those by category sum
/// everything. Work without a project is summed as such.
pub proof fn trends_sum_work(session: SessionView)
    ensures
        trends::is_summed(TrendKind::Category, session),
        trends::is_summed(TrendKind::Project, session) <==> session.category != "离开"@ && (
        session.source != "collector-idle"@ || session.user_confirmed),
        trends::trend_label(TrendKind::Category, session) == session.category,
        session.project_name matches Some(name) ==> trends::trend_label(
            TrendKind::Project,
            session,
        ) == name,
        session.project_name is None ==> trends::trend_label(TrendKind::Project, session)
            == "未归类"@,
{
}

} // verus!
