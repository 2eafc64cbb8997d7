//! Bounds on what is kept.
use vstd::prelude::*;
use vstd::string::*;

use crate::clock;
use crate::clock::Moment;
use crate::jobs;
use crate::models::{AnalysisJob, AnalysisJobView};
use crate::recall;
use crate::recall::{StoredMemory, StoredView};
use crate::settings;
use crate::sync;
use crate::sync::{
    SyncRule, SyncRuleView, SyncSession, SyncSessionView, SyncTombstone, TombstoneRow, TombstoneView,
};
use crate::text;

verus! {

broadcast use vstd::seq_lib::group_seq_properties;

pub const AI_TRACE_RETENTION_DAYS: u32 = 14;

pub const TOMBSTONE_RETENTION_DAYS: u32 = 180;

pub const MAX_AI_JOB_HISTORY: usize = 1000;

pub const MAX_CORRECTION_RULES: usize = 2000;

pub const MAX_PERSONAL_MEMORIES: usize = 2000;

/// The text is a time more than so many days ago.
pub open spec fn stale(timestamp: Seq<char>, now: Moment, days: u32) -> bool {
    match clock::moment_of(timestamp) {
        Some(moment) => clock::before(moment, clock::shifted(now, -86_400 * days as int)),
        None => false,
    }
}

/// Whether a time is more than so many days ago.
pub fn is_stale(timestamp: &str, now: Moment, days: u32) -> (result: bool)
    requires
        now.in_calendar(),
        days <= 3650,
    ensures
        result == stale(timestamp@, now, days),
{
    match clock::parse_moment(timestamp) {
        Some(moment) => {
            let limit = clock::shift(now, -86_400 * days as i64);
            clock::is_before(moment, limit)
        },
        None => false,
    }
}

/// For how many days observations and reviews are kept.
pub fn retention_days(configured: u32) -> (result: u32)
    ensures
        result == settings::clamped(configured, 7, 3650),
        7 <= result <= 3650,
{
    settings::clamp(configured, 7, 3650)
}

/// The first of two competing entries comes before the second: it is newer, or as new and earlier
/// in the list.
pub open spec fn outdoes(keys: Seq<Option<Seq<char>>>, k: int, i: int) -> bool {
    match (keys[k], keys[i]) {
        (Some(left), Some(right)) => text::precedes(right, left) || (left == right && k < i),
        _ => false,
    }
}

/// How many of the first `n` entries come before the given one.
pub open spec fn ahead(keys: Seq<Option<Seq<char>>>, i: int, n: nat) -> nat
    decreases n,
{
    if n == 0 {
        0
    } else {
        ahead(keys, i, (n - 1) as nat) + if outdoes(keys, n - 1, i) {
            1nat
        } else {
            0nat
        }
    }
}

/// The entry does not compete, or is among the newest so many.
pub open spec fn survives(keys: Seq<Option<Seq<char>>>, i: int, limit: nat) -> bool {
    keys[i] is None || ahead(keys, i, keys.len()) < limit
}

/// Of the first `n` entries, how many compete and are among the newest so many.
pub open spec fn survivors(keys: Seq<Option<Seq<char>>>, limit: nat, n: nat) -> nat
    decreases n,
{
    if n == 0 {
        0
    } else {
        survivors(keys, limit, (n - 1) as nat) + if keys[n - 1] is Some && survives(
            keys,
            n - 1,
            limit,
        ) {
            1nat
        } else {
            0nat
        }
    }
}

proof fn lemma_outdoes(keys: Seq<Option<Seq<char>>>, a: int, b: int)
    ensures
        keys[a] is Some && keys[b] is Some && a != b ==> outdoes(keys, a, b) || outdoes(keys, b, a),
        !outdoes(keys, a, a),
{
    if let (Some(left), Some(right)) = (keys[a], keys[b]) {
        text::lemma_precedes_total(left, right);
    }
    if let Some(own) = keys[a] {
        text::lemma_precedes_total(own, own);
    }
}

proof fn lemma_outdoes_transitive(keys: Seq<Option<Seq<char>>>, a: int, b: int, c: int)
    requires
        outdoes(keys, a, b),
        outdoes(keys, b, c),
    ensures
        outdoes(keys, a, c),
{
    let x = keys[a].unwrap();
    let y = keys[b].unwrap();
    let z = keys[c].unwrap();
    if text::precedes(y, x) && text::precedes(z, y) {
        text::lemma_precedes_transitive(z, y, x);
    }
}

proof fn lemma_ahead_grows(keys: Seq<Option<Seq<char>>>, a: int, b: int, n: nat)
    requires
        outdoes(keys, a, b),
        0 <= a,
    ensures
        ahead(keys, a, n) <= ahead(keys, b, n),
        a < n ==> ahead(keys, a, n) < ahead(keys, b, n),
    decreases n,
{
    if n > 0 {
        lemma_ahead_grows(keys, a, b, (n - 1) as nat);
        lemma_outdoes(keys, a, b);
        if outdoes(keys, n - 1, a) {
            lemma_outdoes_transitive(keys, n - 1, a, b);
        }
    }
}

/// Of the first `n` entries, how many compete and have exactly so many before them.
spec fn ranked(keys: Seq<Option<Seq<char>>>, rank: nat, n: nat) -> nat
    decreases n,
{
    if n == 0 {
        0
    } else {
        ranked(keys, rank, (n - 1) as nat) + if keys[n - 1] is Some && ahead(
            keys,
            n - 1,
            keys.len(),
        ) == rank {
            1nat
        } else {
            0nat
        }
    }
}

proof fn lemma_ranked_once(keys: Seq<Option<Seq<char>>>, rank: nat, n: nat)
    requires
        n <= keys.len(),
    ensures
        ranked(keys, rank, n) <= 1,
        ranked(keys, rank, n) == 1 ==> exists|i: int|
            0 <= i < n && keys[i] is Some && #[trigger] ahead(keys, i, keys.len()) == rank,
    decreases n,
{
    if n > 0 {
        let m = (n - 1) as nat;
        lemma_ranked_once(keys, rank, m);
        if keys[n - 1] is Some && ahead(keys, n - 1, keys.len()) == rank {
            if ranked(keys, rank, m) == 1 {
                let i = choose|i: int|
                    0 <= i < m && keys[i] is Some && #[trigger] ahead(keys, i, keys.len()) == rank;
                lemma_outdoes(keys, i, n - 1);
                if outdoes(keys, i, n - 1) {
                    lemma_ahead_grows(keys, i, n - 1, keys.len());
                } else {
                    lemma_ahead_grows(keys, n - 1, i, keys.len());
                }
            }
        }
    }
}

proof fn lemma_survivors_step(keys: Seq<Option<Seq<char>>>, limit: nat, n: nat)
    ensures
        survivors(keys, limit + 1, n) == survivors(keys, limit, n) + ranked(keys, limit, n),
        survivors(keys, 0, n) == 0,
    decreases n,
{
    if n > 0 {
        lemma_survivors_step(keys, limit, (n - 1) as nat);
    }
}

/// Never more than the limit of competing entries stay.
pub proof fn survivors_are_bounded(keys: Seq<Option<Seq<char>>>, limit: nat)
    ensures
        survivors(keys, limit, keys.len()) <= limit,
    decreases limit,
{
    if limit == 0 {
        lemma_survivors_step(keys, 0, keys.len());
    } else {
        let less = (limit - 1) as nat;
        survivors_are_bounded(keys, less);
        lemma_survivors_step(keys, less, keys.len());
        lemma_ranked_once(keys, less, keys.len());
    }
}

/// The texts of an optional list.
pub open spec fn optional_texts(list: Seq<Option<String>>) -> Seq<Option<Seq<char>>> {
    list.map_values(|item: Option<String>| text::optional(item))
}

fn is_outdoing(keys: &Vec<Option<String>>, k: usize, i: usize) -> (result: bool)
    requires
        k < keys.len(),
        i < keys.len(),
    ensures
        result == outdoes(optional_texts(keys@), k as int, i as int),
{
    match (&keys[k], &keys[i]) {
        (Some(left), Some(right)) => text::less(right.as_str(), left.as_str()) || (text::same(
            left.as_str(),
            right.as_str(),
        ) && k < i),
        _ => false,
    }
}

fn is_surviving(keys: &Vec<Option<String>>, i: usize, limit: usize) -> (result: bool)
    requires
        i < keys.len(),
    ensures
        result == survives(optional_texts(keys@), i as int, limit as nat),
{
    if keys[i].is_none() {
        return true;
    }
    let ghost views = optional_texts(keys@);
    let mut count: usize = 0;
    let mut k: usize = 0;
    while k < keys.len()
        invariant
            k <= keys.len(),
            count <= k,
            i < keys.len(),
            views == optional_texts(keys@),
            count == ahead(views, i as int, k as nat),
        decreases keys.len() - k,
    {
        if is_outdoing(keys, k, i) {
            count += 1;
        }
        k += 1;
    }
    count < limit
}

/// The entries that stay, of the first `n`.
pub open spec fn kept<T>(
    items: Seq<T>,
    keys: Seq<Option<Seq<char>>>,
    limit: nat,
    n: nat,
) -> Seq<T>
    decreases n,
{
    if n == 0 {
        Seq::empty()
    } else {
        let before = kept(items, keys, limit, (n - 1) as nat);
        if survives(keys, n - 1, limit) {
            before.push(items[n - 1])
        } else {
            before
        }
    }
}

/// By what rules compete: only those that corrections taught, by their last change.
pub open spec fn rule_key(item: SyncRuleView) -> Option<Seq<char>> {
    if item.rule.created_from_correction {
        Some(item.updated_at)
    } else {
        None
    }
}

pub open spec fn rule_keys(items: Seq<SyncRuleView>) -> Seq<Option<Seq<char>>> {
    items.map_values(|item: SyncRuleView| rule_key(item))
}

/// The rules without the oldest of those that corrections taught.
pub open spec fn pruned_rules(items: Seq<SyncRuleView>) -> Seq<SyncRuleView> {
    kept(items, rule_keys(items), MAX_CORRECTION_RULES as nat, items.len())
}

/// The tombstones with one for a rule.
pub open spec fn with_rule_tombstone(
    list: Seq<TombstoneView>,
    id: Seq<char>,
    at: Seq<char>,
) -> Seq<TombstoneView> {
    let fresh = TombstoneView {
        entity_kind: "rule"@,
        entity_id: id,
        deleted_at: at,
        device_id: Seq::empty(),
    };
    let spot = sync::spot::<TombstoneRow>(list, sync::row_key("rule"@, id)) as int;
    if spot < list.len() {
        list.update(spot, fresh)
    } else {
        list.push(fresh)
    }
}

/// The tombstones with one for every rule that does not stay, of the first `n`.
pub open spec fn with_rule_tombstones(
    list: Seq<TombstoneView>,
    items: Seq<SyncRuleView>,
    at: Seq<char>,
    n: nat,
) -> Seq<TombstoneView>
    decreases n,
{
    if n == 0 {
        list
    } else {
        let before = with_rule_tombstones(list, items, at, (n - 1) as nat);
        if survives(rule_keys(items), n - 1, MAX_CORRECTION_RULES as nat) {
            before
        } else {
            with_rule_tombstone(before, items[n - 1].rule.id, at)
        }
    }
}

fn add_rule_tombstone(list: &mut Vec<SyncTombstone>, id: &str, at: &str)
    ensures
        sync::record_views(final(list)@) == with_rule_tombstone(
            sync::record_views(old(list)@),
            id@,
            at@,
        ),
{
    let ghost before = sync::record_views(list@);
    let fresh = SyncTombstone {
        entity_kind: "rule".to_owned(),
        entity_id: id.to_owned(),
        deleted_at: at.to_owned(),
        device_id: String::new(),
    };
    let ghost view = fresh@;
    let spot: usize = sync::find_tombstone(list, "rule", id);
    if spot < list.len() {
        list.set(spot, fresh);
        assert(sync::record_views(list@) =~= before.update(spot as int, view));
    } else {
        list.push(fresh);
        assert(sync::record_views(list@) =~= before.push(view));
    }
}

fn list_rule_keys(items: &Vec<SyncRule>) -> (result: Vec<Option<String>>)
    ensures
        result.len() == items.len(),
        optional_texts(result@) == rule_keys(sync::record_views(items@)),
{
    let ghost views = rule_keys(sync::record_views(items@));
    let mut result: Vec<Option<String>> = Vec::new();
    let mut i: usize = 0;
    while i < items.len()
        invariant
            i <= items.len(),
            result.len() == i,
            views == rule_keys(sync::record_views(items@)),
            optional_texts(result@) == views.take(i as int),
        decreases items.len() - i,
    {
        let ghost before = optional_texts(result@);
        let key = if items[i].rule.created_from_correction {
            Some(items[i].updated_at.clone())
        } else {
            None
        };
        assert(text::optional(key) == views[i as int]);
        result.push(key);
        assert(optional_texts(result@) =~= before.push(views[i as int]));
        assert(views.take(i + 1) =~= views.take(i as int).push(views[i as int]));
        i += 1;
    }
    assert(views.take(items.len() as int) =~= views);
    result
}

/// Drops the oldest rules that corrections taught, and notes their deletion.
pub fn prune_correction_rules(
    items: Vec<SyncRule>,
    tombstones: &mut Vec<SyncTombstone>,
    at: &str,
) -> (result: Vec<SyncRule>)
    ensures
        sync::record_views(result@) == pruned_rules(sync::record_views(items@)),
        sync::record_views(final(tombstones)@) == with_rule_tombstones(
            sync::record_views(old(tombstones)@),
            sync::record_views(items@),
            at@,
            items@.len(),
        ),
{
    let keys = list_rule_keys(&items);
    let ghost views = sync::record_views(items@);
    let ghost first = sync::record_views(tombstones@);
    let mut result: Vec<SyncRule> = Vec::new();
    let mut i: usize = 0;
    assert(sync::record_views(result@) =~= kept(views, rule_keys(views), MAX_CORRECTION_RULES as nat, 0));
    for item in it: items
        invariant
            views == sync::record_views(it.seq()),
            i == it.index(),
            keys.len() == views.len(),
            optional_texts(keys@) == rule_keys(views),
            sync::record_views(result@) == kept(
                views,
                rule_keys(views),
                MAX_CORRECTION_RULES as nat,
                i as nat,
            ),
            sync::record_views(tombstones@) == with_rule_tombstones(first, views, at@, i as nat),
    {
        let ghost before = sync::record_views(result@);
        let ghost view = item@;
        assert(views[i as int] == view);
        if is_surviving(&keys, i, MAX_CORRECTION_RULES) {
            result.push(item);
            assert(sync::record_views(result@) =~= before.push(view));
        } else {
            add_rule_tombstone(tombstones, item.rule.id.as_str(), at);
        }
        i += 1;
    }
    result
}

proof fn lemma_kept_rules(items: Seq<SyncRuleView>, n: nat)
    requires
        n <= items.len(),
    ensures
        kept(items, rule_keys(items), MAX_CORRECTION_RULES as nat, n).filter(
            |item: SyncRuleView| item.rule.created_from_correction,
        ).len() == survivors(rule_keys(items), MAX_CORRECTION_RULES as nat, n),
    decreases n,
{
    let taught = |item: SyncRuleView| item.rule.created_from_correction;
    reveal(Seq::filter);
    if n > 0 {
        let m = (n - 1) as nat;
        lemma_kept_rules(items, m);
        kept(items, rule_keys(items), MAX_CORRECTION_RULES as nat, m).lemma_filter_push(
            items[n - 1],
            taught,
        );
        assert(rule_keys(items)[n - 1] == rule_key(items[n - 1]));
    }
}

/// Corrections never leave more rules than the limit.
pub proof fn learned_rules_are_bounded(items: Seq<SyncRuleView>)
    ensures
        pruned_rules(items).filter(
            |item: SyncRuleView| item.rule.created_from_correction,
        ).len() <= MAX_CORRECTION_RULES,
{
    lemma_kept_rules(items, items.len());
    survivors_are_bounded(rule_keys(items), MAX_CORRECTION_RULES as nat);
}

/// By what memories compete: all of them, by when they were confirmed.
pub open spec fn memory_keys(items: Seq<StoredView>) -> Seq<Option<Seq<char>>> {
    items.map_values(|item: StoredView| Some(item.confirmed_at))
}

/// The memories that were confirmed last.
pub open spec fn pruned_memories(items: Seq<StoredView>) -> Seq<StoredView> {
    kept(items, memory_keys(items), MAX_PERSONAL_MEMORIES as nat, items.len())
}

fn list_memory_keys(items: &Vec<StoredMemory>) -> (result: Vec<Option<String>>)
    ensures
        result.len() == items.len(),
        optional_texts(result@) == memory_keys(recall::stored_views(items@)),
{
    let ghost views = memory_keys(recall::stored_views(items@));
    let mut result: Vec<Option<String>> = Vec::new();
    let mut i: usize = 0;
    while i < items.len()
        invariant
            i <= items.len(),
            result.len() == i,
            views == memory_keys(recall::stored_views(items@)),
            optional_texts(result@) == views.take(i as int),
        decreases items.len() - i,
    {
        let ghost before = optional_texts(result@);
        let key = Some(items[i].confirmed_at.clone());
        assert(text::optional(key) == views[i as int]);
        result.push(key);
        assert(optional_texts(result@) =~= before.push(views[i as int]));
        assert(views.take(i + 1) =~= views.take(i as int).push(views[i as int]));
        i += 1;
    }
    assert(views.take(items.len() as int) =~= views);
    result
}

/// Drops the memories beyond the limit that were confirmed first.
pub fn prune_memories(items: Vec<StoredMemory>) -> (result: Vec<StoredMemory>)
    ensures
        recall::stored_views(result@) == pruned_memories(recall::stored_views(items@)),
{
    let keys = list_memory_keys(&items);
    let ghost views = recall::stored_views(items@);
    let mut result: Vec<StoredMemory> = Vec::new();
    let mut i: usize = 0;
    assert(recall::stored_views(result@) =~= kept(
        views,
        memory_keys(views),
        MAX_PERSONAL_MEMORIES as nat,
        0,
    ));
    for item in it: items
        invariant
            views == recall::stored_views(it.seq()),
            i == it.index(),
            keys.len() == views.len(),
            optional_texts(keys@) == memory_keys(views),
            recall::stored_views(result@) == kept(
                views,
                memory_keys(views),
                MAX_PERSONAL_MEMORIES as nat,
                i as nat,
            ),
    {
        let ghost before = recall::stored_views(result@);
        let ghost view = item@;
        assert(views[i as int] == view);
        if is_surviving(&keys, i, MAX_PERSONAL_MEMORIES) {
            result.push(item);
            assert(recall::stored_views(result@) =~= before.push(view));
        }
        i += 1;
    }
    result
}

proof fn lemma_kept_memories(items: Seq<StoredView>, n: nat)
    requires
        n <= items.len(),
    ensures
        kept(items, memory_keys(items), MAX_PERSONAL_MEMORIES as nat, n).len() == survivors(
            memory_keys(items),
            MAX_PERSONAL_MEMORIES as nat,
            n,
        ),
    decreases n,
{
    if n > 0 {
        lemma_kept_memories(items, (n - 1) as nat);
        assert(memory_keys(items)[n - 1] == Some(items[n - 1].confirmed_at));
    }
}

/// There are never more memories than the limit.
pub proof fn memories_are_bounded(items: Seq<StoredView>)
    ensures
        pruned_memories(items).len() <= MAX_PERSONAL_MEMORIES,
{
    lemma_kept_memories(items, items.len());
    survivors_are_bounded(memory_keys(items), MAX_PERSONAL_MEMORIES as nat);
}

/// The review is done and ended too long ago.
pub open spec fn outlived(job: AnalysisJobView, now: Moment, days: u32) -> bool {
    jobs::terminal(job.status) && stale(job.metadata_range.ended_at, now, days)
}

/// When a review was over.
pub open spec fn over_at(job: AnalysisJobView) -> Seq<char> {
    match job.completed_at {
        Some(at) => at,
        None => job.metadata_range.ended_at,
    }
}

/// The review, without what was said where that is too long ago.
pub open spec fn untraced(job: AnalysisJobView, now: Moment) -> AnalysisJobView {
    if jobs::terminal(job.status) && stale(over_at(job), now, AI_TRACE_RETENTION_DAYS) {
        AnalysisJobView { system_prompt: None, user_prompt: None, response: None, ..job }
    } else {
        job
    }
}

/// By what reviews compete: only those that are done, by when they were over.
pub open spec fn job_key(job: AnalysisJobView) -> Option<Seq<char>> {
    if jobs::terminal(job.status) {
        match job.completed_at {
            Some(at) => Some(at),
            None => Some(job.queued_at),
        }
    } else {
        None
    }
}

pub open spec fn job_keys(items: Seq<AnalysisJobView>) -> Seq<Option<Seq<char>>> {
    items.map_values(|job: AnalysisJobView| job_key(job))
}

/// How the reviews of recorded contexts are made.
pub const METADATA_REVIEW_MODE: &'static str = "metadata-context-review";

/// The job reviews recorded contexts. Any other job was left by the pipeline that looked at
/// screenshots.
pub open spec fn reviews_metadata(job: AnalysisJobView) -> bool {
    job.mode == METADATA_REVIEW_MODE@
}

/// The reviews of recorded contexts that are not too old, without old traces.
pub open spec fn aired_jobs(items: Seq<AnalysisJobView>, now: Moment, days: u32) -> Seq<
    AnalysisJobView,
> {
    items.filter(
        |job: AnalysisJobView| reviews_metadata(job) && !outlived(job, now, days),
    ).map_values(|job: AnalysisJobView| untraced(job, now))
}

/// The reviews that stay.
pub open spec fn pruned_jobs(items: Seq<AnalysisJobView>, now: Moment, days: u32) -> Seq<
    AnalysisJobView,
> {
    let aired = aired_jobs(items, now, days);
    kept(aired, job_keys(aired), MAX_AI_JOB_HISTORY as nat, aired.len())
}

fn air_jobs(items: Vec<AnalysisJob>, now: Moment, days: u32) -> (result: Vec<AnalysisJob>)
    requires
        now.in_calendar(),
        days <= 3650,
    ensures
        jobs::job_views(result@) == aired_jobs(jobs::job_views(items@), now, days),
{
    let ghost views = jobs::job_views(items@);
    let ghost keep = |job: AnalysisJobView| reviews_metadata(job) && !outlived(job, now, days);
    let ghost change = |job: AnalysisJobView| untraced(job, now);
    let mut result: Vec<AnalysisJob> = Vec::new();
    assert(views.take(0).filter(keep) =~= Seq::empty()) by {
        reveal(Seq::filter);
    }
    assert(jobs::job_views(result@) =~= views.take(0).filter(keep).map_values(change));
    for job in it: items
        invariant
            now.in_calendar(),
            days <= 3650,
            views == jobs::job_views(it.seq()),
            keep == (|job: AnalysisJobView| reviews_metadata(job) && !outlived(job, now, days)),
            change == (|job: AnalysisJobView| untraced(job, now)),
            jobs::job_views(result@) == views.take(it.index()).filter(keep).map_values(change),
    {
        let ghost i = it.index();
        let ghost view = job@;
        let ghost before = jobs::job_views(result@);
        let ghost done = views.take(i).filter(keep);
        assert(views[i] == view);
        assert(views.take(i + 1) =~= views.take(i).push(view));
        proof {
            views.take(i).lemma_filter_push(view, keep);
        }
        let finished = jobs::is_terminal(job.status.as_str());
        if text::same(job.mode.as_str(), METADATA_REVIEW_MODE) && !(finished && is_stale(
            job.metadata_range.ended_at.as_str(),
            now,
            days,
        )) {
            let mut after = job;
            let old = match &after.completed_at {
                Some(at) => is_stale(at.as_str(), now, AI_TRACE_RETENTION_DAYS),
                None => is_stale(
                    after.metadata_range.ended_at.as_str(),
                    now,
                    AI_TRACE_RETENTION_DAYS,
                ),
            };
            if finished && old {
                after.system_prompt = None;
                after.user_prompt = None;
                after.response = None;
            }
            assert(after@ =~= change(view));
            result.push(after);
            assert(jobs::job_views(result@) =~= before.push(change(view)));
            assert(done.push(view).map_values(change) =~= done.map_values(change).push(
                change(view),
            ));
        }
    }
    assert(views.take(views.len() as int) =~= views);
    result
}

fn list_job_keys(items: &Vec<AnalysisJob>) -> (result: Vec<Option<String>>)
    ensures
        result.len() == items.len(),
        optional_texts(result@) == job_keys(jobs::job_views(items@)),
{
    let ghost views = job_keys(jobs::job_views(items@));
    let mut result: Vec<Option<String>> = Vec::new();
    let mut i: usize = 0;
    while i < items.len()
        invariant
            i <= items.len(),
            result.len() == i,
            views == job_keys(jobs::job_views(items@)),
            optional_texts(result@) == views.take(i as int),
        decreases items.len() - i,
    {
        let ghost before = optional_texts(result@);
        let key = if jobs::is_terminal(items[i].status.as_str()) {
            match &items[i].completed_at {
                Some(at) => Some(at.clone()),
                None => Some(items[i].queued_at.clone()),
            }
        } else {
            None
        };
        assert(text::optional(key) == views[i as int]);
        result.push(key);
        assert(optional_texts(result@) =~= before.push(views[i as int]));
        assert(views.take(i + 1) =~= views.take(i as int).push(views[i as int]));
        i += 1;
    }
    assert(views.take(items.len() as int) =~= views);
    result
}

/// Drops jobs of the screenshot pipeline, reviews that are too old or too many, and what was said
/// in those of some time ago.
pub fn prune_jobs(items: Vec<AnalysisJob>, now: Moment, days: u32) -> (result: Vec<AnalysisJob>)
    requires
        now.in_calendar(),
        days <= 3650,
    ensures
        jobs::job_views(result@) == pruned_jobs(jobs::job_views(items@), now, days),
{
    let aired = air_jobs(items, now, days);
    let keys = list_job_keys(&aired);
    let ghost views = jobs::job_views(aired@);
    let mut result: Vec<AnalysisJob> = Vec::new();
    let mut i: usize = 0;
    assert(jobs::job_views(result@) =~= kept(views, job_keys(views), MAX_AI_JOB_HISTORY as nat, 0));
    for job in it: aired
        invariant
            views == jobs::job_views(it.seq()),
            i == it.index(),
            keys.len() == views.len(),
            optional_texts(keys@) == job_keys(views),
            jobs::job_views(result@) == kept(
                views,
                job_keys(views),
                MAX_AI_JOB_HISTORY as nat,
                i as nat,
            ),
    {
        let ghost before = jobs::job_views(result@);
        let ghost view = job@;
        assert(views[i as int] == view);
        if is_surviving(&keys, i, MAX_AI_JOB_HISTORY) {
            result.push(job);
            assert(jobs::job_views(result@) =~= before.push(view));
        }
        i += 1;
    }
    result
}

proof fn lemma_kept_jobs(items: Seq<AnalysisJobView>, n: nat)
    requires
        n <= items.len(),
    ensures
        kept(items, job_keys(items), MAX_AI_JOB_HISTORY as nat, n).filter(
            |job: AnalysisJobView| jobs::terminal(job.status),
        ).len() == survivors(job_keys(items), MAX_AI_JOB_HISTORY as nat, n),
        forall|k: int|
            0 <= k < kept(items, job_keys(items), MAX_AI_JOB_HISTORY as nat, n).len()
                ==> items.contains(
                #[trigger] kept(items, job_keys(items), MAX_AI_JOB_HISTORY as nat, n)[k],
            ),
    decreases n,
{
    let done = |job: AnalysisJobView| jobs::terminal(job.status);
    reveal(Seq::filter);
    if n > 0 {
        let m = (n - 1) as nat;
        lemma_kept_jobs(items, m);
        kept(items, job_keys(items), MAX_AI_JOB_HISTORY as nat, m).lemma_filter_push(
            items[n - 1],
            done,
        );
        assert(job_keys(items)[n - 1] == job_key(items[n - 1]));
        assert(items.contains(items[n - 1]));
    }
}

/// Maintenance bounds the history of reviews: no more than the limit of them that are done stay,
/// and none of those keeps its trace beyond the retention.
pub proof fn review_history_is_bounded(items: Seq<AnalysisJobView>, now: Moment, days: u32)
    ensures
        pruned_jobs(items, now, days).filter(
            |job: AnalysisJobView| jobs::terminal(job.status),
        ).len() <= MAX_AI_JOB_HISTORY,
        forall|k: int|
            0 <= k < pruned_jobs(items, now, days).len() ==> {
                let job = #[trigger] pruned_jobs(items, now, days)[k];
                jobs::terminal(job.status) && stale(over_at(job), now, AI_TRACE_RETENTION_DAYS)
                    ==> job.system_prompt is None && job.user_prompt is None && job.response is None
            },
{
    let aired = aired_jobs(items, now, days);
    lemma_kept_jobs(aired, aired.len());
    survivors_are_bounded(job_keys(aired), MAX_AI_JOB_HISTORY as nat);
    let left = pruned_jobs(items, now, days);
    assert forall|k: int| 0 <= k < left.len() implies {
        let job = #[trigger] left[k];
        jobs::terminal(job.status) && stale(over_at(job), now, AI_TRACE_RETENTION_DAYS)
            ==> job.system_prompt is None && job.user_prompt is None && job.response is None
    } by {
        assert(aired.contains(left[k]));
        let m = choose|m: int| 0 <= m < aired.len() && aired[m] == left[k];
        let kept_jobs = items.filter(
            |job: AnalysisJobView| reviews_metadata(job) && !outlived(job, now, days),
        );
        assert(aired[m] == untraced(kept_jobs[m], now));
    }
}

/// Drops tombstones that every device has had time to read.
pub fn prune_tombstones(items: Vec<SyncTombstone>, now: Moment) -> (result: Vec<SyncTombstone>)
    requires
        now.in_calendar(),
    ensures
        sync::record_views(result@) == sync::record_views(items@).filter(
            |item: TombstoneView| !stale(item.deleted_at, now, TOMBSTONE_RETENTION_DAYS),
        ),
{
    let ghost views = sync::record_views(items@);
    let ghost keep = |item: TombstoneView| !stale(item.deleted_at, now, TOMBSTONE_RETENTION_DAYS);
    let mut result: Vec<SyncTombstone> = Vec::new();
    assert(views.take(0).filter(keep) =~= Seq::empty()) by {
        reveal(Seq::filter);
    }
    assert(sync::record_views(result@) =~= views.take(0).filter(keep));
    for item in it: items
        invariant
            now.in_calendar(),
            views == sync::record_views(it.seq()),
            keep == (|item: TombstoneView|
                !stale(item.deleted_at, now, TOMBSTONE_RETENTION_DAYS)),
            sync::record_views(result@) == views.take(it.index()).filter(keep),
    {
        let ghost i = it.index();
        let ghost view = item@;
        let ghost before = sync::record_views(result@);
        assert(views[i] == view);
        assert(views.take(i + 1) =~= views.take(i).push(view));
        proof {
            views.take(i).lemma_filter_push(view, keep);
        }
        if !is_stale(item.deleted_at.as_str(), now, TOMBSTONE_RETENTION_DAYS) {
            result.push(item);
            assert(sync::record_views(result@) =~= before.push(view));
        }
    }
    assert(views.take(views.len() as int) =~= views);
    result
}

/// The sessions that did not come as examples.
pub open spec fn without_seed(items: Seq<SyncSessionView>) -> Seq<SyncSessionView> {
    items.filter(|item: SyncSessionView| item.session.source != "seed"@)
}

/// Drops the sessions that came as examples.
pub fn drop_seed_sessions(items: Vec<SyncSession>) -> (result: Vec<SyncSession>)
    ensures
        sync::record_views(result@) == without_seed(sync::record_views(items@)),
{
    let ghost views = sync::record_views(items@);
    let ghost keep = |item: SyncSessionView| item.session.source != "seed"@;
    let mut result: Vec<SyncSession> = Vec::new();
    assert(views.take(0).filter(keep) =~= Seq::empty()) by {
        reveal(Seq::filter);
    }
    assert(sync::record_views(result@) =~= views.take(0).filter(keep));
    for item in it: items
        invariant
            views == sync::record_views(it.seq()),
            keep == (|item: SyncSessionView| item.session.source != "seed"@),
            sync::record_views(result@) == views.take(it.index()).filter(keep),
    {
        let ghost i = it.index();
        let ghost view = item@;
        let ghost before = sync::record_views(result@);
        assert(views[i] == view);
        assert(views.take(i + 1) =~= views.take(i).push(view));
        proof {
            views.take(i).lemma_filter_push(view, keep);
        }
        if !text::same(item.session.source.as_str(), "seed") {
            result.push(item);
            assert(sync::record_views(result@) =~= before.push(view));
        }
    }
    assert(views.take(views.len() as int) =~= views);
    result
}

/// Maintenance, which the first start runs too, leaves no job of the screenshot pipeline and no
/// session that came as an example.
pub proof fn obsolete_records_are_removed(
    jobs: Seq<AnalysisJobView>,
    sessions: Seq<SyncSessionView>,
    now: Moment,
    days: u32,
)
    ensures
        forall|k: int|
            0 <= k < pruned_jobs(jobs, now, days).len() ==> reviews_metadata(
                #[trigger] pruned_jobs(jobs, now, days)[k],
            ),
        forall|k: int|
            0 <= k < without_seed(sessions).len() ==> (
            #[trigger] without_seed(sessions)[k]).session.source != "seed"@,
{
    let aired = aired_jobs(jobs, now, days);
    let left = pruned_jobs(jobs, now, days);
    let keep = |job: AnalysisJobView| reviews_metadata(job) && !outlived(job, now, days);
    lemma_kept_jobs(aired, aired.len());
    assert forall|k: int| 0 <= k < left.len() implies reviews_metadata(#[trigger] left[k]) by {
        assert(aired.contains(left[k]));
        let m = choose|m: int| 0 <= m < aired.len() && aired[m] == left[k];
        jobs.lemma_filter_pred(keep, m);
        assert(aired[m] == untraced(jobs.filter(keep)[m], now));
    }
    let stays = |item: SyncSessionView| item.session.source != "seed"@;
    assert forall|k: int| 0 <= k < without_seed(sessions).len() implies (
    #[trigger] without_seed(sessions)[k]).session.source != "seed"@ by {
        sessions.lemma_filter_pred(stays, k);
    }
}

} // verus!
