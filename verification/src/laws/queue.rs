//! Promises of the review queue: which job comes next, and what may happen to a job.
use vstd::prelude::*;

use crate::clock;
use crate::jobs;
use crate::lists;
use crate::models::{AiUsageView, AnalysisJobView};
use crate::text;

verus! {

broadcast use vstd::seq_lib::group_seq_properties;

/// The next job is a waiting one, queued no later than any other that waits; of those queued at one
/// time, none is about an earlier range. None is next only where none waits.
pub proof fn the_longest_waiting_job_is_next(list: Seq<AnalysisJobView>)
    ensures
        match jobs::next_in_queue(list) {
            Some(best) => {
                &&& 0 <= best < list.len()
                &&& list[best].status == "pending"@
                &&& forall|k: int|
                    0 <= k < list.len() && (#[trigger] list[k]).status == "pending"@
                        ==> !text::precedes(list[k].queued_at, list[best].queued_at) && (
                    list[k].queued_at == list[best].queued_at ==> !text::precedes(
                        list[k].metadata_range.started_at,
                        list[best].metadata_range.started_at,
                    ))
            },
            None => forall|k: int|
                0 <= k < list.len() ==> (#[trigger] list[k]).status != "pending"@,
        },
    decreases list.len(),
{
    match jobs::next_in_queue(list) {
        Some(best) => {
            jobs::claimed_jobs_waited_longest(list);
            assert forall|k: int|
                0 <= k < list.len() && (#[trigger] list[k]).status
                    == "pending"@ implies !text::precedes(list[k].queued_at, list[best].queued_at)
                && (list[k].queued_at == list[best].queued_at ==> !text::precedes(
                list[k].metadata_range.started_at,
                list[best].metadata_range.started_at,
            )) by {
                assert(!jobs::waits_longer(list[k], list[best]));
            }
        },
        None => {
            if list.len() > 0 {
                let rest = list.drop_last();
                the_longest_waiting_job_is_next(rest);
                assert forall|k: int| 0 <= k < list.len() implies (#[trigger] list[k]).status
                    != "pending"@ by {
                    if k < rest.len() {
                        assert(rest[k] == list[k]);
                    }
                }
            }
        },
    }
}

/// A claimed job runs from that time on, with nothing left of an earlier run but what was asked and
/// used.
pub proof fn claimed_jobs_run(job: AnalysisJobView, at: Seq<char>)
    ensures
        ({
            let after = jobs::running(job, at);
            &&& after.status == "running"@
            &&& after.processing_started_at == Some(at)
            &&& after.error is None && after.completed_at is None && after.duration_ms is None
            &&& is_same_job(job, after)
            &&& after.retry_count == job.retry_count
            &&& after.usage == job.usage
            &&& after.result_count == job.result_count
        }),
{
}

/// Nothing that tells the job from others, and nothing that was asked, differs.
pub open spec fn is_same_job(before: AnalysisJobView, after: AnalysisJobView) -> bool {
    &&& after.id == before.id
    &&& after.chunk_ids == before.chunk_ids
    &&& after.metadata_range == before.metadata_range
    &&& after.mode == before.mode
    &&& after.provider == before.provider
    &&& after.model == before.model
    &&& after.queued_at == before.queued_at
    &&& after.system_prompt == before.system_prompt
    &&& after.user_prompt == before.user_prompt
}

/// The job waits again, as if it had never run.
pub open spec fn waits_again(before: AnalysisJobView, after: AnalysisJobView) -> bool {
    &&& is_same_job(before, after)
    &&& after.status == "pending"@
    &&& after.error is None
    &&& after.processing_started_at is None
    &&& after.completed_at is None
    &&& after.duration_ms is None
    &&& after.response is None
    &&& after.result_count == 0
    &&& after.retry_count == before.retry_count
    &&& after.usage == before.usage
}

/// Retrying all jobs puts those that failed or were downgraded back into the queue, and no others.
pub proof fn failed_jobs_wait_again(list: Seq<AnalysisJobView>)
    ensures
        jobs::all_requeued(list).len() == list.len(),
        forall|k: int|
            0 <= k < list.len() ==> if list[k].status == "failed"@ || list[k].status
                == "downgraded"@ {
                waits_again(list[k], #[trigger] jobs::all_requeued(list)[k])
            } else {
                jobs::all_requeued(list)[k] == list[k]
            },
{
}

/// Retrying chosen jobs puts exactly those back into the queue. It succeeds only where every chosen
/// id is that of a job that failed or was downgraded.
pub proof fn chosen_jobs_wait_again(list: Seq<AnalysisJobView>, ids: Seq<Seq<char>>)
    ensures
        jobs::retried(list, ids) matches Ok(after) ==> {
            &&& after.len() == list.len()
            &&& forall|k: int|
                0 <= k < list.len() ==> if ids.contains(list[k].id) {
                    waits_again(list[k], #[trigger] after[k])
                } else {
                    after[k] == list[k]
                }
            &&& forall|m: int|
                0 <= m < ids.len() ==> exists|k: int|
                    0 <= k < list.len() && (#[trigger] list[k]).id == #[trigger] ids[m] && (
                    list[k].status == "failed"@ || list[k].status == "downgraded"@)
        },
        jobs::retried(list, ids) matches Err(error) ==> error is Missing || error is NotFailed,
    decreases ids.len(),
{
    if ids.len() > 0 {
        let rest = ids.drop_last();
        let last = ids.last();
        chosen_jobs_wait_again(list, rest);
        if let Ok(after) = jobs::retried(list, ids) {
            let before = jobs::retried(list, rest).unwrap();
            lemma_found_job(before, last);
            let at = choose|k: int|
                0 <= k < before.len() && #[trigger] before[k] == jobs::find_job(
                    before,
                    last,
                ).unwrap();
            assert(ids =~= rest.push(last));
            assert forall|k: int| 0 <= k < list.len() implies if ids.contains(list[k].id) {
                waits_again(list[k], #[trigger] after[k])
            } else {
                after[k] == list[k]
            } by {
                assert(before[k].id == list[k].id);
                assert(after[k] == if before[k].id == last {
                    jobs::requeued(before[k])
                } else {
                    before[k]
                });
                assert(ids.contains(list[k].id) <==> rest.contains(list[k].id) || list[k].id
                    == last);
            }
            assert forall|m: int| 0 <= m < ids.len() implies exists|k: int|
                0 <= k < list.len() && (#[trigger] list[k]).id == #[trigger] ids[m] && (
                list[k].status == "failed"@ || list[k].status == "downgraded"@) by {
                if m < rest.len() {
                    assert(rest[m] == ids[m]);
                } else {
                    assert(before[at].id == last);
                    reveal_strlit("pending");
                    reveal_strlit("failed");
                    reveal_strlit("downgraded");
                    assert("pending"@[0] != "failed"@[0]);
                    assert("pending"@[0] != "downgraded"@[0]);
                    assert(list[at].id == last);
                    assert(before[at] == list[at]);
                }
            }
        }
    }
}

/// A retry of distinct jobs that all failed or were downgraded succeeds.
pub proof fn retries_of_failed_jobs_succeed(list: Seq<AnalysisJobView>, ids: Seq<Seq<char>>)
    requires
        ids.no_duplicates(),
        forall|i: int, j: int| 0 <= i < j < list.len() ==> (#[trigger] list[i]).id
            != (#[trigger] list[j]).id,
        forall|m: int|
            0 <= m < ids.len() ==> exists|k: int|
                0 <= k < list.len() && (#[trigger] list[k]).id == #[trigger] ids[m] && (
                list[k].status == "failed"@ || list[k].status == "downgraded"@),
    ensures
        jobs::retried(list, ids) is Ok,
    decreases ids.len(),
{
    if ids.len() > 0 {
        let rest = ids.drop_last();
        let last = ids.last();
        assert forall|m: int| 0 <= m < rest.len() implies exists|k: int|
            0 <= k < list.len() && (#[trigger] list[k]).id == #[trigger] rest[m] && (list[k].status
                == "failed"@ || list[k].status == "downgraded"@) by {
            assert(ids[m] == rest[m]);
        }
        retries_of_failed_jobs_succeed(list, rest);
        chosen_jobs_wait_again(list, rest);
        let before = jobs::retried(list, rest).unwrap();
        assert(ids[ids.len() - 1] == last);
        let k = choose|k: int|
            0 <= k < list.len() && (#[trigger] list[k]).id == last && (list[k].status == "failed"@
                || list[k].status == "downgraded"@);
        if rest.contains(last) {
            let m = choose|m: int| 0 <= m < rest.len() && rest[m] == last;
            assert(ids[m] == ids[ids.len() - 1]);
        }
        assert(before[k] == list[k]);
        lemma_first_job(before, last, k);
        let at = choose|at: int|
            0 <= at < before.len() && #[trigger] before[at] == jobs::find_job(before, last).unwrap();
        assert(list[at].id == before[at].id);
        assert(at == k) by {
            if at < k {
                assert(list[at].id != list[k].id);
            } else if k < at {
                assert(list[k].id != list[at].id);
            }
        }
    }
}

proof fn lemma_found_job(list: Seq<AnalysisJobView>, id: Seq<char>)
    ensures
        jobs::find_job(list, id) matches Some(job) ==> job.id == id && exists|k: int|
            0 <= k < list.len() && #[trigger] list[k] == job,
    decreases list.len(),
{
    if list.len() > 0 && list[0].id != id {
        let rest = list.drop_first();
        lemma_found_job(rest, id);
        if let Some(job) = jobs::find_job(rest, id) {
            let k = choose|k: int| 0 <= k < rest.len() && #[trigger] rest[k] == job;
            assert(list[k + 1] == job);
        }
    }
}

proof fn lemma_first_job(list: Seq<AnalysisJobView>, id: Seq<char>, k: int)
    requires
        0 <= k < list.len(),
        list[k].id == id,
    ensures
        jobs::find_job(list, id) is Some,
        jobs::find_job(list, id).unwrap().id == id,
        exists|at: int|
            0 <= at < list.len() && #[trigger] list[at] == jobs::find_job(list, id).unwrap(),
    decreases list.len(),
{
    lemma_found_job(list, id);
    if list[0].id != id {
        let rest = list.drop_first();
        assert(rest[k - 1] == list[k]);
        lemma_first_job(rest, id, k - 1);
    }
}

/// Only skipped jobs are deleted: where the deletion succeeds, every chosen id was that of a skipped
/// job, those jobs are gone, and all others are left as they were.
pub proof fn only_skipped_jobs_are_deleted(list: Seq<AnalysisJobView>, ids: Seq<Seq<char>>)
    ensures
        jobs::deleted(list, ids) matches Ok(after) ==> {
            &&& forall|job: AnalysisJobView| #[trigger]
                after.contains(job) <==> list.contains(job) && !ids.contains(job.id)
            &&& forall|m: int|
                0 <= m < ids.len() ==> exists|k: int|
                    0 <= k < list.len() && (#[trigger] list[k]).id == #[trigger] ids[m]
                        && list[k].status == "skipped"@
        },
        jobs::deleted(list, ids) matches Err(error) ==> error is Missing || error is NotSkipped,
    decreases ids.len(),
{
    if ids.len() > 0 {
        let rest = ids.drop_last();
        let last = ids.last();
        only_skipped_jobs_are_deleted(list, rest);
        if let Ok(after) = jobs::deleted(list, ids) {
            let before = jobs::deleted(list, rest).unwrap();
            let keep = |job: AnalysisJobView| job.id != last;
            lists::lemma_filtered(before, keep);
            lemma_found_job(before, last);
            let found = jobs::find_job(before, last).unwrap();
            assert(ids =~= rest.push(last));
            assert forall|job: AnalysisJobView| #[trigger]
                after.contains(job) <==> list.contains(job) && !ids.contains(job.id) by {
                assert(ids.contains(job.id) <==> rest.contains(job.id) || job.id == last);
                assert(before.filter(keep).contains(job) <==> before.contains(job) && keep(job));
            }
            assert forall|m: int| 0 <= m < ids.len() implies exists|k: int|
                0 <= k < list.len() && (#[trigger] list[k]).id == #[trigger] ids[m]
                    && list[k].status == "skipped"@ by {
                if m < rest.len() {
                    assert(rest[m] == ids[m]);
                } else {
                    assert(before.contains(found));
                    assert(list.contains(found));
                    let k = choose|k: int| 0 <= k < list.len() && list[k] == found;
                    assert(list[k].id == ids[m]);
                }
            }
        }
    }
}

/// A job that is done says when, and how long it took from its start, or from when it was queued where
/// it never started; one that is not says neither. A job that waits again has not started.
pub proof fn statuses_set_the_times(
    job: AnalysisJobView,
    status: Seq<char>,
    retry_count: Option<u32>,
    error: Option<Seq<char>>,
    now: Seq<char>,
)
    ensures
        ({
            let after = jobs::in_status(job, status, retry_count, error, now);
            let done = status == "completed"@ || status == "failed"@ || status == "downgraded"@
                || status == "skipped"@;
            &&& is_same_job(job, after)
            &&& after.status == status
            &&& after.error == error
            &&& after.response == job.response
            &&& after.result_count == job.result_count
            &&& after.usage == job.usage
            &&& retry_count matches Some(count) ==> after.retry_count == count
            &&& retry_count is None ==> after.retry_count == job.retry_count
            &&& done ==> after.completed_at == Some(now)
            &&& !done ==> after.completed_at is None && after.duration_ms is None
            &&& done && job.processing_started_at is Some && clock::duration_millis(
                job.processing_started_at.unwrap(),
                now,
            ) is Some ==> after.duration_ms == Some(
                clock::duration_millis(job.processing_started_at.unwrap(), now).unwrap() as u64,
            )
            &&& done && job.processing_started_at is None && clock::duration_millis(
                job.queued_at,
                now,
            ) is Some ==> after.duration_ms == Some(
                clock::duration_millis(job.queued_at, now).unwrap() as u64,
            )
            &&& status == "pending"@ ==> after.processing_started_at is None
            &&& status != "pending"@ ==> after.processing_started_at == job.processing_started_at
        }),
{
}

/// What the attempts used is added up, no sum passing the greatest number; the latest note stays.
pub proof fn usage_is_added_up(before: AiUsageView, attempt: AiUsageView, cost: Option<i64>)
    ensures
        ({
            let after = jobs::with_attempt(before, attempt, cost);
            &&& is_sum(before.input_tokens, attempt.input_tokens, after.input_tokens)
            &&& is_sum(
                before.cached_input_tokens,
                attempt.cached_input_tokens,
                after.cached_input_tokens,
            )
            &&& is_sum(before.output_tokens, attempt.output_tokens, after.output_tokens)
            &&& is_sum(
                before.reasoning_output_tokens,
                attempt.reasoning_output_tokens,
                after.reasoning_output_tokens,
            )
            &&& is_sum(before.total_tokens, attempt.total_tokens, after.total_tokens)
            &&& after.cost_usd == cost
            &&& attempt.cost_note is Some ==> after.cost_note == attempt.cost_note
            &&& attempt.cost_note is None ==> after.cost_note == before.cost_note
        }),
{
}

/// The total is the sum of the two, or the greatest number where the sum is greater.
pub open spec fn is_sum(left: u64, right: u64, total: u64) -> bool {
    &&& left + right <= u64::MAX ==> total == left + right
    &&& left + right > u64::MAX ==> total == u64::MAX
}

/// A job that was cut off waits again and says so, unless it already gave an error; any other job is
/// left as it is.
pub proof fn interrupted_jobs_wait_again(job: AnalysisJobView)
    ensures
        job.status != "running"@ ==> jobs::resumed(job) == job,
        job.status == "running"@ ==> {
            let after = jobs::resumed(job);
            &&& is_same_job(job, after)
            &&& after.status == "pending"@
            &&& after.processing_started_at is None && after.completed_at is None
                && after.duration_ms is None
            &&& after.error == if job.error is Some {
                job.error
            } else {
                Some("应用重启后重新排队"@)
            }
            &&& after.usage == job.usage && after.response == job.response && after.retry_count
                == job.retry_count && after.result_count == job.result_count
        },
{
}

/// A job that is complete without having asked anything counts as skipped, since it was queued where
/// it says nothing else; any other job is left as it is.
pub proof fn unasked_jobs_are_skipped(job: AnalysisJobView)
    ensures
        ({
            let after = jobs::settled(job);
            let unasked = job.status == "completed"@ && job.result_count == 0
                && job.processing_started_at is None && job.system_prompt is None
                && job.user_prompt is None && job.response is None;
            &&& !unasked ==> after == job
            &&& unasked ==> is_same_job(job, after) && after.status == "skipped"@
                && after.completed_at is Some && after.error is Some
            &&& unasked && job.completed_at is None ==> after.completed_at == Some(job.queued_at)
            &&& unasked && job.completed_at is Some ==> after.completed_at == job.completed_at
            &&& unasked && job.error is Some ==> after.error == job.error
            &&& unasked && job.error is None ==> after.error == Some(
                "目标时间段已被人工修正，未调用 AI"@,
            )
        }),
{
}

/// A session is held exactly while a job about it waits, runs, failed or was downgraded.
pub proof fn sessions_are_held_by_open_jobs(list: Seq<AnalysisJobView>, id: Seq<char>)
    ensures
        jobs::held_sessions(list).contains(id) <==> exists|k: int|
            0 <= k < list.len() && (#[trigger] list[k]).chunk_ids.contains(id) && (list[k].status
                == "pending"@ || list[k].status == "running"@ || list[k].status == "failed"@
                || list[k].status == "downgraded"@),
    decreases list.len(),
{
    if list.len() > 0 {
        let rest = list.drop_last();
        let last = list.last();
        sessions_are_held_by_open_jobs(rest, id);
        let before = jobs::held_sessions(rest);
        assert(forall|k: int| 0 <= k < rest.len() ==> rest[k] == list[k]);
        assert(list[list.len() - 1] == last);
        if jobs::holds_sessions(last.status) {
            lemma_in_sum(before, last.chunk_ids, id);
        }
        if jobs::held_sessions(list).contains(id) {
            if before.contains(id) {
                let k = choose|k: int|
                    0 <= k < rest.len() && (#[trigger] rest[k]).chunk_ids.contains(id) && (
                    rest[k].status == "pending"@ || rest[k].status == "running"@ || rest[k].status
                        == "failed"@ || rest[k].status == "downgraded"@);
                assert(list[k].chunk_ids.contains(id));
            } else {
                assert(list[list.len() - 1].chunk_ids.contains(id));
            }
        }
        if exists|k: int|
            0 <= k < list.len() && (#[trigger] list[k]).chunk_ids.contains(id) && (list[k].status
                == "pending"@ || list[k].status == "running"@ || list[k].status == "failed"@
                || list[k].status == "downgraded"@) {
            let k = choose|k: int|
                0 <= k < list.len() && (#[trigger] list[k]).chunk_ids.contains(id) && (
                list[k].status == "pending"@ || list[k].status == "running"@ || list[k].status
                    == "failed"@ || list[k].status == "downgraded"@);
            if k < rest.len() {
                assert(rest[k].chunk_ids.contains(id));
            }
        }
    }
}

proof fn lemma_in_sum(left: Seq<Seq<char>>, right: Seq<Seq<char>>, item: Seq<char>)
    ensures
        (left + right).contains(item) <==> left.contains(item) || right.contains(item),
{
    if left.contains(item) {
        let k = choose|k: int| 0 <= k < left.len() && left[k] == item;
        assert((left + right)[k] == item);
    }
    if right.contains(item) {
        let k = choose|k: int| 0 <= k < right.len() && right[k] == item;
        assert((left + right)[left.len() + k] == item);
    }
}

} // verus!
