//! The queue of reviews by the analysis service.
use vstd::prelude::*;
use vstd::string::*;

use crate::clock;
use crate::models::{AiUsage, AiUsageView, AnalysisJob, AnalysisJobView};
use crate::settings;
use crate::text;

verus! {

broadcast use vstd::seq_lib::group_seq_properties;

pub open spec fn job_views(jobs: Seq<AnalysisJob>) -> Seq<AnalysisJobView> {
    jobs.map_values(|job: AnalysisJob| job@)
}

/// The first job with this id.
pub open spec fn find_job(jobs: Seq<AnalysisJobView>, id: Seq<char>) -> Option<AnalysisJobView>
    decreases jobs.len(),
{
    if jobs.len() == 0 {
        None
    } else if jobs[0].id == id {
        Some(jobs[0])
    } else {
        find_job(jobs.drop_first(), id)
    }
}

fn locate_job(jobs: &Vec<AnalysisJob>, id: &str) -> (result: Option<usize>)
    ensures
        match result {
            Some(at) => at < jobs.len() && find_job(job_views(jobs@), id@) == Some(
                jobs@[at as int]@,
            ) && jobs@[at as int].id@ == id@,
            None => find_job(job_views(jobs@), id@) is None,
        },
{
    let ghost views = job_views(jobs@);
    let mut i: usize = 0;
    assert(views.skip(0) =~= views);
    while i < jobs.len()
        invariant
            i <= jobs.len(),
            views == job_views(jobs@),
            find_job(views, id@) == find_job(views.skip(i as int), id@),
        decreases jobs.len() - i,
    {
        assert(views.skip(i as int)[0] == jobs@[i as int]@);
        if text::same(jobs[i].id.as_str(), id) {
            return Some(i);
        }
        assert(views.skip(i as int).drop_first() =~= views.skip(i + 1));
        i += 1;
    }
    None
}

/// Why jobs cannot be changed that way.
#[derive(Clone, Copy, Debug, PartialEq, Eq, Structural)]
pub enum JobError {
    Missing,
    /// Only jobs that never asked the service can be deleted.
    NotSkipped,
    /// Only jobs that failed can be tried again.
    NotFailed,
}

/// The jobs without this one.
pub open spec fn jobs_without(jobs: Seq<AnalysisJobView>, id: Seq<char>) -> Seq<AnalysisJobView> {
    jobs.filter(|job: AnalysisJobView| job.id != id)
}

/// What deleting these jobs in turn comes to.
pub open spec fn deleted(jobs: Seq<AnalysisJobView>, ids: Seq<Seq<char>>) -> Result<
    Seq<AnalysisJobView>,
    JobError,
>
    decreases ids.len(),
{
    if ids.len() == 0 {
        Ok(jobs)
    } else {
        match deleted(jobs, ids.drop_last()) {
            Err(error) => Err(error),
            Ok(before) => match find_job(before, ids.last()) {
                None => Err(JobError::Missing),
                Some(job) => if job.status == "skipped"@ {
                    Ok(jobs_without(before, ids.last()))
                } else {
                    Err(JobError::NotSkipped)
                },
            },
        }
    }
}

proof fn lemma_deleted_error(jobs: Seq<AnalysisJobView>, ids: Seq<Seq<char>>, n: int)
    requires
        0 <= n <= ids.len(),
        deleted(jobs, ids.take(n)) is Err,
    ensures
        deleted(jobs, ids) == deleted(jobs, ids.take(n)),
    decreases ids.len(),
{
    if n < ids.len() {
        assert(ids.drop_last().take(n) =~= ids.take(n));
        lemma_deleted_error(jobs, ids.drop_last(), n);
    } else {
        assert(ids.take(n) =~= ids);
    }
}

fn drop_job(jobs: Vec<AnalysisJob>, id: &str) -> (result: Vec<AnalysisJob>)
    ensures
        job_views(result@) == jobs_without(job_views(jobs@), id@),
{
    let ghost views = job_views(jobs@);
    let ghost keep = |job: AnalysisJobView| job.id != id@;
    let mut result: Vec<AnalysisJob> = Vec::new();
    assert(views.take(0).filter(keep) =~= Seq::empty()) by {
        reveal(Seq::filter);
    }
    assert(job_views(result@) =~= views.take(0).filter(keep));
    for job in it: jobs
        invariant
            views == job_views(it.seq()),
            keep == (|job: AnalysisJobView| job.id != id@),
            job_views(result@) == views.take(it.index()).filter(keep),
    {
        let ghost i = it.index();
        let ghost view = job@;
        let ghost before = job_views(result@);
        assert(views[i] == view);
        assert(views.take(i + 1) =~= views.take(i).push(view));
        proof {
            views.take(i).lemma_filter_push(view, keep);
        }
        if !text::same(job.id.as_str(), id) {
            result.push(job);
            assert(job_views(result@) =~= before.push(view));
        }
    }
    assert(views.take(views.len() as int) =~= views);
    result
}

/// Deletes jobs that never asked the service: all of them, or none.
pub fn delete_skipped_analysis_jobs(
    jobs: Vec<AnalysisJob>,
    ids: &Vec<String>,
) -> (result: Result<Vec<AnalysisJob>, JobError>)
    ensures
        match result {
            Ok(left) => deleted(job_views(jobs@), text::distinct(text::texts(ids@))) == Ok::<
                Seq<AnalysisJobView>,
                JobError,
            >(job_views(left@)),
            Err(error) => deleted(job_views(jobs@), text::distinct(text::texts(ids@))) == Err::<
                Seq<AnalysisJobView>,
                JobError,
            >(error),
        },
{
    let unique = text::unique(ids);
    let ghost wanted = text::texts(unique@);
    let ghost first = job_views(jobs@);
    let mut left = jobs;
    let mut i: usize = 0;
    assert(wanted.take(0) =~= Seq::empty());
    while i < unique.len()
        invariant
            i <= unique.len(),
            first == job_views(jobs@),
            wanted == text::texts(unique@),
            wanted == text::distinct(text::texts(ids@)),
            deleted(first, wanted.take(i as int)) == Ok::<Seq<AnalysisJobView>, JobError>(
                job_views(left@),
            ),
        decreases unique.len() - i,
    {
        let id = unique[i].as_str();
        assert(wanted.take(i + 1).drop_last() =~= wanted.take(i as int));
        assert(wanted.take(i + 1).last() == id@);
        match locate_job(&left, id) {
            None => {
                proof {
                    lemma_deleted_error(first, wanted, i + 1);
                }
                return Err(JobError::Missing);
            },
            Some(at) => {
                if !text::same(left[at].status.as_str(), "skipped") {
                    proof {
                        lemma_deleted_error(first, wanted, i + 1);
                    }
                    return Err(JobError::NotSkipped);
                }
                left = drop_job(left, id);
            },
        }
        i += 1;
    }
    assert(wanted.take(unique.len() as int) =~= wanted);
    Ok(left)
}

/// The job failed and may be tried again.
pub open spec fn retryable(status: Seq<char>) -> bool {
    status == "failed"@ || status == "downgraded"@
}

fn is_retryable(status: &str) -> (result: bool)
    ensures
        result == retryable(status@),
{
    text::same(status, "failed") || text::same(status, "downgraded")
}

/// The job back in the queue.
pub open spec fn requeued(job: AnalysisJobView) -> AnalysisJobView {
    AnalysisJobView {
        status: "pending"@,
        error: None,
        processing_started_at: None,
        completed_at: None,
        duration_ms: None,
        response: None,
        result_count: 0,
        ..job
    }
}

fn requeue(job: AnalysisJob) -> (result: AnalysisJob)
    ensures
        result@ == requeued(job@),
{
    let mut after = job;
    after.status = "pending".to_owned();
    after.error = None;
    after.processing_started_at = None;
    after.completed_at = None;
    after.duration_ms = None;
    after.response = None;
    after.result_count = 0;
    after
}

/// The jobs with every failed one back in the queue.
pub open spec fn all_requeued(jobs: Seq<AnalysisJobView>) -> Seq<AnalysisJobView> {
    jobs.map_values(
        |job: AnalysisJobView|
            if retryable(job.status) {
                requeued(job)
            } else {
                job
            },
    )
}

/// Puts every failed job back into the queue.
pub fn retry_failed_jobs(jobs: Vec<AnalysisJob>) -> (result: Vec<AnalysisJob>)
    ensures
        job_views(result@) == all_requeued(job_views(jobs@)),
{
    let ghost views = job_views(jobs@);
    let ghost change = |job: AnalysisJobView|
        if retryable(job.status) {
            requeued(job)
        } else {
            job
        };
    let mut result: Vec<AnalysisJob> = Vec::new();
    assert(job_views(result@) =~= views.take(0).map_values(change));
    for job in it: jobs
        invariant
            views == job_views(it.seq()),
            change == (|job: AnalysisJobView|
                if retryable(job.status) {
                    requeued(job)
                } else {
                    job
                }),
            job_views(result@) == views.take(it.index()).map_values(change),
    {
        let ghost i = it.index();
        let ghost view = job@;
        let ghost before = job_views(result@);
        assert(views[i] == view);
        let after = if is_retryable(job.status.as_str()) {
            requeue(job)
        } else {
            job
        };
        assert(after@ == change(view));
        result.push(after);
        assert(job_views(result@) =~= before.push(change(view)));
        assert(views.take(i + 1).map_values(change) =~= views.take(i).map_values(change).push(
            change(view),
        ));
    }
    assert(views.take(views.len() as int) =~= views);
    result
}

/// The jobs with this one back in the queue.
pub open spec fn one_requeued(jobs: Seq<AnalysisJobView>, id: Seq<char>) -> Seq<AnalysisJobView> {
    jobs.map_values(
        |job: AnalysisJobView|
            if job.id == id {
                requeued(job)
            } else {
                job
            },
    )
}

/// What trying these jobs again, in turn, comes to.
pub open spec fn retried(jobs: Seq<AnalysisJobView>, ids: Seq<Seq<char>>) -> Result<
    Seq<AnalysisJobView>,
    JobError,
>
    decreases ids.len(),
{
    if ids.len() == 0 {
        Ok(jobs)
    } else {
        match retried(jobs, ids.drop_last()) {
            Err(error) => Err(error),
            Ok(before) => match find_job(before, ids.last()) {
                None => Err(JobError::Missing),
                Some(job) => if retryable(job.status) {
                    Ok(one_requeued(before, ids.last()))
                } else {
                    Err(JobError::NotFailed)
                },
            },
        }
    }
}

proof fn lemma_retried_error(jobs: Seq<AnalysisJobView>, ids: Seq<Seq<char>>, n: int)
    requires
        0 <= n <= ids.len(),
        retried(jobs, ids.take(n)) is Err,
    ensures
        retried(jobs, ids) == retried(jobs, ids.take(n)),
    decreases ids.len(),
{
    if n < ids.len() {
        assert(ids.drop_last().take(n) =~= ids.take(n));
        lemma_retried_error(jobs, ids.drop_last(), n);
    } else {
        assert(ids.take(n) =~= ids);
    }
}

fn requeue_one(jobs: Vec<AnalysisJob>, id: &str) -> (result: Vec<AnalysisJob>)
    ensures
        job_views(result@) == one_requeued(job_views(jobs@), id@),
{
    let ghost views = job_views(jobs@);
    let ghost change = |job: AnalysisJobView|
        if job.id == id@ {
            requeued(job)
        } else {
            job
        };
    let mut result: Vec<AnalysisJob> = Vec::new();
    assert(job_views(result@) =~= views.take(0).map_values(change));
    for job in it: jobs
        invariant
            views == job_views(it.seq()),
            change == (|job: AnalysisJobView|
                if job.id == id@ {
                    requeued(job)
                } else {
                    job
                }),
            job_views(result@) == views.take(it.index()).map_values(change),
    {
        let ghost i = it.index();
        let ghost view = job@;
        let ghost before = job_views(result@);
        assert(views[i] == view);
        let after = if text::same(job.id.as_str(), id) {
            requeue(job)
        } else {
            job
        };
        assert(after@ == change(view));
        result.push(after);
        assert(job_views(result@) =~= before.push(change(view)));
        assert(views.take(i + 1).map_values(change) =~= views.take(i).map_values(change).push(
            change(view),
        ));
    }
    assert(views.take(views.len() as int) =~= views);
    result
}

/// Puts failed jobs back into the queue: all of them, or none.
pub fn retry_analysis_jobs(
    jobs: Vec<AnalysisJob>,
    ids: &Vec<String>,
) -> (result: Result<Vec<AnalysisJob>, JobError>)
    ensures
        match result {
            Ok(after) => retried(job_views(jobs@), text::distinct(text::texts(ids@))) == Ok::<
                Seq<AnalysisJobView>,
                JobError,
            >(job_views(after@)),
            Err(error) => retried(job_views(jobs@), text::distinct(text::texts(ids@))) == Err::<
                Seq<AnalysisJobView>,
                JobError,
            >(error),
        },
{
    let unique = text::unique(ids);
    let ghost wanted = text::texts(unique@);
    let ghost first = job_views(jobs@);
    let mut after = jobs;
    let mut i: usize = 0;
    assert(wanted.take(0) =~= Seq::empty());
    while i < unique.len()
        invariant
            i <= unique.len(),
            first == job_views(jobs@),
            wanted == text::texts(unique@),
            wanted == text::distinct(text::texts(ids@)),
            retried(first, wanted.take(i as int)) == Ok::<Seq<AnalysisJobView>, JobError>(
                job_views(after@),
            ),
        decreases unique.len() - i,
    {
        let id = unique[i].as_str();
        assert(wanted.take(i + 1).drop_last() =~= wanted.take(i as int));
        assert(wanted.take(i + 1).last() == id@);
        match locate_job(&after, id) {
            None => {
                proof {
                    lemma_retried_error(first, wanted, i + 1);
                }
                return Err(JobError::Missing);
            },
            Some(at) => {
                if !is_retryable(after[at].status.as_str()) {
                    proof {
                        lemma_retried_error(first, wanted, i + 1);
                    }
                    return Err(JobError::NotFailed);
                }
                after = requeue_one(after, id);
            },
        }
        i += 1;
    }
    assert(wanted.take(unique.len() as int) =~= wanted);
    Ok(after)
}

/// The job as it runs.
pub open spec fn running(job: AnalysisJobView, at: Seq<char>) -> AnalysisJobView {
    AnalysisJobView {
        status: "running"@,
        error: None,
        processing_started_at: Some(at),
        completed_at: None,
        duration_ms: None,
        ..job
    }
}

/// `left` waits longer, or as long for something that began earlier.
pub open spec fn waits_longer(left: AnalysisJobView, right: AnalysisJobView) -> bool {
    text::precedes(left.queued_at, right.queued_at) || (left.queued_at == right.queued_at
        && text::precedes(left.metadata_range.started_at, right.metadata_range.started_at))
}

fn is_waiting_longer(left: &AnalysisJob, right: &AnalysisJob) -> (result: bool)
    ensures
        result == waits_longer(left@, right@),
{
    text::less(left.queued_at.as_str(), right.queued_at.as_str()) || (text::same(
        left.queued_at.as_str(),
        right.queued_at.as_str(),
    ) && text::less(
        left.metadata_range.started_at.as_str(),
        right.metadata_range.started_at.as_str(),
    ))
}

/// Where the job stands that is next in the queue.
pub open spec fn next_in_queue(jobs: Seq<AnalysisJobView>) -> Option<int>
    decreases jobs.len(),
{
    if jobs.len() == 0 {
        None
    } else {
        let before = next_in_queue(jobs.drop_last());
        if jobs.last().status != "pending"@ {
            before
        } else {
            match before {
                Some(best) => if waits_longer(jobs.last(), jobs[best]) {
                    Some(jobs.len() - 1)
                } else {
                    before
                },
                None => Some(jobs.len() - 1),
            }
        }
    }
}

fn find_next(jobs: &Vec<AnalysisJob>) -> (result: Option<usize>)
    ensures
        match result {
            Some(at) => at < jobs.len() && next_in_queue(job_views(jobs@)) == Some(at as int),
            None => next_in_queue(job_views(jobs@)) is None,
        },
{
    let ghost views = job_views(jobs@);
    let mut best: Option<usize> = None;
    let mut i: usize = 0;
    while i < jobs.len()
        invariant
            i <= jobs.len(),
            views == job_views(jobs@),
            match best {
                Some(at) => at < i && next_in_queue(views.take(i as int)) == Some(at as int),
                None => next_in_queue(views.take(i as int)) is None,
            },
        decreases jobs.len() - i,
    {
        let ghost upto = views.take(i + 1);
        assert(upto.drop_last() =~= views.take(i as int));
        assert(upto.last() == jobs@[i as int]@);
        if text::same(jobs[i].status.as_str(), "pending") {
            match best {
                Some(at) => {
                    assert(upto[at as int] == jobs@[at as int]@);
                    if is_waiting_longer(&jobs[i], &jobs[at]) {
                        best = Some(i);
                    }
                },
                None => {
                    best = Some(i);
                },
            }
        }
        i += 1;
    }
    assert(views.take(jobs.len() as int) =~= views);
    best
}

fn run(job: &AnalysisJob, at: &str) -> (result: AnalysisJob)
    ensures
        result@ == running(job@, at@),
{
    let mut after = job.copy();
    after.status = "running".to_owned();
    after.error = None;
    after.processing_started_at = Some(at.to_owned());
    after.completed_at = None;
    after.duration_ms = None;
    after
}

/// Claims the job that is next in the queue, and says where it stands.
pub fn claim_next_analysis_job(jobs: &mut Vec<AnalysisJob>, at: &str) -> (result: Option<usize>)
    ensures
        match next_in_queue(job_views(old(jobs)@)) {
            Some(best) => result == Some(best as usize) && job_views(final(jobs)@) == job_views(
                old(jobs)@,
            ).update(best, running(job_views(old(jobs)@)[best], at@)),
            None => result is None && final(jobs)@ == old(jobs)@,
        },
{
    let ghost before = job_views(jobs@);
    match find_next(jobs) {
        Some(best) => {
            let after = run(&jobs[best], at);
            let ghost view = after@;
            jobs.set(best, after);
            assert(job_views(jobs@) =~= before.update(best as int, view));
            Some(best)
        },
        None => None,
    }
}

/// Claims a given job; none where it does not wait.
pub fn claim_analysis_job(job: &AnalysisJob, at: &str) -> (result: Option<AnalysisJob>)
    ensures
        match result {
            Some(after) => job@.status == "pending"@ && after@ == running(job@, at@),
            None => job@.status != "pending"@,
        },
{
    if text::same(job.status.as_str(), "pending") {
        Some(run(job, at))
    } else {
        None
    }
}

/// A claimed job waits no more, and no other job that waits has waited longer.
pub proof fn claimed_jobs_waited_longest(jobs: Seq<AnalysisJobView>)
    requires
        next_in_queue(jobs) is Some,
    ensures
        ({
            let best = next_in_queue(jobs).unwrap();
            &&& 0 <= best < jobs.len()
            &&& jobs[best].status == "pending"@
            &&& forall|k: int|
                0 <= k < jobs.len() && (#[trigger] jobs[k]).status == "pending"@ ==> !waits_longer(
                    jobs[k],
                    jobs[best],
                )
        }),
    decreases jobs.len(),
{
    let rest = jobs.drop_last();
    let best = next_in_queue(jobs).unwrap();
    let last = jobs.last();
    text::lemma_precedes_total(last.queued_at, last.queued_at);
    text::lemma_precedes_total(last.metadata_range.started_at, last.metadata_range.started_at);
    if next_in_queue(rest) is Some {
        claimed_jobs_waited_longest(rest);
        let earlier = next_in_queue(rest).unwrap();
        assert forall|k: int|
            0 <= k < jobs.len() && (#[trigger] jobs[k]).status == "pending"@ implies !waits_longer(
            jobs[k],
            jobs[best],
        ) by {
            if k < rest.len() {
                assert(rest[k] == jobs[k]);
                assert(!waits_longer(rest[k], rest[earlier]));
                if best == jobs.len() - 1 && waits_longer(jobs[k], last) {
                    lemma_waits_longer_transitive(jobs[k], last, rest[earlier]);
                }
            }
        }
    } else {
        lemma_none_waits(rest);
        assert forall|k: int|
            0 <= k < jobs.len() && (#[trigger] jobs[k]).status == "pending"@ implies !waits_longer(
            jobs[k],
            jobs[best],
        ) by {
            if k < rest.len() {
                assert(rest[k] == jobs[k]);
            }
        }
    }
}

proof fn lemma_none_waits(jobs: Seq<AnalysisJobView>)
    requires
        next_in_queue(jobs) is None,
    ensures
        forall|k: int| 0 <= k < jobs.len() ==> (#[trigger] jobs[k]).status != "pending"@,
    decreases jobs.len(),
{
    if jobs.len() > 0 {
        lemma_none_waits(jobs.drop_last());
        assert forall|k: int| 0 <= k < jobs.len() implies (#[trigger] jobs[k]).status
            != "pending"@ by {
            if k < jobs.len() - 1 {
                assert(jobs.drop_last()[k] == jobs[k]);
            }
        }
    }
}

proof fn lemma_waits_longer_transitive(
    a: AnalysisJobView,
    b: AnalysisJobView,
    c: AnalysisJobView,
)
    requires
        waits_longer(a, b),
        waits_longer(b, c),
    ensures
        waits_longer(a, c),
{
    if text::precedes(a.queued_at, b.queued_at) && text::precedes(b.queued_at, c.queued_at) {
        text::lemma_precedes_transitive(a.queued_at, b.queued_at, c.queued_at);
    } else if a.queued_at == b.queued_at && b.queued_at == c.queued_at {
        text::lemma_precedes_transitive(
            a.metadata_range.started_at,
            b.metadata_range.started_at,
            c.metadata_range.started_at,
        );
    }
}

/// The job is done, one way or another.
pub open spec fn terminal(status: Seq<char>) -> bool {
    status == "completed"@ || status == "failed"@ || status == "downgraded"@ || status
        == "skipped"@
}

pub fn is_terminal(status: &str) -> (result: bool)
    ensures
        result == terminal(status@),
{
    text::same(status, "completed") || text::same(status, "failed") || text::same(
        status,
        "downgraded",
    ) || text::same(status, "skipped")
}

/// How long a job took that is finished at `now`: from when work on it began or, where it never
/// did, from when it was queued. Nothing where a time cannot be read.
pub open spec fn took_millis(job: AnalysisJobView, now: Seq<char>) -> Option<u64> {
    let start = match job.processing_started_at {
        Some(at) => at,
        None => job.queued_at,
    };
    match clock::duration_millis(start, now) {
        Some(millis) => Some(millis as u64),
        None => None,
    }
}

/// The job in another status.
pub open spec fn in_status(
    job: AnalysisJobView,
    status: Seq<char>,
    retry_count: Option<u32>,
    error: Option<Seq<char>>,
    now: Seq<char>,
) -> AnalysisJobView {
    AnalysisJobView {
        status,
        retry_count: match retry_count {
            Some(count) => count,
            None => job.retry_count,
        },
        error,
        processing_started_at: if status == "pending"@ {
            None
        } else {
            job.processing_started_at
        },
        completed_at: if terminal(status) {
            Some(now)
        } else {
            None
        },
        duration_ms: if terminal(status) {
            took_millis(job, now)
        } else {
            None
        },
        ..job
    }
}

/// Puts a job into another status.
pub fn mark_analysis_job_status(
    job: &AnalysisJob,
    status: &str,
    retry_count: Option<u32>,
    error: &Option<String>,
    now: &str,
) -> (result: AnalysisJob)
    ensures
        result@ == in_status(job@, status@, retry_count, text::optional(*error), now@),
{
    let mut after = job.copy();
    let done = is_terminal(status);
    after.status = status.to_owned();
    match retry_count {
        Some(count) => {
            after.retry_count = count;
        },
        None => {},
    }
    after.error = error.clone();
    if text::same(status, "pending") {
        after.processing_started_at = None;
    }
    if done {
        after.completed_at = Some(now.to_owned());
        after.duration_ms = match &job.processing_started_at {
            Some(at) => clock::millis_between(at.as_str(), now),
            None => clock::millis_between(job.queued_at.as_str(), now),
        };
    } else {
        after.completed_at = None;
        after.duration_ms = None;
    }
    after
}

/// Notes what the service was asked.
pub fn record_analysis_job_request(
    job: &AnalysisJob,
    provider: &str,
    model: &str,
    system_prompt: &str,
    user_prompt: &str,
) -> (result: AnalysisJob)
    ensures
        result@ == (AnalysisJobView {
            provider: provider@,
            model: model@,
            system_prompt: Some(system_prompt@),
            user_prompt: Some(user_prompt@),
            response: None,
            result_count: 0,
            ..job@
        }),
{
    let mut after = job.copy();
    after.provider = provider.to_owned();
    after.model = model.to_owned();
    after.system_prompt = Some(system_prompt.to_owned());
    after.user_prompt = Some(user_prompt.to_owned());
    after.response = None;
    after.result_count = 0;
    after
}

/// The sum, or the greatest number.
pub open spec fn capped_sum(left: u64, right: u64) -> u64 {
    if left + right > u64::MAX {
        u64::MAX
    } else {
        (left + right) as u64
    }
}

fn add_capped(left: u64, right: u64) -> (result: u64)
    ensures
        result == capped_sum(left, right),
{
    if left > u64::MAX - right {
        u64::MAX
    } else {
        left + right
    }
}

/// What a review used, with one more attempt; `cost` is what both cost together, where known.
pub open spec fn with_attempt(before: AiUsageView, attempt: AiUsageView, cost: Option<i64>) ->
    AiUsageView {
    AiUsageView {
        input_tokens: capped_sum(before.input_tokens, attempt.input_tokens),
        cached_input_tokens: capped_sum(before.cached_input_tokens, attempt.cached_input_tokens),
        output_tokens: capped_sum(before.output_tokens, attempt.output_tokens),
        reasoning_output_tokens: capped_sum(
            before.reasoning_output_tokens,
            attempt.reasoning_output_tokens,
        ),
        total_tokens: capped_sum(before.total_tokens, attempt.total_tokens),
        cost_usd: cost,
        cost_note: match attempt.cost_note {
            Some(note) => Some(note),
            None => before.cost_note,
        },
    }
}

impl AiUsage {
    /// Counts one more attempt.
    pub fn add_attempt(&mut self, attempt: &AiUsage, cost: Option<i64>)
        ensures
            final(self)@ == with_attempt(old(self)@, attempt@, cost),
    {
        self.input_tokens = add_capped(self.input_tokens, attempt.input_tokens);
        self.cached_input_tokens = add_capped(
            self.cached_input_tokens,
            attempt.cached_input_tokens,
        );
        self.output_tokens = add_capped(self.output_tokens, attempt.output_tokens);
        self.reasoning_output_tokens = add_capped(
            self.reasoning_output_tokens,
            attempt.reasoning_output_tokens,
        );
        self.total_tokens = add_capped(self.total_tokens, attempt.total_tokens);
        self.cost_usd = cost;
        match &attempt.cost_note {
            Some(note) => {
                self.cost_note = Some(note.clone());
            },
            None => {},
        }
    }
}

/// Notes what the service answered, and what that used.
pub fn record_analysis_job_response(
    job: &AnalysisJob,
    response: &str,
    usage: &AiUsage,
    cost: Option<i64>,
) -> (result: AnalysisJob)
    ensures
        result@ == (AnalysisJobView {
            response: Some(response@),
            usage: with_attempt(job@.usage, usage@, cost),
            ..job@
        }),
{
    let mut after = job.copy();
    after.response = Some(response.to_owned());
    let mut used = job.usage.copy();
    used.add_attempt(usage, cost);
    after.usage = used;
    after
}

/// A job whose review was cut off, back in the queue.
pub open spec fn resumed(job: AnalysisJobView) -> AnalysisJobView {
    if job.status == "running"@ {
        AnalysisJobView {
            status: "pending"@,
            processing_started_at: None,
            completed_at: None,
            duration_ms: None,
            error: match job.error {
                Some(error) => Some(error),
                None => Some("应用重启后重新排队"@),
            },
            ..job
        }
    } else {
        job
    }
}

/// Puts a job back in the queue whose review was cut off when the program ended.
pub fn resume_interrupted(job: AnalysisJob) -> (result: AnalysisJob)
    ensures
        result@ == resumed(job@),
{
    let mut after = job;
    if text::same(after.status.as_str(), "running") {
        after.status = "pending".to_owned();
        after.processing_started_at = None;
        after.completed_at = None;
        after.duration_ms = None;
        if after.error.is_none() {
            after.error = Some("应用重启后重新排队".to_owned());
        }
    }
    after
}

/// A job that counts as done though the service was never asked.
pub open spec fn never_asked(job: AnalysisJobView) -> bool {
    &&& job.status == "completed"@
    &&& job.result_count == 0
    &&& job.processing_started_at is None
    &&& job.system_prompt is None
    &&& job.user_prompt is None
    &&& job.response is None
}

/// The job, skipped where the service was never asked.
pub open spec fn settled(job: AnalysisJobView) -> AnalysisJobView {
    if never_asked(job) {
        AnalysisJobView {
            status: "skipped"@,
            error: match job.error {
                Some(error) => Some(error),
                None => Some("目标时间段已被人工修正，未调用 AI"@),
            },
            completed_at: match job.completed_at {
                Some(at) => Some(at),
                None => Some(job.queued_at),
            },
            ..job
        }
    } else {
        job
    }
}

/// Marks a job as skipped that counts as done though the service was never asked.
pub fn settle_unasked(job: AnalysisJob) -> (result: AnalysisJob)
    ensures
        result@ == settled(job@),
{
    let mut after = job;
    if text::same(after.status.as_str(), "completed") && after.result_count == 0
        && after.processing_started_at.is_none() && after.system_prompt.is_none()
        && after.user_prompt.is_none() && after.response.is_none() {
        after.status = "skipped".to_owned();
        if after.error.is_none() {
            after.error = Some("目标时间段已被人工修正，未调用 AI".to_owned());
        }
        if after.completed_at.is_none() {
            after.completed_at = Some(after.queued_at.clone());
        }
    }
    after
}

/// The job still holds its sessions.
pub open spec fn holds_sessions(status: Seq<char>) -> bool {
    status == "pending"@ || status == "running"@ || retryable(status)
}

/// The sessions that jobs hold, in the order of the jobs.
pub open spec fn held_sessions(jobs: Seq<AnalysisJobView>) -> Seq<Seq<char>>
    decreases jobs.len(),
{
    if jobs.len() == 0 {
        Seq::empty()
    } else if holds_sessions(jobs.last().status) {
        held_sessions(jobs.drop_last()) + jobs.last().chunk_ids
    } else {
        held_sessions(jobs.drop_last())
    }
}

/// The sessions that jobs hold, each once.
pub fn analysis_job_session_ids(jobs: &Vec<AnalysisJob>) -> (result: Vec<String>)
    ensures
        text::texts(result@) == text::distinct(held_sessions(job_views(jobs@))),
{
    let ghost views = job_views(jobs@);
    let mut all: Vec<String> = Vec::new();
    let mut i: usize = 0;
    assert(text::texts(all@) =~= held_sessions(views.take(0)));
    while i < jobs.len()
        invariant
            i <= jobs.len(),
            views == job_views(jobs@),
            text::texts(all@) == held_sessions(views.take(i as int)),
        decreases jobs.len() - i,
    {
        assert(views.take(i + 1).drop_last() =~= views.take(i as int));
        assert(views.take(i + 1).last() == jobs@[i as int]@);
        let status = jobs[i].status.as_str();
        if text::same(status, "pending") || text::same(status, "running") || is_retryable(status) {
            let ghost done = text::texts(all@);
            let ghost ids = text::texts(jobs@[i as int].chunk_ids@);
            let mut k: usize = 0;
            assert(done + ids.take(0) =~= done);
            while k < jobs[i as usize].chunk_ids.len()
                invariant
                    i < jobs.len(),
                    k <= jobs@[i as int].chunk_ids.len(),
                    ids == text::texts(jobs@[i as int].chunk_ids@),
                    text::texts(all@) == done + ids.take(k as int),
                decreases jobs@[i as int].chunk_ids.len() - k,
            {
                let ghost before = text::texts(all@);
                all.push(jobs[i].chunk_ids[k].clone());
                assert(text::texts(all@) =~= before.push(ids[k as int]));
                assert(done + ids.take(k + 1) =~= (done + ids.take(k as int)).push(ids[k as int]));
                k += 1;
            }
            assert(ids.take(ids.len() as int) =~= ids);
        }
        i += 1;
    }
    assert(views.take(jobs.len() as int) =~= views);
    text::unique(&all)
}

/// How many jobs are in the status.
pub fn count_jobs(jobs: &Vec<AnalysisJob>, status: &str) -> (result: usize)
    ensures
        result == job_views(jobs@).filter(|job: AnalysisJobView| job.status == status@).len(),
{
    let ghost views = job_views(jobs@);
    let ghost keep = |job: AnalysisJobView| job.status == status@;
    let mut count: usize = 0;
    let mut i: usize = 0;
    assert(views.take(0).filter(keep) =~= Seq::empty()) by {
        reveal(Seq::filter);
    }
    while i < jobs.len()
        invariant
            i <= jobs.len(),
            count <= i,
            views == job_views(jobs@),
            keep == (|job: AnalysisJobView| job.status == status@),
            count == views.take(i as int).filter(keep).len(),
        decreases jobs.len() - i,
    {
        assert(views.take(i + 1) =~= views.take(i as int).push(views[i as int]));
        proof {
            views.take(i as int).lemma_filter_push(views[i as int], keep);
        }
        if text::same(jobs[i].status.as_str(), status) {
            count += 1;
        }
        i += 1;
    }
    assert(views.take(jobs.len() as int) =~= views);
    count
}

/// How many jobs are listed at once.
pub fn list_limit(limit: u32) -> (result: u32)
    ensures
        result == settings::clamped(limit, 1, 500),
{
    settings::clamp(limit, 1, 500)
}

} // verus!
