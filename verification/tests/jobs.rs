use screenuse::clock::Moment;
use screenuse::jobs::{
    analysis_job_session_ids, claim_analysis_job, claim_next_analysis_job, count_jobs,
    delete_skipped_analysis_jobs, is_terminal, list_limit, mark_analysis_job_status,
    record_analysis_job_request, record_analysis_job_response, retry_analysis_jobs,
    resume_interrupted, retry_failed_jobs, settle_unasked, JobError,
};
use screenuse::json::JsonValue;
use screenuse::maintenance::{
    drop_seed_sessions, is_stale, prune_correction_rules, prune_jobs, prune_memories,
    prune_tombstones, retention_days, MAX_CORRECTION_RULES, MAX_PERSONAL_MEMORIES,
};
use screenuse::memory::ContextFeatures;
use screenuse::models::{
    AiUsage, AnalysisJob, AttributionRule, PlanItem, TimeRange, WorkSession,
};
use screenuse::plan::{
    is_of_removed_tool, match_plan_items_for_session, prune_plan_session_links,
};
use screenuse::recall::StoredMemory;
use screenuse::sync::{SyncRule, SyncSession, SyncTombstone};

fn usage(input: u64, cached: u64, output: u64, reasoning: u64, total: u64, note: Option<&str>) -> AiUsage {
    AiUsage {
        input_tokens: input,
        cached_input_tokens: cached,
        output_tokens: output,
        reasoning_output_tokens: reasoning,
        total_tokens: total,
        cost_usd: None,
        cost_note: note.map(|value| value.to_string()),
    }
}

fn job(id: &str, status: &str) -> AnalysisJob {
    AnalysisJob {
        id: id.into(),
        chunk_ids: vec![format!("{id}-session")],
        metadata_range: TimeRange {
            started_at: "2026-07-14T10:00:00Z".into(),
            ended_at: "2026-07-14T10:02:00Z".into(),
        },
        mode: "metadata-context-review".into(),
        provider: String::new(),
        model: String::new(),
        retry_count: 0,
        status: status.into(),
        error: if status == "failed" { Some("request failed".into()) } else { None },
        system_prompt: None,
        user_prompt: None,
        response: None,
        queued_at: "2026-07-14T10:03:00Z".into(),
        processing_started_at: None,
        completed_at: None,
        duration_ms: None,
        result_count: 0,
        usage: usage(0, 0, 0, 0, 0, None),
    }
}

fn find<'a>(jobs: &'a Vec<AnalysisJob>, id: &str) -> Option<&'a AnalysisJob> {
    jobs.iter().find(|item| item.id == id)
}

#[test]
fn analysis_job_keeps_a_complete_ai_audit_trail() {
    let mut jobs = vec![job("audit-job", "pending")];
    let at = claim_next_analysis_job(&mut jobs, "2026-07-14T10:04:00Z").expect("claim job");
    let claimed = &jobs[at];
    assert_eq!(claimed.status, "running");
    assert!(claimed.processing_started_at.is_some());
    let asked = record_analysis_job_request(claimed, "codex-account", "gpt-5.4", "system prompt", "user prompt");
    let note = Some("当前 Codex 账号未返回单次金额");
    let answered = record_analysis_job_response(
        &asked,
        "{\"results\":[]}",
        &usage(1_200, 500, 80, 32, 1_280, note),
        None,
    );
    let again = record_analysis_job_request(
        &answered,
        "codex-account",
        "gpt-5.4",
        "retry system prompt",
        "retry user prompt",
    );
    let mut detail = record_analysis_job_response(
        &again,
        "{\"results\":[{}]}",
        &usage(300, 100, 20, 8, 320, note),
        None,
    );
    detail.result_count = 2;
    let detail = mark_analysis_job_status(&detail, "completed", None, &None, "2026-07-14T10:05:00Z");
    assert_eq!(detail.status, "completed");
    assert_eq!(detail.provider, "codex-account");
    assert_eq!(detail.model, "gpt-5.4");
    assert_eq!(detail.system_prompt.as_deref(), Some("retry system prompt"));
    assert_eq!(detail.user_prompt.as_deref(), Some("retry user prompt"));
    assert_eq!(detail.response.as_deref(), Some("{\"results\":[{}]}"));
    assert_eq!(detail.result_count, 2);
    assert_eq!(detail.usage.total_tokens, 1_600);
    assert_eq!(detail.usage.input_tokens, 1_500);
    assert_eq!(detail.usage.cached_input_tokens, 600);
    assert_eq!(detail.usage.output_tokens, 100);
    assert_eq!(detail.usage.cost_note.as_deref(), note);
    assert!(detail.completed_at.is_some());
    assert!(detail.duration_ms.is_some());
    assert_eq!(detail.duration_ms, Some(60_000));
}

#[test]
fn only_skipped_analysis_jobs_can_be_deleted() {
    let jobs = || vec![job("skipped-job", "skipped"), job("completed-job", "completed")];
    let left = delete_skipped_analysis_jobs(jobs(), &vec!["skipped-job".into()]).expect("delete skipped job");
    assert!(find(&left, "skipped-job").is_none());
    assert!(find(&left, "completed-job").is_some());
    assert_eq!(
        delete_skipped_analysis_jobs(jobs(), &vec!["completed-job".into()]),
        Err(JobError::NotSkipped)
    );
    assert_eq!(
        delete_skipped_analysis_jobs(jobs(), &vec!["none".into()]),
        Err(JobError::Missing)
    );
}

#[test]
fn analysis_jobs_support_atomic_batch_delete_and_retry() {
    let jobs = || {
        vec![
            job("skipped-a", "skipped"),
            job("skipped-b", "skipped"),
            job("failed-a", "failed"),
            job("downgraded-a", "downgraded"),
            job("completed-a", "completed"),
        ]
    };
    assert!(delete_skipped_analysis_jobs(jobs(), &vec!["skipped-a".into(), "completed-a".into()]).is_err());
    let left = delete_skipped_analysis_jobs(jobs(), &vec!["skipped-a".into(), "skipped-b".into()])
        .expect("delete skipped jobs");
    assert_eq!(left.len(), 3);
    let retried = retry_analysis_jobs(left, &vec!["failed-a".into(), "downgraded-a".into()])
        .expect("retry failed jobs");
    for id in ["failed-a", "downgraded-a"] {
        let job = find(&retried, id).expect("retried job remains");
        assert_eq!(job.status, "pending");
        assert!(job.error.is_none());
    }
    assert_eq!(
        retry_analysis_jobs(retried, &vec!["completed-a".into()]),
        Err(JobError::NotFailed)
    );
    let all = retry_failed_jobs(jobs());
    assert_eq!(count_jobs(&all, "pending"), 2);
}

#[test]
fn completed_job_without_an_ai_request_is_migrated_to_skipped() {
    let migrated = settle_unasked(job("legacy-empty-completed-job", "completed"));
    assert_eq!(migrated.status, "skipped");
    assert!(migrated.error.as_deref().is_some_and(|value| value.contains("未调用 AI")));
    assert!(migrated.completed_at.is_some());
}

#[test]
fn the_oldest_waiting_job_is_claimed_once() {
    let mut jobs = vec![job("late", "pending"), job("early", "pending"), job("done", "completed")];
    jobs[1].queued_at = "2026-07-14T09:00:00Z".into();
    assert_eq!(claim_next_analysis_job(&mut jobs, "t"), Some(1));
    assert_eq!(claim_next_analysis_job(&mut jobs, "t"), Some(0));
    assert_eq!(claim_next_analysis_job(&mut jobs, "t"), None);
    assert!(claim_analysis_job(&jobs[0], "t").is_none());
    assert_eq!(claim_analysis_job(&job("x", "pending"), "t").map(|item| item.status), Some("running".into()));
    assert!(is_terminal("completed"));
    assert!(!is_terminal("running"));
    assert_eq!(list_limit(0), 1);
    let held = analysis_job_session_ids(&jobs);
    assert!(held.iter().any(|id| id == "late-session"));
}

#[test]
fn maintenance_bounds_derived_history_and_ai_traces() {
    let now = Moment { seconds: 1_784_203_200, nanos: 0 };
    let old = "2026-06-26T12:00:00Z".to_string();
    let mut trace = job("old-ai-trace", "completed");
    trace.metadata_range = TimeRange { started_at: old.clone(), ended_at: old.clone() };
    trace.system_prompt = Some("system".repeat(100));
    trace.user_prompt = Some("user".repeat(100));
    trace.response = Some("response".repeat(100));
    trace.queued_at = old.clone();
    trace.completed_at = Some(old);
    let kept = prune_jobs(vec![trace], now, retention_days(30));
    let detail = find(&kept, "old-ai-trace").expect("AI history remains");
    assert!(detail.system_prompt.is_none());
    assert!(detail.user_prompt.is_none());
    assert!(detail.response.is_none());

    let rule = |index: usize| SyncRule {
        rule: AttributionRule {
            id: format!("rule-{index}"),
            name: format!("Rule {index}"),
            priority: 100,
            matcher: JsonValue::Object(vec![]),
            project_id: None,
            task_id: None,
            category: "杂务".into(),
            created_from_correction: true,
            enabled: true,
        },
        updated_at: "2026-07-16T12:00:00Z".into(),
    };
    let rules = (0..MAX_CORRECTION_RULES + 5).map(rule).collect();
    let mut tombstones = vec![];
    let left = prune_correction_rules(rules, &mut tombstones, "2026-07-16T12:00:00Z");
    assert_eq!(left.len(), MAX_CORRECTION_RULES);
    assert_eq!(tombstones.len(), 5);

    let stone = |id: &str, at: &str| SyncTombstone {
        entity_kind: "session".into(),
        entity_id: id.into(),
        deleted_at: at.into(),
        device_id: "".into(),
    };
    let stones = prune_tombstones(
        vec![stone("stale", "2026-01-16T12:00:00Z"), stone("fresh", "2026-07-01T12:00:00Z")],
        now,
    );
    assert_eq!(stones.len(), 1);
    assert_eq!(stones[0].entity_id, "fresh");

    let links = (0..300).map(|index| format!("session-{index}")).collect();
    let pruned = prune_plan_session_links(&links).expect("too many links");
    assert_eq!(pruned.len(), 256);
    assert_eq!(prune_plan_session_links(&pruned), None);
}

#[test]
fn the_latest_memories_stay() {
    let memory = |index: usize| StoredMemory {
        session_id: format!("s{index}"),
        features: ContextFeatures {
            app: String::new(),
            page: String::new(),
            window: String::new(),
            domain: String::new(),
            workspace: String::new(),
            file: String::new(),
            tokens: vec![],
        },
        category: "c".into(),
        project_id: "p".into(),
        task_id: "t".into(),
        confirmed_at: format!("2026-07-16T12:{:02}:{:02}Z", index / 60, index % 60),
    };
    let kept = prune_memories((0..MAX_PERSONAL_MEMORIES + 3).map(memory).collect());
    assert_eq!(kept.len(), MAX_PERSONAL_MEMORIES);
    assert_eq!(kept[0].session_id, "s3");
}

#[test]
fn stale_times_lie_before_the_limit() {
    let now = Moment { seconds: 1_784_203_200, nanos: 0 };
    assert!(is_stale("2026-07-01T12:00:00Z", now, 14));
    assert!(!is_stale("2026-07-02T12:00:00Z", now, 14));
    assert!(!is_stale("unknown", now, 14));
    assert_eq!(retention_days(1), 7);
    assert_eq!(retention_days(9999), 3650);
}

fn session(id: &str, source: &str, summary: &str) -> WorkSession {
    WorkSession {
        id: id.into(),
        started_at: "2026-07-16T10:00:00Z".into(),
        ended_at: "2026-07-16T10:10:00Z".into(),
        project_id: None,
        project_name: None,
        task_id: None,
        task_title: None,
        category: "杂务".into(),
        summary: summary.into(),
        confidence: 0x3F000000,
        evidence: vec![],
        user_confirmed: false,
        source: source.into(),
    }
}

#[test]
fn example_sessions_are_dropped() {
    let rows = vec![
        SyncSession { session: session("a", "seed", "s"), updated_at: "t".into() },
        SyncSession { session: session("b", "collector-rule", "s"), updated_at: "t".into() },
    ];
    let left = drop_seed_sessions(rows);
    assert_eq!(left.len(), 1);
    assert_eq!(left[0].session.id, "b");
}

#[test]
fn plans_note_matching_sessions_once() {
    let item = || PlanItem {
        id: "plan".into(),
        source: "manual".into(),
        title: "沟通复盘".into(),
        note: None,
        start_at: None,
        due_at: None,
        status: "active".into(),
        tags: vec![],
        matched_session_ids: vec![],
    };
    let match_session = session("s", "context-complete", "沟通复盘");
    let once = match_plan_items_for_session(vec![item()], &match_session);
    let twice = match_plan_items_for_session(
        once.iter().map(|found| found.copy()).collect(),
        &match_session,
    );
    assert_eq!(once, twice);
    assert!(once[0].matched_session_ids.len() <= 1);
}

#[test]
fn removed_ddl_manager_items_are_purged_on_open() {
    let item = |id: &str, source: &str| PlanItem {
        id: id.into(),
        source: source.into(),
        title: "旧 DDL 项目".into(),
        note: None,
        start_at: None,
        due_at: None,
        status: "todo".into(),
        tags: vec![],
        matched_session_ids: vec![],
    };
    assert!(is_of_removed_tool(&item("ddl-task:legacy", "DDL-Manager")));
    assert!(is_of_removed_tool(&item("x", "DDL-Manager")));
    assert!(is_of_removed_tool(&item("DDL-Day:1", "ics")));
    assert!(!is_of_removed_tool(&item("ddl", "ics")));
}

#[test]
fn interrupted_reviews_are_queued_again() {
    let mut running = job("a", "running");
    running.processing_started_at = Some("2026-07-14T10:04:00Z".into());
    let resumed = resume_interrupted(running);
    assert_eq!(resumed.status, "pending");
    assert!(resumed.processing_started_at.is_none());
    assert_eq!(resumed.error.as_deref(), Some("应用重启后重新排队"));
    assert_eq!(resume_interrupted(job("b", "completed")), job("b", "completed"));
}

#[test]
fn durations_count_from_the_start_or_the_queue() {
    let waiting = job("a", "pending");
    let done = mark_analysis_job_status(&waiting, "skipped", None, &None, "2026-07-14T10:03:01.5Z");
    assert_eq!(done.duration_ms, Some(1_500));
    let early = mark_analysis_job_status(&waiting, "failed", Some(2), &None, "2026-07-14T10:00:00Z");
    assert_eq!(early.duration_ms, Some(0));
    assert_eq!(early.retry_count, 2);
    let unread = mark_analysis_job_status(&waiting, "failed", None, &None, "later");
    assert_eq!(unread.duration_ms, None);
    let running = mark_analysis_job_status(&waiting, "running", None, &None, "2026-07-14T10:04:00Z");
    assert_eq!(running.duration_ms, None);
}

#[test]
fn jobs_of_the_screenshot_pipeline_are_removed() {
    let now = Moment { seconds: 1_784_023_500, nanos: 0 };
    let old = AnalysisJob { mode: "full-video".into(), ..job("screenshots", "pending") };
    let left = prune_jobs(vec![old, job("metadata", "pending")], now, retention_days(30));
    assert_eq!(left.len(), 1);
    assert_eq!(left[0].id, "metadata");
}
