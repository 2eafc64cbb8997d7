use screenuse::clock::{
    context_gap_seconds, context_is_disconnected, elapsed_nanos, is_before, shift,
    timestamp_is_after, touch_or_overlap_within, within_gap_seconds, Moment,
};
use screenuse::catalog::Catalog;
use screenuse::models::{EvidenceItem, Project, Task, WorkSession};
use screenuse::sessions::{
    can_auto_coalesce, can_repair_overlapping_sessions, has_same_assignment, is_idle_session,
    is_reliable_memory_session, merge_evidence, merge_sessions, merge_sessions_into,
    primary_session_app, replace_absorbed, replace_merged, session_duration_seconds,
    sessions_overlap, sort_by_start, MergeError,
};
use screenuse::models::AppSettings;
use screenuse::timeline::{
    absorb_short_auto_session, apply_join, backfill_idle_boundaries, compact_sessions,
    find_idle_boundary, is_lengthless, split_session, SplitError,
};
use screenuse::upkeep::{list_recent_ids, list_remaining, repair_session_timeline};

fn order(value: f32) -> i32 {
    let bits = value.to_bits() as i32;
    bits ^ (((bits >> 31) as u32) >> 1) as i32
}

fn at(seconds: u64) -> String {
    format!("2026-07-16T10:{:02}:{:02}Z", seconds / 60, seconds % 60)
}

fn app(value: &str) -> EvidenceItem {
    EvidenceItem {
        kind: "app".into(),
        label: "应用".into(),
        value: value.into(),
        weight: order(0.5),
    }
}

fn session(id: &str, from: u64, to: u64, category: &str, summary: &str) -> WorkSession {
    WorkSession {
        id: id.into(),
        started_at: at(from),
        ended_at: at(to),
        project_id: None,
        project_name: None,
        task_id: None,
        task_title: None,
        category: category.into(),
        summary: summary.into(),
        confidence: order(0.88),
        evidence: vec![],
        user_confirmed: false,
        source: "context-complete".into(),
    }
}

fn with(mut session: WorkSession, project: &str, task: &str, program: &str) -> WorkSession {
    session.project_id = Some(project.into());
    session.task_id = Some(task.into());
    session.evidence = vec![app(program)];
    session
}

fn ids(table: &Vec<WorkSession>) -> Vec<String> {
    table.iter().map(|item| item.id.clone()).collect()
}

fn find<'a>(table: &'a Vec<WorkSession>, id: &str) -> Option<&'a WorkSession> {
    table.iter().find(|item| item.id == id)
}

#[test]
fn adjacent_same_app_assignment_is_coalesced_but_real_app_switches_remain() {
    let table = vec![
        with(session("qq-main", 0, 40, "杂务", "QQ"), "p", "t", "QQ.exe"),
        with(session("qq-viewer", 40, 55, "杂务", "QQ · 图片查看器"), "p", "t", "QQ.exe"),
        with(session("chat-switch", 55, 65, "开发", "ChatGPT"), "other", "own", "ChatGPT.exe"),
        with(session("qq-return", 65, 80, "杂务", "QQ"), "p", "t", "QQ.exe"),
    ];
    let all = ids(&table);
    let done = compact_sessions(table, &all);
    assert_eq!(done.changes, 1);
    let merged = find(&done.table, "qq-main").expect("merged exists");
    assert_eq!(merged.ended_at, at(55));
    assert_eq!(merged.summary, "QQ");
    assert!(find(&done.table, "qq-viewer").is_none());
    assert!(find(&done.table, "chat-switch").is_some());
    assert!(find(&done.table, "qq-return").is_some());
}

#[test]
fn short_same_task_detour_is_folded_into_one_session() {
    let mut generic = session("chat-generic", 75, 85, "杂务", "ChatGPT");
    generic.evidence = vec![app("ChatGPT.exe")];
    let table = vec![
        with(session("screenuse-before", 0, 60, "开发", "screenuse"), "p", "main", "screenuse.exe"),
        with(session("chat-helper", 60, 75, "开发", "ScreenUse · ChatGPT.exe"), "p", "helper", "ChatGPT.exe"),
        generic,
        with(session("screenuse-return", 85, 120, "开发", "screenuse"), "p", "main", "screenuse.exe"),
    ];
    let all = ids(&table);
    let done = compact_sessions(table, &all);
    assert_eq!(done.changes, 1);
    let merged = find(&done.table, "screenuse-before").expect("merged exists");
    assert_eq!(merged.ended_at, at(120));
    assert_eq!(merged.task_id.as_deref(), Some("main"));
    assert!(merged
        .evidence
        .iter()
        .any(|item| item.value.eq_ignore_ascii_case("ChatGPT.exe")));
    for removed in ["chat-helper", "chat-generic", "screenuse-return"] {
        assert!(find(&done.table, removed).is_none());
    }
}

#[test]
fn screenshot_utility_is_merged_into_confirmed_previous_session() {
    let mut work = with(session("work-before", 0, 40, "开发", "ScreenUse"), "p", "t", "screenuse.exe");
    work.user_confirmed = true;
    work.source = "manual-correction".into();
    let mut snipaste = session("snipaste-overlay", 40, 55, "杂务", "Snipper - Snipaste");
    snipaste.evidence = vec![app("Snipaste.exe")];
    let mut qq = session("qq-screenshot-overlay", 55, 70, "沟通", "QQ · QQ截图");
    qq.evidence = vec![app("QQ.exe")];
    let table = vec![work, snipaste, qq];
    let all = ids(&table);
    let done = compact_sessions(table, &all);
    assert_eq!(done.changes, 2);
    let merged = find(&done.table, "work-before").expect("merged exists");
    assert_eq!(merged.ended_at, at(70));
    assert_eq!(merged.project_id.as_deref(), Some("p"));
    assert_eq!(done.table.len(), 1);
}

#[test]
fn short_automatic_session_is_absorbed_without_a_gap() {
    let table = vec![
        session("before", 0, 10, "杂务", "前一个事务"),
        session("short", 10, 13, "沟通", "短暂切换"),
    ];
    let join = absorb_short_auto_session(&table, &table[1]).expect("absorb short session");
    let after = apply_join(&table, &join);
    assert_eq!(after.len(), 1);
    assert_eq!(after[0].id, "before");
    assert_eq!(after[0].ended_at, at(13));
}

#[test]
fn nearby_idle_sessions_are_joined_across_a_five_second_sampling_gap() {
    let idle = |id: &str, from: u64, to: u64| {
        let mut item = session(id, from, to, "无效", "离开/空闲");
        item.project_id = Some("away".into());
        item.source = "collector-idle".into();
        item
    };
    let table = vec![idle("idle-a", 0, 30), idle("idle-b", 34, 60)];
    let all = ids(&table);
    let done = compact_sessions(table, &all);
    assert_eq!(find(&done.table, "idle-a").map(|item| item.ended_at.clone()), Some(at(60)));
    assert!(find(&done.table, "idle-b").is_none());
}

#[test]
fn historical_idle_boundary_moves_back_to_the_last_input_time_once() {
    let mut active = session("active", 0, 300, "杂务", "QQ");
    active.evidence = vec![app("QQ.exe")];
    let mut idle = session("idle", 300, 360, "离开", "离开/空闲");
    idle.evidence = vec![app("QQ.exe")];
    let (table, moves) = backfill_idle_boundaries(vec![active, idle], 180);
    assert_eq!(moves.len(), 1);
    assert_eq!(moves[0].boundary, at(120));
    assert_eq!(find(&table, "active").map(|item| item.ended_at.clone()), Some(at(120)));
    assert_eq!(find(&table, "idle").map(|item| item.started_at.clone()), Some(at(120)));
}

#[test]
fn a_boundary_never_moves_before_the_session_it_cuts() {
    let active = session("active", 200, 300, "杂务", "QQ");
    let boundary = find_idle_boundary(&at(300), &active, 180);
    assert_eq!(boundary.as_deref(), Some(at(200).as_str()));
    let (table, moves) = backfill_idle_boundaries(
        vec![active, session("idle", 300, 360, "离开", "离开/空闲")],
        180,
    );
    assert_eq!(moves.len(), 1);
    assert!(moves[0].removes_previous);
    assert!(find(&table, "active").is_none());
}

#[test]
fn timeline_repair_removes_stale_rows_and_resolves_automatic_overlaps() {
    let qq = |id: &str, from: u64, to: u64, confidence: f32| {
        let mut item = session(id, from, to, "沟通", "QQ");
        item.evidence = vec![app("QQ.exe")];
        item.confidence = order(confidence);
        item
    };
    let mut stale = qq("stale", 100, 100, 0.8);
    stale.source = "collector-rule".into();
    let mut confirmed = qq("confirmed-zero", 99, 99, 1.0);
    confirmed.summary = "手工保留".into();
    confirmed.user_confirmed = true;
    confirmed.source = "manual-correction".into();
    let mut next = qq("next-context", 128, 140, 0.9);
    next.category = "开发".into();
    next.summary = "ScreenUse".into();
    let rows = vec![
        confirmed,
        stale,
        qq("overlap-a", 100, 120, 0.8),
        qq("overlap-b", 115, 130, 0.9),
        next,
    ];
    let catalog = Catalog { categories: vec![], projects: vec![], tasks: vec![] };
    let cutoff = Moment { seconds: 1_700_000_000, nanos: 0 };
    let done = repair_session_timeline(&rows, &catalog, cutoff);
    assert!(done.changes >= 3);
    assert_eq!(done.empty, vec!["stale".to_string()]);
    assert!(find(&done.rows, "confirmed-zero").is_some());
    assert_eq!(find(&done.timeline.kept, "overlap-a").map(|item| item.ended_at.clone()), Some(at(128)));
    assert_eq!(done.timeline.removed, vec!["overlap-b".to_string()]);
    assert_eq!(find(&done.timeline.kept, "next-context").map(|item| item.started_at.clone()), Some(at(128)));
    let table = list_remaining(&done);
    assert_eq!(ids(&table), vec!["confirmed-zero", "overlap-a", "next-context"]);
    assert_eq!(table[1].ended_at, at(128));
    let later = repair_session_timeline(&rows, &catalog, Moment { seconds: 4_000_000_000, nanos: 0 });
    assert!(later.timeline.kept.is_empty());
}

#[test]
fn repair_brings_sessions_to_their_place() {
    let catalog = Catalog {
        categories: vec![],
        projects: vec![Project {
            id: "p".into(),
            name: "项目".into(),
            category: "开发".into(),
            source: "manual".into(),
            color: "#000".into(),
            description: None,
            created_at: at(0),
            updated_at: at(0),
        }],
        tasks: vec![Task {
            id: "t".into(),
            project_id: "p".into(),
            title: "任务".into(),
            status: "active".into(),
            source: "manual".into(),
            planned_due_at: None,
            created_at: at(0),
            updated_at: at(0),
        }],
    };
    let mut moved = session("moved", 0, 10, "学习", "s");
    moved.task_id = Some("t".into());
    let mut gone = session("gone", 10, 20, "学习", "s");
    gone.task_id = Some("none".into());
    gone.project_id = Some("p".into());
    let rows = vec![moved, gone];
    let done = repair_session_timeline(&rows, &catalog, Moment { seconds: 4_000_000_000, nanos: 0 });
    assert_eq!(done.changes, 3);
    assert_eq!(done.rows[0].project_id.as_deref(), Some("p"));
    assert_eq!(done.rows[0].project_name.as_deref(), Some("项目"));
    assert_eq!(done.rows[0].task_title.as_deref(), Some("任务"));
    assert_eq!(done.rows[0].category, "开发");
    assert!(done.rows[1].task_id.is_none());
    assert!(done.rows[1].project_id.is_none());
    assert_eq!(done.rows[1].category, "学习");
}

#[test]
fn manual_merge_is_atomic_contiguous_and_updates_plan_links() {
    let table = vec![
        session("merge-a", 0, 20, "沟通", "QQ"),
        session("merge-b", 23, 40, "沟通", "QQ"),
        session("far", 600, 620, "沟通", "QQ"),
        session("other", 620, 640, "开发", "QQ"),
    ];
    let chosen = vec!["merge-b".to_string(), "merge-a".to_string()];
    let merged = merge_sessions(&table, &chosen, &Some("QQ 沟通".into()), "merged")
        .expect("merge contiguous rows");
    assert_eq!(merged.started_at, at(0));
    assert_eq!(merged.ended_at, at(40));
    assert_eq!(merged.source, "manual-merge");
    assert_eq!(merged.summary, "QQ 沟通");
    assert!(merged.user_confirmed);
    let links = replace_merged(&vec!["merge-a".into(), "merge-b".into()], &chosen, "merged");
    assert_eq!(links, Some(vec!["merged".to_string()]));
    assert_eq!(replace_merged(&vec!["x".into()], &chosen, "merged"), None);

    let choose = |list: &[&str]| list.iter().map(|id| id.to_string()).collect::<Vec<_>>();
    assert_eq!(merge_sessions(&table, &choose(&["merge-a"]), &None, "m"), Err(MergeError::TooFew));
    assert_eq!(
        merge_sessions(&table, &choose(&["merge-a", "nope"]), &None, "m"),
        Err(MergeError::Missing("nope".into()))
    );
    assert_eq!(
        merge_sessions(&table, &choose(&["merge-b", "far"]), &None, "m"),
        Err(MergeError::Gap)
    );
    assert_eq!(
        merge_sessions(&table, &choose(&["far", "other"]), &None, "m"),
        Err(MergeError::MixedAssignment)
    );
}

#[test]
fn merging_around_an_unselected_session_is_refused() {
    let table = vec![
        session("a", 0, 20, "沟通", "QQ"),
        session("b", 5, 10, "沟通", "QQ"),
        session("c", 20, 40, "沟通", "QQ"),
    ];
    assert_eq!(
        merge_sessions(&table, &vec!["a".into(), "c".into()], &None, "m"),
        Err(MergeError::Unselected)
    );
}

#[test]
fn manual_split_requires_two_five_second_segments() {
    let mut source = session("split-source", 0, 20, "开发", "ScreenUse");
    source.user_confirmed = true;
    source.source = "manual-correction".into();
    assert_eq!(
        split_session(&source, &at(3), "one", "two"),
        Err(SplitError::TooShort)
    );
    let (first, second) = split_session(&source, &at(10), "one", "two").expect("split valid source");
    for item in [&first, &second] {
        assert_eq!(item.source, "manual-split");
        assert!(session_duration_seconds(item).is_some_and(|seconds| seconds >= 5));
    }
    assert_eq!(first.started_at, at(0));
    assert_eq!(first.ended_at, second.started_at);
    assert_eq!(second.ended_at, at(20));
    assert_eq!(split_session(&source, "x", "one", "two"), Err(SplitError::InvalidSplit));
    source.started_at = "x".into();
    assert_eq!(split_session(&source, &at(10), "one", "two"), Err(SplitError::InvalidStart));
    source.started_at = at(0);
    source.ended_at = "x".into();
    assert_eq!(split_session(&source, &at(10), "one", "two"), Err(SplitError::InvalidEnd));
}

#[test]
fn synthetic_manual_ranges_never_become_context_memories() {
    let mut session = WorkSession {
        id: "synthetic".into(),
        started_at: "2026-07-16T10:00:00Z".into(),
        ended_at: "2026-07-16T10:10:00Z".into(),
        project_id: Some("project".into()),
        project_name: Some("项目".into()),
        task_id: Some("task".into()),
        task_title: Some("任务".into()),
        category: "学习".into(),
        summary: "手动补录".into(),
        confidence: order(1.0),
        evidence: Vec::new(),
        user_confirmed: true,
        source: "manual-entry".into(),
    };
    assert!(!is_reliable_memory_session(&session));
    session.source = "manual-merge".into();
    assert!(!is_reliable_memory_session(&session));
    session.source = "manual-correction".into();
    assert!(is_reliable_memory_session(&session));
}

#[test]
fn configured_idle_target_is_idle_even_with_a_concrete_task() {
    let settings = AppSettings::default().normalized();
    let session = WorkSession {
        id: "idle".into(),
        started_at: "2026-07-16T10:00:00Z".into(),
        ended_at: "2026-07-16T10:03:00Z".into(),
        project_id: Some("idle-project".into()),
        project_name: Some(settings.idle_project_name.clone()),
        task_id: Some("nothing".into()),
        task_title: Some("nothing".into()),
        category: settings.idle_category.clone(),
        summary: "会议中未操作".into(),
        confidence: order(0.95),
        evidence: Vec::new(),
        user_confirmed: false,
        source: "ai-review".into(),
    };
    assert!(is_idle_session(&session, &settings));
}

#[test]
fn sessions_are_sorted_by_their_start() {
    let sorted = sort_by_start(vec![
        session("b", 20, 30, "c", "s"),
        session("a", 0, 10, "c", "s"),
        session("c", 20, 25, "c", "s"),
    ]);
    assert_eq!(ids(&sorted)[0], "a");
    assert!(sorted.windows(2).all(|pair| pair[0].started_at <= pair[1].started_at));
}

#[test]
fn overlapping_sessions_are_told_apart_from_touching_ones() {
    let left = session("a", 0, 20, "c", "s");
    assert!(sessions_overlap(&left, &session("b", 19, 30, "c", "s")));
    assert!(!sessions_overlap(&left, &session("b", 20, 30, "c", "s")));
    assert!(is_lengthless(&session("z", 20, 20, "c", "s")));
    assert!(!is_lengthless(&left));
    assert!(has_same_assignment(&left, &session("b", 19, 30, "c", "x")));
    assert!(!has_same_assignment(&left, &session("b", 19, 30, "d", "x")));
    let qq = |id: &str, from: u64, to: u64| with(session(id, from, to, "c", "QQ"), "p", "t", "QQ.exe");
    assert!(can_auto_coalesce(&qq("x", 0, 20), &qq("y", 20, 30)));
    assert!(!can_auto_coalesce(&qq("x", 0, 20), &with(session("y", 20, 30, "c", "QQ"), "other", "t", "QQ.exe")));
    assert!(!can_repair_overlapping_sessions(&left, &session("b", 10, 30, "d", "x")));
}

#[test]
fn merging_keeps_all_evidence_once() {
    let mut left = session("a", 0, 20, "c", "s");
    left.evidence = vec![app("QQ.exe"), app("Chrome.exe")];
    let mut right = session("b", 20, 40, "c", "s");
    right.evidence = vec![app("QQ.exe"), app("wps.exe")];
    let merged = merge_evidence(&left.evidence, &right.evidence);
    assert_eq!(merged.iter().filter(|item| item.value == "QQ.exe").count(), 1);
    assert_eq!(merged.len(), 3);
    let joined = merge_sessions_into(&left, &vec![right]);
    assert_eq!(joined.ended_at, at(40));
    assert_eq!(primary_session_app(&left), primary_session_app(&joined));
    assert_eq!(
        replace_absorbed(&vec!["b".into(), "x".into()], "b", "a"),
        vec!["a".to_string(), "x".to_string()]
    );
}

#[test]
fn times_are_compared_across_zones() {
    assert!(timestamp_is_after("2026-07-16T10:00:01+08:00", "2026-07-16T02:00:00Z"));
    assert!(!timestamp_is_after("2026-07-16T10:00:00+08:00", "2026-07-16T02:00:00Z"));
    assert_eq!(
        context_gap_seconds("2026-07-16T10:00:00Z", "2026-07-16T10:00:07Z"),
        Some(7)
    );
    assert_eq!(context_gap_seconds("x", "2026-07-16T10:00:07Z"), None);
    assert!(within_gap_seconds("2026-07-16T10:00:00Z", "2026-07-16T10:00:05Z", 5));
    assert!(!within_gap_seconds("2026-07-16T10:00:00Z", "2026-07-16T10:00:06Z", 5));
    assert!(touch_or_overlap_within("2026-07-16T10:00:05Z", "2026-07-16T10:00:00Z", 0));
    assert!(context_is_disconnected("2026-07-16T10:00:00Z", "2026-07-16T11:00:00Z", 60));
}

#[test]
fn moments_shift_by_seconds() {
    let start = Moment { seconds: 100, nanos: 5 };
    let later = shift(start, 30);
    assert_eq!(later, Moment { seconds: 130, nanos: 5 });
    assert!(is_before(start, later));
    assert_eq!(elapsed_nanos(start, later), 30_000_000_000);
    assert!(start.is_in_calendar());
    assert!(Moment { seconds: 59, nanos: 1_500_000_000 }.is_in_calendar());
    assert!(Moment { seconds: -1, nanos: 1_500_000_000 }.is_in_calendar());
    assert!(!Moment { seconds: 60, nanos: 1_500_000_000 }.is_in_calendar());
    assert!(!Moment { seconds: i64::MAX, nanos: 0 }.is_in_calendar());
}

#[test]
fn recent_sessions_are_those_that_ended_since_the_limit() {
    let mut broken = session("broken", 0, 10, "c", "s");
    broken.ended_at = "x".into();
    let rows = vec![session("a", 0, 10, "c", "s"), broken, session("b", 10, 20, "c", "s")];
    let edge = Moment { seconds: 1_784_196_020, nanos: 0 };
    assert_eq!(list_recent_ids(&rows, edge), vec!["b".to_string()]);
    let past = Moment { seconds: edge.seconds - 10, nanos: 0 };
    assert_eq!(list_recent_ids(&rows, past), vec!["a".to_string(), "b".to_string()]);
}

#[test]
fn too_many_sessions_are_not_merged_at_once() {
    let table: Vec<WorkSession> =
        (0..501).map(|index| session(&format!("s{index}"), index, index + 1, "c", "s")).collect();
    let all = ids(&table);
    assert_eq!(merge_sessions(&table, &all, &None, "m"), Err(MergeError::TooMany));
    let most = all[..500].to_vec();
    assert!(merge_sessions(&table, &most, &None, "m").is_ok());
}
