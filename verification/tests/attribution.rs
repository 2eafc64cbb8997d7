use screenuse::attribution::{
    attribution_from_memory, category_for_words, event_haystack, heuristic_attribution,
    AttributionDecision, RuleRow,
};
use screenuse::catalog::Catalog;
use screenuse::collector::{
    ai_prompt_idle_session_ids, heartbeat, is_away, mark_session_awaiting_confirmation,
    materialize_event_session, page_label, recent_task_context, repair_ai_reviewed_idle_sessions,
    requeue_placeholder_review, starts_new_context,
};
use screenuse::context::{
    evidence_context_signature, propagate_context_from_sessions,
    repair_sessions_from_confirmed_context, SpreadError,
};
use screenuse::json::{parse, JsonValue};
use screenuse::models::{
    AppSettings, ContextPin, EvidenceItem, InputStats, Project, RawActivityEvent, Task, WorkSession,
};
use screenuse::recall::{
    is_provisional_ai_memory_session, record_correction_memories, record_personal_memory,
    rebuild_personal_memory_from_confirmed, select_events, span_of, CorrectedSession, Recall,
};
use screenuse::rules::{
    is_legacy_rule, learn_rule_from_session, normalize_correction_rules, normalize_matcher,
    rules_with_assignment,
};
use screenuse::score;
use screenuse::sync::SyncSession;

fn order(value: f32) -> i32 {
    let bits = value.to_bits() as i32;
    bits ^ (((bits >> 31) as u32) >> 1) as i32
}

fn value(order: i32) -> f32 {
    f32::from_bits((order ^ (((order >> 31) as u32) >> 1) as i32) as u32)
}

fn at(seconds: u64) -> String {
    format!("2026-07-16T10:{:02}:{:02}Z", seconds / 60, seconds % 60)
}

fn stats(idle: u64) -> InputStats {
    InputStats {
        idle_seconds: idle,
        keyboard_events: 0,
        mouse_clicks: 0,
        scroll_ticks: 0,
        shortcut_events: vec![],
    }
}

fn event(id: &str, app: &str, title: &str, seconds: u64) -> RawActivityEvent {
    RawActivityEvent {
        id: id.into(),
        source: "windows-foreground".into(),
        timestamp: at(seconds),
        app: Some(app.into()),
        window_title: Some(title.into()),
        url: None,
        file_path: None,
        workspace: None,
        input_stats: stats(0),
        metadata: parse("{\"contextStart\":true}").expect("json"),
    }
}

fn settings() -> AppSettings {
    AppSettings::default().normalized()
}

fn rule(id: &str, matcher: &str, project: Option<&str>, task: Option<&str>, category: &str, updated: &str) -> RuleRow {
    RuleRow {
        id: id.into(),
        name: id.into(),
        priority: 90,
        matcher_json: matcher.into(),
        project_id: project.map(|value| value.to_string()),
        task_id: task.map(|value| value.to_string()),
        category: category.into(),
        updated_at: updated.into(),
    }
}

fn evidence(kind: &str, value: &str) -> EvidenceItem {
    EvidenceItem {
        kind: kind.into(),
        label: "l".into(),
        value: value.into(),
        weight: order(0.9),
    }
}

fn session(id: &str, from: u64, to: u64) -> WorkSession {
    WorkSession {
        id: id.into(),
        started_at: at(from),
        ended_at: at(to),
        project_id: None,
        project_name: None,
        task_id: None,
        task_title: None,
        category: "杂务".into(),
        summary: "QQ".into(),
        confidence: order(0.5),
        evidence: vec![],
        user_confirmed: false,
        source: "context-complete".into(),
    }
}

fn catalog() -> Catalog {
    Catalog {
        categories: vec![],
        projects: vec![Project {
            id: "p".into(),
            name: "离开".into(),
            category: "无效".into(),
            source: "manual".into(),
            color: "#000".into(),
            description: None,
            created_at: at(0),
            updated_at: at(0),
        }],
        tasks: vec![Task {
            id: "t".into(),
            project_id: "p".into(),
            title: "任务".into(),
            status: "active".into(),
            source: "manual".into(),
            planned_due_at: None,
            created_at: at(0),
            updated_at: at(0),
        }],
    }
}

fn decision(project: Option<&str>) -> AttributionDecision {
    AttributionDecision {
        project_id: project.map(|value| value.to_string()),
        task_id: None,
        category: "杂务".into(),
        summary: None,
        confidence: order(0.55),
        evidence: None,
    }
}

#[test]
fn context_start_forces_a_new_session_boundary() {
    let event = RawActivityEvent {
        id: "context-1".into(),
        source: "test".into(),
        timestamp: "2026-07-16T10:00:00Z".into(),
        app: None,
        window_title: None,
        url: None,
        file_path: None,
        workspace: None,
        input_stats: stats(0),
        metadata: JsonValue::Object(vec![("contextStart".to_string(), JsonValue::Bool(true))]),
    };
    assert!(starts_new_context(&event));
}

#[test]
fn ai_idle_repair_reads_only_idle_review_targets() {
    let settings = AppSettings::default();
    let prompt = r#"复核输入：{"reviewItems":[{"targetSession":{"sessionId":"work","summary":"工作","source":"context-complete","category":"开发","projectName":"项目","taskId":"task"}},{"targetSession":{"sessionId":"idle","summary":"离开/空闲","source":"context-complete","category":"无效","projectName":"离开","taskId":null}}],"timelineContext":[{"sessionId":"context-idle","summary":"离开/空闲"}]}"#;
    let ids = ai_prompt_idle_session_ids(prompt, &settings);
    assert_eq!(ids, vec!["idle".to_string()]);
}

#[test]
fn active_page_title_is_saved_as_the_primary_evidence() {
    let mut observed = event("page-evidence", "wps.exe", "ICPC 训练计划.docx", 0);
    observed.metadata = parse("{\"contextStart\":true,\"activePageTitle\":\"ICPC 训练计划.docx\",\"activePageSource\":\"document-window-title\"}").expect("json");
    let mut rows = vec![];
    let place = materialize_event_session(
        &mut rows, &observed, false, &decision(None), "ICPC 训练计划", &catalog(), "new", &at(0),
    );
    let item = &rows[place].session.evidence[0];
    assert_eq!(item.kind, "page");
    assert_eq!(item.label, "当前文档");
    assert_eq!(item.value, "ICPC 训练计划.docx");
}

#[test]
fn qq_conversation_is_labeled_as_the_current_chat() {
    let mut rows: Vec<SyncSession> = vec![];
    let mut observed = event("qq-conversation-evidence", "QQ.exe", "科研讨论群", 0);
    observed.metadata = parse(
        "{\"contextStart\":true,\"activePageTitle\":\"科研讨论群\",\"activePageSource\":\"qq-conversation-header\",\"conversationTitle\":\"科研讨论群\"}",
    )
    .expect("json");
    let place = materialize_event_session(
        &mut rows, &observed, false, &decision(None), "科研讨论群", &catalog(), "new", &at(0),
    );
    let item = &rows[place].session.evidence[0];
    assert_eq!(item.kind, "page");
    assert_eq!(item.label, "当前会话");
    assert_eq!(item.value, "科研讨论群");
    observed.metadata = parse("{\"activePageSource\":\"tab-title\"}").expect("json");
    assert_eq!(page_label(&observed), "当前页面");
    observed.metadata = JsonValue::Null;
    assert_eq!(page_label(&observed), "当前页面");
}

#[test]
fn heartbeats_extend_one_block_and_context_start_creates_only_one_more() {
    let mut rows: Vec<SyncSession> = vec![];
    let start = event("stream-1", "Acrobat.exe", "paper.pdf", 0);
    let first = materialize_event_session(
        &mut rows, &start, false, &decision(None), "paper.pdf", &catalog(), "first", &at(0),
    );
    let mut beat = event("stream-1", "Acrobat.exe", "paper.pdf", 10);
    beat.metadata = parse("{\"heartbeat\":true}").expect("json");
    let same = materialize_event_session(
        &mut rows, &beat, false, &decision(None), "paper.pdf", &catalog(), "unused", &at(10),
    );
    assert_eq!(first, same);
    assert_eq!(rows.len(), 1);
    assert_eq!(rows[0].session.started_at, at(0));
    assert_eq!(rows[0].session.ended_at, at(10));
    assert_ne!(rows[0].session.source, "context-complete");
    let marked = mark_session_awaiting_confirmation(&rows[0].session);
    assert_eq!(marked.source, "context-complete");
    let second = event("stream-2", "chrome.exe", "Google Scholar", 20);
    materialize_event_session(
        &mut rows, &second, false, &decision(None), "Google Scholar", &catalog(), "second", &at(20),
    );
    assert_eq!(rows.len(), 2);
}

#[test]
fn fast_heartbeat_extends_the_known_session_without_reclassification() {
    let mut rows = vec![SyncSession { session: session("s", 0, 0), updated_at: at(0) }];
    for index in 1..=600 {
        assert!(heartbeat(&mut rows, "s", &at(index * 5), &at(index * 5)));
    }
    assert_eq!(rows[0].session.started_at, at(0));
    assert_eq!(rows[0].session.ended_at, at(3000));
    assert_eq!(rows[0].session.summary, "QQ");
    assert!(!heartbeat(&mut rows, "none", &at(1), &at(1)));
}

#[test]
fn collector_does_not_merge_identical_titles_across_projects() {
    let mut rows = vec![];
    let mut first = event("project-boundary-1", "ChatGPT.exe", "ChatGPT", 0);
    first.metadata = JsonValue::Object(vec![]);
    materialize_event_session(
        &mut rows, &first, false, &decision(Some("one")), "ChatGPT", &catalog(), "a", &at(0),
    );
    let mut second = event("project-boundary-2", "ChatGPT.exe", "ChatGPT", 1);
    second.metadata = JsonValue::Object(vec![]);
    materialize_event_session(
        &mut rows, &second, false, &decision(Some("two")), "ChatGPT", &catalog(), "b", &at(1),
    );
    assert_eq!(rows.len(), 2);
    assert!(rows.iter().all(|row| row.session.source == "collector-rule"));
}

#[test]
fn idle_sessions_use_the_configured_category_and_project() {
    let mut observed = event("idle-target", "QQ.exe", "QQ", 0);
    observed.input_stats = stats(180);
    let settings = settings();
    assert!(is_away(&observed, &settings));
    let found = heuristic_attribution(&observed, true, &settings, Some("p".into()), None, &vec![]).expect("idle");
    let mut rows = vec![];
    let place = materialize_event_session(
        &mut rows, &observed, true, &found, found.summary.as_deref().unwrap_or(""), &catalog(), "i", &at(0),
    );
    let made = &rows[place].session;
    assert_eq!(made.category, "无效");
    assert_eq!(made.project_name.as_deref(), Some("离开"));
    assert_eq!(made.source, "collector-idle");
    assert_eq!(made.summary, "离开/空闲");
    assert!(made.task_id.is_none());
    observed.input_stats = stats(179);
    assert!(!is_away(&observed, &settings));
}

#[test]
fn context_pin_handles_apps_with_no_visible_context() {
    let pin = ContextPin {
        project_id: "icpc".into(),
        project_name: "ICPC".into(),
        task_id: Some("site".into()),
        task_title: Some("网站开发".into()),
        category: "开发".into(),
        expires_at: at(1800),
    };
    let found = heuristic_attribution(&event("chat-pinned", "ChatGPT.exe", "ChatGPT", 0), false, &settings(), None, Some(pin), &vec![])
        .expect("pinned");
    assert_eq!(found.project_id.as_deref(), Some("icpc"));
    assert_eq!(found.task_id.as_deref(), Some("site"));
    assert_eq!(value(found.confidence), 0.98);
}

#[test]
fn specific_correction_rule_beats_an_older_generic_rule() {
    let rules = vec![
        rule("generic-meeting", "{\"keywords\":[\"会议\",\"腾讯会议\"]}", Some("internship"), Some("meeting"), "学习", &at(0)),
        rule("specific-iot", "{\"keywords\":[\"申书豪预定的会议\",\"IOT\"]}", Some("research"), Some("iot"), "学习", &at(60)),
    ];
    let found = heuristic_attribution(&event("specific-meeting", "WeMeetApp.exe", "申书豪预定的会议", 61), false, &settings(), None, None, &rules)
        .expect("rule");
    assert_eq!(found.project_id.as_deref(), Some("research"));
    assert_eq!(found.task_id.as_deref(), Some("iot"));
}

#[test]
fn contexts_without_rules_are_left_to_memory() {
    let observed = event("x", "chrome.exe", "未知页面", 0);
    assert!(heuristic_attribution(&observed, false, &settings(), None, None, &vec![]).is_none());
    let fallback = attribution_from_memory(&observed, None);
    assert!(fallback.project_id.is_none());
    assert_eq!(fallback.confidence, score::FALLBACK);
    assert_eq!(fallback.category, category_for_words(&event_haystack(&observed)));
    assert!(event_haystack(&observed).contains("chrome.exe 未知页面"));
}

#[test]
fn learned_task_rule_uses_page_title_across_apps_and_is_upserted() {
    let mut taught = session("first", 0, 60);
    taught.project_id = Some("admission".into());
    taught.project_name = Some("推免".into());
    taught.task_id = Some("report".into());
    taught.task_title = Some("成果填报".into());
    taught.category = "保研".into();
    taught.summary = "预推免成果填报".into();
    taught.user_confirmed = true;
    taught.evidence = vec![evidence("page", "预推免成果填报"), evidence("app", "chrome.exe")];
    let keyword = Some("成果填报,预推免".to_string());
    let learned = learn_rule_from_session(&taught, &keyword, &vec![], "rule-1").expect("learn rule");
    assert_eq!(learned.rule.id, "rule-1");
    assert!(!learned.merged);
    assert!(learned.rule.matcher.get("app").is_none());
    let has = |matcher: &JsonValue, word: &str| {
        matcher
            .items_of("keywords")
            .is_some_and(|items| items.iter().any(|item| *item == JsonValue::Text(word.into())))
    };
    assert!(has(&learned.rule.matcher, "预推免成果填报"));
    let older = vec![rule(
        "rule-1",
        "{\"generation\":2,\"keywords\":[\"预推免成果填报\",\"湖北大学推免填报系统\"]}",
        Some("admission"),
        Some("report"),
        "保研",
        &at(60),
    )];
    let again = learn_rule_from_session(&taught, &keyword, &older, "rule-2").expect("upsert rule");
    assert_eq!(again.rule.id, "rule-1");
    assert!(again.merged);
    assert!(again.duplicates.is_empty());
    assert!(has(&again.rule.matcher, "湖北大学推免填报系统"));
    let followed = heuristic_attribution(
        &event("rule-wps", "wps.exe", "成果填报证明材料.pdf", 600),
        false,
        &settings(),
        None,
        None,
        &vec![rule("rule-1", "{\"keywords\":[\"成果填报\",\"预推免\"]}", Some("admission"), Some("report"), "保研", &at(60))],
    )
    .expect("rule follows across apps");
    assert_eq!(followed.task_id.as_deref(), Some("report"));
}

#[test]
fn correction_rule_normalization_merges_app_duplicates_and_keeps_page_memory() {
    let pages = "{\"generation\":2,\"app\":\"chrome\",\"keywords\":[\"湖北大学推免填报系统\",\"推免成果证明材料.pdf\"]}";
    let rules = vec![
        rule("a", pages, Some("p"), Some("t"), "保研", &at(60)),
        rule("b", pages, Some("p"), Some("t"), "保研", &at(0)),
    ];
    let done = normalize_correction_rules(&rules);
    assert_eq!(done.len(), 2);
    let kept = done.iter().filter(|item| item.matcher.is_some()).collect::<Vec<_>>();
    assert_eq!(kept.len(), 1);
    let matcher = kept[0].matcher.as_ref().expect("matcher");
    assert!(matcher.get("app").is_none());
    let words = matcher.items_of("keywords").expect("keywords");
    for page in ["湖北大学推免填报系统", "推免成果证明材料.pdf"] {
        assert!(words.iter().any(|item| *item == JsonValue::Text(page.into())));
    }
    assert!(is_legacy_rule("{\"keywords\":[]}"));
    assert!(!is_legacy_rule("{\"generation\":2}"));
    let plain = normalize_matcher(parse("{\"keywords\":[\"a\"]}").expect("json"), false);
    assert!(plain.items_of("keywords").is_some());
}

#[test]
fn repeated_confirmed_context_repairs_matching_unconfirmed_sessions() {
    let meeting = |id: &str, index: u64, confirmed: bool| {
        let mut item = session(id, index * 10, index * 10 + 10);
        item.evidence = vec![evidence("page", "申书豪预定的会议"), evidence("app", "WeMeetApp.exe")];
        item.user_confirmed = confirmed;
        if confirmed {
            item.project_id = Some("right".into());
            item.task_id = Some("iot".into());
            item.category = "学习".into();
            item.source = "manual-correction".into();
        }
        item
    };
    let confirmed = vec![meeting("a", 0, true), meeting("b", 1, true), meeting("c", 2, true)];
    let mut open = meeting("d", 3, false);
    open.project_id = Some("wrong".into());
    open.task_id = Some("meeting".into());
    open.category = "学习".into();
    let repaired = repair_sessions_from_confirmed_context(&confirmed, &vec![open]);
    assert_eq!(repaired.len(), 1);
    assert_eq!(repaired[0].project_id.as_deref(), Some("right"));
    assert_eq!(repaired[0].task_id.as_deref(), Some("iot"));
    assert_eq!(repaired[0].source, "context-memory");
    assert!(!repaired[0].user_confirmed);
    assert!(evidence_context_signature(&confirmed[0].evidence).is_some());
    assert!(evidence_context_signature(&vec![]).is_none());
}

#[test]
fn one_manual_correction_repairs_adjacent_weak_sessions_until_idle() {
    let mut before = session("repair-explorer", 0, 10);
    before.summary = "离开/空闲".into();
    before.source = "collector-idle".into();
    let mut anchor = session("repair-chrome", 10, 20);
    anchor.project_id = Some("admission".into());
    anchor.task_id = Some("report".into());
    anchor.category = "保研".into();
    anchor.user_confirmed = true;
    anchor.source = "manual-correction".into();
    anchor.confidence = order(0.98);
    let mut third = session("repair-qq", 20, 30);
    third.project_id = Some("talk".into());
    third.task_id = Some("qq".into());
    third.category = "沟通".into();
    third.confidence = order(0.88);
    let mut idle = session("repair-idle", 30, 40);
    idle.summary = "离开/空闲".into();
    idle.source = "collector-idle".into();
    let after = session("repair-after-idle", 40, 50);
    let table = vec![before, anchor, third, idle, after];
    let spread = propagate_context_from_sessions(&table, &vec!["repair-chrome".into()]).expect("propagate");
    assert_eq!(spread.changed, vec!["repair-qq".to_string()]);
    let find = |id: &str| spread.table.iter().find(|item| item.id == id).expect("row");
    assert_eq!(find("repair-explorer").source, "collector-idle");
    assert!(find("repair-explorer").task_id.is_none());
    assert_eq!(find("repair-qq").project_id.as_deref(), Some("admission"));
    assert_eq!(find("repair-qq").task_id.as_deref(), Some("report"));
    assert!(!find("repair-qq").user_confirmed);
    assert!(find("repair-after-idle").task_id.is_none());
}

#[test]
fn spreading_needs_readable_times() {
    let mut anchor = session("a", 0, 10);
    anchor.project_id = Some("p".into());
    anchor.task_id = Some("t".into());
    anchor.user_confirmed = true;
    anchor.source = "manual-correction".into();
    anchor.started_at = "x".into();
    let broken_start = vec![anchor.copy()];
    assert_eq!(
        propagate_context_from_sessions(&broken_start, &vec!["a".into()]),
        Err(SpreadError::InvalidStart)
    );
    anchor.started_at = at(0);
    anchor.ended_at = "x".into();
    let broken_end = vec![anchor];
    assert_eq!(
        propagate_context_from_sessions(&broken_end, &vec!["a".into()]),
        Err(SpreadError::InvalidEnd)
    );
}

fn corrected(id: &str, page: &str, app: &str, index: u64) -> CorrectedSession {
    let mut item = session(id, index * 10, index * 10 + 10);
    item.project_id = Some("iot".into());
    item.project_name = Some("IOT".into());
    item.task_id = Some("meeting".into());
    item.task_title = Some("会议".into());
    item.category = "科研".into();
    item.summary = page.into();
    item.user_confirmed = true;
    item.source = "manual-correction".into();
    item.evidence = vec![evidence("page", page), evidence("app", app)];
    CorrectedSession {
        session: item,
        updated_at: Some(at(3000)),
        placeholder: false,
        ambiguous: false,
        anchored: page.contains("IOT"),
    }
}

#[test]
fn batch_correction_does_not_turn_incidental_apps_into_permanent_rules() {
    let rows = vec![
        corrected("batch-related", "IOT week1", "ChatGPT.exe", 0),
        corrected("batch-incidental", "ScreenUse开发", "ScreenUse.exe", 1),
    ];
    let stored = record_correction_memories(&rows, &[], &settings(), true);
    let ids: Vec<&str> = stored.iter().map(|item| item.session_id.as_str()).collect();
    assert_eq!(ids, vec!["batch-related"]);
}

#[test]
fn every_confirmed_correction_builds_an_isolated_future_memory() {
    let row = corrected("memory-source", "预推免成果填报", "chrome.exe", 0);
    let stored = record_correction_memories(&vec![row], &[], &settings(), true);
    assert_eq!(stored.len(), 1);
    assert_eq!(stored[0].project_id, "iot");
    assert_eq!(stored[0].task_id, "meeting");
    assert_eq!(stored[0].features.page, "预推免成果填报");
    let rebuilt = rebuild_personal_memory_from_confirmed(
        &vec![corrected("memory-source", "预推免成果填报", "chrome.exe", 0)],
        &[],
        &settings(),
        &None,
    )
    .expect("rebuilt");
    assert_eq!(rebuilt.len(), 1);
}

#[test]
fn reviews_without_confirmation_are_remembered_for_a_while() {
    let mut row = corrected("ai", "申书豪材料群", "QQ.exe", 0);
    row.session.user_confirmed = false;
    row.session.source = "ai-review".into();
    row.session.confidence = order(0.93);
    let cutoff = Some(at(0));
    assert!(is_provisional_ai_memory_session(&row, &cutoff));
    match record_personal_memory(&row, &[], &settings(), &cutoff) {
        Recall::Store(memory) => assert_eq!(memory.session_id, "ai"),
        _ => panic!("a review is remembered"),
    }
    row.placeholder = true;
    assert!(!is_provisional_ai_memory_session(&row, &cutoff));
    row.placeholder = false;
    assert!(!is_provisional_ai_memory_session(&row, &None));
}

#[test]
fn events_are_selected_by_time() {
    let events = vec![event("a", "x", "x", 0), event("b", "x", "x", 10), event("c", "x", "x", 20)];
    let chosen = select_events(&events, &at(5), &at(20));
    let ids: Vec<&str> = chosen.iter().map(|item| item.id.as_str()).collect();
    assert_eq!(ids, vec!["b", "c"]);
    assert_eq!(
        span_of(&vec![session("a", 10, 20), session("b", 0, 5)]),
        Some((at(0), at(20)))
    );
    assert_eq!(span_of(&vec![]), None);
}

#[test]
fn reviewed_idle_time_goes_back_to_being_idle() {
    let mut reviewed = session("idle", 0, 60);
    reviewed.source = "ai-review".into();
    reviewed.project_id = Some("work".into());
    reviewed.task_id = Some("t".into());
    reviewed.category = "开发".into();
    let rows = vec![
        SyncSession { session: reviewed, updated_at: at(0) },
        SyncSession { session: session("other", 60, 120), updated_at: at(0) },
    ];
    let after = repair_ai_reviewed_idle_sessions(rows, &vec!["idle".into()], "p", &settings(), &at(300));
    assert_eq!(after[0].session.source, "collector-idle");
    assert_eq!(after[0].session.category, "无效");
    assert_eq!(after[0].session.project_id.as_deref(), Some("p"));
    assert!(after[0].session.task_id.is_none());
    assert_eq!(after[1].session, session("other", 60, 120));
}

#[test]
fn legacy_ai_placeholder_tasks_return_to_the_review_queue() {
    let mut reviewed = session("legacy-ai-placeholder", 0, 60);
    reviewed.source = "ai-review".into();
    reviewed.project_id = Some("p".into());
    reviewed.task_id = Some("others".into());
    reviewed.confidence = order(0.96);
    let row = SyncSession { session: reviewed, updated_at: at(0) };
    let repaired = requeue_placeholder_review(row, true, &at(300));
    assert!(repaired.session.project_id.is_none());
    assert!(repaired.session.task_id.is_none());
    assert_eq!(repaired.session.source, "context-complete");
    assert!(value(repaired.session.confidence) < 0.8);
    let untouched = requeue_placeholder_review(
        SyncSession { session: session("x", 0, 1), updated_at: at(0) },
        true,
        &at(300),
    );
    assert_eq!(untouched.updated_at, at(0));
}

#[test]
fn the_session_before_is_the_one_that_ended_last() {
    let row = |id: &str, from: u64, to: u64| SyncSession {
        session: session(id, from, to),
        updated_at: at(0),
    };
    let rows = vec![row("a", 0, 40), row("b", 10, 50), row("later", 60, 70), row("self", 50, 60)];
    assert_eq!(recent_task_context(&rows, "self", &at(50)), Some(1));
    assert_eq!(recent_task_context(&rows, "b", &at(10)), Some(0));
    assert_eq!(recent_task_context(&vec![], "b", &at(10)), None);
}

#[test]
fn learned_project_rule_is_taught_again_without_a_task() {
    let mut taught = session("first", 0, 60);
    taught.project_id = Some("admission".into());
    taught.project_name = Some("推免材料".into());
    taught.task_id = None;
    taught.task_title = None;
    taught.category = "保研".into();
    taught.summary = "预推免成果填报".into();
    taught.evidence = vec![evidence("page", "预推免成果填报"), evidence("app", "chrome.exe")];
    let learned = learn_rule_from_session(&taught, &None, &vec![], "rule-1").expect("learn rule");
    assert_eq!(learned.rule.id, "rule-1");
    assert!(!learned.merged);
    assert_eq!(learned.rule.matcher.text_of("app").as_deref(), Some("chrome"));
    let words: Vec<String> = learned
        .rule
        .matcher
        .items_of("keywords")
        .expect("keywords")
        .iter()
        .map(|item| match item {
            JsonValue::Text(word) => format!("\"{word}\""),
            _ => panic!("keywords are texts"),
        })
        .collect();
    let stored =
        format!("{{\"app\":\"chrome\",\"generation\":2,\"keywords\":[{}]}}", words.join(","));
    let rules = || {
        vec![
            rule("foreign", &stored, Some("admission"), None, "学习", &at(120)),
            rule("other", "{\"generation\":2,\"keywords\":[\"别的\"]}", Some("admission"), None, "保研", &at(90)),
            rule("rule-1", &stored, Some("admission"), Some(""), "保研", &at(60)),
            rule("copy", &stored, Some("admission"), None, "保研", &at(30)),
        ]
    };
    let older = rules_with_assignment(rules(), &taught);
    let ids: Vec<&str> = older.iter().map(|row| row.id.as_str()).collect();
    assert_eq!(ids, vec!["other", "rule-1", "copy"]);
    let again = learn_rule_from_session(&taught, &None, &older, "rule-2").expect("learn again");
    assert_eq!(again.rule.id, "rule-1");
    assert!(again.merged);
    assert!(again.duplicates.is_empty());
    assert_eq!(again.rule.matcher, learned.rule.matcher);
    let fresh = learn_rule_from_session(&taught, &Some("新的识别词".into()), &older, "rule-3")
        .expect("learn another");
    assert_eq!(fresh.rule.id, "rule-3");
    assert!(!fresh.merged);
}
