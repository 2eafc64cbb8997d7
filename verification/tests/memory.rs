use screenuse::json::{parse, JsonValue};
use screenuse::memory::{
    assignment_key, build_features, canonical_context, canonical_path, clear_legacy_process_file,
    count_votes, decision_from, domain_from_url, features_from_event, features_from_session,
    features_from_session_evidence, group_by_assignment, is_cjk, is_discriminative, is_generic,
    leaders, normalize, pick_examples, rank, set_overlap, shortlist, similarity, strongest_label,
    text_tokens, verdict, ContextFeatures, MatchScore, MemoryDecision, MemoryRecord, Overlap,
    SimilarityProfile, TextMatch, Vote,
};
use screenuse::models::{EvidenceItem, InputStats, RawActivityEvent, WorkSession};

fn order(value: f32) -> i32 {
    let bits = value.to_bits() as i32;
    bits ^ (((bits >> 31) as u32) >> 1) as i32
}

fn value(order: i32) -> f32 {
    f32::from_bits((order ^ (((order >> 31) as u32) >> 1) as i32) as u32)
}

fn stats() -> InputStats {
    InputStats {
        idle_seconds: 0,
        keyboard_events: 0,
        mouse_clicks: 0,
        scroll_ticks: 0,
        shortcut_events: vec![],
    }
}

fn event(app: &str, page: &str) -> RawActivityEvent {
    RawActivityEvent {
        id: "event".into(),
        source: "test".into(),
        timestamp: "2026-07-15T10:00:00Z".into(),
        app: Some(app.into()),
        window_title: Some(page.into()),
        url: None,
        file_path: None,
        workspace: None,
        input_stats: stats(),
        metadata: JsonValue::Object(vec![(
            "activePageTitle".to_string(),
            JsonValue::Text(page.into()),
        )]),
    }
}

fn record(id: &str, app: &str, page: &str, task: &str) -> MemoryRecord {
    MemoryRecord {
        session_id: id.into(),
        features: features_from_event(&event(app, page)),
        category: "学习".into(),
        project_id: "research".into(),
        project_name: "科研".into(),
        task_id: task.into(),
        task_title: task.into(),
        confirmed_at: "2026-07-15T10:00:00Z".into(),
        user_confirmed: true,
    }
}

fn share(overlap: &Overlap) -> f32 {
    if overlap.total == 0 {
        0.0
    } else {
        (2.0 * overlap.shared as f32) / overlap.total as f32
    }
}

fn agreement(found: &TextMatch, exact: f32, partial: f32) -> f32 {
    match found {
        TextMatch::Exact => exact,
        TextMatch::Partial(overlap) => partial * share(overlap),
    }
}

fn score_of(profile: &SimilarityProfile) -> MatchScore {
    let mut score = 0.0_f32;
    score += agreement(&profile.page, 0.58, 0.30);
    score += agreement(&profile.workspace, 0.36, 0.16);
    score += agreement(&profile.file, 0.34, 0.14);
    if profile.domain_exact {
        score += 0.28;
    }
    score += agreement(&profile.window, 0.38, 0.15);
    if profile.app_exact {
        score += 0.08;
    }
    score += 0.26 * share(&profile.tokens);
    MatchScore {
        score: order(score.min(1.0)),
        strong: profile.strong,
    }
}

fn choose_assignment(
    query: &ContextFeatures,
    records: &Vec<MemoryRecord>,
) -> Option<MemoryDecision> {
    let scores: Vec<MatchScore> = records
        .iter()
        .map(|record| score_of(&similarity(query, &record.features)))
        .collect();
    let order_of = shortlist(query, records, &scores);
    let groups = group_by_assignment(records, &order_of);
    let votes = count_votes(&groups, &order_of, &scores);
    let mut totals = vec![0.0_f32; votes.len()];
    for (position, index) in order_of.iter().enumerate() {
        let decay = match position {
            0 => 1.0,
            1 => 0.55,
            2 => 0.38,
            _ => 0.24,
        };
        totals[groups[position]] += value(scores[*index].score) * decay;
    }
    let ranked: Vec<i32> = totals.iter().map(|total| order(*total)).collect();
    let (winner, runner_up) = leaders(&votes, &ranked)?;
    let margin = match runner_up {
        Some(second) => totals[winner] - totals[second],
        None => totals[winner],
    };
    let close = match runner_up {
        Some(second) => value(votes[second].best) >= value(votes[winner].best) - 0.04,
        None => false,
    };
    let second = runner_up.map(|index| copy_vote(&votes[index]));
    let confidence = verdict(copy_vote(&votes[winner]), second, close, order(margin))?;
    let first = order_of[votes[winner].first];
    Some(decision_from(
        query,
        &records[first],
        confidence,
        votes[winner].support,
    ))
}

fn copy_vote(vote: &Vote) -> Vote {
    Vote {
        first: vote.first,
        best: vote.best,
        strong: vote.strong,
        support: vote.support,
    }
}

fn features() -> ContextFeatures {
    ContextFeatures {
        app: String::new(),
        page: String::new(),
        window: String::new(),
        domain: String::new(),
        workspace: String::new(),
        file: String::new(),
        tokens: vec![],
    }
}

#[test]
fn exact_personal_page_memory_works_across_apps() {
    let query = features_from_event(&event("wps.exe", "预推免成果填报"));
    let decision = choose_assignment(
        &query,
        &vec![record("one", "chrome.exe", "预推免成果填报", "成果填报")],
    )
    .expect("exact page should be remembered");
    assert_eq!(decision.task_id, "成果填报");
    assert!(value(decision.confidence) >= 0.88);
    assert_eq!(decision.memory_session_id, "one");
    assert_eq!(decision.support, 1);
}

#[test]
fn generic_application_title_never_becomes_a_task_memory() {
    let query = features_from_event(&event("ChatGPT.exe", "ChatGPT"));
    assert!(!is_discriminative(&query));
    assert!(choose_assignment(
        &query,
        &vec![record("one", "ChatGPT.exe", "ChatGPT", "ScreenUse")]
    )
    .is_none());
}

#[test]
fn conflicting_exact_memories_abstain() {
    let query = features_from_event(&event("WeMeetApp.exe", "申书豪预定的会议"));
    assert!(choose_assignment(
        &query,
        &vec![
            record("one", "WeMeetApp.exe", "申书豪预定的会议", "IOT"),
            record("two", "WeMeetApp.exe", "申书豪预定的会议", "校内实习"),
        ],
    )
    .is_none());
}

#[test]
fn canonicalizes_browser_and_explorer_chrome() {
    assert_eq!(canonical_context("ICPC训练 - Google Chrome"), "icpc训练");
    assert_eq!(canonical_context("ICPC训练 - Google Chrome"), canonical_context("ICPC训练"));
    assert_eq!(canonical_context("ICPC训练"), canonical_context("icpc训练"));
    assert_eq!(
        canonical_context("保研 和 3 个其他选项卡 - 文件资源管理器"),
        "保研"
    );
    assert!(canonical_context("ChatGPT - Google Chrome").is_empty());
}

#[test]
fn clears_only_a_process_executable_masquerading_as_the_active_file() {
    let mut polluted = ContextFeatures {
        app: "screenuse".into(),
        page: "时间轴".into(),
        file: "users/me/screenuse.exe".into(),
        tokens: vec!["screenuse".into(), "时间".into()],
        ..features()
    };
    assert!(clear_legacy_process_file(&mut polluted));
    let once = polluted.copy();
    assert!(!clear_legacy_process_file(&mut polluted));
    assert_eq!(polluted, once);
    assert!(polluted.file.is_empty());
    assert!(!polluted.tokens.iter().any(|token| token == "screenuse"));

    let mut binary = ContextFeatures {
        app: "ida".into(),
        file: "ctf/challenge.exe".into(),
        ..features()
    };
    assert!(!clear_legacy_process_file(&mut binary));
    assert_eq!(binary.file, "ctf/challenge.exe");
}

#[test]
fn two_agreeing_memories_are_trusted_most() {
    let query = features_from_event(&event("wps.exe", "预推免成果填报"));
    let decision = choose_assignment(
        &query,
        &vec![
            record("one", "wps.exe", "预推免成果填报", "成果填报"),
            record("two", "wps.exe", "预推免成果填报", "成果填报"),
        ],
    )
    .expect("two memories agree");
    assert_eq!(value(decision.confidence), 0.95);
    assert_eq!(decision.support, 2);
}

#[test]
fn tokens_are_words_and_pairs_of_ideographs() {
    assert!(text_tokens("").is_empty());
    let tokens = text_tokens("icpc 训练营");
    assert!(tokens.iter().any(|token| token == "icpc"));
    assert!(tokens.iter().any(|token| token == "训练"));
    assert!(tokens.iter().any(|token| token == "练营"));
    let mut sorted = tokens.iter().map(|token| token.as_str()).collect::<Vec<_>>();
    sorted.sort_unstable();
    sorted.dedup();
    assert_eq!(sorted.len(), tokens.len());
}

#[test]
fn ideographs_are_recognised_at_the_edges_of_their_ranges() {
    assert!(is_cjk('\u{3400}') && is_cjk('\u{4DBF}'));
    assert!(is_cjk('\u{4E00}') && is_cjk('\u{9FFF}'));
    assert!(is_cjk('\u{F900}') && is_cjk('\u{FAFF}'));
    assert!(!is_cjk('\u{33FF}') && !is_cjk('a') && !is_cjk('\u{FB00}'));
}

#[test]
fn domains_and_paths_are_brought_to_one_form() {
    assert_eq!(
        domain_from_url("https://user@www.GitHub.com:443/ShallowForeverDream"),
        "github.com"
    );
    assert_eq!(domain_from_url(""), "");
    assert_eq!(
        canonical_path("C:\\Users\\Me\\Thesis.docx"),
        canonical_path("c:/users/me/thesis.docx")
    );
    assert_eq!(normalize("  Hello   WORLD "), "hello world");
    assert!(is_generic("chatgpt"));
    assert!(!is_generic("icpc训练"));
}

#[test]
fn overlaps_count_shared_and_all_tokens() {
    let left = vec!["a".to_string(), "b".to_string(), "b".to_string()];
    let right = vec!["b".to_string(), "c".to_string(), "d".to_string()];
    let overlap = set_overlap(&left, &right);
    assert_eq!(overlap.shared, 1);
    assert_eq!(overlap.total, 5);
}

#[test]
fn features_of_a_session_come_from_its_evidence() {
    let session = WorkSession {
        id: "s".into(),
        started_at: "2026-07-15T10:00:00Z".into(),
        ended_at: "2026-07-15T10:05:00Z".into(),
        project_id: None,
        project_name: None,
        task_id: None,
        task_title: None,
        category: "学习".into(),
        summary: "成果填报".into(),
        confidence: order(0.5),
        evidence: vec![
            EvidenceItem {
                kind: "page".into(),
                label: "当前页面".into(),
                value: "预推免成果填报".into(),
                weight: order(0.95),
            },
            EvidenceItem {
                kind: "app".into(),
                label: "应用".into(),
                value: "chrome.exe".into(),
                weight: order(0.5),
            },
        ],
        user_confirmed: true,
        source: "manual-correction".into(),
    };
    let features = features_from_session_evidence(&session);
    assert_eq!(features.app, "chrome");
    assert_eq!(features.page, "预推免成果填报");
    assert!(is_discriminative(&features));
    let from_events = features_from_session(&session, &[event("chrome.exe", "预推免成果填报")]);
    assert_eq!(from_events.page, features.page);
    assert_eq!(strongest_label(&features, &from_events), "当前页面：预推免成果填报");
}

#[test]
fn examples_show_each_assignment_once_and_best_first() {
    let records = vec![
        record("one", "wps.exe", "甲乙丙丁", "a"),
        record("two", "wps.exe", "甲乙丙丁", "a"),
        record("three", "wps.exe", "戊己庚辛", "b"),
        record("four", "wps.exe", "壬癸子丑", "c"),
    ];
    let scores = vec![
        MatchScore { score: order(0.5), strong: false },
        MatchScore { score: order(0.9), strong: true },
        MatchScore { score: order(0.7), strong: false },
        MatchScore { score: order(0.1), strong: false },
    ];
    assert_eq!(pick_examples(&records, &scores, 5, 0), vec![1, 2]);
    assert_eq!(pick_examples(&records, &scores, 1, 0), vec![1]);
    let wanted = vec![true, true, false, true];
    assert_eq!(rank(&records, &scores, &wanted, 2), vec![1, 0]);
    assert_ne!(assignment_key(&records[0]), assignment_key(&records[2]));
    assert_eq!(assignment_key(&records[0]), assignment_key(&records[1]));
}

#[test]
fn features_are_the_same_for_equal_contexts() {
    let left = build_features("QQ.exe", "群聊", "QQ", "", "", "");
    let right = build_features("QQ.exe", "群聊", "QQ", "", "", "");
    assert_eq!(left, right);
    assert_eq!(left.app, "qq");
}

#[test]
fn metadata_is_read_from_json() {
    let metadata = parse("{\"activePageTitle\":\"文献\"}").expect("json");
    let mut observed = event("chrome.exe", "x");
    observed.metadata = metadata;
    assert_eq!(features_from_event(&observed).page, "文献");
}

#[test]
fn three_consistent_ai_reviews_become_a_low_trust_local_memory() {
    let reviewed = |id: &str, app: &str| MemoryRecord {
        user_confirmed: false,
        ..record(id, app, "申书豪材料群", "成果填报")
    };
    let query = features_from_event(&event("chrome.exe", "申书豪材料群"));
    assert!(choose_assignment(&query, &vec![reviewed("a", "ChatGPT.exe")]).is_none());
    let two = vec![reviewed("a", "ChatGPT.exe"), reviewed("b", "wps.exe")];
    assert!(choose_assignment(&query, &two).is_none());
    let three = vec![
        reviewed("a", "ChatGPT.exe"),
        reviewed("b", "wps.exe"),
        reviewed("c", "QQ.exe"),
    ];
    let learned = choose_assignment(&query, &three).expect("three reviews agree");
    assert_eq!(learned.task_id, "成果填报");
    assert_eq!(learned.support, 3);
}

#[test]
fn an_unconfirmed_memory_does_not_disturb_a_confirmed_one() {
    let query = features_from_event(&event("chrome.exe", "申书豪材料群"));
    let mut other = record("x", "chrome.exe", "申书豪材料群", "会议");
    other.user_confirmed = false;
    let records = vec![record("a", "chrome.exe", "申书豪材料群", "成果填报"), other];
    let decision = choose_assignment(&query, &records).expect("the confirmed one decides");
    assert_eq!(decision.task_id, "成果填报");
}

#[test]
fn contexts_are_alike_both_ways() {
    let left = build_features("QQ.exe", "推免 成果填报", "QQ", "", "", "");
    let right = build_features("chrome.exe", "成果填报 材料", "QQ", "", "", "");
    assert_eq!(similarity(&left, &right), similarity(&right, &left));
    assert!(!similarity(&left, &right).strong);
    assert!(similarity(&left, &left).strong);
}
