use screenuse::amend::{
    next_amend_step, pin_target, AmendPlan, AmendStep, PinTargetError,
};
use screenuse::catalog::{repair_placement, Catalog};
use screenuse::corrections::{
    apply_ai_review, correction_label, update_session, update_sessions, BatchError, UpdateError,
};
use screenuse::effects::{
    amend_memories, amend_pin, amend_rule, amend_sessions, forget_memories,
};
use screenuse::models::{
    AppSettings, CategoryOption, EvidenceItem, Project, SessionPatch, Task, WorkSession,
};
use screenuse::undo::{
    capture_session_correction_undo, create_manual_session, restore_session_correction_undo,
    undo_status, CorrectableRows, ManualError, RestoreError, UndoContextPinRow, UndoMemoryRow,
    UndoRuleRow, UndoSessionRow,
};

fn order(value: f32) -> i32 {
    let bits = value.to_bits() as i32;
    bits ^ (((bits >> 31) as u32) >> 1) as i32
}

fn value(order: i32) -> f32 {
    f32::from_bits((order ^ (((order >> 31) as u32) >> 1) as i32) as u32)
}

fn project(id: &str, name: &str, category: &str) -> Project {
    Project {
        id: id.into(),
        name: name.into(),
        category: category.into(),
        source: "manual".into(),
        color: "#000".into(),
        description: None,
        created_at: "2026-07-16T08:00:00Z".into(),
        updated_at: "2026-07-16T08:00:00Z".into(),
    }
}

fn task(id: &str, project: &str, title: &str) -> Task {
    Task {
        id: id.into(),
        project_id: project.into(),
        title: title.into(),
        status: "active".into(),
        source: "manual".into(),
        planned_due_at: None,
        created_at: "2026-07-16T08:00:00Z".into(),
        updated_at: "2026-07-16T08:00:00Z".into(),
    }
}

fn catalog() -> Catalog {
    let category = |name: &str| CategoryOption {
        name: name.into(),
        color: "#000".into(),
        is_builtin: true,
    };
    Catalog {
        categories: vec![category("开发"), category("学习"), category("杂务"), category("无效")],
        projects: vec![
            project("development", "开发项目", "开发"),
            project("study", "学习项目", "学习"),
            project("away", "离开", "无效"),
        ],
        tasks: vec![
            task("reading", "study", "阅读资料"),
            task("coding", "development", "开发"),
        ],
    }
}

fn session(id: &str) -> WorkSession {
    WorkSession {
        id: id.into(),
        started_at: "2026-07-16T10:00:00Z".into(),
        ended_at: "2026-07-16T10:10:00Z".into(),
        project_id: None,
        project_name: None,
        task_id: None,
        task_title: None,
        category: "杂务".into(),
        summary: "QQ".into(),
        confidence: order(0.5),
        evidence: vec![],
        user_confirmed: false,
        source: "context-complete".into(),
    }
}

fn patch() -> SessionPatch {
    SessionPatch {
        summary: None,
        project_id: None,
        task_id: None,
        clear_project: None,
        clear_task: None,
        category: None,
        confidence: None,
        user_confirmed: None,
    }
}

#[test]
fn session_corrections_keep_category_project_and_task_consistent() {
    let corrected = update_session(
        &session("s"),
        &SessionPatch {
            summary: Some("跨项目修正".into()),
            project_id: Some("development".into()),
            task_id: Some("reading".into()),
            clear_project: Some(false),
            clear_task: Some(false),
            category: Some("开发".into()),
            confidence: Some(order(1.2)),
            user_confirmed: Some(true),
        },
        &catalog(),
    )
    .expect("correct with task");
    assert_eq!(corrected.project_id.as_deref(), Some("study"));
    assert_eq!(corrected.task_id.as_deref(), Some("reading"));
    assert_eq!(corrected.category, "学习");
    assert_eq!(value(corrected.confidence), 1.0);
    assert_eq!(corrected.source, "manual-correction");

    let category_only = update_session(
        &corrected,
        &SessionPatch {
            clear_project: Some(false),
            clear_task: Some(false),
            category: Some("开发".into()),
            user_confirmed: Some(true),
            ..patch()
        },
        &catalog(),
    )
    .expect("change category only");
    assert_eq!(category_only.category, "开发");
    assert!(category_only.project_id.is_none());
    assert!(category_only.task_id.is_none());
}

#[test]
fn corrections_that_cannot_be_made_say_why() {
    let try_patch = |patch: SessionPatch| update_session(&session("s"), &patch, &catalog());
    assert_eq!(
        try_patch(SessionPatch { summary: Some("  ".into()), ..patch() }),
        Err(UpdateError::EmptySummary)
    );
    assert_eq!(
        try_patch(SessionPatch { category: Some("  ".into()), ..patch() }),
        Err(UpdateError::EmptyCategory)
    );
    assert_eq!(
        try_patch(SessionPatch { confidence: Some(order(f32::NAN)), ..patch() }),
        Err(UpdateError::InvalidConfidence)
    );
    assert_eq!(
        try_patch(SessionPatch { task_id: Some("none".into()), ..patch() }),
        Err(UpdateError::MissingTask)
    );
    assert_eq!(
        try_patch(SessionPatch { project_id: Some("none".into()), ..patch() }),
        Err(UpdateError::MissingProject)
    );
    assert_eq!(
        try_patch(SessionPatch { category: Some("未知".into()), ..patch() }),
        Err(UpdateError::MissingCategory("未知".into()))
    );
}

#[test]
fn multiple_selected_sessions_are_corrected_together() {
    let assigned = |id: &str| WorkSession {
        project_id: Some("study".into()),
        task_id: Some("reading".into()),
        category: "学习".into(),
        ..session(id)
    };
    let table = vec![assigned("a"), assigned("b"), assigned("c")];
    let clearing = SessionPatch {
        clear_project: Some(true),
        clear_task: Some(true),
        category: Some("杂务".into()),
        confidence: Some(order(0.98)),
        user_confirmed: Some(true),
        ..patch()
    };
    let updated = update_sessions(&table, &vec!["a".into(), "b".into()], &clearing, &catalog())
        .expect("bulk correct sessions");
    assert_eq!(updated.len(), 2);
    assert!(updated.iter().all(|session| session.category == "杂务"));
    assert!(updated.iter().all(|session| session.project_id.is_none()));
    assert!(updated.iter().all(|session| session.task_id.is_none()));
    assert!(updated.iter().all(|session| session.user_confirmed));
    assert_eq!(
        update_sessions(&table, &vec![], &clearing, &catalog()),
        Err(BatchError::Empty)
    );
    assert_eq!(
        update_sessions(&table, &vec!["a".into(), "x".into()], &clearing, &catalog()),
        Err(BatchError::Missing("x".into()))
    );
    let many: Vec<String> = (0..2000).map(|index| format!("s{index}")).collect();
    assert_eq!(
        update_sessions(&table, &many, &clearing, &catalog()),
        Err(BatchError::TooMany)
    );
    let refused = SessionPatch { summary: Some("".into()), ..patch() };
    assert_eq!(
        update_sessions(&table, &vec!["a".into()], &refused, &catalog()),
        Err(BatchError::Refused { error: UpdateError::EmptySummary, stored: vec![] })
    );
}

#[test]
fn finalized_idle_context_keeps_its_idle_source_and_rejects_ai_overwrite() {
    let settings = AppSettings::default().normalized();
    let idle = WorkSession {
        category: "无效".into(),
        summary: "离开/空闲".into(),
        project_id: Some("away".into()),
        project_name: Some("离开".into()),
        source: "collector-idle".into(),
        ..session("idle")
    };
    let after = apply_ai_review(
        &idle,
        &SessionPatch {
            summary: Some("错误工作归类".into()),
            project_id: Some("development".into()),
            task_id: Some("coding".into()),
            clear_project: Some(false),
            clear_task: Some(false),
            category: Some("开发".into()),
            confidence: Some(order(0.99)),
            user_confirmed: Some(false),
        },
        vec![],
        &settings,
        &catalog(),
    )
    .expect("ignore AI overwrite");
    assert_eq!(after.source, "collector-idle");
    assert_eq!(after.summary, "离开/空闲");
    assert!(after.task_id.is_none());
}

#[test]
fn reviews_change_unconfirmed_sessions_in_place() {
    let settings = AppSettings::default().normalized();
    let reviewed = apply_ai_review(
        &session("s"),
        &SessionPatch {
            summary: Some("沟通推免成果填报".into()),
            project_id: Some("study".into()),
            task_id: Some("reading".into()),
            clear_project: Some(false),
            clear_task: Some(false),
            category: Some("学习".into()),
            confidence: Some(order(0.93)),
            user_confirmed: Some(false),
        },
        vec![EvidenceItem {
            kind: "ai".into(),
            label: "上下文".into(),
            value: "前一时段为成果填报".into(),
            weight: order(0.9),
        }],
        &settings,
        &catalog(),
    )
    .expect("apply AI review");
    assert_eq!(reviewed.id, "s");
    assert_eq!(reviewed.project_id.as_deref(), Some("study"));
    assert_eq!(reviewed.task_id.as_deref(), Some("reading"));
    assert_eq!(reviewed.source, "ai-review");
    assert!(!reviewed.user_confirmed);
}

#[test]
fn manual_session_fills_a_gap_with_a_concrete_task() {
    let fill = SessionPatch {
        summary: Some("补录空档".into()),
        task_id: Some("coding".into()),
        category: Some("杂务".into()),
        confidence: Some(order(1.0)),
        user_confirmed: Some(true),
        ..patch()
    };
    let created = create_manual_session(
        "2026-08-16T10:00:00Z",
        "2026-08-16T10:00:20Z",
        &fill,
        &vec![session("s")],
        &catalog(),
        "new",
    )
    .expect("create manual session");
    assert_eq!(created.project_id.as_deref(), Some("development"));
    assert_eq!(created.task_id.as_deref(), Some("coding"));
    assert_eq!(created.category, "开发");
    assert_eq!(created.summary, "补录空档");
    assert_eq!(created.source, "manual-entry");
    assert!(created.user_confirmed);
    assert_eq!(created.evidence[0].value, "手动补录未记录时间");

    let table = vec![created];
    let attempt = |from: &str, to: &str, patch: &SessionPatch| {
        create_manual_session(from, to, patch, &table, &catalog(), "next")
    };
    assert_eq!(
        attempt("2026-08-16T10:00:05Z", "2026-08-16T10:00:25Z", &fill),
        Err(ManualError::Overlap)
    );
    assert_eq!(
        attempt("2026-08-16T10:00:30Z", "2026-08-16T10:00:33Z", &fill),
        Err(ManualError::TooShort)
    );
    assert_eq!(attempt("x", "2026-08-16T10:00:33Z", &fill), Err(ManualError::InvalidStart));
    assert_eq!(attempt("2026-08-16T10:00:30Z", "x", &fill), Err(ManualError::InvalidEnd));
    assert_eq!(
        attempt("2026-08-16T11:00:00Z", "2026-08-16T11:10:00Z", &patch()),
        Err(ManualError::NoTask)
    );
    let unknown = SessionPatch { task_id: Some("none".into()), ..patch() };
    assert_eq!(
        attempt("2026-08-16T11:00:00Z", "2026-08-16T11:10:00Z", &unknown),
        Err(ManualError::MissingTask)
    );
    let broken = SessionPatch { confidence: Some(order(f32::INFINITY)), ..fill.copy() };
    assert_eq!(
        attempt("2026-08-16T11:00:00Z", "2026-08-16T11:10:00Z", &broken),
        Err(ManualError::InvalidConfidence)
    );
}

fn row(id: &str, summary: &str) -> UndoSessionRow {
    UndoSessionRow {
        id: id.into(),
        started_at: "2026-07-16T10:00:00Z".into(),
        ended_at: "2026-07-16T10:10:00Z".into(),
        project_id: None,
        task_id: None,
        category: "杂务".into(),
        summary: summary.into(),
        confidence: order(0.5),
        evidence_json: "[]".into(),
        user_confirmed: false,
        source: "context-complete".into(),
        updated_at: "2026-07-16T10:10:00Z".into(),
    }
}

fn rule(id: &str) -> UndoRuleRow {
    UndoRuleRow {
        id: id.into(),
        name: "r".into(),
        priority: 90,
        matcher_json: "{}".into(),
        project_id: None,
        task_id: None,
        category: "杂务".into(),
        created_from_correction: true,
        enabled: true,
        updated_at: "2026-07-16T10:10:00Z".into(),
    }
}

fn memory(id: &str) -> UndoMemoryRow {
    UndoMemoryRow {
        session_id: id.into(),
        features_json: "{}".into(),
        category: "杂务".into(),
        project_id: "study".into(),
        task_id: "reading".into(),
        confirmed_at: "2026-07-16T10:10:00Z".into(),
        last_used_at: None,
        use_count: 0,
    }
}

#[test]
fn one_correction_changes_only_the_selected_session_and_can_be_undone() {
    let before = CorrectableRows {
        sessions: vec![row("selected", "QQ"), row("untouched", "微信")],
        rules: vec![rule("older")],
        memories: vec![memory("untouched")],
        context_pin: None,
    };
    let snapshot = capture_session_correction_undo(
        &before,
        &vec!["selected".into()],
        "修正“QQ”".into(),
        "2026-07-16T11:00:00Z".into(),
    )
    .expect("note the correction");
    assert!(undo_status(&Some(snapshot_copy(&before))).available);
    assert!(!undo_status(&None).available);
    let mut changed = session("selected");
    changed.summary = "浪费".into();
    changed.source = "manual-correction".into();
    let steps = amend_sessions(copied(&before), &vec![changed], "2026-07-16T11:00:00Z");
    assert_eq!(steps.sessions[0].summary, "浪费");
    assert_eq!(steps.sessions[0].updated_at, "2026-07-16T11:00:00Z");
    assert_eq!(steps.sessions[0].started_at, before.sessions[0].started_at);
    assert_eq!(steps.sessions[1], before.sessions[1]);
    let ids = vec!["selected".to_string()];
    let steps = amend_memories(steps, &ids, &vec![memory("selected")]).expect("remember");
    let steps = amend_rule(steps, rule("learned"), &vec!["older".into()]).expect("learn");
    assert_eq!(steps.rules, vec![rule("learned")]);
    let pin = UndoContextPinRow {
        project_id: "study".into(),
        task_id: None,
        expires_at: "2026-07-16T12:00:00Z".into(),
    };
    let steps = amend_pin(steps, pin);
    assert!(steps.context_pin.is_some());
    assert_eq!(restore_session_correction_undo(&steps, &snapshot).expect("undo steps"), before);
    let corrected = CorrectableRows {
        sessions: vec![row("selected", "浪费"), row("untouched", "微信")],
        rules: vec![rule("older"), rule("learned")],
        memories: vec![memory("untouched"), memory("selected")],
        context_pin: Some(UndoContextPinRow {
            project_id: "study".into(),
            task_id: None,
            expires_at: "2026-07-16T12:00:00Z".into(),
        }),
    };
    let restored = restore_session_correction_undo(&corrected, &snapshot).expect("undo");
    assert_eq!(restored, before);
}

fn copied(rows: &CorrectableRows) -> CorrectableRows {
    CorrectableRows {
        sessions: rows.sessions.iter().map(|row| row.copy()).collect(),
        rules: rows.rules.iter().map(|row| row.copy()).collect(),
        memories: rows.memories.iter().map(|row| row.copy()).collect(),
        context_pin: rows.context_pin.as_ref().map(|pin| pin.copy()),
    }
}

#[test]
fn steps_of_a_correction_refuse_keys_that_exist_twice() {
    let rows = || CorrectableRows {
        sessions: vec![],
        rules: vec![UndoRuleRow { created_from_correction: false, ..rule("standing") }],
        memories: vec![memory("a"), memory("b")],
        context_pin: None,
    };
    assert_eq!(amend_rule(rows(), rule("standing"), &vec![]), None);
    assert_eq!(amend_memories(rows(), &vec!["a".into()], &vec![memory("b")]), None);
    let left = forget_memories(rows(), &vec!["a".into()]);
    assert_eq!(left.memories, vec![memory("b")]);
}

#[test]
fn sessions_before_a_refused_one_are_changed() {
    let mut broken = session("b");
    broken.confidence = order(f32::NAN);
    let table = vec![session("a"), broken];
    let renaming = SessionPatch { summary: Some("改名".into()), ..patch() };
    match update_sessions(&table, &vec!["a".into(), "b".into()], &renaming, &catalog()) {
        Err(BatchError::Refused { error, stored }) => {
            assert_eq!(error, UpdateError::InvalidConfidence);
            assert_eq!(stored.len(), 1);
            assert_eq!(stored[0].id, "a");
            assert_eq!(stored[0].summary, "改名");
        }
        other => panic!("unexpected outcome: {other:?}"),
    }
}

fn snapshot_copy(rows: &CorrectableRows) -> screenuse::undo::SessionCorrectionUndo {
    capture_session_correction_undo(rows, &vec![], "l".into(), "t".into()).expect("note nothing")
}

#[test]
fn unknown_sessions_cannot_be_noted() {
    let rows = CorrectableRows {
        sessions: vec![row("a", "x")],
        rules: vec![],
        memories: vec![],
        context_pin: None,
    };
    let noted = capture_session_correction_undo(&rows, &vec!["b".into()], "l".into(), "t".into());
    assert_eq!(noted, Err("b".to_string()));
}

#[test]
fn restoring_refuses_keys_that_exist_twice() {
    let rows = CorrectableRows {
        sessions: vec![row("a", "x")],
        rules: vec![],
        memories: vec![],
        context_pin: None,
    };
    let mut snapshot = capture_session_correction_undo(&rows, &vec!["a".into()], "l".into(), "t".into())
        .expect("note");
    snapshot.correction_rules = vec![rule("r"), rule("r")];
    assert_eq!(
        restore_session_correction_undo(&rows, &snapshot),
        Err(RestoreError::DuplicateRule)
    );
    snapshot.correction_rules = vec![];
    snapshot.memories = vec![memory("a"), memory("a")];
    assert_eq!(
        restore_session_correction_undo(&rows, &snapshot),
        Err(RestoreError::DuplicateMemory)
    );
}

#[test]
fn corrections_are_named_by_what_they_change() {
    assert_eq!(correction_label(3, &None), "统一修正 3 个时间段");
    assert_eq!(correction_label(1, &None), "修正“时间段”");
    assert_eq!(
        correction_label(1, &Some("长".repeat(40))),
        format!("修正“{}”", "长".repeat(32))
    );
}

#[test]
fn failing_steps_take_the_correction_back() {
    let plan = AmendPlan { learn: true, pin: true, changed: 2 };
    let mut step = AmendStep::Update;
    let mut seen = vec![];
    while step != AmendStep::Stand {
        seen.push(step);
        step = next_amend_step(step, true, plan);
    }
    assert_eq!(
        seen,
        vec![
            AmendStep::Update,
            AmendStep::Remember,
            AmendStep::Learn { index: 0 },
            AmendStep::Learn { index: 1 },
            AmendStep::Pin,
            AmendStep::Save,
        ]
    );
    for failing in seen {
        assert_eq!(next_amend_step(failing, false, plan), AmendStep::TakeBack);
    }
    assert_eq!(next_amend_step(AmendStep::TakeBack, true, plan), AmendStep::Failed);
    let plain = AmendPlan { learn: false, pin: false, changed: 2 };
    assert_eq!(next_amend_step(AmendStep::Remember, true, plain), AmendStep::Save);
}

#[test]
fn the_first_session_is_pinned() {
    assert_eq!(pin_target(&vec![]), Err(PinTargetError::NoSession));
    assert_eq!(pin_target(&vec![session("a")]), Err(PinTargetError::NoProject));
    let assigned = WorkSession {
        project_id: Some("study".into()),
        task_id: Some("reading".into()),
        ..session("a")
    };
    assert_eq!(
        pin_target(&vec![assigned, session("b")]),
        Ok(("study".to_string(), Some("reading".to_string())))
    );
}

#[test]
fn placements_follow_the_task() {
    let mut wrong = WorkSession {
        project_id: Some("development".into()),
        task_id: Some("reading".into()),
        category: "开发".into(),
        ..session("a")
    };
    assert!(repair_placement(&catalog(), &mut wrong));
    assert_eq!(wrong.project_id.as_deref(), Some("study"));
    assert_eq!(wrong.category, "学习");
    assert!(!repair_placement(&catalog(), &mut wrong));
}
