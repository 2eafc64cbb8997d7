use screenuse::attribution::is_pin_active;
use screenuse::clock::Moment;
use screenuse::hierarchy::{
    configure_idle_target, create_category, create_project, create_task, delete_category,
    delete_project, delete_task, ensure_default_categories, pin_context, record_tombstone,
    rename_category, update_project, upsert_project_by_name, upsert_task_by_title, HierarchyError,
};
use screenuse::json::JsonValue;
use screenuse::labels::{
    clean_name, color_for_category, context_assignment_key, context_memory_keyword,
    custom_category_color, is_auto_session_source, is_context_memory_noise,
    is_generic_context_label, is_screenshot_overlay_title, is_task_overlay_app_name,
    is_transient_summary, preferred_coalesced_summary,
};
use screenuse::ledger::Ledger;
use screenuse::models::{AppSettings, AttributionRule, Project, Task, WorkSession};
use screenuse::sync::{SyncCategory, SyncRule, SyncSession};

const AT: &str = "2026-07-16T12:00:00Z";

fn category(name: &str) -> SyncCategory {
    SyncCategory {
        name: name.into(),
        color: format!("#{}", name.len()),
        is_builtin: true,
        created_at: "2026-07-16T08:00:00Z".into(),
        updated_at: "2026-07-16T08:00:00Z".into(),
    }
}

fn project(id: &str, name: &str, category: &str) -> Project {
    Project {
        id: id.into(),
        name: name.into(),
        category: category.into(),
        source: "manual".into(),
        color: "#000".into(),
        description: None,
        created_at: "2026-07-16T08:00:00Z".into(),
        updated_at: "2026-07-16T08:00:00Z".into(),
    }
}

fn task(id: &str, project: &str, title: &str) -> Task {
    Task {
        id: id.into(),
        project_id: project.into(),
        title: title.into(),
        status: "active".into(),
        source: "manual".into(),
        planned_due_at: None,
        created_at: "2026-07-16T08:00:00Z".into(),
        updated_at: "2026-07-16T08:00:00Z".into(),
    }
}

fn session(id: &str, project: &str, task: &str, category: &str) -> SyncSession {
    SyncSession {
        session: WorkSession {
            id: id.into(),
            started_at: "2026-07-16T10:00:00Z".into(),
            ended_at: "2026-07-16T10:10:00Z".into(),
            project_id: Some(project.into()),
            project_name: None,
            task_id: Some(task.into()),
            task_title: None,
            category: category.into(),
            summary: "s".into(),
            confidence: 0x3F000000,
            evidence: vec![],
            user_confirmed: false,
            source: "context-complete".into(),
        },
        updated_at: "2026-07-16T10:10:00Z".into(),
    }
}

fn records() -> Ledger {
    Ledger {
        categories: vec![category("开发"), category("学习"), category("杂务"), category("无效")],
        projects: vec![
            project("old", "旧项目", "杂务"),
            project("screenuse", "ScreenUse 开发", "开发"),
        ],
        tasks: vec![task("report", "old", "成果填报")],
        sessions: vec![session("s", "old", "report", "杂务")],
        rules: vec![SyncRule {
            rule: AttributionRule {
                id: "move-project-rule".into(),
                name: "成果填报".into(),
                priority: 100,
                matcher: JsonValue::Object(vec![]),
                project_id: Some("old".into()),
                task_id: Some("report".into()),
                category: "杂务".into(),
                created_from_correction: true,
                enabled: true,
            },
            updated_at: "2026-07-16T10:10:00Z".into(),
        }],
        tombstones: vec![],
        sleep_debt_started_on: None,
    }
}

fn settings() -> AppSettings {
    AppSettings::default().normalized()
}

#[test]
fn deleting_a_project_unassigns_its_sessions_and_tasks() {
    let after = delete_project(records(), "old", AT).expect("delete project");
    assert!(after.sessions[0].session.project_id.is_none());
    assert!(after.sessions[0].session.task_id.is_none());
    assert!(!after.projects.iter().any(|item| item.id == "old"));
    assert!(after.tasks.is_empty());
    assert!(after
        .tombstones
        .iter()
        .any(|item| item.entity_kind == "project" && item.entity_id == "old"));
    assert_eq!(delete_project(records(), "none", AT), Err(HierarchyError::MissingProject));
}

#[test]
fn updating_a_project_renames_it_and_moves_related_assignments() {
    let mut before = records();
    before.categories.push(category("保研"));
    let done = update_project(before, settings(), "old", "预推免", "保研", AT).expect("update project");
    assert_eq!(done.project.name, "预推免");
    assert_eq!(done.project.category, "保研");
    assert_eq!(done.project.color, category("保研").color);
    let session = &done.ledger.sessions[0].session;
    assert_eq!(session.project_id.as_deref(), Some("old"));
    assert_eq!(session.task_id.as_deref(), Some("report"));
    assert_eq!(session.category, "保研");
    assert_eq!(done.ledger.rules[0].rule.category, "保研");

    let mut taken = done.ledger;
    taken.projects.push(project("other", "重复项目", "保研"));
    assert!(update_project(taken, settings(), "old", "重复项目", "保研", AT).is_err());
}

#[test]
fn custom_categories_and_tasks_can_be_created_and_removed() {
    let mut ledger = records();
    let made = create_category(&ledger.categories, "竞赛", AT).expect("create category");
    assert_eq!(made.color, custom_category_color("竞赛"));
    assert!(!made.is_builtin);
    ledger.categories.push(made);
    assert_eq!(
        create_category(&ledger.categories, "竞赛", AT),
        Err(HierarchyError::DuplicateCategory)
    );
    assert_eq!(create_category(&ledger.categories, "  ", AT), Err(HierarchyError::EmptyName));
    let icpc = create_project(&ledger, "ICPC", "竞赛", "icpc".into(), AT).expect("create project");
    assert!(icpc.description.is_none());
    ledger.projects.push(icpc);
    let site = create_task(&ledger, "icpc", "网站开发", "site".into(), AT).expect("create task");
    ledger.tasks.push(site);
    let ledger = delete_task(ledger, "site", AT).expect("delete task");
    assert!(!ledger.tasks.iter().any(|item| item.id == "site"));
    let (ledger, fallback) = delete_category(ledger, settings(), "竞赛", AT).expect("delete category");
    let moved = ledger.projects.iter().find(|item| item.id == "icpc").expect("project remains");
    assert_eq!(moved.category, fallback);
    assert_eq!(delete_task(ledger, "site", AT), Err(HierarchyError::MissingTask));
}

#[test]
fn builtin_categories_can_be_renamed_and_deleted_durably() {
    let done = rename_category(records(), settings(), "开发", "编程", AT).expect("rename builtin category");
    assert_eq!(done.category.name, "编程");
    assert!(done.category.is_builtin);
    assert!(done
        .ledger
        .projects
        .iter()
        .any(|item| item.name == "ScreenUse 开发" && item.category == "编程"));

    assert!(rename_category(records(), settings(), "离开", "休息", AT).is_err());
    assert!(delete_category(records(), settings(), "离开", AT).is_err());
    let (ledger, fallback) = delete_category(done.ledger, settings(), "学习", AT).expect("delete builtin category");
    assert_ne!(fallback, "学习");
    assert_ne!(fallback, "离开");
    let mut defaults = ledger.categories;
    let names: Vec<String> = ["开发", "学习", "杂务"].iter().map(|name| name.to_string()).collect();
    ensure_default_categories(&mut defaults, &ledger.tombstones, &names, AT);
    assert!(defaults.iter().any(|item| item.name == "编程"));
    assert!(!defaults.iter().any(|item| item.name == "开发"));
    assert!(!defaults.iter().any(|item| item.name == "学习"));
}

#[test]
fn the_category_of_time_away_is_renamed_in_the_settings_and_never_deleted() {
    assert_eq!(
        delete_category(records(), settings(), "无效", AT),
        Err(HierarchyError::IdleCategory)
    );
    let renamed = rename_category(records(), settings(), "无效", "休息", AT).expect("rename");
    assert_eq!(renamed.settings.map(|item| item.idle_category), Some("休息".to_string()));
    assert_eq!(
        rename_category(records(), settings(), "没有", "x", AT),
        Err(HierarchyError::MissingCategory)
    );
    assert_eq!(
        rename_category(records(), settings(), "开发", "学习", AT),
        Err(HierarchyError::DuplicateCategory)
    );
}

#[test]
fn same_names_are_scoped_by_category_and_project() {
    let mut ledger = records();
    ledger.categories.push(category("分类甲"));
    ledger.categories.push(category("分类乙"));
    let first = create_project(&ledger, "同名项目", "分类甲", "one".into(), AT).expect("create first project");
    ledger.projects.push(first);
    let second = create_project(&ledger, "同名项目", "分类乙", "two".into(), AT).expect("create second project");
    ledger.projects.push(second);
    assert_eq!(
        create_project(&ledger, "同名项目", "分类甲", "three".into(), AT),
        Err(HierarchyError::DuplicateProject)
    );
    let first = create_task(&ledger, "one", "同名任务", "t1".into(), AT).expect("create first task");
    ledger.tasks.push(first);
    let second = create_task(&ledger, "two", "同名任务", "t2".into(), AT).expect("create second task");
    ledger.tasks.push(second);
    assert_eq!(
        create_task(&ledger, "one", "同名任务", "t3".into(), AT),
        Err(HierarchyError::DuplicateTask)
    );
    assert_eq!(
        create_task(&ledger, "none", "x", "t4".into(), AT),
        Err(HierarchyError::MissingProject)
    );
    assert_eq!(
        create_project(&ledger, "x", "没有", "p".into(), AT),
        Err(HierarchyError::UnknownCategory)
    );
}

#[test]
fn pins_last_for_a_bounded_time() {
    let now = Moment { seconds: 1_784_203_200, nanos: 0 };
    let pin = pin_context(&records(), "old", &Some("report".into()), 30, now).expect("pin context");
    assert_eq!(pin.project_name, "旧项目");
    assert_eq!(pin.task_title.as_deref(), Some("成果填报"));
    assert_eq!(pin.expires_at, "2026-07-16T12:30:00Z");
    assert!(is_pin_active(&pin, Moment { seconds: now.seconds + 1799, nanos: 0 }));
    assert!(!is_pin_active(&pin, Moment { seconds: now.seconds + 1800, nanos: 0 }));
    let short = pin_context(&records(), "old", &None, 0, now).expect("shortest");
    assert_eq!(short.expires_at, "2026-07-16T12:05:00Z");
    let long = pin_context(&records(), "old", &None, 100_000, now).expect("longest");
    assert_eq!(long.expires_at, "2026-07-16T16:00:00Z");
    assert_eq!(
        pin_context(&records(), "none", &None, 30, now),
        Err(HierarchyError::MissingProject)
    );
    assert_eq!(
        pin_context(&records(), "screenuse", &Some("report".into()), 30, now),
        Err(HierarchyError::ForeignTask)
    );
}

#[test]
fn time_away_has_its_own_project() {
    let mut away = session("away", "old", "report", "杂务");
    away.session.source = "collector-idle".into();
    away.session.summary = "离开/空闲".into();
    let mut before = records();
    before.sessions.push(away);
    let (after, id) = configure_idle_target(before, settings(), "fresh", AT);
    assert_eq!(id, "fresh");
    let made = after.projects.iter().find(|item| item.id == id).expect("project");
    assert_eq!(made.name, "离开");
    assert_eq!(made.category, "无效");
    let moved = &after.sessions[1].session;
    assert_eq!(moved.project_id.as_deref(), Some("fresh"));
    assert_eq!(moved.category, "无效");
    assert!(moved.task_id.is_none());
    assert_eq!(after.sessions[0].session.project_id.as_deref(), Some("old"));
}

#[test]
fn projects_and_tasks_are_found_before_they_are_made() {
    let mut ledger = records();
    let found = upsert_project_by_name(&mut ledger, "旧项目", "杂务", "manual", "fresh", AT);
    assert_eq!(found, "old");
    assert_eq!(ledger.projects.len(), 2);
    let made = upsert_project_by_name(&mut ledger, "新项目", "杂务", "manual", "fresh", AT);
    assert_eq!(made, "fresh");
    assert_eq!(ledger.projects.len(), 3);
    let task = upsert_task_by_title(&mut ledger, "old", "成果填报", "manual", "t", AT);
    assert_eq!(task.as_deref(), Some("report"));
    let task = upsert_task_by_title(&mut ledger, "old", "临时任务", "manual", "t", AT);
    assert_eq!(task.as_deref(), Some("t"));
    assert_eq!(upsert_task_by_title(&mut ledger, "none", "x", "manual", "u", AT), None);
}

#[test]
fn tombstones_keep_the_latest_deletion() {
    let mut list = vec![];
    record_tombstone(&mut list, "task", "a", "2026-07-16T12:00:00Z");
    record_tombstone(&mut list, "task", "a", "2026-07-16T13:00:00Z");
    record_tombstone(&mut list, "rule", "a", "2026-07-16T13:00:00Z");
    assert_eq!(list.len(), 2);
    assert_eq!(list[0].deleted_at, "2026-07-16T13:00:00Z");
    record_tombstone(&mut list, "a", "b:c", "2026-07-16T13:00:00Z");
    record_tombstone(&mut list, "a:b", "c", "2026-07-16T13:00:00Z");
    assert_eq!(list.len(), 4);
}

#[test]
fn labels_are_recognised() {
    assert_eq!(clean_name("  名称  ", "备用"), "名称");
    assert_eq!(clean_name("  ", "备用"), "备用");
    assert!(is_context_memory_noise("任务切换"));
    assert!(context_memory_keyword("Program Manager").is_none());
    assert!(context_memory_keyword("任务切换").is_none());
    assert!(context_memory_keyword("湖北大学推免填报系统").is_some());
    assert!(is_generic_context_label("chrome.exe"));
    assert!(!is_generic_context_label("icpc"));
    assert!(is_auto_session_source("context-complete"));
    assert!(!is_auto_session_source("manual-correction"));
    assert!(is_task_overlay_app_name("snipaste.exe") || is_task_overlay_app_name("Snipaste.exe"));
    assert!(is_screenshot_overlay_title("QQ截图") || is_screenshot_overlay_title("QQ · QQ截图"));
    assert!(!is_transient_summary("写论文"));
    assert_eq!(preferred_coalesced_summary("QQ", "QQ · 图片查看器"), "QQ");
    assert_eq!(
        context_assignment_key(&Some("p".into()), &None, "c"),
        "p\u{1f}\u{1f}c"
    );
    assert_ne!(color_for_category("开发"), "");
}

#[test]
fn the_last_category_stays() {
    let mut ledger = records();
    ledger.categories = vec![category("杂务")];
    assert_eq!(
        delete_category(ledger, settings(), "杂务", AT),
        Err(HierarchyError::LastCategory)
    );
}
