use screenuse::catalog::Catalog;
use screenuse::clock::Moment;
use screenuse::journal::{
    move_idle_boundaries, record_merge, record_split, tidy_ledger, SplitRefusal,
};
use screenuse::ledger::Ledger;
use screenuse::models::{EvidenceItem, PlanItem, WorkSession};
use screenuse::plan::follow_joins;
use screenuse::sessions::MergeError;
use screenuse::sync::SyncSession;
use screenuse::timeline::SplitError;

const OLD: &str = "2026-07-16T09:00:00Z";
const NOW: &str = "2026-07-16T12:00:00Z";

fn at(seconds: u64) -> String {
    format!("2026-07-16T10:{:02}:{:02}Z", seconds / 60, seconds % 60)
}

fn session(id: &str, from: u64, to: u64, category: &str, program: &str) -> WorkSession {
    WorkSession {
        id: id.into(),
        started_at: at(from),
        ended_at: at(to),
        project_id: None,
        project_name: None,
        task_id: None,
        task_title: None,
        category: category.into(),
        summary: program.into(),
        confidence: 0x3F000000,
        evidence: vec![EvidenceItem {
            kind: "app".into(),
            label: "应用".into(),
            value: format!("{program}.exe"),
            weight: 0x3F000000,
        }],
        user_confirmed: false,
        source: "context-complete".into(),
    }
}

fn ledger(sessions: Vec<WorkSession>) -> Ledger {
    Ledger {
        categories: vec![],
        projects: vec![],
        tasks: vec![],
        sessions: sessions
            .into_iter()
            .map(|session| SyncSession { session, updated_at: OLD.into() })
            .collect(),
        rules: vec![],
        tombstones: vec![],
        sleep_debt_started_on: None,
    }
}

fn rows(ledger: &Ledger) -> Vec<(String, String)> {
    ledger
        .sessions
        .iter()
        .map(|row| (row.session.id.clone(), row.updated_at.clone()))
        .collect()
}

fn noted(ledger: &Ledger) -> Vec<String> {
    ledger
        .tombstones
        .iter()
        .map(|item| {
            assert_eq!(item.deleted_at, NOW);
            format!("{}:{}", item.entity_kind, item.entity_id)
        })
        .collect()
}

fn pair(id: &str, time: &str) -> (String, String) {
    (id.to_string(), time.to_string())
}

#[test]
fn merged_sessions_leave_tombstones() {
    let table = || {
        ledger(vec![
            session("a", 0, 60, "沟通", "QQ"),
            session("b", 60, 120, "沟通", "QQ"),
            session("c", 120, 180, "开发", "Code"),
        ])
    };
    let chosen = vec!["a".to_string(), "b".to_string(), "a".to_string()];
    let (after, merged) =
        record_merge(table(), &chosen, &Some("沟通".into()), "m", NOW).expect("merge");
    assert_eq!(merged.id, "m");
    assert_eq!(merged.ended_at, at(120));
    assert_eq!(rows(&after), vec![pair("c", OLD), pair("m", NOW)]);
    assert_eq!(noted(&after), vec!["session:a", "session:b"]);
    assert_eq!(
        record_merge(table(), &vec!["a".into()], &None, "m", NOW).err(),
        Some(MergeError::TooFew)
    );
}

#[test]
fn split_sessions_leave_a_tombstone() {
    let table = || ledger(vec![session("a", 0, 60, "沟通", "QQ"), session("b", 60, 70, "沟通", "QQ")]);
    let (after, first, second) =
        record_split(table(), "a", &at(30), "x", "y", NOW).expect("split");
    assert_eq!(first.ended_at, at(30));
    assert_eq!(second.started_at, at(30));
    assert_eq!(rows(&after), vec![pair("b", OLD), pair("x", NOW), pair("y", NOW)]);
    assert_eq!(noted(&after), vec!["session:a"]);
    assert_eq!(
        record_split(table(), "z", &at(30), "x", "y", NOW).err(),
        Some(SplitRefusal::Missing)
    );
    assert_eq!(
        record_split(table(), "a", &at(2), "x", "y", NOW).err(),
        Some(SplitRefusal::Refused(SplitError::TooShort))
    );
}

#[test]
fn only_rows_that_tidying_touches_carry_a_new_time() {
    let mut misplaced = session("misplaced", 400, 460, "开发", "Code");
    misplaced.project_id = Some("gone".into());
    let table = ledger(vec![
        session("empty", 0, 0, "杂务", "QQ"),
        session("main", 10, 40, "沟通", "QQ"),
        session("inside", 40, 55, "沟通", "QQ"),
        session("alone", 200, 260, "开发", "Code"),
        misplaced,
    ]);
    let catalog = Catalog { categories: vec![], projects: vec![], tasks: vec![] };
    let done = tidy_ledger(table, &catalog, Moment { seconds: 1_700_000_000, nanos: 0 }, NOW);
    assert_eq!(
        rows(&done.ledger),
        vec![pair("main", NOW), pair("alone", OLD), pair("misplaced", NOW)]
    );
    assert_eq!(noted(&done.ledger), vec!["session:empty", "session:inside"]);
    assert_eq!(done.repaired, 2);
    assert_eq!(done.compacted, 1);
    assert!(done.ledger.sessions[2].session.project_id.is_none());

    let item = |links: &[&str]| PlanItem {
        id: "plan".into(),
        source: "manual".into(),
        title: "沟通".into(),
        note: None,
        start_at: None,
        due_at: None,
        status: "active".into(),
        tags: vec![],
        matched_session_ids: links.iter().map(|id| id.to_string()).collect(),
    };
    let items = follow_joins(vec![item(&["inside", "alone"]), item(&["z", "a"])], &done.joins);
    assert_eq!(items[0].matched_session_ids, vec!["alone", "main"]);
    assert_eq!(items[1].matched_session_ids, vec!["z", "a"]);
}

#[test]
fn moved_boundaries_carry_a_new_time_and_leave_no_tombstone() {
    let table = ledger(vec![
        session("early", 0, 60, "开发", "Code"),
        session("active", 60, 300, "杂务", "QQ"),
        session("idle", 300, 360, "离开", "QQ"),
        session("short", 400, 430, "杂务", "QQ"),
        session("idle-two", 430, 460, "离开", "QQ"),
    ]);
    let after = move_idle_boundaries(table, 180, NOW);
    assert_eq!(
        rows(&after),
        vec![pair("early", OLD), pair("active", NOW), pair("idle", NOW), pair("idle-two", NOW)]
    );
    assert_eq!(after.sessions[1].session.ended_at, at(120));
    assert_eq!(after.sessions[2].session.started_at, at(120));
    assert_eq!(after.sessions[3].session.started_at, at(400));
    assert!(after.tombstones.is_empty());
}
