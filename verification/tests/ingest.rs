use std::collections::hash_map::DefaultHasher;
use std::hash::{Hash, Hasher};

use screenuse::ics::{
    google_calendar_placeholder, microsoft_todo_placeholder, normalize_ics_time, parse_ics,
    property_value, sanitize_id, stable_hash, unescape_ics, unfold_ics_lines, IcsAdapter,
    IntegrationAdapter, PullError,
};
use screenuse::ingest::{
    browser_context, cap, editor_context, ingest_payload, route_payload, IngestError, Report,
};
use screenuse::json::{parse, put_member, remove_member, same_value, write_document, JsonValue};

fn text(value: &str) -> JsonValue {
    JsonValue::Text(value.into())
}

fn object(members: Vec<(&str, JsonValue)>) -> JsonValue {
    JsonValue::Object(
        members
            .into_iter()
            .map(|(key, value)| (key.to_string(), value))
            .collect(),
    )
}

#[test]
fn keeps_only_active_tab_from_legacy_payload() {
    let context = browser_context(&object(vec![(
        "windows",
        JsonValue::List(vec![object(vec![
            ("id", JsonValue::Natural(1)),
            ("focused", JsonValue::Bool(true)),
            (
                "tabs",
                JsonValue::List(vec![
                    object(vec![
                        ("id", JsonValue::Natural(2)),
                        ("active", JsonValue::Bool(false)),
                        ("title", text("Hidden")),
                        ("url", text("https://example.com")),
                    ]),
                    object(vec![
                        ("id", JsonValue::Natural(3)),
                        ("active", JsonValue::Bool(true)),
                        ("title", text("ScreenUse")),
                        ("url", text("https://github.com/ShallowForeverDream/ScreenUse")),
                    ]),
                ]),
            ),
        ])]),
    )]));
    assert_eq!(context.tab_id, Some(3));
    assert_eq!(context.title.as_deref(), Some("ScreenUse"));
    assert_eq!(context.window_id, Some(1));
    assert_eq!(
        context.event_id,
        "1:3:https://github.com/ShallowForeverDream/ScreenUse"
    );
    assert_eq!(context.browser, "Chromium");
}

#[test]
fn keeps_the_selected_chatgpt_conversation_title() {
    let context = browser_context(&object(vec![
        ("title", text("ICPC刷题网站功能需求")),
        ("tabTitle", text("ChatGPT")),
        ("contextTitle", text("ICPC刷题网站功能需求")),
        ("contextType", text("chatgpt-conversation")),
        ("url", text("https://chatgpt.com/c/current-id")),
        ("tabId", JsonValue::Natural(3)),
        ("windowId", JsonValue::Natural(1)),
    ]));
    assert_eq!(context.title.as_deref(), Some("ICPC刷题网站功能需求"));
    assert_eq!(context.context_title.as_deref(), Some("ICPC刷题网站功能需求"));
    assert_eq!(context.context_type.as_deref(), Some("chatgpt-conversation"));
}

#[test]
fn reports_are_routed_by_their_path() {
    let report = ingest_payload("/browser/tabs", "{\"title\":\"a\",\"audible\":true}").expect("browser");
    match report {
        Report::Browser(context) => {
            assert_eq!(context.title.as_deref(), Some("a"));
            assert!(context.audible);
        }
        Report::Editor(_) => panic!("wrong report"),
    }
    let body = "{\"workspace\":[{\"path\":\"D:/ScreenUse\"}],\"activeFile\":\"a.rs\",\"terminalCount\":99999999999}";
    match ingest_payload("/vscode/activity", body).expect("editor") {
        Report::Editor(context) => {
            assert_eq!(context.workspace.as_deref(), Some("D:/ScreenUse"));
            assert_eq!(context.event_id, "D:/ScreenUse:a.rs");
            assert_eq!(context.terminal_count, u32::MAX);
        }
        Report::Browser(_) => panic!("wrong report"),
    }
    assert_eq!(ingest_payload("/browser/tabs", "{"), Err(IngestError::NotJson));
    assert_eq!(
        route_payload("/elsewhere", &JsonValue::Null),
        Err(IngestError::UnknownEndpoint)
    );
}

#[test]
fn reported_texts_are_bounded() {
    assert_eq!(cap("学习abc", 3), "学习a");
    let context = browser_context(&object(vec![
        ("title", text(&"t".repeat(5000))),
        ("url", text(&"u".repeat(5000))),
    ]));
    assert_eq!(context.title.map(|value| value.len()), Some(320));
    assert_eq!(context.url.map(|value| value.len()), Some(1200));
    assert_eq!(context.event_id.len(), 200);
    let editor = editor_context(&object(vec![("gitBranch", text(&"b".repeat(500)))]));
    assert_eq!(editor.git_branch.map(|value| value.len()), Some(160));
    assert_eq!(editor.event_id, ":");
}

#[test]
fn calendars_become_plan_items() {
    let content = "BEGIN:VCALENDAR\r\nBEGIN:VEVENT\r\nUID:abc@example\r\nSUMMARY:论文\\, 初稿\r\nDTSTART:20260716T080000Z\r\nDTEND;VALUE=DATE:20260717\r\nDESCRIPTION:第一行\r\n  续行\r\nEND:VEVENT\r\nEND:VCALENDAR\r\n";
    let items = parse_ics(content).expect("calendar");
    assert_eq!(items.len(), 1);
    assert_eq!(items[0].title, "论文, 初稿");
    assert_eq!(items[0].start_at.as_deref(), Some("2026-07-16T08:00:00Z"));
    assert_eq!(items[0].due_at.as_deref(), Some("2026-07-17T00:00:00Z"));
    assert_eq!(items[0].note.as_deref(), Some("第一行续行"));
    let adapter = IcsAdapter { path: "a.ics".into(), content: Some(content.into()) };
    assert_eq!(adapter.name(), "ics");
    assert_eq!(adapter.pull_plan_items(), Ok(items));
    let missing = IcsAdapter { path: "a.ics".into(), content: None };
    assert_eq!(missing.pull_plan_items(), Ok(vec![]));
}

#[test]
fn calendar_times_are_cut_into_their_parts() {
    assert_eq!(normalize_ics_time("20260716").as_deref(), Some("2026-07-16T00:00:00Z"));
    assert_eq!(normalize_ics_time("20260716T091011Z").as_deref(), Some("2026-07-16T09:10:11Z"));
    assert_eq!(normalize_ics_time("soon").as_deref(), Some("soon"));
    assert_eq!(normalize_ics_time("学习ab"), None);
    assert_eq!(
        parse_ics("BEGIN:VEVENT\nSUMMARY:x\nDTSTART:学习ab\nEND:VEVENT"),
        Err(PullError::BrokenTime)
    );
}

#[test]
fn calendar_lines_are_read_piece_by_piece() {
    assert_eq!(unfold_ics_lines("a\r\n b\n\tc\nd"), vec!["abc".to_string(), "d".to_string()]);
    assert_eq!(property_value("SUMMARY;LANGUAGE=zh:值", "SUMMARY").as_deref(), Some("值"));
    assert_eq!(property_value("SUMMARYX:值", "SUMMARY"), None);
    assert_eq!(unescape_ics("a\\nb\\;c\\\\d"), "a b;c\\d");
    assert_eq!(sanitize_id("a b/学-_."), "a-b---_.");
    assert!(google_calendar_placeholder().is_empty());
    assert!(microsoft_todo_placeholder().is_empty());
}

#[test]
fn hashes_are_short_stable_and_differ() {
    assert_eq!(stable_hash("学习"), stable_hash("学习"));
    assert_ne!(stable_hash("学习"), stable_hash("开发"));
    assert_ne!(stable_hash("abc"), "abc");
    assert!(stable_hash("x").chars().all(|c| c.is_ascii_hexdigit()));
    assert!(stable_hash("x").len() <= 16);
}

#[test]
fn documents_are_taken_apart() {
    let value = parse("{\"a\":[1,-2,1.5,null,true],\"b\":{\"c\":\"d\"},\"n\":7,\"m\":-3}").expect("json");
    let items = value.items_of("a").expect("list");
    assert_eq!(items[0], JsonValue::Natural(1));
    assert_eq!(items[1], JsonValue::Negative(-2));
    assert_eq!(items[2], JsonValue::Fraction("1.5".into()));
    assert_eq!(items[3], JsonValue::Null);
    assert_eq!(items[4], JsonValue::Bool(true));
    assert_eq!(value.get("b").and_then(|inner| inner.text_of("c")).as_deref(), Some("d"));
    assert_eq!(value.natural_of("n"), Some(7));
    assert_eq!(value.integer_of("m"), Some(-3));
    assert!(!value.flag_of("a"));
    assert!(parse("{").is_none());
    let mut members = vec![("k".to_string(), JsonValue::Null)];
    put_member(&mut members, "k", text("v"));
    put_member(&mut members, "l", JsonValue::Bool(false));
    assert_eq!(members.len(), 2);
    remove_member(&mut members, "k");
    assert!(same_value(
        &JsonValue::Object(members),
        &object(vec![("l", JsonValue::Bool(false))])
    ));
}

#[test]
fn calendar_entries_without_an_id_are_named_by_their_content() {
    let content = "BEGIN:VEVENT\nSUMMARY:说\\, \"你好\"\nDTSTART:20260716\nDESCRIPTION:a\nSTATUS:CONFIRMED\nEND:VEVENT";
    let items = parse_ics(content).expect("calendar");
    let title = "说, \"你好\"".to_string();
    let start = Some("2026-07-16T00:00:00Z".to_string());
    let end: Option<String> = None;
    let note = Some("a".to_string());
    let described = format!("{title:?}{start:?}{end:?}{note:?}");
    assert_eq!(items[0].id, format!("ics:{}", stable_hash(&described)));
    assert_eq!(items[0].due_at, start);
    assert_eq!(items[0].status, "confirmed");
    let mut hasher = DefaultHasher::new();
    described.hash(&mut hasher);
    assert_eq!(stable_hash(&described), format!("{:x}", hasher.finish()));
    let named = parse_ics("BEGIN:VEVENT\nUID:a b\nSUMMARY:x\nEND:VEVENT").expect("calendar");
    assert_eq!(named[0].id, "ics:a-b");
}

#[test]
fn documents_are_written_without_spaces() {
    let document = JsonValue::Object(vec![
        ("app".into(), JsonValue::Text("a\"b".into())),
        ("generation".into(), JsonValue::Natural(2)),
        (
            "keywords".into(),
            JsonValue::List(vec![JsonValue::Negative(-1), JsonValue::Bool(true), JsonValue::Null]),
        ),
    ]);
    assert_eq!(
        write_document(&document),
        "{\"app\":\"a\\\"b\",\"generation\":2,\"keywords\":[-1,true,null]}"
    );
}
