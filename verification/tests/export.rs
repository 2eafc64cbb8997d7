use screenuse::export::{
    esc, export_document, file_extension, html, md, read_format, ExportFormat,
};
use screenuse::models::WorkSession;
use screenuse::trends::{label_of_trend, trend_groups, TrendKind};
use screenuse::text::{
    contains, join, less, number_text, replace, sort_unique, split_any, split_once, take_chars,
    to_ascii_lower, trim, unique, words,
};

fn session() -> WorkSession {
    WorkSession {
        id: "s".into(),
        started_at: "2026-07-16T10:00:00Z".into(),
        ended_at: "2026-07-16T10:10:00Z".into(),
        project_id: Some("p".into()),
        project_name: Some("A|B".into()),
        task_id: None,
        task_title: None,
        category: "开发".into(),
        summary: "说\"你好\"\n<b>".into(),
        confidence: 0x3F000000,
        evidence: vec![],
        user_confirmed: true,
        source: "manual-correction".into(),
    }
}

#[test]
fn cells_are_escaped_for_their_document() {
    assert_eq!(esc("a\"b\nc"), "\"a\"\"b c\"");
    assert_eq!(html("<a & b>"), "&lt;a &amp; b&gt;");
    assert_eq!(md("a|b\nc"), "a\\|b c");
}

#[test]
fn formats_are_named_in_any_case() {
    assert_eq!(read_format("CSV"), Ok(ExportFormat::Csv));
    assert_eq!(read_format("xls"), Ok(ExportFormat::Excel));
    assert_eq!(read_format("Excel"), Ok(ExportFormat::Excel));
    assert_eq!(read_format("markdown"), Ok(ExportFormat::Markdown));
    assert_eq!(read_format("MD"), Ok(ExportFormat::Markdown));
    assert_eq!(read_format("PDF"), Err("pdf".to_string()));
    assert_eq!(file_extension(ExportFormat::Excel), "xls");
}

#[test]
fn sessions_are_written_as_a_table() {
    let sessions = vec![session()];
    let shown = vec!["0.50".to_string()];
    assert_eq!(
        export_document(ExportFormat::Csv, &sessions, &shown),
        "started_at,ended_at,project,task,category,summary,confidence,user_confirmed,source\n\
         \"2026-07-16T10:00:00Z\",\"2026-07-16T10:10:00Z\",\"A|B\",\"\",\"开发\",\"说\"\"你好\"\" <b>\",0.50,true,\"manual-correction\"\n"
    );
    let page = export_document(ExportFormat::Excel, &sessions, &shown);
    assert!(page.contains("<td>说\"你好\"\n&lt;b&gt;</td><td>0.50</td><td>true</td></tr></table></body></html>"));
    let notes = export_document(ExportFormat::Markdown, &sessions, &shown);
    assert!(notes.ends_with("| 2026-07-16T10:00:00Z | 2026-07-16T10:10:00Z | A\\|B |  | 开发 | 说\"你好\" <b> | 0.50 |\n"));
    assert_eq!(
        export_document(ExportFormat::Csv, &vec![], &vec![]),
        "started_at,ended_at,project,task,category,summary,confidence,user_confirmed,source\n"
    );
}

#[test]
fn texts_are_cut_joined_and_searched() {
    assert_eq!(trim(" \u{3000}a b\n"), "a b");
    assert_eq!(replace("aaa", "aa", "b"), "ba");
    assert!(contains("学习笔记", "笔记"));
    assert_eq!(split_once("a:b:c", ":"), Some(("a".to_string(), "b:c".to_string())));
    assert_eq!(split_once("a", ":"), None);
    assert_eq!(words(" a  b "), vec!["a".to_string(), "b".to_string()]);
    assert_eq!(join(&vec!["a".to_string(), "b".to_string()], ", "), "a, b");
    assert_eq!(take_chars("学习abc", 3), "学习a");
    assert_eq!(to_ascii_lower("ÄBC"), "Äbc");
    assert_eq!(number_text(1234567890), "1234567890");
    assert_eq!(number_text(0), "0");
    assert!(less("a", "b") && !less("b", "b") && less("", "a"));
    assert_eq!(split_any("a,b，c", ",，"), vec!["a".to_string(), "b".to_string(), "c".to_string()]);
    let list = vec!["b".to_string(), "a".to_string(), "b".to_string()];
    assert_eq!(sort_unique(&list), vec!["a".to_string(), "b".to_string()]);
    assert_eq!(unique(&list), vec!["b".to_string(), "a".to_string()]);
}

#[test]
fn time_away_is_in_no_project_sum() {
    let away = WorkSession { category: "离开".into(), ..session() };
    let idle = WorkSession {
        source: "collector-idle".into(),
        user_confirmed: false,
        ..session()
    };
    let confirmed = WorkSession { source: "collector-idle".into(), ..session() };
    let other = WorkSession { project_name: None, ..session() };
    let sessions = vec![away, idle, session(), other, confirmed];
    assert_eq!(
        trend_groups(TrendKind::Project, &sessions),
        vec![None, None, Some(2), Some(3), Some(2)]
    );
    assert_eq!(
        trend_groups(TrendKind::Category, &sessions),
        vec![Some(0), Some(1), Some(1), Some(1), Some(1)]
    );
    assert_eq!(label_of_trend(TrendKind::Project, &sessions[3]), "未归类");
    assert_eq!(label_of_trend(TrendKind::Project, &sessions[2]), "A|B");
    assert_eq!(label_of_trend(TrendKind::Category, &sessions[2]), "开发");
}
