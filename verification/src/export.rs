//! Sessions as documents to take away.
//!
//! The confidence of a session is written with two digits behind the point; that text comes with
//! the sessions, one for each.
use vstd::prelude::*;
use vstd::string::*;

use crate::labels;
use crate::models::{SessionView, WorkSession};
use crate::text;

verus! {

broadcast use vstd::seq_lib::group_seq_properties;

/// How many sessions are exported at most.
pub const MAX_EXPORTED_SESSIONS: u32 = 10_000;

/// A kind of document.
#[derive(Clone, Copy, Debug, PartialEq, Eq, Structural)]
pub enum ExportFormat {
    Csv,
    Excel,
    Markdown,
}

/// The kind of document that a word asks for.
pub open spec fn format_of(word: Seq<char>) -> Option<ExportFormat> {
    let name = text::lowercase(word);
    if name == "csv"@ {
        Some(ExportFormat::Csv)
    } else if name == "excel"@ || name == "xls"@ {
        Some(ExportFormat::Excel)
    } else if name == "markdown"@ || name == "md"@ {
        Some(ExportFormat::Markdown)
    } else {
        None
    }
}

/// Reads which kind of document a word asks for; any other word is refused, in lower case.
pub fn read_format(word: &str) -> (result: Result<ExportFormat, String>)
    ensures
        match result {
            Ok(format) => format_of(word@) == Some(format),
            Err(name) => format_of(word@) is None && name@ == text::lowercase(word@),
        },
{
    let name = word.to_lowercase();
    if text::same(name.as_str(), "csv") {
        Ok(ExportFormat::Csv)
    } else if text::same(name.as_str(), "excel") || text::same(name.as_str(), "xls") {
        Ok(ExportFormat::Excel)
    } else if text::same(name.as_str(), "markdown") || text::same(name.as_str(), "md") {
        Ok(ExportFormat::Markdown)
    } else {
        Err(name)
    }
}

/// The ending of the document's file.
pub fn file_extension(format: ExportFormat) -> (result: &'static str)
    ensures
        result@ == match format {
            ExportFormat::Csv => "csv"@,
            ExportFormat::Excel => "xls"@,
            ExportFormat::Markdown => "md"@,
        },
{
    match format {
        ExportFormat::Csv => "csv",
        ExportFormat::Excel => "xls",
        ExportFormat::Markdown => "md",
    }
}

/// A text as a cell of a comma-separated table.
pub open spec fn csv_cell(s: Seq<char>) -> Seq<char> {
    "\""@ + text::replaced(text::replaced(s, "\""@, "\"\""@), "\n"@, " "@) + "\""@
}

/// Writes a text as a cell of a comma-separated table.
pub fn esc(s: &str) -> (result: String)
    ensures
        result@ == csv_cell(s@),
{
    proof {
        reveal_strlit("\"");
        reveal_strlit("\n");
    }
    let doubled = text::replace(s, "\"", "\"\"");
    let flat = text::replace(doubled.as_str(), "\n", " ");
    let opened = text::joined("\"", flat.as_str());
    text::joined(opened.as_str(), "\"")
}

/// A text as the content of a page.
pub open spec fn html_cell(s: Seq<char>) -> Seq<char> {
    text::replaced(text::replaced(text::replaced(s, "&"@, "&amp;"@), "<"@, "&lt;"@), ">"@, "&gt;"@)
}

/// Writes a text as the content of a page.
pub fn html(s: &str) -> (result: String)
    ensures
        result@ == html_cell(s@),
{
    proof {
        reveal_strlit("&");
        reveal_strlit("<");
        reveal_strlit(">");
    }
    let a = text::replace(s, "&", "&amp;");
    let b = text::replace(a.as_str(), "<", "&lt;");
    text::replace(b.as_str(), ">", "&gt;")
}

/// A text as a cell of a Markdown table.
pub open spec fn md_cell(s: Seq<char>) -> Seq<char> {
    text::replaced(text::replaced(s, "|"@, "\\|"@), "\n"@, " "@)
}

/// Writes a text as a cell of a Markdown table.
pub fn md(s: &str) -> (result: String)
    ensures
        result@ == md_cell(s@),
{
    proof {
        reveal_strlit("|");
        reveal_strlit("\n");
    }
    let barred = text::replace(s, "|", "\\|");
    text::replace(barred.as_str(), "\n", " ")
}

pub open spec fn truth_text(value: bool) -> Seq<char> {
    if value {
        "true"@
    } else {
        "false"@
    }
}

fn truth(value: bool) -> (result: &'static str)
    ensures
        result@ == truth_text(value),
{
    if value {
        "true"
    } else {
        "false"
    }
}

/// A session as a line of a comma-separated table.
pub open spec fn csv_line(s: SessionView, confidence: Seq<char>) -> Seq<char> {
    csv_cell(s.started_at) + ","@ + csv_cell(s.ended_at) + ","@ + csv_cell(
        labels::or_empty(s.project_name),
    ) + ","@ + csv_cell(labels::or_empty(s.task_title)) + ","@ + csv_cell(s.category) + ","@
        + csv_cell(s.summary) + ","@ + confidence + ","@ + truth_text(s.user_confirmed) + ","@
        + csv_cell(s.source) + "\n"@
}

/// A session as a row of a page.
pub open spec fn html_row(s: SessionView, confidence: Seq<char>) -> Seq<char> {
    "<tr><td>"@ + html_cell(s.started_at) + "</td><td>"@ + html_cell(s.ended_at) + "</td><td>"@
        + html_cell(labels::or_empty(s.project_name)) + "</td><td>"@ + html_cell(
        labels::or_empty(s.task_title),
    ) + "</td><td>"@ + html_cell(s.category) + "</td><td>"@ + html_cell(s.summary) + "</td><td>"@
        + confidence + "</td><td>"@ + truth_text(s.user_confirmed) + "</td></tr>"@
}

/// A session as a line of a Markdown table.
pub open spec fn md_line(s: SessionView, confidence: Seq<char>) -> Seq<char> {
    "| "@ + s.started_at + " | "@ + s.ended_at + " | "@ + md_cell(labels::or_empty(s.project_name))
        + " | "@ + md_cell(labels::or_empty(s.task_title)) + " | "@ + md_cell(s.category) + " | "@
        + md_cell(s.summary) + " | "@ + confidence + " |\n"@
}

/// A session in a document.
pub open spec fn entry(format: ExportFormat, s: SessionView, confidence: Seq<char>) -> Seq<char> {
    match format {
        ExportFormat::Csv => csv_line(s, confidence),
        ExportFormat::Excel => html_row(s, confidence),
        ExportFormat::Markdown => md_line(s, confidence),
    }
}

/// The first sessions in a document.
pub open spec fn entries(
    format: ExportFormat,
    sessions: Seq<SessionView>,
    confidences: Seq<Seq<char>>,
    n: nat,
) -> Seq<char>
    decreases n,
{
    if n == 0 {
        Seq::empty()
    } else {
        entries(format, sessions, confidences, (n - 1) as nat) + entry(
            format,
            sessions[n - 1],
            confidences[n - 1],
        )
    }
}

/// What stands above the sessions.
pub open spec fn heading(format: ExportFormat) -> Seq<char> {
    match format {
        ExportFormat::Csv => "started_at,ended_at,project,task,category,summary,confidence,user_confirmed,source\n"@,
        ExportFormat::Excel => "<html><meta charset='utf-8'><body><table border='1'><tr><th>开始</th><th>结束</th><th>项目</th><th>任务</th><th>分类</th><th>摘要</th><th>置信度</th><th>已确认</th></tr>"@,
        ExportFormat::Markdown => "# ScreenUse 时间复盘\n\n| 开始 | 结束 | 项目 | 任务 | 分类 | 摘要 | 置信度 |\n|---|---|---|---|---|---|---:|\n"@,
    }
}

/// What stands below the sessions.
pub open spec fn closing(format: ExportFormat) -> Seq<char> {
    match format {
        ExportFormat::Excel => "</table></body></html>"@,
        _ => Seq::empty(),
    }
}

/// The sessions as a document.
pub open spec fn exported_document(
    format: ExportFormat,
    sessions: Seq<SessionView>,
    confidences: Seq<Seq<char>>,
) -> Seq<char> {
    heading(format) + entries(format, sessions, confidences, sessions.len()) + closing(format)
}

fn write_csv_line(s: &WorkSession, confidence: &str) -> (result: String)
    ensures
        result@ == csv_line(s@, confidence@),
{
    let mut out = esc(s.started_at.as_str());
    out.append(",");
    out.append(esc(s.ended_at.as_str()).as_str());
    out.append(",");
    out.append(esc(labels::text_or_empty(&s.project_name).as_str()).as_str());
    out.append(",");
    out.append(esc(labels::text_or_empty(&s.task_title).as_str()).as_str());
    out.append(",");
    out.append(esc(s.category.as_str()).as_str());
    out.append(",");
    out.append(esc(s.summary.as_str()).as_str());
    out.append(",");
    out.append(confidence);
    out.append(",");
    out.append(truth(s.user_confirmed));
    out.append(",");
    out.append(esc(s.source.as_str()).as_str());
    out.append("\n");
    out
}

fn write_html_row(s: &WorkSession, confidence: &str) -> (result: String)
    ensures
        result@ == html_row(s@, confidence@),
{
    let mut out: String = "<tr><td>".to_owned();
    out.append(html(s.started_at.as_str()).as_str());
    out.append("</td><td>");
    out.append(html(s.ended_at.as_str()).as_str());
    out.append("</td><td>");
    out.append(html(labels::text_or_empty(&s.project_name).as_str()).as_str());
    out.append("</td><td>");
    out.append(html(labels::text_or_empty(&s.task_title).as_str()).as_str());
    out.append("</td><td>");
    out.append(html(s.category.as_str()).as_str());
    out.append("</td><td>");
    out.append(html(s.summary.as_str()).as_str());
    out.append("</td><td>");
    out.append(confidence);
    out.append("</td><td>");
    out.append(truth(s.user_confirmed));
    out.append("</td></tr>");
    out
}

fn write_md_line(s: &WorkSession, confidence: &str) -> (result: String)
    ensures
        result@ == md_line(s@, confidence@),
{
    let mut out: String = "| ".to_owned();
    out.append(s.started_at.as_str());
    out.append(" | ");
    out.append(s.ended_at.as_str());
    out.append(" | ");
    out.append(md(labels::text_or_empty(&s.project_name).as_str()).as_str());
    out.append(" | ");
    out.append(md(labels::text_or_empty(&s.task_title).as_str()).as_str());
    out.append(" | ");
    out.append(md(s.category.as_str()).as_str());
    out.append(" | ");
    out.append(md(s.summary.as_str()).as_str());
    out.append(" | ");
    out.append(confidence);
    out.append(" |\n");
    out
}

/// Writes sessions as a document, each with the text of its confidence.
pub fn export_document(
    format: ExportFormat,
    sessions: &Vec<WorkSession>,
    confidences: &Vec<String>,
) -> (result: String)
    requires
        confidences.len() == sessions.len(),
    ensures
        result@ == exported_document(
            format,
            crate::sessions::session_views(sessions@),
            text::texts(confidences@),
        ),
{
    let mut out: String = match format {
        ExportFormat::Csv => "started_at,ended_at,project,task,category,summary,confidence,user_confirmed,source\n".to_owned(),
        ExportFormat::Excel => "<html><meta charset='utf-8'><body><table border='1'><tr><th>开始</th><th>结束</th><th>项目</th><th>任务</th><th>分类</th><th>摘要</th><th>置信度</th><th>已确认</th></tr>".to_owned(),
        ExportFormat::Markdown => "# ScreenUse 时间复盘\n\n| 开始 | 结束 | 项目 | 任务 | 分类 | 摘要 | 置信度 |\n|---|---|---|---|---|---|---:|\n".to_owned(),
    };
    let ghost views = crate::sessions::session_views(sessions@);
    let ghost shown = text::texts(confidences@);
    let mut i: usize = 0;
    assert(out@ =~= heading(format) + entries(format, views, shown, 0));
    while i < sessions.len()
        invariant
            i <= sessions.len(),
            confidences.len() == sessions.len(),
            views == crate::sessions::session_views(sessions@),
            shown == text::texts(confidences@),
            out@ == heading(format) + entries(format, views, shown, i as nat),
        decreases sessions.len() - i,
    {
        assert(views[i as int] == sessions@[i as int]@);
        assert(shown[i as int] == confidences@[i as int]@);
        let ghost before = out@;
        let line = match format {
            ExportFormat::Csv => write_csv_line(&sessions[i], confidences[i].as_str()),
            ExportFormat::Excel => write_html_row(&sessions[i], confidences[i].as_str()),
            ExportFormat::Markdown => write_md_line(&sessions[i], confidences[i].as_str()),
        };
        out.append(line.as_str());
        assert(out@ =~= heading(format) + entries(format, views, shown, (i + 1) as nat));
        i += 1;
    }
    match format {
        ExportFormat::Excel => {
            out.append("</table></body></html>");
        },
        _ => {},
    }
    out
}

} // verus!
