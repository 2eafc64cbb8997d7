//! What browser and editor extensions report.
use vstd::prelude::*;
use vstd::string::*;

use crate::json;
use crate::json::{JsonValue, JsonView};
use crate::labels;
use crate::text;

verus! {

broadcast use vstd::seq_lib::group_seq_properties;

/// The most that a report may hold, in bytes.
pub const MAX_BODY_BYTES: u64 = 262_144;

/// What a browser shows.
#[derive(Debug, PartialEq, Eq)]
pub struct BrowserContext {
    pub event_id: String,
    pub browser: String,
    pub title: Option<String>,
    pub context_title: Option<String>,
    pub context_type: Option<String>,
    pub url: Option<String>,
    pub tab_id: Option<i64>,
    pub window_id: Option<i64>,
    pub audible: bool,
    pub video_playing: bool,
}

/// What a `BrowserContext` holds.
#[verifier::ext_equal]
pub struct BrowserView {
    pub event_id: Seq<char>,
    pub browser: Seq<char>,
    pub title: Option<Seq<char>>,
    pub context_title: Option<Seq<char>>,
    pub context_type: Option<Seq<char>>,
    pub url: Option<Seq<char>>,
    pub tab_id: Option<i64>,
    pub window_id: Option<i64>,
    pub audible: bool,
    pub video_playing: bool,
}

impl View for BrowserContext {
    type V = BrowserView;

    open spec fn view(&self) -> BrowserView {
        BrowserView {
            event_id: self.event_id@,
            browser: self.browser@,
            title: text::optional(self.title),
            context_title: text::optional(self.context_title),
            context_type: text::optional(self.context_type),
            url: text::optional(self.url),
            tab_id: self.tab_id,
            window_id: self.window_id,
            audible: self.audible,
            video_playing: self.video_playing,
        }
    }
}

/// What an editor works on.
#[derive(Debug, PartialEq, Eq)]
pub struct EditorContext {
    pub event_id: String,
    pub workspace: Option<String>,
    pub active_file: Option<String>,
    pub language_id: Option<String>,
    pub git_branch: Option<String>,
    pub event_kind: Option<String>,
    pub terminal_count: u32,
    pub debug_active: Option<String>,
}

/// What an `EditorContext` holds.
#[verifier::ext_equal]
pub struct EditorView {
    pub event_id: Seq<char>,
    pub workspace: Option<Seq<char>>,
    pub active_file: Option<Seq<char>>,
    pub language_id: Option<Seq<char>>,
    pub git_branch: Option<Seq<char>>,
    pub event_kind: Option<Seq<char>>,
    pub terminal_count: u32,
    pub debug_active: Option<Seq<char>>,
}

impl View for EditorContext {
    type V = EditorView;

    open spec fn view(&self) -> EditorView {
        EditorView {
            event_id: self.event_id@,
            workspace: text::optional(self.workspace),
            active_file: text::optional(self.active_file),
            language_id: text::optional(self.language_id),
            git_branch: text::optional(self.git_branch),
            event_kind: text::optional(self.event_kind),
            terminal_count: self.terminal_count,
            debug_active: text::optional(self.debug_active),
        }
    }
}

/// The first characters of a text.
pub fn cap(value: &str, max_chars: usize) -> (result: String)
    ensures
        result@ == text::prefix_of(value@, max_chars as nat),
{
    text::take_chars(value, max_chars)
}

pub open spec fn capped(value: Option<Seq<char>>, max_chars: nat) -> Option<Seq<char>> {
    match value {
        Some(inner) => Some(text::prefix_of(inner, max_chars)),
        None => None,
    }
}

fn cap_optional(value: Option<String>, max_chars: usize) -> (result: Option<String>)
    ensures
        text::optional(result) == capped(text::optional(value), max_chars as nat),
{
    match value {
        Some(inner) => Some(cap(inner.as_str(), max_chars)),
        None => None,
    }
}

/// The text of a member that is not blank.
pub open spec fn filled_text(value: JsonView, key: Seq<char>) -> Option<Seq<char>> {
    match value.member_text(key) {
        Some(inner) => if text::blank(inner) {
            None
        } else {
            Some(inner)
        },
        None => None,
    }
}

fn read_filled(value: &JsonValue, key: &str) -> (result: Option<String>)
    ensures
        text::optional(result) == filled_text(value@, key@),
{
    match value.text_of(key) {
        Some(inner) => if text::is_blank(inner.as_str()) {
            None
        } else {
            Some(inner)
        },
        None => None,
    }
}

/// The first item with this mark.
pub open spec fn first_marked(items: Seq<JsonView>, key: Seq<char>) -> Option<JsonView>
    decreases items.len(),
{
    if items.len() == 0 {
        None
    } else if items[0].member_flag(key) {
        Some(items[0])
    } else {
        first_marked(items.drop_first(), key)
    }
}

fn find_marked<'a>(items: &'a Vec<JsonValue>, key: &str) -> (result: Option<&'a JsonValue>)
    ensures
        json::shows(result, first_marked(json::list_view(items@), key@)),
{
    let ghost views = json::list_view(items@);
    proof {
        json::lemma_list_view(items@);
    }
    let mut i: usize = 0;
    assert(views.skip(0) =~= views);
    while i < items.len()
        invariant
            i <= items.len(),
            views.len() == items.len(),
            forall|k: int| 0 <= k < items.len() ==> #[trigger] views[k] == json::view_of(items@[k]),
            first_marked(views, key@) == first_marked(views.skip(i as int), key@),
            views == json::list_view(items@),
        decreases items.len() - i,
    {
        assert(views[i as int] == items@[i as int]@);
        assert(views.skip(i as int)[0] == views[i as int]);
        if items[i].flag_of(key) {
            return Some(&items[i]);
        }
        assert(views.skip(i as int).drop_first() =~= views.skip(i + 1));
        i += 1;
    }
    None
}

/// What the old form of a report says: the window in front, and its active tab.
#[verifier::ext_equal]
pub struct FocusView {
    pub window: JsonView,
    pub tab: Option<JsonView>,
}

/// The window in front, or the first one, with its active tab.
pub open spec fn focus(value: JsonView) -> Option<FocusView> {
    let windows = value.member_items("windows"@);
    let window = match first_marked(windows, "focused"@) {
        Some(found) => Some(found),
        None => if windows.len() > 0 {
            Some(windows[0])
        } else {
            None
        },
    };
    match window {
        Some(found) => Some(
            FocusView {
                window: found,
                tab: first_marked(found.member_items("tabs"@), "active"@),
            },
        ),
        None => None,
    }
}

/// What a report says before anything is cut.
#[verifier::ext_equal]
pub struct PageView {
    pub title: Option<Seq<char>>,
    pub url: Option<Seq<char>>,
    pub tab_id: Option<i64>,
    pub window_id: Option<i64>,
    pub audible: bool,
    pub video_playing: bool,
}

/// What the report itself says of the page.
pub open spec fn own_page(value: JsonView) -> PageView {
    PageView {
        title: match filled_text(value, "contextTitle"@) {
            Some(title) => Some(title),
            None => value.member_text("title"@),
        },
        url: value.member_text("url"@),
        tab_id: value.member_integer("tabId"@),
        window_id: value.member_integer("windowId"@),
        audible: value.member_flag("audible"@),
        video_playing: value.member_flag("videoPlaying"@),
    }
}

/// What the report says of the page, in the new form or in the old one.
pub open spec fn reported_page(value: JsonView) -> PageView {
    let own = own_page(value);
    if own.title is Some || own.url is Some {
        own
    } else {
        match focus(value) {
            None => own,
            Some(found) => {
                let window_id = found.window.member_integer("id"@);
                match found.tab {
                    None => PageView { window_id, ..own },
                    Some(tab) => PageView {
                        title: tab.member_text("title"@),
                        url: tab.member_text("url"@),
                        tab_id: tab.member_integer("id"@),
                        window_id,
                        audible: tab.member_flag("audible"@),
                        video_playing: tab.member_flag("videoPlaying"@),
                    },
                }
            },
        }
    }
}

struct Page {
    title: Option<String>,
    url: Option<String>,
    tab_id: Option<i64>,
    window_id: Option<i64>,
    audible: bool,
    video_playing: bool,
}

impl Page {
    spec fn model(self) -> PageView {
        PageView {
            title: text::optional(self.title),
            url: text::optional(self.url),
            tab_id: self.tab_id,
            window_id: self.window_id,
            audible: self.audible,
            video_playing: self.video_playing,
        }
    }
}

fn read_page(value: &JsonValue) -> (result: Page)
    ensures
        result.model() == reported_page(value@),
{
    let mut page = Page {
        title: match read_filled(value, "contextTitle") {
            Some(title) => Some(title),
            None => value.text_of("title"),
        },
        url: value.text_of("url"),
        tab_id: value.integer_of("tabId"),
        window_id: value.integer_of("windowId"),
        audible: value.flag_of("audible"),
        video_playing: value.flag_of("videoPlaying"),
    };
    assert(page.model() == own_page(value@));
    if page.title.is_some() || page.url.is_some() {
        return page;
    }
    let windows = match value.items_of("windows") {
        Some(windows) => windows,
        None => {
            assert(value@.member_items("windows"@) =~= Seq::empty());
            return page;
        },
    };
    proof {
        json::lemma_list_view(windows@);
    }
    let window = match find_marked(windows, "focused") {
        Some(window) => window,
        None => {
            if windows.len() == 0 {
                return page;
            }
            assert(json::list_view(windows@)[0] == windows@[0]@);
            &windows[0]
        },
    };
    page.window_id = window.integer_of("id");
    match window.items_of("tabs") {
        Some(tabs) => {
            match find_marked(tabs, "active") {
                Some(tab) => {
                    page.title = tab.text_of("title");
                    page.url = tab.text_of("url");
                    page.tab_id = tab.integer_of("id");
                    page.audible = tab.flag_of("audible");
                    page.video_playing = tab.flag_of("videoPlaying");
                },
                None => {},
            }
        },
        None => {
            assert(window@.member_items("tabs"@) =~= Seq::empty());
        },
    }
    page
}

/// The number with its sign.
pub open spec fn signed_decimal(n: int) -> Seq<char> {
    if n < 0 {
        "-"@ + text::decimal((-n) as nat)
    } else {
        text::decimal(n as nat)
    }
}

fn signed_text(n: i64) -> (result: String)
    ensures
        result@ == signed_decimal(n as int),
{
    if n < 0 {
        let size: u64 = (-(n + 1)) as u64 + 1;
        let digits = text::number_text(size);
        text::joined("-", digits.as_str())
    } else {
        text::number_text(n as u64)
    }
}

pub open spec fn or_zero(value: Option<i64>) -> i64 {
    match value {
        Some(inner) => inner,
        None => 0,
    }
}

fn zero_if_missing(value: Option<i64>) -> (result: i64)
    ensures
        result == or_zero(value),
{
    match value {
        Some(inner) => inner,
        None => 0,
    }
}

/// What a browser reports.
pub open spec fn browser_report(value: JsonView) -> BrowserView {
    let page = reported_page(value);
    let event_id = match value.member_text("eventId"@) {
        Some(id) => id,
        None => signed_decimal(or_zero(page.window_id) as int) + ":"@ + signed_decimal(
            or_zero(page.tab_id) as int,
        ) + ":"@ + labels::or_empty(page.url),
    };
    let browser = match value.member_text("browser"@) {
        Some(name) => name,
        None => "Chromium"@,
    };
    BrowserView {
        event_id: text::prefix_of(event_id, 200),
        browser: text::prefix_of(browser, 80),
        title: capped(page.title, 320),
        context_title: capped(filled_text(value, "contextTitle"@), 320),
        context_type: capped(filled_text(value, "contextType"@), 80),
        url: capped(page.url, 1200),
        tab_id: page.tab_id,
        window_id: page.window_id,
        audible: page.audible,
        video_playing: page.video_playing,
    }
}

/// Reads what a browser reports. Of the old form, which lists all tabs, only the active tab of the
/// window in front is kept.
pub fn browser_context(value: &JsonValue) -> (result: BrowserContext)
    ensures
        result@ == browser_report(value@),
{
    let page = read_page(value);
    let event_id = match value.text_of("eventId") {
        Some(id) => id,
        None => {
            let window = signed_text(zero_if_missing(page.window_id));
            let tab = signed_text(zero_if_missing(page.tab_id));
            let url = labels::text_or_empty(&page.url);
            let mut all = text::joined(window.as_str(), ":");
            all = text::joined(all.as_str(), tab.as_str());
            all = text::joined(all.as_str(), ":");
            text::joined(all.as_str(), url.as_str())
        },
    };
    let browser = match value.text_of("browser") {
        Some(name) => name,
        None => "Chromium".to_owned(),
    };
    BrowserContext {
        event_id: cap(event_id.as_str(), 200),
        browser: cap(browser.as_str(), 80),
        title: cap_optional(page.title, 320),
        context_title: cap_optional(read_filled(value, "contextTitle"), 320),
        context_type: cap_optional(read_filled(value, "contextType"), 80),
        url: cap_optional(page.url, 1200),
        tab_id: page.tab_id,
        window_id: page.window_id,
        audible: page.audible,
        video_playing: page.video_playing,
    }
}

/// Where the first workspace lies, or what it is called.
pub open spec fn workspace_name(value: JsonView) -> Option<Seq<char>> {
    let items = value.member_items("workspace"@);
    if items.len() == 0 {
        None
    } else {
        match items[0].member("path"@) {
            Some(path) => path.as_text(),
            None => items[0].member_text("name"@),
        }
    }
}

fn read_workspace(value: &JsonValue) -> (result: Option<String>)
    ensures
        text::optional(result) == workspace_name(value@),
{
    match value.items_of("workspace") {
        Some(items) => {
            proof {
                json::lemma_list_view(items@);
            }
            if items.len() == 0 {
                return None;
            }
            assert(json::list_view(items@)[0] == items@[0]@);
            if items[0].get("path").is_some() {
                items[0].text_of("path")
            } else {
                items[0].text_of("name")
            }
        },
        None => {
            assert(value@.member_items("workspace"@) =~= Seq::empty());
            None
        },
    }
}

/// What an editor reports.
pub open spec fn editor_report(value: JsonView) -> EditorView {
    let workspace = capped(workspace_name(value), 900);
    let active_file = capped(value.member_text("activeFile"@), 900);
    let event_id = match value.member_text("eventId"@) {
        Some(id) => id,
        None => labels::or_empty(workspace) + ":"@ + labels::or_empty(active_file),
    };
    EditorView {
        event_id: text::prefix_of(event_id, 200),
        workspace,
        active_file,
        language_id: capped(value.member_text("languageId"@), 80),
        git_branch: capped(value.member_text("gitBranch"@), 160),
        event_kind: capped(value.member_text("eventKind"@), 80),
        terminal_count: match value.member_natural("terminalCount"@) {
            Some(count) => if count > u32::MAX {
                u32::MAX
            } else {
                count as u32
            },
            None => 0,
        },
        debug_active: capped(value.member_text("debugActive"@), 160),
    }
}

/// Reads what an editor reports.
pub fn editor_context(value: &JsonValue) -> (result: EditorContext)
    ensures
        result@ == editor_report(value@),
{
    let workspace = cap_optional(read_workspace(value), 900);
    let active_file = cap_optional(value.text_of("activeFile"), 900);
    let event_id = match value.text_of("eventId") {
        Some(id) => id,
        None => {
            let place = labels::text_or_empty(&workspace);
            let file = labels::text_or_empty(&active_file);
            let head = text::joined(place.as_str(), ":");
            text::joined(head.as_str(), file.as_str())
        },
    };
    let terminal_count: u32 = match value.natural_of("terminalCount") {
        Some(count) => if count > u32::MAX as u64 {
            u32::MAX
        } else {
            count as u32
        },
        None => 0,
    };
    EditorContext {
        event_id: cap(event_id.as_str(), 200),
        workspace,
        active_file,
        language_id: cap_optional(value.text_of("languageId"), 80),
        git_branch: cap_optional(value.text_of("gitBranch"), 160),
        event_kind: cap_optional(value.text_of("eventKind"), 80),
        terminal_count,
        debug_active: cap_optional(value.text_of("debugActive"), 160),
    }
}

/// What was reported.
#[derive(Debug, PartialEq, Eq)]
pub enum Report {
    Browser(BrowserContext),
    Editor(EditorContext),
}

/// What a `Report` holds.
#[verifier::ext_equal]
pub enum ReportView {
    Browser(BrowserView),
    Editor(EditorView),
}

impl View for Report {
    type V = ReportView;

    open spec fn view(&self) -> ReportView {
        match self {
            Report::Browser(context) => ReportView::Browser(context@),
            Report::Editor(context) => ReportView::Editor(context@),
        }
    }
}

/// Why a report is refused.
#[derive(Clone, Copy, Debug, PartialEq, Eq, Structural)]
pub enum IngestError {
    NotJson,
    UnknownEndpoint,
}

/// What a report on this path says.
pub open spec fn routed(path: Seq<char>, value: JsonView) -> Result<ReportView, IngestError> {
    if text::occurs(path, "/browser/tabs"@) {
        Ok(ReportView::Browser(browser_report(value)))
    } else if text::occurs(path, "/vscode/activity"@) {
        Ok(ReportView::Editor(editor_report(value)))
    } else {
        Err(IngestError::UnknownEndpoint)
    }
}

/// Reads a report that came on this path.
pub fn route_payload(path: &str, value: &JsonValue) -> (result: Result<Report, IngestError>)
    ensures
        match result {
            Ok(report) => routed(path@, value@) == Ok::<ReportView, IngestError>(report@),
            Err(error) => routed(path@, value@) == Err::<ReportView, IngestError>(error),
        },
{
    if text::contains(path, "/browser/tabs") {
        Ok(Report::Browser(browser_context(value)))
    } else if text::contains(path, "/vscode/activity") {
        Ok(Report::Editor(editor_context(value)))
    } else {
        Err(IngestError::UnknownEndpoint)
    }
}

/// Reads the body of a report that came on this path.
pub fn ingest_payload(path: &str, body: &str) -> (result: Result<Report, IngestError>)
    ensures
        match result {
            Ok(report) => json::document(body@) is Some && routed(
                path@,
                json::document(body@).unwrap(),
            ) == Ok::<ReportView, IngestError>(report@),
            Err(IngestError::NotJson) => json::document(body@) is None,
            Err(error) => json::document(body@) is Some && routed(
                path@,
                json::document(body@).unwrap(),
            ) == Err::<ReportView, IngestError>(error),
        },
{
    match json::parse(body) {
        Some(value) => route_payload(path, &value),
        None => Err(IngestError::NotJson),
    }
}

/// However long a report is, what is kept of it is short.
pub proof fn reports_are_bounded(value: JsonView)
    ensures
        ({
            let kept = browser_report(value);
            &&& kept.event_id.len() <= 200
            &&& kept.browser.len() <= 80
            &&& kept.title is Some ==> kept.title.unwrap().len() <= 320
            &&& kept.context_title is Some ==> kept.context_title.unwrap().len() <= 320
            &&& kept.context_type is Some ==> kept.context_type.unwrap().len() <= 80
            &&& kept.url is Some ==> kept.url.unwrap().len() <= 1200
        }),
        ({
            let kept = editor_report(value);
            &&& kept.event_id.len() <= 200
            &&& kept.workspace is Some ==> kept.workspace.unwrap().len() <= 900
            &&& kept.active_file is Some ==> kept.active_file.unwrap().len() <= 900
            &&& kept.language_id is Some ==> kept.language_id.unwrap().len() <= 80
            &&& kept.git_branch is Some ==> kept.git_branch.unwrap().len() <= 160
            &&& kept.event_kind is Some ==> kept.event_kind.unwrap().len() <= 80
            &&& kept.debug_active is Some ==> kept.debug_active.unwrap().len() <= 160
        }),
{
}

} // verus!
