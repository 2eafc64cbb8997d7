//! Turning observations into sessions.
use vstd::prelude::*;
use vstd::string::*;

use crate::attribution::{AttributionDecision, DecisionView};
use crate::catalog;
use crate::catalog::{Catalog, CatalogView};
use crate::json;
use crate::json::{JsonValue, JsonView};
use crate::models;
use crate::models::{
    AppSettings, EvidenceItem, EvidenceView, RawActivityEvent, RawEventView, SessionView,
    SettingsView, WorkSession,
};
use crate::score;
use crate::sync;
use crate::sync::{SyncSession, SyncSessionView};
use crate::text;

verus! {

broadcast use vstd::seq_lib::group_seq_properties;

/// Nobody has touched the computer for as long as counts as being away.
pub open spec fn away(event: RawEventView, settings: SettingsView) -> bool {
    event.input_stats.idle_seconds >= settings.idle_threshold_seconds
}

pub fn is_away(event: &RawActivityEvent, settings: &AppSettings) -> (result: bool)
    ensures
        result == away(event@, settings@),
{
    event.input_stats.idle_seconds >= settings.idle_threshold_seconds as u64
}

/// The observation begins something new.
pub open spec fn begins_context(event: RawEventView) -> bool {
    event.metadata.member_flag("contextStart"@)
}

pub fn starts_new_context(event: &RawActivityEvent) -> (result: bool)
    ensures
        result == begins_context(event@),
{
    event.metadata.flag_of("contextStart")
}

/// The title of the page in front, where there is one.
pub open spec fn page_title(event: RawEventView) -> Option<Seq<char>> {
    match event.metadata.member_text("activePageTitle"@) {
        Some(title) => if text::blank(title) {
            None
        } else {
            Some(title)
        },
        None => None,
    }
}

fn read_page_title(event: &RawActivityEvent) -> (result: Option<String>)
    ensures
        text::optional(result) == page_title(event@),
{
    match event.metadata.text_of("activePageTitle") {
        Some(title) => if text::is_blank(title.as_str()) {
            None
        } else {
            Some(title)
        },
        None => None,
    }
}

/// What the title of a page is called, by where it was read.
pub open spec fn page_name(event: RawEventView) -> Seq<char> {
    let source = event.metadata.member_text("activePageSource"@);
    if source == Some("document-window-title"@) {
        "当前文档"@
    } else if source == Some("qq-conversation-header"@) {
        "当前会话"@
    } else {
        "当前页面"@
    }
}

/// Says what the title of a page is called.
pub fn page_label(event: &RawActivityEvent) -> (result: &'static str)
    ensures
        result@ == page_name(event@),
{
    match event.metadata.text_of("activePageSource") {
        Some(source) => if text::same(source.as_str(), "document-window-title") {
            "当前文档"
        } else if text::same(source.as_str(), "qq-conversation-header") {
            "当前会话"
        } else {
            "当前页面"
        },
        None => "当前页面",
    }
}

/// What is written down of an observation.
pub open spec fn event_evidence(
    event: RawEventView,
    remembered: Option<EvidenceView>,
) -> Seq<EvidenceView> {
    let shown = match page_title(event) {
        Some(title) => EvidenceView {
            kind: "page"@,
            label: page_name(event),
            value: title,
            weight: score::PAGE_WEIGHT,
        },
        None => EvidenceView {
            kind: "window"@,
            label: "窗口"@,
            value: match event.window_title {
                Some(title) => title,
                None => "未知窗口"@,
            },
            weight: score::WINDOW_WEIGHT,
        },
    };
    let app = EvidenceView {
        kind: "app"@,
        label: "应用"@,
        value: match event.app {
            Some(name) => name,
            None => "未知应用"@,
        },
        weight: score::APP_WEIGHT,
    };
    match remembered {
        Some(item) => seq![shown, app, item],
        None => seq![shown, app],
    }
}

fn write_evidence(
    event: &RawActivityEvent,
    remembered: &Option<EvidenceItem>,
) -> (result: Vec<EvidenceItem>)
    ensures
        models::evidence_views(result@) == event_evidence(
            event@,
            match *remembered {
                Some(item) => Some(item@),
                None => None,
            },
        ),
{
    let shown = match read_page_title(event) {
        Some(title) => EvidenceItem {
            kind: "page".to_owned(),
            label: page_label(event).to_owned(),
            value: title,
            weight: score::PAGE_WEIGHT,
        },
        None => EvidenceItem {
            kind: "window".to_owned(),
            label: "窗口".to_owned(),
            value: match &event.window_title {
                Some(title) => title.clone(),
                None => "未知窗口".to_owned(),
            },
            weight: score::WINDOW_WEIGHT,
        },
    };
    let app = EvidenceItem {
        kind: "app".to_owned(),
        label: "应用".to_owned(),
        value: match &event.app {
            Some(name) => name.clone(),
            None => "未知应用".to_owned(),
        },
        weight: score::APP_WEIGHT,
    };
    let ghost first = shown@;
    let ghost second = app@;
    let mut result: Vec<EvidenceItem> = Vec::new();
    result.push(shown);
    result.push(app);
    match remembered {
        Some(item) => {
            result.push(item.copy());
            assert(models::evidence_views(result@) =~= seq![first, second, item@]);
        },
        None => {
            assert(models::evidence_views(result@) =~= seq![first, second]);
        },
    }
    result
}

/// `left` ended later, or together with `right` and was written later.
pub open spec fn more_recent(left: SyncSessionView, right: SyncSessionView) -> bool {
    text::precedes(right.session.ended_at, left.session.ended_at) || (right.session.ended_at
        == left.session.ended_at && text::precedes(right.updated_at, left.updated_at))
}

fn is_more_recent(left: &SyncSession, right: &SyncSession) -> (result: bool)
    ensures
        result == more_recent(left@, right@),
{
    text::less(right.session.ended_at.as_str(), left.session.ended_at.as_str()) || (text::same(
        right.session.ended_at.as_str(),
        left.session.ended_at.as_str(),
    ) && text::less(right.updated_at.as_str(), left.updated_at.as_str()))
}

/// Where the most recent session stands.
pub open spec fn most_recent(rows: Seq<SyncSessionView>) -> Option<int>
    decreases rows.len(),
{
    if rows.len() == 0 {
        None
    } else {
        match most_recent(rows.drop_last()) {
            Some(best) => if more_recent(rows.last(), rows[best]) {
                Some(rows.len() - 1)
            } else {
                Some(best)
            },
            None => Some(rows.len() - 1),
        }
    }
}

proof fn lemma_most_recent(rows: Seq<SyncSessionView>)
    ensures
        most_recent(rows) matches Some(at) ==> 0 <= at < rows.len(),
    decreases rows.len(),
{
    if rows.len() > 0 {
        lemma_most_recent(rows.drop_last());
    }
}

fn find_most_recent(rows: &Vec<SyncSession>) -> (result: Option<usize>)
    ensures
        match result {
            Some(at) => at < rows.len() && most_recent(sync::record_views(rows@)) == Some(
                at as int,
            ),
            None => most_recent(sync::record_views(rows@)) is None && rows.len() == 0,
        },
{
    let ghost views = sync::record_views(rows@);
    let mut best: Option<usize> = None;
    let mut i: usize = 0;
    while i < rows.len()
        invariant
            i <= rows.len(),
            views == sync::record_views(rows@),
            match best {
                Some(at) => at < i && most_recent(views.take(i as int)) == Some(at as int),
                None => i == 0 && most_recent(views.take(i as int)) is None,
            },
        decreases rows.len() - i,
    {
        let ghost upto = views.take(i + 1);
        assert(upto.drop_last() =~= views.take(i as int));
        assert(upto.last() == rows@[i as int]@);
        match best {
            Some(at) => {
                assert(upto[at as int] == rows@[at as int]@);
                if is_more_recent(&rows[i], &rows[at]) {
                    best = Some(i);
                }
            },
            None => {
                best = Some(i);
            },
        }
        i += 1;
    }
    assert(views.take(rows.len() as int) =~= views);
    best
}

/// The session is another one that had begun by then.
pub open spec fn precedes_session(row: SyncSessionView, id: Seq<char>, started_at: Seq<char>) -> bool {
    row.session.id != id && !text::precedes(started_at, row.session.started_at)
}

/// Where the session stands that the user was in before the given one: of those that had begun by
/// then, the one that ended last.
pub open spec fn recent_context(
    rows: Seq<SyncSessionView>,
    id: Seq<char>,
    started_at: Seq<char>,
) -> Option<int>
    decreases rows.len(),
{
    if rows.len() == 0 {
        None
    } else {
        let before = recent_context(rows.drop_last(), id, started_at);
        if !precedes_session(rows.last(), id, started_at) {
            before
        } else {
            match before {
                Some(best) => if more_recent(rows.last(), rows[best]) {
                    Some(rows.len() - 1)
                } else {
                    before
                },
                None => Some(rows.len() - 1),
            }
        }
    }
}

/// Finds the session that the user was in before the given one.
pub fn recent_task_context(rows: &Vec<SyncSession>, id: &str, started_at: &str) -> (result: Option<
    usize,
>)
    ensures
        match result {
            Some(at) => at < rows.len() && recent_context(
                sync::record_views(rows@),
                id@,
                started_at@,
            ) == Some(at as int),
            None => recent_context(sync::record_views(rows@), id@, started_at@) is None,
        },
{
    let ghost views = sync::record_views(rows@);
    let mut best: Option<usize> = None;
    let mut i: usize = 0;
    while i < rows.len()
        invariant
            i <= rows.len(),
            views == sync::record_views(rows@),
            match best {
                Some(at) => at < i && recent_context(views.take(i as int), id@, started_at@)
                    == Some(at as int),
                None => recent_context(views.take(i as int), id@, started_at@) is None,
            },
        decreases rows.len() - i,
    {
        let ghost upto = views.take(i + 1);
        assert(upto.drop_last() =~= views.take(i as int));
        assert(upto.last() == rows@[i as int]@);
        let other = !text::same(rows[i].session.id.as_str(), id) && !text::less(
            started_at,
            rows[i].session.started_at.as_str(),
        );
        if other {
            match best {
                Some(at) => {
                    assert(upto[at as int] == rows@[at as int]@);
                    if is_more_recent(&rows[i], &rows[at]) {
                        best = Some(i);
                    }
                },
                None => {
                    best = Some(i);
                },
            }
        }
        i += 1;
    }
    assert(views.take(rows.len() as int) =~= views);
    best
}

/// Where an observation with this decision goes on with a session.
pub open spec fn goes_on(
    row: SessionView,
    event: RawEventView,
    decision: DecisionView,
    summary: Seq<char>,
    source: Seq<char>,
) -> bool {
    &&& !begins_context(event)
    &&& !row.user_confirmed
    &&& row.source == source
    &&& row.project_id == decision.project_id
    &&& row.task_id == decision.task_id
    &&& row.summary == summary
    &&& row.category == decision.category
}

/// Where collected sessions say that they come from.
pub open spec fn collected_source(idle: bool) -> Seq<char> {
    if idle {
        "collector-idle"@
    } else {
        "collector-rule"@
    }
}

/// The sessions with an observation in them: it goes on with the most recent session, or begins a
/// new one.
pub open spec fn collected(
    rows: Seq<SyncSessionView>,
    event: RawEventView,
    idle: bool,
    decision: DecisionView,
    summary: Seq<char>,
    catalog: CatalogView,
    fresh_id: Seq<char>,
    at: Seq<char>,
) -> Seq<SyncSessionView> {
    let evidence = event_evidence(event, decision.evidence);
    let source = collected_source(idle);
    let fresh = SyncSessionView {
        session: SessionView {
            id: fresh_id,
            started_at: event.timestamp,
            ended_at: event.timestamp,
            project_id: decision.project_id,
            project_name: catalog::project_name(catalog, decision.project_id),
            task_id: decision.task_id,
            task_title: catalog::task_title(catalog, decision.task_id),
            category: decision.category,
            summary,
            confidence: decision.confidence,
            evidence,
            user_confirmed: false,
            source,
        },
        updated_at: at,
    };
    match most_recent(rows) {
        Some(last) => {
            let row = rows[last];
            if goes_on(row.session, event, decision, summary, source) {
                rows.update(
                    last,
                    SyncSessionView {
                        session: SessionView {
                            ended_at: if text::precedes(row.session.ended_at, event.timestamp) {
                                event.timestamp
                            } else {
                                row.session.ended_at
                            },
                            confidence: score::greater(row.session.confidence, decision.confidence),
                            evidence,
                            ..row.session
                        },
                        updated_at: at,
                    },
                )
            } else {
                rows.push(fresh)
            }
        },
        None => rows.push(fresh),
    }
}

/// Puts an observation into the sessions, and says which row holds it now.
pub fn materialize_event_session(
    rows: &mut Vec<SyncSession>,
    event: &RawActivityEvent,
    idle: bool,
    decision: &AttributionDecision,
    summary: &str,
    catalog: &Catalog,
    fresh_id: &str,
    at: &str,
) -> (result: usize)
    ensures
        sync::record_views(final(rows)@) == collected(
            sync::record_views(old(rows)@),
            event@,
            idle,
            decision@,
            summary@,
            catalog@,
            fresh_id@,
            at@,
        ),
        result < final(rows)@.len(),
        forall|k: int|
            0 <= k < old(rows)@.len() && k != result ==> final(rows)@[k]@ == (
            #[trigger] old(rows)@[k])@,
        final(rows)@[result as int]@.session.project_id == decision@.project_id,
        final(rows)@[result as int]@.session.task_id == decision@.task_id,
        final(rows)@[result as int]@.session.category == decision@.category,
        final(rows)@[result as int]@.session.summary == summary@,
        !final(rows)@[result as int]@.session.user_confirmed,
{
    let ghost before = sync::record_views(rows@);
    let evidence = write_evidence(event, &decision.evidence);
    let source = if idle {
        "collector-idle"
    } else {
        "collector-rule"
    };
    match find_most_recent(rows) {
        Some(last) => {
            let row = &rows[last].session;
            assert(before[last as int] == rows@[last as int]@);
            if !starts_new_context(event) && !row.user_confirmed && text::same(
                row.source.as_str(),
                source,
            ) && text::same_optional(&row.project_id, &decision.project_id) && text::same_optional(
                &row.task_id,
                &decision.task_id,
            ) && text::same(row.summary.as_str(), summary) && text::same(
                row.category.as_str(),
                decision.category.as_str(),
            ) {
                let mut session = row.copy();
                if text::less(session.ended_at.as_str(), event.timestamp.as_str()) {
                    session.ended_at = event.timestamp.clone();
                }
                session.confidence = score::max(session.confidence, decision.confidence);
                session.evidence = evidence;
                let next = SyncSession { session, updated_at: at.to_owned() };
                let ghost view = next@;
                rows.set(last, next);
                assert(sync::record_views(rows@) =~= before.update(last as int, view));
                return last;
            }
        },
        None => {},
    }
    let next = SyncSession {
        session: WorkSession {
            id: fresh_id.to_owned(),
            started_at: event.timestamp.clone(),
            ended_at: event.timestamp.clone(),
            project_id: decision.project_id.clone(),
            project_name: catalog::name_of_project(catalog, &decision.project_id),
            task_id: decision.task_id.clone(),
            task_title: catalog::title_of_task(catalog, &decision.task_id),
            category: decision.category.clone(),
            summary: summary.to_owned(),
            confidence: decision.confidence,
            evidence,
            user_confirmed: false,
            source: source.to_owned(),
        },
        updated_at: at.to_owned(),
    };
    let ghost view = next@;
    rows.push(next);
    assert(sync::record_views(rows@) =~= before.push(view));
    rows.len() - 1
}

/// Collecting never touches what the user confirmed, and an observation that begins something new
/// always gets a session of its own.
pub proof fn observations_leave_confirmed_sessions_alone(
    rows: Seq<SyncSessionView>,
    event: RawEventView,
    idle: bool,
    decision: DecisionView,
    summary: Seq<char>,
    catalog: CatalogView,
    fresh_id: Seq<char>,
    at: Seq<char>,
)
    ensures
        ({
            let after = collected(
                rows,
                event,
                idle,
                decision,
                summary,
                catalog,
                fresh_id,
                at,
            );
            &&& rows.len() <= after.len() <= rows.len() + 1
            &&& begins_context(event) ==> after.len() == rows.len() + 1 && after.last().session.id
                == fresh_id
            &&& forall|k: int|
                0 <= k < rows.len() && rows[k].session.user_confirmed ==> #[trigger] after[k]
                    == rows[k]
        }),
{
    lemma_most_recent(rows);
}

/// A steady context only lengthens its session: no row is added, the start stays, the end never
/// moves back, and all other sessions stay as they are.
pub proof fn steady_contexts_only_lengthen_their_session(
    rows: Seq<SyncSessionView>,
    event: RawEventView,
    idle: bool,
    decision: DecisionView,
    summary: Seq<char>,
    catalog: CatalogView,
    fresh_id: Seq<char>,
    at: Seq<char>,
    last: int,
)
    requires
        most_recent(rows) == Some(last),
        goes_on(rows[last].session, event, decision, summary, collected_source(idle)),
    ensures
        ({
            let after = collected(
                rows,
                event,
                idle,
                decision,
                summary,
                catalog,
                fresh_id,
                at,
            );
            &&& after.len() == rows.len()
            &&& after[last].session.id == rows[last].session.id
            &&& after[last].session.started_at == rows[last].session.started_at
            &&& !text::precedes(after[last].session.ended_at, rows[last].session.ended_at)
            &&& !text::precedes(after[last].session.ended_at, event.timestamp)
            &&& forall|k: int|
                0 <= k < rows.len() && k != last ==> #[trigger] after[k] == rows[k]
        }),
{
    lemma_most_recent(rows);
    text::lemma_precedes_total(rows[last].session.ended_at, event.timestamp);
    text::lemma_precedes_total(event.timestamp, event.timestamp);
    text::lemma_precedes_total(rows[last].session.ended_at, rows[last].session.ended_at);
}

/// The row with the observation's time as its end.
pub open spec fn extended(row: SyncSessionView, timestamp: Seq<char>, at: Seq<char>) ->
    SyncSessionView {
    SyncSessionView { session: SessionView { ended_at: timestamp, ..row.session }, updated_at: at }
}

/// Extends the active session to the time of an observation; false where the session is gone.
pub fn heartbeat(
    rows: &mut Vec<SyncSession>,
    session_id: &str,
    timestamp: &str,
    at: &str,
) -> (result: bool)
    ensures
        ({
            let views = sync::record_views(old(rows)@);
            let spot = sync::spot::<SyncSession>(views, session_id@) as int;
            &&& result == (spot < views.len())
            &&& sync::record_views(final(rows)@) == if result {
                views.update(spot, extended(views[spot], timestamp@, at@))
            } else {
                views
            }
        }),
{
    let ghost before = sync::record_views(rows@);
    let mut i: usize = 0;
    assert(before.skip(0) =~= before);
    while i < rows.len()
        invariant
            i <= rows.len(),
            before == sync::record_views(rows@),
            before == sync::record_views(old(rows)@),
            sync::spot::<SyncSession>(before, session_id@) == i + sync::spot::<SyncSession>(
                before.skip(i as int),
                session_id@,
            ),
        decreases rows.len() - i,
    {
        assert(before.skip(i as int)[0] == rows@[i as int]@);
        if text::same(rows[i].session.id.as_str(), session_id) {
            let mut session = rows[i].session.copy();
            session.ended_at = timestamp.to_owned();
            let next = SyncSession { session, updated_at: at.to_owned() };
            let ghost view = next@;
            rows.set(i, next);
            assert(sync::record_views(rows@) =~= before.update(i as int, view));
            return true;
        }
        assert(before.skip(i as int).drop_first() =~= before.skip(i + 1));
        i += 1;
    }
    false
}

/// A session that waits for a review: time away stays what it is.
pub open spec fn awaiting(row: SessionView) -> SessionView {
    if row.user_confirmed {
        row
    } else if row.source == "collector-idle"@ || row.summary == "离开/空闲"@ {
        SessionView { source: "collector-idle"@, ..row }
    } else {
        SessionView { source: "context-complete"@, ..row }
    }
}

/// Marks an unconfirmed session as complete and waiting for a review.
pub fn mark_session_awaiting_confirmation(row: &WorkSession) -> (result: WorkSession)
    ensures
        result@ == awaiting(row@),
{
    let mut after = row.copy();
    if !row.user_confirmed {
        if text::same(row.source.as_str(), "collector-idle") || text::same(
            row.summary.as_str(),
            "离开/空闲",
        ) {
            after.source = "collector-idle".to_owned();
        } else {
            after.source = "context-complete".to_owned();
        }
    }
    after
}

/// The session that an item of a review asks about is time away.
pub open spec fn asks_about_idle(target: JsonView, settings: SettingsView) -> bool {
    ||| target.member_text("summary"@) matches Some(summary) && text::trimmed(summary)
        == "离开/空闲"@
    ||| target.member_text("source"@) == Some("collector-idle"@)
    ||| target.member_text("category"@) == Some(settings.idle_category) && target.member_text(
        "projectName"@,
    ) == Some(settings.idle_project_name)
}

fn is_text(target: &JsonValue, key: &str, value: &str) -> (result: bool)
    ensures
        result == (target@.member_text(key@) == Some(value@)),
{
    match target.text_of(key) {
        Some(found) => text::same(found.as_str(), value),
        None => false,
    }
}

fn is_asking_about_idle(target: &JsonValue, settings: &AppSettings) -> (result: bool)
    ensures
        result == asks_about_idle(target@, settings@),
{
    let summary_is_idle = match target.text_of("summary") {
        Some(summary) => {
            let trimmed = text::trim(summary.as_str());
            text::same(trimmed.as_str(), "离开/空闲")
        },
        None => false,
    };
    summary_is_idle || is_text(target, "source", "collector-idle") || (is_text(
        target,
        "category",
        settings.idle_category.as_str(),
    ) && is_text(target, "projectName", settings.idle_project_name.as_str()))
}

/// The id of the session that an item of a review asks about, where it is time away.
pub open spec fn idle_target(item: JsonView, settings: SettingsView) -> Option<Seq<char>> {
    match item.member("targetSession"@) {
        Some(target) => if asks_about_idle(target, settings) {
            target.member_text("sessionId"@)
        } else {
            None
        },
        None => None,
    }
}

/// The part of a prompt that holds the data.
pub open spec fn prompt_payload(prompt: Seq<char>) -> Option<Seq<char>> {
    if text::occurs(prompt, "输入："@) {
        Some(
            text::drop_tail_while(
                text::trimmed(
                    prompt.skip(text::first_at(prompt, "输入："@) + "输入："@.len()),
                ),
                |c: char| c == '。',
            ),
        )
    } else {
        None
    }
}

/// The sessions of time away that the items of a review ask about.
pub open spec fn idle_targets(document: JsonView, settings: SettingsView) -> Seq<Seq<char>> {
    document.member_items("reviewItems"@).filter_map(
        |item: JsonView| idle_target(item, settings),
    )
}

/// The sessions of time away that a prompt asked about, each once.
pub open spec fn prompted_idle(prompt: Seq<char>, settings: SettingsView) -> Seq<Seq<char>> {
    match prompt_payload(prompt) {
        Some(payload) => match json::document(payload) {
            Some(document) => text::distinct(idle_targets(document, settings)),
            None => Seq::empty(),
        },
        None => Seq::empty(),
    }
}

/// Lists the sessions of time away that the items of a review ask about, each once.
pub fn list_idle_targets(document: &JsonValue, settings: &AppSettings) -> (result: Vec<String>)
    ensures
        text::texts(result@) == text::distinct(idle_targets(document@, settings@)),
{
    let mut found: Vec<String> = Vec::new();
    let ghost pick = |item: JsonView| idle_target(item, settings@);
    match document.items_of("reviewItems") {
        Some(items) => {
            let ghost views = json::list_view(items@);
            proof {
                json::lemma_list_view(items@);
            }
            let mut i: usize = 0;
            assert(views.take(0) =~= Seq::empty());
            assert(text::texts(found@) =~= views.take(0).filter_map(pick));
            while i < items.len()
                invariant
                    i <= items.len(),
                    views.len() == items.len(),
                    forall|k: int|
                        0 <= k < items.len() ==> #[trigger] views[k] == json::view_of(items@[k]),
                    pick == (|item: JsonView| idle_target(item, settings@)),
                    text::texts(found@) == views.take(i as int).filter_map(pick),
                decreases items.len() - i,
            {
                let ghost done = text::texts(found@);
                assert(views[i as int] == items@[i as int]@);
                proof {
                    views.lemma_filter_map_take_succ(pick, i as int);
                }
                match items[i].get("targetSession") {
                    Some(target) => {
                        if is_asking_about_idle(target, settings) {
                            match target.text_of("sessionId") {
                                Some(id) => {
                                    let ghost view = id@;
                                    found.push(id);
                                    assert(text::texts(found@) =~= done + seq![view]);
                                },
                                None => {},
                            }
                        }
                    },
                    None => {},
                }
                i += 1;
            }
            assert(views.take(items.len() as int) =~= views);
        },
        None => {
            assert(document@.member_items("reviewItems"@) =~= Seq::empty());
            assert(text::texts(found@) =~= Seq::<JsonView>::empty().filter_map(pick));
        },
    }
    text::unique(&found)
}

/// Lists the sessions of time away that a prompt asked about, each once.
pub fn ai_prompt_idle_session_ids(prompt: &str, settings: &AppSettings) -> (result: Vec<String>)
    ensures
        text::texts(result@) == prompted_idle(prompt@, settings@),
{
    let none: Vec<String> = Vec::new();
    assert(text::texts(none@) =~= Seq::empty());
    let rest = match text::split_once(prompt, "输入：") {
        Some((_, rest)) => rest,
        None => {
            return none;
        },
    };
    let trimmed = text::trim(rest.as_str());
    let payload = text::trim_end_char(trimmed.as_str(), '。');
    match json::parse(payload.as_str()) {
        Some(document) => list_idle_targets(&document, settings),
        None => none,
    }
}

/// A reviewed session that was time away, put back.
pub open spec fn unreviewed_idle(
    item: SyncSessionView,
    ids: Seq<Seq<char>>,
    project: Seq<char>,
    settings: SettingsView,
    at: Seq<char>,
) -> SyncSessionView {
    if ids.contains(item.session.id) && !item.session.user_confirmed && item.session.source
        == "ai-review"@ {
        SyncSessionView {
            session: SessionView {
                project_id: Some(project),
                project_name: Some(settings.idle_project_name),
                task_id: None,
                task_title: None,
                category: settings.idle_category,
                summary: "离开/空闲"@,
                confidence: score::greater(item.session.confidence, score::IDLE),
                source: "collector-idle"@,
                ..item.session
            },
            updated_at: at,
        }
    } else {
        item
    }
}

/// Puts reviewed sessions back that were time away when the review asked about them.
pub fn repair_ai_reviewed_idle_sessions(
    rows: Vec<SyncSession>,
    ids: &Vec<String>,
    project: &str,
    settings: &AppSettings,
    at: &str,
) -> (result: Vec<SyncSession>)
    ensures
        sync::record_views(result@) == sync::record_views(rows@).map_values(
            |item: SyncSessionView|
                unreviewed_idle(item, text::texts(ids@), project@, settings@, at@),
        ),
{
    let ghost views = sync::record_views(rows@);
    let ghost change = |item: SyncSessionView|
        unreviewed_idle(item, text::texts(ids@), project@, settings@, at@);
    let mut result: Vec<SyncSession> = Vec::new();
    assert(sync::record_views(result@) =~= views.take(0).map_values(change));
    for item in it: rows
        invariant
            views == sync::record_views(it.seq()),
            change == (|item: SyncSessionView|
                unreviewed_idle(item, text::texts(ids@), project@, settings@, at@)),
            sync::record_views(result@) == views.take(it.index()).map_values(change),
    {
        let ghost i = it.index();
        let ghost view = item@;
        let ghost before = sync::record_views(result@);
        assert(views[i] == view);
        assert(views.take(i + 1) =~= views.take(i).push(view));
        let mut after = item;
        if !after.session.user_confirmed && text::same(after.session.source.as_str(), "ai-review")
            && text::listed(ids, after.session.id.as_str()) {
            after.session.project_id = Some(project.to_owned());
            after.session.project_name = Some(settings.idle_project_name.clone());
            after.session.task_id = None;
            after.session.task_title = None;
            after.session.category = settings.idle_category.clone();
            after.session.summary = "离开/空闲".to_owned();
            after.session.confidence = score::max(after.session.confidence, score::IDLE);
            after.session.source = "collector-idle".to_owned();
            after.updated_at = at.to_owned();
        }
        assert(after@ =~= change(view));
        result.push(after);
        assert(sync::record_views(result@) =~= before.push(change(view)));
        assert(views.take(i).push(view).map_values(change) =~= views.take(i).map_values(
            change,
        ).push(change(view)));
    }
    assert(views.take(views.len() as int) =~= views);
    result
}

/// A reviewed session whose task only holds a place, back in the queue.
pub open spec fn requeued(item: SyncSessionView, placeholder: bool, at: Seq<char>) ->
    SyncSessionView {
    if placeholder && !item.session.user_confirmed && item.session.source == "ai-review"@ {
        SyncSessionView {
            session: SessionView {
                project_id: None,
                project_name: None,
                task_id: None,
                task_title: None,
                confidence: if item.session.confidence > score::UNREVIEWED_CEILING {
                    score::UNREVIEWED_CEILING
                } else {
                    item.session.confidence
                },
                source: "context-complete"@,
                ..item.session
            },
            updated_at: at,
        }
    } else {
        item
    }
}

/// Sends a reviewed session back to the queue whose task only holds a place.
pub fn requeue_placeholder_review(item: SyncSession, placeholder: bool, at: &str) -> (result:
    SyncSession)
    ensures
        result@ == requeued(item@, placeholder, at@),
{
    let mut after = item;
    if placeholder && !after.session.user_confirmed && text::same(
        after.session.source.as_str(),
        "ai-review",
    ) {
        after.session.project_id = None;
        after.session.project_name = None;
        after.session.task_id = None;
        after.session.task_title = None;
        if after.session.confidence > score::UNREVIEWED_CEILING {
            after.session.confidence = score::UNREVIEWED_CEILING;
        }
        after.session.source = "context-complete".to_owned();
        after.updated_at = at.to_owned();
    }
    after
}

} // verus!
