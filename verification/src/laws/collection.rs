//! Promises of turning observations into sessions.
use vstd::prelude::*;

use crate::attribution::DecisionView;
use crate::catalog::CatalogView;
use crate::collector;
use crate::json::JsonView;
use crate::models::{EvidenceView, RawEventView, SessionView, SettingsView};
use crate::sync::SyncSessionView;
use crate::text;

verus! {

broadcast use vstd::seq_lib::group_seq_properties;

/// The row ended last, and of rows that ended together it was written last.
pub open spec fn is_latest(rows: Seq<SyncSessionView>, at: int) -> bool {
    &&& 0 <= at < rows.len()
    &&& forall|k: int|
        0 <= k < rows.len() ==> !text::precedes(
            rows[at].session.ended_at,
            (#[trigger] rows[k]).session.ended_at,
        )
    &&& forall|k: int|
        0 <= k < rows.len() && (#[trigger] rows[k]).session.ended_at == rows[at].session.ended_at
            ==> !text::precedes(rows[at].updated_at, rows[k].updated_at)
}

proof fn lemma_latest(rows: Seq<SyncSessionView>)
    ensures
        match collector::most_recent(rows) {
            Some(at) => is_latest(rows, at),
            None => rows.len() == 0,
        },
    decreases rows.len(),
{
    if rows.len() > 0 {
        let rest = rows.drop_last();
        let last = rows.last();
        lemma_latest(rest);
        assert(forall|k: int| 0 <= k < rest.len() ==> rows[k] == rest[k]);
        text::lemma_precedes_total(last.session.ended_at, last.session.ended_at);
        text::lemma_precedes_total(last.updated_at, last.updated_at);
        if let Some(best) = collector::most_recent(rest) {
            let old = rest[best];
            text::lemma_precedes_total(last.session.ended_at, old.session.ended_at);
            text::lemma_precedes_total(last.updated_at, old.updated_at);
            let at = collector::most_recent(rows).unwrap();
            assert forall|k: int| 0 <= k < rows.len() implies !text::precedes(
                rows[at].session.ended_at,
                (#[trigger] rows[k]).session.ended_at,
            ) by {
                if k < rest.len() {
                    assert(!text::precedes(old.session.ended_at, rest[k].session.ended_at));
                    text::lemma_precedes_total(old.session.ended_at, rest[k].session.ended_at);
                    if text::precedes(last.session.ended_at, rest[k].session.ended_at)
                        && text::precedes(old.session.ended_at, last.session.ended_at) {
                        text::lemma_precedes_transitive(
                            old.session.ended_at,
                            last.session.ended_at,
                            rest[k].session.ended_at,
                        );
                    }
                }
            }
            assert forall|k: int|
                0 <= k < rows.len() && (#[trigger] rows[k]).session.ended_at
                    == rows[at].session.ended_at implies !text::precedes(
                rows[at].updated_at,
                rows[k].updated_at,
            ) by {
                if k < rest.len() {
                    if at == rest.len() {
                        assert(!text::precedes(old.session.ended_at, rest[k].session.ended_at));
                        if rest[k].session.ended_at == old.session.ended_at {
                            assert(!text::precedes(old.updated_at, rest[k].updated_at));
                            if text::precedes(last.updated_at, rest[k].updated_at)
                                && text::precedes(old.updated_at, last.updated_at) {
                                text::lemma_precedes_transitive(
                                    old.updated_at,
                                    last.updated_at,
                                    rest[k].updated_at,
                                );
                            }
                        }
                    }
                }
            }
        }
    }
}

/// The session is the same piece of work as the observation: nobody has confirmed it, it was collected
/// in the same way, and it has the same project, task, category and summary.
pub open spec fn is_same_work(
    row: SessionView,
    idle: bool,
    decision: DecisionView,
    summary: Seq<char>,
) -> bool {
    &&& !row.user_confirmed
    &&& row.source == if idle {
        "collector-idle"@
    } else {
        "collector-rule"@
    }
    &&& row.project_id == decision.project_id
    &&& row.task_id == decision.task_id
    &&& row.category == decision.category
    &&& row.summary == summary
}

/// An observation goes on with the session that ended last where that is the same piece of work and
/// the observation does not begin a new one; otherwise it begins a session. Either way the session
/// that holds it has the project, task and category of the decision, and all others stay as they are.
pub proof fn observations_are_held_by_their_session(
    rows: Seq<SyncSessionView>,
    event: RawEventView,
    idle: bool,
    decision: DecisionView,
    summary: Seq<char>,
    known: CatalogView,
    fresh_id: Seq<char>,
    at: Seq<char>,
)
    ensures
        ({
            let after = collector::collected(
                rows,
                event,
                idle,
                decision,
                summary,
                known,
                fresh_id,
                at,
            );
            let goes_on = event.metadata.member("contextStart"@) != Some(JsonView::Bool(true))
                && exists|last: int| #[trigger]
                is_latest(rows, last) && collector::most_recent(rows) == Some(last) && is_same_work(
                    rows[last].session,
                    idle,
                    decision,
                    summary,
                );
            &&& after.len() == if goes_on {
                rows.len()
            } else {
                rows.len() + 1
            }
            &&& exists|held: int|
                0 <= held < after.len() && (forall|k: int|
                    0 <= k < rows.len() && k != held ==> after[k] == #[trigger] rows[k])
                    && is_same_work((#[trigger] after[held]).session, idle, decision, summary)
                    && after[held].updated_at == at && shows(
                    event,
                    decision.evidence,
                    after[held].session.evidence,
                ) && !text::precedes(after[held].session.ended_at, event.timestamp) && if goes_on {
                    &&& held < rows.len() && is_latest(rows, held)
                    &&& after[held].session.id == rows[held].session.id
                    &&& after[held].session.started_at == rows[held].session.started_at
                    &&& after[held].session.ended_at == event.timestamp
                        || after[held].session.ended_at == rows[held].session.ended_at
                    &&& !text::precedes(
                        after[held].session.ended_at,
                        rows[held].session.ended_at,
                    )
                    &&& after[held].session.confidence >= rows[held].session.confidence
                    &&& after[held].session.confidence >= decision.confidence
                    &&& after[held].session.confidence == rows[held].session.confidence
                        || after[held].session.confidence == decision.confidence
                } else {
                    &&& held == rows.len()
                    &&& after[held].session.id == fresh_id
                    &&& after[held].session.started_at == event.timestamp
                    &&& after[held].session.ended_at == event.timestamp
                    &&& after[held].session.confidence == decision.confidence
                    &&& after[held].session.project_name == crate::catalog::project_name(
                        known,
                        decision.project_id,
                    )
                    &&& after[held].session.task_title == crate::catalog::task_title(
                        known,
                        decision.task_id,
                    )
                }
        }),
{
    let after = collector::collected(rows, event, idle, decision, summary, known, fresh_id, at);
    lemma_latest(rows);
    text::lemma_precedes_total(event.timestamp, event.timestamp);
    let evidence = collector::event_evidence(event, decision.evidence);
    assert(shows(event, decision.evidence, evidence));
    match collector::most_recent(rows) {
        Some(last) => {
            text::lemma_precedes_total(rows[last].session.ended_at, event.timestamp);
            text::lemma_precedes_total(rows[last].session.ended_at, rows[last].session.ended_at);
            if event.metadata.member("contextStart"@) != Some(JsonView::Bool(true)) && is_same_work(
                rows[last].session,
                idle,
                decision,
                summary,
            ) {
                assert(is_same_work(after[last].session, idle, decision, summary));
            } else {
                assert(is_same_work(
                    after[rows.len() as int].session,
                    idle,
                    decision,
                    summary,
                ));
            }
        },
        None => {
            assert(is_same_work(after[rows.len() as int].session, idle, decision, summary));
        },
    }
}

/// What is written down of an observation: the title of the page in front, or else of the window, then
/// the program, then what decided.
pub open spec fn shows(
    event: RawEventView,
    remembered: Option<EvidenceView>,
    evidence: Seq<EvidenceView>,
) -> bool {
    &&& evidence.len() == if remembered is Some {
        3
    } else {
        2int
    }
    &&& match event.metadata.member_text("activePageTitle"@) {
        Some(title) => if text::trimmed(title).len() > 0 {
            &&& evidence[0].kind == "page"@
            &&& evidence[0].value == title
            &&& evidence[0].weight == 0x3F51EB85
            &&& evidence[0].label == match event.metadata.member_text("activePageSource"@) {
                Some(source) => if source == "document-window-title"@ {
                    "当前文档"@
                } else if source == "qq-conversation-header"@ {
                    "当前会话"@
                } else {
                    "当前页面"@
                },
                None => "当前页面"@,
            }
        } else {
            shows_window(event, evidence[0])
        },
        None => shows_window(event, evidence[0]),
    }
    &&& evidence[1].kind == "app"@
    &&& evidence[1].weight == 0x3F000000
    &&& event.app matches Some(name) ==> evidence[1].value == name
    &&& remembered matches Some(item) ==> evidence[2] == item
}

pub open spec fn shows_window(event: RawEventView, item: EvidenceView) -> bool {
    &&& item.kind == "window"@
    &&& item.weight == 0x3F333333
    &&& event.window_title matches Some(title) ==> item.value == title
}

/// Nobody is at the computer once there was no input for as long as the user allowed, and not before.
pub proof fn absence_is_told_by_the_threshold(event: RawEventView, settings: SettingsView)
    ensures
        collector::away(event, settings) <==> event.input_stats.idle_seconds
            >= settings.idle_threshold_seconds,
{
}

/// A beat of the heart moves the end of its session, and nothing else.
pub proof fn heartbeats_move_only_the_end(row: SyncSessionView, timestamp: Seq<char>, at: Seq<char>)
    ensures
        ({
            let after = collector::extended(row, timestamp, at);
            &&& after.updated_at == at
            &&& after.session.ended_at == timestamp
            &&& after.session.id == row.session.id
            &&& after.session.started_at == row.session.started_at
            &&& after.session.project_id == row.session.project_id
            &&& after.session.task_id == row.session.task_id
            &&& after.session.category == row.session.category
            &&& after.session.summary == row.session.summary
            &&& after.session.confidence == row.session.confidence
            &&& after.session.evidence == row.session.evidence
            &&& after.session.user_confirmed == row.session.user_confirmed
            &&& after.session.source == row.session.source
        }),
{
}

/// A complete session waits for a review: only its source changes, time away stays time away, and
/// what the user confirmed stays as it is.
pub proof fn complete_sessions_wait_for_a_review(row: SessionView)
    ensures
        ({
            let after = collector::awaiting(row);
            &&& row.user_confirmed ==> after == row
            &&& !row.user_confirmed && (row.source == "collector-idle"@ || row.summary
                == "离开/空闲"@) ==> after.source == "collector-idle"@
            &&& !row.user_confirmed && row.source != "collector-idle"@ && row.summary
                != "离开/空闲"@ ==> after.source == "context-complete"@
            &&& after.id == row.id
            &&& after.started_at == row.started_at
            &&& after.ended_at == row.ended_at
            &&& after.project_id == row.project_id
            &&& after.task_id == row.task_id
            &&& after.category == row.category
            &&& after.summary == row.summary
            &&& after.confidence == row.confidence
            &&& after.evidence == row.evidence
            &&& after.user_confirmed == row.user_confirmed
        }),
{
}

/// The context before a session is the one that ended last among the other sessions that had begun by
/// then.
pub proof fn the_context_before_is_the_last_that_had_begun(
    rows: Seq<SyncSessionView>,
    id: Seq<char>,
    started_at: Seq<char>,
)
    ensures
        match collector::recent_context(rows, id, started_at) {
            Some(at) => {
                &&& 0 <= at < rows.len()
                &&& rows[at].session.id != id
                &&& !text::precedes(started_at, rows[at].session.started_at)
                &&& forall|k: int|
                    0 <= k < rows.len() && (#[trigger] rows[k]).session.id != id && !text::precedes(
                        started_at,
                        rows[k].session.started_at,
                    ) ==> !text::precedes(rows[at].session.ended_at, rows[k].session.ended_at)
            },
            None => forall|k: int|
                0 <= k < rows.len() ==> (#[trigger] rows[k]).session.id == id || text::precedes(
                    started_at,
                    rows[k].session.started_at,
                ),
        },
    decreases rows.len(),
{
    if rows.len() > 0 {
        let rest = rows.drop_last();
        let last = rows.last();
        the_context_before_is_the_last_that_had_begun(rest, id, started_at);
        assert(forall|k: int| 0 <= k < rest.len() ==> rows[k] == rest[k]);
        text::lemma_precedes_total(last.session.ended_at, last.session.ended_at);
        if let Some(best) = collector::recent_context(rest, id, started_at) {
            let old = rest[best];
            text::lemma_precedes_total(last.session.ended_at, old.session.ended_at);
            let at = collector::recent_context(rows, id, started_at).unwrap();
            assert forall|k: int|
                0 <= k < rows.len() && (#[trigger] rows[k]).session.id != id && !text::precedes(
                    started_at,
                    rows[k].session.started_at,
                ) implies !text::precedes(rows[at].session.ended_at, rows[k].session.ended_at) by {
                if k < rest.len() {
                    assert(!text::precedes(old.session.ended_at, rest[k].session.ended_at));
                    text::lemma_precedes_total(old.session.ended_at, rest[k].session.ended_at);
                    if text::precedes(last.session.ended_at, rest[k].session.ended_at)
                        && text::precedes(old.session.ended_at, last.session.ended_at) {
                        text::lemma_precedes_transitive(
                            old.session.ended_at,
                            last.session.ended_at,
                            rest[k].session.ended_at,
                        );
                    }
                }
            }
        }
    }
}

/// A review of time away is put back: the session is time away again where the review asked about it,
/// nobody confirmed it and the review wrote it. Its time, id and evidence stay, and no other session
/// changes.
pub proof fn reviews_of_time_away_are_put_back(
    item: SyncSessionView,
    ids: Seq<Seq<char>>,
    project: Seq<char>,
    settings: SettingsView,
    at: Seq<char>,
)
    ensures
        ({
            let after = collector::unreviewed_idle(item, ids, project, settings, at);
            if ids.contains(item.session.id) && !item.session.user_confirmed && item.session.source
                == "ai-review"@ {
                &&& after.session.project_id == Some(project)
                &&& after.session.task_id is None
                &&& after.session.category == settings.idle_category
                &&& after.session.summary == "离开/空闲"@
                &&& after.session.source == "collector-idle"@
                &&& after.session.id == item.session.id
                &&& after.session.started_at == item.session.started_at
                &&& after.session.ended_at == item.session.ended_at
                &&& after.session.evidence == item.session.evidence
                &&& !after.session.user_confirmed
                &&& after.session.confidence >= item.session.confidence
                &&& after.session.confidence >= 0x3F75C28F
                &&& after.updated_at == at
            } else {
                after == item
            }
        }),
{
}

/// A review that named only a placeholder returns to the queue: without project and task, and no more
/// certain than before the review. Nothing else of it changes, and no other session does.
pub proof fn placeholder_reviews_return_to_the_queue(
    item: SyncSessionView,
    placeholder: bool,
    at: Seq<char>,
)
    ensures
        ({
            let after = collector::requeued(item, placeholder, at);
            if placeholder && !item.session.user_confirmed && item.session.source == "ai-review"@ {
                &&& after.session.project_id is None
                &&& after.session.task_id is None
                &&& after.session.source == "context-complete"@
                &&& after.session.confidence <= 0x3F4A3D71
                &&& after.session.confidence <= item.session.confidence
                &&& after.session.confidence == item.session.confidence
                    || after.session.confidence == 0x3F4A3D71
                &&& after.session.id == item.session.id
                &&& after.session.started_at == item.session.started_at
                &&& after.session.ended_at == item.session.ended_at
                &&& after.session.category == item.session.category
                &&& after.session.summary == item.session.summary
                &&& after.session.evidence == item.session.evidence
                &&& !after.session.user_confirmed
                &&& after.updated_at == at
            } else {
                after == item
            }
        }),
{
}

} // verus!
