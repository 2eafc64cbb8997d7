//! Promises of confirmed contexts: how far a confirmation reaches, and what it changes.
use vstd::prelude::*;

use crate::clock;
use crate::context;
use crate::context::SpreadView;
use crate::labels;
use crate::lists;
use crate::models::SessionView;
use crate::sessions;
use crate::text;

verus! {

broadcast use vstd::seq_lib::group_seq_properties;

/// The session was placed by the program itself.
pub open spec fn is_automatic(session: SessionView) -> bool {
    session.source == "collector-rule"@ || session.source == "collector-idle"@ || session.source
        == "context-complete"@
}

/// A confirmation never passes time away, nor a session with another assignment that was confirmed, is
/// sure by at least 0.9 of its task, or did not come from the program itself.
pub proof fn confirmations_stop_at_other_work(row: SessionView, anchor: SessionView)
    ensures
        row.source == "collector-idle"@ ==> context::stops_spread(row, anchor),
        (row.project_id != anchor.project_id || row.task_id != anchor.task_id) && (
        row.user_confirmed || !is_automatic(row) || (row.task_id is Some && row.confidence
            >= 0x3F666666)) ==> context::stops_spread(row, anchor),
        row.project_id == anchor.project_id && row.task_id == anchor.task_id && row.source
            != "collector-idle"@ ==> !context::stops_spread(row, anchor),
        row.source != "collector-idle"@ && !row.user_confirmed && is_automatic(row) && (
        row.task_id is None || row.confidence < 0x3F666666) ==> !context::stops_spread(row, anchor),
{
}

/// The row follows without a pause of more than thirty seconds.
pub open spec fn follows_closely(left_end: Seq<char>, right_start: Seq<char>) -> bool {
    clock::gap_seconds(left_end, right_start) matches Some(gap) && gap <= 30
}

/// A confirmation reaches the sessions behind it as long as each follows the one before closely and
/// none stops it, and no further.
pub proof fn confirmations_reach_on(
    rows: Seq<SessionView>,
    anchor: SessionView,
    cursor: Seq<char>,
)
    ensures
        ({
            let reached = context::reached_behind(rows, anchor, cursor);
            let n = reached.len() as int;
            &&& n <= rows.len()
            &&& reached == rows.take(n)
            &&& forall|k: int|
                0 <= k < n ==> !context::stops_spread(#[trigger] rows[k], anchor)
                    && follows_closely(
                    if k == 0 {
                        cursor
                    } else {
                        rows[k - 1].ended_at
                    },
                    rows[k].started_at,
                )
            &&& n < rows.len() ==> context::stops_spread(rows[n], anchor) || !follows_closely(
                if n == 0 {
                    cursor
                } else {
                    rows[n - 1].ended_at
                },
                rows[n].started_at,
            )
        }),
    decreases rows.len(),
{
    let reached = context::reached_behind(rows, anchor, cursor);
    if rows.len() == 0 || context::apart(cursor, rows[0].started_at) || context::stops_spread(
        rows[0],
        anchor,
    ) {
        assert(rows.take(0) =~= Seq::empty());
    } else {
        let rest = rows.drop_first();
        confirmations_reach_on(rest, anchor, rows[0].ended_at);
        let further = context::reached_behind(rest, anchor, rows[0].ended_at);
        let n = reached.len() as int;
        assert(reached =~= rows.take(n));
        assert forall|k: int| 0 <= k < n implies !context::stops_spread(#[trigger] rows[k], anchor)
            && follows_closely(
            if k == 0 {
                cursor
            } else {
                rows[k - 1].ended_at
            },
            rows[k].started_at,
        ) by {
            if k > 0 {
                assert(rest[k - 1] == rows[k]);
                if k > 1 {
                    assert(rest[k - 2] == rows[k - 1]);
                }
            }
        }
        if n < rows.len() {
            assert(rest[n - 1] == rows[n]);
            if n > 1 {
                assert(rest[n - 2] == rows[n - 1]);
            }
        }
    }
}

/// A confirmation reaches back the same way: no session that it reaches stops it, or lies apart.
pub proof fn confirmations_reach_back(
    rows: Seq<SessionView>,
    anchor: SessionView,
    cursor: Seq<char>,
)
    ensures
        ({
            let reached = context::reached_before(rows, anchor, cursor);
            let n = reached.len() as int;
            &&& n <= rows.len()
            &&& forall|k: int|
                0 <= k < n ==> #[trigger] reached[k] == rows[rows.len() - 1 - k]
                    && !context::stops_spread(reached[k], anchor)
            &&& n > 0 ==> follows_closely(reached[0].ended_at, cursor)
            &&& forall|k: int|
                0 < k < n ==> follows_closely(
                    (#[trigger] reached[k]).ended_at,
                    reached[k - 1].started_at,
                )
            &&& n == 0 && rows.len() > 0 ==> context::stops_spread(rows.last(), anchor)
                || !follows_closely(rows.last().ended_at, cursor)
        }),
    decreases rows.len(),
{
    let reached = context::reached_before(rows, anchor, cursor);
    if !(rows.len() == 0 || context::apart(rows.last().ended_at, cursor) || context::stops_spread(
        rows.last(),
        anchor,
    )) {
        let rest = rows.drop_last();
        confirmations_reach_back(rest, anchor, rows.last().started_at);
        let further = context::reached_before(rest, anchor, rows.last().started_at);
        assert(reached[0] == rows.last());
        assert forall|k: int| 0 <= k < reached.len() implies #[trigger] reached[k] == rows[rows.len()
            - 1 - k] && !context::stops_spread(reached[k], anchor) by {
            if k > 0 {
                assert(reached[k] == further[k - 1]);
                assert(rest[rest.len() - 1 - (k - 1)] == rows[rows.len() - 1 - k]);
            }
        }
        assert forall|k: int| 0 < k < reached.len() implies follows_closely(
            (#[trigger] reached[k]).ended_at,
            reached[k - 1].started_at,
        ) by {
            assert(reached[k] == further[k - 1]);
            if k > 1 {
                assert(reached[k - 1] == further[k - 2]);
            }
        }
    }
}

/// A session that a confirmation reaches takes its project, task and category; time, evidence and
/// origin stay. What it says stays too, unless it said that nobody was there.
pub proof fn reached_sessions_take_the_assignment(row: SessionView, anchor: SessionView)
    ensures
        ({
            let after = context::spread_to(row, anchor);
            &&& takes_assignment(after, anchor)
            &&& after.project_name == anchor.project_name && after.task_title == anchor.task_title
            &&& after.id == row.id && after.started_at == row.started_at && after.ended_at
                == row.ended_at && after.evidence == row.evidence && after.source == row.source
                && after.user_confirmed == row.user_confirmed
            &&& row.summary != "离开/空闲"@ ==> after.summary == row.summary
            &&& row.summary == "离开/空闲"@ ==> after.summary == anchor.summary
            &&& after.confidence >= row.confidence && after.confidence >= 0x3F666666
            &&& after.confidence == row.confidence || after.confidence == 0x3F666666
        }),
{
}

/// The row has the project, the task and the category of the other.
pub open spec fn takes_assignment(row: SessionView, anchor: SessionView) -> bool {
    &&& row.project_id == anchor.project_id
    &&& row.task_id == anchor.task_id
    &&& row.category == anchor.category
}

proof fn lemma_spread_on(
    state: SpreadView,
    rows: Seq<SessionView>,
    anchor: SessionView,
    k: int,
)
    requires
        0 <= k < state.table.len(),
    ensures
        context::spread_on(state, rows, anchor).table.len() == state.table.len(),
        context::spread_on(state, rows, anchor).table[k].id == state.table[k].id,
        context::spread_on(state, rows, anchor).table[k] == state.table[k] || takes_assignment(
            context::spread_on(state, rows, anchor).table[k],
            anchor,
        ),
        context::spread_on(state, rows, anchor).table[k] != state.table[k] ==> exists|m: int|
            0 <= m < rows.len() && (#[trigger] rows[m]).id == state.table[k].id
                && !rows[m].user_confirmed,
    decreases rows.len(),
{
    if rows.len() > 0 {
        let rest = rows.drop_last();
        lemma_spread_on(state, rest, anchor, k);
        let before = context::spread_on(state, rest, anchor);
        let after = context::spread_on(state, rows, anchor);
        if before.table[k] != state.table[k] {
            let m = choose|m: int|
                0 <= m < rest.len() && (#[trigger] rest[m]).id == state.table[k].id
                    && !rest[m].user_confirmed;
            assert(rows[m] == rest[m]);
        }
        if after.table[k] != before.table[k] {
            assert(rows[rows.len() - 1].id == state.table[k].id);
        }
    }
}

/// A session that a confirmation changes takes the assignment of the confirmed session, and was neither
/// confirmed nor stopped the confirmation; all others stay as they are. A session that is not
/// confirmed, or lacks a project or a task, changes nothing.
pub proof fn confirmations_change_only_what_they_reach(
    state: SpreadView,
    anchor_id: Seq<char>,
    k: int,
)
    requires
        0 <= k < state.table.len(),
    ensures
        context::spread_from(state, anchor_id) matches Ok(after) ==> {
            &&& after.table.len() == state.table.len()
            &&& after.table[k] == state.table[k] || (sessions::find(state.table, anchor_id) is Some
                && sessions::find(state.table, anchor_id).unwrap().user_confirmed
                && sessions::find(state.table, anchor_id).unwrap().project_id is Some
                && sessions::find(state.table, anchor_id).unwrap().task_id is Some
                && takes_assignment(
                after.table[k],
                sessions::find(state.table, anchor_id).unwrap(),
            ))
        },
{
    if let Some(anchor) = sessions::find(state.table, anchor_id) {
        if let Ok(after) = context::spread_from(state, anchor_id) {
            if anchor.project_id is Some && anchor.task_id is Some && anchor.user_confirmed {
                let start = clock::moment_of(anchor.started_at).unwrap();
                let end = clock::moment_of(anchor.ended_at).unwrap();
                let from = clock::shifted(start, -14_400);
                let to = clock::shifted(end, 14_400);
                let rows = context::rows_between(
                    state.table,
                    clock::rfc3339_text(from.seconds, from.nanos),
                    clock::rfc3339_text(to.seconds, to.nanos),
                );
                lemma_spread_on(state, context::reached(rows, anchor), anchor, k);
            }
        }
    }
}

proof fn lemma_put_in_time(sorted: Seq<SessionView>, row: SessionView)
    ensures
        forall|other: SessionView| #[trigger]
            context::insert_by_time(sorted, row).contains(other) <==> sorted.contains(other)
                || other == row,
    decreases sorted.len(),
{
    let after = context::insert_by_time(sorted, row);
    if sorted.len() == 0 || !context::earlier(row, sorted.last()) {
        assert forall|other: SessionView| #[trigger]
            after.contains(other) <==> sorted.contains(other) || other == row by {
            if sorted.contains(other) {
                let k = choose|k: int| 0 <= k < sorted.len() && sorted[k] == other;
                assert(after[k] == other);
            }
            assert(after[sorted.len() as int] == row);
        }
    } else {
        let rest = sorted.drop_last();
        lemma_put_in_time(rest, row);
        let before = context::insert_by_time(rest, row);
        assert forall|other: SessionView| #[trigger]
            after.contains(other) <==> sorted.contains(other) || other == row by {
            if sorted.contains(other) || other == row {
                if sorted.contains(other) {
                    let k = choose|k: int| 0 <= k < sorted.len() && sorted[k] == other;
                    if k < rest.len() {
                        assert(rest[k] == other);
                        assert(rest.contains(other));
                    } else {
                        assert(after[before.len() as int] == other);
                    }
                }
                if before.contains(other) {
                    let k = choose|k: int| 0 <= k < before.len() && before[k] == other;
                    assert(after[k] == other);
                }
            }
            if after.contains(other) {
                let k = choose|k: int| 0 <= k < after.len() && after[k] == other;
                if k < before.len() {
                    assert(before.contains(other));
                    if rest.contains(other) {
                        let m = choose|m: int| 0 <= m < rest.len() && rest[m] == other;
                        assert(sorted[m] == other);
                    }
                } else {
                    assert(sorted[sorted.len() - 1] == other);
                }
            }
        }
    }
}

/// The sessions of a span are those that begin no later than its end and end no earlier than its start.
pub proof fn sessions_of_a_span_share_time_with_it(
    table: Seq<SessionView>,
    from: Seq<char>,
    to: Seq<char>,
    row: SessionView,
)
    ensures
        context::rows_between(table, from, to).contains(row) <==> table.contains(row)
            && !text::precedes(to, row.started_at) && !text::precedes(row.ended_at, from),
    decreases table.len(),
{
    if table.len() > 0 {
        let rest = table.drop_last();
        let last = table.last();
        sessions_of_a_span_share_time_with_it(rest, from, to, row);
        lemma_put_in_time(context::rows_between(rest, from, to), last);
        if table.contains(row) {
            let k = choose|k: int| 0 <= k < table.len() && table[k] == row;
            if k < rest.len() {
                assert(rest[k] == row);
                assert(rest.contains(row));
            }
        }
        if rest.contains(row) {
            let k = choose|k: int| 0 <= k < rest.len() && rest[k] == row;
            assert(table[k] == row);
        }
        assert(table[table.len() - 1] == last);
    }
}

/// A session is repaired only towards what confirmed sessions of the same context agree on, at least
/// three of them, from the first of them on. Confirmed sessions and time away are never repaired, and a
/// repair keeps the session's time, words and evidence.
pub proof fn repairs_follow_agreement(confirmed: Seq<SessionView>, row: SessionView)
    ensures
        row.user_confirmed || row.summary == "离开/空闲"@ || row.source == "collector-idle"@
            ==> context::repaired(confirmed, row) is None,
        context::repaired(confirmed, row) matches Some(after) ==> {
            &&& after.id == row.id && after.started_at == row.started_at && after.ended_at
                == row.ended_at && after.summary == row.summary && after.evidence == row.evidence
                && !after.user_confirmed
            &&& after.source == "context-memory"@
            &&& after.confidence >= 0x3F6B851F && after.confidence >= row.confidence
            &&& exists|k: int|
                0 <= k < confirmed.len() && is_model(confirmed, row, after, #[trigger] confirmed[k])
            &&& context::votes(
                confirmed,
                context::context_signature(row.evidence).unwrap(),
            ).len() >= 3
            &&& exists|k: int|
                0 <= k < confirmed.len() && is_forerunner(row, #[trigger] confirmed[k])
        },
{
    if let Some(after) = context::repaired(confirmed, row) {
        let signature = context::context_signature(row.evidence).unwrap();
        let keep = |row: SessionView| context::votes_for(row, signature);
        let list = context::votes(confirmed, signature);
        lists::lemma_filtered(confirmed, keep);
        assert(list == confirmed.filter(keep));
        assert(confirmed.contains(list[0]) && keep(list[0]));
        let k = choose|k: int| 0 <= k < confirmed.len() && confirmed[k] == list[0];
        assert forall|m: int|
            0 <= m < confirmed.len() && context::votes_for(
                #[trigger] confirmed[m],
                signature,
            ) implies has_vote(confirmed[m], list[0]) by {
            assert(confirmed.contains(confirmed[m]) && keep(confirmed[m]));
            assert(list.contains(confirmed[m]));
            let i = choose|i: int| 0 <= i < list.len() && list[i] == confirmed[m];
            assert(context::vote_key(list[i]) == context::vote_key(list[0]));
        }
        assert(is_model(confirmed, row, after, confirmed[k]));
        lemma_earliest(list);
        let i = choose|i: int|
            0 <= i < list.len() && (#[trigger] list[i]).started_at == context::earliest_start(list);
        assert(confirmed.contains(list[i]) && keep(list[i]));
        let m = choose|m: int| 0 <= m < confirmed.len() && confirmed[m] == list[i];
        assert(is_forerunner(row, confirmed[m]));
    }
}

/// The confirmed session has the context of the row, and the row does not begin before it.
pub open spec fn is_forerunner(row: SessionView, known: SessionView) -> bool {
    &&& known.user_confirmed
    &&& context::context_signature(known.evidence) == context::context_signature(row.evidence)
    &&& !text::precedes(row.started_at, known.started_at)
}

proof fn lemma_earliest(list: Seq<SessionView>)
    requires
        list.len() > 0,
    ensures
        exists|i: int|
            0 <= i < list.len() && (#[trigger] list[i]).started_at == context::earliest_start(list),
        forall|i: int|
            0 <= i < list.len() ==> !text::precedes(
                (#[trigger] list[i]).started_at,
                context::earliest_start(list),
            ),
    decreases list.len(),
{
    let first = context::earliest_start(list);
    text::lemma_precedes_total(first, first);
    if list.len() == 1 {
        assert(list[0].started_at == first);
    } else {
        let rest = list.drop_last();
        lemma_earliest(rest);
        let before = context::earliest_start(rest);
        let last = list.last().started_at;
        let i = choose|i: int| 0 <= i < rest.len() && (#[trigger] rest[i]).started_at == before;
        assert(list[i].started_at == before);
        assert(list[list.len() - 1].started_at == last);
        assert forall|i: int| 0 <= i < list.len() implies !text::precedes(
            (#[trigger] list[i]).started_at,
            first,
        ) by {
            if i < rest.len() {
                assert(rest[i] == list[i]);
                if first == last && text::precedes(list[i].started_at, last) && text::precedes(
                    last,
                    before,
                ) {
                    text::lemma_precedes_transitive(list[i].started_at, last, before);
                }
            }
        }
    }
}

/// Three confirmed sessions of one context that agree repair every later session of that context that
/// was placed otherwise and is neither confirmed nor time away.
pub proof fn agreement_repairs(confirmed: Seq<SessionView>, row: SessionView, known: SessionView)
    requires
        !row.user_confirmed,
        row.summary != "离开/空闲"@,
        row.source != "collector-idle"@,
        context::context_signature(row.evidence) is Some,
        context::votes(confirmed, context::context_signature(row.evidence).unwrap()).len() >= 3,
        context::votes(confirmed, context::context_signature(row.evidence).unwrap())[0] == known,
        forall|k: int|
            0 <= k < confirmed.len() && context::votes_for(
                #[trigger] confirmed[k],
                context::context_signature(row.evidence).unwrap(),
            ) ==> has_vote(confirmed[k], known) && !text::precedes(
                row.started_at,
                confirmed[k].started_at,
            ),
        row.project_id != known.project_id || row.task_id != known.task_id || row.category
            != known.category,
    ensures
        context::repaired(confirmed, row) matches Some(after) && takes_assignment(after, known),
{
    let signature = context::context_signature(row.evidence).unwrap();
    let keep = |row: SessionView| context::votes_for(row, signature);
    let list = context::votes(confirmed, signature);
    lists::lemma_filtered(confirmed, keep);
    assert(list == confirmed.filter(keep));
    assert forall|i: int| 0 <= i < list.len() implies context::vote_key(#[trigger] list[i])
        == context::vote_key(list[0]) && !text::precedes(row.started_at, list[i].started_at) by {
        assert(confirmed.contains(list[i]) && keep(list[i]));
        let k = choose|k: int| 0 <= k < confirmed.len() && confirmed[k] == list[i];
        assert(has_vote(confirmed[k], known));
    }
    lemma_earliest(list);
    let i = choose|i: int|
        0 <= i < list.len() && (#[trigger] list[i]).started_at == context::earliest_start(list);
    assert(!text::precedes(row.started_at, list[i].started_at));
}

/// The two sessions name one project, task and category.
pub open spec fn has_vote(row: SessionView, known: SessionView) -> bool {
    labels::or_empty(row.project_id) + "\u{1f}"@ + labels::or_empty(row.task_id) + "\u{1f}"@
        + row.category == labels::or_empty(known.project_id) + "\u{1f}"@ + labels::or_empty(
        known.task_id,
    ) + "\u{1f}"@ + known.category
}

/// The confirmed session has the context of the row, the assignment that it is given, and the vote of
/// all confirmed sessions of that context.
pub open spec fn is_model(
    confirmed: Seq<SessionView>,
    row: SessionView,
    after: SessionView,
    known: SessionView,
) -> bool {
    &&& known.user_confirmed
    &&& known.project_id is Some
    &&& known.task_id is Some
    &&& takes_assignment(after, known)
    &&& context::context_signature(row.evidence) is Some
    &&& context::context_signature(known.evidence) == context::context_signature(row.evidence)
    &&& forall|m: int|
        0 <= m < confirmed.len() && context::votes_for(
            #[trigger] confirmed[m],
            context::context_signature(row.evidence).unwrap(),
        ) ==> has_vote(confirmed[m], known)
}

} // verus!
