//! Spreading confirmed work to the sessions around it, and to sessions in the same context.
use vstd::prelude::*;
use vstd::string::*;

use crate::clock;
use crate::clock::Moment;
use crate::labels;
use crate::models::{EvidenceItem, EvidenceView, SessionView, WorkSession};
use crate::models;
use crate::score;
use crate::sessions;
use crate::text;

verus! {

broadcast use vstd::seq_lib::group_seq_properties;

/// How far around a confirmed session its assignment may spread.
pub const SPREAD_SECONDS: i64 = 14_400;

/// How long a pause may be within one stretch of work.
pub const SPREAD_PAUSE_SECONDS: i64 = 30;

/// `left` comes before `right` by start, then by end.
pub open spec fn earlier(left: SessionView, right: SessionView) -> bool {
    text::precedes(left.started_at, right.started_at) || (left.started_at == right.started_at
        && text::precedes(left.ended_at, right.ended_at))
}

fn is_earlier(left: &WorkSession, right: &WorkSession) -> (result: bool)
    ensures
        result == earlier(left@, right@),
{
    text::less(left.started_at.as_str(), right.started_at.as_str()) || (text::same(
        left.started_at.as_str(),
        right.started_at.as_str(),
    ) && text::less(left.ended_at.as_str(), right.ended_at.as_str()))
}

pub open spec fn insert_by_time(sorted: Seq<SessionView>, row: SessionView) -> Seq<SessionView>
    decreases sorted.len(),
{
    if sorted.len() == 0 || !earlier(row, sorted.last()) {
        sorted.push(row)
    } else {
        insert_by_time(sorted.drop_last(), row).push(sorted.last())
    }
}

/// The rows that share time with the span, by start and end.
pub open spec fn rows_between(
    table: Seq<SessionView>,
    from: Seq<char>,
    to: Seq<char>,
) -> Seq<SessionView>
    decreases table.len(),
{
    if table.len() == 0 {
        Seq::empty()
    } else {
        let before = rows_between(table.drop_last(), from, to);
        let row = table.last();
        if !text::precedes(to, row.started_at) && !text::precedes(row.ended_at, from) {
            insert_by_time(before, row)
        } else {
            before
        }
    }
}

/// Putting a row in after the first ones is inserting it there.
proof fn lemma_put_in(list: Seq<SessionView>, row: SessionView, at: int)
    requires
        0 <= at <= list.len(),
    ensures
        list.take(at).push(row) + list.skip(at) == list.insert(at, row),
{
    assert(list.take(at).push(row) + list.skip(at) =~= list.insert(at, row));
}

#[verifier::spinoff_prover]
#[verifier::rlimit(60)]
fn insert_row(sorted: &mut Vec<WorkSession>, row: WorkSession)
    ensures
        sessions::session_views(final(sorted)@) == insert_by_time(
            sessions::session_views(old(sorted)@),
            row@,
        ),
{
    let ghost before = sessions::session_views(sorted@);
    let mut at: usize = sorted.len();
    assert(before.take(at as int) =~= before);
    assert(insert_by_time(before.take(at as int), row@) + before.skip(at as int) =~= insert_by_time(
        before,
        row@,
    ));
    while at > 0 && is_earlier(&row, &sorted[at - 1])
        invariant
            at <= sorted.len(),
            before == sessions::session_views(sorted@),
            insert_by_time(before.take(at as int), row@) + before.skip(at as int)
                == insert_by_time(before, row@),
        decreases at,
    {
        let ghost head = before.take(at as int);
        assert(head.drop_last() =~= before.take(at - 1));
        assert(head.last() == sorted@[at - 1]@);
        assert(insert_by_time(head.drop_last(), row@).push(head.last()) + before.skip(at as int)
            =~= insert_by_time(before.take(at - 1), row@) + before.skip(at - 1));
        at -= 1;
    }
    proof {
        if at > 0 {
            assert(before.take(at as int).last() == sorted@[at - 1]@);
        }
        assert(insert_by_time(before.take(at as int), row@) == before.take(at as int).push(row@));
        lemma_put_in(before, row@, at as int);
    }
    sorted.insert(at, row);
    assert(sessions::session_views(sorted@) =~= before.insert(at as int, row@));
}

fn list_rows_between(table: &Vec<WorkSession>, from: &str, to: &str) -> (result: Vec<WorkSession>)
    ensures
        sessions::session_views(result@) == rows_between(
            sessions::session_views(table@),
            from@,
            to@,
        ),
{
    let ghost views = sessions::session_views(table@);
    let mut result: Vec<WorkSession> = Vec::new();
    let mut i: usize = 0;
    while i < table.len()
        invariant
            i <= table.len(),
            views == sessions::session_views(table@),
            sessions::session_views(result@) == rows_between(views.take(i as int), from@, to@),
        decreases table.len() - i,
    {
        assert(views.take(i + 1).drop_last() =~= views.take(i as int));
        assert(views.take(i + 1).last() == table@[i as int]@);
        let row = &table[i];
        if !text::less(to, row.started_at.as_str()) && !text::less(row.ended_at.as_str(), from) {
            insert_row(&mut result, row.copy());
        }
        i += 1;
    }
    assert(views.take(table.len() as int) =~= views);
    result
}

/// How many rows come before the first one with this id.
pub open spec fn position(rows: Seq<SessionView>, id: Seq<char>) -> nat
    decreases rows.len(),
{
    if rows.len() == 0 || rows[0].id == id {
        0
    } else {
        1 + position(rows.drop_first(), id)
    }
}

fn find_position(rows: &Vec<WorkSession>, id: &str) -> (result: usize)
    ensures
        result == position(sessions::session_views(rows@), id@),
        result <= rows.len(),
{
    let ghost views = sessions::session_views(rows@);
    let mut i: usize = 0;
    assert(views.skip(0) =~= views);
    while i < rows.len()
        invariant
            i <= rows.len(),
            views == sessions::session_views(rows@),
            position(views, id@) == i + position(views.skip(i as int), id@),
        decreases rows.len() - i,
    {
        assert(views.skip(i as int)[0] == rows@[i as int]@);
        if text::same(rows[i].id.as_str(), id) {
            return i;
        }
        assert(views.skip(i as int).drop_first() =~= views.skip(i + 1));
        i += 1;
    }
    i
}

/// The row has the project and task of the anchor.
pub open spec fn shares_assignment(row: SessionView, anchor: SessionView) -> bool {
    row.project_id == anchor.project_id && row.task_id == anchor.task_id
}

fn is_sharing_assignment(row: &WorkSession, anchor: &WorkSession) -> (result: bool)
    ensures
        result == shares_assignment(row@, anchor@),
{
    text::same_optional(&row.project_id, &anchor.project_id) && text::same_optional(
        &row.task_id,
        &anchor.task_id,
    )
}

/// The row is other work, or time away, which the spread does not cross.
pub open spec fn stops_spread(row: SessionView, anchor: SessionView) -> bool {
    ||| row.source == "collector-idle"@
    ||| !shares_assignment(row, anchor) && (row.user_confirmed || (row.task_id is Some
        && row.confidence >= score::PROPAGATED) || !labels::auto_source(row.source))
}

fn is_stopping_spread(row: &WorkSession, anchor: &WorkSession) -> (result: bool)
    ensures
        result == stops_spread(row@, anchor@),
{
    text::same(row.source.as_str(), "collector-idle") || (!is_sharing_assignment(row, anchor) && (
    row.user_confirmed || (row.task_id.is_some() && row.confidence >= score::PROPAGATED)
        || !labels::is_auto_session_source(row.source.as_str())))
}

/// Too long a pause for one stretch of work.
pub open spec fn apart(left_end: Seq<char>, right_start: Seq<char>) -> bool {
    match clock::gap_seconds(left_end, right_start) {
        Some(gap) => gap > SPREAD_PAUSE_SECONDS,
        None => true,
    }
}

/// The rows that the spread reaches backwards, nearest first.
pub open spec fn reached_before(
    rows: Seq<SessionView>,
    anchor: SessionView,
    cursor: Seq<char>,
) -> Seq<SessionView>
    decreases rows.len(),
{
    if rows.len() == 0 || apart(rows.last().ended_at, cursor) || stops_spread(rows.last(), anchor) {
        Seq::empty()
    } else {
        seq![rows.last()] + reached_before(rows.drop_last(), anchor, rows.last().started_at)
    }
}

/// The rows that the spread reaches forwards, nearest first.
pub open spec fn reached_behind(
    rows: Seq<SessionView>,
    anchor: SessionView,
    cursor: Seq<char>,
) -> Seq<SessionView>
    decreases rows.len(),
{
    if rows.len() == 0 || apart(cursor, rows[0].started_at) || stops_spread(rows[0], anchor) {
        Seq::empty()
    } else {
        seq![rows[0]] + reached_behind(rows.drop_first(), anchor, rows[0].ended_at)
    }
}

/// Both walks, the backward one first.
pub open spec fn reached(rows: Seq<SessionView>, anchor: SessionView) -> Seq<SessionView> {
    let at = position(rows, anchor.id) as int;
    if at < rows.len() {
        reached_before(rows.take(at), anchor, anchor.started_at) + reached_behind(
            rows.skip(at + 1),
            anchor,
            anchor.ended_at,
        )
    } else {
        Seq::empty()
    }
}

fn walk(rows: &Vec<WorkSession>, anchor: &WorkSession) -> (result: Vec<WorkSession>)
    ensures
        sessions::session_views(result@) == reached(sessions::session_views(rows@), anchor@),
{
    let ghost views = sessions::session_views(rows@);
    let at: usize = find_position(rows, anchor.id.as_str());
    let mut result: Vec<WorkSession> = Vec::new();
    if at >= rows.len() {
        assert(sessions::session_views(result@) =~= Seq::empty());
        return result;
    }
    let ghost backward = reached_before(views.take(at as int), anchor@, anchor@.started_at);
    let mut cursor: String = anchor.started_at.clone();
    let mut i: usize = at;
    let mut open: bool = true;
    assert(sessions::session_views(result@) + backward =~= backward);
    while i > 0 && open
        invariant
            i <= at < rows.len(),
            views == sessions::session_views(rows@),
            sessions::session_views(result@) + (if open {
                reached_before(views.take(i as int), anchor@, cursor@)
            } else {
                Seq::empty()
            }) == backward,
        decreases i, open as int,
    {
        let row = &rows[i - 1];
        let ghost head = views.take(i as int);
        let ghost done = sessions::session_views(result@);
        assert(head.last() == row@);
        assert(head.drop_last() =~= views.take(i - 1));
        if clock::context_is_disconnected(
            row.ended_at.as_str(),
            cursor.as_str(),
            SPREAD_PAUSE_SECONDS,
        ) || is_stopping_spread(row, anchor) {
            open = false;
        } else {
            let ghost rest = reached_before(views.take(i - 1), anchor@, row@.started_at);
            result.push(row.copy());
            cursor = row.started_at.clone();
            assert(sessions::session_views(result@) =~= done.push(row@));
            assert(done + (seq![row@] + rest) =~= done.push(row@) + rest);
            i -= 1;
        }
    }
    assert(sessions::session_views(result@) =~= backward);
    let ghost forward = reached_behind(views.skip(at + 1), anchor@, anchor@.ended_at);
    cursor = anchor.ended_at.clone();
    i = at + 1;
    open = true;
    while i < rows.len() && open
        invariant
            at < i <= rows.len(),
            views == sessions::session_views(rows@),
            sessions::session_views(result@) + (if open {
                reached_behind(views.skip(i as int), anchor@, cursor@)
            } else {
                Seq::empty()
            }) == backward + forward,
        decreases rows.len() - i, open as int,
    {
        let row = &rows[i];
        let ghost left = views.skip(i as int);
        let ghost done = sessions::session_views(result@);
        assert(left[0] == row@);
        assert(left.drop_first() =~= views.skip(i + 1));
        if clock::context_is_disconnected(
            cursor.as_str(),
            row.started_at.as_str(),
            SPREAD_PAUSE_SECONDS,
        ) || is_stopping_spread(row, anchor) {
            open = false;
        } else {
            let ghost rest = reached_behind(views.skip(i + 1), anchor@, row@.ended_at);
            result.push(row.copy());
            cursor = row.ended_at.clone();
            assert(sessions::session_views(result@) =~= done.push(row@));
            assert(done + (seq![row@] + rest) =~= done.push(row@) + rest);
            i += 1;
        }
    }
    assert(sessions::session_views(result@) =~= backward + forward);
    result
}

/// The row needs the anchor's assignment.
pub open spec fn needs_spread(row: SessionView, anchor: SessionView) -> bool {
    !row.user_confirmed && (!shares_assignment(row, anchor) || (row.summary == "离开/空闲"@
        && anchor.summary != "离开/空闲"@))
}

/// The row with the anchor's assignment.
pub open spec fn spread_to(row: SessionView, anchor: SessionView) -> SessionView {
    SessionView {
        project_id: anchor.project_id,
        project_name: anchor.project_name,
        task_id: anchor.task_id,
        task_title: anchor.task_title,
        category: anchor.category,
        summary: if row.summary == "离开/空闲"@ {
            anchor.summary
        } else {
            row.summary
        },
        confidence: score::greater(row.confidence, score::PROPAGATED),
        ..row
    }
}

/// The table with the anchor's assignment on the unconfirmed row with this id.
pub open spec fn spread_over(
    table: Seq<SessionView>,
    id: Seq<char>,
    anchor: SessionView,
) -> Seq<SessionView> {
    table.map_values(
        |row: SessionView|
            if row.id == id && !row.user_confirmed {
                spread_to(row, anchor)
            } else {
                row
            },
    )
}

/// A table on which confirmed work has been spread, and the ids of the rows it reached.
#[verifier::ext_equal]
pub struct SpreadView {
    pub table: Seq<SessionView>,
    pub changed: Seq<Seq<char>>,
}

/// The anchor's assignment on the rows that need it and have not been changed yet.
pub open spec fn spread_on(
    state: SpreadView,
    rows: Seq<SessionView>,
    anchor: SessionView,
) -> SpreadView
    decreases rows.len(),
{
    if rows.len() == 0 {
        state
    } else {
        let before = spread_on(state, rows.drop_last(), anchor);
        let row = rows.last();
        if needs_spread(row, anchor) && !before.changed.contains(row.id) {
            SpreadView {
                table: spread_over(before.table, row.id, anchor),
                changed: before.changed.push(row.id),
            }
        } else {
            before
        }
    }
}

/// Why confirmed work cannot be spread.
#[derive(Clone, Copy, Debug, PartialEq, Eq, Structural)]
pub enum SpreadError {
    InvalidStart,
    InvalidEnd,
}

/// What spreading one session comes to.
pub open spec fn spread_from(state: SpreadView, anchor_id: Seq<char>) -> Result<
    SpreadView,
    SpreadError,
> {
    match sessions::find(state.table, anchor_id) {
        None => Ok(state),
        Some(anchor) => if anchor.project_id is None || anchor.task_id is None
            || !anchor.user_confirmed {
            Ok(state)
        } else {
            match (clock::moment_of(anchor.started_at), clock::moment_of(anchor.ended_at)) {
                (None, _) => Err(SpreadError::InvalidStart),
                (_, None) => Err(SpreadError::InvalidEnd),
                (Some(start), Some(end)) => {
                    let from = clock::shifted(start, -SPREAD_SECONDS as int);
                    let to = clock::shifted(end, SPREAD_SECONDS as int);
                    let rows = rows_between(
                        state.table,
                        clock::rfc3339_text(from.seconds, from.nanos),
                        clock::rfc3339_text(to.seconds, to.nanos),
                    );
                    Ok(spread_on(state, reached(rows, anchor), anchor))
                },
            }
        },
    }
}

/// What spreading these sessions in turn comes to.
pub open spec fn spread_all(table: Seq<SessionView>, anchors: Seq<Seq<char>>) -> Result<
    SpreadView,
    SpreadError,
>
    decreases anchors.len(),
{
    if anchors.len() == 0 {
        Ok(SpreadView { table, changed: Seq::empty() })
    } else {
        match spread_all(table, anchors.drop_last()) {
            Ok(state) => spread_from(state, anchors.last()),
            Err(error) => Err(error),
        }
    }
}

fn spread_row(table: &mut Vec<WorkSession>, id: &str, anchor: &WorkSession)
    ensures
        sessions::session_views(final(table)@) == spread_over(
            sessions::session_views(old(table)@),
            id@,
            anchor@,
        ),
{
    let ghost before = sessions::session_views(table@);
    let ghost after = spread_over(before, id@, anchor@);
    let mut i: usize = 0;
    while i < table.len()
        invariant
            i <= table.len(),
            table.len() == before.len(),
            after == spread_over(before, id@, anchor@),
            forall|k: int| 0 <= k < i ==> (#[trigger] table@[k])@ == after[k],
            forall|k: int| i <= k < table.len() ==> (#[trigger] table@[k])@ == before[k],
        decreases table.len() - i,
    {
        let hit = text::same(table[i].id.as_str(), id) && !table[i].user_confirmed;
        if hit {
            let mut row = table[i].copy();
            row.project_id = anchor.project_id.clone();
            row.project_name = anchor.project_name.clone();
            row.task_id = anchor.task_id.clone();
            row.task_title = anchor.task_title.clone();
            row.category = anchor.category.clone();
            if text::same(row.summary.as_str(), "离开/空闲") {
                row.summary = anchor.summary.clone();
            }
            row.confidence = score::max(row.confidence, score::PROPAGATED);
            assert(row@ == spread_to(before[i as int], anchor@));
            table.set(i, row);
        }
        i += 1;
    }
    assert(sessions::session_views(table@) =~= after);
}

fn spread_one(
    table: &mut Vec<WorkSession>,
    changed: &mut Vec<String>,
    anchor_id: &str,
) -> (result: Result<(), SpreadError>)
    ensures
        match result {
            Ok(_) => spread_from(
                SpreadView {
                    table: sessions::session_views(old(table)@),
                    changed: text::texts(old(changed)@),
                },
                anchor_id@,
            ) == Ok::<SpreadView, SpreadError>(
                SpreadView {
                    table: sessions::session_views(final(table)@),
                    changed: text::texts(final(changed)@),
                },
            ),
            Err(error) => spread_from(
                SpreadView {
                    table: sessions::session_views(old(table)@),
                    changed: text::texts(old(changed)@),
                },
                anchor_id@,
            ) == Err::<SpreadView, SpreadError>(error),
        },
{
    let anchor = match sessions::find_session(table, anchor_id) {
        Some(at) => table[at].copy(),
        None => {
            return Ok(());
        },
    };
    if anchor.project_id.is_none() || anchor.task_id.is_none() || !anchor.user_confirmed {
        return Ok(());
    }
    let start: Moment = match clock::parse_moment(anchor.started_at.as_str()) {
        Some(start) => start,
        None => {
            return Err(SpreadError::InvalidStart);
        },
    };
    let end: Moment = match clock::parse_moment(anchor.ended_at.as_str()) {
        Some(end) => end,
        None => {
            return Err(SpreadError::InvalidEnd);
        },
    };
    let from = clock::format_moment(clock::shift(start, -SPREAD_SECONDS));
    let to = clock::format_moment(clock::shift(end, SPREAD_SECONDS));
    let near = list_rows_between(table, from.as_str(), to.as_str());
    let rows = walk(&near, &anchor);
    let ghost state = SpreadView {
        table: sessions::session_views(table@),
        changed: text::texts(changed@),
    };
    let ghost views = sessions::session_views(rows@);
    let mut i: usize = 0;
    assert(views.take(0) =~= Seq::empty());
    while i < rows.len()
        invariant
            i <= rows.len(),
            views == sessions::session_views(rows@),
            spread_on(state, views.take(i as int), anchor@) == (SpreadView {
                table: sessions::session_views(table@),
                changed: text::texts(changed@),
            }),
        decreases rows.len() - i,
    {
        let row = &rows[i];
        assert(views.take(i + 1).drop_last() =~= views.take(i as int));
        assert(views.take(i + 1).last() == row@);
        let stale = text::same(row.summary.as_str(), "离开/空闲") && !text::same(
            anchor.summary.as_str(),
            "离开/空闲",
        );
        let needed = !row.user_confirmed && (!is_sharing_assignment(row, &anchor) || stale);
        if needed && !text::listed(changed, row.id.as_str()) {
            let ghost done = text::texts(changed@);
            spread_row(table, row.id.as_str(), &anchor);
            changed.push(row.id.clone());
            assert(text::texts(changed@) =~= done.push(row@.id));
        }
        i += 1;
    }
    assert(views.take(rows.len() as int) =~= views);
    Ok(())
}

/// A table on which confirmed work has been spread, and the ids of the rows it reached.
#[derive(Debug, PartialEq, Eq)]
pub struct Spread {
    pub table: Vec<WorkSession>,
    pub changed: Vec<String>,
}

impl View for Spread {
    type V = SpreadView;

    open spec fn view(&self) -> SpreadView {
        SpreadView {
            table: sessions::session_views(self.table@),
            changed: text::texts(self.changed@),
        }
    }
}

/// Spreads the assignment of confirmed sessions to the unconfirmed work right around them.
pub fn propagate_context_from_sessions(
    table: &Vec<WorkSession>,
    anchor_ids: &Vec<String>,
) -> (result: Result<Spread, SpreadError>)
    ensures
        match result {
            Ok(spread) => spread_all(
                sessions::session_views(table@),
                text::texts(anchor_ids@),
            ) == Ok::<SpreadView, SpreadError>(spread@),
            Err(error) => spread_all(
                sessions::session_views(table@),
                text::texts(anchor_ids@),
            ) == Err::<SpreadView, SpreadError>(error),
        },
{
    let ghost first = sessions::session_views(table@);
    let ghost anchors = text::texts(anchor_ids@);
    let mut rows: Vec<WorkSession> = Vec::new();
    let mut k: usize = 0;
    while k < table.len()
        invariant
            k <= table.len(),
            first == sessions::session_views(table@),
            sessions::session_views(rows@) == first.take(k as int),
        decreases table.len() - k,
    {
        let ghost done = sessions::session_views(rows@);
        rows.push(table[k].copy());
        assert(sessions::session_views(rows@) =~= done.push(first[k as int]));
        assert(first.take(k + 1) =~= first.take(k as int).push(first[k as int]));
        k += 1;
    }
    assert(first.take(table.len() as int) =~= first);
    let mut changed: Vec<String> = Vec::new();
    let mut i: usize = 0;
    assert(anchors.take(0) =~= Seq::empty());
    assert(text::texts(changed@) =~= Seq::empty());
    while i < anchor_ids.len()
        invariant
            i <= anchor_ids.len(),
            first == sessions::session_views(table@),
            anchors == text::texts(anchor_ids@),
            spread_all(first, anchors.take(i as int)) == Ok::<SpreadView, SpreadError>(
                SpreadView {
                    table: sessions::session_views(rows@),
                    changed: text::texts(changed@),
                },
            ),
        decreases anchor_ids.len() - i,
    {
        assert(anchors.take(i + 1).drop_last() =~= anchors.take(i as int));
        assert(anchors.take(i + 1).last() == anchor_ids@[i as int]@);
        match spread_one(&mut rows, &mut changed, anchor_ids[i].as_str()) {
            Ok(_) => {},
            Err(error) => {
                proof {
                    lemma_spread_error(first, anchors, i + 1);
                }
                return Err(error);
            },
        }
        i += 1;
    }
    assert(anchors.take(anchor_ids.len() as int) =~= anchors);
    Ok(Spread { table: rows, changed })
}

proof fn lemma_spread_error(table: Seq<SessionView>, anchors: Seq<Seq<char>>, n: int)
    requires
        0 <= n <= anchors.len(),
        spread_all(table, anchors.take(n)) is Err,
    ensures
        spread_all(table, anchors) == spread_all(table, anchors.take(n)),
    decreases anchors.len(),
{
    if n < anchors.len() {
        assert(anchors.drop_last().take(n) =~= anchors.take(n));
        lemma_spread_error(table, anchors.drop_last(), n);
    } else {
        assert(anchors.take(n) =~= anchors);
    }
}

/// What spreading leaves alone on every row.
pub open spec fn keeps_row(before: SessionView, after: SessionView) -> bool {
    &&& before.user_confirmed ==> after == before
    &&& after.id == before.id
    &&& after.started_at == before.started_at
    &&& after.ended_at == before.ended_at
    &&& after.evidence == before.evidence
    &&& after.user_confirmed == before.user_confirmed
    &&& after.source == before.source
    &&& after.confidence >= before.confidence
}

pub open spec fn keeps_rows(before: Seq<SessionView>, after: Seq<SessionView>) -> bool {
    after.len() == before.len() && forall|k: int|
        0 <= k < before.len() ==> keeps_row(before[k], #[trigger] after[k])
}

proof fn lemma_spread_on_keeps(state: SpreadView, rows: Seq<SessionView>, anchor: SessionView)
    ensures
        keeps_rows(state.table, spread_on(state, rows, anchor).table),
    decreases rows.len(),
{
    if rows.len() > 0 {
        lemma_spread_on_keeps(state, rows.drop_last(), anchor);
        let before = spread_on(state, rows.drop_last(), anchor);
        let after = spread_on(state, rows, anchor);
        assert forall|k: int| 0 <= k < state.table.len() implies keeps_row(
            state.table[k],
            #[trigger] after.table[k],
        ) by {
            assert(keeps_row(state.table[k], before.table[k]));
        }
    }
}

/// Spreading never touches what the user confirmed, and gives the others only an assignment and,
/// where they were time away, a summary: no row is added, removed or moved in time, and none loses
/// confidence.
pub proof fn spreading_keeps_confirmed_work(table: Seq<SessionView>, anchors: Seq<Seq<char>>)
    requires
        spread_all(table, anchors) is Ok,
    ensures
        keeps_rows(table, spread_all(table, anchors)->Ok_0.table),
    decreases anchors.len(),
{
    if anchors.len() > 0 {
        let before = spread_all(table, anchors.drop_last());
        assert(before is Ok);
        spreading_keeps_confirmed_work(table, anchors.drop_last());
        let state = before->Ok_0;
        let last = spread_from(state, anchors.last())->Ok_0;
        assert(keeps_rows(state.table, last.table)) by {
            if let Some(anchor) = sessions::find(state.table, anchors.last()) {
                if anchor.project_id is Some && anchor.task_id is Some && anchor.user_confirmed {
                    let start = clock::moment_of(anchor.started_at).unwrap();
                    let end = clock::moment_of(anchor.ended_at).unwrap();
                    let from = clock::shifted(start, -SPREAD_SECONDS as int);
                    let to = clock::shifted(end, SPREAD_SECONDS as int);
                    let rows = rows_between(
                        state.table,
                        clock::rfc3339_text(from.seconds, from.nanos),
                        clock::rfc3339_text(to.seconds, to.nanos),
                    );
                    lemma_spread_on_keeps(state, reached(rows, anchor), anchor);
                }
            }
        }
        assert forall|k: int| 0 <= k < table.len() implies keeps_row(
            table[k],
            #[trigger] last.table[k],
        ) by {
            assert(keeps_row(table[k], state.table[k]));
        }
    }
}

/// What the evidence says of the context: program and page or window.
pub open spec fn context_signature(evidence: Seq<EvidenceView>) -> Option<Seq<char>> {
    match (first_of_kind(evidence, "app"@, "app"@), first_of_kind(evidence, "page"@, "window"@)) {
        (Some(app), Some(shown)) => {
            let program = text::lowercase(text::trimmed(app));
            match labels::memory_keyword(shown) {
                Some(keyword) => if program.len() == 0 {
                    None
                } else {
                    Some(program + "\u{1f}"@ + text::lowercase(keyword))
                },
                None => None,
            }
        },
        _ => None,
    }
}

/// The value of the first evidence of either kind.
pub open spec fn first_of_kind(
    evidence: Seq<EvidenceView>,
    kind: Seq<char>,
    other: Seq<char>,
) -> Option<Seq<char>>
    decreases evidence.len(),
{
    if evidence.len() == 0 {
        None
    } else if evidence[0].kind == kind || evidence[0].kind == other {
        Some(evidence[0].value)
    } else {
        first_of_kind(evidence.drop_first(), kind, other)
    }
}

fn find_of_kind(evidence: &Vec<EvidenceItem>, kind: &str, other: &str) -> (result: Option<String>)
    ensures
        text::optional(result) == first_of_kind(
            models::evidence_views(evidence@),
            kind@,
            other@,
        ),
{
    let ghost views = models::evidence_views(evidence@);
    let mut i: usize = 0;
    assert(views.skip(0) =~= views);
    while i < evidence.len()
        invariant
            i <= evidence.len(),
            views == models::evidence_views(evidence@),
            first_of_kind(views, kind@, other@) == first_of_kind(
                views.skip(i as int),
                kind@,
                other@,
            ),
        decreases evidence.len() - i,
    {
        assert(views.skip(i as int)[0] == evidence@[i as int]@);
        let item = &evidence[i];
        if text::same(item.kind.as_str(), kind) || text::same(item.kind.as_str(), other) {
            return Some(item.value.clone());
        }
        assert(views.skip(i as int).drop_first() =~= views.skip(i + 1));
        i += 1;
    }
    None
}

pub fn evidence_context_signature(evidence: &Vec<EvidenceItem>) -> (result: Option<String>)
    ensures
        text::optional(result) == context_signature(models::evidence_views(evidence@)),
{
    let app = match find_of_kind(evidence, "app", "app") {
        Some(app) => app,
        None => {
            return None;
        },
    };
    let trimmed = text::trim(app.as_str());
    let program = trimmed.as_str().to_lowercase();
    if program.as_str().is_empty() {
        return None;
    }
    match find_of_kind(evidence, "page", "window") {
        Some(shown) => match labels::context_memory_keyword(shown.as_str()) {
            Some(keyword) => {
                let lowered = keyword.as_str().to_lowercase();
                let head = text::joined(program.as_str(), "\u{1f}");
                Some(text::joined(head.as_str(), lowered.as_str()))
            },
            None => None,
        },
        None => None,
    }
}

/// The row is confirmed work in this context.
pub open spec fn votes_for(row: SessionView, signature: Seq<char>) -> bool {
    &&& row.user_confirmed
    &&& row.project_id is Some
    &&& row.task_id is Some
    &&& context_signature(row.evidence) == Some(signature)
}

/// The confirmed work in this context.
pub open spec fn votes(confirmed: Seq<SessionView>, signature: Seq<char>) -> Seq<SessionView> {
    confirmed.filter(|row: SessionView| votes_for(row, signature))
}

pub open spec fn vote_key(row: SessionView) -> Seq<char> {
    labels::joint_key(row.project_id, row.task_id, row.category)
}

/// All votes are for one assignment.
pub open spec fn unanimous(list: Seq<SessionView>) -> bool {
    forall|i: int| 0 <= i < list.len() ==> vote_key(#[trigger] list[i]) == vote_key(list[0])
}

/// The earliest start, by its text.
pub open spec fn earliest_start(list: Seq<SessionView>) -> Seq<char>
    decreases list.len(),
{
    if list.len() <= 1 {
        list[0].started_at
    } else {
        let before = earliest_start(list.drop_last());
        if text::precedes(list.last().started_at, before) {
            list.last().started_at
        } else {
            before
        }
    }
}

/// At least so many confirmations make a context remembered.
pub const CONTEXT_QUORUM: usize = 3;

/// What is remembered of a context: a session with its assignment, and since when.
pub open spec fn remembered(confirmed: Seq<SessionView>, signature: Seq<char>) -> Option<
    (SessionView, Seq<char>),
> {
    let list = votes(confirmed, signature);
    if list.len() >= CONTEXT_QUORUM && unanimous(list) {
        Some((list[0], earliest_start(list)))
    } else {
        None
    }
}

fn list_signatures(rows: &Vec<WorkSession>) -> (result: Vec<Option<String>>)
    ensures
        result.len() == rows.len(),
        forall|k: int|
            0 <= k < rows.len() ==> text::optional(#[trigger] result@[k]) == context_signature(
                rows@[k]@.evidence,
            ),
{
    let mut result: Vec<Option<String>> = Vec::new();
    let mut i: usize = 0;
    while i < rows.len()
        invariant
            i <= rows.len(),
            result.len() == i,
            forall|k: int|
                0 <= k < i ==> text::optional(#[trigger] result@[k]) == context_signature(
                    rows@[k]@.evidence,
                ),
        decreases rows.len() - i,
    {
        result.push(evidence_context_signature(&rows[i].evidence));
        i += 1;
    }
    result
}

fn recall_context(
    confirmed: &Vec<WorkSession>,
    signatures: &Vec<Option<String>>,
    signature: &str,
) -> (result: Option<(usize, String)>)
    requires
        signatures.len() == confirmed.len(),
        forall|k: int|
            0 <= k < confirmed.len() ==> text::optional(#[trigger] signatures@[k])
                == context_signature(confirmed@[k]@.evidence),
    ensures
        match result {
            Some((at, since)) => at < confirmed.len() && remembered(
                sessions::session_views(confirmed@),
                signature@,
            ) == Some((confirmed@[at as int]@, since@)),
            None => remembered(sessions::session_views(confirmed@), signature@) is None,
        },
{
    let ghost views = sessions::session_views(confirmed@);
    let ghost keep = |row: SessionView| votes_for(row, signature@);
    let mut count: usize = 0;
    let mut first: usize = 0;
    let mut agreed: bool = true;
    let mut since: String = String::new();
    let mut i: usize = 0;
    assert(views.take(0).filter(keep) =~= Seq::empty()) by {
        reveal(Seq::filter);
    }
    while i < confirmed.len()
        invariant
            i <= confirmed.len(),
            count <= i,
            signatures.len() == confirmed.len(),
            forall|k: int|
                0 <= k < confirmed.len() ==> text::optional(#[trigger] signatures@[k])
                    == context_signature(confirmed@[k]@.evidence),
            views == sessions::session_views(confirmed@),
            keep == (|row: SessionView| votes_for(row, signature@)),
            count == views.take(i as int).filter(keep).len(),
            agreed == unanimous(views.take(i as int).filter(keep)),
            count > 0 ==> first < i && views[first as int] == views.take(i as int).filter(keep)[0]
                && since@ == earliest_start(views.take(i as int).filter(keep)),
        decreases confirmed.len() - i,
    {
        let row = &confirmed[i];
        let ghost list = views.take(i as int).filter(keep);
        let ghost next = views.take(i + 1).filter(keep);
        assert(views.take(i + 1) =~= views.take(i as int).push(views[i as int]));
        assert(views[i as int] == row@);
        proof {
            views.take(i as int).lemma_filter_push(views[i as int], keep);
        }
        assert(text::optional(signatures@[i as int]) == context_signature(row@.evidence));
        let here = match &signatures[i] {
            Some(found) => text::same(found.as_str(), signature),
            None => false,
        };
        if here && row.user_confirmed && row.project_id.is_some() && row.task_id.is_some() {
            assert(next == list.push(row@));
            if count == 0 {
                first = i;
                since = row.started_at.clone();
                agreed = true;
                assert(unanimous(next));
            } else {
                assert(next.drop_last() =~= list);
                assert(next[0] == list[0]);
                let key = labels::context_assignment_key(
                    &row.project_id,
                    &row.task_id,
                    row.category.as_str(),
                );
                let leading = labels::context_assignment_key(
                    &confirmed[first].project_id,
                    &confirmed[first].task_id,
                    confirmed[first].category.as_str(),
                );
                assert(views[first as int] == confirmed@[first as int]@);
                let equal = text::same(key.as_str(), leading.as_str());
                proof {
                    if agreed && equal {
                        assert forall|k: int| 0 <= k < next.len() implies vote_key(
                            #[trigger] next[k],
                        ) == vote_key(next[0]) by {
                            if k < list.len() {
                                assert(next[k] == list[k]);
                            }
                        }
                    } else if !agreed {
                        let k = choose|k: int|
                            0 <= k < list.len() && vote_key(#[trigger] list[k]) != vote_key(
                                list[0],
                            );
                        assert(next[k] == list[k]);
                        assert(!unanimous(next));
                    } else {
                        assert(next[list.len() as int] == row@);
                        assert(!unanimous(next));
                    }
                }
                agreed = agreed && equal;
                if text::less(row.started_at.as_str(), since.as_str()) {
                    since = row.started_at.clone();
                }
            }
            count += 1;
        }
        i += 1;
    }
    assert(views.take(confirmed.len() as int) =~= views);
    if count >= CONTEXT_QUORUM && agreed {
        Some((first, since))
    } else {
        None
    }
}

/// The row as its context is remembered, where that changes it.
pub open spec fn repaired(confirmed: Seq<SessionView>, row: SessionView) -> Option<SessionView> {
    if row.user_confirmed || row.summary == "离开/空闲"@ || row.source == "collector-idle"@ {
        None
    } else {
        match context_signature(row.evidence) {
            None => None,
            Some(signature) => match remembered(confirmed, signature) {
                None => None,
                Some((known, since)) => if text::precedes(row.started_at, since) || (
                row.project_id == known.project_id && row.task_id == known.task_id && row.category
                    == known.category) {
                    None
                } else {
                    Some(
                        SessionView {
                            project_id: known.project_id,
                            project_name: known.project_name,
                            task_id: known.task_id,
                            task_title: known.task_title,
                            category: known.category,
                            confidence: score::greater(row.confidence, score::REMEMBERED),
                            source: "context-memory"@,
                            ..row
                        },
                    )
                },
            },
        }
    }
}

fn repair_row(
    confirmed: &Vec<WorkSession>,
    signatures: &Vec<Option<String>>,
    row: &WorkSession,
) -> (result: Option<WorkSession>)
    requires
        signatures.len() == confirmed.len(),
        forall|k: int|
            0 <= k < confirmed.len() ==> text::optional(#[trigger] signatures@[k])
                == context_signature(confirmed@[k]@.evidence),
    ensures
        match result {
            Some(after) => repaired(sessions::session_views(confirmed@), row@) == Some(after@),
            None => repaired(sessions::session_views(confirmed@), row@) is None,
        },
{
    if row.user_confirmed || text::same(row.summary.as_str(), "离开/空闲") || text::same(
        row.source.as_str(),
        "collector-idle",
    ) {
        return None;
    }
    let signature = match evidence_context_signature(&row.evidence) {
        Some(signature) => signature,
        None => {
            return None;
        },
    };
    let (at, since) = match recall_context(confirmed, signatures, signature.as_str()) {
        Some(found) => found,
        None => {
            return None;
        },
    };
    let known = &confirmed[at];
    if text::less(row.started_at.as_str(), since.as_str()) || (text::same_optional(
        &row.project_id,
        &known.project_id,
    ) && text::same_optional(&row.task_id, &known.task_id) && text::same(
        row.category.as_str(),
        known.category.as_str(),
    )) {
        return None;
    }
    let mut after = row.copy();
    after.project_id = known.project_id.clone();
    after.project_name = known.project_name.clone();
    after.task_id = known.task_id.clone();
    after.task_title = known.task_title.clone();
    after.category = known.category.clone();
    after.confidence = score::max(row.confidence, score::REMEMBERED);
    after.source = "context-memory".to_owned();
    Some(after)
}

/// The unconfirmed rows that get the assignment which was always confirmed in their context.
pub fn repair_sessions_from_confirmed_context(
    confirmed: &Vec<WorkSession>,
    rows: &Vec<WorkSession>,
) -> (result: Vec<WorkSession>)
    ensures
        sessions::session_views(result@) == sessions::session_views(rows@).filter_map(
            |row: SessionView| repaired(sessions::session_views(confirmed@), row),
        ),
{
    let signatures = list_signatures(confirmed);
    let ghost known = sessions::session_views(confirmed@);
    let ghost views = sessions::session_views(rows@);
    let ghost pick = |row: SessionView| repaired(known, row);
    let mut result: Vec<WorkSession> = Vec::new();
    let mut i: usize = 0;
    assert(views.take(0) =~= Seq::empty());
    assert(sessions::session_views(result@) =~= views.take(0).filter_map(pick));
    while i < rows.len()
        invariant
            i <= rows.len(),
            signatures.len() == confirmed.len(),
            forall|k: int|
                0 <= k < confirmed.len() ==> text::optional(#[trigger] signatures@[k])
                    == context_signature(confirmed@[k]@.evidence),
            known == sessions::session_views(confirmed@),
            views == sessions::session_views(rows@),
            pick == (|row: SessionView| repaired(known, row)),
            sessions::session_views(result@) == views.take(i as int).filter_map(pick),
        decreases rows.len() - i,
    {
        let ghost done = sessions::session_views(result@);
        proof {
            views.lemma_filter_map_take_succ(pick, i as int);
        }
        assert(views[i as int] == rows@[i as int]@);
        match repair_row(confirmed, &signatures, &rows[i]) {
            Some(after) => {
                let ghost view = after@;
                result.push(after);
                assert(sessions::session_views(result@) =~= done + seq![view]);
            },
            None => {},
        }
        i += 1;
    }
    assert(views.take(rows.len() as int) =~= views);
    result
}

/// Where confirmations of one context disagree, nothing is repaired by it.
pub proof fn disputed_contexts_repair_nothing(
    confirmed: Seq<SessionView>,
    row: SessionView,
    i: int,
    j: int,
)
    requires
        0 <= i < confirmed.len(),
        0 <= j < confirmed.len(),
        context_signature(row.evidence) is Some,
        votes_for(confirmed[i], context_signature(row.evidence).unwrap()),
        votes_for(confirmed[j], context_signature(row.evidence).unwrap()),
        vote_key(confirmed[i]) != vote_key(confirmed[j]),
    ensures
        repaired(confirmed, row) is None,
{
    let signature = context_signature(row.evidence).unwrap();
    let keep = |vote: SessionView| votes_for(vote, signature);
    let list = votes(confirmed, signature);
    confirmed.lemma_filter_contains(keep, i);
    confirmed.lemma_filter_contains(keep, j);
    let a = choose|a: int| 0 <= a < list.len() && list[a] == confirmed[i];
    let b = choose|b: int| 0 <= b < list.len() && list[b] == confirmed[j];
    if unanimous(list) {
        assert(vote_key(list[a]) == vote_key(list[0]));
        assert(vote_key(list[b]) == vote_key(list[0]));
    }
}

} // verus!
