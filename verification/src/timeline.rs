//! The timeline as a whole: splitting, repairing overlaps, and joining neighbours.
use vstd::prelude::*;
use vstd::string::*;

use crate::clock;
use crate::clock::Moment;
use crate::labels;
use crate::models::{SessionView, WorkSession};
use crate::sessions;
use crate::text;

verus! {

broadcast use vstd::seq_lib::group_seq_properties;

/// Why a session cannot be split.
#[derive(Clone, Copy, Debug, PartialEq, Eq, Structural)]
pub enum SplitError {
    InvalidStart,
    InvalidEnd,
    InvalidSplit,
    TooShort,
}

/// Both parts keep at least five seconds.
pub open spec fn splits_well(start: Moment, split: Moment, end: Moment) -> bool {
    clock::elapsed(start, split) >= 5_000_000_000 && clock::elapsed(split, end) >= 5_000_000_000
}

/// The first part of a split session.
pub open spec fn first_part(session: SessionView, at: Seq<char>, id: Seq<char>) -> SessionView {
    SessionView {
        id,
        ended_at: at,
        summary: session.summary + "（前半段）"@,
        user_confirmed: true,
        source: "manual-split"@,
        ..session
    }
}

/// The second part of a split session.
pub open spec fn second_part(session: SessionView, at: Seq<char>, id: Seq<char>) -> SessionView {
    SessionView {
        id,
        started_at: at,
        summary: session.summary + "（后半段）"@,
        user_confirmed: true,
        source: "manual-split"@,
        ..session
    }
}

/// What splitting a session comes to.
pub open spec fn split_outcome(
    session: SessionView,
    split_at: Seq<char>,
    first_id: Seq<char>,
    second_id: Seq<char>,
) -> Result<(SessionView, SessionView), SplitError> {
    match (
        clock::moment_of(session.started_at),
        clock::moment_of(session.ended_at),
        clock::moment_of(split_at),
    ) {
        (None, _, _) => Err(SplitError::InvalidStart),
        (_, None, _) => Err(SplitError::InvalidEnd),
        (_, _, None) => Err(SplitError::InvalidSplit),
        (Some(start), Some(end), Some(split)) => if splits_well(start, split, end) {
            let at = clock::rfc3339_text(split.seconds, split.nanos);
            Ok((first_part(session, at, first_id), second_part(session, at, second_id)))
        } else {
            Err(SplitError::TooShort)
        },
    }
}

/// Splits a session in two confirmed ones.
pub fn split_session(session: &WorkSession, split_at: &str, first_id: &str, second_id: &str) -> (result:
    Result<(WorkSession, WorkSession), SplitError>)
    ensures
        match result {
            Ok((first, second)) => split_outcome(session@, split_at@, first_id@, second_id@) == Ok::<
                (SessionView, SessionView),
                SplitError,
            >((first@, second@)) && (clock::moment_of(split_at@) matches Some(moment)
                && first.ended_at@ == clock::rfc3339_text(moment.seconds, moment.nanos)
                && second.started_at@ == clock::rfc3339_text(moment.seconds, moment.nanos)
                && first.started_at@ == session.started_at@ && second.ended_at@
                == session.ended_at@),
            Err(error) => split_outcome(session@, split_at@, first_id@, second_id@) == Err::<
                (SessionView, SessionView),
                SplitError,
            >(error),
        },
{
    let start = match clock::parse_moment(session.started_at.as_str()) {
        Some(start) => start,
        None => {
            return Err(SplitError::InvalidStart);
        },
    };
    let end = match clock::parse_moment(session.ended_at.as_str()) {
        Some(end) => end,
        None => {
            return Err(SplitError::InvalidEnd);
        },
    };
    let split = match clock::parse_moment(split_at) {
        Some(split) => split,
        None => {
            return Err(SplitError::InvalidSplit);
        },
    };
    if clock::elapsed_nanos(start, split) < 5_000_000_000 || clock::elapsed_nanos(split, end)
        < 5_000_000_000 {
        return Err(SplitError::TooShort);
    }
    let at = clock::format_moment(split);
    let mut first = session.copy();
    first.id = first_id.to_owned();
    first.ended_at = at.clone();
    first.summary = text::joined(session.summary.as_str(), "（前半段）");
    first.user_confirmed = true;
    first.source = "manual-split".to_owned();
    let mut second = session.copy();
    second.id = second_id.to_owned();
    second.started_at = at;
    second.summary = text::joined(session.summary.as_str(), "（后半段）");
    second.user_confirmed = true;
    second.source = "manual-split".to_owned();
    Ok((first, second))
}

/// The parts of a split session cover it without gap or overlap and keep its attribution: the first
/// begins where the session began, the second begins where the first ends and ends where the
/// session ended.
pub proof fn split_parts_cover_the_session(
    session: SessionView,
    split_at: Seq<char>,
    first_id: Seq<char>,
    second_id: Seq<char>,
)
    requires
        split_outcome(session, split_at, first_id, second_id) is Ok,
    ensures
        ({
            let parts = split_outcome(session, split_at, first_id, second_id)->Ok_0;
            &&& parts.0.started_at == session.started_at
            &&& parts.0.ended_at == parts.1.started_at
            &&& parts.1.ended_at == session.ended_at
            &&& sessions::same_assignment(parts.0, session)
            &&& sessions::same_assignment(parts.1, session)
            &&& parts.0.evidence == session.evidence
            &&& parts.1.evidence == session.evidence
        }),
{
}

/// What a repaired timeline holds: the sessions that stay, whether each was changed, and the ids of
/// those that were dropped.
#[verifier::ext_equal]
pub struct TimelineView {
    pub kept: Seq<SessionView>,
    pub touched: Seq<bool>,
    pub removed: Seq<Seq<char>>,
    pub changes: nat,
}

pub open spec fn empty_timeline() -> TimelineView {
    TimelineView {
        kept: Seq::empty(),
        touched: Seq::empty(),
        removed: Seq::empty(),
        changes: 0,
    }
}

/// The later of two sessions that start together is the better record: it lasts longer, or as long
/// and with more confidence.
pub open spec fn outlasts(current: SessionView, anchor: SessionView) -> bool {
    clock::later(current.ended_at, anchor.ended_at) || (current.ended_at == anchor.ended_at
        && current.confidence > anchor.confidence)
}

/// The timeline after one more session.
pub open spec fn extended(timeline: TimelineView, current: SessionView) -> TimelineView {
    let n = timeline.kept.len();
    let anchor = timeline.kept.last();
    if n == 0 || !sessions::overlap(anchor, current) {
        TimelineView {
            kept: timeline.kept.push(current),
            touched: timeline.touched.push(false),
            ..timeline
        }
    } else if sessions::repairable(anchor, current) {
        TimelineView {
            kept: timeline.kept.drop_last().push(sessions::absorbed(anchor, current)),
            touched: timeline.touched.drop_last().push(true),
            removed: timeline.removed.push(current.id),
            changes: timeline.changes + 1,
        }
    } else if clock::later(current.started_at, anchor.started_at) {
        TimelineView {
            kept: timeline.kept.drop_last().push(
                SessionView { ended_at: current.started_at, ..anchor },
            ).push(current),
            touched: timeline.touched.drop_last().push(true).push(false),
            changes: timeline.changes + 1,
            ..timeline
        }
    } else if outlasts(current, anchor) {
        TimelineView {
            kept: timeline.kept.drop_last().push(current),
            touched: timeline.touched.drop_last().push(false),
            removed: timeline.removed.push(anchor.id),
            changes: timeline.changes + 1,
        }
    } else {
        TimelineView {
            removed: timeline.removed.push(current.id),
            changes: timeline.changes + 1,
            ..timeline
        }
    }
}

/// The timeline after all sessions, in their order.
pub open spec fn repaired(rows: Seq<SessionView>) -> TimelineView
    decreases rows.len(),
{
    if rows.len() == 0 {
        empty_timeline()
    } else {
        extended(repaired(rows.drop_last()), rows.last())
    }
}

/// A repaired timeline.
#[derive(Debug, PartialEq, Eq)]
pub struct RepairedTimeline {
    pub kept: Vec<WorkSession>,
    pub touched: Vec<bool>,
    pub removed: Vec<String>,
    pub changes: usize,
}

impl View for RepairedTimeline {
    type V = TimelineView;

    open spec fn view(&self) -> TimelineView {
        TimelineView {
            kept: sessions::session_views(self.kept@),
            touched: self.touched@,
            removed: text::texts(self.removed@),
            changes: self.changes as nat,
        }
    }
}

fn push_removed(removed: &mut Vec<String>, id: &str)
    ensures
        text::texts(final(removed)@) == text::texts(old(removed)@).push(id@),
{
    let ghost before = text::texts(removed@);
    removed.push(id.to_owned());
    assert(text::texts(removed@) =~= before.push(id@));
}

fn push_session(kept: &mut Vec<WorkSession>, session: WorkSession)
    ensures
        sessions::session_views(final(kept)@) == sessions::session_views(old(kept)@).push(session@),
        final(kept)@.len() == old(kept)@.len() + 1,
{
    let ghost before = sessions::session_views(kept@);
    kept.push(session);
    assert(sessions::session_views(kept@) =~= before.push(session@));
}

/// Adds one more session to a repaired timeline.
fn extend(timeline: &mut RepairedTimeline, current: WorkSession)
    requires
        old(timeline).kept.len() == old(timeline).touched.len(),
        old(timeline).changes < usize::MAX,
    ensures
        final(timeline)@ == extended(old(timeline)@, current@),
        final(timeline).kept.len() == final(timeline).touched.len(),
        final(timeline).changes <= old(timeline).changes + 1,
{
    let ghost before = timeline@;
    let n: usize = timeline.kept.len();
    if n == 0 || !sessions::sessions_overlap(&timeline.kept[n - 1], &current) {
        push_session(&mut timeline.kept, current);
        timeline.touched.push(false);
        return;
    }
    let mut anchor = timeline.kept[n - 1].copy();
    assert(before.kept.last() == anchor@);
    if sessions::can_repair_overlapping_sessions(&anchor, &current) {
        sessions::absorb(&mut anchor, &current);
        push_removed(&mut timeline.removed, current.id.as_str());
        let dropped = timeline.kept.pop();
        assert(sessions::session_views(timeline.kept@) =~= before.kept.drop_last());
        push_session(&mut timeline.kept, anchor);
        let flag = timeline.touched.pop();
        timeline.touched.push(true);
        timeline.changes = timeline.changes + 1;
        assert(timeline@ =~= extended(before, current@));
        return;
    }
    if clock::timestamp_is_after(current.started_at.as_str(), anchor.started_at.as_str()) {
        anchor.ended_at = current.started_at.clone();
        let dropped = timeline.kept.pop();
        assert(sessions::session_views(timeline.kept@) =~= before.kept.drop_last());
        push_session(&mut timeline.kept, anchor);
        push_session(&mut timeline.kept, current);
        let flag = timeline.touched.pop();
        timeline.touched.push(true);
        timeline.touched.push(false);
        timeline.changes = timeline.changes + 1;
        assert(timeline@ =~= extended(before, current@));
        return;
    }
    // Two collectors started at the same moment. The longer row, then the more confident one,
    // stays, so that the time is not counted twice.
    let keep_current = clock::timestamp_is_after(
        current.ended_at.as_str(),
        anchor.ended_at.as_str(),
    ) || (text::same(current.ended_at.as_str(), anchor.ended_at.as_str()) && current.confidence
        > anchor.confidence);
    if keep_current {
        push_removed(&mut timeline.removed, anchor.id.as_str());
        let dropped = timeline.kept.pop();
        assert(sessions::session_views(timeline.kept@) =~= before.kept.drop_last());
        push_session(&mut timeline.kept, current);
        let flag = timeline.touched.pop();
        timeline.touched.push(false);
        timeline.changes = timeline.changes + 1;
        assert(timeline@ =~= extended(before, current@));
    } else {
        push_removed(&mut timeline.removed, current.id.as_str());
        timeline.changes = timeline.changes + 1;
        assert(timeline@ =~= extended(before, current@));
    }
}

/// Repairs the overlaps of automatic sessions that come in the order of their start.
pub fn repair_overlaps(rows: &Vec<WorkSession>) -> (result: RepairedTimeline)
    ensures
        result@ == repaired(sessions::session_views(rows@)),
{
    let ghost views = sessions::session_views(rows@);
    let mut timeline = RepairedTimeline {
        kept: Vec::new(),
        touched: Vec::new(),
        removed: Vec::new(),
        changes: 0,
    };
    let mut i: usize = 0;
    assert(timeline@ =~= empty_timeline());
    while i < rows.len()
        invariant
            i <= rows.len(),
            views == sessions::session_views(rows@),
            timeline@ == repaired(views.take(i as int)),
            timeline.kept.len() == timeline.touched.len(),
            timeline.changes <= i,
        decreases rows.len() - i,
    {
        assert(views.take(i + 1).drop_last() =~= views.take(i as int));
        assert(views.take(i + 1).last() == rows@[i as int]@);
        extend(&mut timeline, rows[i].copy());
        i += 1;
    }
    assert(views.take(rows.len() as int) =~= views);
    timeline
}

/// The session has readable times and a positive length.
pub open spec fn well_timed(session: SessionView) -> bool {
    match (clock::moment_of(session.started_at), clock::moment_of(session.ended_at)) {
        (Some(start), Some(end)) => clock::before(start, end),
        _ => false,
    }
}

/// Where a session with readable times begins.
pub open spec fn start_of(session: SessionView) -> Moment {
    clock::moment_of(session.started_at).unwrap()
}

/// Where a session with readable times ends.
pub open spec fn end_of(session: SessionView) -> Moment {
    clock::moment_of(session.ended_at).unwrap()
}

/// The rows have positive lengths and come in the order of their start.
pub open spec fn in_time_order(rows: Seq<SessionView>) -> bool {
    &&& forall|i: int| 0 <= i < rows.len() ==> well_timed(#[trigger] rows[i])
    &&& forall|i: int, j: int|
        0 <= i < j < rows.len() ==> !clock::before(
            start_of(#[trigger] rows[j]),
            start_of(#[trigger] rows[i]),
        )
}

/// No two of the rows share time, and each ends before the later ones begin.
pub open spec fn disjoint(rows: Seq<SessionView>) -> bool {
    &&& forall|i: int| 0 <= i < rows.len() ==> well_timed(#[trigger] rows[i])
    &&& forall|i: int, j: int|
        0 <= i < j < rows.len() ==> !clock::before(
            start_of(#[trigger] rows[j]),
            end_of(#[trigger] rows[i]),
        )
}

proof fn lemma_repair_step(timeline: TimelineView, current: SessionView)
    requires
        disjoint(timeline.kept),
        well_timed(current),
        timeline.kept.len() > 0 ==> !clock::before(
            start_of(current),
            start_of(timeline.kept.last()),
        ),
    ensures
        disjoint(extended(timeline, current).kept),
        extended(timeline, current).kept.len() > 0,
        !clock::before(start_of(current), start_of(extended(timeline, current).kept.last())),
{
    let kept = timeline.kept;
    let after = extended(timeline, current).kept;
    if kept.len() > 0 {
        let anchor = kept.last();
        let rest = kept.drop_last();
        assert(forall|i: int| 0 <= i < rest.len() ==> rest[i] == kept[i]);
        if !sessions::overlap(anchor, current) {
            assert forall|i: int, j: int| 0 <= i < j < after.len() implies !clock::before(
                start_of(#[trigger] after[j]),
                end_of(#[trigger] after[i]),
            ) by {
                if j == kept.len() && i < kept.len() - 1 {
                    assert(!clock::before(start_of(kept[kept.len() - 1]), end_of(kept[i])));
                }
            }
        } else if sessions::repairable(anchor, current) {
            let joined = sessions::absorbed(anchor, current);
            assert(well_timed(joined));
            assert forall|i: int, j: int| 0 <= i < j < after.len() implies !clock::before(
                start_of(#[trigger] after[j]),
                end_of(#[trigger] after[i]),
            ) by {
                assert(after[i] == kept[i]);
                if j == kept.len() - 1 {
                    assert(after[j].started_at == kept[j].started_at);
                } else {
                    assert(after[j] == kept[j]);
                }
            }
        } else if clock::later(current.started_at, anchor.started_at) {
            let cut = SessionView { ended_at: current.started_at, ..anchor };
            assert(well_timed(cut));
            assert forall|i: int, j: int| 0 <= i < j < after.len() implies !clock::before(
                start_of(#[trigger] after[j]),
                end_of(#[trigger] after[i]),
            ) by {
                let last = kept.len() - 1;
                if i < last {
                    assert(after[i] == kept[i]);
                    if j > last {
                        assert(!clock::before(start_of(kept[last]), end_of(kept[i])));
                    } else if j == last {
                        assert(!clock::before(start_of(kept[last]), end_of(kept[i])));
                    } else {
                        assert(after[j] == kept[j]);
                    }
                }
            }
        } else {
            assert forall|i: int, j: int| 0 <= i < j < after.len() implies !clock::before(
                start_of(#[trigger] after[j]),
                end_of(#[trigger] after[i]),
            ) by {
                let last = kept.len() - 1;
                assert(after[i] == kept[i]);
                if j == last {
                    assert(!clock::before(start_of(kept[last]), end_of(kept[i])));
                } else {
                    assert(after[j] == kept[j]);
                }
            }
        }
    }
}

/// The last row that stays begins no later than the last row given.
proof fn lemma_repaired_is_disjoint(rows: Seq<SessionView>)
    requires
        in_time_order(rows),
    ensures
        disjoint(repaired(rows).kept),
        rows.len() > 0 ==> repaired(rows).kept.len() > 0 && !clock::before(
            start_of(rows.last()),
            start_of(repaired(rows).kept.last()),
        ),
    decreases rows.len(),
{
    if rows.len() > 0 {
        let rest = rows.drop_last();
        assert(forall|i: int| 0 <= i < rest.len() ==> rest[i] == rows[i]);
        lemma_repaired_is_disjoint(rest);
        let current = rows.last();
        if rest.len() > 0 {
            assert(!clock::before(start_of(rows[rows.len() - 1]), start_of(rows[rest.len() - 1])));
        }
        lemma_repair_step(repaired(rest), current);
    }
}

/// Repairing leaves no overlap: of rows with positive lengths in the order of their start, those
/// that stay have positive lengths and each ends before the next begins, so that no time is counted
/// twice.
pub proof fn repaired_timelines_do_not_overlap(rows: Seq<SessionView>)
    requires
        in_time_order(rows),
    ensures
        disjoint(repaired(rows).kept),
        forall|i: int, j: int|
            0 <= i < j < repaired(rows).kept.len() ==> !sessions::overlap(
                #[trigger] repaired(rows).kept[i],
                #[trigger] repaired(rows).kept[j],
            ),
{
    lemma_repaired_is_disjoint(rows);
}

/// Each row that is dropped and each row that is cut or extended counts as one change, and every row
/// stays or is dropped.
pub proof fn repairing_accounts_for_every_row(rows: Seq<SessionView>)
    ensures
        repaired(rows).kept.len() + repaired(rows).removed.len() == rows.len(),
        repaired(rows).removed.len() <= repaired(rows).changes <= rows.len(),
        repaired(rows).kept.len() == repaired(rows).touched.len(),
    decreases rows.len(),
{
    if rows.len() > 0 {
        repairing_accounts_for_every_row(rows.drop_last());
    }
}

/// The session was collected automatically and nobody has confirmed it.
pub open spec fn untouched(session: SessionView) -> bool {
    !session.user_confirmed && labels::auto_source(session.source)
}

/// An automatic session without length.
pub open spec fn lengthless(session: SessionView) -> bool {
    untouched(session) && match (
        clock::moment_of(session.started_at),
        clock::moment_of(session.ended_at),
    ) {
        (Some(start), Some(end)) => !clock::before(start, end),
        _ => false,
    }
}

/// An automatic session with a length that ended no earlier than `cutoff`.
pub open spec fn maintained(session: SessionView, cutoff: Moment) -> bool {
    untouched(session) && well_timed(session) && !clock::before(end_of(session), cutoff)
}

pub fn is_lengthless(session: &WorkSession) -> (result: bool)
    ensures
        result == lengthless(session@),
{
    if session.user_confirmed || !labels::is_auto_session_source(session.source.as_str()) {
        return false;
    }
    match (
        clock::parse_moment(session.started_at.as_str()),
        clock::parse_moment(session.ended_at.as_str()),
    ) {
        (Some(start), Some(end)) => !clock::is_before(start, end),
        _ => false,
    }
}

fn is_maintained(session: &WorkSession, cutoff: Moment) -> (result: bool)
    ensures
        result == maintained(session@, cutoff),
{
    if session.user_confirmed || !labels::is_auto_session_source(session.source.as_str()) {
        return false;
    }
    match (
        clock::parse_moment(session.started_at.as_str()),
        clock::parse_moment(session.ended_at.as_str()),
    ) {
        (Some(start), Some(end)) => clock::is_before(start, end) && !clock::is_before(end, cutoff),
        _ => false,
    }
}

/// How many sessions are looked at in one go.
pub const MAX_RECENT_MAINTENANCE_SESSIONS: usize = 20_000;

/// The automatic sessions since `cutoff`.
pub open spec fn maintained_rows(rows: Seq<SessionView>, cutoff: Moment) -> Seq<SessionView> {
    rows.filter(|session: SessionView| maintained(session, cutoff))
}

/// The automatic sessions since `cutoff`, as many as are looked at in one go.
pub open spec fn recent(rows: Seq<SessionView>, cutoff: Moment) -> Seq<SessionView> {
    let found = maintained_rows(rows, cutoff);
    if found.len() > MAX_RECENT_MAINTENANCE_SESSIONS {
        found.take(MAX_RECENT_MAINTENANCE_SESSIONS as int)
    } else {
        found
    }
}

/// Repairs the automatic sessions that ended since `cutoff`; confirmed sessions and those from other
/// sources are left alone. The rows come in the order of their start.
pub fn repair_recent_overlaps(rows: &Vec<WorkSession>, cutoff: Moment) -> (result: RepairedTimeline)
    ensures
        result@ == repaired(recent(sessions::session_views(rows@), cutoff)),
{
    let ghost views = sessions::session_views(rows@);
    let ghost keep = |session: SessionView| maintained(session, cutoff);
    let mut selected: Vec<WorkSession> = Vec::new();
    let mut i: usize = 0;
    assert(views.take(0).filter(keep) =~= Seq::empty()) by {
        reveal(Seq::filter);
    }
    assert(sessions::session_views(selected@) =~= Seq::empty());
    while i < rows.len()
        invariant
            i <= rows.len(),
            views == sessions::session_views(rows@),
            keep == (|session: SessionView| maintained(session, cutoff)),
            sessions::session_views(selected@) == views.take(i as int).filter(keep),
        decreases rows.len() - i,
    {
        assert(views.take(i + 1) =~= views.take(i as int).push(rows@[i as int]@));
        proof {
            views.take(i as int).lemma_filter_push(rows@[i as int]@, keep);
        }
        if is_maintained(&rows[i], cutoff) {
            push_session(&mut selected, rows[i].copy());
        }
        i += 1;
    }
    assert(views.take(rows.len() as int) =~= views);
    if selected.len() > MAX_RECENT_MAINTENANCE_SESSIONS {
        let ghost found = sessions::session_views(selected@);
        selected.truncate(MAX_RECENT_MAINTENANCE_SESSIONS);
        assert(sessions::session_views(selected@) =~= found.take(
            MAX_RECENT_MAINTENANCE_SESSIONS as int,
        ));
    }
    repair_overlaps(&selected)
}

/// The sessions that start before `current`, in the order of their start.
pub open spec fn earlier(table: Seq<SessionView>, current: SessionView) -> Seq<SessionView> {
    sessions::by_start(
        table.filter(
            |session: SessionView| text::precedes(session.started_at, current.started_at),
        ),
    )
}

/// The session lies between the end of `anchor` and the start of `current`.
pub open spec fn between(session: SessionView, anchor: SessionView, current: SessionView) -> bool {
    &&& !text::precedes(session.started_at, anchor.ended_at)
    &&& !text::precedes(current.started_at, session.ended_at)
    &&& session.id != anchor.id
}

/// The sessions between `anchor` and `current`, in the order of their start.
pub open spec fn middle_of(
    table: Seq<SessionView>,
    anchor: SessionView,
    current: SessionView,
) -> Seq<SessionView> {
    sessions::by_start(table.filter(|session: SessionView| between(session, anchor, current)))
}

/// `anchor` and `current` are one piece of work with a short detour of at most six sessions.
pub open spec fn detour_from(
    table: Seq<SessionView>,
    anchor: SessionView,
    current: SessionView,
) -> bool {
    let middle = middle_of(table, anchor, current);
    sessions::bridges(anchor, current) && 1 <= middle.len() <= 6 && sessions::detour(
        anchor,
        middle,
        current,
    )
}

/// The nearest of the last `tries` candidates from which a short detour leads to `current`.
pub open spec fn detour_anchor(
    candidates: Seq<SessionView>,
    table: Seq<SessionView>,
    current: SessionView,
    tries: nat,
) -> Option<SessionView>
    decreases tries,
{
    if tries == 0 || candidates.len() == 0 {
        None
    } else if detour_from(table, candidates.last(), current) {
        Some(candidates.last())
    } else {
        detour_anchor(candidates.drop_last(), table, current, (tries - 1) as nat)
    }
}

/// The session to which `current` is joined, and what is joined to it, if anything.
pub open spec fn neighbor_join(table: Seq<SessionView>, current: SessionView) -> Option<
    (SessionView, Seq<SessionView>),
> {
    let candidates = earlier(table, current);
    if candidates.len() == 0 {
        None
    } else if sessions::coalesces(candidates.last(), current) {
        Some((candidates.last(), seq![current]))
    } else {
        match detour_anchor(candidates, table, current, 8) {
            Some(anchor) => Some((anchor, middle_of(table, anchor, current).push(current))),
            None => None,
        }
    }
}

/// Sessions that are to be joined to an anchor.
#[derive(Debug, PartialEq, Eq)]
pub struct Join {
    pub anchor: WorkSession,
    pub following: Vec<WorkSession>,
}

/// An optional join and its model agree.
pub open spec fn joins(result: Option<Join>, model: Option<(SessionView, Seq<SessionView>)>) -> bool {
    match result {
        Some(join) => model == Some(
            (join.anchor@, sessions::session_views(join.following@)),
        ),
        None => model is None,
    }
}

fn collect_earlier(table: &Vec<WorkSession>, current: &WorkSession) -> (result: Vec<WorkSession>)
    ensures
        sessions::session_views(result@) == earlier(sessions::session_views(table@), current@),
{
    let ghost views = sessions::session_views(table@);
    let ghost keep = |session: SessionView|
        text::precedes(session.started_at, current@.started_at);
    let mut selected: Vec<WorkSession> = Vec::new();
    let mut i: usize = 0;
    assert(views.take(0).filter(keep) =~= Seq::empty()) by {
        reveal(Seq::filter);
    }
    assert(sessions::session_views(selected@) =~= Seq::empty());
    while i < table.len()
        invariant
            i <= table.len(),
            views == sessions::session_views(table@),
            keep == (|session: SessionView|
                text::precedes(session.started_at, current@.started_at)),
            sessions::session_views(selected@) == views.take(i as int).filter(keep),
        decreases table.len() - i,
    {
        assert(views.take(i + 1) =~= views.take(i as int).push(table@[i as int]@));
        proof {
            views.take(i as int).lemma_filter_push(table@[i as int]@, keep);
        }
        if text::less(table[i].started_at.as_str(), current.started_at.as_str()) {
            push_session(&mut selected, table[i].copy());
        }
        i += 1;
    }
    assert(views.take(table.len() as int) =~= views);
    sessions::sort_by_start(selected)
}

fn collect_middle(table: &Vec<WorkSession>, anchor: &WorkSession, current: &WorkSession) -> (result:
    Vec<WorkSession>)
    ensures
        sessions::session_views(result@) == middle_of(
            sessions::session_views(table@),
            anchor@,
            current@,
        ),
{
    let ghost views = sessions::session_views(table@);
    let ghost keep = |session: SessionView| between(session, anchor@, current@);
    let mut selected: Vec<WorkSession> = Vec::new();
    let mut i: usize = 0;
    assert(views.take(0).filter(keep) =~= Seq::empty()) by {
        reveal(Seq::filter);
    }
    assert(sessions::session_views(selected@) =~= Seq::empty());
    while i < table.len()
        invariant
            i <= table.len(),
            views == sessions::session_views(table@),
            keep == (|session: SessionView| between(session, anchor@, current@)),
            sessions::session_views(selected@) == views.take(i as int).filter(keep),
        decreases table.len() - i,
    {
        assert(views.take(i + 1) =~= views.take(i as int).push(table@[i as int]@));
        proof {
            views.take(i as int).lemma_filter_push(table@[i as int]@, keep);
        }
        if !text::less(table[i].started_at.as_str(), anchor.ended_at.as_str()) && !text::less(
            current.started_at.as_str(),
            table[i].ended_at.as_str(),
        ) && !text::same(table[i].id.as_str(), anchor.id.as_str()) {
            push_session(&mut selected, table[i].copy());
        }
        i += 1;
    }
    assert(views.take(table.len() as int) =~= views);
    sessions::sort_by_start(selected)
}

/// Looks among the eight latest candidates for one from which a short detour leads to `current`.
pub fn find_short_detour_anchor(
    candidates: &Vec<WorkSession>,
    table: &Vec<WorkSession>,
    current: &WorkSession,
) -> (result: Option<(WorkSession, Vec<WorkSession>)>)
    ensures
        match result {
            Some((anchor, middle)) => detour_anchor(
                sessions::session_views(candidates@),
                sessions::session_views(table@),
                current@,
                8,
            ) == Some(anchor@) && sessions::session_views(middle@) == middle_of(
                sessions::session_views(table@),
                anchor@,
                current@,
            ),
            None => detour_anchor(
                sessions::session_views(candidates@),
                sessions::session_views(table@),
                current@,
                8,
            ) is None,
        },
{
    let ghost all = sessions::session_views(candidates@);
    let ghost views = sessions::session_views(table@);
    let mut tries: usize = 8;
    let mut i: usize = candidates.len();
    assert(all.take(i as int) =~= all);
    while i > 0 && tries > 0
        invariant
            i <= candidates.len(),
            all == sessions::session_views(candidates@),
            views == sessions::session_views(table@),
            detour_anchor(all, views, current@, 8) == detour_anchor(
                all.take(i as int),
                views,
                current@,
                tries as nat,
            ),
        decreases i,
    {
        let anchor = &candidates[i - 1];
        assert(all.take(i as int).last() == anchor@);
        assert(all.take(i as int).drop_last() =~= all.take(i - 1));
        if sessions::can_bridge_short_detour(anchor, current) {
            let middle = collect_middle(table, anchor, current);
            assert(sessions::session_views(middle@).len() == middle.len());
            if middle.len() >= 1 && middle.len() <= 6 && sessions::short_detour_is_compatible(
                anchor,
                &middle,
                current,
            ) {
                return Some((anchor.copy(), middle));
            }
        }
        i -= 1;
        tries -= 1;
    }
    None
}

/// Finds the neighbours to which a session is joined: the one right before it, or the start of a
/// piece of work that a short detour interrupted.
pub fn coalesce_session_neighbors(table: &Vec<WorkSession>, current: &WorkSession) -> (result: Option<
    Join,
>)
    ensures
        joins(result, neighbor_join(sessions::session_views(table@), current@)),
{
    let candidates = collect_earlier(table, current);
    assert(sessions::session_views(candidates@).len() == candidates.len());
    if candidates.len() == 0 {
        return None;
    }
    let previous = &candidates[candidates.len() - 1];
    assert(sessions::session_views(candidates@).last() == previous@);
    if sessions::can_auto_coalesce(previous, current) {
        let mut following: Vec<WorkSession> = Vec::new();
        following.push(current.copy());
        assert(sessions::session_views(following@) =~= seq![current@]);
        return Some(Join { anchor: previous.copy(), following });
    }
    match find_short_detour_anchor(&candidates, table, current) {
        Some((anchor, middle)) => {
            let mut following = middle;
            push_session(&mut following, current.copy());
            Some(Join { anchor, following })
        },
        None => None,
    }
}

/// A short automatic session is swallowed by the automatic session right before it.
pub open spec fn swallowed(previous: SessionView, current: SessionView) -> bool {
    &&& untouched(current)
    &&& clock::gap_seconds(current.started_at, current.ended_at) matches Some(seconds)
    &&& seconds < 5
    &&& untouched(previous)
    &&& clock::gap_within(previous.ended_at, current.started_at, 5)
}

/// The session that swallows `current`, if any.
pub open spec fn swallow_join(table: Seq<SessionView>, current: SessionView) -> Option<
    (SessionView, Seq<SessionView>),
> {
    let candidates = earlier(table, current);
    if candidates.len() > 0 && swallowed(candidates.last(), current) {
        Some((candidates.last(), seq![current]))
    } else {
        None
    }
}

/// Finds the session that swallows a session of less than five seconds.
pub fn absorb_short_auto_session(table: &Vec<WorkSession>, current: &WorkSession) -> (result: Option<
    Join,
>)
    ensures
        joins(result, swallow_join(sessions::session_views(table@), current@)),
{
    if current.user_confirmed || !labels::is_auto_session_source(current.source.as_str()) {
        return None;
    }
    match sessions::session_duration_seconds(current) {
        Some(seconds) => if seconds >= 5 {
            return None;
        },
        None => {
            return None;
        },
    }
    let candidates = collect_earlier(table, current);
    assert(sessions::session_views(candidates@).len() == candidates.len());
    if candidates.len() == 0 {
        return None;
    }
    let previous = &candidates[candidates.len() - 1];
    assert(sessions::session_views(candidates@).last() == previous@);
    if previous.user_confirmed || !labels::is_auto_session_source(previous.source.as_str())
        || !clock::within_gap_seconds(previous.ended_at.as_str(), current.started_at.as_str(), 5) {
        return None;
    }
    let mut following: Vec<WorkSession> = Vec::new();
    following.push(current.copy());
    assert(sessions::session_views(following@) =~= seq![current@]);
    Some(Join { anchor: previous.copy(), following })
}

/// A confirmed session is never joined to another by itself, except that a confirmed session can be
/// the anchor that takes in a screenshot overlay.
pub proof fn confirmed_sessions_are_not_absorbed(table: Seq<SessionView>, current: SessionView)
    requires
        current.user_confirmed,
    ensures
        neighbor_join(table, current) is None,
        swallow_join(table, current) is None,
{
    let candidates = earlier(table, current);
    lemma_no_detour_to_confirmed(candidates, table, current, 8);
}

proof fn lemma_no_detour_to_confirmed(
    candidates: Seq<SessionView>,
    table: Seq<SessionView>,
    current: SessionView,
    tries: nat,
)
    requires
        current.user_confirmed,
    ensures
        detour_anchor(candidates, table, current, tries) is None,
    decreases tries,
{
    if tries > 0 && candidates.len() > 0 {
        lemma_no_detour_to_confirmed(candidates.drop_last(), table, current, (tries - 1) as nat);
    }
}

/// The table after the sessions were joined: the anchor is replaced and the joined ones are gone.
pub open spec fn table_after(
    table: Seq<SessionView>,
    anchor: SessionView,
    following: Seq<SessionView>,
) -> Seq<SessionView> {
    let merged = sessions::absorbed_all(anchor, following);
    table.map_values(
        |row: SessionView| if row.id == anchor.id { merged } else { row },
    ).filter(|row: SessionView| !ids_of(following).contains(row.id))
}

pub open spec fn ids_of(rows: Seq<SessionView>) -> Seq<Seq<char>> {
    rows.map_values(|row: SessionView| row.id)
}

pub(crate) fn collect_ids(rows: &Vec<WorkSession>) -> (result: Vec<String>)
    ensures
        text::texts(result@) == ids_of(sessions::session_views(rows@)),
{
    let ghost views = sessions::session_views(rows@);
    let mut ids: Vec<String> = Vec::new();
    let mut i: usize = 0;
    while i < rows.len()
        invariant
            i <= rows.len(),
            views == sessions::session_views(rows@),
            text::texts(ids@) == ids_of(views).take(i as int),
        decreases rows.len() - i,
    {
        let ghost done = text::texts(ids@);
        ids.push(rows[i].id.clone());
        assert(text::texts(ids@) =~= done.push(rows@[i as int].id@));
        assert(ids_of(views)[i as int] == rows@[i as int].id@);
        i += 1;
    }
    assert(ids_of(views).take(rows.len() as int) =~= ids_of(views));
    ids
}

/// Carries out a join on the table.
pub fn apply_join(table: &Vec<WorkSession>, join: &Join) -> (result: Vec<WorkSession>)
    ensures
        sessions::session_views(result@) == table_after(
            sessions::session_views(table@),
            join.anchor@,
            sessions::session_views(join.following@),
        ),
{
    let merged = sessions::merge_sessions_into(&join.anchor, &join.following);
    let gone = collect_ids(&join.following);
    let ghost views = sessions::session_views(table@);
    let ghost rename = |row: SessionView| if row.id == join.anchor@.id { merged@ } else { row };
    let ghost keep = |row: SessionView|
        !ids_of(sessions::session_views(join.following@)).contains(row.id);
    let ghost mapped = views.map_values(rename);
    let mut result: Vec<WorkSession> = Vec::new();
    let mut i: usize = 0;
    assert(mapped.take(0).filter(keep) =~= Seq::empty()) by {
        reveal(Seq::filter);
    }
    assert(sessions::session_views(result@) =~= Seq::empty());
    while i < table.len()
        invariant
            i <= table.len(),
            views == sessions::session_views(table@),
            rename == (|row: SessionView| if row.id == join.anchor@.id { merged@ } else { row }),
            keep == (|row: SessionView|
                !ids_of(sessions::session_views(join.following@)).contains(row.id)),
            mapped == views.map_values(rename),
            text::texts(gone@) == ids_of(sessions::session_views(join.following@)),
            sessions::session_views(result@) == mapped.take(i as int).filter(keep),
        decreases table.len() - i,
    {
        let row = if text::same(table[i].id.as_str(), join.anchor.id.as_str()) {
            merged.copy()
        } else {
            table[i].copy()
        };
        assert(views[i as int] == table@[i as int]@);
        assert(mapped[i as int] == row@);
        assert(mapped.take(i + 1) =~= mapped.take(i as int).push(row@));
        proof {
            mapped.take(i as int).lemma_filter_push(row@, keep);
        }
        if !text::listed(&gone, row.id.as_str()) {
            push_session(&mut result, row);
        }
        i += 1;
    }
    assert(mapped.take(table.len() as int) =~= mapped);
    let ghost following = sessions::session_views(join.following@);
    let ghost model = sessions::absorbed_all(join.anchor@, following);
    assert(mapped =~= views.map_values(
        |row: SessionView| if row.id == join.anchor@.id { model } else { row },
    ));
    assert(keep =~= (|row: SessionView| !ids_of(following).contains(row.id)));
    result
}

/// The table after one session was looked at: it may be swallowed, and what then stands in its
/// place may be joined to its neighbours. The number counts the joins.
pub open spec fn compacted_at(table: Seq<SessionView>, id: Seq<char>) -> (Seq<SessionView>, nat) {
    match sessions::find(table, id) {
        None => (table, 0),
        Some(current) => {
            let (once, place, first) = match swallow_join(table, current) {
                Some((anchor, following)) => (table_after(table, anchor, following), anchor.id, 1nat),
                None => (table, id, 0nat),
            };
            match sessions::find(once, place) {
                None => (once, first),
                Some(standing) => match neighbor_join(once, standing) {
                    Some((anchor, following)) => (
                        table_after(once, anchor, following),
                        first + (if anchor.id != place {
                            1nat
                        } else {
                            0nat
                        }),
                    ),
                    None => (once, first),
                },
            }
        },
    }
}

/// The table after all the given sessions were looked at in turn.
pub open spec fn compacted(table: Seq<SessionView>, ids: Seq<Seq<char>>) -> (Seq<SessionView>, nat)
    decreases ids.len(),
{
    if ids.len() == 0 {
        (table, 0)
    } else {
        let (before, count) = compacted(table, ids.drop_last());
        let (after, more) = compacted_at(before, ids.last());
        (after, count + more)
    }
}

/// The joins that looking at one session leads to, each an anchor with what is joined to it.
pub open spec fn joined_at(table: Seq<SessionView>, id: Seq<char>) -> Seq<
    (SessionView, Seq<SessionView>),
> {
    match sessions::find(table, id) {
        None => Seq::empty(),
        Some(current) => {
            let (once, place, first) = match swallow_join(table, current) {
                Some((anchor, following)) => (
                    table_after(table, anchor, following),
                    anchor.id,
                    seq![(anchor, following)],
                ),
                None => (table, id, Seq::empty()),
            };
            match sessions::find(once, place) {
                None => first,
                Some(standing) => match neighbor_join(once, standing) {
                    Some(join) => first.push(join),
                    None => first,
                },
            }
        },
    }
}

/// The joins that looking at the given sessions in turn leads to.
pub open spec fn all_joins(table: Seq<SessionView>, ids: Seq<Seq<char>>) -> Seq<
    (SessionView, Seq<SessionView>),
>
    decreases ids.len(),
{
    if ids.len() == 0 {
        Seq::empty()
    } else {
        all_joins(table, ids.drop_last()) + joined_at(
            compacted(table, ids.drop_last()).0,
            ids.last(),
        )
    }
}

/// What the joins hold.
pub open spec fn join_views(list: Seq<Join>) -> Seq<(SessionView, Seq<SessionView>)> {
    list.map_values(|join: Join| (join.anchor@, sessions::session_views(join.following@)))
}

/// The table after the joins were carried out in turn.
pub open spec fn replayed(table: Seq<SessionView>, joins: Seq<Join>) -> Seq<SessionView>
    decreases joins.len(),
{
    if joins.len() == 0 {
        table
    } else {
        table_after(
            replayed(table, joins.drop_last()),
            joins.last().anchor@,
            sessions::session_views(joins.last().following@),
        )
    }
}

/// A compacted table, the joins that lead to it, and how many sessions went into others.
#[derive(Debug, PartialEq, Eq)]
pub struct CompactedTable {
    pub table: Vec<WorkSession>,
    pub joins: Vec<Join>,
    pub changes: u128,
}

fn compact_at(
    table: Vec<WorkSession>,
    id: &str,
    joins: &mut Vec<Join>,
    Ghost(start): Ghost<Seq<SessionView>>,
) -> (result: (Vec<WorkSession>, u64))
    requires
        sessions::session_views(table@) == replayed(start, old(joins)@),
    ensures
        (sessions::session_views(result.0@), result.1 as nat) == compacted_at(
            sessions::session_views(table@),
            id@,
        ),
        result.1 <= 2,
        sessions::session_views(result.0@) == replayed(start, final(joins)@),
        join_views(final(joins)@) == join_views(old(joins)@) + joined_at(
            sessions::session_views(table@),
            id@,
        ),
{
    let ghost known = join_views(joins@);
    let ghost none = Seq::<(SessionView, Seq<SessionView>)>::empty();
    assert(known + none =~= known);
    let at = match sessions::find_session(&table, id) {
        Some(at) => at,
        None => {
            return (table, 0);
        },
    };
    let current = table[at].copy();
    let mut rows = table;
    let mut place = id.to_owned();
    let mut first: u64 = 0;
    match absorb_short_auto_session(&rows, &current) {
        Some(join) => {
            rows = apply_join(&rows, &join);
            place = join.anchor.id.clone();
            first = 1;
            let ghost before = joins@;
            let ghost made = (join.anchor@, sessions::session_views(join.following@));
            joins.push(join);
            assert(joins@.drop_last() =~= before);
            assert(join_views(joins@) =~= known + seq![made]);
        },
        None => {},
    }
    let ghost first_joins = join_views(joins@);
    assert(sessions::session_views(rows@) == replayed(start, joins@));
    match sessions::find_session(&rows, place.as_str()) {
        Some(position) => {
            let standing = rows[position].copy();
            match coalesce_session_neighbors(&rows, &standing) {
                Some(join) => {
                    let after = apply_join(&rows, &join);
                    let more: u64 = if text::same(join.anchor.id.as_str(), place.as_str()) {
                        0
                    } else {
                        1
                    };
                    let ghost before = joins@;
                    let ghost made = (join.anchor@, sessions::session_views(join.following@));
                    joins.push(join);
                    assert(joins@.drop_last() =~= before);
                    assert(join_views(joins@) =~= first_joins.push(made));
                    assert(known + none.push(made) =~= known.push(made));
                    assert(join_views(joins@) =~= known + joined_at(
                        sessions::session_views(table@),
                        id@,
                    ));
                    assert(sessions::session_views(after@) == replayed(start, joins@));
                    (after, first + more)
                },
                None => (rows, first),
            }
        },
        None => (rows, first),
    }
}

/// Looks at each of the sessions in turn and joins what belongs together.
pub fn compact_sessions(table: Vec<WorkSession>, ids: &Vec<String>) -> (result: CompactedTable)
    ensures
        (sessions::session_views(result.table@), result.changes as nat) == compacted(
            sessions::session_views(table@),
            text::texts(ids@),
        ),
        sessions::session_views(result.table@) == replayed(
            sessions::session_views(table@),
            result.joins@,
        ),
        join_views(result.joins@) == all_joins(
            sessions::session_views(table@),
            text::texts(ids@),
        ),
{
    let ghost start = sessions::session_views(table@);
    let ghost all = text::texts(ids@);
    let mut rows = table;
    let mut joins: Vec<Join> = Vec::new();
    let mut changes: u128 = 0;
    let mut i: usize = 0;
    assert(all.take(0) =~= Seq::empty());
    assert(join_views(joins@) =~= Seq::empty());
    while i < ids.len()
        invariant
            i <= ids.len(),
            all == text::texts(ids@),
            changes <= 2 * i,
            (sessions::session_views(rows@), changes as nat) == compacted(
                start,
                all.take(i as int),
            ),
            sessions::session_views(rows@) == replayed(start, joins@),
            join_views(joins@) == all_joins(start, all.take(i as int)),
        decreases ids.len() - i,
    {
        assert(all.take(i + 1).drop_last() =~= all.take(i as int));
        let (after, more) = compact_at(rows, ids[i].as_str(), &mut joins, Ghost(start));
        rows = after;
        changes = changes + more as u128;
        i += 1;
    }
    assert(all.take(ids.len() as int) =~= all);
    CompactedTable { table: rows, joins, changes }
}

/// The moment at which time away began: the idle threshold before it was noticed, but not before the
/// session that it interrupts.
pub open spec fn boundary_moment(idle_start: Moment, previous_start: Moment, threshold: int) -> Moment {
    let back = clock::shifted(idle_start, -threshold);
    if clock::before(back, previous_start) {
        previous_start
    } else {
        back
    }
}

/// The boundary between a session and the time away right behind it, where there is one.
pub open spec fn idle_boundary(
    idle_started_at: Seq<char>,
    previous: SessionView,
    threshold: int,
) -> Option<Seq<char>> {
    match (clock::moment_of(idle_started_at), clock::moment_of(previous.started_at)) {
        (Some(idle_start), Some(previous_start)) => if clock::gap_within(
            previous.ended_at,
            idle_started_at,
            3,
        ) {
            let at = boundary_moment(idle_start, previous_start, threshold);
            Some(clock::rfc3339_text(at.seconds, at.nanos))
        } else {
            None
        },
        _ => None,
    }
}

pub fn find_idle_boundary(idle_started_at: &str, previous: &WorkSession, threshold: u32) -> (result:
    Option<String>)
    requires
        threshold > 0,
    ensures
        text::optional(result) == idle_boundary(idle_started_at@, previous@, threshold as int),
{
    if !clock::within_gap_seconds(previous.ended_at.as_str(), idle_started_at, 3) {
        return None;
    }
    match (
        clock::parse_moment(idle_started_at),
        clock::parse_moment(previous.started_at.as_str()),
    ) {
        (Some(idle_start), Some(previous_start)) => {
            let back = clock::shift(idle_start, -(threshold as i64));
            let at = if clock::is_before(back, previous_start) {
                previous_start
            } else {
                back
            };
            Some(clock::format_moment(at))
        },
        _ => None,
    }
}

/// An unconfirmed row that a collector wrote or completed.
pub open spec fn collected(session: SessionView) -> bool {
    !session.user_confirmed && (session.source == "context-complete"@ || session.source
        == "collector-rule"@)
}

fn is_collected(session: &WorkSession) -> (result: bool)
    ensures
        result == collected(session@),
{
    !session.user_confirmed && (text::same(session.source.as_str(), "context-complete")
        || text::same(session.source.as_str(), "collector-rule"))
}

/// The session was going on when the time away was noticed, or ended right before.
pub open spec fn interrupted(session: SessionView, idle_started_at: Seq<char>) -> bool {
    &&& collected(session)
    &&& session.category != "离开"@
    &&& text::precedes(session.started_at, idle_started_at)
    &&& !text::precedes(idle_started_at, session.ended_at)
}

/// The interrupted session with the latest end.
pub open spec fn interrupted_session(table: Seq<SessionView>, idle_started_at: Seq<char>) -> Option<
    SessionView,
>
    decreases table.len(),
{
    if table.len() == 0 {
        None
    } else {
        let best = interrupted_session(table.drop_last(), idle_started_at);
        let last = table.last();
        if interrupted(last, idle_started_at) && (best matches Some(other) ==> !text::precedes(
            last.ended_at,
            other.ended_at,
        )) {
            Some(last)
        } else {
            best
        }
    }
}

fn find_interrupted(table: &Vec<WorkSession>, idle_started_at: &str) -> (result: Option<usize>)
    ensures
        match result {
            Some(at) => at < table.len() && interrupted_session(
                sessions::session_views(table@),
                idle_started_at@,
            ) == Some(table@[at as int]@),
            None => interrupted_session(
                sessions::session_views(table@),
                idle_started_at@,
            ) is None,
        },
{
    let ghost views = sessions::session_views(table@);
    let mut best: Option<usize> = None;
    let mut i: usize = 0;
    while i < table.len()
        invariant
            i <= table.len(),
            views == sessions::session_views(table@),
            match best {
                Some(at) => at < i && interrupted_session(
                    views.take(i as int),
                    idle_started_at@,
                ) == Some(table@[at as int]@),
                None => interrupted_session(views.take(i as int), idle_started_at@) is None,
            },
        decreases table.len() - i,
    {
        assert(views.take(i + 1).drop_last() =~= views.take(i as int));
        assert(views.take(i + 1).last() == table@[i as int]@);
        if is_collected(&table[i]) && !text::same(table[i].category.as_str(), "离开") && text::less(
            table[i].started_at.as_str(),
            idle_started_at,
        ) && !text::less(idle_started_at, table[i].ended_at.as_str()) {
            match best {
                Some(at) => {
                    if !text::less(table[i].ended_at.as_str(), table[at].ended_at.as_str()) {
                        best = Some(i);
                    }
                },
                None => {
                    best = Some(i);
                },
            }
        }
        i += 1;
    }
    assert(views.take(table.len() as int) =~= views);
    best
}

/// What is to be changed at one idle session.
#[derive(Debug, PartialEq, Eq)]
pub struct BoundaryMove {
    pub idle_id: String,
    pub previous_id: String,
    pub boundary: String,
    /// The interrupted session has nothing left and goes.
    pub removes_previous: bool,
}

/// The boundary that belongs to an idle session, if it interrupts a session that can be shortened.
pub open spec fn boundary_move(
    table: Seq<SessionView>,
    idle_started_at: Seq<char>,
    threshold: int,
) -> Option<(Seq<char>, Seq<char>, bool)> {
    match interrupted_session(table, idle_started_at) {
        Some(previous) => match idle_boundary(idle_started_at, previous, threshold) {
            Some(boundary) => Some((previous.id, boundary, boundary == previous.started_at)),
            None => None,
        },
        None => None,
    }
}

/// Moves the start of an idle session back to when the user left.
pub fn backfill_idle_boundary(
    table: &Vec<WorkSession>,
    idle_id: &str,
    idle_started_at: &str,
    threshold: u32,
) -> (result: Option<BoundaryMove>)
    requires
        threshold > 0,
    ensures
        match result {
            Some(change) => change.idle_id@ == idle_id@ && boundary_move(
                sessions::session_views(table@),
                idle_started_at@,
                threshold as int,
            ) == Some((change.previous_id@, change.boundary@, change.removes_previous)),
            None => boundary_move(
                sessions::session_views(table@),
                idle_started_at@,
                threshold as int,
            ) is None,
        },
{
    match find_interrupted(table, idle_started_at) {
        Some(at) => match find_idle_boundary(idle_started_at, &table[at], threshold) {
            Some(boundary) => {
                let removes_previous = text::same(
                    boundary.as_str(),
                    table[at].started_at.as_str(),
                );
                Some(
                    BoundaryMove {
                        idle_id: idle_id.to_owned(),
                        previous_id: table[at].id.clone(),
                        boundary,
                        removes_previous,
                    },
                )
            },
            None => None,
        },
        None => None,
    }
}

/// The row after the boundary was moved; nothing where it goes.
pub open spec fn row_after_move(
    row: SessionView,
    idle_id: Seq<char>,
    change: (Seq<char>, Seq<char>, bool),
) -> Option<SessionView> {
    if row.id == change.0 {
        if change.2 {
            None
        } else {
            Some(SessionView { ended_at: change.1, ..row })
        }
    } else if row.id == idle_id {
        Some(SessionView { started_at: change.1, ..row })
    } else {
        Some(row)
    }
}

/// The table after one idle session was looked at.
pub open spec fn backfilled_at(
    table: Seq<SessionView>,
    idle_id: Seq<char>,
    idle_started_at: Seq<char>,
    threshold: int,
) -> Seq<SessionView> {
    match boundary_move(table, idle_started_at, threshold) {
        Some(change) => table.filter_map(
            |row: SessionView| row_after_move(row, idle_id, change),
        ),
        None => table,
    }
}

/// Carries out a move on the table.
fn apply_move(table: &Vec<WorkSession>, change: &BoundaryMove) -> (result: Vec<WorkSession>)
    ensures
        sessions::session_views(result@) == sessions::session_views(table@).filter_map(
            |row: SessionView|
                row_after_move(
                    row,
                    change.idle_id@,
                    (change.previous_id@, change.boundary@, change.removes_previous),
                ),
        ),
{
    let ghost views = sessions::session_views(table@);
    let ghost moved = (change.previous_id@, change.boundary@, change.removes_previous);
    let ghost pick = |row: SessionView| row_after_move(row, change.idle_id@, moved);
    let mut result: Vec<WorkSession> = Vec::new();
    let mut i: usize = 0;
    assert(views.take(0) =~= Seq::empty());
    assert(sessions::session_views(result@) =~= views.take(0).filter_map(pick));
    while i < table.len()
        invariant
            i <= table.len(),
            views == sessions::session_views(table@),
            moved == (change.previous_id@, change.boundary@, change.removes_previous),
            pick == (|row: SessionView| row_after_move(row, change.idle_id@, moved)),
            sessions::session_views(result@) == views.take(i as int).filter_map(pick),
        decreases table.len() - i,
    {
        let ghost done = sessions::session_views(result@);
        assert(views[i as int] == table@[i as int]@);
        proof {
            views.lemma_filter_map_take_succ(pick, i as int);
        }
        let mut row = table[i].copy();
        if text::same(row.id.as_str(), change.previous_id.as_str()) {
            if !change.removes_previous {
                row.ended_at = change.boundary.clone();
                push_session(&mut result, row);
                assert(sessions::session_views(result@) =~= done + seq![row@]);
            }
        } else {
            if text::same(row.id.as_str(), change.idle_id.as_str()) {
                row.started_at = change.boundary.clone();
            }
            push_session(&mut result, row);
            assert(sessions::session_views(result@) =~= done + seq![row@]);
        }
        i += 1;
    }
    assert(views.take(table.len() as int) =~= views);
    result
}

/// The table after the moves were carried out in turn.
pub open spec fn moved(table: Seq<SessionView>, moves: Seq<BoundaryMove>) -> Seq<SessionView>
    decreases moves.len(),
{
    if moves.len() == 0 {
        table
    } else {
        let last = moves.last();
        moved(table, moves.drop_last()).filter_map(
            |row: SessionView|
                row_after_move(
                    row,
                    last.idle_id@,
                    (last.previous_id@, last.boundary@, last.removes_previous),
                ),
        )
    }
}

/// The idle sessions that collectors wrote, as they stood at the beginning.
pub open spec fn idle_rows(table: Seq<SessionView>) -> Seq<SessionView> {
    sessions::by_start(
        table.filter(|row: SessionView| collected(row) && row.category == "离开"@),
    )
}

/// The table after the given idle sessions were looked at in turn.
pub open spec fn backfilled(
    table: Seq<SessionView>,
    idle: Seq<SessionView>,
    threshold: int,
) -> Seq<SessionView>
    decreases idle.len(),
{
    if idle.len() == 0 {
        table
    } else {
        backfilled_at(
            backfilled(table, idle.drop_last(), threshold),
            idle.last().id,
            idle.last().started_at,
            threshold,
        )
    }
}

/// A move: the idle session, the session that it interrupts, the boundary between them, and
/// whether the interrupted session goes.
pub open spec fn move_view(change: BoundaryMove) -> (Seq<char>, Seq<char>, Seq<char>, bool) {
    (change.idle_id@, change.previous_id@, change.boundary@, change.removes_previous)
}

/// What the moves hold.
pub open spec fn move_views(moves: Seq<BoundaryMove>) -> Seq<
    (Seq<char>, Seq<char>, Seq<char>, bool),
> {
    moves.map_values(|change: BoundaryMove| move_view(change))
}

/// The moves that looking at the given idle sessions in turn leads to.
pub open spec fn planned_moves(
    table: Seq<SessionView>,
    idle: Seq<SessionView>,
    threshold: int,
) -> Seq<(Seq<char>, Seq<char>, Seq<char>, bool)>
    decreases idle.len(),
{
    if idle.len() == 0 {
        Seq::empty()
    } else {
        let before = planned_moves(table, idle.drop_last(), threshold);
        match boundary_move(
            backfilled(table, idle.drop_last(), threshold),
            idle.last().started_at,
            threshold,
        ) {
            Some(change) => before.push((idle.last().id, change.0, change.1, change.2)),
            None => before,
        }
    }
}

/// Moves the start of every idle session back to when the user left. Returns the moves in the order
/// in which they are to be carried out, and the table after them.
pub fn backfill_idle_boundaries(table: Vec<WorkSession>, threshold: u32) -> (result: (
    Vec<WorkSession>,
    Vec<BoundaryMove>,
))
    requires
        threshold > 0,
    ensures
        sessions::session_views(result.0@) == backfilled(
            sessions::session_views(table@),
            idle_rows(sessions::session_views(table@)),
            threshold as int,
        ),
        sessions::session_views(result.0@) == moved(sessions::session_views(table@), result.1@),
        move_views(result.1@) == planned_moves(
            sessions::session_views(table@),
            idle_rows(sessions::session_views(table@)),
            threshold as int,
        ),
{
    let ghost start = sessions::session_views(table@);
    let ghost keep = |row: SessionView| collected(row) && row.category == "离开"@;
    let mut selected: Vec<WorkSession> = Vec::new();
    let mut i: usize = 0;
    assert(start.take(0).filter(keep) =~= Seq::empty()) by {
        reveal(Seq::filter);
    }
    assert(sessions::session_views(selected@) =~= Seq::empty());
    while i < table.len()
        invariant
            i <= table.len(),
            start == sessions::session_views(table@),
            keep == (|row: SessionView| collected(row) && row.category == "离开"@),
            sessions::session_views(selected@) == start.take(i as int).filter(keep),
        decreases table.len() - i,
    {
        assert(start.take(i + 1) =~= start.take(i as int).push(table@[i as int]@));
        proof {
            start.take(i as int).lemma_filter_push(table@[i as int]@, keep);
        }
        if is_collected(&table[i]) && text::same(table[i].category.as_str(), "离开") {
            push_session(&mut selected, table[i].copy());
        }
        i += 1;
    }
    assert(start.take(table.len() as int) =~= start);
    let idle = sessions::sort_by_start(selected);
    let ghost rows_view = sessions::session_views(idle@);
    let mut rows = table;
    let mut moves: Vec<BoundaryMove> = Vec::new();
    let mut k: usize = 0;
    assert(rows_view.take(0) =~= Seq::empty());
    assert(move_views(moves@) =~= Seq::empty());
    while k < idle.len()
        invariant
            k <= idle.len(),
            threshold > 0,
            rows_view == sessions::session_views(idle@),
            sessions::session_views(rows@) == backfilled(
                start,
                rows_view.take(k as int),
                threshold as int,
            ),
            sessions::session_views(rows@) == moved(start, moves@),
            move_views(moves@) == planned_moves(start, rows_view.take(k as int), threshold as int),
        decreases idle.len() - k,
    {
        assert(rows_view.take(k + 1).drop_last() =~= rows_view.take(k as int));
        assert(rows_view.take(k + 1).last() == idle@[k as int]@);
        match backfill_idle_boundary(
            &rows,
            idle[k].id.as_str(),
            idle[k].started_at.as_str(),
            threshold,
        ) {
            Some(change) => {
                rows = apply_move(&rows, &change);
                let ghost before = moves@;
                moves.push(change);
                assert(moves@.drop_last() =~= before);
                assert(move_views(moves@) =~= move_views(before).push(move_view(change)));
            },
            None => {},
        }
        k += 1;
    }
    assert(rows_view.take(idle.len() as int) =~= rows_view);
    (rows, moves)
}

/// Moving the boundary leaves no gap between the session and the time away behind it: where the
/// session stays, it ends where the time away now begins.
pub proof fn moved_boundaries_meet(
    table: Seq<SessionView>,
    idle_id: Seq<char>,
    idle_started_at: Seq<char>,
    threshold: int,
    previous: SessionView,
    idle: SessionView,
)
    requires
        boundary_move(table, idle_started_at, threshold) matches Some(change) && change.0
            == previous.id && !change.2,
        idle.id == idle_id,
        idle_id != previous.id,
    ensures
        ({
            let change = boundary_move(table, idle_started_at, threshold).unwrap();
            &&& row_after_move(previous, idle_id, change) matches Some(shortened)
            &&& row_after_move(idle, idle_id, change) matches Some(extended)
            &&& shortened.ended_at == extended.started_at
            &&& shortened.started_at == previous.started_at
            &&& extended.ended_at == idle.ended_at
        }),
{
}

} // verus!
