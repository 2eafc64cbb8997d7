//! Promises of keeping the timeline tidy.
use vstd::prelude::*;
use vstd::string::*;

use crate::catalog::CatalogView;
use crate::clock;
use crate::clock::Moment;
use crate::journal;
use crate::laws::lookup;
use crate::laws::times;
use crate::ledger::LedgerView;
use crate::lists;
use crate::models::{EvidenceView, SessionView};
use crate::sessions;
use crate::text;
use crate::timeline;
use crate::timeline::TimelineView;
use crate::upkeep;

verus! {

broadcast use vstd::seq_lib::group_seq_properties;

/// A collector wrote the session, and nobody confirmed it.
pub open spec fn is_automatic(row: SessionView) -> bool {
    !row.user_confirmed && (row.source == "collector-rule"@ || row.source == "collector-idle"@
        || row.source == "context-complete"@)
}

/// The two sessions have one project, one task and one category.
pub open spec fn is_one_assignment(left: SessionView, right: SessionView) -> bool {
    left.project_id == right.project_id && left.task_id == right.task_id && left.category
        == right.category
}

/// Two sessions overlap where each begins before the other ends.
pub proof fn sessions_overlap_where_they_share_time(left: SessionView, right: SessionView)
    ensures
        clock::moment_of(left.started_at) matches Some(a) ==> clock::moment_of(
            left.ended_at,
        ) matches Some(b) ==> clock::moment_of(right.started_at) matches Some(c)
            ==> clock::moment_of(right.ended_at) matches Some(d) ==> (sessions::overlap(left, right)
            <==> (a.seconds < d.seconds || (a.seconds == d.seconds && a.nanos < d.nanos)) && (
        c.seconds < b.seconds || (c.seconds == b.seconds && c.nanos < b.nanos))),
        sessions::overlap(left, right) ==> clock::moment_of(left.started_at) is None
            || clock::moment_of(left.ended_at) is None || clock::moment_of(right.started_at) is None
            || clock::moment_of(right.ended_at) is None || (clock::before(
            clock::moment_of(left.started_at).unwrap(),
            clock::moment_of(right.ended_at).unwrap(),
        ) && clock::before(
            clock::moment_of(right.started_at).unwrap(),
            clock::moment_of(left.ended_at).unwrap(),
        )),
{
}

/// Overlapping sessions are joined only where both are automatic and have one assignment, and they are
/// joined where besides both are time away, or have one summary, or belong to a project or task and
/// show one program.
pub proof fn overlaps_are_joined_within_one_piece_of_work(left: SessionView, right: SessionView)
    ensures
        sessions::repairable(left, right) <==> is_automatic(left) && is_automatic(right)
            && is_one_assignment(left, right) && (left.summary == right.summary || (left.source
            == "collector-idle"@ && right.source == "collector-idle"@) || ((left.project_id is Some
            || left.task_id is Some) && sessions::session_app(left) is Some
            && sessions::session_app(left) == sessions::session_app(right))),
{
}

/// The program of a session is the first one that its evidence shows, in lower case.
pub proof fn the_program_is_the_first_shown(session: SessionView)
    ensures
        sessions::session_app(session) matches Some(name) ==> name.len() > 0 && exists|k: int|
            0 <= k < session.evidence.len() && (#[trigger] session.evidence[k]).kind == "app"@
                && name == text::lowercase(text::trimmed(session.evidence[k].value)) && forall|j: int|
                0 <= j < k ==> (#[trigger] session.evidence[j]).kind != "app"@,
        (forall|k: int|
            0 <= k < session.evidence.len() ==> (#[trigger] session.evidence[k]).kind != "app"@)
            ==> sessions::session_app(session) is None,
{
    lemma_first_value(session.evidence, "app"@);
}

proof fn lemma_first_value(items: Seq<EvidenceView>, kind: Seq<char>)
    ensures
        match sessions::first_value(items, kind) {
            Some(value) => exists|k: int|
                0 <= k < items.len() && (#[trigger] items[k]).kind == kind && items[k].value
                    == value && forall|j: int| 0 <= j < k ==> (#[trigger] items[j]).kind != kind,
            None => forall|k: int| 0 <= k < items.len() ==> (#[trigger] items[k]).kind != kind,
        },
    decreases items.len(),
{
    if items.len() > 0 && items[0].kind != kind {
        let rest = items.drop_first();
        lemma_first_value(rest, kind);
        match sessions::first_value(rest, kind) {
            Some(value) => {
                let k = choose|k: int|
                    0 <= k < rest.len() && (#[trigger] rest[k]).kind == kind && rest[k].value
                        == value && forall|j: int|
                        0 <= j < k ==> (#[trigger] rest[j]).kind != kind;
                assert(items[k + 1].kind == kind);
                assert forall|j: int| 0 <= j < k + 1 implies (#[trigger] items[j]).kind != kind by {
                    if j > 0 {
                        assert(rest[j - 1].kind != kind);
                    }
                }
            },
            None => {
                assert forall|k: int| 0 <= k < items.len() implies (#[trigger] items[k]).kind
                    != kind by {
                    if k > 0 {
                        assert(rest[k - 1].kind != kind);
                    }
                }
            },
        }
    } else if items.len() > 0 {
        assert(items[0].kind == kind);
    }
}

/// One more session is added to a repaired timeline: where it does not overlap, it is kept as it is;
/// where it is the same work as the last one, that one takes it in; otherwise the last one is cut where
/// the new one begins, or, where both begin together, the one that lasts longer stays.
pub proof fn overlaps_are_resolved_one_by_one(before: TimelineView, current: SessionView)
    requires
        before.kept.len() == before.touched.len(),
    ensures
        ({
            let after = timeline::extended(before, current);
            let last = before.kept.last();
            if before.kept.len() == 0 || !sessions::overlap(last, current) {
                &&& after.kept == before.kept.push(current)
                &&& after.touched == before.touched.push(false)
                &&& after.removed == before.removed
                &&& after.changes == before.changes
            } else {
                let n = before.kept.len() - 1;
                &&& after.changes == before.changes + 1
                &&& forall|k: int| 0 <= k < n ==> #[trigger] after.kept[k] == before.kept[k]
                &&& if sessions::repairable(last, current) {
                    &&& after.kept.len() == before.kept.len()
                    &&& after.kept[n] == sessions::absorbed(last, current)
                    &&& after.touched.last()
                    &&& after.removed == before.removed.push(current.id)
                } else if clock::later(current.started_at, last.started_at) {
                    &&& after.kept.len() == before.kept.len() + 1
                    &&& after.kept[n + 1] == current
                    &&& after.kept[n].id == last.id
                    &&& after.kept[n].started_at == last.started_at
                    &&& after.kept[n].ended_at == current.started_at
                    &&& after.kept[n].summary == last.summary
                    &&& is_one_assignment(after.kept[n], last)
                    &&& after.touched[n] && !after.touched[n + 1]
                    &&& after.removed == before.removed
                } else {
                    let stays = if clock::later(current.ended_at, last.ended_at) || (
                    current.ended_at == last.ended_at && current.confidence > last.confidence) {
                        current
                    } else {
                        last
                    };
                    &&& after.kept.len() == before.kept.len()
                    &&& after.kept[n] == stays
                    &&& after.removed == before.removed.push(
                        if stays == current && stays != last {
                            last.id
                        } else if stays == last && stays != current {
                            current.id
                        } else {
                            after.removed.last()
                        },
                    )
                }
            }
        }),
{
}

/// Neighbours are joined only within five seconds, and never is a confirmed session joined to another.
/// A session that shows only a helper in front of the work goes to the work before it; time away joins
/// time away of one project and category; and complete sessions join that have one assignment and show
/// one program.
pub proof fn neighbours_are_joined_within_one_piece_of_work(left: SessionView, right: SessionView)
    ensures
        sessions::coalesces(left, right) ==> {
            &&& !right.user_confirmed
            &&& clock::gap_within(left.ended_at, right.started_at, 5)
            &&& is_automatic(right)
            &&& sessions::overlay_session(right) || !left.user_confirmed
            &&& sessions::overlay_session(right) ==> left.source != "collector-idle"@
                && left.category != "离开"@
            &&& !sessions::overlay_session(right) ==> left.project_id == right.project_id
                && left.category == right.category && left.source == right.source
            &&& !sessions::overlay_session(right) && left.source != "collector-idle"@
                ==> is_one_assignment(left, right) && sessions::session_app(left) is Some
                && sessions::session_app(left) == sessions::session_app(right)
        },
        clock::gap_within(left.ended_at, right.started_at, 5) && !left.user_confirmed
            && !right.user_confirmed && !sessions::overlay_session(right) && left.source
            == "context-complete"@ && right.source == "context-complete"@ && is_one_assignment(
            left,
            right,
        ) && sessions::session_app(left) is Some && sessions::session_app(left)
            == sessions::session_app(right) && (left.project_id is Some || left.task_id is Some
            || left.summary == right.summary) ==> sessions::coalesces(left, right),
        clock::gap_within(left.ended_at, right.started_at, 5) && !left.user_confirmed
            && !right.user_confirmed && !sessions::overlay_session(right) && left.source
            == "collector-idle"@ && right.source == "collector-idle"@ && left.project_id
            == right.project_id && left.category == right.category ==> sessions::coalesces(
            left,
            right,
        ),
        clock::gap_within(left.ended_at, right.started_at, 5) && is_automatic(right)
            && sessions::overlay_session(right) && left.source != "collector-idle"@
            && left.category != "离开"@ ==> sessions::coalesces(left, right),
{
    reveal_strlit("collector-idle");
    reveal_strlit("context-complete");
    assert("collector-idle"@.len() != "context-complete"@.len());
}

/// A detour is short and on the way: the same work before and after it, within ninety seconds, and
/// between them only unconfirmed steps of its project or without one, each within three seconds.
pub proof fn detours_are_short_and_on_the_way(
    anchor: SessionView,
    middle: Seq<SessionView>,
    current: SessionView,
)
    ensures
        sessions::bridges(anchor, current) <==> {
            &&& !anchor.user_confirmed && !current.user_confirmed
            &&& anchor.source == "context-complete"@ && current.source == "context-complete"@
            &&& anchor.category != "离开"@
            &&& is_one_assignment(anchor, current)
            &&& anchor.project_id is Some || anchor.task_id is Some
            &&& sessions::session_app(anchor) is Some && sessions::session_app(anchor)
                == sessions::session_app(current)
            &&& clock::gap_within(anchor.ended_at, current.started_at, 90)
        },
        sessions::detour(anchor, middle, current) ==> {
            &&& middle.len() > 0
            &&& forall|k: int|
                0 <= k < middle.len() ==> {
                    let step = #[trigger] middle[k];
                    &&& !step.user_confirmed
                    &&& step.source == "context-complete"@
                    &&& step.category != "离开"@
                    &&& step.project_id == anchor.project_id || (step.project_id is None
                        && step.category == "杂务"@)
                    &&& clock::gap_within(
                        if k == 0 {
                            anchor.ended_at
                        } else {
                            middle[k - 1].ended_at
                        },
                        step.started_at,
                        3,
                    )
                }
            &&& clock::gap_within(middle.last().ended_at, current.started_at, 3)
        },
{
    if sessions::detour(anchor, middle, current) {
        assert forall|k: int| 0 <= k < middle.len() implies {
            let step = #[trigger] middle[k];
            &&& !step.user_confirmed
            &&& step.source == "context-complete"@
            &&& step.category != "离开"@
            &&& step.project_id == anchor.project_id || (step.project_id is None && step.category
                == "杂务"@)
            &&& clock::gap_within(
                if k == 0 {
                    anchor.ended_at
                } else {
                    middle[k - 1].ended_at
                },
                step.started_at,
                3,
            )
        } by {
            assert(sessions::detour_step(
                anchor,
                middle[k],
                sessions::step_begin(anchor, middle, k),
            ));
        }
    }
}

/// What a session is joined to begins before it, and of all that begin before it the last where the two
/// are neighbours. What is joined to it is the session itself and, on a detour, what lies between.
pub proof fn sessions_are_joined_to_an_earlier_one(
    table: Seq<SessionView>,
    current: SessionView,
    anchor: SessionView,
    following: Seq<SessionView>,
)
    requires
        timeline::neighbor_join(table, current) == Some((anchor, following)),
    ensures
        table.contains(anchor),
        text::precedes(anchor.started_at, current.started_at),
        following.len() > 0 && following.last() == current,
        following.len() == 1 ==> sessions::coalesces(anchor, current) && forall|k: int|
            0 <= k < table.len() && text::precedes(
                (#[trigger] table[k]).started_at,
                current.started_at,
            ) ==> !text::precedes(anchor.started_at, table[k].started_at),
        following.len() > 1 ==> sessions::bridges(anchor, current) && sessions::detour(
            anchor,
            following.drop_last(),
            current,
        ) && following.len() <= 7,
        forall|k: int|
            0 <= k < following.len() - 1 ==> table.contains(#[trigger] following[k]) && following[k].id
                != anchor.id && !text::precedes(following[k].started_at, anchor.ended_at)
                && !text::precedes(current.started_at, following[k].ended_at),
{
    let keep = |session: SessionView| text::precedes(session.started_at, current.started_at);
    let chosen = table.filter(keep);
    let candidates = timeline::earlier(table, current);
    lists::lemma_filtered(table, keep);
    sessions::sorting_by_start_is_a_permutation(chosen);
    assert forall|k: int| 0 <= k < candidates.len() implies table.contains(
        #[trigger] candidates[k],
    ) && text::precedes(candidates[k].started_at, current.started_at) by {
        lemma_same_content(candidates, chosen, candidates[k]);
        assert(chosen.contains(candidates[k]));
    }
    if sessions::coalesces(candidates.last(), current) {
        assert(following.len() == 1);
        assert(anchor == candidates[candidates.len() - 1]);
        assert forall|k: int|
            0 <= k < table.len() && text::precedes(
                (#[trigger] table[k]).started_at,
                current.started_at,
            ) implies !text::precedes(anchor.started_at, table[k].started_at) by {
            assert(table.contains(table[k]));
            assert(chosen.contains(table[k]));
            lemma_same_content(chosen, candidates, table[k]);
            let m = choose|m: int| 0 <= m < candidates.len() && candidates[m] == table[k];
            if m == candidates.len() - 1 {
                text::lemma_precedes_total(anchor.started_at, anchor.started_at);
            }
        }
    } else {
        lemma_detour_anchor(candidates, table, current, 8);
        let middle = timeline::middle_of(table, anchor, current);
        assert(following.drop_last() =~= middle);
        let m = choose|m: int| 0 <= m < candidates.len() && candidates[m] == anchor;
        let within = |session: SessionView| timeline::between(session, anchor, current);
        let inner = table.filter(within);
        lists::lemma_filtered(table, within);
        sessions::sorting_by_start_is_a_permutation(inner);
        assert forall|k: int| 0 <= k < following.len() - 1 implies table.contains(
            #[trigger] following[k],
        ) && following[k].id != anchor.id && !text::precedes(
            following[k].started_at,
            anchor.ended_at,
        ) && !text::precedes(current.started_at, following[k].ended_at) by {
            assert(following[k] == middle[k]);
            assert(middle.contains(middle[k]));
            lemma_same_content(middle, inner, middle[k]);
            assert(inner.contains(middle[k]));
        }
    }
}

proof fn lemma_detour_anchor(
    candidates: Seq<SessionView>,
    table: Seq<SessionView>,
    current: SessionView,
    tries: nat,
)
    ensures
        timeline::detour_anchor(candidates, table, current, tries) matches Some(anchor)
            ==> candidates.contains(anchor) && timeline::detour_from(table, anchor, current),
    decreases tries,
{
    if tries > 0 && candidates.len() > 0 {
        let rest = candidates.drop_last();
        lemma_detour_anchor(rest, table, current, (tries - 1) as nat);
        if let Some(anchor) = timeline::detour_anchor(candidates, table, current, tries) {
            if timeline::detour_from(table, candidates.last(), current) {
                assert(candidates[candidates.len() - 1] == anchor);
            } else {
                let k = choose|k: int| 0 <= k < rest.len() && rest[k] == anchor;
                assert(candidates[k] == anchor);
            }
        }
    }
}

proof fn lemma_same_content(left: Seq<SessionView>, right: Seq<SessionView>, item: SessionView)
    requires
        left.to_multiset() == right.to_multiset(),
        left.contains(item),
    ensures
        right.contains(item),
{
    broadcast use vstd::seq_lib::group_to_multiset_ensures;

    assert(left.to_multiset().contains(item));
    assert(right.to_multiset().contains(item));
}

/// A session is swallowed only where it is automatic and shorter than five seconds, and the last one to
/// begin before it is automatic too and ended at most five seconds before.
pub proof fn only_short_automatic_sessions_are_swallowed(
    table: Seq<SessionView>,
    current: SessionView,
)
    ensures
        timeline::swallow_join(table, current) matches Some((anchor, following)) ==> {
            &&& following == seq![current]
            &&& is_automatic(current) && is_automatic(anchor)
            &&& text::precedes(anchor.started_at, current.started_at)
            &&& clock::gap_seconds(current.started_at, current.ended_at) matches Some(length)
                && length < 5
            &&& clock::gap_within(anchor.ended_at, current.started_at, 5)
            &&& table.contains(anchor)
        },
{
    let keep = |session: SessionView| text::precedes(session.started_at, current.started_at);
    let chosen = table.filter(keep);
    let candidates = timeline::earlier(table, current);
    lists::lemma_filtered(table, keep);
    sessions::sorting_by_start_is_a_permutation(chosen);
    if let Some((anchor, following)) = timeline::swallow_join(table, current) {
        assert(candidates[candidates.len() - 1] == anchor);
        assert(candidates.contains(anchor));
        lemma_same_content(candidates, chosen, anchor);
        assert(chosen.contains(anchor));
    }
}

/// Time away begins when the user left: the idle threshold before it was noticed, but not before the
/// session that it interrupts. The boundary is written in whole seconds of UTC.
pub proof fn time_away_begins_when_the_user_left(
    idle_started_at: Seq<char>,
    previous: SessionView,
    threshold: int,
    noticed: Moment,
    begun: Moment,
)
    requires
        clock::moment_of(idle_started_at) == Some(noticed),
        clock::moment_of(previous.started_at) == Some(begun),
        times::is_plain(noticed),
        times::is_plain(begun),
        0 < threshold,
        i64::MIN <= noticed.seconds - threshold,
    ensures
        clock::gap_within(previous.ended_at, idle_started_at, 3) <==> timeline::idle_boundary(
            idle_started_at,
            previous,
            threshold,
        ) is Some,
        timeline::idle_boundary(idle_started_at, previous, threshold) matches Some(boundary)
            ==> exists|left: Moment|
            boundary == #[trigger] clock::rfc3339_text(left.seconds, left.nanos)
                && times::nanoseconds(left) == if times::nanoseconds(noticed) - threshold
                * 1_000_000_000 < times::nanoseconds(begun) {
                times::nanoseconds(begun)
            } else {
                times::nanoseconds(noticed) - threshold * 1_000_000_000
            },
{
    let back = clock::shifted(noticed, -threshold);
    times::shifting_counts_seconds(noticed, -threshold);
    times::time_is_counted(back, begun);
    assert(-threshold * 1_000_000_000 == -(threshold * 1_000_000_000)) by (nonlinear_arith);
    let left = timeline::boundary_moment(noticed, begun, threshold);
    if let Some(boundary) = timeline::idle_boundary(idle_started_at, previous, threshold) {
        assert(boundary == clock::rfc3339_text(left.seconds, left.nanos));
    }
}

/// The session that time away interrupts is an unconfirmed one of work that had begun and ended by then,
/// and of those the last to end.
pub proof fn time_away_interrupts_the_last_work(
    table: Seq<SessionView>,
    idle_started_at: Seq<char>,
)
    ensures
        match timeline::interrupted_session(table, idle_started_at) {
            Some(found) => {
                &&& table.contains(found)
                &&& is_interruptible(found, idle_started_at)
                &&& forall|k: int|
                    0 <= k < table.len() && is_interruptible(#[trigger] table[k], idle_started_at)
                        ==> !text::precedes(found.ended_at, table[k].ended_at)
            },
            None => forall|k: int|
                0 <= k < table.len() ==> !is_interruptible(#[trigger] table[k], idle_started_at),
        },
    decreases table.len(),
{
    if table.len() > 0 {
        let rest = table.drop_last();
        let last = table.last();
        time_away_interrupts_the_last_work(rest, idle_started_at);
        assert(table[table.len() - 1] == last);
        assert(forall|k: int| 0 <= k < rest.len() ==> table[k] == rest[k]);
        text::lemma_precedes_total(last.ended_at, last.ended_at);
        if let Some(best) = timeline::interrupted_session(rest, idle_started_at) {
            let m = choose|m: int| 0 <= m < rest.len() && rest[m] == best;
            assert(table[m] == best);
            text::lemma_precedes_total(last.ended_at, best.ended_at);
            assert forall|k: int|
                0 <= k < table.len() && is_interruptible(
                    #[trigger] table[k],
                    idle_started_at,
                ) implies !text::precedes(
                timeline::interrupted_session(table, idle_started_at).unwrap().ended_at,
                table[k].ended_at,
            ) by {
                if k < rest.len() {
                    assert(is_interruptible(rest[k], idle_started_at));
                    text::lemma_precedes_total(best.ended_at, rest[k].ended_at);
                    if text::precedes(last.ended_at, rest[k].ended_at) && text::precedes(
                        best.ended_at,
                        last.ended_at,
                    ) {
                        text::lemma_precedes_transitive(
                            best.ended_at,
                            last.ended_at,
                            rest[k].ended_at,
                        );
                    }
                }
            }
        }
    }
}

/// The session is unconfirmed work that had begun and ended by then.
pub open spec fn is_interruptible(row: SessionView, idle_started_at: Seq<char>) -> bool {
    &&& !row.user_confirmed
    &&& row.source == "context-complete"@ || row.source == "collector-rule"@
    &&& row.category != "离开"@
    &&& text::precedes(row.started_at, idle_started_at)
    &&& !text::precedes(idle_started_at, row.ended_at)
}

/// Moving a boundary changes the end of the interrupted session, or drops it, and the start of the time
/// away; nothing else of them changes, and no other session does.
pub proof fn moved_boundaries_change_only_the_boundary(
    row: SessionView,
    idle_id: Seq<char>,
    previous_id: Seq<char>,
    boundary: Seq<char>,
    removes: bool,
)
    ensures
        ({
            let after = timeline::row_after_move(row, idle_id, (previous_id, boundary, removes));
            if row.id == previous_id {
                if removes {
                    after is None
                } else {
                    after matches Some(left) && left.ended_at == boundary && left.started_at
                        == row.started_at && left.id == row.id && left.summary == row.summary
                        && is_one_assignment(left, row) && left.evidence == row.evidence
                        && left.confidence == row.confidence && left.source == row.source
                        && left.user_confirmed == row.user_confirmed
                }
            } else if row.id == idle_id {
                after matches Some(left) && left.started_at == boundary && left.ended_at
                    == row.ended_at && left.id == row.id && left.summary == row.summary
                    && is_one_assignment(left, row) && left.evidence == row.evidence
                    && left.confidence == row.confidence && left.source == row.source
                    && left.user_confirmed == row.user_confirmed
            } else {
                after == Some(row)
            }
        }),
{
}

/// A session goes for want of length only where it is automatic and does not end after it began; it is
/// repaired only where it is automatic, lasts, and ended since the limit.
pub proof fn only_automatic_sessions_are_repaired(row: SessionView, cutoff: Moment)
    ensures
        timeline::lengthless(row) <==> is_automatic(row) && (clock::moment_of(
            row.started_at,
        ) matches Some(start) && clock::moment_of(row.ended_at) matches Some(end) && !(start.seconds
            < end.seconds || (start.seconds == end.seconds && start.nanos < end.nanos))),
        timeline::maintained(row, cutoff) <==> is_automatic(row) && (clock::moment_of(
            row.started_at,
        ) matches Some(start) && clock::moment_of(row.ended_at) matches Some(end) && (start.seconds
            < end.seconds || (start.seconds == end.seconds && start.nanos < end.nanos)) && !(
        end.seconds < cutoff.seconds || (end.seconds == cutoff.seconds && end.nanos
            < cutoff.nanos))),
{
}

/// The task decides where a session stands. A session without a known task keeps its project where that
/// stands under its category; otherwise its category is kept and the project dropped. Nothing but the
/// place changes.
pub proof fn sessions_come_to_their_place(known: CatalogView, row: SessionView)
    ensures
        ({
            let after = upkeep::placed(known, row);
            &&& after.id == row.id
            &&& after.started_at == row.started_at
            &&& after.ended_at == row.ended_at
            &&& after.summary == row.summary
            &&& after.confidence == row.confidence
            &&& after.evidence == row.evidence
            &&& after.user_confirmed == row.user_confirmed
            &&& after.source == row.source
            &&& row.task_id matches Some(task) ==> (crate::catalog::placement_of(
                known,
                task,
            ) matches Some((project, category)) ==> after.task_id == Some(task)
                && after.project_id == Some(project) && after.category == category)
            &&& row.task_id matches Some(task) ==> (forall|k: int|
                0 <= k < known.tasks.len() ==> (#[trigger] known.tasks[k]).id != task)
                ==> after.task_id is None
            &&& row.task_id is None ==> after.task_id is None && after.category == row.category
            &&& row.task_id is None && row.project_id is None ==> after.project_id is None
            &&& row.task_id is None && after.project_id is Some ==> after.project_id
                == row.project_id
            &&& row.task_id is None ==> (row.project_id matches Some(project) ==> (
            crate::catalog::project_with(known.projects, project) matches Some(found)
                && found.category == row.category <==> after.project_id == Some(project)))
        }),
{
    if let Some(task) = row.task_id {
        lookup::tasks_are_found_by_id(known.tasks, task);
    }
}

/// After a repair every session is there, in its place or as the timeline left it, except those that
/// took no time or whose time another one counts.
pub proof fn repairs_drop_only_what_goes(
    rows: Seq<SessionView>,
    known: CatalogView,
    cutoff: Moment,
)
    ensures
        ({
            let done = upkeep::kept_up(rows, known, cutoff);
            let left = upkeep::remaining(done);
            forall|k: int|
                0 <= k < rows.len() ==> {
                    let row = upkeep::placed(known, #[trigger] rows[k]);
                    if done.empty.contains(row.id) || done.timeline.removed.contains(row.id) {
                        true
                    } else {
                        left.contains(
                            match sessions::find(done.timeline.kept, row.id) {
                                Some(repaired) => repaired,
                                None => row,
                            },
                        )
                    }
                }
        }),
        upkeep::remaining(upkeep::kept_up(rows, known, cutoff)).len() <= rows.len(),
{
    let done = upkeep::kept_up(rows, known, cutoff);
    let keep = |row: SessionView| !upkeep::goes(done, row);
    let turn = |row: SessionView| upkeep::left_as(done, row);
    let staying = done.rows.filter(keep);
    let left = upkeep::remaining(done);
    lists::lemma_filtered(done.rows, keep);
    done.rows.lemma_filter_len(keep);
    assert forall|k: int| 0 <= k < rows.len() implies {
        let row = upkeep::placed(known, #[trigger] rows[k]);
        if done.empty.contains(row.id) || done.timeline.removed.contains(row.id) {
            true
        } else {
            left.contains(
                match sessions::find(done.timeline.kept, row.id) {
                    Some(repaired) => repaired,
                    None => row,
                },
            )
        }
    } by {
        let row = upkeep::placed(known, rows[k]);
        assert(done.rows[k] == row);
        assert(done.rows.contains(row));
        if !upkeep::goes(done, row) {
            assert(staying.contains(row));
            let m = choose|m: int| 0 <= m < staying.len() && staying[m] == row;
            assert(left[m] == turn(row));
        }
    }
}

/// Only sessions that took no time are named as such.
pub proof fn only_lengthless_sessions_are_dropped(
    rows: Seq<SessionView>,
    known: CatalogView,
    cutoff: Moment,
    id: Seq<char>,
)
    ensures
        upkeep::kept_up(rows, known, cutoff).empty.contains(id) <==> exists|k: int|
            0 <= k < rows.len() && (#[trigger] rows[k]).id == id && timeline::lengthless(rows[k]),
{
    let standing = upkeep::all_placed(known, rows);
    let keep = |row: SessionView| timeline::lengthless(row);
    let name = |row: SessionView| row.id;
    let chosen = standing.filter(keep);
    let empty = upkeep::kept_up(rows, known, cutoff).empty;
    lists::lemma_filtered(standing, keep);
    if empty.contains(id) {
        let k = choose|k: int| 0 <= k < empty.len() && empty[k] == id;
        assert(standing.contains(chosen[k]));
        let m = choose|m: int| 0 <= m < standing.len() && standing[m] == chosen[k];
        assert(rows[m].id == id && timeline::lengthless(rows[m]));
    }
    if exists|k: int|
        0 <= k < rows.len() && (#[trigger] rows[k]).id == id && timeline::lengthless(rows[k]) {
        let k = choose|k: int|
            0 <= k < rows.len() && (#[trigger] rows[k]).id == id && timeline::lengthless(rows[k]);
        assert(standing[k] == upkeep::placed(known, rows[k]));
        assert(standing.contains(standing[k]));
        assert(chosen.contains(standing[k]));
        let m = choose|m: int| 0 <= m < chosen.len() && chosen[m] == standing[k];
        assert(empty[m] == id);
    }
}

/// Tidying a ledger touches sessions and notes of deletions, and nothing else.
pub proof fn tidying_touches_only_sessions(
    records: LedgerView,
    known: CatalogView,
    cutoff: Moment,
    at: Seq<char>,
)
    ensures
        ({
            let after = journal::tidied(records, known, cutoff, at);
            &&& after.categories == records.categories
            &&& after.projects == records.projects
            &&& after.tasks == records.tasks
            &&& after.rules == records.rules
            &&& after.sleep_debt_started_on == records.sleep_debt_started_on
        }),
        ({
            let after = journal::with_moved_boundaries(records, 1, at);
            &&& after.categories == records.categories
            &&& after.projects == records.projects
            &&& after.tasks == records.tasks
            &&& after.rules == records.rules
            &&& after.tombstones == records.tombstones
        }),
{
}

} // verus!
