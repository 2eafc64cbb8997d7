//! Promises of splitting, merging and joining sessions.
use vstd::prelude::*;

use crate::clock;
use crate::laws::correcting;
use crate::laws::lookup;
use crate::models::{EvidenceView, SessionView};
use crate::sessions;
use crate::sessions::MergeErrorView;
use crate::text;
use crate::timeline;
use crate::timeline::SplitError;

verus! {

broadcast use vstd::seq_lib::group_seq_properties;

/// A split session is cut where the user asked: the first part ends and the second begins at the moment
/// that was chosen, written in whole seconds of UTC. Both parts keep the rest of the session, and are
/// confirmed.
pub proof fn sessions_are_split_where_asked(
    session: SessionView,
    split_at: Seq<char>,
    first_id: Seq<char>,
    second_id: Seq<char>,
    first: SessionView,
    second: SessionView,
)
    requires
        timeline::split_outcome(session, split_at, first_id, second_id) == Ok::<
            (SessionView, SessionView),
            SplitError,
        >((first, second)),
    ensures
        clock::moment_of(split_at) matches Some(cut) && first.ended_at == clock::rfc3339_text(
            cut.seconds,
            cut.nanos,
        ) && second.started_at == clock::rfc3339_text(cut.seconds, cut.nanos),
        clock::elapsed(
            clock::moment_of(session.started_at).unwrap(),
            clock::moment_of(split_at).unwrap(),
        ) >= 5_000_000_000,
        clock::elapsed(
            clock::moment_of(split_at).unwrap(),
            clock::moment_of(session.ended_at).unwrap(),
        ) >= 5_000_000_000,
        first.started_at == session.started_at,
        second.ended_at == session.ended_at,
        first.id == first_id,
        second.id == second_id,
        first.summary == session.summary + "（前半段）"@,
        second.summary == session.summary + "（后半段）"@,
        first.project_id == session.project_id && second.project_id == session.project_id,
        first.task_id == session.task_id && second.task_id == session.task_id,
        first.category == session.category && second.category == session.category,
        first.confidence == session.confidence && second.confidence == session.confidence,
        first.evidence == session.evidence && second.evidence == session.evidence,
        first.user_confirmed && second.user_confirmed,
        first.source == "manual-split"@ && second.source == "manual-split"@,
{
}

/// A session is split whenever its times and the chosen one can be read and both parts last at least
/// five seconds; otherwise the reason is told.
pub proof fn splits_are_refused_for_a_reason(
    session: SessionView,
    split_at: Seq<char>,
    first_id: Seq<char>,
    second_id: Seq<char>,
)
    ensures
        match timeline::split_outcome(session, split_at, first_id, second_id) {
            Ok(_) => true,
            Err(SplitError::InvalidStart) => clock::moment_of(session.started_at) is None,
            Err(SplitError::InvalidEnd) => clock::moment_of(session.ended_at) is None,
            Err(SplitError::InvalidSplit) => clock::moment_of(split_at) is None,
            Err(SplitError::TooShort) => clock::moment_of(session.started_at) matches Some(start)
                && clock::moment_of(session.ended_at) matches Some(end) && clock::moment_of(
                split_at,
            ) matches Some(cut) && (clock::elapsed(start, cut) < 5_000_000_000 || clock::elapsed(
                cut,
                end,
            ) < 5_000_000_000),
        },
{
}

/// What is joined to a session lengthens it to the later end, adds its evidence, and raises its
/// confidence where it has more; a summary gives way only where it is a passing one and the other is
/// not. Everything else stays as it was.
pub proof fn joined_sessions_gain(anchor: SessionView, other: SessionView)
    ensures
        ({
            let joined = sessions::absorbed(anchor, other);
            &&& joined.id == anchor.id
            &&& joined.started_at == anchor.started_at
            &&& joined.project_id == anchor.project_id
            &&& joined.task_id == anchor.task_id
            &&& joined.category == anchor.category
            &&& joined.user_confirmed == anchor.user_confirmed
            &&& joined.source == anchor.source
            &&& clock::later(other.ended_at, anchor.ended_at) ==> joined.ended_at == other.ended_at
            &&& !clock::later(other.ended_at, anchor.ended_at) ==> joined.ended_at
                == anchor.ended_at
            &&& joined.confidence >= anchor.confidence && joined.confidence >= other.confidence
            &&& joined.confidence == anchor.confidence || joined.confidence == other.confidence
            &&& joined.summary == if is_passing(anchor.summary) && !is_passing(other.summary) {
                other.summary
            } else {
                anchor.summary
            }
            &&& anchor.evidence.len() + other.evidence.len() <= 20 ==> forall|k: int|
                0 <= k < (anchor.evidence + other.evidence).len() ==> sessions::knows(
                    joined.evidence,
                    #[trigger] (anchor.evidence + other.evidence)[k],
                )
        }),
{
    let all = anchor.evidence + other.evidence;
    if all.len() <= 20 {
        lemma_all_known(all);
    }
}

/// The summary names a viewer, a screenshot or a page that is still loading.
pub open spec fn is_passing(summary: Seq<char>) -> bool {
    let v = text::lowercase(summary);
    ||| text::occurs(v, "图片查看器"@)
    ||| text::occurs(v, "snipaste"@)
    ||| text::occurs(v, "snipping tool"@)
    ||| text::occurs(v, "截图工具"@)
    ||| text::occurs(v, "无标题"@)
    ||| text::occurs(v, "新标签页"@)
    ||| text::occurs(v, "loading"@)
    ||| text::occurs(v, "加载中"@)
}

proof fn lemma_all_known(items: Seq<EvidenceView>)
    requires
        items.len() <= 20,
    ensures
        sessions::distinct_evidence(items).len() <= items.len(),
        forall|k: int|
            0 <= k < items.len() ==> sessions::knows(
                sessions::distinct_evidence(items),
                #[trigger] items[k],
            ),
    decreases items.len(),
{
    if items.len() > 0 {
        let rest = items.drop_last();
        let last = items.last();
        lemma_all_known(rest);
        let earlier = sessions::distinct_evidence(rest);
        let whole = sessions::distinct_evidence(items);
        assert forall|k: int| 0 <= k < items.len() implies sessions::knows(
            whole,
            #[trigger] items[k],
        ) by {
            if k < rest.len() {
                assert(rest[k] == items[k]);
                assert(sessions::knows(earlier, rest[k]));
                let m = choose|m: int|
                    0 <= m < earlier.len() && (#[trigger] earlier[m]).kind == rest[k].kind
                        && earlier[m].value == rest[k].value;
                assert(whole[m] == earlier[m]);
            } else {
                if !sessions::knows(earlier, last) {
                    assert(whole[earlier.len() as int] == last);
                }
            }
        }
    }
}

/// Once sessions are joined, the anchor stands with what it gained, what was joined to it is gone, and
/// every other session stays as it was.
pub proof fn joins_change_only_their_sessions(
    table: Seq<SessionView>,
    anchor: SessionView,
    following: Seq<SessionView>,
)
    ensures
        ({
            let after = timeline::table_after(table, anchor, following);
            &&& forall|row: SessionView| #[trigger]
                table.contains(row) && row.id != anchor.id && (forall|k: int|
                    0 <= k < following.len() ==> (#[trigger] following[k]).id != row.id)
                    ==> after.contains(row)
            &&& forall|row: SessionView| #[trigger]
                after.contains(row) ==> (table.contains(row) && row.id != anchor.id) || row
                    == sessions::absorbed_all(anchor, following)
            &&& forall|row: SessionView, k: int| #[trigger]
                after.contains(row) && 0 <= k < following.len() ==> row.id != (
                #[trigger] following[k]).id
            &&& (exists|k: int| 0 <= k < table.len() && (#[trigger] table[k]).id == anchor.id) && (
            forall|k: int| 0 <= k < following.len() ==> (#[trigger] following[k]).id != anchor.id)
                ==> after.contains(sessions::absorbed_all(anchor, following))
        }),
{
    let merged = sessions::absorbed_all(anchor, following);
    let rename = |row: SessionView| if row.id == anchor.id { merged } else { row };
    let gone = timeline::ids_of(following);
    let keep = |row: SessionView| !gone.contains(row.id);
    let mapped = table.map_values(rename);
    let after = timeline::table_after(table, anchor, following);
    crate::lists::lemma_filtered(mapped, keep);
    sessions::joining_keeps_the_anchor(anchor, following);
    assert(forall|id: Seq<char>| #[trigger]
        gone.contains(id) <==> exists|k: int|
            0 <= k < following.len() && (#[trigger] following[k]).id == id) by {
        assert forall|id: Seq<char>| #[trigger] gone.contains(id) <==> exists|k: int|
            0 <= k < following.len() && (#[trigger] following[k]).id == id by {
            if gone.contains(id) {
                let k = choose|k: int| 0 <= k < gone.len() && gone[k] == id;
                assert(following[k].id == id);
            }
            if exists|k: int| 0 <= k < following.len() && (#[trigger] following[k]).id == id {
                let k = choose|k: int|
                    0 <= k < following.len() && (#[trigger] following[k]).id == id;
                assert(gone[k] == id);
            }
        }
    }
    assert forall|row: SessionView| #[trigger]
        table.contains(row) && row.id != anchor.id && (forall|k: int|
            0 <= k < following.len() ==> (#[trigger] following[k]).id
                != row.id) implies after.contains(row) by {
        let k = choose|k: int| 0 <= k < table.len() && table[k] == row;
        assert(mapped[k] == row);
        assert(mapped.contains(row));
        assert(!gone.contains(row.id));
    }
    assert forall|row: SessionView| #[trigger] after.contains(row) implies (table.contains(row)
        && row.id != anchor.id) || row == merged by {
        assert(mapped.contains(row));
        let k = choose|k: int| 0 <= k < mapped.len() && mapped[k] == row;
        assert(table.contains(table[k]));
    }
    if (exists|k: int| 0 <= k < table.len() && (#[trigger] table[k]).id == anchor.id) && (forall|
        k: int,
    |
        0 <= k < following.len() ==> (#[trigger] following[k]).id != anchor.id) {
        let k = choose|k: int| 0 <= k < table.len() && (#[trigger] table[k]).id == anchor.id;
        assert(mapped[k] == merged);
        assert(mapped.contains(merged));
        assert(!gone.contains(merged.id));
    }
}

/// The session was chosen.
pub open spec fn is_chosen(
    table: Seq<SessionView>,
    ids: Seq<Seq<char>>,
    row: SessionView,
) -> bool {
    table.contains(row) && ids.contains(row.id) && sessions::find(table, row.id) == Some(row)
}

/// A merged session begins with the first of the chosen ones and ends no earlier than any of them, has
/// the assignment that they share and no less confidence than any; it is confirmed, and takes the
/// summary given. Nothing that was not chosen lies within it.
pub proof fn merged_sessions_hold_the_chosen(
    table: Seq<SessionView>,
    ids: Seq<Seq<char>>,
    summary: Option<Seq<char>>,
    new_id: Seq<char>,
    merged: SessionView,
)
    requires
        sessions::merge_outcome(table, ids, summary, new_id) == Ok::<SessionView, MergeErrorView>(
            merged,
        ),
    ensures
        merged.id == new_id,
        merged.user_confirmed,
        merged.source == "manual-merge"@,
        summary matches Some(given) ==> correcting::as_label(given).len() > 0 ==> merged.summary
            == correcting::as_label(given),
        exists|row: SessionView| #[trigger]
            is_chosen(table, ids, row) && row.started_at == merged.started_at,
        exists|row: SessionView| #[trigger]
            is_chosen(table, ids, row) && row.ended_at == merged.ended_at,
        forall|id: Seq<char>| #[trigger]
            ids.contains(id) ==> (sessions::find(table, id) matches Some(row) && {
                &&& row.project_id == merged.project_id
                &&& row.task_id == merged.task_id
                &&& row.category == merged.category
                &&& !text::precedes(row.started_at, merged.started_at)
                &&& row.confidence <= merged.confidence
            }),
        forall|k: int|
            0 <= k < table.len() && !ids.contains((#[trigger] table[k]).id)
                ==> !sessions::lies_within(table[k], merged.started_at, merged.ended_at),
        text::distinct(ids).len() >= 2,
{
    let wanted = text::distinct(ids);
    let picked = sessions::chosen(table, wanted);
    let sorted = sessions::by_start(picked);
    text::lemma_distinct(ids);
    sessions::lemma_no_missing(table, wanted);
    sessions::sorting_by_start_is_a_permutation(picked);
    if let Some(given) = summary {
        lemma_summary(given);
    }
    assert forall|k: int| 0 <= k < sorted.len() implies is_chosen(
        table,
        ids,
        #[trigger] sorted[k],
    ) by {
        lemma_same_content(sorted, picked, sorted[k]);
        let m = choose|m: int| 0 <= m < picked.len() && picked[m] == sorted[k];
        lookup::sessions_are_found_by_id(table, wanted[m]);
        assert(sessions::find(table, wanted[m]) is Some);
        assert(wanted.contains(wanted[m]));
    }
    assert(is_chosen(table, ids, sorted[0]));
    lemma_end(sorted[0].ended_at, sorted);
    let end = sessions::latest_end(sorted[0].ended_at, sorted);
    if end == sorted[0].ended_at {
        assert(is_chosen(table, ids, sorted[0]) && sorted[0].ended_at == merged.ended_at);
    } else {
        let k = choose|k: int| 0 <= k < sorted.len() && (#[trigger] sorted[k]).ended_at == end;
        assert(is_chosen(table, ids, sorted[k]) && sorted[k].ended_at == merged.ended_at);
    }
    assert forall|id: Seq<char>| #[trigger] ids.contains(id) implies (sessions::find(
        table,
        id,
    ) matches Some(row) && {
        &&& row.project_id == merged.project_id
        &&& row.task_id == merged.task_id
        &&& row.category == merged.category
        &&& !text::precedes(row.started_at, merged.started_at)
        &&& row.confidence <= merged.confidence
    }) by {
        assert(wanted.contains(id));
        let m = choose|m: int| 0 <= m < wanted.len() && wanted[m] == id;
        assert(sessions::find(table, wanted[m]) is Some);
        let row = picked[m];
        lemma_same_content(picked, sorted, row);
        let k = choose|k: int| 0 <= k < sorted.len() && sorted[k] == row;
        assert(sessions::same_assignment(sorted[k], sorted[0]));
        lemma_confidence(sorted, k);
        if k == 0 {
            text::lemma_precedes_total(sorted[0].started_at, sorted[0].started_at);
        }
    }
    assert forall|k: int|
        0 <= k < table.len() && !ids.contains(
            (#[trigger] table[k]).id,
        ) implies !sessions::lies_within(table[k], merged.started_at, merged.ended_at) by {
        assert(!wanted.contains(table[k].id));
    }
}

proof fn lemma_same_content(left: Seq<SessionView>, right: Seq<SessionView>, item: SessionView)
    requires
        left.to_multiset() == right.to_multiset(),
        left.contains(item),
    ensures
        right.contains(item),
{
    broadcast use vstd::seq_lib::group_to_multiset_ensures;

    assert(left.to_multiset().contains(item));
    assert(right.to_multiset().contains(item));
}

proof fn lemma_summary(given: Seq<char>)
    ensures
        correcting::as_label(given).len() > 0 ==> crate::settings::setting_label(
            given,
            "连续工作会话"@,
        ) == correcting::as_label(given),
{
    assert(text::one_line(text::trimmed(given)) =~= text::trimmed(given).map_values(
        |c: char| if c == '\r' || c == '\n' || c == '\t' { ' ' } else { c },
    ));
}

proof fn lemma_end(first: Seq<char>, rows: Seq<SessionView>)
    ensures
        sessions::latest_end(first, rows) == first || exists|k: int|
            0 <= k < rows.len() && (#[trigger] rows[k]).ended_at == sessions::latest_end(
                first,
                rows,
            ),
    decreases rows.len(),
{
    if rows.len() > 0 {
        let rest = rows.drop_last();
        lemma_end(first, rest);
        let before = sessions::latest_end(first, rest);
        let end = sessions::latest_end(first, rows);
        if end == rows.last().ended_at {
            assert(rows[rows.len() - 1].ended_at == end);
        } else if before != first {
            let k = choose|k: int| 0 <= k < rest.len() && (#[trigger] rest[k]).ended_at == before;
            assert(rows[k].ended_at == end);
        }
    }
}

proof fn lemma_confidence(rows: Seq<SessionView>, k: int)
    requires
        0 <= k < rows.len(),
    ensures
        rows[k].confidence <= sessions::joint_confidence(rows),
    decreases rows.len(),
{
    if k < rows.len() - 1 {
        lemma_confidence(rows.drop_last(), k);
    }
}

/// The end of a merged session is the latest of all ends, where they can be read.
pub proof fn merged_sessions_end_last(rows: Seq<SessionView>, first: Seq<char>, k: int)
    requires
        0 <= k < rows.len(),
        clock::moment_of(first) is Some,
        forall|m: int|
            0 <= m < rows.len() ==> clock::moment_of((#[trigger] rows[m]).ended_at) is Some,
    ensures
        clock::moment_of(sessions::latest_end(first, rows)) matches Some(end) && {
            &&& !clock::before(end, clock::moment_of(rows[k].ended_at).unwrap())
            &&& !clock::before(end, clock::moment_of(first).unwrap())
        },
    decreases rows.len(),
{
    let rest = rows.drop_last();
    assert(forall|m: int| 0 <= m < rest.len() ==> rest[m] == rows[m]);
    assert(clock::moment_of(rows[rows.len() - 1].ended_at) is Some);
    if rest.len() > 0 {
        merged_sessions_end_last(
            rest,
            first,
            if k < rest.len() {
                k
            } else {
                0
            },
        );
    }
}

/// Sessions are merged whenever two to five hundred known ones are chosen that share their assignment,
/// follow each other within five seconds, and leave nothing out between them; otherwise the reason is
/// told.
pub proof fn merges_are_refused_for_a_reason(
    table: Seq<SessionView>,
    ids: Seq<Seq<char>>,
    summary: Option<Seq<char>>,
    new_id: Seq<char>,
)
    ensures
        ({
            let wanted = text::distinct(ids);
            let sorted = sessions::by_start(sessions::chosen(table, wanted));
            match sessions::merge_outcome(table, ids, summary, new_id) {
                Ok(_) => true,
                Err(MergeErrorView::TooFew) => wanted.len() < 2,
                Err(MergeErrorView::TooMany) => wanted.len() > 500,
                Err(MergeErrorView::Missing(id)) => ids.contains(id) && forall|k: int|
                    0 <= k < table.len() ==> (#[trigger] table[k]).id != id,
                Err(MergeErrorView::MixedAssignment) => exists|k: int|
                    0 <= k < sorted.len() && ((#[trigger] sorted[k]).project_id
                        != sorted[0].project_id || sorted[k].task_id != sorted[0].task_id
                        || sorted[k].category != sorted[0].category),
                Err(MergeErrorView::Gap) => exists|k: int|
                    1 <= k < sorted.len() && !clock::touches_within(
                        sorted[k - 1].ended_at,
                        (#[trigger] sorted[k]).started_at,
                        5,
                    ),
                Err(MergeErrorView::Unselected) => exists|k: int|
                    0 <= k < table.len() && !ids.contains((#[trigger] table[k]).id),
            }
        }),
{
    let wanted = text::distinct(ids);
    let sorted = sessions::by_start(sessions::chosen(table, wanted));
    text::lemma_distinct(ids);
    match sessions::merge_outcome(table, ids, summary, new_id) {
        Err(MergeErrorView::Missing(id)) => {
            lemma_missing(table, wanted);
            lookup::sessions_are_found_by_id(table, id);
            assert(wanted.contains(id));
        },
        Err(MergeErrorView::MixedAssignment) => {
            let k = choose|k: int|
                0 <= k < sorted.len() && !sessions::same_assignment(
                    #[trigger] sorted[k],
                    sorted[0],
                );
            assert(sorted[k].project_id != sorted[0].project_id || sorted[k].task_id
                != sorted[0].task_id || sorted[k].category != sorted[0].category);
        },
        Err(MergeErrorView::Gap) => {
            let k = choose|k: int|
                1 <= k < sorted.len() && !(#[trigger] sessions::connected_at(sorted, k));
            assert(!clock::touches_within(sorted[k - 1].ended_at, sorted[k].started_at, 5));
        },
        Err(MergeErrorView::Unselected) => {
            let merged = sessions::merged_session(sorted, summary, new_id);
            let k = choose|k: int|
                0 <= k < table.len() && sessions::lies_within(
                    #[trigger] table[k],
                    merged.started_at,
                    merged.ended_at,
                ) && !wanted.contains(table[k].id);
            assert(!ids.contains(table[k].id));
        },
        _ => {},
    }
}

proof fn lemma_missing(table: Seq<SessionView>, ids: Seq<Seq<char>>)
    ensures
        sessions::first_missing(table, ids) matches Some(id) ==> ids.contains(id) && sessions::find(
            table,
            id,
        ) is None,
    decreases ids.len(),
{
    if ids.len() > 0 {
        let rest = ids.drop_last();
        lemma_missing(table, rest);
        if let Some(id) = sessions::first_missing(table, ids) {
            if sessions::first_missing(table, rest) is Some {
                let k = choose|k: int| 0 <= k < rest.len() && rest[k] == id;
                assert(ids[k] == id);
            } else {
                assert(ids[ids.len() - 1] == id);
            }
        }
    }
}

} // verus!
