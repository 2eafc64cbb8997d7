//! Promises of tidying a table session by session.
use vstd::prelude::*;

use crate::lists;
use crate::models::SessionView;
use crate::sessions;
use crate::timeline;

verus! {

broadcast use vstd::seq_lib::group_seq_properties;

/// The table after the joins, each an anchor with what is joined to it, in turn.
pub open spec fn joined(
    table: Seq<SessionView>,
    joins: Seq<(SessionView, Seq<SessionView>)>,
) -> Seq<SessionView>
    decreases joins.len(),
{
    if joins.len() == 0 {
        table
    } else {
        timeline::table_after(
            joined(table, joins.drop_last()),
            joins.last().0,
            joins.last().1,
        )
    }
}

/// A session that can be swallowed is, as soon as it is looked at.
pub proof fn swallowed_sessions_go_at_once(
    table: Seq<SessionView>,
    id: Seq<char>,
    current: SessionView,
    anchor: SessionView,
    following: Seq<SessionView>,
)
    requires
        sessions::find(table, id) == Some(current),
        timeline::swallow_join(table, current) == Some((anchor, following)),
    ensures
        timeline::joined_at(table, id).len() >= 1,
        timeline::joined_at(table, id)[0] == (anchor, following),
        timeline::compacted_at(table, id).1 >= 1,
{
}

/// A session that can be joined to its neighbours is, as soon as it is looked at, and where neither is
/// possible nothing happens.
pub proof fn joinable_sessions_are_joined_at_once(
    table: Seq<SessionView>,
    id: Seq<char>,
    current: SessionView,
)
    requires
        sessions::find(table, id) == Some(current),
        timeline::swallow_join(table, current) is None,
    ensures
        timeline::neighbor_join(table, current) matches Some((anchor, following)) ==> {
            &&& timeline::compacted_at(table, id).0 == timeline::table_after(
                table,
                anchor,
                following,
            )
            &&& timeline::joined_at(table, id) =~= seq![(anchor, following)]
            &&& anchor.id != id ==> timeline::compacted_at(table, id).1 == 1
        },
        timeline::neighbor_join(table, current) is None ==> timeline::compacted_at(table, id) == (
            table,
            0nat,
        ) && timeline::joined_at(table, id).len() == 0,
{
}

/// A session that is not in the table changes nothing.
pub proof fn absent_sessions_join_nothing(table: Seq<SessionView>, id: Seq<char>)
    requires
        sessions::find(table, id) is None,
    ensures
        timeline::compacted_at(table, id) == (table, 0nat),
        timeline::joined_at(table, id).len() == 0,
{
}

/// Sessions are looked at one after the other, each in the table that those before it left.
pub proof fn sessions_are_looked_at_in_turn(
    table: Seq<SessionView>,
    ids: Seq<Seq<char>>,
    id: Seq<char>,
)
    ensures
        timeline::compacted(table, Seq::empty()) == (table, 0nat),
        timeline::compacted(table, ids.push(id)).0 == timeline::compacted_at(
            timeline::compacted(table, ids).0,
            id,
        ).0,
        timeline::compacted(table, ids.push(id)).1 == timeline::compacted(table, ids).1
            + timeline::compacted_at(timeline::compacted(table, ids).0, id).1,
{
    assert(ids.push(id).drop_last() =~= ids);
}

proof fn lemma_joined_further(
    table: Seq<SessionView>,
    first: Seq<(SessionView, Seq<SessionView>)>,
    then: Seq<(SessionView, Seq<SessionView>)>,
)
    ensures
        joined(table, first + then) == joined(joined(table, first), then),
    decreases then.len(),
{
    if then.len() == 0 {
        assert(first + then =~= first);
    } else {
        lemma_joined_further(table, first, then.drop_last());
        assert((first + then).drop_last() =~= first + then.drop_last());
        assert((first + then).last() == then.last());
    }
}

proof fn lemma_joined_at(table: Seq<SessionView>, id: Seq<char>)
    ensures
        joined(table, timeline::joined_at(table, id)) == timeline::compacted_at(table, id).0,
{
    let none = Seq::<(SessionView, Seq<SessionView>)>::empty();
    assert(joined(table, none) == table);
    if let Some(current) = sessions::find(table, id) {
        let (once, place, first) = match timeline::swallow_join(table, current) {
            Some((anchor, following)) => (
                timeline::table_after(table, anchor, following),
                anchor.id,
                seq![(anchor, following)],
            ),
            None => (table, id, none),
        };
        if let Some((anchor, following)) = timeline::swallow_join(table, current) {
            assert(first.drop_last() =~= none);
            assert(first.last() == (anchor, following));
        }
        assert(joined(table, first) == once);
        if let Some(standing) = sessions::find(once, place) {
            if let Some(join) = timeline::neighbor_join(once, standing) {
                assert(first.push(join).drop_last() =~= first);
            }
        }
    }
}

/// The joins that are reported are those that were made: carried out in turn, they give the table.
pub proof fn reported_joins_give_the_table(table: Seq<SessionView>, ids: Seq<Seq<char>>)
    ensures
        joined(table, timeline::all_joins(table, ids)) == timeline::compacted(table, ids).0,
    decreases ids.len(),
{
    if ids.len() > 0 {
        let rest = ids.drop_last();
        reported_joins_give_the_table(table, rest);
        let before = timeline::compacted(table, rest).0;
        lemma_joined_at(before, ids.last());
        lemma_joined_further(
            table,
            timeline::all_joins(table, rest),
            timeline::joined_at(before, ids.last()),
        );
    }
}

/// The boundary of time away moves where it interrupts a session that can be shortened: to the boundary
/// that belongs to it, and the session goes where that is its start.
pub proof fn boundaries_move_to_the_interrupted_session(
    table: Seq<SessionView>,
    idle_started_at: Seq<char>,
    threshold: int,
)
    ensures
        match timeline::boundary_move(table, idle_started_at, threshold) {
            Some((id, boundary, goes)) => {
                &&& timeline::interrupted_session(table, idle_started_at) matches Some(previous)
                &&& previous.id == id
                &&& timeline::idle_boundary(idle_started_at, previous, threshold) == Some(boundary)
                &&& goes <==> boundary == previous.started_at
            },
            None => timeline::interrupted_session(table, idle_started_at) is None
                || timeline::idle_boundary(
                idle_started_at,
                timeline::interrupted_session(table, idle_started_at).unwrap(),
                threshold,
            ) is None,
        },
{
}

/// Moving a boundary ends the interrupted session there, or drops it, and begins the time away there;
/// every other session stays.
pub proof fn moved_boundaries_meet(
    table: Seq<SessionView>,
    idle_id: Seq<char>,
    idle_started_at: Seq<char>,
    threshold: int,
    k: int,
)
    requires
        0 <= k < table.len(),
        timeline::boundary_move(table, idle_started_at, threshold) is Some,
    ensures
        ({
            let (id, boundary, goes) = timeline::boundary_move(
                table,
                idle_started_at,
                threshold,
            ).unwrap();
            let after = timeline::backfilled_at(table, idle_id, idle_started_at, threshold);
            &&& table[k].id == id && !goes ==> after.contains(
                SessionView { ended_at: boundary, ..table[k] },
            )
            &&& table[k].id != id && table[k].id == idle_id ==> after.contains(
                SessionView { started_at: boundary, ..table[k] },
            )
            &&& table[k].id != id && table[k].id != idle_id ==> after.contains(table[k])
            &&& goes ==> forall|m: int| 0 <= m < after.len() ==> (#[trigger] after[m]).id != id
        }),
{
    let change = timeline::boundary_move(table, idle_started_at, threshold).unwrap();
    let pick = |row: SessionView| timeline::row_after_move(row, idle_id, change);
    let after = table.filter_map(pick);
    assert(timeline::backfilled_at(table, idle_id, idle_started_at, threshold) == after);
    if pick(table[k]) is Some {
        lists::lemma_picked(table, pick, k);
    }
    if change.2 {
        assert forall|m: int| 0 <= m < after.len() implies (#[trigger] after[m]).id != change.0 by {
            assert(after.contains(after[m]));
            table.lemma_filter_map_contains(pick, after[m]);
            let row = choose|row: SessionView| #[trigger]
                table.contains(row) && pick(row) == Some(after[m]);
            assert(row.id != change.0);
        }
    }
}

/// Where no boundary moves, the table stays as it is; times away are looked at in turn.
pub proof fn boundaries_move_in_turn(
    table: Seq<SessionView>,
    idle: Seq<SessionView>,
    row: SessionView,
    threshold: int,
)
    ensures
        timeline::backfilled(table, Seq::empty(), threshold) == table,
        timeline::backfilled(table, idle.push(row), threshold) == timeline::backfilled_at(
            timeline::backfilled(table, idle, threshold),
            row.id,
            row.started_at,
            threshold,
        ),
        timeline::boundary_move(table, row.started_at, threshold) is None
            ==> timeline::backfilled_at(table, row.id, row.started_at, threshold) == table,
{
    assert(idle.push(row).drop_last() =~= idle);
}

} // verus!
