//! How changes of sessions are written into the ledger: which rows carry a new time, and which
//! deletions are noted.
use vstd::prelude::*;
use vstd::string::*;

use crate::catalog::{Catalog, CatalogView};
use crate::clock::Moment;
use crate::hierarchy;
use crate::ledger::{Ledger, LedgerView};
use crate::models::{SessionView, WorkSession};
use crate::sessions;
use crate::sessions::{MergeError, MergeErrorView};
use crate::sync;
use crate::sync::{Record, SyncSession, SyncSessionView, SyncTombstone, TombstoneView};
use crate::text;
use crate::timeline;
use crate::timeline::{BoundaryMove, Join, RepairedTimeline, SplitError};
use crate::upkeep;

verus! {

broadcast use vstd::seq_lib::group_seq_properties;

/// The sessions without the time at which they were written.
pub open spec fn bare(rows: Seq<SyncSessionView>) -> Seq<SessionView> {
    rows.map_values(|row: SyncSessionView| row.session)
}

fn copy_bare(rows: &Vec<SyncSession>) -> (result: Vec<WorkSession>)
    ensures
        sessions::session_views(result@) == bare(sync::record_views(rows@)),
{
    let ghost all = bare(sync::record_views(rows@));
    let mut result: Vec<WorkSession> = Vec::new();
    let mut i: usize = 0;
    assert(sessions::session_views(result@) =~= all.take(0));
    while i < rows.len()
        invariant
            i <= rows.len(),
            all == bare(sync::record_views(rows@)),
            sessions::session_views(result@) == all.take(i as int),
        decreases rows.len() - i,
    {
        let ghost before = sessions::session_views(result@);
        let row = rows[i].session.copy();
        let ghost view = row@;
        assert(all[i as int] == view);
        assert(all.take(i + 1) =~= all.take(i as int).push(view));
        result.push(row);
        assert(sessions::session_views(result@) =~= before.push(view));
        i += 1;
    }
    assert(all.take(rows.len() as int) =~= all);
    result
}

/// The tombstones with the deletion of these sessions noted.
pub open spec fn noted_sessions(
    list: Seq<TombstoneView>,
    ids: Seq<Seq<char>>,
    at: Seq<char>,
) -> Seq<TombstoneView>
    decreases ids.len(),
{
    if ids.len() == 0 {
        list
    } else {
        hierarchy::noted(noted_sessions(list, ids.drop_last(), at), "session"@, ids.last(), at)
    }
}

fn note_sessions(list: Vec<SyncTombstone>, ids: &Vec<String>, at: &str) -> (result: Vec<
    SyncTombstone,
>)
    ensures
        sync::record_views(result@) == noted_sessions(
            sync::record_views(list@),
            text::texts(ids@),
            at@,
        ),
{
    let ghost first = sync::record_views(list@);
    let ghost all = text::texts(ids@);
    let mut result = list;
    let mut i: usize = 0;
    assert(all.take(0) =~= Seq::empty());
    while i < ids.len()
        invariant
            i <= ids.len(),
            all == text::texts(ids@),
            sync::record_views(result@) == noted_sessions(first, all.take(i as int), at@),
        decreases ids.len() - i,
    {
        assert(all.take(i + 1).drop_last() =~= all.take(i as int));
        assert(all.take(i + 1).last() == ids@[i as int]@);
        hierarchy::record_tombstone(&mut result, "session", ids[i].as_str(), at);
        i += 1;
    }
    assert(all.take(ids.len() as int) =~= all);
    result
}

/// When the session was written last, or `at` where it is new.
pub open spec fn written_at(
    before: Seq<SyncSessionView>,
    id: Seq<char>,
    at: Seq<char>,
) -> Seq<char> {
    let spot = sync::spot::<SyncSession>(before, id) as int;
    if spot < before.len() {
        before[spot].updated_at
    } else {
        at
    }
}

/// A session as it is written: one that was touched carries the time `at`, every other one the time
/// that it had.
pub open spec fn stamp(
    before: Seq<SyncSessionView>,
    row: SessionView,
    touched: Seq<Seq<char>>,
    at: Seq<char>,
) -> SyncSessionView {
    SyncSessionView {
        session: row,
        updated_at: if touched.contains(row.id) {
            at
        } else {
            written_at(before, row.id, at)
        },
    }
}

/// The table as it is written.
pub open spec fn stamped(
    before: Seq<SyncSessionView>,
    table: Seq<SessionView>,
    touched: Seq<Seq<char>>,
    at: Seq<char>,
) -> Seq<SyncSessionView> {
    table.map_values(|row: SessionView| stamp(before, row, touched, at))
}

fn stamp_all(
    before: &Vec<SyncSession>,
    table: &Vec<WorkSession>,
    touched: &Vec<String>,
    at: &str,
) -> (result: Vec<SyncSession>)
    ensures
        sync::record_views(result@) == stamped(
            sync::record_views(before@),
            sessions::session_views(table@),
            text::texts(touched@),
            at@,
        ),
{
    let ghost first = sync::record_views(before@);
    let ghost marks = text::texts(touched@);
    let ghost views = sessions::session_views(table@);
    let ghost change = |row: SessionView| stamp(first, row, marks, at@);
    let mut result: Vec<SyncSession> = Vec::new();
    let mut i: usize = 0;
    assert(sync::record_views(result@) =~= views.take(0).map_values(change));
    while i < table.len()
        invariant
            i <= table.len(),
            first == sync::record_views(before@),
            marks == text::texts(touched@),
            views == sessions::session_views(table@),
            change == (|row: SessionView| stamp(first, row, marks, at@)),
            sync::record_views(result@) == views.take(i as int).map_values(change),
        decreases table.len() - i,
    {
        let ghost done = sync::record_views(result@);
        let row = &table[i];
        let updated_at = if text::listed(touched, row.id.as_str()) {
            at.to_owned()
        } else {
            let spot: usize = sync::find_record(before, row.id.as_str());
            if spot < before.len() {
                before[spot].updated_at.clone()
            } else {
                at.to_owned()
            }
        };
        let made = SyncSession { session: row.copy(), updated_at };
        let ghost view = made@;
        assert(view == change(row@));
        result.push(made);
        assert(sync::record_views(result@) =~= done.push(view));
        assert(views.take(i + 1) =~= views.take(i as int).push(row@));
        assert(views.take(i + 1).map_values(change) =~= views.take(i as int).map_values(
            change,
        ).push(view));
        i += 1;
    }
    assert(views.take(table.len() as int) =~= views);
    assert(views.map_values(change) =~= stamped(first, views, marks, at@));
    result
}

/// Only touched sessions carry a new time: every other one that was there keeps the time that it
/// had, so that it does not win over another device.
pub proof fn untouched_sessions_keep_their_time(
    before: Seq<SyncSessionView>,
    table: Seq<SessionView>,
    touched: Seq<Seq<char>>,
    at: Seq<char>,
    k: int,
    old: int,
)
    requires
        0 <= k < table.len(),
        0 <= old < before.len(),
        before[old].session.id == table[k].id,
        sync::keys_differ::<SyncSession>(before),
    ensures
        stamped(before, table, touched, at)[k].session == table[k],
        !touched.contains(table[k].id) ==> stamped(before, table, touched, at)[k].updated_at
            == before[old].updated_at,
        touched.contains(table[k].id) ==> stamped(before, table, touched, at)[k].updated_at == at,
{
    let id = table[k].id;
    let spot = sync::spot::<SyncSession>(before, id) as int;
    sync::lemma_spot::<SyncSession>(before, id);
    assert(SyncSession::key_of(before[old]) == id);
    assert(spot <= old);
    if spot < old {
        assert(SyncSession::key_of(before[spot]) != SyncSession::key_of(before[old]));
    }
}

/// The rows of other sessions than these.
pub open spec fn rows_beside(rows: Seq<SyncSessionView>, ids: Seq<Seq<char>>) -> Seq<
    SyncSessionView,
> {
    rows.filter(|row: SyncSessionView| !ids.contains(row.session.id))
}

fn drop_rows(rows: Vec<SyncSession>, ids: &Vec<String>) -> (result: Vec<SyncSession>)
    ensures
        sync::record_views(result@) == rows_beside(sync::record_views(rows@), text::texts(ids@)),
{
    let ghost views = sync::record_views(rows@);
    let ghost gone = text::texts(ids@);
    let ghost keep = |row: SyncSessionView| !gone.contains(row.session.id);
    let mut result: Vec<SyncSession> = Vec::new();
    assert(views.take(0).filter(keep) =~= Seq::empty()) by {
        reveal(Seq::filter);
    }
    assert(sync::record_views(result@) =~= views.take(0).filter(keep));
    for row in it: rows
        invariant
            views == sync::record_views(it.seq()),
            gone == text::texts(ids@),
            keep == (|row: SyncSessionView| !gone.contains(row.session.id)),
            sync::record_views(result@) == views.take(it.index()).filter(keep),
    {
        let ghost i = it.index();
        let ghost view = row@;
        let ghost before = sync::record_views(result@);
        assert(views[i] == view);
        assert(views.take(i + 1) =~= views.take(i).push(view));
        proof {
            views.take(i).lemma_filter_push(view, keep);
        }
        if !text::listed(ids, row.session.id.as_str()) {
            result.push(row);
            assert(sync::record_views(result@) =~= before.push(view));
        }
    }
    assert(views.take(views.len() as int) =~= views);
    result
}

fn push_row(rows: &mut Vec<SyncSession>, session: WorkSession, at: &str)
    ensures
        sync::record_views(final(rows)@) == sync::record_views(old(rows)@).push(
            SyncSessionView { session: session@, updated_at: at@ },
        ),
{
    let ghost before = sync::record_views(rows@);
    let row = SyncSession { session, updated_at: at.to_owned() };
    let ghost view = row@;
    rows.push(row);
    assert(sync::record_views(rows@) =~= before.push(view));
}

/// The ledger once sessions were merged: the merged session is written at `at`, and those that
/// went into it are deleted and noted.
pub open spec fn with_merge(
    ledger: LedgerView,
    ids: Seq<Seq<char>>,
    merged: SessionView,
    at: Seq<char>,
) -> LedgerView {
    LedgerView {
        sessions: rows_beside(ledger.sessions, ids).push(
            SyncSessionView { session: merged, updated_at: at },
        ),
        tombstones: noted_sessions(ledger.tombstones, text::distinct(ids), at),
        ..ledger
    }
}

/// Merges sessions of the ledger.
pub fn record_merge(
    ledger: Ledger,
    ids: &Vec<String>,
    summary: &Option<String>,
    new_id: &str,
    at: &str,
) -> (result: Result<(Ledger, WorkSession), MergeError>)
    ensures
        match result {
            Ok((after, merged)) => {
                &&& sessions::merge_outcome(
                    bare(ledger@.sessions),
                    text::texts(ids@),
                    text::optional(*summary),
                    new_id@,
                ) == Ok::<SessionView, MergeErrorView>(merged@)
                &&& after@ == with_merge(ledger@, text::texts(ids@), merged@, at@)
            },
            Err(error) => sessions::merge_outcome(
                bare(ledger@.sessions),
                text::texts(ids@),
                text::optional(*summary),
                new_id@,
            ) == Err::<SessionView, MergeErrorView>(error@),
        },
{
    let table = copy_bare(&ledger.sessions);
    let merged = match sessions::merge_sessions(&table, ids, summary, new_id) {
        Ok(merged) => merged,
        Err(error) => {
            return Err(error);
        },
    };
    let wanted = text::unique(ids);
    let mut rows = drop_rows(ledger.sessions, ids);
    push_row(&mut rows, merged.copy(), at);
    let tombstones = note_sessions(ledger.tombstones, &wanted, at);
    Ok(
        (
            Ledger {
                categories: ledger.categories,
                projects: ledger.projects,
                tasks: ledger.tasks,
                sessions: rows,
                rules: ledger.rules,
                tombstones,
                sleep_debt_started_on: ledger.sleep_debt_started_on,
            },
            merged,
        ),
    )
}

/// Why a session of the ledger cannot be split.
#[derive(Clone, Copy, Debug, PartialEq, Eq, Structural)]
pub enum SplitRefusal {
    Missing,
    Refused(SplitError),
}

/// What splitting a session of the ledger comes to: both parts are written at `at`, and the session
/// is deleted and noted.
pub open spec fn split_recorded(
    ledger: LedgerView,
    id: Seq<char>,
    split_at: Seq<char>,
    first_id: Seq<char>,
    second_id: Seq<char>,
    at: Seq<char>,
) -> Result<(LedgerView, SessionView, SessionView), SplitRefusal> {
    match sessions::find(bare(ledger.sessions), id) {
        None => Err(SplitRefusal::Missing),
        Some(session) => match timeline::split_outcome(session, split_at, first_id, second_id) {
            Err(error) => Err(SplitRefusal::Refused(error)),
            Ok((first, second)) => Ok(
                (
                    LedgerView {
                        sessions: rows_beside(ledger.sessions, seq![id]).push(
                            SyncSessionView { session: first, updated_at: at },
                        ).push(SyncSessionView { session: second, updated_at: at }),
                        tombstones: noted_sessions(ledger.tombstones, seq![id], at),
                        ..ledger
                    },
                    first,
                    second,
                ),
            ),
        },
    }
}

/// Splits a session of the ledger.
pub fn record_split(
    ledger: Ledger,
    id: &str,
    split_at: &str,
    first_id: &str,
    second_id: &str,
    at: &str,
) -> (result: Result<(Ledger, WorkSession, WorkSession), SplitRefusal>)
    ensures
        match result {
            Ok((after, first, second)) => split_recorded(
                ledger@,
                id@,
                split_at@,
                first_id@,
                second_id@,
                at@,
            ) == Ok::<(LedgerView, SessionView, SessionView), SplitRefusal>(
                (after@, first@, second@),
            ),
            Err(error) => split_recorded(
                ledger@,
                id@,
                split_at@,
                first_id@,
                second_id@,
                at@,
            ) == Err::<(LedgerView, SessionView, SessionView), SplitRefusal>(error),
        },
{
    let table = copy_bare(&ledger.sessions);
    let place = match sessions::find_session(&table, id) {
        Some(place) => place,
        None => {
            return Err(SplitRefusal::Missing);
        },
    };
    let (first, second) = match timeline::split_session(
        &table[place],
        split_at,
        first_id,
        second_id,
    ) {
        Ok(parts) => parts,
        Err(error) => {
            return Err(SplitRefusal::Refused(error));
        },
    };
    let mut gone: Vec<String> = Vec::new();
    gone.push(id.to_owned());
    assert(text::texts(gone@) =~= seq![id@]);
    let mut rows = drop_rows(ledger.sessions, &gone);
    push_row(&mut rows, first.copy(), at);
    push_row(&mut rows, second.copy(), at);
    let tombstones = note_sessions(ledger.tombstones, &gone, at);
    Ok(
        (
            Ledger {
                categories: ledger.categories,
                projects: ledger.projects,
                tasks: ledger.tasks,
                sessions: rows,
                rules: ledger.rules,
                tombstones,
                sleep_debt_started_on: ledger.sleep_debt_started_on,
            },
            first,
            second,
        ),
    )
}

/// The sessions that a repair brings to another place of the hierarchy.
pub open spec fn corrected_ids(catalog: CatalogView, rows: Seq<SessionView>) -> Seq<Seq<char>> {
    rows.filter(|row: SessionView| upkeep::corrections(catalog, row) > 0).map_values(
        |row: SessionView| row.id,
    )
}

/// The sessions that were cut or extended.
pub open spec fn marked_ids(kept: Seq<SessionView>, touched: Seq<bool>) -> Seq<Seq<char>>
    decreases kept.len(),
{
    if kept.len() == 0 || touched.len() != kept.len() {
        Seq::empty()
    } else {
        let before = marked_ids(kept.drop_last(), touched.drop_last());
        if touched.last() {
            before.push(kept.last().id)
        } else {
            before
        }
    }
}

/// The sessions to which others were joined.
pub open spec fn anchor_ids(joins: Seq<(SessionView, Seq<SessionView>)>) -> Seq<Seq<char>> {
    joins.map_values(|join: (SessionView, Seq<SessionView>)| join.0.id)
}

/// The sessions that were joined to others.
pub open spec fn absorbed_ids(joins: Seq<(SessionView, Seq<SessionView>)>) -> Seq<Seq<char>>
    decreases joins.len(),
{
    if joins.len() == 0 {
        Seq::empty()
    } else {
        absorbed_ids(joins.drop_last()) + timeline::ids_of(joins.last().1)
    }
}

/// The ledger with its timeline repaired and compacted. A session carries the time `at` where it was
/// brought to its place, cut, extended or joined to; what went is noted.
pub open spec fn tidied(
    ledger: LedgerView,
    catalog: CatalogView,
    cutoff: Moment,
    at: Seq<char>,
) -> LedgerView {
    let rows = bare(ledger.sessions);
    let done = upkeep::kept_up(rows, catalog, cutoff);
    let table = upkeep::remaining(done);
    let ids = upkeep::recent_ids(table, cutoff);
    let joins = timeline::all_joins(table, ids);
    LedgerView {
        sessions: stamped(
            ledger.sessions,
            timeline::compacted(table, ids).0,
            corrected_ids(catalog, rows) + marked_ids(done.timeline.kept, done.timeline.touched)
                + anchor_ids(joins),
            at,
        ),
        tombstones: noted_sessions(
            ledger.tombstones,
            done.empty + done.timeline.removed + absorbed_ids(joins),
            at,
        ),
        ..ledger
    }
}

fn list_corrected(catalog: &Catalog, rows: &Vec<WorkSession>) -> (result: Vec<String>)
    ensures
        text::texts(result@) == corrected_ids(catalog@, sessions::session_views(rows@)),
{
    let ghost views = sessions::session_views(rows@);
    let ghost keep = |row: SessionView| upkeep::corrections(catalog@, row) > 0;
    let ghost name = |row: SessionView| row.id;
    let mut result: Vec<String> = Vec::new();
    let mut i: usize = 0;
    assert(views.take(0).filter(keep) =~= Seq::empty()) by {
        reveal(Seq::filter);
    }
    assert(text::texts(result@) =~= views.take(0).filter(keep).map_values(name));
    while i < rows.len()
        invariant
            i <= rows.len(),
            views == sessions::session_views(rows@),
            keep == (|row: SessionView| upkeep::corrections(catalog@, row) > 0),
            name == (|row: SessionView| row.id),
            text::texts(result@) == views.take(i as int).filter(keep).map_values(name),
        decreases rows.len() - i,
    {
        let ghost done = views.take(i as int).filter(keep);
        let ghost before = text::texts(result@);
        let ghost view = rows@[i as int]@;
        assert(views.take(i + 1) =~= views.take(i as int).push(view));
        proof {
            views.take(i as int).lemma_filter_push(view, keep);
        }
        if upkeep::count_corrections(catalog, &rows[i]) > 0 {
            result.push(rows[i].id.clone());
            assert(text::texts(result@) =~= before.push(view.id));
            assert(done.push(view).map_values(name) =~= before.push(view.id));
        }
        i += 1;
    }
    assert(views.take(rows.len() as int) =~= views);
    result
}

fn list_marked(timeline: &RepairedTimeline, list: &mut Vec<String>)
    requires
        timeline.kept@.len() == timeline.touched@.len(),
    ensures
        text::texts(final(list)@) == text::texts(old(list)@) + marked_ids(
            timeline@.kept,
            timeline@.touched,
        ),
{
    let ghost first = text::texts(list@);
    let ghost kept = timeline@.kept;
    let ghost touched = timeline@.touched;
    let mut i: usize = 0;
    assert(first + marked_ids(kept.take(0), touched.take(0)) =~= first);
    while i < timeline.kept.len()
        invariant
            i <= timeline.kept.len(),
            timeline.kept@.len() == timeline.touched@.len(),
            kept == timeline@.kept,
            touched == timeline@.touched,
            text::texts(list@) == first + marked_ids(kept.take(i as int), touched.take(i as int)),
        decreases timeline.kept.len() - i,
    {
        let ghost before = text::texts(list@);
        assert(kept.take(i + 1).drop_last() =~= kept.take(i as int));
        assert(touched.take(i + 1).drop_last() =~= touched.take(i as int));
        assert(kept.take(i + 1).last() == timeline.kept@[i as int]@);
        if timeline.touched[i] {
            list.push(timeline.kept[i].id.clone());
            assert(text::texts(list@) =~= before.push(kept[i as int].id));
            assert(first + marked_ids(kept.take(i as int), touched.take(i as int)).push(
                kept[i as int].id,
            ) =~= before.push(kept[i as int].id));
        }
        i += 1;
    }
    assert(kept.take(kept.len() as int) =~= kept);
    assert(touched.take(touched.len() as int) =~= touched);
}

fn append_texts(list: &mut Vec<String>, more: &Vec<String>)
    ensures
        text::texts(final(list)@) == text::texts(old(list)@) + text::texts(more@),
{
    let ghost first = text::texts(list@);
    let ghost all = text::texts(more@);
    let mut i: usize = 0;
    assert(first + all.take(0) =~= first);
    while i < more.len()
        invariant
            i <= more.len(),
            all == text::texts(more@),
            text::texts(list@) == first + all.take(i as int),
        decreases more.len() - i,
    {
        let ghost before = text::texts(list@);
        list.push(more[i].clone());
        assert(text::texts(list@) =~= before.push(all[i as int]));
        assert(first + all.take(i + 1) =~= before.push(all[i as int]));
        i += 1;
    }
    assert(all.take(more.len() as int) =~= all);
}

fn list_anchors(joins: &Vec<Join>, list: &mut Vec<String>)
    ensures
        text::texts(final(list)@) == text::texts(old(list)@) + anchor_ids(
            timeline::join_views(joins@),
        ),
{
    let ghost first = text::texts(list@);
    let ghost all = anchor_ids(timeline::join_views(joins@));
    let mut i: usize = 0;
    assert(first + all.take(0) =~= first);
    while i < joins.len()
        invariant
            i <= joins.len(),
            all == anchor_ids(timeline::join_views(joins@)),
            text::texts(list@) == first + all.take(i as int),
        decreases joins.len() - i,
    {
        let ghost before = text::texts(list@);
        list.push(joins[i].anchor.id.clone());
        assert(all[i as int] == joins@[i as int].anchor.id@);
        assert(text::texts(list@) =~= before.push(all[i as int]));
        assert(first + all.take(i + 1) =~= before.push(all[i as int]));
        i += 1;
    }
    assert(all.take(joins.len() as int) =~= all);
}

fn list_absorbed(joins: &Vec<Join>, list: &mut Vec<String>)
    ensures
        text::texts(final(list)@) == text::texts(old(list)@) + absorbed_ids(
            timeline::join_views(joins@),
        ),
{
    let ghost first = text::texts(list@);
    let ghost views = timeline::join_views(joins@);
    let mut i: usize = 0;
    assert(views.take(0) =~= Seq::empty());
    assert(first + absorbed_ids(views.take(0)) =~= first);
    while i < joins.len()
        invariant
            i <= joins.len(),
            views == timeline::join_views(joins@),
            text::texts(list@) == first + absorbed_ids(views.take(i as int)),
        decreases joins.len() - i,
    {
        let ghost upto = views.take(i + 1);
        let ghost following = sessions::session_views(joins@[i as int].following@);
        assert(upto.drop_last() =~= views.take(i as int));
        assert(upto.last().1 == following);
        let more = timeline::collect_ids(&joins[i].following);
        append_texts(list, &more);
        assert(first + absorbed_ids(views.take(i as int)) + timeline::ids_of(following)
            =~= first + absorbed_ids(upto));
        i += 1;
    }
    assert(views.take(joins.len() as int) =~= views);
}

/// A ledger with its timeline repaired and compacted.
#[derive(Debug, PartialEq, Eq)]
pub struct TidyLedger {
    pub ledger: Ledger,
    /// The joins of the compaction, in their order.
    pub joins: Vec<Join>,
    /// How much the repair changed.
    pub repaired: u128,
    /// How many sessions went into others.
    pub compacted: u128,
}

/// Repairs and compacts the timeline of the ledger. The sessions come in the order of their start.
pub fn tidy_ledger(ledger: Ledger, catalog: &Catalog, cutoff: Moment, at: &str) -> (result:
    TidyLedger)
    ensures
        result.ledger@ == tidied(ledger@, catalog@, cutoff, at@),
        ({
            let done = upkeep::kept_up(bare(ledger@.sessions), catalog@, cutoff);
            let table = upkeep::remaining(done);
            let ids = upkeep::recent_ids(table, cutoff);
            &&& timeline::join_views(result.joins@) == timeline::all_joins(table, ids)
            &&& result.repaired as nat == done.changes
            &&& result.compacted as nat == timeline::compacted(table, ids).1
        }),
{
    let rows = copy_bare(&ledger.sessions);
    let ghost bare_rows = bare(ledger@.sessions);
    let mut touched = list_corrected(catalog, &rows);
    let done = upkeep::repair_session_timeline(&rows, catalog, cutoff);
    proof {
        timeline::repairing_accounts_for_every_row(
            timeline::recent(upkeep::all_placed(catalog@, bare_rows), cutoff),
        );
        assert(sessions::session_views(done.timeline.kept@).len() == done.timeline.kept@.len());
    }
    list_marked(&done.timeline, &mut touched);
    let table = upkeep::list_remaining(&done);
    let ids = upkeep::list_recent_ids(&table, cutoff);
    let compacted = timeline::compact_sessions(table, &ids);
    list_anchors(&compacted.joins, &mut touched);
    let mut gone: Vec<String> = Vec::new();
    append_texts(&mut gone, &done.empty);
    assert(text::texts(gone@) =~= done@.empty);
    append_texts(&mut gone, &done.timeline.removed);
    list_absorbed(&compacted.joins, &mut gone);
    let written = stamp_all(&ledger.sessions, &compacted.table, &touched, at);
    let tombstones = note_sessions(ledger.tombstones, &gone, at);
    TidyLedger {
        ledger: Ledger {
            categories: ledger.categories,
            projects: ledger.projects,
            tasks: ledger.tasks,
            sessions: written,
            rules: ledger.rules,
            tombstones,
            sleep_debt_started_on: ledger.sleep_debt_started_on,
        },
        joins: compacted.joins,
        repaired: done.changes,
        compacted: compacted.changes,
    }
}

/// The sessions whose start or end was moved.
pub open spec fn moved_ids(moves: Seq<(Seq<char>, Seq<char>, Seq<char>, bool)>) -> Seq<Seq<char>>
    decreases moves.len(),
{
    if moves.len() == 0 {
        Seq::empty()
    } else {
        moved_ids(moves.drop_last()) + seq![moves.last().1, moves.last().0]
    }
}

/// The ledger with every idle session moved back to when the user left. A session whose start or end
/// moved carries the time `at`; a session that has nothing left goes without a note.
pub open spec fn with_moved_boundaries(
    ledger: LedgerView,
    threshold: int,
    at: Seq<char>,
) -> LedgerView {
    let rows = bare(ledger.sessions);
    let idle = timeline::idle_rows(rows);
    LedgerView {
        sessions: stamped(
            ledger.sessions,
            timeline::backfilled(rows, idle, threshold),
            moved_ids(timeline::planned_moves(rows, idle, threshold)),
            at,
        ),
        ..ledger
    }
}

fn list_moved(moves: &Vec<BoundaryMove>) -> (result: Vec<String>)
    ensures
        text::texts(result@) == moved_ids(timeline::move_views(moves@)),
{
    let ghost views = timeline::move_views(moves@);
    let mut result: Vec<String> = Vec::new();
    let mut i: usize = 0;
    assert(views.take(0) =~= Seq::empty());
    assert(text::texts(result@) =~= moved_ids(views.take(0)));
    while i < moves.len()
        invariant
            i <= moves.len(),
            views == timeline::move_views(moves@),
            text::texts(result@) == moved_ids(views.take(i as int)),
        decreases moves.len() - i,
    {
        let ghost before = text::texts(result@);
        let ghost upto = views.take(i + 1);
        assert(upto.drop_last() =~= views.take(i as int));
        assert(upto.last() == timeline::move_view(moves@[i as int]));
        result.push(moves[i].previous_id.clone());
        result.push(moves[i].idle_id.clone());
        assert(text::texts(result@) =~= before + seq![upto.last().1, upto.last().0]);
        i += 1;
    }
    assert(views.take(moves.len() as int) =~= views);
    result
}

/// Moves the idle sessions of the ledger back to when the user left.
pub fn move_idle_boundaries(ledger: Ledger, threshold: u32, at: &str) -> (result: Ledger)
    requires
        threshold > 0,
    ensures
        result@ == with_moved_boundaries(ledger@, threshold as int, at@),
{
    let rows = copy_bare(&ledger.sessions);
    let (table, moves) = timeline::backfill_idle_boundaries(rows, threshold);
    let touched = list_moved(&moves);
    let written = stamp_all(&ledger.sessions, &table, &touched, at);
    Ledger {
        categories: ledger.categories,
        projects: ledger.projects,
        tasks: ledger.tasks,
        sessions: written,
        rules: ledger.rules,
        tombstones: ledger.tombstones,
        sleep_debt_started_on: ledger.sleep_debt_started_on,
    }
}

/// A deletion of the session at `at` is noted.
pub open spec fn is_noted(list: Seq<TombstoneView>, id: Seq<char>, at: Seq<char>) -> bool {
    exists|k: int|
        0 <= k < list.len() && (#[trigger] list[k]).entity_kind == "session"@ && list[k].entity_id
            == id && list[k].deleted_at == at
}

proof fn lemma_noted(list: Seq<TombstoneView>, ids: Seq<Seq<char>>, at: Seq<char>, id: Seq<char>)
    requires
        ids.contains(id),
    ensures
        is_noted(noted_sessions(list, ids, at), id, at),
    decreases ids.len(),
{
    let rest = ids.drop_last();
    let last = ids.last();
    let before = noted_sessions(list, rest, at);
    let after = noted_sessions(list, ids, at);
    let key = sync::row_key("session"@, last);
    let spot = sync::spot::<sync::TombstoneRow>(before, key) as int;
    sync::lemma_spot::<sync::TombstoneRow>(before, key);
    if last == id {
        if spot < before.len() {
            sync::stored_tombstones_are_told_apart(
                before[spot].entity_kind,
                before[spot].entity_id,
                "session"@,
                id,
            );
            assert(after[spot].entity_id == id);
        } else {
            assert(after[before.len() as int].entity_id == id);
        }
    } else {
        let k = choose|k: int| 0 <= k < ids.len() && ids[k] == id;
        assert(rest[k] == id);
        lemma_noted(list, rest, at, id);
        let m = choose|m: int|
            0 <= m < before.len() && (#[trigger] before[m]).entity_kind == "session"@
                && before[m].entity_id == id && before[m].deleted_at == at;
        assert(after[m].entity_id == id && after[m].deleted_at == at);
    }
}

/// Merged sessions are gone and their deletion is noted, so that no other device brings them back;
/// every other session stays as it was written.
pub proof fn merged_sessions_are_buried(
    ledger: LedgerView,
    ids: Seq<Seq<char>>,
    merged: SessionView,
    at: Seq<char>,
    id: Seq<char>,
)
    requires
        ids.contains(id),
        merged.id != id,
    ensures
        is_noted(with_merge(ledger, ids, merged, at).tombstones, id, at),
        forall|k: int|
            0 <= k < with_merge(ledger, ids, merged, at).sessions.len() ==> (
            #[trigger] with_merge(ledger, ids, merged, at).sessions[k]).session.id != id,
        forall|k: int|
            0 <= k < ledger.sessions.len() && !ids.contains(
                (#[trigger] ledger.sessions[k]).session.id,
            ) ==> with_merge(ledger, ids, merged, at).sessions.contains(ledger.sessions[k]),
{
    let keep = |row: SyncSessionView| !ids.contains(row.session.id);
    let rest = rows_beside(ledger.sessions, ids);
    let after = with_merge(ledger, ids, merged, at).sessions;
    text::lemma_distinct(ids);
    assert(text::distinct(ids).contains(id));
    lemma_noted(ledger.tombstones, text::distinct(ids), at, id);
    assert forall|k: int| 0 <= k < after.len() implies (#[trigger] after[k]).session.id != id by {
        if k < rest.len() {
            ledger.sessions.lemma_filter_pred(keep, k);
            assert(after[k] == rest[k]);
        }
    }
    assert forall|k: int|
        0 <= k < ledger.sessions.len() && !ids.contains(
            (#[trigger] ledger.sessions[k]).session.id,
        ) implies after.contains(ledger.sessions[k]) by {
        ledger.sessions.lemma_filter_contains(keep, k);
        let m = choose|m: int| 0 <= m < rest.len() && rest[m] == ledger.sessions[k];
        assert(after[m] == ledger.sessions[k]);
    }
}

/// What tidying drops is noted, so that no other device brings it back.
pub proof fn tidied_sessions_are_buried(
    ledger: LedgerView,
    catalog: CatalogView,
    cutoff: Moment,
    at: Seq<char>,
    id: Seq<char>,
)
    requires
        ({
            let done = upkeep::kept_up(bare(ledger.sessions), catalog, cutoff);
            let table = upkeep::remaining(done);
            let joins = timeline::all_joins(table, upkeep::recent_ids(table, cutoff));
            done.empty.contains(id) || done.timeline.removed.contains(id) || absorbed_ids(
                joins,
            ).contains(id)
        }),
    ensures
        is_noted(tidied(ledger, catalog, cutoff, at).tombstones, id, at),
{
    let done = upkeep::kept_up(bare(ledger.sessions), catalog, cutoff);
    let table = upkeep::remaining(done);
    let joins = timeline::all_joins(table, upkeep::recent_ids(table, cutoff));
    let empty = done.empty;
    let removed = done.timeline.removed;
    let absorbed = absorbed_ids(joins);
    let gone = empty + removed + absorbed;
    if empty.contains(id) {
        let k = choose|k: int| 0 <= k < empty.len() && empty[k] == id;
        assert(gone[k] == id);
    } else if removed.contains(id) {
        let k = choose|k: int| 0 <= k < removed.len() && removed[k] == id;
        assert(gone[empty.len() + k] == id);
    } else {
        let k = choose|k: int| 0 <= k < absorbed.len() && absorbed[k] == id;
        assert(gone[empty.len() + removed.len() + k] == id);
    }
    lemma_noted(ledger.tombstones, gone, at, id);
}

} // verus!
