//! Promises of the ledger: what a change writes down, and what it leaves as it was.
use vstd::prelude::*;

use crate::amend;
use crate::amend::{AmendPlan, AmendStep};
use crate::catalog;
use crate::catalog::CatalogView;
use crate::clock;
use crate::clock::Moment;
use crate::journal;
use crate::journal::SplitRefusal;
use crate::ledger::LedgerView;
use crate::lists;
use crate::models::SessionView;
use crate::sessions;
use crate::sync;
use crate::sync::{SyncSession, SyncSessionView};
use crate::timeline;
use crate::upkeep;
use crate::upkeep::UpkeepView;

verus! {

broadcast use vstd::seq_lib::group_seq_properties;

proof fn lemma_beside(rows: Seq<SyncSessionView>, ids: Seq<Seq<char>>, row: SyncSessionView)
    ensures
        journal::rows_beside(rows, ids).contains(row) <==> rows.contains(row) && !ids.contains(
            row.session.id,
        ),
{
    let keep = |row: SyncSessionView| !ids.contains(row.session.id);
    lists::lemma_filtered(rows, keep);
    assert(rows.filter(keep).contains(row) <==> rows.contains(row) && keep(row));
}

/// Nothing but sessions and deletions differs.
pub open spec fn only_sessions_differ(before: LedgerView, after: LedgerView) -> bool {
    after == (LedgerView { sessions: after.sessions, tombstones: after.tombstones, ..before })
}

/// A merger replaces the chosen sessions by the merged one, written now, and touches no other.
pub proof fn merges_replace_the_chosen(
    ledger: LedgerView,
    ids: Seq<Seq<char>>,
    merged: SessionView,
    at: Seq<char>,
    row: SyncSessionView,
)
    ensures
        ({
            let after = journal::with_merge(ledger, ids, merged, at);
            let fresh = SyncSessionView { session: merged, updated_at: at };
            &&& only_sessions_differ(ledger, after)
            &&& after.sessions.contains(row) <==> row == fresh || (ledger.sessions.contains(row)
                && !ids.contains(row.session.id))
        }),
{
    let beside = journal::rows_beside(ledger.sessions, ids);
    let fresh = SyncSessionView { session: merged, updated_at: at };
    let after = beside.push(fresh);
    lemma_beside(ledger.sessions, ids, row);
    assert(after[beside.len() as int] == fresh);
    if beside.contains(row) {
        let k = choose|k: int| 0 <= k < beside.len() && beside[k] == row;
        assert(after[k] == row);
    }
    assert(journal::with_merge(ledger, ids, merged, at).sessions == after);
}

/// A split replaces the session by its two parts, both written now, and touches no other; a session
/// that is not there cannot be split.
pub proof fn splits_replace_the_session(
    ledger: LedgerView,
    id: Seq<char>,
    split_at: Seq<char>,
    first_id: Seq<char>,
    second_id: Seq<char>,
    at: Seq<char>,
    row: SyncSessionView,
)
    ensures
        match journal::split_recorded(ledger, id, split_at, first_id, second_id, at) {
            Ok((after, first, second)) => {
                &&& only_sessions_differ(ledger, after)
                &&& after.sessions.contains(row) <==> row == (SyncSessionView {
                    session: first,
                    updated_at: at,
                }) || row == (SyncSessionView { session: second, updated_at: at }) || (
                ledger.sessions.contains(row) && row.session.id != id)
                &&& exists|k: int|
                    0 <= k < ledger.sessions.len() && (#[trigger] ledger.sessions[k]).session.id
                        == id && timeline::split_outcome(
                        ledger.sessions[k].session,
                        split_at,
                        first_id,
                        second_id,
                    ) == Ok::<(SessionView, SessionView), timeline::SplitError>((first, second))
            },
            Err(refusal) => refusal == SplitRefusal::Missing ==> forall|k: int|
                0 <= k < ledger.sessions.len() ==> (#[trigger] ledger.sessions[k]).session.id != id,
        },
{
    let rows = journal::bare(ledger.sessions);
    lemma_found(rows, id);
    assert(forall|k: int|
        0 <= k < rows.len() ==> rows[k] == (#[trigger] ledger.sessions[k]).session);
    match journal::split_recorded(ledger, id, split_at, first_id, second_id, at) {
        Ok((after, first, second)) => {
            let beside = journal::rows_beside(ledger.sessions, seq![id]);
            let one = SyncSessionView { session: first, updated_at: at };
            let two = SyncSessionView { session: second, updated_at: at };
            let all = beside.push(one).push(two);
            assert(after.sessions == all);
            lemma_beside(ledger.sessions, seq![id], row);
            assert(seq![id].contains(row.session.id) <==> row.session.id == id) by {
                assert(seq![id][0] == id);
            }
            assert(all[beside.len() as int] == one);
            assert(all[(beside.len() + 1) as int] == two);
            if beside.contains(row) {
                let k = choose|k: int| 0 <= k < beside.len() && beside[k] == row;
                assert(all[k] == row);
            }
            let session = sessions::find(rows, id).unwrap();
            let k = choose|k: int| 0 <= k < rows.len() && #[trigger] rows[k] == session;
            assert(ledger.sessions[k].session.id == id);
        },
        Err(refusal) => {},
    }
}

proof fn lemma_found(rows: Seq<SessionView>, id: Seq<char>)
    ensures
        match sessions::find(rows, id) {
            Some(found) => found.id == id && exists|k: int|
                0 <= k < rows.len() && #[trigger] rows[k] == found,
            None => forall|k: int| 0 <= k < rows.len() ==> (#[trigger] rows[k]).id != id,
        },
    decreases rows.len(),
{
    if rows.len() > 0 && rows[0].id != id {
        let rest = rows.drop_first();
        lemma_found(rest, id);
        match sessions::find(rest, id) {
            Some(found) => {
                let k = choose|k: int| 0 <= k < rest.len() && #[trigger] rest[k] == found;
                assert(rows[k + 1] == found);
            },
            None => {
                assert forall|k: int| 0 <= k < rows.len() implies (#[trigger] rows[k]).id != id by {
                    if k > 0 {
                        assert(rest[k - 1] == rows[k]);
                    }
                }
            },
        }
    }
}

/// A session that a change touched was written now, one that it did not touch when it was written
/// before.
pub proof fn only_touched_sessions_are_written(
    before: Seq<SyncSessionView>,
    table: Seq<SessionView>,
    touched: Seq<Seq<char>>,
    at: Seq<char>,
    i: int,
    k: int,
)
    requires
        0 <= i < table.len(),
        0 <= k < before.len(),
        before[k].session.id == table[i].id,
        forall|j: int| 0 <= j < k ==> (#[trigger] before[j]).session.id != table[i].id,
    ensures
        journal::stamped(before, table, touched, at).len() == table.len(),
        journal::stamped(before, table, touched, at)[i].session == table[i],
        touched.contains(table[i].id) ==> journal::stamped(before, table, touched, at)[i].updated_at
            == at,
        !touched.contains(table[i].id) ==> journal::stamped(
            before,
            table,
            touched,
            at,
        )[i].updated_at == before[k].updated_at,
{
    lemma_spot(before, table[i].id, k);
}

proof fn lemma_spot(rows: Seq<SyncSessionView>, id: Seq<char>, k: int)
    requires
        0 <= k < rows.len(),
        rows[k].session.id == id,
        forall|j: int| 0 <= j < k ==> (#[trigger] rows[j]).session.id != id,
    ensures
        sync::spot::<SyncSession>(rows, id) == k,
    decreases rows.len(),
{
    if k > 0 {
        let rest = rows.drop_first();
        assert(rows[0].session.id != id);
        assert(rest[k - 1] == rows[k]);
        assert forall|j: int| 0 <= j < k - 1 implies (#[trigger] rest[j]).session.id != id by {
            assert(rest[j] == rows[j + 1]);
        }
        lemma_spot(rest, id, k - 1);
    }
}

/// A session with a task stands in the project of that task, and in the category of that project. A
/// task that is gone is left out; then a project stays only where it has the session's category.
/// Nothing else of the session changes.
pub proof fn sessions_stand_where_their_task_is(catalog: CatalogView, row: SessionView)
    ensures
        ({
            let after = upkeep::placed(catalog, row);
            let known = row.task_id is Some && catalog::task_with(
                catalog.tasks,
                row.task_id.unwrap(),
            ) is Some;
            let task = catalog::task_with(catalog.tasks, row.task_id.unwrap()).unwrap();
            let project = catalog::project_with(catalog.projects, task.project_id);
            &&& after.id == row.id && after.started_at == row.started_at && after.ended_at
                == row.ended_at && after.summary == row.summary && after.confidence
                == row.confidence && after.evidence == row.evidence && after.user_confirmed
                == row.user_confirmed && after.source == row.source
            &&& known && project is Some ==> after.task_id == row.task_id && after.project_id
                == Some(task.project_id) && after.category == project.unwrap().category
                && after.project_name == Some(project.unwrap().name) && after.task_title == Some(
                task.title,
            )
            &&& !known ==> after.task_id is None && after.task_title is None && after.category
                == row.category
            &&& !known && row.project_id is None ==> after.project_id is None
            &&& !known && row.project_id is Some ==> {
                let own = catalog::project_with(catalog.projects, row.project_id.unwrap());
                &&& own is Some && own.unwrap().category == row.category ==> after.project_id
                    == row.project_id && after.project_name == Some(own.unwrap().name)
                &&& own is None || own.unwrap().category != row.category
                    ==> after.project_id is None && after.project_name is None
            }
        }),
{
}

/// Where nothing counts as corrected, the session stood where it belongs.
pub proof fn counted_corrections_are_corrections(catalog: CatalogView, row: SessionView)
    ensures
        upkeep::corrections(catalog, row) == 0 ==> upkeep::placed(catalog, row).project_id
            == row.project_id && upkeep::placed(catalog, row).task_id == row.task_id
            && upkeep::placed(catalog, row).category == row.category,
        upkeep::corrections(catalog, row) > 0 ==> upkeep::placed(catalog, row).project_id
            != row.project_id || upkeep::placed(catalog, row).task_id != row.task_id
            || upkeep::placed(catalog, row).category != row.category,
{
}

/// A session remains exactly where it neither is empty nor was removed, as it was repaired or, without
/// a repair, as it stood.
pub proof fn what_does_not_go_remains(done: UpkeepView, row: SessionView)
    requires
        done.rows.contains(row),
        !done.empty.contains(row.id),
        !done.timeline.removed.contains(row.id),
    ensures
        sessions::find(done.timeline.kept, row.id) is None ==> upkeep::remaining(done).contains(row),
        sessions::find(done.timeline.kept, row.id) matches Some(repaired) ==> upkeep::remaining(
            done,
        ).contains(repaired),
        upkeep::remaining(done).len() <= done.rows.len(),
{
    let keep = |row: SessionView| !upkeep::goes(done, row);
    let left = done.rows.filter(keep);
    lists::lemma_filtered(done.rows, keep);
    assert(left.contains(row) <==> done.rows.contains(row) && keep(row));
    let k = choose|k: int| 0 <= k < left.len() && left[k] == row;
    assert(upkeep::remaining(done)[k] == upkeep::left_as(done, row));
    done.rows.lemma_filter_len(keep);
}

/// A correction is taken back as soon as one of its steps fails, and stands only after all of them: the
/// update, what it makes remembered, a rule for every changed session where rules are learned, and the
/// pin where one is asked for.
pub proof fn corrections_take_all_their_steps(step: AmendStep, succeeded: bool, plan: AmendPlan)
    ensures
        !succeeded && !(step is Stand) && !(step is Failed) && !(step is TakeBack)
            ==> amend::following(step, succeeded, plan) is TakeBack,
        step is TakeBack ==> amend::following(step, succeeded, plan) is Failed,
        succeeded && step is Update ==> amend::following(step, succeeded, plan) is Remember,
        succeeded && step is Remember && plan.learn && plan.changed > 0 ==> amend::following(
            step,
            succeeded,
            plan,
        ) == (AmendStep::Learn { index: 0 }),
        succeeded && step is Remember && !(plan.learn && plan.changed > 0) && plan.pin
            ==> amend::following(step, succeeded, plan) is Pin,
        succeeded && step is Remember && !(plan.learn && plan.changed > 0) && !plan.pin
            ==> amend::following(step, succeeded, plan) is Save,
        step matches AmendStep::Learn { index } ==> {
            &&& succeeded && index + 1 < plan.changed ==> amend::following(step, succeeded, plan)
                == (AmendStep::Learn { index: (index + 1) as usize })
            &&& succeeded && index + 1 >= plan.changed && plan.pin ==> amend::following(
                step,
                succeeded,
                plan,
            ) is Pin
            &&& succeeded && index + 1 >= plan.changed && !plan.pin ==> amend::following(
                step,
                succeeded,
                plan,
            ) is Save
        },
        succeeded && step is Pin ==> amend::following(step, succeeded, plan) is Save,
        amend::following(step, succeeded, plan) is Stand ==> step is Stand || (step is Save
            && succeeded),
{
}

/// What is pinned is the assignment of the first changed session; without a session, or without a
/// project, nothing can be pinned.
pub proof fn the_first_change_is_pinned(changed: Seq<SessionView>)
    ensures
        amend::pin_target_of(changed) is Ok <==> changed.len() > 0 && changed[0].project_id is Some,
        amend::pin_target_of(changed) matches Ok((project, task)) ==> Some(project)
            == changed[0].project_id && task == changed[0].task_id,
{
}

/// What is looked at again are the sessions that ended since then, the last twenty thousand of them.
pub proof fn recent_sessions_are_looked_at_again(
    rows: Seq<SessionView>,
    cutoff: Moment,
    k: int,
)
    requires
        0 <= k < rows.len(),
    ensures
        upkeep::recent_ids(rows, cutoff).len() <= 20_000,
        rows.len() <= 20_000 && (clock::moment_of(rows[k].ended_at) matches Some(end)
            && !clock::before(end, cutoff)) ==> upkeep::recent_ids(rows, cutoff).contains(
            rows[k].id,
        ),
{
    let keep = |row: SessionView| upkeep::ended_since(row, cutoff);
    let left = rows.filter(keep);
    rows.lemma_filter_len(keep);
    if keep(rows[k]) {
        rows.lemma_filter_contains(keep, k);
        let m = choose|m: int| 0 <= m < left.len() && left[m] == rows[k];
        if rows.len() <= 20_000 {
            assert(upkeep::recent_ids(rows, cutoff)[m] == rows[k].id);
        }
    }
}

} // verus!
