//! The repair of a whole timeline against the hierarchy.
use vstd::prelude::*;
use vstd::string::*;

use crate::catalog;
use crate::catalog::{Catalog, CatalogView};
use crate::clock;
use crate::clock::Moment;
use crate::models::{SessionView, WorkSession};
use crate::sessions;
use crate::text;
use crate::timeline;
use crate::timeline::{RepairedTimeline, TimelineView};

verus! {

broadcast use vstd::seq_lib::group_seq_properties;

/// How many days back sessions are repaired.
pub const RECENT_MAINTENANCE_DAYS: i64 = 14;

/// The session in its place of the hierarchy, with the names that stand there.
pub open spec fn placed(catalog: CatalogView, row: SessionView) -> SessionView {
    let (project, task, category) = catalog::repaired_placement(
        catalog,
        row.project_id,
        row.task_id,
        row.category,
    );
    SessionView {
        project_id: project,
        project_name: catalog::project_name(catalog, project),
        task_id: task,
        task_title: catalog::task_title(catalog, task),
        category,
        ..row
    }
}

/// How many corrections bring the session to its place: the task decides project and category, a
/// task that is gone is dropped, and so is then a project that does not fit.
pub open spec fn corrections(catalog: CatalogView, row: SessionView) -> nat {
    match row.task_id {
        Some(id) => match catalog::placement_of(catalog, id) {
            Some((project, category)) => if row.project_id != Some(project) || row.category
                != category {
                1
            } else {
                0
            },
            None => if catalog::task_with(catalog.tasks, id) is Some {
                0
            } else {
                1 + stale_project(catalog, row)
            },
        },
        None => stale_project(catalog, row),
    }
}

/// One, where the project of a session is gone or stands under another category.
pub open spec fn stale_project(catalog: CatalogView, row: SessionView) -> nat {
    match row.project_id {
        Some(id) => match catalog::project_with(catalog.projects, id) {
            Some(project) => if project.category == row.category {
                0
            } else {
                1
            },
            None => 1,
        },
        None => 0,
    }
}

/// The corrections of all sessions.
pub open spec fn all_corrections(catalog: CatalogView, rows: Seq<SessionView>) -> nat
    decreases rows.len(),
{
    if rows.len() == 0 {
        0
    } else {
        all_corrections(catalog, rows.drop_last()) + corrections(catalog, rows.last())
    }
}

/// All sessions in their places.
pub open spec fn all_placed(catalog: CatalogView, rows: Seq<SessionView>) -> Seq<SessionView> {
    rows.map_values(|row: SessionView| placed(catalog, row))
}

/// The sessions that took no time.
pub open spec fn empty_rows(rows: Seq<SessionView>) -> Seq<SessionView> {
    rows.filter(|row: SessionView| timeline::lengthless(row))
}

/// What repairing a table comes to.
#[verifier::ext_equal]
pub struct UpkeepView {
    pub rows: Seq<SessionView>,
    pub empty: Seq<Seq<char>>,
    pub timeline: TimelineView,
    pub changes: nat,
}

/// The table with every session in its place, the sessions that took no time, and the recent
/// timeline without overlaps.
pub open spec fn kept_up(rows: Seq<SessionView>, catalog: CatalogView, cutoff: Moment) ->
    UpkeepView {
    let standing = all_placed(catalog, rows);
    let empty = empty_rows(standing).map_values(|row: SessionView| row.id);
    let repaired = timeline::repaired(timeline::recent(standing, cutoff));
    UpkeepView {
        rows: standing,
        empty,
        timeline: repaired,
        changes: all_corrections(catalog, rows) + empty.len() + repaired.changes,
    }
}

/// A repaired table.
#[derive(Debug, PartialEq, Eq)]
pub struct Upkeep {
    /// All sessions, each in its place.
    pub rows: Vec<WorkSession>,
    /// The ids of the sessions that took no time; they go.
    pub empty: Vec<String>,
    /// The recent automatic sessions without overlaps.
    pub timeline: RepairedTimeline,
    pub changes: u128,
}

impl View for Upkeep {
    type V = UpkeepView;

    open spec fn view(&self) -> UpkeepView {
        UpkeepView {
            rows: sessions::session_views(self.rows@),
            empty: text::texts(self.empty@),
            timeline: self.timeline@,
            changes: self.changes as nat,
        }
    }
}

fn count_stale_project(catalog: &Catalog, row: &WorkSession) -> (result: u128)
    ensures
        result == stale_project(catalog@, row@),
        result <= 1,
{
    match &row.project_id {
        Some(id) => match catalog::find_project(&catalog.projects, id.as_str()) {
            Some(at) => if text::same(
                catalog.projects[at].category.as_str(),
                row.category.as_str(),
            ) {
                0
            } else {
                1
            },
            None => 1,
        },
        None => 0,
    }
}

pub(crate) fn count_corrections(catalog: &Catalog, row: &WorkSession) -> (result: u128)
    ensures
        result == corrections(catalog@, row@),
        result <= 2,
{
    match &row.task_id {
        Some(id) => match catalog::find_placement(catalog, id.as_str()) {
            Some((project, category)) => {
                let same_project = match &row.project_id {
                    Some(current) => text::same(current.as_str(), project.as_str()),
                    None => false,
                };
                if !same_project || !text::same(row.category.as_str(), category.as_str()) {
                    1
                } else {
                    0
                }
            },
            None => if catalog::find_task(&catalog.tasks, id.as_str()).is_some() {
                0
            } else {
                1 + count_stale_project(catalog, row)
            },
        },
        None => count_stale_project(catalog, row),
    }
}

fn place(catalog: &Catalog, row: &WorkSession) -> (result: WorkSession)
    ensures
        result@ == placed(catalog@, row@),
{
    let mut after = row.copy();
    catalog::repair_placement(catalog, &mut after);
    after.project_name = catalog::name_of_project(catalog, &after.project_id);
    after.task_title = catalog::title_of_task(catalog, &after.task_id);
    after
}

fn place_all(catalog: &Catalog, rows: &Vec<WorkSession>) -> (result: (Vec<WorkSession>, u128))
    ensures
        sessions::session_views(result.0@) == all_placed(
            catalog@,
            sessions::session_views(rows@),
        ),
        result.1 == all_corrections(catalog@, sessions::session_views(rows@)),
        result.1 <= 2 * rows@.len(),
{
    let ghost views = sessions::session_views(rows@);
    let mut standing: Vec<WorkSession> = Vec::new();
    let mut count: u128 = 0;
    let mut i: usize = 0;
    assert(sessions::session_views(standing@) =~= all_placed(catalog@, views.take(0)));
    while i < rows.len()
        invariant
            i <= rows.len(),
            views == sessions::session_views(rows@),
            sessions::session_views(standing@) == all_placed(catalog@, views.take(i as int)),
            count == all_corrections(catalog@, views.take(i as int)),
            count <= 2 * i,
        decreases rows.len() - i,
    {
        let ghost upto = views.take(i + 1);
        let ghost before = sessions::session_views(standing@);
        assert(upto.drop_last() =~= views.take(i as int));
        assert(upto.last() == rows@[i as int]@);
        count = count + count_corrections(catalog, &rows[i]);
        let after = place(catalog, &rows[i]);
        let ghost view = after@;
        standing.push(after);
        assert(sessions::session_views(standing@) =~= before.push(view));
        assert(all_placed(catalog@, upto) =~= before.push(view));
        i += 1;
    }
    assert(views.take(rows.len() as int) =~= views);
    (standing, count)
}

fn list_empty(rows: &Vec<WorkSession>) -> (result: Vec<String>)
    ensures
        text::texts(result@) == empty_rows(sessions::session_views(rows@)).map_values(
            |row: SessionView| row.id,
        ),
        result@.len() <= rows@.len(),
{
    let ghost views = sessions::session_views(rows@);
    let ghost keep = |row: SessionView| timeline::lengthless(row);
    let ghost name = |row: SessionView| row.id;
    let mut result: Vec<String> = Vec::new();
    let mut i: usize = 0;
    assert(views.take(0).filter(keep) =~= Seq::empty()) by {
        reveal(Seq::filter);
    }
    assert(text::texts(result@) =~= views.take(0).filter(keep).map_values(name));
    while i < rows.len()
        invariant
            i <= rows.len(),
            result.len() <= i,
            views == sessions::session_views(rows@),
            keep == (|row: SessionView| timeline::lengthless(row)),
            name == (|row: SessionView| row.id),
            text::texts(result@) == views.take(i as int).filter(keep).map_values(name),
        decreases rows.len() - i,
    {
        let ghost done = views.take(i as int).filter(keep);
        assert(views.take(i + 1) =~= views.take(i as int).push(rows@[i as int]@));
        proof {
            views.take(i as int).lemma_filter_push(rows@[i as int]@, keep);
        }
        if timeline::is_lengthless(&rows[i]) {
            let ghost before = text::texts(result@);
            result.push(rows[i].id.clone());
            assert(text::texts(result@) =~= before.push(rows@[i as int].id@));
            assert(done.push(rows@[i as int]@).map_values(name) =~= before.push(
                rows@[i as int].id@,
            ));
        }
        i += 1;
    }
    assert(views.take(rows.len() as int) =~= views);
    result
}

/// Repairs a table: every session comes to its place in the hierarchy, sessions that took no time
/// are named, and the automatic sessions that ended since `cutoff` lose their overlaps. The rows
/// come in the order of their start.
pub fn repair_session_timeline(rows: &Vec<WorkSession>, catalog: &Catalog, cutoff: Moment) -> (result:
    Upkeep)
    ensures
        result@ == kept_up(sessions::session_views(rows@), catalog@, cutoff),
{
    let (standing, corrected) = place_all(catalog, rows);
    let empty = list_empty(&standing);
    let repaired = timeline::repair_recent_overlaps(&standing, cutoff);
    let count: usize = rows.len();
    assert(corrected <= 2 * count && standing@.len() == count && empty@.len() <= count) by {
        assert(sessions::session_views(standing@).len() == count);
    }
    let changes: u128 = corrected + empty.len() as u128 + repaired.changes as u128;
    Upkeep { rows: standing, empty, timeline: repaired, changes }
}

/// The session goes: it took no time, or its time is counted by another one.
pub open spec fn goes(done: UpkeepView, row: SessionView) -> bool {
    done.empty.contains(row.id) || done.timeline.removed.contains(row.id)
}

/// The session as the repair leaves it.
pub open spec fn left_as(done: UpkeepView, row: SessionView) -> SessionView {
    match sessions::find(done.timeline.kept, row.id) {
        Some(repaired) => repaired,
        None => row,
    }
}

/// The table as the repair leaves it.
pub open spec fn remaining(done: UpkeepView) -> Seq<SessionView> {
    done.rows.filter(|row: SessionView| !goes(done, row)).map_values(
        |row: SessionView| left_as(done, row),
    )
}

/// Lists the sessions that stay, as the repair leaves them.
pub fn list_remaining(done: &Upkeep) -> (result: Vec<WorkSession>)
    ensures
        sessions::session_views(result@) == remaining(done@),
{
    let ghost views = sessions::session_views(done.rows@);
    let ghost keep = |row: SessionView| !goes(done@, row);
    let ghost turn = |row: SessionView| left_as(done@, row);
    let mut result: Vec<WorkSession> = Vec::new();
    let mut i: usize = 0;
    assert(views.take(0).filter(keep) =~= Seq::empty()) by {
        reveal(Seq::filter);
    }
    assert(sessions::session_views(result@) =~= views.take(0).filter(keep).map_values(turn));
    while i < done.rows.len()
        invariant
            i <= done.rows.len(),
            views == sessions::session_views(done.rows@),
            keep == (|row: SessionView| !goes(done@, row)),
            turn == (|row: SessionView| left_as(done@, row)),
            sessions::session_views(result@) == views.take(i as int).filter(keep).map_values(turn),
        decreases done.rows.len() - i,
    {
        let row = &done.rows[i];
        let ghost before = views.take(i as int).filter(keep);
        assert(views.take(i + 1) =~= views.take(i as int).push(row@));
        proof {
            views.take(i as int).lemma_filter_push(row@, keep);
        }
        if !text::listed(&done.empty, row.id.as_str()) && !text::listed(
            &done.timeline.removed,
            row.id.as_str(),
        ) {
            let left = match sessions::find_session(&done.timeline.kept, row.id.as_str()) {
                Some(at) => done.timeline.kept[at].copy(),
                None => row.copy(),
            };
            let ghost listed = sessions::session_views(result@);
            let ghost view = left@;
            result.push(left);
            assert(sessions::session_views(result@) =~= listed.push(view));
            assert(before.push(row@).map_values(turn) =~= listed.push(view));
        }
        i += 1;
    }
    assert(views.take(done.rows.len() as int) =~= views);
    result
}

/// The session ended no earlier than `cutoff`.
pub open spec fn ended_since(row: SessionView, cutoff: Moment) -> bool {
    clock::moment_of(row.ended_at) matches Some(end) && !clock::before(end, cutoff)
}

/// The ids of the last sessions that ended since `cutoff`, as many as are looked at in one go.
pub open spec fn recent_ids(rows: Seq<SessionView>, cutoff: Moment) -> Seq<Seq<char>> {
    let ids = rows.filter(|row: SessionView| ended_since(row, cutoff)).map_values(
        |row: SessionView| row.id,
    );
    if ids.len() > timeline::MAX_RECENT_MAINTENANCE_SESSIONS {
        ids.skip(ids.len() - timeline::MAX_RECENT_MAINTENANCE_SESSIONS)
    } else {
        ids
    }
}

fn is_ended_since(row: &WorkSession, cutoff: Moment) -> (result: bool)
    ensures
        result == ended_since(row@, cutoff),
{
    match clock::parse_moment(row.ended_at.as_str()) {
        Some(end) => !clock::is_before(end, cutoff),
        None => false,
    }
}

/// Lists the sessions whose neighbours are joined. The rows come in the order of their start.
pub fn list_recent_ids(rows: &Vec<WorkSession>, cutoff: Moment) -> (result: Vec<String>)
    ensures
        text::texts(result@) == recent_ids(sessions::session_views(rows@), cutoff),
{
    let ghost views = sessions::session_views(rows@);
    let ghost keep = |row: SessionView| ended_since(row, cutoff);
    let ghost name = |row: SessionView| row.id;
    let mut found: Vec<String> = Vec::new();
    let mut i: usize = 0;
    assert(views.take(0).filter(keep) =~= Seq::empty()) by {
        reveal(Seq::filter);
    }
    assert(text::texts(found@) =~= views.take(0).filter(keep).map_values(name));
    while i < rows.len()
        invariant
            i <= rows.len(),
            views == sessions::session_views(rows@),
            keep == (|row: SessionView| ended_since(row, cutoff)),
            name == (|row: SessionView| row.id),
            text::texts(found@) == views.take(i as int).filter(keep).map_values(name),
        decreases rows.len() - i,
    {
        let ghost done = views.take(i as int).filter(keep);
        assert(views.take(i + 1) =~= views.take(i as int).push(rows@[i as int]@));
        proof {
            views.take(i as int).lemma_filter_push(rows@[i as int]@, keep);
        }
        if is_ended_since(&rows[i], cutoff) {
            let ghost before = text::texts(found@);
            found.push(rows[i].id.clone());
            assert(text::texts(found@) =~= before.push(rows@[i as int].id@));
            assert(done.push(rows@[i as int]@).map_values(name) =~= before.push(
                rows@[i as int].id@,
            ));
        }
        i += 1;
    }
    assert(views.take(rows.len() as int) =~= views);
    let ghost ids = text::texts(found@);
    if found.len() > timeline::MAX_RECENT_MAINTENANCE_SESSIONS {
        let from: usize = found.len() - timeline::MAX_RECENT_MAINTENANCE_SESSIONS;
        let kept = found.split_off(from);
        assert(text::texts(kept@) =~= ids.skip(from as int));
        kept
    } else {
        found
    }
}

/// The rows with readable times come in the order of their start.
pub open spec fn starts_in_order(rows: Seq<SessionView>) -> bool {
    forall|i: int, j: int|
        0 <= i < j < rows.len() && timeline::well_timed(#[trigger] rows[i]) && timeline::well_timed(
            #[trigger] rows[j],
        ) ==> !clock::before(timeline::start_of(rows[j]), timeline::start_of(rows[i]))
}

proof fn lemma_recent_in_order(rows: Seq<SessionView>, cutoff: Moment)
    requires
        starts_in_order(rows),
    ensures
        timeline::in_time_order(timeline::maintained_rows(rows, cutoff)),
        forall|i: int|
            0 <= i < timeline::maintained_rows(rows, cutoff).len() ==> rows.contains(
                #[trigger] timeline::maintained_rows(rows, cutoff)[i],
            ),
    decreases rows.len(),
{
    let keep = |session: SessionView| timeline::maintained(session, cutoff);
    if rows.len() == 0 {
        assert(rows.filter(keep) =~= Seq::empty()) by {
            reveal(Seq::filter);
        }
    } else {
        let rest = rows.drop_last();
        let last = rows.last();
        assert(rows =~= rest.push(last));
        assert(starts_in_order(rest)) by {
            assert(forall|i: int| 0 <= i < rest.len() ==> rest[i] == rows[i]);
        }
        lemma_recent_in_order(rest, cutoff);
        rest.lemma_filter_push(last, keep);
        let before = timeline::maintained_rows(rest, cutoff);
        let after = timeline::maintained_rows(rows, cutoff);
        assert forall|i: int| 0 <= i < after.len() implies rows.contains(#[trigger] after[i]) by {
            if i < before.len() {
                assert(after[i] == before[i]);
                assert(rest.contains(before[i]));
                let k = choose|k: int| 0 <= k < rest.len() && rest[k] == before[i];
                assert(rows[k] == before[i]);
            } else {
                assert(rows[rows.len() - 1] == after[i]);
            }
        }
        assert forall|i: int| 0 <= i < after.len() implies timeline::well_timed(
            #[trigger] after[i],
        ) by {
            if i < before.len() {
                assert(after[i] == before[i]);
            }
        }
        assert forall|i: int, j: int| 0 <= i < j < after.len() implies !clock::before(
            timeline::start_of(#[trigger] after[j]),
            timeline::start_of(#[trigger] after[i]),
        ) by {
            assert(after[i] == before[i]);
            if j < before.len() {
                assert(after[j] == before[j]);
            } else {
                assert(after[j] == last);
                assert(rest.contains(before[i]));
                let k = choose|k: int| 0 <= k < rest.len() && rest[k] == before[i];
                assert(rows[k] == before[i] && timeline::well_timed(rows[k]));
                assert(timeline::well_timed(rows[rows.len() - 1]));
            }
        }
    }
}

/// The repair leaves nothing to correct in where sessions stand, and keeps their times; of rows in
/// the order of their start, no two recent automatic ones share time afterwards.
pub proof fn repaired_tables_are_sound(
    rows: Seq<SessionView>,
    catalog: CatalogView,
    cutoff: Moment,
)
    requires
        starts_in_order(rows),
    ensures
        timeline::disjoint(kept_up(rows, catalog, cutoff).timeline.kept),
        kept_up(rows, catalog, cutoff).rows.len() == rows.len(),
        forall|i: int|
            0 <= i < rows.len() ==> {
                let row = #[trigger] kept_up(rows, catalog, cutoff).rows[i];
                row.started_at == rows[i].started_at && row.ended_at == rows[i].ended_at
                    && corrections(catalog, row) == 0
            },
{
    let standing = all_placed(catalog, rows);
    assert(starts_in_order(standing)) by {
        assert forall|i: int, j: int|
            0 <= i < j < standing.len() && timeline::well_timed(#[trigger] standing[i])
                && timeline::well_timed(#[trigger] standing[j]) implies !clock::before(
            timeline::start_of(standing[j]),
            timeline::start_of(standing[i]),
        ) by {
            assert(standing[i] == placed(catalog, rows[i]));
            assert(standing[j] == placed(catalog, rows[j]));
            assert(timeline::well_timed(rows[i]) && timeline::well_timed(rows[j]));
        }
    }
    lemma_recent_in_order(standing, cutoff);
    let found = timeline::maintained_rows(standing, cutoff);
    let chosen = timeline::recent(standing, cutoff);
    assert(timeline::in_time_order(chosen)) by {
        assert(forall|i: int| 0 <= i < chosen.len() ==> chosen[i] == found[i]);
    }
    timeline::repaired_timelines_do_not_overlap(chosen);
    assert forall|i: int| 0 <= i < rows.len() implies {
        let row = #[trigger] kept_up(rows, catalog, cutoff).rows[i];
        row.started_at == rows[i].started_at && row.ended_at == rows[i].ended_at && corrections(
            catalog,
            row,
        ) == 0
    } by {
        assert(standing[i] == placed(catalog, rows[i]));
    }
}

} // verus!
