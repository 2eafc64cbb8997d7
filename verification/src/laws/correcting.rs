//! Promises of correcting sessions and of entering them by hand.
use vstd::prelude::*;

use crate::catalog::CatalogView;
use crate::clock;
use crate::corrections;
use crate::corrections::{BatchErrorView, UpdateErrorView};
use crate::laws::lookup;
use crate::models::{EvidenceView, SessionPatchView, SessionView, SettingsView};
use crate::sessions;
use crate::text;
use crate::undo;
use crate::undo::ManualError;

verus! {

broadcast use vstd::seq_lib::group_seq_properties;

/// The text without white space around it, on one line, and no longer than a label may be.
pub open spec fn as_label(value: Seq<char>) -> Seq<char> {
    let line = text::trimmed(value).map_values(
        |c: char| if c == '\r' || c == '\n' || c == '\t' { ' ' } else { c },
    );
    if line.len() <= 80 {
        line
    } else {
        line.take(80)
    }
}

pub(crate) proof fn lemma_label(value: Seq<char>)
    ensures
        crate::labels::cleaned(value) == as_label(value),
{
    assert(text::one_line(text::trimmed(value)) =~= text::trimmed(value).map_values(
        |c: char| if c == '\r' || c == '\n' || c == '\t' { ' ' } else { c },
    ));
    if as_label(value).len() == 0 {
        assert(as_label(value) =~= Seq::empty());
    }
}

/// The project stands in the catalog under this category.
pub open spec fn stands_under(known: CatalogView, project: Seq<char>, category: Seq<char>) -> bool {
    exists|k: int|
        0 <= k < known.projects.len() && (#[trigger] known.projects[k]).id == project
            && known.projects[k].category == category
}

/// The task stands in the catalog under this project.
pub open spec fn belongs_to(known: CatalogView, task: Seq<char>, project: Seq<char>) -> bool {
    exists|k: int|
        0 <= k < known.tasks.len() && (#[trigger] known.tasks[k]).id == task
            && known.tasks[k].project_id == project
}

/// Some category of the catalog has this name.
pub open spec fn is_known(known: CatalogView, category: Seq<char>) -> bool {
    exists|k: int|
        0 <= k < known.categories.len() && (#[trigger] known.categories[k]).name == category
}

/// The patch clears nothing.
pub open spec fn clears_nothing(patch: SessionPatchView) -> bool {
    patch.clear_project != Some(true) && patch.clear_task != Some(true)
}

/// A corrected session takes the summary, the confidence and the confirmation that the patch gives and
/// keeps those that it does not give; its id, its time and its evidence stay.
pub proof fn corrections_take_what_the_patch_gives(
    current: SessionView,
    patch: SessionPatchView,
    known: CatalogView,
    after: SessionView,
)
    requires
        corrections::updated(current, patch, known) == Ok::<SessionView, UpdateErrorView>(after),
    ensures
        after.id == current.id,
        after.started_at == current.started_at,
        after.ended_at == current.ended_at,
        after.evidence == current.evidence,
        patch.summary matches Some(given) ==> after.summary == as_label(given)
            && after.summary.len() > 0,
        patch.summary is None ==> after.summary == current.summary,
        patch.confidence matches Some(given) ==> 0 <= given <= 0x3F800000 ==> after.confidence
            == given,
        patch.confidence matches Some(given) ==> given > 0x3F800000 ==> after.confidence
            == 0x3F800000,
        patch.confidence matches Some(given) ==> given < -1 ==> after.confidence == 0,
        patch.confidence is None && 0 <= current.confidence <= 0x3F800000 ==> after.confidence
            == current.confidence,
        patch.user_confirmed matches Some(given) ==> after.user_confirmed == given,
        patch.user_confirmed is None ==> after.user_confirmed,
        patch.summary is None && patch.project_id is None && patch.task_id is None
            && patch.category is None && clears_nothing(patch) ==> after.source == current.source,
        patch.summary is Some || patch.project_id is Some || patch.task_id is Some
            || patch.category is Some || !clears_nothing(patch) ==> after.source
            == "manual-correction"@,
{
    if let Some(given) = patch.summary {
        lemma_label(given);
    }
}

/// A corrected session has the task that the patch selects, else the project that it selects, and loses
/// what it clears; project and category follow from what was selected.
pub proof fn corrections_place_the_session(
    current: SessionView,
    patch: SessionPatchView,
    known: CatalogView,
    after: SessionView,
)
    requires
        corrections::updated(current, patch, known) == Ok::<SessionView, UpdateErrorView>(after),
    ensures
        is_known(known, after.category),
        after.task_id matches Some(task) ==> (after.project_id matches Some(project) && belongs_to(
            known,
            task,
            project,
        )),
        after.project_id matches Some(project) ==> stands_under(known, project, after.category),
        patch.task_id matches Some(task) ==> clears_nothing(patch) ==> after.task_id == Some(task),
        patch.project_id matches Some(project) ==> patch.task_id is None && clears_nothing(patch)
            && (current.project_id != Some(project) || current.task_id is None)
            ==> after.project_id == Some(project) && after.task_id is None,
        patch.project_id matches Some(project) ==> patch.clear_project != Some(true)
            && patch.clear_task == Some(true) ==> after.project_id == Some(project)
            && after.task_id is None,
        patch.project_id is Some && patch.task_id is None && clears_nothing(patch)
            && patch.project_id == current.project_id && current.task_id is Some ==> after.task_id
            == current.task_id,
        patch.clear_project == Some(true) ==> after.project_id is None && after.task_id is None,
        patch.clear_task == Some(true) ==> after.task_id is None,
        patch.clear_task == Some(true) && patch.clear_project != Some(true) && patch.project_id
            is None && patch.category is None ==> after.project_id == current.project_id,
        patch.project_id is None && patch.task_id is None && clears_nothing(patch)
            && patch.category is None ==> {
            &&& after.task_id == current.task_id
            &&& current.task_id is None ==> after.project_id == current.project_id
            &&& current.task_id is None && current.project_id is None ==> after.category
                == current.category
        },
        patch.category matches Some(given) ==> patch.project_id is None && patch.task_id is None
            && as_label(given) != current.category ==> after.project_id is None && after.task_id
            is None && after.category == as_label(given),
        patch.category matches Some(given) ==> after.project_id is None ==> after.category
            == as_label(given),
        patch.category matches Some(given) ==> patch.project_id is None && patch.task_id is None
            && clears_nothing(patch) && as_label(given) == current.category && current.task_id
            is Some ==> after.task_id == current.task_id,
        patch.category matches Some(given) ==> patch.project_id is None && patch.task_id is None
            && clears_nothing(patch) && as_label(given) == current.category && current.task_id
            is None ==> after.category == current.category && (current.project_id matches Some(
            project,
        ) ==> (after.project_id == Some(project) || !stands_under_first(
            known,
            project,
            current.category,
        ))),
        patch.category is None && after.project_id is None ==> after.category == current.category,
{
    if let Some(given) = patch.category {
        lemma_label(given);
    }
    let moved = corrections::moves_category_alone(current, patch);
    let task = if moved {
        None
    } else {
        corrections::selected_task(current, patch)
    };
    let project = if moved {
        None
    } else {
        corrections::selected_project(current, patch)
    };
    lookup::categories_are_found_by_name(known.categories, after.category);
    let found = crate::catalog::category_named(known.categories, after.category).unwrap();
    let at = choose|k: int| 0 <= k < known.categories.len() && known.categories[k] == found;
    assert(known.categories[at].name == after.category);
    if let Some(id) = task {
        lookup::places_and_names_are_looked_up(known, id, id);
        let place = after.project_id.unwrap();
        let (k, m) = choose|k: int, m: int|
            0 <= k < known.tasks.len() && 0 <= m < known.projects.len() && (
            #[trigger] known.tasks[k]).id == id && known.tasks[k].project_id == place && (
            #[trigger] known.projects[m]).id == place && known.projects[m].category
                == after.category;
        assert(belongs_to(known, id, place));
        assert(stands_under(known, place, after.category));
    } else if let Some(id) = project {
        lookup::projects_are_found_by_id(known.projects, id);
        let row = crate::catalog::project_with(known.projects, id).unwrap();
        let k = choose|k: int|
            0 <= k < known.projects.len() && #[trigger] known.projects[k] == row && row.id == id
                && forall|j: int| 0 <= j < k ==> (#[trigger] known.projects[j]).id != id;
        assert(known.projects[k].id == id);
    }
}

/// The first project of this id stands under this category.
pub open spec fn stands_under_first(
    known: CatalogView,
    project: Seq<char>,
    category: Seq<char>,
) -> bool {
    exists|k: int|
        0 <= k < known.projects.len() && (#[trigger] known.projects[k]).id == project
            && known.projects[k].category == category && forall|j: int|
            0 <= j < k ==> (#[trigger] known.projects[j]).id != project
}

/// A correction is refused only for a reason: a summary or category that is blank, a confidence that is
/// no number, or a task, project or category that the catalog does not hold.
pub proof fn corrections_are_refused_for_a_reason(
    current: SessionView,
    patch: SessionPatchView,
    known: CatalogView,
    error: UpdateErrorView,
)
    requires
        corrections::updated(current, patch, known) == Err::<SessionView, UpdateErrorView>(error),
    ensures
        error is EmptySummary ==> (patch.summary matches Some(given) && as_label(given).len() == 0),
        error is EmptyCategory ==> match patch.category {
            Some(given) => as_label(given).len() == 0,
            None => current.category.len() == 0,
        },
        error is InvalidConfidence ==> {
            let given = match patch.confidence {
                Some(value) => value,
                None => current.confidence,
            };
            given >= 0x7F800000 || given <= -2139095041
        },
        error is MissingTask ==> {
            let wanted = if patch.task_id is Some {
                patch.task_id
            } else {
                current.task_id
            };
            wanted matches Some(task) && forall|k: int, m: int|
                0 <= k < known.tasks.len() && 0 <= m < known.projects.len() && (
                #[trigger] known.tasks[k]).id == task && (forall|j: int|
                    0 <= j < k ==> (#[trigger] known.tasks[j]).id != task) ==> (
                #[trigger] known.projects[m]).id != known.tasks[k].project_id
        },
        error is MissingProject ==> {
            let wanted = if patch.project_id is Some {
                patch.project_id
            } else {
                current.project_id
            };
            wanted matches Some(project) && forall|k: int|
                0 <= k < known.projects.len() ==> (#[trigger] known.projects[k]).id != project
        },
        error matches UpdateErrorView::MissingCategory(name) ==> !is_known(known, name),
{
    if let Some(given) = patch.summary {
        lemma_label(given);
    }
    if let Some(given) = patch.category {
        lemma_label(given);
    }
    if error is MissingTask {
        let task = corrections::selected_task(current, patch).unwrap();
        lookup::places_and_names_are_looked_up(known, task, task);
    } else if error is MissingProject {
        let project = corrections::selected_project(current, patch).unwrap();
        lookup::projects_are_found_by_id(known.projects, project);
    } else if let UpdateErrorView::MissingCategory(name) = error {
        lookup::categories_are_found_by_name(known.categories, name);
    }
}

/// The row is what a correction of one chosen session of the table comes to.
pub open spec fn is_corrected(
    table: Seq<SessionView>,
    ids: Seq<Seq<char>>,
    patch: SessionPatchView,
    known: CatalogView,
    row: SessionView,
) -> bool {
    exists|old: SessionView| #[trigger]
        table.contains(old) && old.id == row.id && ids.contains(old.id) && corrections::updated(
            old,
            patch,
            known,
        ) == Ok::<SessionView, UpdateErrorView>(row)
}

/// A correction of many sessions changes each as a correction of it alone does, in the order of their
/// ids, and stops at the first that is refused.
pub proof fn many_corrections_are_single_ones(
    table: Seq<SessionView>,
    ids: Seq<Seq<char>>,
    patch: SessionPatchView,
    known: CatalogView,
)
    ensures
        ids.len() == 0 ==> corrections::batch_outcome(table, ids, patch, known) == Err::<
            Seq<SessionView>,
            BatchErrorView,
        >(BatchErrorView::Empty),
        ids.len() > 500 ==> corrections::batch_outcome(table, ids, patch, known) == Err::<
            Seq<SessionView>,
            BatchErrorView,
        >(BatchErrorView::TooMany),
        corrections::batch_outcome(table, ids, patch, known) matches Ok(rows) ==> {
            &&& 0 < ids.len() <= 500
            &&& forall|k: int|
                0 <= k < rows.len() ==> is_corrected(
            table,
            ids,
            patch,
            known,
            #[trigger] rows[k],
        )
            &&& forall|id: Seq<char>| #[trigger]
                ids.contains(id) ==> exists|k: int|
                    0 <= k < rows.len() && (#[trigger] rows[k]).id == id
        },
{
    if corrections::batch_outcome(table, ids, patch, known) is Ok {
        lemma_batch(
            table,
            ids,
            patch,
            known,
            corrections::batch_outcome(table, ids, patch, known)->Ok_0,
        );
    }
}

proof fn lemma_batch(
    table: Seq<SessionView>,
    ids: Seq<Seq<char>>,
    patch: SessionPatchView,
    known: CatalogView,
    rows: Seq<SessionView>,
)
    requires
        corrections::batch_outcome(table, ids, patch, known) == Ok::<
            Seq<SessionView>,
            BatchErrorView,
        >(rows),
    ensures
        0 < ids.len() <= 500,
        forall|k: int|
            0 <= k < rows.len() ==> is_corrected(
            table,
            ids,
            patch,
            known,
            #[trigger] rows[k],
        ),
        forall|id: Seq<char>| #[trigger]
            ids.contains(id) ==> exists|k: int|
                0 <= k < rows.len() && (#[trigger] rows[k]).id == id,
{
    let wanted = text::distinct(ids);
    let chosen = sessions::chosen(table, wanted);
    text::lemma_distinct(ids);
    sessions::lemma_no_missing(table, wanted);
    assert(chosen.len() == wanted.len() && rows.len() == chosen.len());
    assert forall|k: int| 0 <= k < rows.len() implies is_corrected(
            table,
            ids,
            patch,
            known,
            #[trigger] rows[k],
        ) by {
        corrections::only_chosen_sessions_are_changed(table, ids, patch, known, k);
        lookup::sessions_are_found_by_id(table, wanted[k]);
        assert(sessions::find(table, wanted[k]) is Some);
        let old = chosen[k];
        lemma_none_refused(chosen, patch, known, k);
        assert(table.contains(old));
    }
    assert forall|id: Seq<char>| #[trigger] ids.contains(id) implies exists|k: int|
        0 <= k < rows.len() && (#[trigger] rows[k]).id == id by {
        assert(wanted.contains(id));
        let k = choose|k: int| 0 <= k < wanted.len() && wanted[k] == id;
        corrections::only_chosen_sessions_are_changed(table, ids, patch, known, k);
        assert(rows[k].id == id);
    }
}

proof fn lemma_none_refused(
    rows: Seq<SessionView>,
    patch: SessionPatchView,
    known: CatalogView,
    k: int,
)
    requires
        corrections::first_refusal(rows, patch, known) is None,
        0 <= k < rows.len(),
    ensures
        corrections::updated(rows[k], patch, known) is Ok,
    decreases rows.len(),
{
    if k < rows.len() - 1 {
        lemma_none_refused(rows.drop_last(), patch, known, k);
    }
}

/// A review of the analysis service leaves time away alone; everything else takes its patch and its
/// evidence, is marked as reviewed and waits for the user.
pub proof fn reviews_take_their_patch(
    current: SessionView,
    patch: SessionPatchView,
    evidence: Seq<EvidenceView>,
    settings: SettingsView,
    known: CatalogView,
)
    ensures
        sessions::idle(current, settings) ==> corrections::reviewed(
            current,
            patch,
            evidence,
            settings,
            known,
        ) == Ok::<SessionView, UpdateErrorView>(current),
        !sessions::idle(current, settings) ==> match corrections::updated(current, patch, known) {
            Ok(session) => corrections::reviewed(current, patch, evidence, settings, known) matches Ok(
                after,
            ) && after.evidence == evidence && after.source == "ai-review"@
                && !after.user_confirmed && after.id == current.id && after.started_at
                == current.started_at && after.ended_at == current.ended_at && after.project_id
                == session.project_id && after.task_id == session.task_id && after.category
                == session.category && after.summary == session.summary && after.confidence
                == session.confidence,
            Err(error) => corrections::reviewed(current, patch, evidence, settings, known) == Err::<
                SessionView,
                UpdateErrorView,
            >(error),
        },
{
}

/// A session that is entered by hand lasts from and to the moments given, written in whole seconds of
/// UTC, stands under the task that was named and its project and category, and is confirmed.
pub proof fn manual_sessions_are_what_was_entered(
    started_at: Seq<char>,
    ended_at: Seq<char>,
    patch: SessionPatchView,
    table: Seq<SessionView>,
    known: CatalogView,
    id: Seq<char>,
    made: SessionView,
)
    requires
        undo::manual_outcome(started_at, ended_at, patch, table, known, id) == Ok::<
            SessionView,
            ManualError,
        >(made),
    ensures
        made.id == id,
        clock::moment_of(started_at) matches Some(start) && made.started_at == clock::rfc3339_text(
            start.seconds,
            start.nanos,
        ),
        clock::moment_of(ended_at) matches Some(end) && made.ended_at == clock::rfc3339_text(
            end.seconds,
            end.nanos,
        ),
        clock::elapsed(
            clock::moment_of(started_at).unwrap(),
            clock::moment_of(ended_at).unwrap(),
        ) >= 5_000_000_000,
        patch.task_id matches Some(task) && made.task_id == Some(as_label(task)),
        made.project_id matches Some(project) && belongs_to(known, made.task_id.unwrap(), project)
            && stands_under(known, project, made.category),
        patch.summary matches Some(given) ==> as_label(given).len() > 0 ==> made.summary
            == as_label(given),
        patch.summary is None ==> made.summary == "手动补录"@,
        patch.confidence is None ==> made.confidence == 0x3F800000,
        patch.confidence matches Some(given) ==> 0 <= given <= 0x3F800000 ==> made.confidence
            == given,
        made.user_confirmed,
        made.source == "manual-entry"@,
        made.evidence.len() == 1,
        made.evidence[0].kind == "manual"@,
{
    lemma_label(patch.task_id.unwrap());
    if let Some(given) = patch.summary {
        lemma_label(given);
    }
    let task = made.task_id.unwrap();
    lookup::places_and_names_are_looked_up(known, task, task);
    let place = made.project_id.unwrap();
    let (k, m) = choose|k: int, m: int|
        0 <= k < known.tasks.len() && 0 <= m < known.projects.len() && (#[trigger] known.tasks[k]).id
            == task && known.tasks[k].project_id == place && (#[trigger] known.projects[m]).id
            == place && known.projects[m].category == made.category;
    assert(belongs_to(known, task, place));
    assert(stands_under(known, place, made.category));
}

/// A session is entered by hand whenever its times can be read, it lasts long enough, its task is known
/// and its time is free; otherwise the reason is told.
pub proof fn manual_sessions_are_refused_for_a_reason(
    started_at: Seq<char>,
    ended_at: Seq<char>,
    patch: SessionPatchView,
    table: Seq<SessionView>,
    known: CatalogView,
    id: Seq<char>,
    error: ManualError,
)
    requires
        undo::manual_outcome(started_at, ended_at, patch, table, known, id) == Err::<
            SessionView,
            ManualError,
        >(error),
    ensures
        error is InvalidStart ==> clock::moment_of(started_at) is None,
        error is InvalidEnd ==> clock::moment_of(ended_at) is None,
        error is TooShort ==> clock::elapsed(
            clock::moment_of(started_at).unwrap(),
            clock::moment_of(ended_at).unwrap(),
        ) < 5_000_000_000,
        error is NoTask ==> match patch.task_id {
            Some(task) => as_label(task).len() == 0,
            None => true,
        },
        error is InvalidConfidence ==> (patch.confidence matches Some(given) && (given >= 0x7F800000
            || given <= -2139095041)),
        error is MissingTask ==> (patch.task_id matches Some(task) && forall|k: int, m: int|
            0 <= k < known.tasks.len() && 0 <= m < known.projects.len() && (
            #[trigger] known.tasks[k]).id == as_label(task) && (forall|j: int|
                0 <= j < k ==> (#[trigger] known.tasks[j]).id != as_label(task)) ==> (
            #[trigger] known.projects[m]).id != known.tasks[k].project_id),
        error is Overlap ==> exists|i: int|
            0 <= i < table.len() && undo::meets_span(
                #[trigger] table[i],
                clock::rfc3339_text(
                    clock::moment_of(started_at).unwrap().seconds,
                    clock::moment_of(started_at).unwrap().nanos,
                ),
                clock::rfc3339_text(
                    clock::moment_of(ended_at).unwrap().seconds,
                    clock::moment_of(ended_at).unwrap().nanos,
                ),
            ),
{
    if let Some(task) = patch.task_id {
        lemma_label(task);
        lookup::places_and_names_are_looked_up(known, as_label(task), as_label(task));
    }
}

/// Two spans of time meet where each begins before the other ends.
pub proof fn spans_meet_where_they_share_time(
    row: SessionView,
    started_at: Seq<char>,
    ended_at: Seq<char>,
)
    ensures
        undo::meets_span(row, started_at, ended_at) <==> (clock::moment_of(
            row.started_at,
        ) matches Some(begin) && clock::moment_of(row.ended_at) matches Some(end)
            && clock::moment_of(started_at) matches Some(from) && clock::moment_of(
            ended_at,
        ) matches Some(to) && (begin.seconds < to.seconds || (begin.seconds == to.seconds
            && begin.nanos < to.nanos)) && (from.seconds < end.seconds || (from.seconds
            == end.seconds && from.nanos < end.nanos))),
{
}

} // verus!
