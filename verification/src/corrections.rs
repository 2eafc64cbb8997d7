//! Corrections: what the user changes of sessions, and what follows from it.
use vstd::prelude::*;
use vstd::string::*;

use crate::catalog;
use crate::catalog::{Catalog, CatalogView};
use crate::labels;
use crate::models;
use crate::models::{
    AppSettings, EvidenceItem, EvidenceView, SessionPatch, SessionPatchView, SessionView, SettingsView,
    WorkSession,
};
use crate::score;
use crate::sessions;
use crate::text;

verus! {

broadcast use vstd::seq_lib::group_seq_properties;

/// Why a session cannot be changed as asked.
#[derive(Debug, PartialEq, Eq)]
pub enum UpdateError {
    EmptySummary,
    EmptyCategory,
    InvalidConfidence,
    MissingTask,
    MissingProject,
    MissingCategory(String),
}

/// What an `UpdateError` says.
pub enum UpdateErrorView {
    EmptySummary,
    EmptyCategory,
    InvalidConfidence,
    MissingTask,
    MissingProject,
    MissingCategory(Seq<char>),
}

impl View for UpdateError {
    type V = UpdateErrorView;

    open spec fn view(&self) -> UpdateErrorView {
        match self {
            UpdateError::EmptySummary => UpdateErrorView::EmptySummary,
            UpdateError::EmptyCategory => UpdateErrorView::EmptyCategory,
            UpdateError::InvalidConfidence => UpdateErrorView::InvalidConfidence,
            UpdateError::MissingTask => UpdateErrorView::MissingTask,
            UpdateError::MissingProject => UpdateErrorView::MissingProject,
            UpdateError::MissingCategory(name) => UpdateErrorView::MissingCategory(name@),
        }
    }
}

/// The patch says something about what the session is.
pub open spec fn edits_classification(patch: SessionPatchView) -> bool {
    ||| patch.summary is Some
    ||| patch.project_id is Some
    ||| patch.task_id is Some
    ||| patch.clear_project == Some(true)
    ||| patch.clear_task == Some(true)
    ||| patch.category is Some
}

/// The project that the patch selects or leaves.
pub open spec fn selected_project(current: SessionView, patch: SessionPatchView) -> Option<Seq<char>> {
    if patch.clear_project == Some(true) {
        None
    } else if patch.project_id is Some {
        patch.project_id
    } else {
        current.project_id
    }
}

/// The task that the patch selects or leaves. It does not survive a change of project.
pub open spec fn selected_task(current: SessionView, patch: SessionPatchView) -> Option<Seq<char>> {
    if patch.clear_task == Some(true) || patch.clear_project == Some(true) {
        None
    } else if patch.task_id is Some {
        patch.task_id
    } else if selected_project(current, patch) != current.project_id {
        None
    } else {
        current.task_id
    }
}

/// The summary that the patch gives or leaves.
pub open spec fn selected_summary(current: SessionView, patch: SessionPatchView) -> Seq<char> {
    match patch.summary {
        Some(given) => labels::cleaned(given),
        None => current.summary,
    }
}

/// The category that the patch gives or leaves.
pub open spec fn selected_category(current: SessionView, patch: SessionPatchView) -> Seq<char> {
    match patch.category {
        Some(given) => labels::cleaned(given),
        None => current.category,
    }
}

/// The patch moves the session to another category and selects neither project nor task in it.
pub open spec fn moves_category_alone(current: SessionView, patch: SessionPatchView) -> bool {
    patch.category is Some && patch.project_id is None && patch.task_id is None && selected_category(
        current,
        patch,
    ) != current.category
}

/// Category, project and task as one line of the hierarchy: the selected task decides, then the
/// selected project, unless only the category was chosen and the project does not stand under it.
pub open spec fn placed(
    current: SessionView,
    patch: SessionPatchView,
    catalog: CatalogView,
) -> Result<(Option<Seq<char>>, Option<Seq<char>>, Seq<char>), UpdateErrorView> {
    let moved = moves_category_alone(current, patch);
    let project = if moved {
        None
    } else {
        selected_project(current, patch)
    };
    let task = if moved {
        None
    } else {
        selected_task(current, patch)
    };
    let category = selected_category(current, patch);
    match task {
        Some(id) => match catalog::placement_of(catalog, id) {
            Some((place, under)) => Ok((Some(place), task, under)),
            None => Err(UpdateErrorView::MissingTask),
        },
        None => match project {
            Some(id) => match catalog::project_with(catalog.projects, id) {
                Some(found) => if patch.category is Some && patch.project_id is None && category
                    != found.category {
                    Ok((None, None, category))
                } else {
                    Ok((project, None, found.category))
                },
                None => Err(UpdateErrorView::MissingProject),
            },
            None => Ok((None, None, category)),
        },
    }
}

/// The session after the patch.
pub open spec fn updated(
    current: SessionView,
    patch: SessionPatchView,
    catalog: CatalogView,
) -> Result<SessionView, UpdateErrorView> {
    let confidence = match patch.confidence {
        Some(given) => given,
        None => current.confidence,
    };
    if patch.summary is Some && selected_summary(current, patch).len() == 0 {
        Err(UpdateErrorView::EmptySummary)
    } else if selected_category(current, patch).len() == 0 {
        Err(UpdateErrorView::EmptyCategory)
    } else if !score::finite(confidence) {
        Err(UpdateErrorView::InvalidConfidence)
    } else {
        match placed(current, patch, catalog) {
            Ok((project, task, category)) => if catalog::category_named(
                catalog.categories,
                category,
            ) is None {
                Err(UpdateErrorView::MissingCategory(category))
            } else {
                Ok(
                    SessionView {
                        project_id: project,
                        project_name: catalog::project_name(catalog, project),
                        task_id: task,
                        task_title: catalog::task_title(catalog, task),
                        category,
                        summary: selected_summary(current, patch),
                        confidence: score::unit_clamped(confidence),
                        user_confirmed: match patch.user_confirmed {
                            Some(confirmed) => confirmed,
                            None => true,
                        },
                        source: if edits_classification(patch) {
                            "manual-correction"@
                        } else {
                            current.source
                        },
                        ..current
                    },
                )
            },
            Err(error) => Err(error),
        }
    }
}

fn is_set(flag: Option<bool>) -> (result: bool)
    ensures
        result == (flag == Some(true)),
{
    match flag {
        Some(value) => value,
        None => false,
    }
}

fn choose_project(current: &WorkSession, patch: &SessionPatch) -> (result: Option<String>)
    ensures
        text::optional(result) == selected_project(current@, patch@),
{
    if is_set(patch.clear_project) {
        None
    } else if patch.project_id.is_some() {
        patch.project_id.clone()
    } else {
        current.project_id.clone()
    }
}

fn choose_task(current: &WorkSession, patch: &SessionPatch, project: &Option<String>) -> (result: Option<
    String,
>)
    requires
        text::optional(*project) == selected_project(current@, patch@),
    ensures
        text::optional(result) == selected_task(current@, patch@),
{
    if is_set(patch.clear_task) || is_set(patch.clear_project) {
        None
    } else if patch.task_id.is_some() {
        patch.task_id.clone()
    } else if !text::same_optional(project, &current.project_id) {
        None
    } else {
        current.task_id.clone()
    }
}

fn place(current: &WorkSession, patch: &SessionPatch, catalog: &Catalog, chosen: &str) -> (result:
    Result<(Option<String>, Option<String>, String), UpdateError>)
    requires
        chosen@ == selected_category(current@, patch@),
    ensures
        match result {
            Ok((project, task, category)) => placed(current@, patch@, catalog@) == Ok::<
                (Option<Seq<char>>, Option<Seq<char>>, Seq<char>),
                UpdateErrorView,
            >((text::optional(project), text::optional(task), category@)),
            Err(error) => placed(current@, patch@, catalog@) == Err::<
                (Option<Seq<char>>, Option<Seq<char>>, Seq<char>),
                UpdateErrorView,
            >(error@),
        },
{
    // A change of category alone means that the old project and task no longer apply.
    let moved = patch.category.is_some() && patch.project_id.is_none() && patch.task_id.is_none()
        && !text::same(chosen, current.category.as_str());
    let selected = choose_project(current, patch);
    let task = if moved {
        None
    } else {
        choose_task(current, patch, &selected)
    };
    let project = if moved {
        None
    } else {
        selected
    };
    if let Some(id) = &task {
        return match catalog::find_placement(catalog, id.as_str()) {
            Some((found, under)) => Ok((Some(found), Some(id.clone()), under)),
            None => Err(UpdateError::MissingTask),
        };
    }
    match project {
        Some(id) => match catalog::find_project(&catalog.projects, id.as_str()) {
            Some(at) => {
                let under = catalog.projects[at].category.as_str();
                if patch.category.is_some() && patch.project_id.is_none() && !text::same(
                    chosen,
                    under,
                ) {
                    Ok((None, None, chosen.to_owned()))
                } else {
                    Ok((Some(id), None, under.to_owned()))
                }
            },
            None => Err(UpdateError::MissingProject),
        },
        None => Ok((None, None, chosen.to_owned())),
    }
}

/// Changes a session as the patch asks, and keeps category, project and task consistent.
pub fn update_session(current: &WorkSession, patch: &SessionPatch, catalog: &Catalog) -> (result:
    Result<WorkSession, UpdateError>)
    ensures
        match result {
            Ok(session) => updated(current@, patch@, catalog@) == Ok::<
                SessionView,
                UpdateErrorView,
            >(session@),
            Err(error) => updated(current@, patch@, catalog@) == Err::<
                SessionView,
                UpdateErrorView,
            >(error@),
        },
{
    let summary = match &patch.summary {
        Some(given) => {
            let cleaned = labels::clean(given.as_str());
            if cleaned.as_str().is_empty() {
                return Err(UpdateError::EmptySummary);
            }
            cleaned
        },
        None => current.summary.clone(),
    };
    let chosen = match &patch.category {
        Some(given) => labels::clean(given.as_str()),
        None => current.category.clone(),
    };
    if chosen.as_str().is_empty() {
        return Err(UpdateError::EmptyCategory);
    }
    let confidence: i32 = match patch.confidence {
        Some(given) => given,
        None => current.confidence,
    };
    if !score::is_finite(confidence) {
        return Err(UpdateError::InvalidConfidence);
    }
    let (project_id, task_id, category) = match place(current, patch, catalog, chosen.as_str()) {
        Ok(found) => found,
        Err(error) => {
            return Err(error);
        },
    };
    if catalog::find_category(&catalog.categories, category.as_str()).is_none() {
        return Err(UpdateError::MissingCategory(category));
    }
    let edited = patch.summary.is_some() || patch.project_id.is_some() || patch.task_id.is_some()
        || is_set(patch.clear_project) || is_set(patch.clear_task) || patch.category.is_some();
    let project_name = catalog::name_of_project(catalog, &project_id);
    let task_title = catalog::title_of_task(catalog, &task_id);
    Ok(
        WorkSession {
            id: current.id.clone(),
            started_at: current.started_at.clone(),
            ended_at: current.ended_at.clone(),
            project_id,
            project_name,
            task_id,
            task_title,
            category,
            summary,
            confidence: score::clamp_unit(confidence),
            evidence: models::copy_evidence(&current.evidence),
            user_confirmed: match patch.user_confirmed {
                Some(confirmed) => confirmed,
                None => true,
            },
            source: if edited {
                "manual-correction".to_owned()
            } else {
                current.source.clone()
            },
        },
    )
}

/// A corrected session is one line of the hierarchy, its category exists, and its time, id and
/// evidence are what they were.
pub proof fn corrections_keep_the_hierarchy(
    current: SessionView,
    patch: SessionPatchView,
    catalog: CatalogView,
)
    requires
        updated(current, patch, catalog) is Ok,
    ensures
        ({
            let after = updated(current, patch, catalog)->Ok_0;
            &&& catalog::consistent(catalog, after.project_id, after.task_id, after.category)
            &&& catalog::category_named(catalog.categories, after.category) is Some
            &&& after.id == current.id
            &&& after.started_at == current.started_at
            &&& after.ended_at == current.ended_at
            &&& after.evidence == current.evidence
        }),
{
    let after = updated(current, patch, catalog)->Ok_0;
    if let Some(id) = after.task_id {
        let place = after.project_id.unwrap();
        assert(catalog::placement_of(catalog, id) == Some((place, after.category)));
    }
}

/// A correction leaves a confidence between zero and one and a summary that is not empty unless it
/// was.
pub proof fn corrections_are_bounded(
    current: SessionView,
    patch: SessionPatchView,
    catalog: CatalogView,
)
    requires
        updated(current, patch, catalog) is Ok,
    ensures
        ({
            let after = updated(current, patch, catalog)->Ok_0;
            &&& score::NEGATIVE_ZERO <= after.confidence <= score::ONE
            &&& patch.summary is Some ==> 1 <= after.summary.len() <= 80
        }),
{
}

/// Why a batch of sessions cannot be changed.
#[derive(Debug, PartialEq, Eq)]
pub enum BatchError {
    Empty,
    TooMany,
    Missing(String),
    /// One session is refused; those before it are changed already.
    Refused { error: UpdateError, stored: Vec<WorkSession> },
}

/// What a `BatchError` says.
pub enum BatchErrorView {
    Empty,
    TooMany,
    Missing(Seq<char>),
    Refused { error: UpdateErrorView, stored: Seq<SessionView> },
}

impl View for BatchError {
    type V = BatchErrorView;

    open spec fn view(&self) -> BatchErrorView {
        match self {
            BatchError::Empty => BatchErrorView::Empty,
            BatchError::TooMany => BatchErrorView::TooMany,
            BatchError::Missing(id) => BatchErrorView::Missing(id@),
            BatchError::Refused { error, stored } => BatchErrorView::Refused {
                error: error@,
                stored: sessions::session_views(stored@),
            },
        }
    }
}

/// The first error that the patch meets among the sessions, and how many come before it.
pub open spec fn first_refusal(
    rows: Seq<SessionView>,
    patch: SessionPatchView,
    catalog: CatalogView,
) -> Option<(nat, UpdateErrorView)>
    decreases rows.len(),
{
    if rows.len() == 0 {
        None
    } else {
        match first_refusal(rows.drop_last(), patch, catalog) {
            Some(found) => Some(found),
            None => match updated(rows.last(), patch, catalog) {
                Ok(_) => None,
                Err(error) => Some(((rows.len() - 1) as nat, error)),
            },
        }
    }
}

/// The sessions after the patch, where none is refused.
pub open spec fn all_updated(
    rows: Seq<SessionView>,
    patch: SessionPatchView,
    catalog: CatalogView,
) -> Seq<SessionView> {
    rows.map_values(|row: SessionView| updated(row, patch, catalog)->Ok_0)
}

/// What changing the sessions with the given ids comes to. Each is changed in turn, up to the
/// first that is refused.
pub open spec fn batch_outcome(
    table: Seq<SessionView>,
    ids: Seq<Seq<char>>,
    patch: SessionPatchView,
    catalog: CatalogView,
) -> Result<Seq<SessionView>, BatchErrorView> {
    let wanted = text::distinct(ids);
    let rows = sessions::chosen(table, wanted);
    if ids.len() == 0 {
        Err(BatchErrorView::Empty)
    } else if ids.len() > 500 {
        Err(BatchErrorView::TooMany)
    } else {
        match sessions::first_missing(table, wanted) {
            Some(id) => Err(BatchErrorView::Missing(id)),
            None => match first_refusal(rows, patch, catalog) {
                Some((count, error)) => Err(
                    BatchErrorView::Refused {
                        error,
                        stored: all_updated(rows.take(count as int), patch, catalog),
                    },
                ),
                None => Ok(all_updated(rows, patch, catalog)),
            },
        }
    }
}

proof fn lemma_refusal_prefix(
    rows: Seq<SessionView>,
    patch: SessionPatchView,
    catalog: CatalogView,
    n: int,
)
    requires
        0 <= n <= rows.len(),
        first_refusal(rows.take(n), patch, catalog) is Some,
    ensures
        first_refusal(rows, patch, catalog) == first_refusal(rows.take(n), patch, catalog),
    decreases rows.len(),
{
    if n < rows.len() {
        assert(rows.drop_last().take(n) =~= rows.take(n));
        lemma_refusal_prefix(rows.drop_last(), patch, catalog, n);
    } else {
        assert(rows.take(n) =~= rows);
    }
}

/// Changes the sessions with the given ids, in turn; where one is refused, those before it are
/// given with the error.
pub fn update_sessions(
    table: &Vec<WorkSession>,
    ids: &Vec<String>,
    patch: &SessionPatch,
    catalog: &Catalog,
) -> (result: Result<Vec<WorkSession>, BatchError>)
    ensures
        match result {
            Ok(rows) => batch_outcome(
                sessions::session_views(table@),
                text::texts(ids@),
                patch@,
                catalog@,
            ) == Ok::<Seq<SessionView>, BatchErrorView>(sessions::session_views(rows@)),
            Err(error) => batch_outcome(
                sessions::session_views(table@),
                text::texts(ids@),
                patch@,
                catalog@,
            ) == Err::<Seq<SessionView>, BatchErrorView>(error@),
        },
{
    assert(text::texts(ids@).len() == ids.len());
    if ids.len() == 0 {
        return Err(BatchError::Empty);
    }
    if ids.len() > 500 {
        return Err(BatchError::TooMany);
    }
    let wanted = text::unique(ids);
    let chosen = match sessions::collect_chosen(table, &wanted) {
        Ok(chosen) => chosen,
        Err(id) => {
            return Err(BatchError::Missing(id));
        },
    };
    let ghost rows = sessions::session_views(chosen@);
    let mut result: Vec<WorkSession> = Vec::new();
    let mut i: usize = 0;
    while i < chosen.len()
        invariant
            i <= chosen.len(),
            rows == sessions::session_views(chosen@),
            rows == sessions::chosen(
                sessions::session_views(table@),
                text::distinct(text::texts(ids@)),
            ),
            sessions::first_missing(
                sessions::session_views(table@),
                text::distinct(text::texts(ids@)),
            ) is None,
            0 < ids.len() <= 500,
            text::texts(ids@).len() == ids.len(),
            first_refusal(rows.take(i as int), patch@, catalog@) is None,
            sessions::session_views(result@) == all_updated(rows, patch@, catalog@).take(
                i as int,
            ),
        decreases chosen.len() - i,
    {
        assert(rows.take(i + 1).drop_last() =~= rows.take(i as int));
        assert(rows.take(i + 1).last() == chosen@[i as int]@);
        match update_session(&chosen[i], patch, catalog) {
            Ok(session) => {
                let ghost done = sessions::session_views(result@);
                result.push(session);
                assert(sessions::session_views(result@) =~= done.push(session@));
                assert(all_updated(rows, patch@, catalog@)[i as int] == session@);
            },
            Err(error) => {
                proof {
                    lemma_refusal_prefix(rows, patch@, catalog@, i + 1);
                    assert(all_updated(rows, patch@, catalog@).take(i as int) =~= all_updated(
                        rows.take(i as int),
                        patch@,
                        catalog@,
                    ));
                }
                return Err(BatchError::Refused { error, stored: result });
            },
        }
        i += 1;
    }
    assert(rows.take(chosen.len() as int) =~= rows);
    assert(all_updated(rows, patch@, catalog@).take(chosen.len() as int) =~= all_updated(
        rows,
        patch@,
        catalog@,
    ));
    Ok(result)
}

proof fn lemma_found_session(table: Seq<SessionView>, id: Seq<char>)
    ensures
        sessions::find(table, id) matches Some(row) ==> row.id == id,
    decreases table.len(),
{
    if table.len() > 0 && table[0].id != id {
        lemma_found_session(table.drop_first(), id);
    }
}

/// A correction changes the chosen sessions alone, each of them once and in the order of their ids.
pub proof fn only_chosen_sessions_are_changed(
    table: Seq<SessionView>,
    ids: Seq<Seq<char>>,
    patch: SessionPatchView,
    catalog: CatalogView,
    k: int,
)
    requires
        batch_outcome(table, ids, patch, catalog) matches Ok(rows) && 0 <= k < rows.len(),
    ensures
        ({
            let rows = batch_outcome(table, ids, patch, catalog)->Ok_0;
            &&& rows.len() == text::distinct(ids).len()
            &&& rows[k].id == text::distinct(ids)[k]
            &&& ids.contains(rows[k].id)
        }),
{
    let wanted = text::distinct(ids);
    let rows = sessions::chosen(table, wanted);
    text::lemma_distinct(ids);
    sessions::lemma_no_missing(table, wanted);
    lemma_found_session(table, wanted[k]);
    assert(wanted.contains(wanted[k]));
    assert(sessions::find(table, wanted[k]) is Some);
    lemma_none_refused(rows, patch, catalog, k);
    corrections_keep_the_hierarchy(rows[k], patch, catalog);
}

proof fn lemma_none_refused(
    rows: Seq<SessionView>,
    patch: SessionPatchView,
    catalog: CatalogView,
    k: int,
)
    requires
        first_refusal(rows, patch, catalog) is None,
        0 <= k < rows.len(),
    ensures
        updated(rows[k], patch, catalog) is Ok,
    decreases rows.len(),
{
    if k < rows.len() - 1 {
        lemma_none_refused(rows.drop_last(), patch, catalog, k);
    }
}

/// The label under which a correction can be taken back.
pub open spec fn correction_name(count: nat, summary: Option<Seq<char>>) -> Seq<char> {
    if count > 1 {
        "统一修正 "@ + text::decimal(count) + " 个时间段"@
    } else {
        "修正“"@ + text::prefix_of(
            match summary {
                Some(given) => given,
                None => "时间段"@,
            },
            32,
        ) + "”"@
    }
}

/// Names a correction of `count` sessions, the first of which has the given summary.
pub fn correction_label(count: usize, summary: &Option<String>) -> (result: String)
    ensures
        result@ == correction_name(count as nat, text::optional(*summary)),
{
    if count > 1 {
        let mut label = text::joined("统一修正 ", text::number_text(count as u64).as_str());
        label.append(" 个时间段");
        label
    } else {
        let name = match summary {
            Some(given) => text::take_chars(given.as_str(), 32),
            None => text::take_chars("时间段", 32),
        };
        let mut label = text::joined("修正“", name.as_str());
        label.append("”");
        label
    }
}

/// The session after a review by the analysis service: time away is left alone, everything else takes
/// the patch and the new evidence and stays unconfirmed.
pub open spec fn reviewed(
    current: SessionView,
    patch: SessionPatchView,
    evidence: Seq<EvidenceView>,
    settings: SettingsView,
    catalog: CatalogView,
) -> Result<SessionView, UpdateErrorView> {
    if sessions::idle(current, settings) {
        Ok(current)
    } else {
        match updated(current, patch, catalog) {
            Ok(session) => Ok(
                SessionView {
                    evidence,
                    source: "ai-review"@,
                    user_confirmed: false,
                    ..session
                },
            ),
            Err(error) => Err(error),
        }
    }
}

/// Applies a review of the analysis service to a session.
pub fn apply_ai_review(
    current: &WorkSession,
    patch: &SessionPatch,
    evidence: Vec<EvidenceItem>,
    settings: &AppSettings,
    catalog: &Catalog,
) -> (result: Result<WorkSession, UpdateError>)
    ensures
        match result {
            Ok(session) => reviewed(
                current@,
                patch@,
                models::evidence_views(evidence@),
                settings@,
                catalog@,
            ) == Ok::<SessionView, UpdateErrorView>(session@),
            Err(error) => reviewed(
                current@,
                patch@,
                models::evidence_views(evidence@),
                settings@,
                catalog@,
            ) == Err::<SessionView, UpdateErrorView>(error@),
        },
{
    if sessions::is_idle_session(current, settings) {
        return Ok(current.copy());
    }
    match update_session(current, patch, catalog) {
        Ok(session) => {
            let mut after = session;
            after.evidence = evidence;
            after.source = "ai-review".to_owned();
            after.user_confirmed = false;
            Ok(after)
        },
        Err(error) => Err(error),
    }
}

/// A review never changes time away and never confirms anything on the user's behalf.
pub proof fn reviews_respect_idle_time_and_confirmation(
    current: SessionView,
    patch: SessionPatchView,
    evidence: Seq<EvidenceView>,
    settings: SettingsView,
    catalog: CatalogView,
)
    ensures
        sessions::idle(current, settings) ==> reviewed(
            current,
            patch,
            evidence,
            settings,
            catalog,
        ) == Ok::<SessionView, UpdateErrorView>(current),
        !sessions::idle(current, settings) ==> (reviewed(
            current,
            patch,
            evidence,
            settings,
            catalog,
        ) matches Ok(after) ==> !after.user_confirmed && after.source == "ai-review"@),
{
}

} // verus!
