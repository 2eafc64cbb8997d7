//! Promises of categories, projects, tasks and pins.
use vstd::prelude::*;

use crate::clock;
use crate::clock::Moment;
use crate::hierarchy;
use crate::hierarchy::{HierarchyError, RenamedView, UpdatedView};
use crate::laws::correcting;
use crate::laws::times;
use crate::ledger;
use crate::ledger::LedgerView;
use crate::lists;
use crate::models::{Project, ProjectView, SettingsView, Task, TaskView};
use crate::sync;
use crate::sync::{SyncCategory, SyncCategoryView, TombstoneRow, TombstoneView};
use crate::text;

verus! {

broadcast use vstd::seq_lib::group_seq_properties;

/// Some category has this name.
pub open spec fn has_category(records: LedgerView, name: Seq<char>) -> bool {
    exists|k: int|
        0 <= k < records.categories.len() && (#[trigger] records.categories[k]).name == name
}

/// Some project has this id.
pub open spec fn has_project(records: LedgerView, id: Seq<char>) -> bool {
    exists|k: int| 0 <= k < records.projects.len() && (#[trigger] records.projects[k]).id == id
}

/// Some task has this id.
pub open spec fn has_task(records: LedgerView, id: Seq<char>) -> bool {
    exists|k: int| 0 <= k < records.tasks.len() && (#[trigger] records.tasks[k]).id == id
}

/// Some project of the category has this name.
pub open spec fn has_project_named(
    records: LedgerView,
    name: Seq<char>,
    category: Seq<char>,
) -> bool {
    exists|k: int|
        0 <= k < records.projects.len() && (#[trigger] records.projects[k]).name == name
            && records.projects[k].category == category
}

/// Some task of the project has this title.
pub open spec fn has_task_titled(
    records: LedgerView,
    project: Seq<char>,
    title: Seq<char>,
) -> bool {
    exists|k: int|
        0 <= k < records.tasks.len() && (#[trigger] records.tasks[k]).project_id == project
            && records.tasks[k].title == title
}

proof fn lemma_rows(records: LedgerView, name: Seq<char>, project: Seq<char>, task: Seq<char>)
    ensures
        hierarchy::category_row(records.categories, name) is Some <==> has_category(records, name),
        hierarchy::category_row(records.categories, name) matches Some(row) ==> row.name == name
            && records.categories.contains(row),
        hierarchy::project_row(records.projects, project) is Some <==> has_project(records, project),
        hierarchy::project_row(records.projects, project) matches Some(row) ==> row.id == project
            && records.projects.contains(row),
        hierarchy::task_row(records.tasks, task) is Some <==> has_task(records, task),
        hierarchy::task_row(records.tasks, task) matches Some(row) ==> row.id == task
            && records.tasks.contains(row),
{
    sync::lemma_spot::<SyncCategory>(records.categories, name);
    sync::lemma_spot::<Project>(records.projects, project);
    sync::lemma_spot::<Task>(records.tasks, task);
    let c = sync::spot::<SyncCategory>(records.categories, name) as int;
    let p = sync::spot::<Project>(records.projects, project) as int;
    let t = sync::spot::<Task>(records.tasks, task) as int;
    if c < records.categories.len() {
        assert(records.categories[c].name == name);
    }
    if p < records.projects.len() {
        assert(records.projects[p].id == project);
    }
    if t < records.tasks.len() {
        assert(records.tasks[t].id == task);
    }
    if has_category(records, name) {
        let k = choose|k: int|
            0 <= k < records.categories.len() && (#[trigger] records.categories[k]).name == name;
        assert(!(k < c));
    }
    if has_project(records, project) {
        let k = choose|k: int|
            0 <= k < records.projects.len() && (#[trigger] records.projects[k]).id == project;
        assert(!(k < p));
    }
    if has_task(records, task) {
        let k = choose|k: int|
            0 <= k < records.tasks.len() && (#[trigger] records.tasks[k]).id == task;
        assert(!(k < t));
    }
}

proof fn lemma_project_named(list: Seq<ProjectView>, name: Seq<char>, category: Seq<char>)
    ensures
        match hierarchy::project_named(list, name, category) {
            Some(row) => list.contains(row) && row.name == name && row.category == category,
            None => forall|k: int|
                0 <= k < list.len() ==> (#[trigger] list[k]).name != name || list[k].category
                    != category,
        },
    decreases list.len(),
{
    if list.len() > 0 && !(list[0].name == name && list[0].category == category) {
        let rest = list.drop_first();
        lemma_project_named(rest, name, category);
        match hierarchy::project_named(rest, name, category) {
            Some(row) => {
                let k = choose|k: int| 0 <= k < rest.len() && rest[k] == row;
                assert(list[k + 1] == row);
            },
            None => {
                assert forall|k: int| 0 <= k < list.len() implies (#[trigger] list[k]).name != name
                    || list[k].category != category by {
                    if k > 0 {
                        assert(rest[k - 1].name != name || rest[k - 1].category != category);
                    }
                }
            },
        }
    } else if list.len() > 0 {
        assert(list[0].name == name);
    }
}

proof fn lemma_task_titled(list: Seq<TaskView>, project: Seq<char>, title: Seq<char>)
    ensures
        match hierarchy::task_titled(list, project, title) {
            Some(row) => list.contains(row) && row.project_id == project && row.title == title,
            None => forall|k: int|
                0 <= k < list.len() ==> (#[trigger] list[k]).project_id != project || list[k].title
                    != title,
        },
    decreases list.len(),
{
    if list.len() > 0 && !(list[0].project_id == project && list[0].title == title) {
        let rest = list.drop_first();
        lemma_task_titled(rest, project, title);
        match hierarchy::task_titled(rest, project, title) {
            Some(row) => {
                let k = choose|k: int| 0 <= k < rest.len() && rest[k] == row;
                assert(list[k + 1] == row);
            },
            None => {
                assert forall|k: int| 0 <= k < list.len() implies (#[trigger] list[k]).project_id
                    != project || list[k].title != title by {
                    if k > 0 {
                        assert(rest[k - 1].project_id != project || rest[k - 1].title != title);
                    }
                }
            },
        }
    } else if list.len() > 0 {
        assert(list[0].project_id == project);
    }
}

/// The notes hold that the record was deleted at this time.
pub open spec fn is_noted(
    list: Seq<TombstoneView>,
    kind: Seq<char>,
    id: Seq<char>,
    at: Seq<char>,
) -> bool {
    exists|k: int|
        0 <= k < list.len() && (#[trigger] list[k]).entity_kind == kind && list[k].entity_id == id
            && list[k].deleted_at == at
}

/// A deletion is noted with its time: the record is among the notes afterwards, deleted at that time,
/// and all notes about other records stay as they are.
pub proof fn deletions_are_noted(
    list: Seq<TombstoneView>,
    kind: Seq<char>,
    id: Seq<char>,
    at: Seq<char>,
)
    ensures
        is_noted(hierarchy::noted(list, kind, id, at), kind, id, at),
        forall|k: int|
            0 <= k < list.len() && ((#[trigger] list[k]).entity_kind != kind || list[k].entity_id
                != id) ==> hierarchy::noted(list, kind, id, at)[k] == list[k],
        list.len() <= hierarchy::noted(list, kind, id, at).len() <= list.len() + 1,
{
    let key = sync::row_key(kind, id);
    let spot = sync::spot::<TombstoneRow>(list, key) as int;
    let after = hierarchy::noted(list, kind, id, at);
    sync::lemma_spot::<TombstoneRow>(list, key);
    if spot < list.len() {
        sync::stored_tombstones_are_told_apart(
            list[spot].entity_kind,
            list[spot].entity_id,
            kind,
            id,
        );
        assert(after[spot].entity_kind == kind);
    } else {
        assert(after[list.len() as int].entity_kind == kind);
    }
}

/// A category is made under its name, which must be new and not blank; it is the user's own.
pub proof fn categories_are_made_under_their_name(
    records: LedgerView,
    name: Seq<char>,
    at: Seq<char>,
)
    ensures
        ({
            let label = correcting::as_label(name);
            let stored = if label.len() <= 24 {
                label
            } else {
                label.take(24)
            };
            match hierarchy::created_category(records.categories, name, at) {
                Ok(made) => label.len() > 0 && !has_category(records, stored) && made.name == stored
                    && !made.is_builtin && made.created_at == at && made.updated_at == at,
                Err(HierarchyError::EmptyName) => label.len() == 0,
                Err(error) => error == HierarchyError::DuplicateCategory && has_category(
                    records,
                    stored,
                ),
            }
        }),
{
    correcting::lemma_label(name);
    lemma_rows(records, hierarchy::category_name(name), name, name);
}

/// A project is made under its name and category: the category must be there, the name must not be
/// blank, and no other project of the category may have it. It takes the colour of its category.
pub proof fn projects_are_made_under_their_name(
    records: LedgerView,
    name: Seq<char>,
    category: Seq<char>,
    id: Seq<char>,
    at: Seq<char>,
)
    ensures
        ({
            let label = correcting::as_label(name);
            let under = text::trimmed(category);
            match hierarchy::created_project(records, name, category, id, at) {
                Ok(made) => {
                    &&& label.len() > 0
                    &&& has_category(records, under)
                    &&& !has_project_named(records, label, under)
                    &&& made.id == id
                    &&& made.name == label
                    &&& made.category == under
                    &&& made.source == "manual"@
                    &&& made.created_at == at && made.updated_at == at
                    &&& made.description is None
                    &&& exists|k: int|
                        0 <= k < records.categories.len() && (#[trigger] records.categories[k]).name
                            == under && records.categories[k].color == made.color
                },
                Err(HierarchyError::EmptyName) => label.len() == 0,
                Err(HierarchyError::UnknownCategory) => !has_category(records, under),
                Err(error) => error == HierarchyError::DuplicateProject && has_project_named(
                    records,
                    label,
                    under,
                ),
            }
        }),
{
    let label = correcting::as_label(name);
    let under = text::trimmed(category);
    correcting::lemma_label(name);
    lemma_rows(records, under, id, id);
    lemma_project_named(records.projects, label, under);
    if let Some(row) = hierarchy::category_row(records.categories, under) {
        let k = choose|k: int| 0 <= k < records.categories.len() && records.categories[k] == row;
        assert(records.categories[k].name == under);
    }
    if let Some(row) = hierarchy::project_named(records.projects, label, under) {
        let k = choose|k: int| 0 <= k < records.projects.len() && records.projects[k] == row;
        assert(records.projects[k].name == label);
    }
}

/// A task is made under its title and project: the project must be there, the title must not be blank,
/// and no other task of the project may have it.
pub proof fn tasks_are_made_under_their_title(
    records: LedgerView,
    project: Seq<char>,
    title: Seq<char>,
    id: Seq<char>,
    at: Seq<char>,
)
    ensures
        ({
            let label = correcting::as_label(title);
            match hierarchy::created_task(records, project, title, id, at) {
                Ok(made) => {
                    &&& label.len() > 0
                    &&& has_project(records, project)
                    &&& !has_task_titled(records, project, label)
                    &&& made.id == id
                    &&& made.project_id == project
                    &&& made.title == label
                    &&& made.status == "active"@
                    &&& made.source == "manual"@
                    &&& made.planned_due_at is None
                    &&& made.created_at == at && made.updated_at == at
                },
                Err(HierarchyError::EmptyName) => label.len() == 0,
                Err(HierarchyError::MissingProject) => !has_project(records, project),
                Err(error) => error == HierarchyError::DuplicateTask && has_task_titled(
                    records,
                    project,
                    label,
                ),
            }
        }),
{
    let label = correcting::as_label(title);
    correcting::lemma_label(title);
    lemma_rows(records, title, project, id);
    lemma_task_titled(records.tasks, project, label);
    if let Some(row) = hierarchy::task_titled(records.tasks, project, label) {
        let k = choose|k: int| 0 <= k < records.tasks.len() && records.tasks[k] == row;
        assert(records.tasks[k].project_id == project);
    }
}

/// A renamed category stands under its new name, keeps its colour and its origin, and takes everything
/// along that stood under it; the deletion of the old name is noted. What stood elsewhere stays.
pub proof fn renaming_takes_everything_along(
    records: LedgerView,
    current: SettingsView,
    old_name: Seq<char>,
    new_name: Seq<char>,
    at: Seq<char>,
    done: RenamedView,
)
    requires
        hierarchy::renamed_category(records, current, old_name, new_name, at) == Ok::<
            RenamedView,
            HierarchyError,
        >(done),
    ensures
        ({
            let from = correcting::as_label(old_name);
            let label = correcting::as_label(new_name);
            let to = if label.len() <= 24 {
                label
            } else {
                label.take(24)
            };
            &&& from.len() > 0 && label.len() > 0
            &&& has_category(records, from)
            &&& done.category.name == to
            &&& from == to ==> done.ledger == records && done.settings is None
            &&& from != to ==> {
                &&& !has_category(records, to)
                &&& has_category(done.ledger, to)
                &&& !has_category(done.ledger, from)
                &&& forall|item: SyncCategoryView| #[trigger]
                    records.categories.contains(item) && item.name != from
                        ==> done.ledger.categories.contains(item)
                &&& done.ledger.tasks == records.tasks
                &&& done.ledger.projects.len() == records.projects.len()
                &&& forall|k: int|
                    0 <= k < records.projects.len() ==> {
                        let row = records.projects[k];
                        let left = #[trigger] done.ledger.projects[k];
                        if row.category == from {
                            left.category == to && left.updated_at == at && left.id == row.id
                                && left.name == row.name && left.color == row.color && left.source
                                == row.source && left.description == row.description
                                && left.created_at == row.created_at
                        } else {
                            left == row
                        }
                    }
                &&& done.ledger.sessions.len() == records.sessions.len()
                &&& forall|k: int|
                    0 <= k < records.sessions.len() ==> {
                        let row = records.sessions[k];
                        let left = #[trigger] done.ledger.sessions[k];
                        if row.session.category == from {
                            left.session.category == to && left.updated_at == at && left.session.id
                                == row.session.id && left.session.summary == row.session.summary
                                && left.session.started_at == row.session.started_at
                                && left.session.ended_at == row.session.ended_at
                                && left.session.project_id == row.session.project_id
                                && left.session.task_id == row.session.task_id
                                && left.session.user_confirmed == row.session.user_confirmed
                        } else {
                            left == row
                        }
                    }
                &&& done.ledger.rules.len() == records.rules.len()
                &&& forall|k: int|
                    0 <= k < records.rules.len() ==> {
                        let row = records.rules[k];
                        let left = #[trigger] done.ledger.rules[k];
                        if row.rule.category == from {
                            left.rule.category == to && left.updated_at == at && left.rule.id
                                == row.rule.id && left.rule.matcher == row.rule.matcher
                                && left.rule.project_id == row.rule.project_id && left.rule.task_id
                                == row.rule.task_id && left.rule.enabled == row.rule.enabled
                        } else {
                            left == row
                        }
                    }
                &&& done.ledger.tombstones == hierarchy::noted(
                    records.tombstones,
                    "category"@,
                    from,
                    at,
                )
                &&& current.idle_category == from ==> (done.settings matches Some(kept)
                    && kept.idle_category == to && kept.idle_project_name
                    == current.idle_project_name)
                &&& current.idle_category != from ==> done.settings is None
            }
        }),
{
    let from = correcting::as_label(old_name);
    let to = hierarchy::category_name(new_name);
    correcting::lemma_label(old_name);
    correcting::lemma_label(new_name);
    lemma_rows(records, from, from, from);
    lemma_rows(records, to, from, from);
    if from != to {
        let row = hierarchy::category_row(records.categories, from).unwrap();
        let made = SyncCategoryView { name: to, updated_at: at, ..row };
        let all = records.categories.push(made);
        let keep = |item: SyncCategoryView| item.name != row.name;
        lists::lemma_filtered(all, keep);
        assert(all[records.categories.len() as int] == made);
        assert(all.contains(made));
        assert(done.ledger.categories.contains(made));
        let k = choose|k: int|
            0 <= k < done.ledger.categories.len() && done.ledger.categories[k] == made;
        assert(done.ledger.categories[k].name == to);
        assert forall|item: SyncCategoryView| #[trigger]
            records.categories.contains(item) && item.name
                != from implies done.ledger.categories.contains(item) by {
            let m = choose|m: int| 0 <= m < records.categories.len() && records.categories[m] == item;
            assert(all[m] == item);
            assert(all.contains(item));
        }
    }
}

/// A changed project takes its name, its category and the colour of that category; its sessions and
/// rules, and those of its tasks, move with it to the category. Everything else stays.
pub proof fn changed_projects_take_their_work_along(
    records: LedgerView,
    current: SettingsView,
    id: Seq<char>,
    name: Seq<char>,
    category: Seq<char>,
    at: Seq<char>,
    done: UpdatedView,
)
    requires
        hierarchy::updated_project(records, current, id, name, category, at) == Ok::<
            UpdatedView,
            HierarchyError,
        >(done),
    ensures
        ({
            let label = correcting::as_label(name);
            let under = text::trimmed(category);
            &&& label.len() > 0 && has_project(records, id) && has_category(records, under)
            &&& done.project.id == id
            &&& done.project.name == label
            &&& done.project.category == under
            &&& done.project.updated_at == at
            &&& done.ledger.projects.contains(done.project)
            &&& done.ledger.projects.len() == records.projects.len()
            &&& forall|k: int|
                0 <= k < records.projects.len() && (#[trigger] records.projects[k]).id != id
                    ==> done.ledger.projects[k] == records.projects[k]
            &&& done.ledger.categories == records.categories
            &&& done.ledger.tasks == records.tasks
            &&& done.ledger.tombstones == records.tombstones
            &&& done.ledger.sessions.len() == records.sessions.len()
            &&& forall|k: int|
                0 <= k < records.sessions.len() ==> {
                    let row = records.sessions[k];
                    let left = #[trigger] done.ledger.sessions[k];
                    if row.session.project_id == Some(id) || (row.session.task_id matches Some(task)
                        && crate::laws::deletions::belongs(records.tasks, task, id)) {
                        left.session.category == under && left.updated_at == at && left.session.id
                            == row.session.id && left.session.project_id == row.session.project_id
                            && left.session.task_id == row.session.task_id && left.session.summary
                            == row.session.summary && left.session.started_at
                            == row.session.started_at && left.session.ended_at
                            == row.session.ended_at
                    } else {
                        left == row
                    }
                }
            &&& done.ledger.rules.len() == records.rules.len()
            &&& forall|k: int|
                0 <= k < records.rules.len() ==> {
                    let row = records.rules[k];
                    let left = #[trigger] done.ledger.rules[k];
                    if row.rule.project_id == Some(id) || (row.rule.task_id matches Some(task)
                        && crate::laws::deletions::belongs(records.tasks, task, id)) {
                        left.rule.category == under && left.updated_at == at && left.rule.id
                            == row.rule.id && left.rule.matcher == row.rule.matcher
                            && left.rule.project_id == row.rule.project_id && left.rule.task_id
                            == row.rule.task_id
                    } else {
                        left == row
                    }
                }
        }),
{
    let label = correcting::as_label(name);
    let under = text::trimmed(category);
    correcting::lemma_label(name);
    lemma_rows(records, under, id, id);
    crate::laws::deletions::lemma_tasks_of(records.tasks, id);
    let spot = sync::spot::<Project>(records.projects, id) as int;
    sync::lemma_spot::<Project>(records.projects, id);
    assert(done.ledger.projects[spot] == done.project);
}

/// A changed project whose name and category were those of time away takes time away along.
pub proof fn time_away_follows_its_project(
    records: LedgerView,
    current: SettingsView,
    id: Seq<char>,
    name: Seq<char>,
    category: Seq<char>,
    at: Seq<char>,
    done: UpdatedView,
    old: ProjectView,
)
    requires
        hierarchy::updated_project(records, current, id, name, category, at) == Ok::<
            UpdatedView,
            HierarchyError,
        >(done),
        hierarchy::project_row(records.projects, id) == Some(old),
    ensures
        current.idle_project_name == old.name && current.idle_category == old.category ==> (
        done.settings matches Some(kept) && kept.idle_project_name == done.project.name
            && kept.idle_category == done.project.category),
        current.idle_project_name != old.name || current.idle_category != old.category
            ==> done.settings is None,
{
}

/// A change of a project is refused for a reason.
pub proof fn project_changes_are_refused_for_a_reason(
    records: LedgerView,
    current: SettingsView,
    id: Seq<char>,
    name: Seq<char>,
    category: Seq<char>,
    at: Seq<char>,
    error: HierarchyError,
)
    requires
        hierarchy::updated_project(records, current, id, name, category, at) == Err::<
            UpdatedView,
            HierarchyError,
        >(error),
    ensures
        match error {
            HierarchyError::EmptyName => correcting::as_label(name).len() == 0,
            HierarchyError::MissingProject => !has_project(records, id),
            HierarchyError::UnknownCategory => !has_category(records, text::trimmed(category)),
            _ => error == HierarchyError::DuplicateProject && exists|k: int|
                0 <= k < records.projects.len() && (#[trigger] records.projects[k]).id != id
                    && records.projects[k].name == correcting::as_label(name)
                    && records.projects[k].category == text::trimmed(category),
        },
{
    correcting::lemma_label(name);
    lemma_rows(records, text::trimmed(category), id, id);
    if error == HierarchyError::DuplicateProject {
        let k = choose|k: int|
            0 <= k < records.projects.len() && (#[trigger] records.projects[k]).name
                == correcting::as_label(name) && records.projects[k].category == text::trimmed(
                category,
            ) && records.projects[k].id != id;
        assert(records.projects[k].id != id);
    }
}

/// Deleting is refused only for what is not there, for the category of time away and for the last
/// category; otherwise the deletion is noted, and everything happens that deleting means.
pub proof fn deletions_are_carried_out(
    records: LedgerView,
    current: SettingsView,
    id: Seq<char>,
    at: Seq<char>,
)
    ensures
        hierarchy::deleted_project(records, id, at) is Ok <==> has_project(records, id),
        hierarchy::deleted_project(records, id, at) matches Ok(after) ==> {
            let gone = ledger::without_project(records, id);
            &&& after.projects == gone.projects
            &&& after.tasks == gone.tasks
            &&& after.sessions == gone.sessions
            &&& after.rules == gone.rules
            &&& after.categories == gone.categories
            &&& is_noted(after.tombstones, "project"@, id, at)
        },
        hierarchy::deleted_task(records, id, at) is Ok <==> has_task(records, id),
        hierarchy::deleted_task(records, id, at) matches Ok(after) ==> {
            let gone = ledger::without_task(records, id);
            &&& after.projects == gone.projects
            &&& after.tasks == gone.tasks
            &&& after.sessions == gone.sessions
            &&& after.rules == gone.rules
            &&& after.categories == gone.categories
            &&& is_noted(after.tombstones, "task"@, id, at)
        },
        match hierarchy::deleted_category(records, current, id, at) {
            Ok((after, heir_name)) => {
                let name = correcting::as_label(id);
                &&& has_category(records, name) && current.idle_category != name
                &&& ledger::stand_in(records.categories, name) matches Some(heir) && heir.name
                    == heir_name && {
                    let gone = ledger::without_category(records, name, heir, at);
                    &&& after.projects == gone.projects
                    &&& after.tasks == gone.tasks
                    &&& after.sessions == gone.sessions
                    &&& after.rules == gone.rules
                    &&& after.categories == gone.categories
                }
                &&& is_noted(after.tombstones, "category"@, name, at)
            },
            Err(HierarchyError::IdleCategory) => current.idle_category == correcting::as_label(id),
            Err(HierarchyError::MissingCategory) => !has_category(
                records,
                correcting::as_label(id),
            ),
            Err(error) => error == HierarchyError::LastCategory && forall|k: int|
                0 <= k < records.categories.len() ==> (#[trigger] records.categories[k]).name
                    == correcting::as_label(id),
        },
{
    let name = correcting::as_label(id);
    correcting::lemma_label(id);
    lemma_rows(records, name, id, id);
    let tasks = ledger::tasks_of(records.tasks, id);
    deletions_are_noted(
        hierarchy::noted_tasks(records.tombstones, tasks, at),
        "project"@,
        id,
        at,
    );
    deletions_are_noted(records.tombstones, "task"@, id, at);
    deletions_are_noted(records.tombstones, "category"@, name, at);
    crate::laws::deletions::heirs_are_chosen_well(records.categories, name);
}

/// A pin takes the project, the task of that project if one is given, and their names, and lasts as long
/// as asked, but at least five minutes and at most four hours.
pub proof fn pins_take_what_is_pinned(
    records: LedgerView,
    project: Seq<char>,
    task: Option<Seq<char>>,
    minutes: u32,
    now: Moment,
)
    requires
        times::is_plain(now),
        now.in_calendar(),
    ensures
        match hierarchy::pinned(records, project, task, minutes, now) {
            Ok(pin) => {
                &&& pin.project_id == project
                &&& pin.task_id == task
                &&& exists|k: int|
                    0 <= k < records.projects.len() && (#[trigger] records.projects[k]).id == project
                        && pin.project_name == records.projects[k].name && pin.category
                        == records.projects[k].category
                &&& task matches Some(id) ==> exists|k: int|
                    0 <= k < records.tasks.len() && (#[trigger] records.tasks[k]).id == id
                        && records.tasks[k].project_id == project && pin.task_title == Some(
                        records.tasks[k].title,
                    )
                &&& task is None ==> pin.task_title is None
                &&& exists|end: Moment|
                    pin.expires_at == #[trigger] clock::rfc3339_text(end.seconds, end.nanos)
                        && times::nanoseconds(end) - times::nanoseconds(now) == 60_000_000_000 * (
                    if minutes < 5 {
                        5int
                    } else if minutes > 240 {
                        240int
                    } else {
                        minutes as int
                    })
            },
            Err(HierarchyError::MissingProject) => !has_project(records, project),
            Err(error) => error == HierarchyError::ForeignTask && task is Some,
        },
        task is None && has_project(records, project) ==> hierarchy::pinned(
            records,
            project,
            task,
            minutes,
            now,
        ) is Ok,
{
    lemma_rows(
        records,
        project,
        project,
        match task {
            Some(id) => id,
            None => project,
        },
    );
    let seconds = 60 * crate::settings::clamped(minutes, 5, 240);
    times::shifting_counts_seconds(now, seconds as int);
    let end = clock::shifted(now, seconds as int);
    if let Ok(pin) = hierarchy::pinned(records, project, task, minutes, now) {
        assert(pin.expires_at == clock::rfc3339_text(end.seconds, end.nanos));
        let row = hierarchy::project_row(records.projects, project).unwrap();
        let k = choose|k: int| 0 <= k < records.projects.len() && records.projects[k] == row;
        assert(records.projects[k].id == project);
        if let Some(id) = task {
            let found = hierarchy::task_row(records.tasks, id).unwrap();
            let m = choose|m: int| 0 <= m < records.tasks.len() && records.tasks[m] == found;
            assert(records.tasks[m].id == id);
        }
    }
}

/// A pin of a task that belongs to the project is never refused.
pub proof fn tasks_of_a_project_can_be_pinned(
    records: LedgerView,
    project: Seq<char>,
    task: Seq<char>,
    minutes: u32,
    now: Moment,
)
    requires
        has_project(records, project),
        hierarchy::task_row(records.tasks, task) matches Some(row) && row.project_id == project,
    ensures
        hierarchy::pinned(records, project, Some(task), minutes, now) is Ok,
{
    lemma_rows(records, project, project, task);
}

/// There is a category and a project for time away once they are set up, and every unconfirmed session
/// of time away stands there, without a task. No other session changes, and confirmed ones never do.
pub proof fn time_away_has_its_place(
    records: LedgerView,
    current: SettingsView,
    fresh_id: Seq<char>,
    at: Seq<char>,
)
    ensures
        ({
            let after = hierarchy::with_idle_target(records, current, fresh_id, at);
            let id = hierarchy::idle_project(
                records.projects,
                current.idle_project_name,
                current.idle_category,
                fresh_id,
            );
            &&& has_category(after, current.idle_category)
            &&& has_project(after, id)
            &&& !has_project(records, fresh_id) ==> has_project_named(
                after,
                current.idle_project_name,
                current.idle_category,
            )
            &&& has_project_named(records, current.idle_project_name, current.idle_category)
                ==> after.projects == records.projects
            &&& after.tasks == records.tasks
            &&& after.rules == records.rules
            &&& after.tombstones == records.tombstones
            &&& forall|item: SyncCategoryView| #[trigger]
                records.categories.contains(item) ==> after.categories.contains(item)
            &&& forall|item: ProjectView| #[trigger]
                records.projects.contains(item) ==> after.projects.contains(item)
            &&& after.sessions.len() == records.sessions.len()
            &&& forall|k: int|
                0 <= k < records.sessions.len() ==> {
                    let row = records.sessions[k];
                    let left = #[trigger] after.sessions[k];
                    if !row.session.user_confirmed && (row.session.source == "collector-idle"@
                        || row.session.summary == "离开/空闲"@) {
                        left.session.project_id == Some(id) && left.session.task_id is None
                            && left.session.category == current.idle_category
                            && left.session.source == "collector-idle"@ && left.session.id
                            == row.session.id && left.session.started_at == row.session.started_at
                            && left.session.ended_at == row.session.ended_at && left.session.summary
                            == row.session.summary && left.session.evidence == row.session.evidence
                    } else {
                        left == row
                    }
                }
        }),
{
    let after = hierarchy::with_idle_target(records, current, fresh_id, at);
    let id = hierarchy::idle_project(
        records.projects,
        current.idle_project_name,
        current.idle_category,
        fresh_id,
    );
    lemma_rows(records, current.idle_category, id, id);
    lemma_project_named(records.projects, current.idle_project_name, current.idle_category);
    if has_category(records, current.idle_category) {
        let k = choose|k: int|
            0 <= k < records.categories.len() && (#[trigger] records.categories[k]).name
                == current.idle_category;
        assert(after.categories[k].name == current.idle_category);
    } else {
        assert(after.categories[records.categories.len() as int].name == current.idle_category);
    }
    if has_project(records, id) {
        let k = choose|k: int|
            0 <= k < records.projects.len() && (#[trigger] records.projects[k]).id == id;
        assert(after.projects[k].id == id);
    } else {
        assert(after.projects[records.projects.len() as int].id == id);
        assert(after.projects[records.projects.len() as int].name == current.idle_project_name);
    }
    if let Some(row) = hierarchy::project_named(
        records.projects,
        current.idle_project_name,
        current.idle_category,
    ) {
        let k = choose|k: int| 0 <= k < records.projects.len() && records.projects[k] == row;
        assert(records.projects[k].id == id);
        assert(after.projects[k].name == current.idle_project_name);
    }
    assert forall|item: SyncCategoryView| #[trigger]
        records.categories.contains(item) implies after.categories.contains(item) by {
        let k = choose|k: int| 0 <= k < records.categories.len() && records.categories[k] == item;
        assert(after.categories[k] == item);
    }
    assert forall|item: ProjectView| #[trigger]
        records.projects.contains(item) implies after.projects.contains(item) by {
        let k = choose|k: int| 0 <= k < records.projects.len() && records.projects[k] == item;
        assert(after.projects[k] == item);
    }
}

/// A project that is found or made by name is there afterwards under the id that is given, with that name
/// and category; an existing one is only marked as used, and no project is lost.
pub proof fn projects_are_found_or_made(
    records: LedgerView,
    name: Seq<char>,
    category: Seq<char>,
    source: Seq<char>,
    fresh_id: Seq<char>,
    at: Seq<char>,
)
    ensures
        ({
            let (after, id) = hierarchy::upserted_project(
                records,
                name,
                category,
                source,
                fresh_id,
                at,
            );
            let label = if correcting::as_label(name).len() > 0 {
                correcting::as_label(name)
            } else {
                "自动发现项目"@
            };
            let under = if correcting::as_label(category).len() > 0 {
                correcting::as_label(category)
            } else {
                "杂务"@
            };
            &&& after.len() == records.projects.len() + if has_project_named(
                records,
                label,
                under,
            ) {
                0
            } else {
                1int
            }
            &&& exists|k: int|
                0 <= k < after.len() && (#[trigger] after[k]).id == id && after[k].name == label
                    && after[k].category == under && after[k].updated_at == at
            &&& forall|k: int|
                0 <= k < records.projects.len() ==> (#[trigger] after[k]).id == records.projects[k].id
                    && after[k].name == records.projects[k].name && after[k].category
                    == records.projects[k].category && after[k].source == records.projects[k].source
                    && after[k].color == records.projects[k].color && (after[k].id != id
                    ==> after[k] == records.projects[k])
            &&& !has_project_named(records, label, under) ==> id == fresh_id
        }),
{
    let (after, id) = hierarchy::upserted_project(records, name, category, source, fresh_id, at);
    lemma_labels(name, "自动发现项目"@);
    lemma_labels(category, "杂务"@);
    let label = crate::settings::setting_label(name, "自动发现项目"@);
    let under = crate::settings::setting_label(category, "杂务"@);
    lemma_project_named(records.projects, label, under);
    match hierarchy::project_named(records.projects, label, under) {
        Some(row) => {
            let k = choose|k: int| 0 <= k < records.projects.len() && records.projects[k] == row;
            assert(records.projects[k].name == label);
            assert(after[k].id == id);
        },
        None => {
            assert(after[records.projects.len() as int].id == id);
        },
    }
}

proof fn lemma_labels(value: Seq<char>, fallback: Seq<char>)
    ensures
        crate::settings::setting_label(value, fallback) == if correcting::as_label(value).len() > 0 {
            correcting::as_label(value)
        } else {
            fallback
        },
{
    assert(text::one_line(text::trimmed(value)) =~= text::trimmed(value).map_values(
        |c: char| if c == '\r' || c == '\n' || c == '\t' { ' ' } else { c },
    ));
}

/// A task that is found or made by title is there afterwards under the id that is given, active, in its
/// project; nothing is made where the project is missing, and no task is lost.
pub proof fn tasks_are_found_or_made(
    records: LedgerView,
    project: Seq<char>,
    title: Seq<char>,
    source: Seq<char>,
    fresh_id: Seq<char>,
    at: Seq<char>,
)
    ensures
        ({
            let label = if correcting::as_label(title).len() > 0 {
                correcting::as_label(title)
            } else {
                "待确认活动"@
            };
            match hierarchy::upserted_task(records, project, title, source, fresh_id, at) {
                Some((after, id)) => {
                    &&& exists|k: int|
                        0 <= k < after.len() && (#[trigger] after[k]).id == id && after[k].title
                            == label && after[k].project_id == project && after[k].status
                            == "active"@ && after[k].updated_at == at
                    &&& records.tasks.len() <= after.len() <= records.tasks.len() + 1
                    &&& forall|k: int|
                        0 <= k < records.tasks.len() ==> (#[trigger] after[k]).id
                            == records.tasks[k].id && after[k].title == records.tasks[k].title
                            && after[k].project_id == records.tasks[k].project_id && (after[k].id
                            != id ==> after[k] == records.tasks[k])
                    &&& !has_task_titled(records, project, label) ==> id == fresh_id
                },
                None => !has_project(records, project) && !has_task_titled(records, project, label),
            }
        }),
{
    lemma_labels(title, "待确认活动"@);
    let label = crate::settings::setting_label(title, "待确认活动"@);
    lemma_task_titled(records.tasks, project, label);
    lemma_rows(records, project, project, project);
    if let Some((after, id)) = hierarchy::upserted_task(
        records,
        project,
        title,
        source,
        fresh_id,
        at,
    ) {
        match hierarchy::task_titled(records.tasks, project, label) {
            Some(row) => {
                let k = choose|k: int| 0 <= k < records.tasks.len() && records.tasks[k] == row;
                assert(records.tasks[k].title == label);
                assert(after[k].id == id);
            },
            None => {
                assert(after[records.tasks.len() as int].id == id);
            },
        }
    }
}

} // verus!
