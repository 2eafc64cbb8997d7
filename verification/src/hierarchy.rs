//! Creating, renaming and deleting categories, projects and tasks.
use vstd::prelude::*;
use vstd::string::*;

use crate::attribution;
use crate::clock;
use crate::clock::Moment;
use crate::labels;
use crate::ledger;
use crate::ledger::{Ledger, LedgerView};
use crate::models::{
    AppSettings, CategoryOption, CategoryView, ContextPin, ContextPinView, Project, ProjectView,
    SessionView, SettingsView, Task, TaskView, DEFAULT_CATEGORIES,
};
use crate::settings;
use crate::sync;
use crate::sync::{
    Record, SyncCategory, SyncCategoryView, SyncRuleView, SyncSession, SyncSessionView,
    SyncTombstone, TombstoneRow, TombstoneView,
};
use crate::text;

verus! {

broadcast use vstd::seq_lib::group_seq_properties;

/// Why the hierarchy cannot be changed that way.
#[derive(Clone, Copy, Debug, PartialEq, Eq, Structural)]
pub enum HierarchyError {
    EmptyName,
    DuplicateCategory,
    MissingCategory,
    /// Time away goes to this category.
    IdleCategory,
    LastCategory,
    UnknownCategory,
    DuplicateProject,
    MissingProject,
    DuplicateTask,
    MissingTask,
    ForeignTask,
}

/// The category of this name.
pub open spec fn category_row(list: Seq<SyncCategoryView>, name: Seq<char>) -> Option<
    SyncCategoryView,
> {
    let at = sync::spot::<SyncCategory>(list, name) as int;
    if at < list.len() {
        Some(list[at])
    } else {
        None
    }
}

/// The project of this id.
pub open spec fn project_row(list: Seq<ProjectView>, id: Seq<char>) -> Option<ProjectView> {
    let at = sync::spot::<Project>(list, id) as int;
    if at < list.len() {
        Some(list[at])
    } else {
        None
    }
}

/// The task of this id.
pub open spec fn task_row(list: Seq<TaskView>, id: Seq<char>) -> Option<TaskView> {
    let at = sync::spot::<Task>(list, id) as int;
    if at < list.len() {
        Some(list[at])
    } else {
        None
    }
}

/// The first project of this name and category.
pub open spec fn project_named(
    list: Seq<ProjectView>,
    name: Seq<char>,
    category: Seq<char>,
) -> Option<ProjectView>
    decreases list.len(),
{
    if list.len() == 0 {
        None
    } else if list[0].name == name && list[0].category == category {
        Some(list[0])
    } else {
        project_named(list.drop_first(), name, category)
    }
}

fn find_project_named(
    list: &Vec<Project>,
    name: &str,
    category: &str,
) -> (result: Option<usize>)
    ensures
        match result {
            Some(at) => at < list.len() && project_named(
                sync::record_views(list@),
                name@,
                category@,
            ) == Some(list@[at as int]@) && list@[at as int].name@ == name@
                && list@[at as int].category@ == category@,
            None => project_named(sync::record_views(list@), name@, category@) is None,
        },
{
    let ghost views = sync::record_views(list@);
    let mut i: usize = 0;
    assert(views.skip(0) =~= views);
    while i < list.len()
        invariant
            i <= list.len(),
            views == sync::record_views(list@),
            project_named(views, name@, category@) == project_named(
                views.skip(i as int),
                name@,
                category@,
            ),
        decreases list.len() - i,
    {
        assert(views.skip(i as int)[0] == list@[i as int]@);
        if text::same(list[i].name.as_str(), name) && text::same(
            list[i].category.as_str(),
            category,
        ) {
            return Some(i);
        }
        assert(views.skip(i as int).drop_first() =~= views.skip(i + 1));
        i += 1;
    }
    None
}

/// Another project has this name and category.
pub open spec fn name_is_taken(
    list: Seq<ProjectView>,
    name: Seq<char>,
    category: Seq<char>,
    id: Seq<char>,
) -> bool {
    exists|k: int|
        0 <= k < list.len() && (#[trigger] list[k]).name == name && list[k].category == category
            && list[k].id != id
}

fn is_name_taken(list: &Vec<Project>, name: &str, category: &str, id: &str) -> (result: bool)
    ensures
        result == name_is_taken(sync::record_views(list@), name@, category@, id@),
{
    let ghost views = sync::record_views(list@);
    let mut i: usize = 0;
    while i < list.len()
        invariant
            i <= list.len(),
            views == sync::record_views(list@),
            forall|k: int|
                0 <= k < i ==> !((#[trigger] views[k]).name == name@ && views[k].category
                    == category@ && views[k].id != id@),
        decreases list.len() - i,
    {
        assert(views[i as int] == list@[i as int]@);
        if text::same(list[i].name.as_str(), name) && text::same(
            list[i].category.as_str(),
            category,
        ) && !text::same(list[i].id.as_str(), id) {
            return true;
        }
        i += 1;
    }
    false
}

/// The first task of this title in the project.
pub open spec fn task_titled(
    list: Seq<TaskView>,
    project_id: Seq<char>,
    title: Seq<char>,
) -> Option<TaskView>
    decreases list.len(),
{
    if list.len() == 0 {
        None
    } else if list[0].project_id == project_id && list[0].title == title {
        Some(list[0])
    } else {
        task_titled(list.drop_first(), project_id, title)
    }
}

fn find_task_titled(list: &Vec<Task>, project_id: &str, title: &str) -> (result: Option<usize>)
    ensures
        match result {
            Some(at) => at < list.len() && task_titled(
                sync::record_views(list@),
                project_id@,
                title@,
            ) == Some(list@[at as int]@),
            None => task_titled(sync::record_views(list@), project_id@, title@) is None,
        },
{
    let ghost views = sync::record_views(list@);
    let mut i: usize = 0;
    assert(views.skip(0) =~= views);
    while i < list.len()
        invariant
            i <= list.len(),
            views == sync::record_views(list@),
            task_titled(views, project_id@, title@) == task_titled(
                views.skip(i as int),
                project_id@,
                title@,
            ),
        decreases list.len() - i,
    {
        assert(views.skip(i as int)[0] == list@[i as int]@);
        if text::same(list[i].project_id.as_str(), project_id) && text::same(
            list[i].title.as_str(),
            title,
        ) {
            return Some(i);
        }
        assert(views.skip(i as int).drop_first() =~= views.skip(i + 1));
        i += 1;
    }
    None
}

/// The tombstones with a deletion noted.
pub open spec fn noted(
    list: Seq<TombstoneView>,
    kind: Seq<char>,
    id: Seq<char>,
    at: Seq<char>,
) -> Seq<TombstoneView> {
    let spot = sync::spot::<TombstoneRow>(list, sync::row_key(kind, id)) as int;
    if spot < list.len() {
        list.update(spot, TombstoneView { deleted_at: at, ..list[spot] })
    } else {
        list.push(
            TombstoneView {
                entity_kind: kind,
                entity_id: id,
                deleted_at: at,
                device_id: Seq::empty(),
            },
        )
    }
}

/// Notes that a record was deleted.
pub fn record_tombstone(list: &mut Vec<SyncTombstone>, kind: &str, id: &str, at: &str)
    ensures
        sync::record_views(final(list)@) == noted(
            sync::record_views(old(list)@),
            kind@,
            id@,
            at@,
        ),
{
    let ghost before = sync::record_views(list@);
    let spot: usize = sync::find_tombstone(list, kind, id);
    if spot < list.len() {
        let known = &list[spot];
        let next = SyncTombstone {
            entity_kind: known.entity_kind.clone(),
            entity_id: known.entity_id.clone(),
            deleted_at: at.to_owned(),
            device_id: known.device_id.clone(),
        };
        let ghost view = next@;
        list.set(spot, next);
        assert(sync::record_views(list@) =~= before.update(spot as int, view));
    } else {
        let next = SyncTombstone {
            entity_kind: kind.to_owned(),
            entity_id: id.to_owned(),
            deleted_at: at.to_owned(),
            device_id: String::new(),
        };
        let ghost view = next@;
        list.push(next);
        assert(sync::record_views(list@) =~= before.push(view));
    }
}

/// The tombstones with the deletion of these tasks noted.
pub open spec fn noted_tasks(
    list: Seq<TombstoneView>,
    tasks: Seq<Seq<char>>,
    at: Seq<char>,
) -> Seq<TombstoneView>
    decreases tasks.len(),
{
    if tasks.len() == 0 {
        list
    } else {
        noted(noted_tasks(list, tasks.drop_last(), at), "task"@, tasks.last(), at)
    }
}

/// At most so long is the name of a category.
pub const CATEGORY_NAME_CHARS: usize = 24;

/// The name of a category as it is stored.
pub open spec fn category_name(name: Seq<char>) -> Seq<char> {
    text::prefix_of(labels::cleaned(name), CATEGORY_NAME_CHARS as nat)
}

fn clean_category_name(name: &str) -> (result: String)
    ensures
        result@ == category_name(name@),
{
    let cleaned = labels::clean(name);
    text::take_chars(cleaned.as_str(), CATEGORY_NAME_CHARS)
}

/// A category that the user made.
pub open spec fn made_category(name: Seq<char>, at: Seq<char>) -> SyncCategoryView {
    SyncCategoryView {
        name,
        color: labels::palette(labels::color_index(vstd::utf8::encode_utf8(name))),
        is_builtin: false,
        created_at: at,
        updated_at: at,
    }
}

/// What creating a category comes to.
pub open spec fn created_category(
    list: Seq<SyncCategoryView>,
    name: Seq<char>,
    at: Seq<char>,
) -> Result<SyncCategoryView, HierarchyError> {
    if labels::cleaned(name).len() == 0 {
        Err(HierarchyError::EmptyName)
    } else if category_row(list, category_name(name)) is Some {
        Err(HierarchyError::DuplicateCategory)
    } else {
        Ok(made_category(category_name(name), at))
    }
}

/// Creates a category.
pub fn create_category(
    list: &Vec<SyncCategory>,
    name: &str,
    at: &str,
) -> (result: Result<SyncCategory, HierarchyError>)
    ensures
        match result {
            Ok(made) => created_category(sync::record_views(list@), name@, at@) == Ok::<
                SyncCategoryView,
                HierarchyError,
            >(made@),
            Err(error) => created_category(sync::record_views(list@), name@, at@) == Err::<
                SyncCategoryView,
                HierarchyError,
            >(error),
        },
{
    let cleaned = labels::clean(name);
    if cleaned.as_str().is_empty() {
        return Err(HierarchyError::EmptyName);
    }
    let stored = clean_category_name(name);
    if sync::find_record(list, stored.as_str()) < list.len() {
        return Err(HierarchyError::DuplicateCategory);
    }
    let color = labels::custom_category_color(stored.as_str()).to_owned();
    Ok(
        SyncCategory {
            name: stored,
            color,
            is_builtin: false,
            created_at: at.to_owned(),
            updated_at: at.to_owned(),
        },
    )
}

/// What renaming a category leaves: the records, the category as it is now, and the settings where
/// they change.
#[derive(Debug, PartialEq, Eq)]
pub struct Renamed {
    pub ledger: Ledger,
    pub category: CategoryOption,
    pub settings: Option<AppSettings>,
}

/// What `Renamed` holds.
#[verifier::ext_equal]
pub struct RenamedView {
    pub ledger: LedgerView,
    pub category: CategoryView,
    pub settings: Option<SettingsView>,
}

pub open spec fn optional_settings(value: Option<AppSettings>) -> Option<SettingsView> {
    match value {
        Some(inner) => Some(inner@),
        None => None,
    }
}

impl View for Renamed {
    type V = RenamedView;

    open spec fn view(&self) -> RenamedView {
        RenamedView {
            ledger: self.ledger@,
            category: self.category@,
            settings: optional_settings(self.settings),
        }
    }
}

pub open spec fn shown(row: SyncCategoryView) -> CategoryView {
    CategoryView { name: row.name, color: row.color, is_builtin: row.is_builtin }
}

/// The records with a category under another name.
pub open spec fn with_new_name(
    records: LedgerView,
    row: SyncCategoryView,
    name: Seq<char>,
    at: Seq<char>,
) -> LedgerView {
    LedgerView {
        categories: ledger::categories_without(
            records.categories.push(SyncCategoryView { name, updated_at: at, ..row }),
            row.name,
        ),
        projects: ledger::projects_moved(records.projects, row.name, name, None, at),
        sessions: ledger::sessions_moved(records.sessions, row.name, name, at),
        rules: ledger::rules_moved(records.rules, row.name, name, at),
        tombstones: noted(records.tombstones, "category"@, row.name, at),
        ..records
    }
}

/// What renaming a category comes to; `current` are the normal settings.
pub open spec fn renamed_category(
    records: LedgerView,
    current: SettingsView,
    old_name: Seq<char>,
    new_name: Seq<char>,
    at: Seq<char>,
) -> Result<RenamedView, HierarchyError> {
    let from = labels::cleaned(old_name);
    let to = category_name(new_name);
    if from.len() == 0 || labels::cleaned(new_name).len() == 0 {
        Err(HierarchyError::EmptyName)
    } else {
        match category_row(records.categories, from) {
            None => Err(HierarchyError::MissingCategory),
            Some(row) => if from == to {
                Ok(RenamedView { ledger: records, category: shown(row), settings: None })
            } else if category_row(records.categories, to) is Some {
                Err(HierarchyError::DuplicateCategory)
            } else {
                Ok(
                    RenamedView {
                        ledger: with_new_name(records, row, to, at),
                        category: CategoryView { name: to, ..shown(row) },
                        settings: if current.idle_category == from {
                            Some(SettingsView { idle_category: to, ..current })
                        } else {
                            None
                        },
                    },
                )
            },
        }
    }
}

/// Renames a category, with everything that stands under it.
pub fn rename_category(
    records: Ledger,
    current: AppSettings,
    old_name: &str,
    new_name: &str,
    at: &str,
) -> (result: Result<Renamed, HierarchyError>)
    ensures
        match result {
            Ok(renamed) => renamed_category(
                records@,
                settings::normal(current@),
                old_name@,
                new_name@,
                at@,
            ) == Ok::<RenamedView, HierarchyError>(renamed@),
            Err(error) => renamed_category(
                records@,
                settings::normal(current@),
                old_name@,
                new_name@,
                at@,
            ) == Err::<RenamedView, HierarchyError>(error),
        },
{
    let from = labels::clean(old_name);
    let cleaned = labels::clean(new_name);
    if from.as_str().is_empty() || cleaned.as_str().is_empty() {
        return Err(HierarchyError::EmptyName);
    }
    let to = clean_category_name(new_name);
    let found: usize = sync::find_record(&records.categories, from.as_str());
    if found >= records.categories.len() {
        return Err(HierarchyError::MissingCategory);
    }
    let ghost row = records.categories@[found as int]@;
    let color = records.categories[found].color.clone();
    let is_builtin = records.categories[found].is_builtin;
    let created_at = records.categories[found].created_at.clone();
    if text::same(from.as_str(), to.as_str()) {
        let category = CategoryOption { name: from, color, is_builtin };
        return Ok(Renamed { ledger: records, category, settings: None });
    }
    if sync::find_record(&records.categories, to.as_str()) < records.categories.len() {
        return Err(HierarchyError::DuplicateCategory);
    }
    let ghost before = records@;
    let mut categories = records.categories;
    let next = SyncCategory {
        name: to.clone(),
        color: color.clone(),
        is_builtin,
        created_at,
        updated_at: at.to_owned(),
    };
    let ghost view = next@;
    categories.push(next);
    assert(sync::record_views(categories@) =~= before.categories.push(view));
    let mut tombstones = records.tombstones;
    record_tombstone(&mut tombstones, "category", from.as_str(), at);
    let after = Ledger {
        categories: ledger::drop_category(categories, from.as_str()),
        projects: ledger::move_projects(records.projects, from.as_str(), to.as_str(), &None, at),
        tasks: records.tasks,
        sessions: ledger::move_sessions(records.sessions, from.as_str(), to.as_str(), at),
        rules: ledger::move_rules(records.rules, from.as_str(), to.as_str(), at),
        tombstones,
        sleep_debt_started_on: records.sleep_debt_started_on,
    };
    assert(after@ =~= with_new_name(before, row, to@, at@));
    let mut normal = current.normalized();
    let settings = if text::same(normal.idle_category.as_str(), from.as_str()) {
        normal.idle_category = to.clone();
        Some(normal)
    } else {
        None
    };
    Ok(Renamed { ledger: after, category: CategoryOption { name: to, color, is_builtin }, settings })
}

/// What deleting a category comes to: the records, and the name of the category that took over.
pub open spec fn deleted_category(
    records: LedgerView,
    current: SettingsView,
    name: Seq<char>,
    at: Seq<char>,
) -> Result<(LedgerView, Seq<char>), HierarchyError> {
    let gone = labels::cleaned(name);
    if current.idle_category == gone {
        Err(HierarchyError::IdleCategory)
    } else if category_row(records.categories, gone) is None {
        Err(HierarchyError::MissingCategory)
    } else {
        match ledger::stand_in(records.categories, gone) {
            None => Err(HierarchyError::LastCategory),
            Some(heir) => Ok(
                (
                    LedgerView {
                        tombstones: noted(records.tombstones, "category"@, gone, at),
                        ..ledger::without_category(records, gone, heir, at)
                    },
                    heir.name,
                ),
            ),
        }
    }
}

/// Deletes a category; what stands under it goes to another one.
pub fn delete_category(
    records: Ledger,
    current: AppSettings,
    name: &str,
    at: &str,
) -> (result: Result<(Ledger, String), HierarchyError>)
    ensures
        match result {
            Ok((after, heir)) => deleted_category(
                records@,
                settings::normal(current@),
                name@,
                at@,
            ) == Ok::<(LedgerView, Seq<char>), HierarchyError>((after@, heir@)),
            Err(error) => deleted_category(
                records@,
                settings::normal(current@),
                name@,
                at@,
            ) == Err::<(LedgerView, Seq<char>), HierarchyError>(error),
        },
{
    let gone = labels::clean(name);
    let normal = current.normalized();
    if text::same(normal.idle_category.as_str(), gone.as_str()) {
        return Err(HierarchyError::IdleCategory);
    }
    if sync::find_record(&records.categories, gone.as_str()) >= records.categories.len() {
        return Err(HierarchyError::MissingCategory);
    }
    match ledger::find_stand_in(&records.categories, gone.as_str()) {
        None => Err(HierarchyError::LastCategory),
        Some(found) => {
            let heir = records.categories[found].name.clone();
            let color = records.categories[found].color.clone();
            let ghost view = records.categories@[found as int]@;
            let mut after = ledger::remove_category(
                records,
                gone.as_str(),
                heir.as_str(),
                color.as_str(),
                at,
            );
            assert(after@ == ledger::without_category(records@, gone@, view, at@));
            record_tombstone(&mut after.tombstones, "category", gone.as_str(), at);
            Ok((after, heir))
        },
    }
}

/// What creating a project comes to.
pub open spec fn created_project(
    records: LedgerView,
    name: Seq<char>,
    category: Seq<char>,
    id: Seq<char>,
    at: Seq<char>,
) -> Result<ProjectView, HierarchyError> {
    let stored = labels::cleaned(name);
    let under = text::trimmed(category);
    if stored.len() == 0 {
        Err(HierarchyError::EmptyName)
    } else {
        match category_row(records.categories, under) {
            None => Err(HierarchyError::UnknownCategory),
            Some(row) => if project_named(records.projects, stored, under) is Some {
                Err(HierarchyError::DuplicateProject)
            } else {
                Ok(
                    ProjectView {
                        id,
                        name: stored,
                        category: under,
                        source: "manual"@,
                        color: row.color,
                        description: None,
                        created_at: at,
                        updated_at: at,
                    },
                )
            },
        }
    }
}

/// Creates a project under the given id.
pub fn create_project(
    records: &Ledger,
    name: &str,
    category: &str,
    id: String,
    at: &str,
) -> (result: Result<Project, HierarchyError>)
    ensures
        match result {
            Ok(made) => created_project(records@, name@, category@, id@, at@) == Ok::<
                ProjectView,
                HierarchyError,
            >(made@),
            Err(error) => created_project(records@, name@, category@, id@, at@) == Err::<
                ProjectView,
                HierarchyError,
            >(error),
        },
{
    let stored = labels::clean(name);
    if stored.as_str().is_empty() {
        return Err(HierarchyError::EmptyName);
    }
    let under = text::trim(category);
    let found: usize = sync::find_record(&records.categories, under.as_str());
    if found >= records.categories.len() {
        return Err(HierarchyError::UnknownCategory);
    }
    if find_project_named(&records.projects, stored.as_str(), under.as_str()).is_some() {
        return Err(HierarchyError::DuplicateProject);
    }
    Ok(
        Project {
            id,
            name: stored,
            category: under,
            source: "manual".to_owned(),
            color: records.categories[found].color.clone(),
            description: None,
            created_at: at.to_owned(),
            updated_at: at.to_owned(),
        },
    )
}

/// What changing a project leaves: the records, the project, and the settings where they change.
#[derive(Debug, PartialEq, Eq)]
pub struct Updated {
    pub ledger: Ledger,
    pub project: Project,
    pub settings: Option<AppSettings>,
}

/// What `Updated` holds.
#[verifier::ext_equal]
pub struct UpdatedView {
    pub ledger: LedgerView,
    pub project: ProjectView,
    pub settings: Option<SettingsView>,
}

impl View for Updated {
    type V = UpdatedView;

    open spec fn view(&self) -> UpdatedView {
        UpdatedView {
            ledger: self.ledger@,
            project: self.project@,
            settings: optional_settings(self.settings),
        }
    }
}

/// What changing a project comes to; `current` are the normal settings.
pub open spec fn updated_project(
    records: LedgerView,
    current: SettingsView,
    id: Seq<char>,
    name: Seq<char>,
    category: Seq<char>,
    at: Seq<char>,
) -> Result<UpdatedView, HierarchyError> {
    let stored = labels::cleaned(name);
    let under = text::trimmed(category);
    if stored.len() == 0 {
        Err(HierarchyError::EmptyName)
    } else {
        match (project_row(records.projects, id), category_row(records.categories, under)) {
            (None, _) => Err(HierarchyError::MissingProject),
            (_, None) => Err(HierarchyError::UnknownCategory),
            (Some(old), Some(row)) => if name_is_taken(records.projects, stored, under, id) {
                Err(HierarchyError::DuplicateProject)
            } else {
                let project = ProjectView {
                    name: stored,
                    category: under,
                    color: row.color,
                    updated_at: at,
                    ..old
                };
                let tasks = ledger::tasks_of(records.tasks, id);
                Ok(
                    UpdatedView {
                        ledger: LedgerView {
                            projects: records.projects.update(
                                sync::spot::<Project>(records.projects, id) as int,
                                project,
                            ),
                            sessions: ledger::sessions_placed(
                                records.sessions,
                                Some(id),
                                tasks,
                                under,
                                at,
                            ),
                            rules: ledger::rules_placed(records.rules, Some(id), tasks, under, at),
                            ..records
                        },
                        project,
                        settings: if current.idle_project_name == old.name && current.idle_category
                            == old.category {
                            Some(
                                SettingsView {
                                    idle_project_name: stored,
                                    idle_category: under,
                                    ..current
                                },
                            )
                        } else {
                            None
                        },
                    },
                )
            },
        }
    }
}

/// Renames a project and puts it, with everything under it, into a category.
pub fn update_project(
    records: Ledger,
    current: AppSettings,
    id: &str,
    name: &str,
    category: &str,
    at: &str,
) -> (result: Result<Updated, HierarchyError>)
    ensures
        match result {
            Ok(updated) => updated_project(
                records@,
                settings::normal(current@),
                id@,
                name@,
                category@,
                at@,
            ) == Ok::<UpdatedView, HierarchyError>(updated@),
            Err(error) => updated_project(
                records@,
                settings::normal(current@),
                id@,
                name@,
                category@,
                at@,
            ) == Err::<UpdatedView, HierarchyError>(error),
        },
{
    let stored = labels::clean(name);
    if stored.as_str().is_empty() {
        return Err(HierarchyError::EmptyName);
    }
    let under = text::trim(category);
    let found: usize = sync::find_record(&records.projects, id);
    if found >= records.projects.len() {
        return Err(HierarchyError::MissingProject);
    }
    let row: usize = sync::find_record(&records.categories, under.as_str());
    if row >= records.categories.len() {
        return Err(HierarchyError::UnknownCategory);
    }
    if is_name_taken(&records.projects, stored.as_str(), under.as_str(), id) {
        return Err(HierarchyError::DuplicateProject);
    }
    let ghost before = records@;
    let mut normal = current.normalized();
    let old = records.projects[found].copy();
    let settings = if text::same(normal.idle_project_name.as_str(), old.name.as_str())
        && text::same(normal.idle_category.as_str(), old.category.as_str()) {
        normal.idle_project_name = stored.clone();
        normal.idle_category = under.clone();
        Some(normal)
    } else {
        None
    };
    let mut project = old;
    project.name = stored;
    project.category = under.clone();
    project.color = records.categories[row].color.clone();
    project.updated_at = at.to_owned();
    let list = ledger::list_tasks_of(&records.tasks, id);
    let set = ledger::set_of(&list);
    let ghost tasks = text::texts(list@);
    let owner = Some(id.to_owned());
    let mut projects = records.projects;
    projects.set(found, project.copy());
    assert(sync::record_views(projects@) =~= before.projects.update(found as int, project@));
    let after = Ledger {
        categories: records.categories,
        projects,
        tasks: records.tasks,
        sessions: ledger::place_sessions(
            records.sessions,
            &owner,
            &set,
            Ghost(tasks),
            under.as_str(),
            at,
        ),
        rules: ledger::place_rules(records.rules, &owner, &set, Ghost(tasks), under.as_str(), at),
        tombstones: records.tombstones,
        sleep_debt_started_on: records.sleep_debt_started_on,
    };
    Ok(Updated { ledger: after, project, settings })
}

/// What deleting a project comes to.
pub open spec fn deleted_project(records: LedgerView, id: Seq<char>, at: Seq<char>) -> Result<
    LedgerView,
    HierarchyError,
> {
    if project_row(records.projects, id) is None {
        Err(HierarchyError::MissingProject)
    } else {
        Ok(
            LedgerView {
                tombstones: noted(
                    noted_tasks(
                        records.tombstones,
                        ledger::tasks_of(records.tasks, id),
                        at,
                    ),
                    "project"@,
                    id,
                    at,
                ),
                ..ledger::without_project(records, id)
            },
        )
    }
}

/// Deletes a project with its tasks and rules; its sessions stay, without a project.
pub fn delete_project(records: Ledger, id: &str, at: &str) -> (result: Result<
    Ledger,
    HierarchyError,
>)
    ensures
        match result {
            Ok(after) => deleted_project(records@, id@, at@) == Ok::<LedgerView, HierarchyError>(
                after@,
            ),
            Err(error) => deleted_project(records@, id@, at@) == Err::<LedgerView, HierarchyError>(
                error,
            ),
        },
{
    if sync::find_record(&records.projects, id) >= records.projects.len() {
        return Err(HierarchyError::MissingProject);
    }
    let list = ledger::list_tasks_of(&records.tasks, id);
    let ghost tasks = text::texts(list@);
    let ghost first = records@.tombstones;
    let mut after = ledger::remove_project(records, id);
    let mut i: usize = 0;
    assert(tasks.take(0) =~= Seq::empty());
    let mut tombstones = after.tombstones;
    while i < list.len()
        invariant
            i <= list.len(),
            tasks == text::texts(list@),
            sync::record_views(tombstones@) == noted_tasks(first, tasks.take(i as int), at@),
        decreases list.len() - i,
    {
        assert(tasks.take(i + 1).drop_last() =~= tasks.take(i as int));
        assert(tasks.take(i + 1).last() == list@[i as int]@);
        record_tombstone(&mut tombstones, "task", list[i].as_str(), at);
        i += 1;
    }
    assert(tasks.take(list.len() as int) =~= tasks);
    record_tombstone(&mut tombstones, "project", id, at);
    after.tombstones = tombstones;
    Ok(after)
}

/// What creating a task comes to.
pub open spec fn created_task(
    records: LedgerView,
    project_id: Seq<char>,
    title: Seq<char>,
    id: Seq<char>,
    at: Seq<char>,
) -> Result<TaskView, HierarchyError> {
    let stored = labels::cleaned(title);
    if stored.len() == 0 {
        Err(HierarchyError::EmptyName)
    } else if project_row(records.projects, project_id) is None {
        Err(HierarchyError::MissingProject)
    } else if task_titled(records.tasks, project_id, stored) is Some {
        Err(HierarchyError::DuplicateTask)
    } else {
        Ok(
            TaskView {
                id,
                project_id,
                title: stored,
                status: "active"@,
                source: "manual"@,
                planned_due_at: None,
                created_at: at,
                updated_at: at,
            },
        )
    }
}

/// Creates a task under the given id.
pub fn create_task(
    records: &Ledger,
    project_id: &str,
    title: &str,
    id: String,
    at: &str,
) -> (result: Result<Task, HierarchyError>)
    ensures
        match result {
            Ok(made) => created_task(records@, project_id@, title@, id@, at@) == Ok::<
                TaskView,
                HierarchyError,
            >(made@),
            Err(error) => created_task(records@, project_id@, title@, id@, at@) == Err::<
                TaskView,
                HierarchyError,
            >(error),
        },
{
    let stored = labels::clean(title);
    if stored.as_str().is_empty() {
        return Err(HierarchyError::EmptyName);
    }
    if sync::find_record(&records.projects, project_id) >= records.projects.len() {
        return Err(HierarchyError::MissingProject);
    }
    if find_task_titled(&records.tasks, project_id, stored.as_str()).is_some() {
        return Err(HierarchyError::DuplicateTask);
    }
    Ok(
        Task {
            id,
            project_id: project_id.to_owned(),
            title: stored,
            status: "active".to_owned(),
            source: "manual".to_owned(),
            planned_due_at: None,
            created_at: at.to_owned(),
            updated_at: at.to_owned(),
        },
    )
}

/// What deleting a task comes to.
pub open spec fn deleted_task(records: LedgerView, id: Seq<char>, at: Seq<char>) -> Result<
    LedgerView,
    HierarchyError,
> {
    if task_row(records.tasks, id) is None {
        Err(HierarchyError::MissingTask)
    } else {
        Ok(
            LedgerView {
                tombstones: noted(records.tombstones, "task"@, id, at),
                ..ledger::without_task(records, id)
            },
        )
    }
}

/// Deletes a task with its rules; its sessions stay, without a task.
pub fn delete_task(records: Ledger, id: &str, at: &str) -> (result: Result<Ledger, HierarchyError>)
    ensures
        match result {
            Ok(after) => deleted_task(records@, id@, at@) == Ok::<LedgerView, HierarchyError>(
                after@,
            ),
            Err(error) => deleted_task(records@, id@, at@) == Err::<LedgerView, HierarchyError>(
                error,
            ),
        },
{
    if sync::find_record(&records.tasks, id) >= records.tasks.len() {
        return Err(HierarchyError::MissingTask);
    }
    let mut after = ledger::remove_task(records, id);
    record_tombstone(&mut after.tombstones, "task", id, at);
    Ok(after)
}

/// Deleting a project unassigns its sessions and takes its tasks and rules along: every session is
/// still there, and nothing that is left names the project or one of its tasks.
pub proof fn deleted_projects_leave_no_reference(records: LedgerView, id: Seq<char>, at: Seq<char>)
    requires
        deleted_project(records, id, at) is Ok,
    ensures
        ({
            let after = deleted_project(records, id, at)->Ok_0;
            let tasks = ledger::tasks_of(records.tasks, id);
            &&& after.sessions.len() == records.sessions.len()
            &&& forall|i: int|
                0 <= i < after.sessions.len() ==> {
                    &&& !ledger::touches(
                        (#[trigger] after.sessions[i]).session.project_id,
                        after.sessions[i].session.task_id,
                        Some(id),
                        tasks,
                    )
                    &&& after.sessions[i].session.id == records.sessions[i].session.id
                    &&& after.sessions[i].session.category == records.sessions[i].session.category
                }
            &&& forall|i: int|
                0 <= i < after.rules.len() ==> !ledger::touches(
                    (#[trigger] after.rules[i]).rule.project_id,
                    after.rules[i].rule.task_id,
                    Some(id),
                    tasks,
                )
            &&& forall|i: int|
                0 <= i < after.tasks.len() ==> (#[trigger] after.tasks[i]).project_id != id
            &&& forall|i: int|
                0 <= i < after.projects.len() ==> (#[trigger] after.projects[i]).id != id
        }),
{
    let after = deleted_project(records, id, at)->Ok_0;
    let tasks = ledger::tasks_of(records.tasks, id);
    assert forall|i: int| 0 <= i < after.rules.len() implies !ledger::touches(
        (#[trigger] after.rules[i]).rule.project_id,
        after.rules[i].rule.task_id,
        Some(id),
        tasks,
    ) by {
        records.rules.lemma_filter_pred(
            |item: SyncRuleView|
                !ledger::touches(item.rule.project_id, item.rule.task_id, Some(id), tasks),
            i,
        );
    }
    assert forall|i: int| 0 <= i < after.tasks.len() implies (
    #[trigger] after.tasks[i]).project_id != id by {
        records.tasks.lemma_filter_pred(|item: TaskView| item.project_id != id, i);
    }
    assert forall|i: int| 0 <= i < after.projects.len() implies (
    #[trigger] after.projects[i]).id != id by {
        records.projects.lemma_filter_pred(|item: ProjectView| item.id != id, i);
    }
}

/// Nothing stands under the category.
pub open spec fn nothing_under(records: LedgerView, name: Seq<char>) -> bool {
    &&& forall|i: int|
        0 <= i < records.categories.len() ==> (#[trigger] records.categories[i]).name != name
    &&& forall|i: int|
        0 <= i < records.projects.len() ==> (#[trigger] records.projects[i]).category != name
    &&& forall|i: int|
        0 <= i < records.sessions.len() ==> (#[trigger] records.sessions[i]).session.category
            != name
    &&& forall|i: int|
        0 <= i < records.rules.len() ==> (#[trigger] records.rules[i]).rule.category != name
}

proof fn lemma_stand_in_differs(categories: Seq<SyncCategoryView>, gone: Seq<char>)
    ensures
        ledger::stand_in(categories, gone) matches Some(heir) ==> heir.name != gone
            && categories.contains(heir),
    decreases categories.len(),
{
    if categories.len() > 0 {
        lemma_stand_in_differs(categories.drop_last(), gone);
        assert(categories[categories.len() - 1] == categories.last());
        if let Some(best) = ledger::stand_in(categories.drop_last(), gone) {
            let k = choose|k: int|
                0 <= k < categories.drop_last().len() && categories.drop_last()[k] == best;
            assert(categories[k] == best);
        }
    }
}

/// A deleted category is gone without trace: another one of the list took over, nothing stands
/// under the deleted one, and no project, session or rule is lost.
pub proof fn deleted_categories_are_emptied(
    records: LedgerView,
    current: SettingsView,
    name: Seq<char>,
    at: Seq<char>,
)
    requires
        deleted_category(records, current, name, at) is Ok,
    ensures
        ({
            let (after, heir) = deleted_category(records, current, name, at)->Ok_0;
            &&& heir != labels::cleaned(name)
            &&& sync::keys::<SyncCategory>(records.categories).contains(heir)
            &&& nothing_under(after, labels::cleaned(name))
            &&& after.projects.len() == records.projects.len()
            &&& after.sessions.len() == records.sessions.len()
            &&& after.rules.len() == records.rules.len()
        }),
{
    let gone = labels::cleaned(name);
    lemma_stand_in_differs(records.categories, gone);
    let heir = ledger::stand_in(records.categories, gone).unwrap();
    let k = choose|k: int| 0 <= k < records.categories.len() && records.categories[k] == heir;
    assert(sync::keys::<SyncCategory>(records.categories)[k] == heir.name);
    let (after, heir_name) = deleted_category(records, current, name, at)->Ok_0;
    assert forall|i: int| 0 <= i < after.categories.len() implies (
    #[trigger] after.categories[i]).name != gone by {
        records.categories.lemma_filter_pred(|item: SyncCategoryView| item.name != gone, i);
    }
}

/// A renamed category keeps everything that stood under it: nothing stands under the old name, and
/// no project, session or rule is lost.
pub proof fn renamed_categories_keep_their_records(
    records: LedgerView,
    current: SettingsView,
    old_name: Seq<char>,
    new_name: Seq<char>,
    at: Seq<char>,
)
    requires
        renamed_category(records, current, old_name, new_name, at) is Ok,
        labels::cleaned(old_name) != category_name(new_name),
    ensures
        ({
            let after = renamed_category(records, current, old_name, new_name, at)->Ok_0.ledger;
            let from = labels::cleaned(old_name);
            let to = category_name(new_name);
            &&& nothing_under(after, from)
            &&& after.projects.len() == records.projects.len()
            &&& after.sessions.len() == records.sessions.len()
            &&& after.rules.len() == records.rules.len()
            &&& forall|i: int|
                0 <= i < records.sessions.len() && records.sessions[i].session.category == from
                    ==> (#[trigger] after.sessions[i]).session.category == to
        }),
{
    let from = labels::cleaned(old_name);
    let to = category_name(new_name);
    let row = category_row(records.categories, from).unwrap();
    let after = renamed_category(records, current, old_name, new_name, at)->Ok_0.ledger;
    sync::lemma_spot::<SyncCategory>(records.categories, from);
    assert(row.name == from);
    let all = records.categories.push(SyncCategoryView { name: to, updated_at: at, ..row });
    assert forall|i: int| 0 <= i < after.categories.len() implies (
    #[trigger] after.categories[i]).name != from by {
        all.lemma_filter_pred(|item: SyncCategoryView| item.name != from, i);
    }
}

/// A pin lasts between five minutes and four hours.
pub const MIN_PIN_MINUTES: u32 = 5;

pub const MAX_PIN_MINUTES: u32 = 240;

/// What pinning a context comes to, where the clock shows `now`.
pub open spec fn pinned(
    records: LedgerView,
    project_id: Seq<char>,
    task_id: Option<Seq<char>>,
    minutes: u32,
    now: Moment,
) -> Result<ContextPinView, HierarchyError> {
    match project_row(records.projects, project_id) {
        None => Err(HierarchyError::MissingProject),
        Some(project) => {
            let expires = clock::shifted(
                now,
                60 * settings::clamped(minutes, MIN_PIN_MINUTES, MAX_PIN_MINUTES),
            );
            let pin = ContextPinView {
                project_id,
                project_name: project.name,
                task_id,
                task_title: None,
                category: project.category,
                expires_at: clock::rfc3339_text(expires.seconds, expires.nanos),
            };
            match task_id {
                None => Ok(pin),
                Some(id) => match task_row(records.tasks, id) {
                    Some(task) => if task.project_id == project_id {
                        Ok(ContextPinView { task_title: Some(task.title), ..pin })
                    } else {
                        Err(HierarchyError::ForeignTask)
                    },
                    None => Err(HierarchyError::ForeignTask),
                },
            }
        },
    }
}

/// Pins a project, and a task of it, for a while.
pub fn pin_context(
    records: &Ledger,
    project_id: &str,
    task_id: &Option<String>,
    minutes: u32,
    now: Moment,
) -> (result: Result<ContextPin, HierarchyError>)
    requires
        now.in_calendar(),
    ensures
        match result {
            Ok(pin) => pinned(
                records@,
                project_id@,
                text::optional(*task_id),
                minutes,
                now,
            ) == Ok::<ContextPinView, HierarchyError>(pin@),
            Err(error) => pinned(
                records@,
                project_id@,
                text::optional(*task_id),
                minutes,
                now,
            ) == Err::<ContextPinView, HierarchyError>(error),
        },
        -62_167_219_200 <= now.seconds <= 253_402_200_000 ==> (result matches Ok(pin)
            ==> attribution::pin_holds(pin@.expires_at, now)),
{
    let found: usize = sync::find_record(&records.projects, project_id);
    if found >= records.projects.len() {
        return Err(HierarchyError::MissingProject);
    }
    let task_title = match task_id {
        None => None,
        Some(id) => {
            let at: usize = sync::find_record(&records.tasks, id.as_str());
            if at >= records.tasks.len() {
                return Err(HierarchyError::ForeignTask);
            }
            if !text::same(records.tasks[at].project_id.as_str(), project_id) {
                return Err(HierarchyError::ForeignTask);
            }
            Some(records.tasks[at].title.clone())
        },
    };
    let lasting: u32 = settings::clamp(minutes, MIN_PIN_MINUTES, MAX_PIN_MINUTES);
    let expires = clock::shift(now, 60 * lasting as i64);
    Ok(
        ContextPin {
            project_id: project_id.to_owned(),
            project_name: records.projects[found].name.clone(),
            task_id: task_id.clone(),
            task_title,
            category: records.projects[found].category.clone(),
            expires_at: clock::format_moment(expires),
        },
    )
}

/// The session is time away that nobody has confirmed and that is not yet where such time goes.
pub open spec fn strays(item: SyncSessionView, project: Seq<char>, category: Seq<char>) -> bool {
    let session = item.session;
    &&& !session.user_confirmed
    &&& session.source == "collector-idle"@ || session.summary == "离开/空闲"@
    &&& session.project_id != Some(project) || session.task_id is Some || session.category
        != category || session.source != "collector-idle"@
}

/// The session where time away goes.
pub open spec fn gathered(
    item: SyncSessionView,
    project: Seq<char>,
    project_name: Seq<char>,
    category: Seq<char>,
    at: Seq<char>,
) -> SyncSessionView {
    if strays(item, project, category) {
        SyncSessionView {
            session: SessionView {
                project_id: Some(project),
                project_name: Some(project_name),
                task_id: None,
                task_title: None,
                category,
                source: "collector-idle"@,
                ..item.session
            },
            updated_at: at,
        }
    } else {
        item
    }
}

fn gather_sessions(
    list: Vec<SyncSession>,
    project: &str,
    project_name: &str,
    category: &str,
    at: &str,
) -> (result: Vec<SyncSession>)
    ensures
        sync::record_views(result@) == sync::record_views(list@).map_values(
            |item: SyncSessionView| gathered(item, project@, project_name@, category@, at@),
        ),
{
    let ghost views = sync::record_views(list@);
    let ghost change = |item: SyncSessionView|
        gathered(item, project@, project_name@, category@, at@);
    let mut result: Vec<SyncSession> = Vec::new();
    assert(sync::record_views(result@) =~= views.take(0).map_values(change));
    for item in it: list
        invariant
            views == sync::record_views(it.seq()),
            change == (|item: SyncSessionView|
                gathered(item, project@, project_name@, category@, at@)),
            sync::record_views(result@) == views.take(it.index()).map_values(change),
    {
        let ghost i = it.index();
        let ghost view = item@;
        let ghost before = sync::record_views(result@);
        assert(views[i] == view);
        assert(views.take(i + 1) =~= views.take(i).push(view));
        let mut after = item;
        let away = text::same(after.session.source.as_str(), "collector-idle");
        let there = match &after.session.project_id {
            Some(id) => text::same(id.as_str(), project),
            None => false,
        };
        if !after.session.user_confirmed && (away || text::same(
            after.session.summary.as_str(),
            "离开/空闲",
        )) && (!there || after.session.task_id.is_some() || !text::same(
            after.session.category.as_str(),
            category,
        ) || !away) {
            after.session.project_id = Some(project.to_owned());
            after.session.project_name = Some(project_name.to_owned());
            after.session.task_id = None;
            after.session.task_title = None;
            after.session.category = category.to_owned();
            after.session.source = "collector-idle".to_owned();
            after.updated_at = at.to_owned();
        }
        assert(after@ =~= change(view));
        result.push(after);
        assert(sync::record_views(result@) =~= before.push(change(view)));
        assert(views.take(i).push(view).map_values(change) =~= views.take(i).map_values(
            change,
        ).push(change(view)));
    }
    assert(views.take(views.len() as int) =~= views);
    result
}

/// The categories with one for time away.
pub open spec fn with_idle_category(
    list: Seq<SyncCategoryView>,
    name: Seq<char>,
    at: Seq<char>,
) -> Seq<SyncCategoryView> {
    if category_row(list, name) is Some {
        list
    } else {
        list.push(
            SyncCategoryView {
                name,
                color: "#94a3b8"@,
                is_builtin: false,
                created_at: at,
                updated_at: at,
            },
        )
    }
}

/// The id of the project for time away.
pub open spec fn idle_project(
    list: Seq<ProjectView>,
    name: Seq<char>,
    category: Seq<char>,
    fresh_id: Seq<char>,
) -> Seq<char> {
    match project_named(list, name, category) {
        Some(project) => project.id,
        None => fresh_id,
    }
}

/// The records with a place for time away, and all such time in it; `current` are the normal
/// settings.
pub open spec fn with_idle_target(
    records: LedgerView,
    current: SettingsView,
    fresh_id: Seq<char>,
    at: Seq<char>,
) -> LedgerView {
    let category = current.idle_category;
    let name = current.idle_project_name;
    let categories = with_idle_category(records.categories, category, at);
    let id = idle_project(records.projects, name, category, fresh_id);
    LedgerView {
        categories,
        projects: if project_row(records.projects, id) is Some {
            records.projects
        } else {
            records.projects.push(
                ProjectView {
                    id,
                    name,
                    category,
                    source: "system-idle"@,
                    color: category_row(categories, category).unwrap().color,
                    description: Some("自动记录离开与空闲时间"@),
                    created_at: at,
                    updated_at: at,
                },
            )
        },
        sessions: records.sessions.map_values(
            |item: SyncSessionView| gathered(item, id, name, category, at),
        ),
        ..records
    }
}

/// Makes a place for time away, puts all such time there, and says which project it is.
pub fn configure_idle_target(
    records: Ledger,
    current: AppSettings,
    fresh_id: &str,
    at: &str,
) -> (result: (Ledger, String))
    ensures
        result.0@ == with_idle_target(records@, settings::normal(current@), fresh_id@, at@),
        result.1@ == idle_project(
            records@.projects,
            settings::normal(current@).idle_project_name,
            settings::normal(current@).idle_category,
            fresh_id@,
        ),
{
    let ghost before = records@;
    let normal = current.normalized();
    let category = normal.idle_category.as_str();
    let name = normal.idle_project_name.as_str();
    let mut categories = records.categories;
    let spot: usize = sync::find_record(&categories, category);
    proof {
        sync::lemma_spot::<SyncCategory>(before.categories, category@);
    }
    let color = if spot < categories.len() {
        categories[spot].color.clone()
    } else {
        let made = SyncCategory {
            name: category.to_owned(),
            color: "#94a3b8".to_owned(),
            is_builtin: false,
            created_at: at.to_owned(),
            updated_at: at.to_owned(),
        };
        let ghost view = made@;
        categories.push(made);
        proof {
            let all = before.categories.push(view);
            assert(sync::record_views(categories@) =~= all);
            sync::lemma_spot::<SyncCategory>(all, category@);
            let found = sync::spot::<SyncCategory>(all, category@) as int;
            if found < before.categories.len() {
                assert(SyncCategory::key_of(before.categories[found]) == category@);
            } else if found > before.categories.len() {
                assert(SyncCategory::key_of(all[before.categories.len() as int]) != category@);
            }
        }
        "#94a3b8".to_owned()
    };
    assert(sync::record_views(categories@) == with_idle_category(
        before.categories,
        category@,
        at@,
    ));
    let id = match find_project_named(&records.projects, name, category) {
        Some(found) => records.projects[found].id.clone(),
        None => fresh_id.to_owned(),
    };
    let mut projects = records.projects;
    if sync::find_record(&projects, id.as_str()) >= projects.len() {
        let made = Project {
            id: id.clone(),
            name: name.to_owned(),
            category: category.to_owned(),
            source: "system-idle".to_owned(),
            color,
            description: Some("自动记录离开与空闲时间".to_owned()),
            created_at: at.to_owned(),
            updated_at: at.to_owned(),
        };
        let ghost view = made@;
        projects.push(made);
        assert(sync::record_views(projects@) =~= before.projects.push(view));
    }
    let sessions = gather_sessions(records.sessions, id.as_str(), name, category, at);
    let after = Ledger {
        categories,
        projects,
        tasks: records.tasks,
        sessions,
        rules: records.rules,
        tombstones: records.tombstones,
        sleep_debt_started_on: records.sleep_debt_started_on,
    };
    (after, id)
}

/// No unconfirmed time away strays from where such time goes, and what the user confirmed is
/// untouched.
pub proof fn time_away_is_gathered(
    records: LedgerView,
    current: SettingsView,
    fresh_id: Seq<char>,
    at: Seq<char>,
)
    ensures
        ({
            let after = with_idle_target(records, current, fresh_id, at);
            let id = idle_project(
                records.projects,
                current.idle_project_name,
                current.idle_category,
                fresh_id,
            );
            forall|i: int|
                0 <= i < records.sessions.len() ==> {
                    &&& !strays(#[trigger] after.sessions[i], id, current.idle_category)
                    &&& records.sessions[i].session.user_confirmed ==> after.sessions[i]
                        == records.sessions[i]
                }
        }),
{
}

/// What a found project means: its id, and the projects with its use noted.
pub open spec fn upserted_project(
    records: LedgerView,
    name: Seq<char>,
    category: Seq<char>,
    source: Seq<char>,
    fresh_id: Seq<char>,
    at: Seq<char>,
) -> (Seq<ProjectView>, Seq<char>) {
    let stored = settings::setting_label(name, "自动发现项目"@);
    let under = settings::setting_label(category, "杂务"@);
    match project_named(records.projects, stored, under) {
        Some(project) => (
            records.projects.map_values(
                |item: ProjectView|
                    if item.id == project.id {
                        ProjectView { updated_at: at, ..item }
                    } else {
                        item
                    },
            ),
            project.id,
        ),
        None => (
            records.projects.push(
                ProjectView {
                    id: fresh_id,
                    name: stored,
                    category: under,
                    source,
                    color: labels::category_color(under),
                    description: Some(
                        "由 ScreenUse 根据窗口、URL、目录和计划源自动发现："@ + stored,
                    ),
                    created_at: at,
                    updated_at: at,
                },
            ),
            fresh_id,
        ),
    }
}

/// Finds a project by name and category, or makes it.
pub fn upsert_project_by_name(
    records: &mut Ledger,
    name: &str,
    category: &str,
    source: &str,
    fresh_id: &str,
    at: &str,
) -> (result: String)
    ensures
        final(records)@ == (LedgerView {
            projects: upserted_project(
                old(records)@,
                name@,
                category@,
                source@,
                fresh_id@,
                at@,
            ).0,
            ..old(records)@
        }),
        result@ == upserted_project(old(records)@, name@, category@, source@, fresh_id@, at@).1,
{
    let ghost before = records@.projects;
    let stored = labels::clean_name(name, "自动发现项目");
    let under = labels::clean_name(category, "杂务");
    match find_project_named(&records.projects, stored.as_str(), under.as_str()) {
        Some(found) => {
            let id = records.projects[found].id.clone();
            let ghost change = |item: ProjectView|
                if item.id == id@ {
                    ProjectView { updated_at: at@, ..item }
                } else {
                    item
                };
            let mut projects: Vec<Project> = Vec::new();
            let mut i: usize = 0;
            assert(sync::record_views(projects@) =~= before.take(0).map_values(change));
            while i < records.projects.len()
                invariant
                    i <= records.projects.len(),
                    before == records@.projects,
                    change == (|item: ProjectView|
                        if item.id == id@ {
                            ProjectView { updated_at: at@, ..item }
                        } else {
                            item
                        }),
                    sync::record_views(projects@) == before.take(i as int).map_values(change),
                decreases records.projects.len() - i,
            {
                let ghost done = sync::record_views(projects@);
                let mut next = records.projects[i].copy();
                if text::same(next.id.as_str(), id.as_str()) {
                    next.updated_at = at.to_owned();
                }
                assert(next@ =~= change(before[i as int]));
                projects.push(next);
                assert(sync::record_views(projects@) =~= done.push(change(before[i as int])));
                assert(before.take(i + 1).map_values(change) =~= before.take(i as int).map_values(
                    change,
                ).push(change(before[i as int])));
                i += 1;
            }
            assert(before.take(records.projects.len() as int) =~= before);
            records.projects = projects;
            id
        },
        None => {
            let description = text::joined(
                "由 ScreenUse 根据窗口、URL、目录和计划源自动发现：",
                stored.as_str(),
            );
            let made = Project {
                id: fresh_id.to_owned(),
                color: labels::color_for_category(under.as_str()).to_owned(),
                name: stored,
                category: under,
                source: source.to_owned(),
                description: Some(description),
                created_at: at.to_owned(),
                updated_at: at.to_owned(),
            };
            let ghost view = made@;
            records.projects.push(made);
            assert(records@.projects =~= before.push(view));
            fresh_id.to_owned()
        },
    }
}

/// What a found task means: its id, and the tasks with its use noted; none where its project is
/// not there.
pub open spec fn upserted_task(
    records: LedgerView,
    project_id: Seq<char>,
    title: Seq<char>,
    source: Seq<char>,
    fresh_id: Seq<char>,
    at: Seq<char>,
) -> Option<(Seq<TaskView>, Seq<char>)> {
    let stored = settings::setting_label(title, "待确认活动"@);
    match task_titled(records.tasks, project_id, stored) {
        Some(task) => Some(
            (
                records.tasks.map_values(
                    |item: TaskView|
                        if item.id == task.id {
                            TaskView { status: "active"@, updated_at: at, ..item }
                        } else {
                            item
                        },
                ),
                task.id,
            ),
        ),
        None => if project_row(records.projects, project_id) is None {
            None
        } else {
            Some(
                (
                    records.tasks.push(
                        TaskView {
                            id: fresh_id,
                            project_id,
                            title: stored,
                            status: "active"@,
                            source,
                            planned_due_at: None,
                            created_at: at,
                            updated_at: at,
                        },
                    ),
                    fresh_id,
                ),
            )
        },
    }
}

/// Finds a task by title, or makes it.
pub fn upsert_task_by_title(
    records: &mut Ledger,
    project_id: &str,
    title: &str,
    source: &str,
    fresh_id: &str,
    at: &str,
) -> (result: Option<String>)
    ensures
        match result {
            Some(id) => {
                &&& upserted_task(
                    old(records)@,
                    project_id@,
                    title@,
                    source@,
                    fresh_id@,
                    at@,
                ) == Some((final(records)@.tasks, id@))
                &&& final(records)@ == (LedgerView {
                    tasks: final(records)@.tasks,
                    ..old(records)@
                })
            },
            None => {
                &&& upserted_task(
                    old(records)@,
                    project_id@,
                    title@,
                    source@,
                    fresh_id@,
                    at@,
                ) is None
                &&& final(records)@ == old(records)@
            },
        },
{
    let ghost before = records@.tasks;
    let stored = labels::clean_name(title, "待确认活动");
    match find_task_titled(&records.tasks, project_id, stored.as_str()) {
        Some(found) => {
            let id = records.tasks[found].id.clone();
            let ghost change = |item: TaskView|
                if item.id == id@ {
                    TaskView { status: "active"@, updated_at: at@, ..item }
                } else {
                    item
                };
            let mut tasks: Vec<Task> = Vec::new();
            let mut i: usize = 0;
            assert(sync::record_views(tasks@) =~= before.take(0).map_values(change));
            while i < records.tasks.len()
                invariant
                    i <= records.tasks.len(),
                    before == records@.tasks,
                    change == (|item: TaskView|
                        if item.id == id@ {
                            TaskView { status: "active"@, updated_at: at@, ..item }
                        } else {
                            item
                        }),
                    sync::record_views(tasks@) == before.take(i as int).map_values(change),
                decreases records.tasks.len() - i,
            {
                let ghost done = sync::record_views(tasks@);
                let mut next = records.tasks[i].copy();
                if text::same(next.id.as_str(), id.as_str()) {
                    next.status = "active".to_owned();
                    next.updated_at = at.to_owned();
                }
                assert(next@ =~= change(before[i as int]));
                tasks.push(next);
                assert(sync::record_views(tasks@) =~= done.push(change(before[i as int])));
                assert(before.take(i + 1).map_values(change) =~= before.take(i as int).map_values(
                    change,
                ).push(change(before[i as int])));
                i += 1;
            }
            assert(before.take(records.tasks.len() as int) =~= before);
            records.tasks = tasks;
            Some(id)
        },
        None => {
            if sync::find_record(&records.projects, project_id) >= records.projects.len() {
                return None;
            }
            let made = Task {
                id: fresh_id.to_owned(),
                project_id: project_id.to_owned(),
                title: stored,
                status: "active".to_owned(),
                source: source.to_owned(),
                planned_due_at: None,
                created_at: at.to_owned(),
                updated_at: at.to_owned(),
            };
            let ghost view = made@;
            records.tasks.push(made);
            assert(records@.tasks =~= before.push(view));
            Some(fresh_id.to_owned())
        },
    }
}

/// The names of the built-in categories.
pub open spec fn default_names() -> Seq<Seq<char>> {
    DEFAULT_CATEGORIES@.map_values(|name: &'static str| name@)
}

/// Lists the names of the built-in categories.
pub fn list_default_names() -> (result: Vec<String>)
    ensures
        text::texts(result@) == default_names(),
{
    let all = DEFAULT_CATEGORIES;
    let mut result: Vec<String> = Vec::new();
    let mut i: usize = 0;
    while i < 7
        invariant
            i <= 7,
            all@ == DEFAULT_CATEGORIES@,
            all@.len() == 7,
            text::texts(result@) == default_names().take(i as int),
        decreases 7 - i,
    {
        let ghost before = text::texts(result@);
        result.push(all[i].to_owned());
        assert(text::texts(result@) =~= before.push(all@[i as int]@));
        assert(default_names().take(i + 1) =~= before.push(all@[i as int]@));
        i += 1;
    }
    assert(default_names().take(7) =~= default_names());
    result
}

/// The categories with the built-in ones of these names, but for those that were deleted.
pub open spec fn with_defaults(
    list: Seq<SyncCategoryView>,
    tombstones: Seq<TombstoneView>,
    names: Seq<Seq<char>>,
    at: Seq<char>,
) -> Seq<SyncCategoryView>
    decreases names.len(),
{
    if names.len() == 0 {
        list
    } else {
        let before = with_defaults(list, tombstones, names.drop_last(), at);
        let name = names.last();
        if category_row(before, name) is Some || sync::spot::<TombstoneRow>(
            tombstones,
            sync::row_key("category"@, name),
        ) < tombstones.len() {
            before
        } else {
            before.push(
                SyncCategoryView {
                    name,
                    color: labels::category_color(name),
                    is_builtin: true,
                    created_at: at,
                    updated_at: at,
                },
            )
        }
    }
}

/// Adds the built-in categories that are missing and were never deleted.
pub fn ensure_default_categories(
    list: &mut Vec<SyncCategory>,
    tombstones: &Vec<SyncTombstone>,
    names: &Vec<String>,
    at: &str,
)
    ensures
        sync::record_views(final(list)@) == with_defaults(
            sync::record_views(old(list)@),
            sync::record_views(tombstones@),
            text::texts(names@),
            at@,
        ),
{
    let ghost first = sync::record_views(list@);
    let ghost dead = sync::record_views(tombstones@);
    let ghost all = text::texts(names@);
    let mut i: usize = 0;
    assert(all.take(0) =~= Seq::empty());
    while i < names.len()
        invariant
            i <= names.len(),
            dead == sync::record_views(tombstones@),
            all == text::texts(names@),
            sync::record_views(list@) == with_defaults(first, dead, all.take(i as int), at@),
        decreases names.len() - i,
    {
        assert(all.take(i + 1).drop_last() =~= all.take(i as int));
        assert(all.take(i + 1).last() == names@[i as int]@);
        let ghost before = sync::record_views(list@);
        let name = names[i].as_str();
        let deleted = sync::find_tombstone(tombstones, "category", name) < tombstones.len();
        if sync::find_record(list, name) >= list.len() && !deleted {
            let made = SyncCategory {
                name: name.to_owned(),
                color: labels::color_for_category(name).to_owned(),
                is_builtin: true,
                created_at: at.to_owned(),
                updated_at: at.to_owned(),
            };
            let ghost view = made@;
            list.push(made);
            assert(sync::record_views(list@) =~= before.push(view));
        }
        i += 1;
    }
    assert(all.take(names.len() as int) =~= all);
}

} // verus!
