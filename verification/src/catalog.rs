//! Categories, projects and tasks, and the hierarchy that they form.
use vstd::prelude::*;
use vstd::string::*;

use crate::models::{
    CategoryOption, CategoryView, Project, ProjectView, SessionView, Task, TaskView, WorkSession,
};
use crate::text;

verus! {

broadcast use vstd::seq_lib::group_seq_properties;

/// The categories, projects and tasks of the ledger.
#[derive(Debug, PartialEq, Eq)]
pub struct Catalog {
    pub categories: Vec<CategoryOption>,
    pub projects: Vec<Project>,
    pub tasks: Vec<Task>,
}

/// What a `Catalog` holds.
#[verifier::ext_equal]
pub struct CatalogView {
    pub categories: Seq<CategoryView>,
    pub projects: Seq<ProjectView>,
    pub tasks: Seq<TaskView>,
}

impl View for Catalog {
    type V = CatalogView;

    open spec fn view(&self) -> CatalogView {
        CatalogView {
            categories: category_views(self.categories@),
            projects: project_views(self.projects@),
            tasks: task_views(self.tasks@),
        }
    }
}

pub open spec fn category_views(rows: Seq<CategoryOption>) -> Seq<CategoryView> {
    rows.map_values(|row: CategoryOption| row@)
}

pub open spec fn project_views(rows: Seq<Project>) -> Seq<ProjectView> {
    rows.map_values(|row: Project| row@)
}

pub open spec fn task_views(rows: Seq<Task>) -> Seq<TaskView> {
    rows.map_values(|row: Task| row@)
}

/// The first category with this name.
pub open spec fn category_named(rows: Seq<CategoryView>, name: Seq<char>) -> Option<CategoryView>
    decreases rows.len(),
{
    if rows.len() == 0 {
        None
    } else if rows[0].name == name {
        Some(rows[0])
    } else {
        category_named(rows.drop_first(), name)
    }
}

/// The first project with this id.
pub open spec fn project_with(rows: Seq<ProjectView>, id: Seq<char>) -> Option<ProjectView>
    decreases rows.len(),
{
    if rows.len() == 0 {
        None
    } else if rows[0].id == id {
        Some(rows[0])
    } else {
        project_with(rows.drop_first(), id)
    }
}

/// The first task with this id.
pub open spec fn task_with(rows: Seq<TaskView>, id: Seq<char>) -> Option<TaskView>
    decreases rows.len(),
{
    if rows.len() == 0 {
        None
    } else if rows[0].id == id {
        Some(rows[0])
    } else {
        task_with(rows.drop_first(), id)
    }
}

pub fn find_category(rows: &Vec<CategoryOption>, name: &str) -> (result: Option<usize>)
    ensures
        match result {
            Some(at) => at < rows.len() && category_named(category_views(rows@), name@) == Some(
                rows@[at as int]@,
            ),
            None => category_named(category_views(rows@), name@) is None,
        },
{
    let ghost views = category_views(rows@);
    let mut i: usize = 0;
    assert(views.skip(0) =~= views);
    while i < rows.len()
        invariant
            i <= rows.len(),
            views == category_views(rows@),
            category_named(views, name@) == category_named(views.skip(i as int), name@),
        decreases rows.len() - i,
    {
        assert(views.skip(i as int)[0] == rows@[i as int]@);
        if text::same(rows[i].name.as_str(), name) {
            return Some(i);
        }
        assert(views.skip(i as int).drop_first() =~= views.skip(i + 1));
        i += 1;
    }
    None
}

pub fn find_project(rows: &Vec<Project>, id: &str) -> (result: Option<usize>)
    ensures
        match result {
            Some(at) => at < rows.len() && project_with(project_views(rows@), id@) == Some(
                rows@[at as int]@,
            ),
            None => project_with(project_views(rows@), id@) is None,
        },
{
    let ghost views = project_views(rows@);
    let mut i: usize = 0;
    assert(views.skip(0) =~= views);
    while i < rows.len()
        invariant
            i <= rows.len(),
            views == project_views(rows@),
            project_with(views, id@) == project_with(views.skip(i as int), id@),
        decreases rows.len() - i,
    {
        assert(views.skip(i as int)[0] == rows@[i as int]@);
        if text::same(rows[i].id.as_str(), id) {
            return Some(i);
        }
        assert(views.skip(i as int).drop_first() =~= views.skip(i + 1));
        i += 1;
    }
    None
}

pub fn find_task(rows: &Vec<Task>, id: &str) -> (result: Option<usize>)
    ensures
        match result {
            Some(at) => at < rows.len() && task_with(task_views(rows@), id@) == Some(
                rows@[at as int]@,
            ),
            None => task_with(task_views(rows@), id@) is None,
        },
{
    let ghost views = task_views(rows@);
    let mut i: usize = 0;
    assert(views.skip(0) =~= views);
    while i < rows.len()
        invariant
            i <= rows.len(),
            views == task_views(rows@),
            task_with(views, id@) == task_with(views.skip(i as int), id@),
        decreases rows.len() - i,
    {
        assert(views.skip(i as int)[0] == rows@[i as int]@);
        if text::same(rows[i].id.as_str(), id) {
            return Some(i);
        }
        assert(views.skip(i as int).drop_first() =~= views.skip(i + 1));
        i += 1;
    }
    None
}

/// The project and the category under which a task stands.
pub open spec fn placement_of(catalog: CatalogView, task_id: Seq<char>) -> Option<
    (Seq<char>, Seq<char>),
> {
    match task_with(catalog.tasks, task_id) {
        Some(task) => match project_with(catalog.projects, task.project_id) {
            Some(project) => Some((task.project_id, project.category)),
            None => None,
        },
        None => None,
    }
}

pub fn find_placement(catalog: &Catalog, task_id: &str) -> (result: Option<(String, String)>)
    ensures
        match result {
            Some((project_id, category)) => placement_of(catalog@, task_id@) == Some(
                (project_id@, category@),
            ),
            None => placement_of(catalog@, task_id@) is None,
        },
{
    match find_task(&catalog.tasks, task_id) {
        Some(at) => match find_project(
            &catalog.projects,
            catalog.tasks[at].project_id.as_str(),
        ) {
            Some(place) => Some(
                (
                    catalog.tasks[at].project_id.clone(),
                    catalog.projects[place].category.clone(),
                ),
            ),
            None => None,
        },
        None => None,
    }
}

/// The name of a project, where it exists.
pub open spec fn project_name(catalog: CatalogView, id: Option<Seq<char>>) -> Option<Seq<char>> {
    match id {
        Some(inner) => match project_with(catalog.projects, inner) {
            Some(project) => Some(project.name),
            None => None,
        },
        None => None,
    }
}

/// The title of a task, where it exists.
pub open spec fn task_title(catalog: CatalogView, id: Option<Seq<char>>) -> Option<Seq<char>> {
    match id {
        Some(inner) => match task_with(catalog.tasks, inner) {
            Some(task) => Some(task.title),
            None => None,
        },
        None => None,
    }
}

pub fn name_of_project(catalog: &Catalog, id: &Option<String>) -> (result: Option<String>)
    ensures
        text::optional(result) == project_name(catalog@, text::optional(*id)),
{
    match id {
        Some(inner) => match find_project(&catalog.projects, inner.as_str()) {
            Some(at) => Some(catalog.projects[at].name.clone()),
            None => None,
        },
        None => None,
    }
}

pub fn title_of_task(catalog: &Catalog, id: &Option<String>) -> (result: Option<String>)
    ensures
        text::optional(result) == task_title(catalog@, text::optional(*id)),
{
    match id {
        Some(inner) => match find_task(&catalog.tasks, inner.as_str()) {
            Some(at) => Some(catalog.tasks[at].title.clone()),
            None => None,
        },
        None => None,
    }
}

/// Category, project and task form one line of the hierarchy: the task stands under the project, and
/// the project under the category.
pub open spec fn consistent(
    catalog: CatalogView,
    project: Option<Seq<char>>,
    task: Option<Seq<char>>,
    category: Seq<char>,
) -> bool {
    &&& task matches Some(id) ==> exists|place: Seq<char>|
        project == Some(place) && #[trigger] placement_of(catalog, id) == Some((place, category))
    &&& project matches Some(id) ==> (project_with(catalog.projects, id) matches Some(found)
        && found.category == category)
}

/// The assignment of a row after repair: a task decides project and category; a task that is gone is
/// dropped; a project that is gone or stands under another category is dropped.
pub open spec fn repaired_placement(
    catalog: CatalogView,
    project: Option<Seq<char>>,
    task: Option<Seq<char>>,
    category: Seq<char>,
) -> (Option<Seq<char>>, Option<Seq<char>>, Seq<char>) {
    let kept_task = match task {
        Some(id) => if task_with(catalog.tasks, id) is Some {
            task
        } else {
            None
        },
        None => None,
    };
    match kept_task {
        Some(id) => match placement_of(catalog, id) {
            Some((place, under)) => (Some(place), kept_task, under),
            None => (project, kept_task, category),
        },
        None => match project {
            Some(id) => match project_with(catalog.projects, id) {
                Some(found) => if found.category == category {
                    (project, None, category)
                } else {
                    (None, None, category)
                },
                None => (None, None, category),
            },
            None => (None, None, category),
        },
    }
}

/// Repairs the assignment of a session in place and tells whether anything changed.
pub fn repair_placement(catalog: &Catalog, session: &mut WorkSession) -> (changed: bool)
    ensures
        ({
            let before = old(session)@;
            let after = final(session)@;
            let placed = repaired_placement(
                catalog@,
                before.project_id,
                before.task_id,
                before.category,
            );
            &&& after == SessionView {
                project_id: placed.0,
                task_id: placed.1,
                category: placed.2,
                ..before
            }
            &&& changed == (after != before)
        }),
{
    let ghost before = session@;
    let mut changed = false;
    let task_found = match &session.task_id {
        Some(id) => find_task(&catalog.tasks, id.as_str()).is_some(),
        None => false,
    };
    if !task_found && session.task_id.is_some() {
        session.task_id = None;
        changed = true;
    }
    let placement = match &session.task_id {
        Some(id) => find_placement(catalog, id.as_str()),
        None => None,
    };
    if session.task_id.is_some() {
        if let Some((place, under)) = placement {
            let same_project = match &session.project_id {
                Some(current) => text::same(current.as_str(), place.as_str()),
                None => false,
            };
            if !same_project || !text::same(session.category.as_str(), under.as_str()) {
                changed = true;
            }
            session.project_id = Some(place);
            session.category = under;
        }
    } else {
        let keeps = match &session.project_id {
            Some(id) => match find_project(&catalog.projects, id.as_str()) {
                Some(at) => text::same(
                    catalog.projects[at].category.as_str(),
                    session.category.as_str(),
                ),
                None => false,
            },
            None => true,
        };
        if !keeps {
            session.project_id = None;
            changed = true;
        }
    }
    proof {
        let placed = repaired_placement(
            catalog@,
            before.project_id,
            before.task_id,
            before.category,
        );
        assert(session@ =~= SessionView {
            project_id: placed.0,
            task_id: placed.1,
            category: placed.2,
            ..before
        });
        if !changed {
            assert(session@ =~= before);
        }
    }
    changed
}

/// After repair the assignment is one line of the hierarchy, where every task of the catalog stands
/// under a project of the catalog.
pub proof fn repaired_placements_are_consistent(
    catalog: CatalogView,
    project: Option<Seq<char>>,
    task: Option<Seq<char>>,
    category: Seq<char>,
)
    requires
        forall|i: int|
            0 <= i < catalog.tasks.len() ==> project_with(
                catalog.projects,
                (#[trigger] catalog.tasks[i]).project_id,
            ) is Some,
    ensures
        ({
            let placed = repaired_placement(catalog, project, task, category);
            consistent(catalog, placed.0, placed.1, placed.2)
        }),
{
    if let Some(id) = task {
        if task_with(catalog.tasks, id) is Some {
            lemma_task_is_listed(catalog.tasks, id);
            let found = task_with(catalog.tasks, id).unwrap();
            let i = choose|i: int| 0 <= i < catalog.tasks.len() && catalog.tasks[i] == found;
            assert(project_with(catalog.projects, catalog.tasks[i].project_id) is Some);
            assert(placement_of(catalog, id) is Some);
        }
    }
}

proof fn lemma_task_is_listed(rows: Seq<TaskView>, id: Seq<char>)
    requires
        task_with(rows, id) is Some,
    ensures
        exists|i: int| 0 <= i < rows.len() && #[trigger] rows[i] == task_with(rows, id).unwrap(),
        task_with(rows, id).unwrap().id == id,
    decreases rows.len(),
{
    if rows[0].id != id {
        lemma_task_is_listed(rows.drop_first(), id);
        let rest = rows.drop_first();
        let i = choose|i: int| 0 <= i < rest.len() && #[trigger] rest[i] == task_with(rest, id).unwrap();
        assert(rows[i + 1] == rest[i]);
    } else {
        assert(rows[0] == task_with(rows, id).unwrap());
    }
}

} // verus!
