//! Promises of looking records up.
use vstd::prelude::*;

use crate::catalog;
use crate::catalog::CatalogView;
use crate::models::{CategoryView, ProjectView, SessionView, TaskView};
use crate::sessions;

verus! {

/// A project is found under its id: the one found has the id, comes first among those with it, and
/// none is found only where no project has it.
pub proof fn projects_are_found_by_id(rows: Seq<ProjectView>, id: Seq<char>)
    ensures
        match catalog::project_with(rows, id) {
            Some(found) => exists|k: int|
                0 <= k < rows.len() && #[trigger] rows[k] == found && found.id == id && forall|j: int|
                    0 <= j < k ==> (#[trigger] rows[j]).id != id,
            None => forall|k: int| 0 <= k < rows.len() ==> (#[trigger] rows[k]).id != id,
        },
    decreases rows.len(),
{
    if rows.len() > 0 && rows[0].id != id {
        let rest = rows.drop_first();
        projects_are_found_by_id(rest, id);
        match catalog::project_with(rest, id) {
            Some(found) => {
                let k = choose|k: int|
                    0 <= k < rest.len() && #[trigger] rest[k] == found && found.id == id && forall|
                        j: int,
                    |
                        0 <= j < k ==> (#[trigger] rest[j]).id != id;
                assert(rows[k + 1] == found);
                assert forall|j: int| 0 <= j < k + 1 implies (#[trigger] rows[j]).id != id by {
                    if j > 0 {
                        assert(rest[j - 1].id != id);
                    }
                }
            },
            None => {
                assert forall|k: int| 0 <= k < rows.len() implies (#[trigger] rows[k]).id != id by {
                    if k > 0 {
                        assert(rest[k - 1].id != id);
                    }
                }
            },
        }
    } else if rows.len() > 0 {
        assert(rows[0].id == id);
    }
}

/// A task is found under its id, as a project is.
pub proof fn tasks_are_found_by_id(rows: Seq<TaskView>, id: Seq<char>)
    ensures
        match catalog::task_with(rows, id) {
            Some(found) => exists|k: int|
                0 <= k < rows.len() && #[trigger] rows[k] == found && found.id == id && forall|j: int|
                    0 <= j < k ==> (#[trigger] rows[j]).id != id,
            None => forall|k: int| 0 <= k < rows.len() ==> (#[trigger] rows[k]).id != id,
        },
    decreases rows.len(),
{
    if rows.len() > 0 && rows[0].id != id {
        let rest = rows.drop_first();
        tasks_are_found_by_id(rest, id);
        match catalog::task_with(rest, id) {
            Some(found) => {
                let k = choose|k: int|
                    0 <= k < rest.len() && #[trigger] rest[k] == found && found.id == id && forall|
                        j: int,
                    |
                        0 <= j < k ==> (#[trigger] rest[j]).id != id;
                assert(rows[k + 1] == found);
                assert forall|j: int| 0 <= j < k + 1 implies (#[trigger] rows[j]).id != id by {
                    if j > 0 {
                        assert(rest[j - 1].id != id);
                    }
                }
            },
            None => {
                assert forall|k: int| 0 <= k < rows.len() implies (#[trigger] rows[k]).id != id by {
                    if k > 0 {
                        assert(rest[k - 1].id != id);
                    }
                }
            },
        }
    } else if rows.len() > 0 {
        assert(rows[0].id == id);
    }
}

/// A category is found under its name.
pub proof fn categories_are_found_by_name(rows: Seq<CategoryView>, name: Seq<char>)
    ensures
        match catalog::category_named(rows, name) {
            Some(found) => rows.contains(found) && found.name == name,
            None => forall|k: int| 0 <= k < rows.len() ==> (#[trigger] rows[k]).name != name,
        },
    decreases rows.len(),
{
    if rows.len() > 0 && rows[0].name != name {
        let rest = rows.drop_first();
        categories_are_found_by_name(rest, name);
        match catalog::category_named(rest, name) {
            Some(found) => {
                let k = choose|k: int| 0 <= k < rest.len() && rest[k] == found;
                assert(rows[k + 1] == found);
            },
            None => {
                assert forall|k: int| 0 <= k < rows.len() implies (#[trigger] rows[k]).name != name by {
                    if k > 0 {
                        assert(rest[k - 1].name != name);
                    }
                }
            },
        }
    } else if rows.len() > 0 {
        assert(rows[0].name == name);
    }
}

/// A session is found under its id.
pub proof fn sessions_are_found_by_id(rows: Seq<SessionView>, id: Seq<char>)
    ensures
        match sessions::find(rows, id) {
            Some(found) => rows.contains(found) && found.id == id,
            None => forall|k: int| 0 <= k < rows.len() ==> (#[trigger] rows[k]).id != id,
        },
    decreases rows.len(),
{
    if rows.len() > 0 && rows[0].id != id {
        let rest = rows.drop_first();
        sessions_are_found_by_id(rest, id);
        match sessions::find(rest, id) {
            Some(found) => {
                let k = choose|k: int| 0 <= k < rest.len() && rest[k] == found;
                assert(rows[k + 1] == found);
            },
            None => {
                assert forall|k: int| 0 <= k < rows.len() implies (#[trigger] rows[k]).id != id by {
                    if k > 0 {
                        assert(rest[k - 1].id != id);
                    }
                }
            },
        }
    } else if rows.len() > 0 {
        assert(rows[0].id == id);
    }
}

/// A task leads to its project and to the category of that project; the names shown with a session
/// are those of its project and its task.
pub proof fn places_and_names_are_looked_up(known: CatalogView, task: Seq<char>, project: Seq<char>)
    ensures
        catalog::placement_of(known, task) matches Some((under, category)) ==> (exists|k: int, m: int|
            0 <= k < known.tasks.len() && 0 <= m < known.projects.len() && (
            #[trigger] known.tasks[k]).id == task && known.tasks[k].project_id == under && (
            #[trigger] known.projects[m]).id == under && known.projects[m].category == category),
        catalog::placement_of(known, task) is None ==> forall|k: int|
            0 <= k < known.tasks.len() && (#[trigger] known.tasks[k]).id == task && (forall|j: int|
                0 <= j < k ==> (#[trigger] known.tasks[j]).id != task) ==> forall|m: int|
                0 <= m < known.projects.len() ==> (#[trigger] known.projects[m]).id
                    != known.tasks[k].project_id,
        catalog::project_name(known, None) is None,
        catalog::task_title(known, None) is None,
        catalog::project_name(known, Some(project)) == match catalog::project_with(
            known.projects,
            project,
        ) {
            Some(found) => Some(found.name),
            None => None,
        },
        catalog::task_title(known, Some(task)) == match catalog::task_with(known.tasks, task) {
            Some(found) => Some(found.title),
            None => None,
        },
{
    tasks_are_found_by_id(known.tasks, task);
    match catalog::task_with(known.tasks, task) {
        Some(found) => {
            projects_are_found_by_id(known.projects, found.project_id);
            let k = choose|k: int|
                0 <= k < known.tasks.len() && #[trigger] known.tasks[k] == found && found.id == task
                    && forall|j: int| 0 <= j < k ==> (#[trigger] known.tasks[j]).id != task;
            assert(known.tasks[k].id == task);
            assert forall|i: int|
                catalog::placement_of(known, task) is None && 0 <= i < known.tasks.len() && (
                #[trigger] known.tasks[i]).id == task && (forall|j: int|
                    0 <= j < i ==> (#[trigger] known.tasks[j]).id != task) implies forall|m: int|
                0 <= m < known.projects.len() ==> (#[trigger] known.projects[m]).id
                    != known.tasks[i].project_id by {
                if i < k {
                    assert(known.tasks[i].id != task);
                } else if k < i {
                    assert(known.tasks[k].id != task);
                }
            }
        },
        None => {},
    }
}

} // verus!
