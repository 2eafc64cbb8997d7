//! Writing a merged snapshot into the records of a device.
use vstd::hash_map::StringHashMap;
use vstd::hash_set::StringHashSet;
use vstd::prelude::*;
use vstd::string::*;

use crate::clock;
use crate::models::{
    GithubSyncConfig, Project, ProjectView, RuleView, SessionView, SyncConfigView, SyncDeviceInfo,
    SyncDeviceView, Task, TaskView,
};
use crate::sync;
use crate::sync::{
    Record, SnapshotView, SyncCategory, SyncCategoryView, SyncRule, SyncRuleView, SyncSession,
    SyncSessionView, SyncSnapshot, SyncTombstone, TombstoneRow, TombstoneView,
};
use crate::text;

verus! {

broadcast use vstd::seq_lib::group_seq_properties;

/// The records of a device. The names that a session shows are looked up when it is read; those
/// held here are only carried along.
#[derive(Debug, PartialEq, Eq)]
pub struct Ledger {
    pub categories: Vec<SyncCategory>,
    pub projects: Vec<Project>,
    pub tasks: Vec<Task>,
    pub sessions: Vec<SyncSession>,
    pub rules: Vec<SyncRule>,
    pub tombstones: Vec<SyncTombstone>,
    pub sleep_debt_started_on: Option<String>,
}

/// What a `Ledger` holds.
#[verifier::ext_equal]
pub struct LedgerView {
    pub categories: Seq<SyncCategoryView>,
    pub projects: Seq<ProjectView>,
    pub tasks: Seq<TaskView>,
    pub sessions: Seq<SyncSessionView>,
    pub rules: Seq<SyncRuleView>,
    pub tombstones: Seq<TombstoneView>,
    pub sleep_debt_started_on: Option<Seq<char>>,
}

impl View for Ledger {
    type V = LedgerView;

    open spec fn view(&self) -> LedgerView {
        LedgerView {
            categories: sync::record_views(self.categories@),
            projects: sync::record_views(self.projects@),
            tasks: sync::record_views(self.tasks@),
            sessions: sync::record_views(self.sessions@),
            rules: sync::record_views(self.rules@),
            tombstones: sync::record_views(self.tombstones@),
            sleep_debt_started_on: text::optional(self.sleep_debt_started_on),
        }
    }
}

/// A record that is written over an older one of its key.
pub trait Stored: Record {
    /// What is left of both.
    spec fn combined(old: Self::V, new: Self::V) -> Self::V;

    /// What the record refers to is there.
    spec fn refers(view: Self::V, projects: Set<Seq<char>>, tasks: Set<Seq<char>>) -> bool;

    fn combine(old: &Self, new: Self) -> (result: Self)
        ensures
            result@ == Self::combined(old@, new@),
    ;

    fn is_referring(&self, projects: &StringHashSet, tasks: &StringHashSet) -> (result: bool)
        ensures
            result == Self::refers(self@, projects@, tasks@),
    ;

    proof fn combining_keeps_the_key(old: Self::V, new: Self::V)
        requires
            Self::key_of(old) == Self::key_of(new),
        ensures
            Self::key_of(Self::combined(old, new)) == Self::key_of(new),
    ;
}

impl Stored for SyncCategory {
    open spec fn combined(old: Self::V, new: Self::V) -> Self::V {
        SyncCategoryView {
            is_builtin: old.is_builtin || new.is_builtin,
            created_at: old.created_at,
            ..new
        }
    }

    open spec fn refers(view: Self::V, projects: Set<Seq<char>>, tasks: Set<Seq<char>>) -> bool {
        true
    }

    fn combine(old: &Self, new: Self) -> (result: Self) {
        let mut result = new;
        result.is_builtin = old.is_builtin || result.is_builtin;
        result.created_at = old.created_at.clone();
        result
    }

    fn is_referring(&self, projects: &StringHashSet, tasks: &StringHashSet) -> (result: bool) {
        true
    }

    proof fn combining_keeps_the_key(old: Self::V, new: Self::V) {
    }
}

impl Stored for Project {
    open spec fn combined(old: Self::V, new: Self::V) -> Self::V {
        ProjectView { created_at: old.created_at, ..new }
    }

    open spec fn refers(view: Self::V, projects: Set<Seq<char>>, tasks: Set<Seq<char>>) -> bool {
        true
    }

    fn combine(old: &Self, new: Self) -> (result: Self) {
        let mut result = new;
        result.created_at = old.created_at.clone();
        result
    }

    fn is_referring(&self, projects: &StringHashSet, tasks: &StringHashSet) -> (result: bool) {
        true
    }

    proof fn combining_keeps_the_key(old: Self::V, new: Self::V) {
    }
}

impl Stored for Task {
    open spec fn combined(old: Self::V, new: Self::V) -> Self::V {
        TaskView { created_at: old.created_at, ..new }
    }

    open spec fn refers(view: Self::V, projects: Set<Seq<char>>, tasks: Set<Seq<char>>) -> bool {
        projects.contains(view.project_id)
    }

    fn combine(old: &Self, new: Self) -> (result: Self) {
        let mut result = new;
        result.created_at = old.created_at.clone();
        result
    }

    fn is_referring(&self, projects: &StringHashSet, tasks: &StringHashSet) -> (result: bool) {
        projects.contains(self.project_id.as_str())
    }

    proof fn combining_keeps_the_key(old: Self::V, new: Self::V) {
    }
}

/// There is no reference, or it leads somewhere.
pub open spec fn leads(ids: Set<Seq<char>>, id: Option<Seq<char>>) -> bool {
    id is Some ==> ids.contains(id.unwrap())
}

fn is_leading(ids: &StringHashSet, id: &Option<String>) -> (result: bool)
    ensures
        result == leads(ids@, text::optional(*id)),
{
    match id {
        Some(found) => ids.contains(found.as_str()),
        None => true,
    }
}

impl Stored for SyncSession {
    open spec fn combined(old: Self::V, new: Self::V) -> Self::V {
        new
    }

    open spec fn refers(view: Self::V, projects: Set<Seq<char>>, tasks: Set<Seq<char>>) -> bool {
        leads(projects, view.session.project_id) && leads(tasks, view.session.task_id)
    }

    fn combine(old: &Self, new: Self) -> (result: Self) {
        new
    }

    fn is_referring(&self, projects: &StringHashSet, tasks: &StringHashSet) -> (result: bool) {
        is_leading(projects, &self.session.project_id) && is_leading(tasks, &self.session.task_id)
    }

    proof fn combining_keeps_the_key(old: Self::V, new: Self::V) {
    }
}

impl Stored for SyncRule {
    open spec fn combined(old: Self::V, new: Self::V) -> Self::V {
        new
    }

    open spec fn refers(view: Self::V, projects: Set<Seq<char>>, tasks: Set<Seq<char>>) -> bool {
        true
    }

    fn combine(old: &Self, new: Self) -> (result: Self) {
        new
    }

    fn is_referring(&self, projects: &StringHashSet, tasks: &StringHashSet) -> (result: bool) {
        true
    }

    proof fn combining_keeps_the_key(old: Self::V, new: Self::V) {
    }
}

impl Stored for TombstoneRow {
    open spec fn combined(old: Self::V, new: Self::V) -> Self::V {
        new
    }

    open spec fn refers(view: Self::V, projects: Set<Seq<char>>, tasks: Set<Seq<char>>) -> bool {
        true
    }

    fn combine(old: &Self, new: Self) -> (result: Self) {
        new
    }

    fn is_referring(&self, projects: &StringHashSet, tasks: &StringHashSet) -> (result: bool) {
        true
    }

    proof fn combining_keeps_the_key(old: Self::V, new: Self::V) {
    }
}

/// The list with a record written, unless the one with its key is newer; none where a record that
/// is written refers to what is not there.
pub open spec fn written<T: Stored>(
    list: Seq<T::V>,
    item: T::V,
    projects: Set<Seq<char>>,
    tasks: Set<Seq<char>>,
) -> Option<Seq<T::V>> {
    let at = sync::spot::<T>(list, T::key_of(item)) as int;
    if at < list.len() && text::precedes(T::time_of(item), T::time_of(list[at])) {
        Some(list)
    } else if !T::refers(item, projects, tasks) {
        None
    } else if at < list.len() {
        Some(list.update(at, T::combined(list[at], item)))
    } else {
        Some(list.push(item))
    }
}

/// The list with these records written in turn.
pub open spec fn written_all<T: Stored>(
    list: Seq<T::V>,
    items: Seq<T::V>,
    projects: Set<Seq<char>>,
    tasks: Set<Seq<char>>,
) -> Option<Seq<T::V>>
    decreases items.len(),
{
    if items.len() == 0 {
        Some(list)
    } else {
        match written_all::<T>(list, items.drop_last(), projects, tasks) {
            Some(before) => written::<T>(before, items.last(), projects, tasks),
            None => None,
        }
    }
}

proof fn lemma_written_none<T: Stored>(
    list: Seq<T::V>,
    items: Seq<T::V>,
    projects: Set<Seq<char>>,
    tasks: Set<Seq<char>>,
    n: int,
)
    requires
        0 <= n <= items.len(),
        written_all::<T>(list, items.take(n), projects, tasks) is None,
    ensures
        written_all::<T>(list, items, projects, tasks) is None,
    decreases items.len(),
{
    if n < items.len() {
        assert(items.drop_last().take(n) =~= items.take(n));
        lemma_written_none::<T>(list, items.drop_last(), projects, tasks, n);
    } else {
        assert(items.take(n) =~= items);
    }
}

fn build_index<T: Record>(list: &Vec<T>) -> (result: StringHashMap<usize>)
    requires
        sync::keys_differ::<T>(sync::record_views(list@)),
    ensures
        sync::indexes::<T>(result@, sync::record_views(list@)),
{
    let ghost views = sync::record_views(list@);
    let mut result: StringHashMap<usize> = StringHashMap::new();
    let mut i: usize = 0;
    assert(views.take(0) =~= Seq::empty());
    while i < list.len()
        invariant
            i <= list.len(),
            views == sync::record_views(list@),
            sync::keys_differ::<T>(views),
            sync::indexes::<T>(result@, views.take(i as int)),
        decreases list.len() - i,
    {
        let key = list[i].record_key();
        assert(views[i as int] == list@[i as int]@);
        let ghost before = result@;
        let ghost added = key@;
        result.insert(key, i);
        proof {
            let upto = views.take(i + 1);
            assert forall|k: int| 0 <= k < upto.len() implies result@.contains_key(
                T::key_of(#[trigger] upto[k]),
            ) && result@[T::key_of(upto[k])] == k by {
                if k < i {
                    assert(upto[k] == views.take(i as int)[k]);
                    assert(T::key_of(views[k]) != T::key_of(views[i as int]));
                }
            }
            assert forall|other: Seq<char>| #[trigger]
                result@.contains_key(other) implies result@[other] < upto.len() && T::key_of(
                upto[result@[other] as int],
            ) == other by {
                if other != added {
                    assert(before.contains_key(other));
                    assert(upto[before[other] as int] == views.take(
                        i as int,
                    )[before[other] as int]);
                }
            }
        }
        i += 1;
    }
    assert(views.take(list.len() as int) =~= views);
    result
}

fn write_all<T: Stored>(
    list: Vec<T>,
    items: Vec<T>,
    projects: &StringHashSet,
    tasks: &StringHashSet,
) -> (result: Option<Vec<T>>)
    requires
        sync::keys_differ::<T>(sync::record_views(list@)),
    ensures
        match result {
            Some(after) => written_all::<T>(
                sync::record_views(list@),
                sync::record_views(items@),
                projects@,
                tasks@,
            ) == Some(sync::record_views(after@)) && sync::keys_differ::<T>(
                sync::record_views(after@),
            ),
            None => written_all::<T>(
                sync::record_views(list@),
                sync::record_views(items@),
                projects@,
                tasks@,
            ) is None,
        },
{
    let ghost first = sync::record_views(list@);
    let ghost added = sync::record_views(items@);
    let mut index = build_index(&list);
    let mut rows = list;
    assert(added.take(0) =~= Seq::empty());
    for item in it: items
        invariant
            added == sync::record_views(it.seq()),
            written_all::<T>(first, added.take(it.index()), projects@, tasks@) == Some(
                sync::record_views(rows@),
            ),
            sync::indexes::<T>(index@, sync::record_views(rows@)),
            first == sync::record_views(list@),
            added == sync::record_views(items@),
    {
        let ghost before = sync::record_views(rows@);
        let ghost i = it.index();
        let ghost view = item@;
        assert(added[i] == view);
        assert(added.take(i + 1).drop_last() =~= added.take(i));
        assert(added.take(i + 1).last() == view);
        let key = item.record_key();
        proof {
            sync::lemma_indexed_spot::<T>(index@, before, key@);
        }
        match index.get(key.as_str()) {
            Some(found) => {
                let at: usize = *found;
                assert(before[at as int] == rows@[at as int]@);
                if !text::less(item.record_time(), rows[at].record_time()) {
                    if !item.is_referring(projects, tasks) {
                        proof {
                            lemma_written_none::<T>(first, added, projects@, tasks@, i + 1);
                        }
                        return None;
                    }
                    let combined = T::combine(&rows[at], item);
                    proof {
                        T::combining_keeps_the_key(before[at as int], view);
                    }
                    rows.set(at, combined);
                    assert(sync::record_views(rows@) =~= before.update(
                        at as int,
                        T::combined(before[at as int], view),
                    ));
                    assert(sync::indexes::<T>(index@, sync::record_views(rows@)));
                }
            },
            None => {
                if !item.is_referring(projects, tasks) {
                    proof {
                        lemma_written_none::<T>(first, added, projects@, tasks@, i + 1);
                    }
                    return None;
                }
                let at: usize = rows.len();
                rows.push(item);
                index.insert(key, at);
                assert(sync::record_views(rows@) =~= before.push(view));
                assert(sync::indexes::<T>(index@, sync::record_views(rows@)));
            },
        }
    }
    assert(added.take(added.len() as int) =~= added);
    proof {
        sync::lemma_indexed_keys_differ::<T>(index@, sync::record_views(rows@));
    }
    Some(rows)
}

/// The first of the two references is the project, or the second is one of the tasks.
pub open spec fn touches(
    project_id: Option<Seq<char>>,
    task_id: Option<Seq<char>>,
    project: Option<Seq<char>>,
    tasks: Seq<Seq<char>>,
) -> bool {
    (project is Some && project_id == project) || (task_id is Some && tasks.contains(
        task_id.unwrap(),
    ))
}

fn is_named(id: &Option<String>, wanted: &Option<String>) -> (result: bool)
    ensures
        result == (text::optional(*wanted) is Some && text::optional(*id) == text::optional(*wanted)),
{
    match (id, wanted) {
        (Some(found), Some(name)) => text::same(found.as_str(), name.as_str()),
        _ => false,
    }
}

fn is_in(id: &Option<String>, set: &StringHashSet, tasks: Ghost<Seq<Seq<char>>>) -> (result: bool)
    requires
        forall|key: Seq<char>| #[trigger] set@.contains(key) == tasks@.contains(key),
    ensures
        result == (text::optional(*id) is Some && tasks@.contains(text::optional(*id).unwrap())),
{
    match id {
        Some(found) => set.contains(found.as_str()),
        None => false,
    }
}

fn is_touching(
    project_id: &Option<String>,
    task_id: &Option<String>,
    project: &Option<String>,
    set: &StringHashSet,
    tasks: Ghost<Seq<Seq<char>>>,
) -> (result: bool)
    requires
        forall|key: Seq<char>| #[trigger] set@.contains(key) == tasks@.contains(key),
    ensures
        result == touches(
            text::optional(*project_id),
            text::optional(*task_id),
            text::optional(*project),
            tasks@,
        ),
{
    is_named(project_id, project) || is_in(task_id, set, tasks)
}

/// The session without the references to the project and to the tasks.
pub open spec fn released(
    item: SyncSessionView,
    project: Option<Seq<char>>,
    tasks: Seq<Seq<char>>,
) -> SyncSessionView {
    let lost_project = project is Some && item.session.project_id == project;
    let lost_task = item.session.task_id is Some && tasks.contains(item.session.task_id.unwrap());
    SyncSessionView {
        session: SessionView {
            project_id: if lost_project {
                None
            } else {
                item.session.project_id
            },
            project_name: if lost_project {
                None
            } else {
                item.session.project_name
            },
            task_id: if lost_task {
                None
            } else {
                item.session.task_id
            },
            task_title: if lost_task {
                None
            } else {
                item.session.task_title
            },
            ..item.session
        },
        ..item
    }
}

pub open spec fn moved_project(
    item: ProjectView,
    from: Seq<char>,
    to: Seq<char>,
    color: Option<Seq<char>>,
    at: Seq<char>,
) -> ProjectView {
    if item.category == from {
        ProjectView {
            category: to,
            color: match color {
                Some(given) => given,
                None => item.color,
            },
            updated_at: at,
            ..item
        }
    } else {
        item
    }
}

pub open spec fn moved_session(
    item: SyncSessionView,
    from: Seq<char>,
    to: Seq<char>,
    at: Seq<char>,
) -> SyncSessionView {
    if item.session.category == from {
        SyncSessionView { session: SessionView { category: to, ..item.session }, updated_at: at }
    } else {
        item
    }
}

pub open spec fn moved_rule(
    item: SyncRuleView,
    from: Seq<char>,
    to: Seq<char>,
    at: Seq<char>,
) -> SyncRuleView {
    if item.rule.category == from {
        SyncRuleView { rule: RuleView { category: to, ..item.rule }, updated_at: at }
    } else {
        item
    }
}

pub open spec fn placed_session(
    item: SyncSessionView,
    project: Option<Seq<char>>,
    tasks: Seq<Seq<char>>,
    category: Seq<char>,
    at: Seq<char>,
) -> SyncSessionView {
    if touches(item.session.project_id, item.session.task_id, project, tasks) {
        SyncSessionView { session: SessionView { category, ..item.session }, updated_at: at }
    } else {
        item
    }
}

pub open spec fn placed_rule(
    item: SyncRuleView,
    project: Option<Seq<char>>,
    tasks: Seq<Seq<char>>,
    category: Seq<char>,
    at: Seq<char>,
) -> SyncRuleView {
    if touches(item.rule.project_id, item.rule.task_id, project, tasks) {
        SyncRuleView { rule: RuleView { category, ..item.rule }, updated_at: at }
    } else {
        item
    }
}

/// The categories other than this one.
pub open spec fn categories_without(list: Seq<SyncCategoryView>, gone: Seq<char>) -> Seq<SyncCategoryView> {
    list.filter(|item: SyncCategoryView| item.name != gone)
}

pub(crate) fn drop_category(list: Vec<SyncCategory>, gone: &str) -> (result: Vec<SyncCategory>)
    ensures
        sync::record_views(result@) == categories_without(sync::record_views(list@), gone@),
{
    let ghost views = sync::record_views(list@);
    let ghost keep = |item: SyncCategoryView| item.name != gone@;
    let mut result: Vec<SyncCategory> = Vec::new();
    assert(views.take(0).filter(keep) =~= Seq::empty()) by {
        reveal(Seq::filter);
    }
    assert(sync::record_views(result@) =~= views.take(0).filter(keep));
    for item in it: list
        invariant
            views == sync::record_views(it.seq()),
            keep == (|item: SyncCategoryView| item.name != gone@),
            sync::record_views(result@) == views.take(it.index()).filter(keep),
    {
        let ghost i = it.index();
        let ghost view = item@;
        let ghost before = sync::record_views(result@);
        assert(views[i] == view);
        assert(views.take(i + 1) =~= views.take(i).push(view));
        proof {
            views.take(i).lemma_filter_push(view, keep);
        }
        if !text::same(item.name.as_str(), gone) {
            result.push(item);
            assert(sync::record_views(result@) =~= before.push(view));
        }
    }
    assert(views.take(views.len() as int) =~= views);
    result
}

/// The projects other than this one.
pub open spec fn projects_without(list: Seq<ProjectView>, gone: Seq<char>) -> Seq<ProjectView> {
    list.filter(|item: ProjectView| item.id != gone)
}

fn drop_project(list: Vec<Project>, gone: &str) -> (result: Vec<Project>)
    ensures
        sync::record_views(result@) == projects_without(sync::record_views(list@), gone@),
{
    let ghost views = sync::record_views(list@);
    let ghost keep = |item: ProjectView| item.id != gone@;
    let mut result: Vec<Project> = Vec::new();
    assert(views.take(0).filter(keep) =~= Seq::empty()) by {
        reveal(Seq::filter);
    }
    assert(sync::record_views(result@) =~= views.take(0).filter(keep));
    for item in it: list
        invariant
            views == sync::record_views(it.seq()),
            keep == (|item: ProjectView| item.id != gone@),
            sync::record_views(result@) == views.take(it.index()).filter(keep),
    {
        let ghost i = it.index();
        let ghost view = item@;
        let ghost before = sync::record_views(result@);
        assert(views[i] == view);
        assert(views.take(i + 1) =~= views.take(i).push(view));
        proof {
            views.take(i).lemma_filter_push(view, keep);
        }
        if !text::same(item.id.as_str(), gone) {
            result.push(item);
            assert(sync::record_views(result@) =~= before.push(view));
        }
    }
    assert(views.take(views.len() as int) =~= views);
    result
}

/// The tasks other than this one.
pub open spec fn tasks_without(list: Seq<TaskView>, gone: Seq<char>) -> Seq<TaskView> {
    list.filter(|item: TaskView| item.id != gone)
}

fn drop_task(list: Vec<Task>, gone: &str) -> (result: Vec<Task>)
    ensures
        sync::record_views(result@) == tasks_without(sync::record_views(list@), gone@),
{
    let ghost views = sync::record_views(list@);
    let ghost keep = |item: TaskView| item.id != gone@;
    let mut result: Vec<Task> = Vec::new();
    assert(views.take(0).filter(keep) =~= Seq::empty()) by {
        reveal(Seq::filter);
    }
    assert(sync::record_views(result@) =~= views.take(0).filter(keep));
    for item in it: list
        invariant
            views == sync::record_views(it.seq()),
            keep == (|item: TaskView| item.id != gone@),
            sync::record_views(result@) == views.take(it.index()).filter(keep),
    {
        let ghost i = it.index();
        let ghost view = item@;
        let ghost before = sync::record_views(result@);
        assert(views[i] == view);
        assert(views.take(i + 1) =~= views.take(i).push(view));
        proof {
            views.take(i).lemma_filter_push(view, keep);
        }
        if !text::same(item.id.as_str(), gone) {
            result.push(item);
            assert(sync::record_views(result@) =~= before.push(view));
        }
    }
    assert(views.take(views.len() as int) =~= views);
    result
}

/// The tasks of other projects than this one.
pub open spec fn tasks_outside(list: Seq<TaskView>, gone: Seq<char>) -> Seq<TaskView> {
    list.filter(|item: TaskView| item.project_id != gone)
}

fn drop_tasks_of(list: Vec<Task>, gone: &str) -> (result: Vec<Task>)
    ensures
        sync::record_views(result@) == tasks_outside(sync::record_views(list@), gone@),
{
    let ghost views = sync::record_views(list@);
    let ghost keep = |item: TaskView| item.project_id != gone@;
    let mut result: Vec<Task> = Vec::new();
    assert(views.take(0).filter(keep) =~= Seq::empty()) by {
        reveal(Seq::filter);
    }
    assert(sync::record_views(result@) =~= views.take(0).filter(keep));
    for item in it: list
        invariant
            views == sync::record_views(it.seq()),
            keep == (|item: TaskView| item.project_id != gone@),
            sync::record_views(result@) == views.take(it.index()).filter(keep),
    {
        let ghost i = it.index();
        let ghost view = item@;
        let ghost before = sync::record_views(result@);
        assert(views[i] == view);
        assert(views.take(i + 1) =~= views.take(i).push(view));
        proof {
            views.take(i).lemma_filter_push(view, keep);
        }
        if !text::same(item.project_id.as_str(), gone) {
            result.push(item);
            assert(sync::record_views(result@) =~= before.push(view));
        }
    }
    assert(views.take(views.len() as int) =~= views);
    result
}

/// The sessions other than this one.
pub open spec fn sessions_without(list: Seq<SyncSessionView>, gone: Seq<char>) -> Seq<SyncSessionView> {
    list.filter(|item: SyncSessionView| item.session.id != gone)
}

fn drop_session(list: Vec<SyncSession>, gone: &str) -> (result: Vec<SyncSession>)
    ensures
        sync::record_views(result@) == sessions_without(sync::record_views(list@), gone@),
{
    let ghost views = sync::record_views(list@);
    let ghost keep = |item: SyncSessionView| item.session.id != gone@;
    let mut result: Vec<SyncSession> = Vec::new();
    assert(views.take(0).filter(keep) =~= Seq::empty()) by {
        reveal(Seq::filter);
    }
    assert(sync::record_views(result@) =~= views.take(0).filter(keep));
    for item in it: list
        invariant
            views == sync::record_views(it.seq()),
            keep == (|item: SyncSessionView| item.session.id != gone@),
            sync::record_views(result@) == views.take(it.index()).filter(keep),
    {
        let ghost i = it.index();
        let ghost view = item@;
        let ghost before = sync::record_views(result@);
        assert(views[i] == view);
        assert(views.take(i + 1) =~= views.take(i).push(view));
        proof {
            views.take(i).lemma_filter_push(view, keep);
        }
        if !text::same(item.session.id.as_str(), gone) {
            result.push(item);
            assert(sync::record_views(result@) =~= before.push(view));
        }
    }
    assert(views.take(views.len() as int) =~= views);
    result
}

/// The rules other than this one.
pub open spec fn rules_without(list: Seq<SyncRuleView>, gone: Seq<char>) -> Seq<SyncRuleView> {
    list.filter(|item: SyncRuleView| item.rule.id != gone)
}

fn drop_rule(list: Vec<SyncRule>, gone: &str) -> (result: Vec<SyncRule>)
    ensures
        sync::record_views(result@) == rules_without(sync::record_views(list@), gone@),
{
    let ghost views = sync::record_views(list@);
    let ghost keep = |item: SyncRuleView| item.rule.id != gone@;
    let mut result: Vec<SyncRule> = Vec::new();
    assert(views.take(0).filter(keep) =~= Seq::empty()) by {
        reveal(Seq::filter);
    }
    assert(sync::record_views(result@) =~= views.take(0).filter(keep));
    for item in it: list
        invariant
            views == sync::record_views(it.seq()),
            keep == (|item: SyncRuleView| item.rule.id != gone@),
            sync::record_views(result@) == views.take(it.index()).filter(keep),
    {
        let ghost i = it.index();
        let ghost view = item@;
        let ghost before = sync::record_views(result@);
        assert(views[i] == view);
        assert(views.take(i + 1) =~= views.take(i).push(view));
        proof {
            views.take(i).lemma_filter_push(view, keep);
        }
        if !text::same(item.rule.id.as_str(), gone) {
            result.push(item);
            assert(sync::record_views(result@) =~= before.push(view));
        }
    }
    assert(views.take(views.len() as int) =~= views);
    result
}

/// The rules that name neither the project nor one of the tasks.
pub open spec fn rules_outside(list: Seq<SyncRuleView>, project: Option<Seq<char>>, tasks: Seq<Seq<char>>) -> Seq<SyncRuleView> {
    list.filter(|item: SyncRuleView| !touches(item.rule.project_id, item.rule.task_id, project, tasks))
}

fn drop_rules_of(list: Vec<SyncRule>, project: &Option<String>, set: &StringHashSet, tasks: Ghost<Seq<Seq<char>>>) -> (result: Vec<SyncRule>)
    requires
        forall|key: Seq<char>| #[trigger] set@.contains(key) == tasks@.contains(key),
    ensures
        sync::record_views(result@) == rules_outside(sync::record_views(list@), text::optional(*project), tasks@),
{
    let ghost views = sync::record_views(list@);
    let ghost keep = |item: SyncRuleView| !touches(item.rule.project_id, item.rule.task_id, text::optional(*project), tasks@);
    let mut result: Vec<SyncRule> = Vec::new();
    assert(views.take(0).filter(keep) =~= Seq::empty()) by {
        reveal(Seq::filter);
    }
    assert(sync::record_views(result@) =~= views.take(0).filter(keep));
    for item in it: list
        invariant
            views == sync::record_views(it.seq()),
            forall|key: Seq<char>| #[trigger] set@.contains(key) == tasks@.contains(key),
            keep == (|item: SyncRuleView| !touches(item.rule.project_id, item.rule.task_id, text::optional(*project), tasks@)),
            sync::record_views(result@) == views.take(it.index()).filter(keep),
    {
        let ghost i = it.index();
        let ghost view = item@;
        let ghost before = sync::record_views(result@);
        assert(views[i] == view);
        assert(views.take(i + 1) =~= views.take(i).push(view));
        proof {
            views.take(i).lemma_filter_push(view, keep);
        }
        if !is_touching(&item.rule.project_id, &item.rule.task_id, project, set, tasks) {
            result.push(item);
            assert(sync::record_views(result@) =~= before.push(view));
        }
    }
    assert(views.take(views.len() as int) =~= views);
    result
}

/// The sessions, without the references to the project and to the tasks.
pub open spec fn sessions_released(list: Seq<SyncSessionView>, project: Option<Seq<char>>, tasks: Seq<Seq<char>>) -> Seq<SyncSessionView> {
    list.map_values(|item: SyncSessionView| released(item, project, tasks))
}

fn release_sessions(list: Vec<SyncSession>, project: &Option<String>, set: &StringHashSet, tasks: Ghost<Seq<Seq<char>>>) -> (result: Vec<SyncSession>)
    requires
        forall|key: Seq<char>| #[trigger] set@.contains(key) == tasks@.contains(key),
    ensures
        sync::record_views(result@) == sessions_released(sync::record_views(list@), text::optional(*project), tasks@),
{
    let ghost views = sync::record_views(list@);
    let ghost change = |item: SyncSessionView| released(item, text::optional(*project), tasks@);
    let mut result: Vec<SyncSession> = Vec::new();
    assert(sync::record_views(result@) =~= views.take(0).map_values(change));
    for item in it: list
        invariant
            views == sync::record_views(it.seq()),
            forall|key: Seq<char>| #[trigger] set@.contains(key) == tasks@.contains(key),
            change == (|item: SyncSessionView| released(item, text::optional(*project), tasks@)),
            sync::record_views(result@) == views.take(it.index()).map_values(change),
    {
        let ghost i = it.index();
        let ghost view = item@;
        let ghost before = sync::record_views(result@);
        assert(views[i] == view);
        assert(views.take(i + 1) =~= views.take(i).push(view));
        let mut after = item;
        if is_named(&after.session.project_id, project) {
            after.session.project_id = None;
            after.session.project_name = None;
        }
        if is_in(&after.session.task_id, set, tasks) {
            after.session.task_id = None;
            after.session.task_title = None;
        }
        assert(after@ =~= change(view));
        result.push(after);
        assert(sync::record_views(result@) =~= before.push(change(view)));
        assert(views.take(i).push(view).map_values(change) =~= views.take(i).map_values(change).push(change(view)));
    }
    assert(views.take(views.len() as int) =~= views);
    result
}

/// The projects, those of one category moved to another. Without a new colour they keep theirs.
pub open spec fn projects_moved(list: Seq<ProjectView>, from: Seq<char>, to: Seq<char>, color: Option<Seq<char>>, at: Seq<char>) -> Seq<ProjectView> {
    list.map_values(|item: ProjectView| moved_project(item, from, to, color, at))
}

pub(crate) fn move_projects(list: Vec<Project>, from: &str, to: &str, color: &Option<String>, at: &str) -> (result: Vec<Project>)
    ensures
        sync::record_views(result@) == projects_moved(sync::record_views(list@), from@, to@, text::optional(*color), at@),
{
    let ghost views = sync::record_views(list@);
    let ghost change = |item: ProjectView| moved_project(item, from@, to@, text::optional(*color), at@);
    let mut result: Vec<Project> = Vec::new();
    assert(sync::record_views(result@) =~= views.take(0).map_values(change));
    for item in it: list
        invariant
            views == sync::record_views(it.seq()),
            change == (|item: ProjectView| moved_project(item, from@, to@, text::optional(*color), at@)),
            sync::record_views(result@) == views.take(it.index()).map_values(change),
    {
        let ghost i = it.index();
        let ghost view = item@;
        let ghost before = sync::record_views(result@);
        assert(views[i] == view);
        assert(views.take(i + 1) =~= views.take(i).push(view));
        let mut after = item;
        if text::same(after.category.as_str(), from) {
            after.category = to.to_owned();
            match color {
                Some(given) => {
                    after.color = given.clone();
                },
                None => {},
            }
            after.updated_at = at.to_owned();
        }
        assert(after@ =~= change(view));
        result.push(after);
        assert(sync::record_views(result@) =~= before.push(change(view)));
        assert(views.take(i).push(view).map_values(change) =~= views.take(i).map_values(change).push(change(view)));
    }
    assert(views.take(views.len() as int) =~= views);
    result
}

/// The sessions, those of one category moved to another.
pub open spec fn sessions_moved(list: Seq<SyncSessionView>, from: Seq<char>, to: Seq<char>, at: Seq<char>) -> Seq<SyncSessionView> {
    list.map_values(|item: SyncSessionView| moved_session(item, from, to, at))
}

pub(crate) fn move_sessions(list: Vec<SyncSession>, from: &str, to: &str, at: &str) -> (result: Vec<SyncSession>)
    ensures
        sync::record_views(result@) == sessions_moved(sync::record_views(list@), from@, to@, at@),
{
    let ghost views = sync::record_views(list@);
    let ghost change = |item: SyncSessionView| moved_session(item, from@, to@, at@);
    let mut result: Vec<SyncSession> = Vec::new();
    assert(sync::record_views(result@) =~= views.take(0).map_values(change));
    for item in it: list
        invariant
            views == sync::record_views(it.seq()),
            change == (|item: SyncSessionView| moved_session(item, from@, to@, at@)),
            sync::record_views(result@) == views.take(it.index()).map_values(change),
    {
        let ghost i = it.index();
        let ghost view = item@;
        let ghost before = sync::record_views(result@);
        assert(views[i] == view);
        assert(views.take(i + 1) =~= views.take(i).push(view));
        let mut after = item;
        if text::same(after.session.category.as_str(), from) {
            after.session.category = to.to_owned();
            after.updated_at = at.to_owned();
        }
        assert(after@ =~= change(view));
        result.push(after);
        assert(sync::record_views(result@) =~= before.push(change(view)));
        assert(views.take(i).push(view).map_values(change) =~= views.take(i).map_values(change).push(change(view)));
    }
    assert(views.take(views.len() as int) =~= views);
    result
}

/// The rules, those of one category moved to another.
pub open spec fn rules_moved(list: Seq<SyncRuleView>, from: Seq<char>, to: Seq<char>, at: Seq<char>) -> Seq<SyncRuleView> {
    list.map_values(|item: SyncRuleView| moved_rule(item, from, to, at))
}

pub(crate) fn move_rules(list: Vec<SyncRule>, from: &str, to: &str, at: &str) -> (result: Vec<SyncRule>)
    ensures
        sync::record_views(result@) == rules_moved(sync::record_views(list@), from@, to@, at@),
{
    let ghost views = sync::record_views(list@);
    let ghost change = |item: SyncRuleView| moved_rule(item, from@, to@, at@);
    let mut result: Vec<SyncRule> = Vec::new();
    assert(sync::record_views(result@) =~= views.take(0).map_values(change));
    for item in it: list
        invariant
            views == sync::record_views(it.seq()),
            change == (|item: SyncRuleView| moved_rule(item, from@, to@, at@)),
            sync::record_views(result@) == views.take(it.index()).map_values(change),
    {
        let ghost i = it.index();
        let ghost view = item@;
        let ghost before = sync::record_views(result@);
        assert(views[i] == view);
        assert(views.take(i + 1) =~= views.take(i).push(view));
        let mut after = item;
        if text::same(after.rule.category.as_str(), from) {
            after.rule.category = to.to_owned();
            after.updated_at = at.to_owned();
        }
        assert(after@ =~= change(view));
        result.push(after);
        assert(sync::record_views(result@) =~= before.push(change(view)));
        assert(views.take(i).push(view).map_values(change) =~= views.take(i).map_values(change).push(change(view)));
    }
    assert(views.take(views.len() as int) =~= views);
    result
}

/// The sessions, those of the project or of its tasks put under the category.
pub open spec fn sessions_placed(list: Seq<SyncSessionView>, project: Option<Seq<char>>, tasks: Seq<Seq<char>>, category: Seq<char>, at: Seq<char>) -> Seq<SyncSessionView> {
    list.map_values(|item: SyncSessionView| placed_session(item, project, tasks, category, at))
}

pub(crate) fn place_sessions(list: Vec<SyncSession>, project: &Option<String>, set: &StringHashSet, tasks: Ghost<Seq<Seq<char>>>, category: &str, at: &str) -> (result: Vec<SyncSession>)
    requires
        forall|key: Seq<char>| #[trigger] set@.contains(key) == tasks@.contains(key),
    ensures
        sync::record_views(result@) == sessions_placed(sync::record_views(list@), text::optional(*project), tasks@, category@, at@),
{
    let ghost views = sync::record_views(list@);
    let ghost change = |item: SyncSessionView| placed_session(item, text::optional(*project), tasks@, category@, at@);
    let mut result: Vec<SyncSession> = Vec::new();
    assert(sync::record_views(result@) =~= views.take(0).map_values(change));
    for item in it: list
        invariant
            views == sync::record_views(it.seq()),
            forall|key: Seq<char>| #[trigger] set@.contains(key) == tasks@.contains(key),
            change == (|item: SyncSessionView| placed_session(item, text::optional(*project), tasks@, category@, at@)),
            sync::record_views(result@) == views.take(it.index()).map_values(change),
    {
        let ghost i = it.index();
        let ghost view = item@;
        let ghost before = sync::record_views(result@);
        assert(views[i] == view);
        assert(views.take(i + 1) =~= views.take(i).push(view));
        let mut after = item;
        if is_touching(&after.session.project_id, &after.session.task_id, project, set, tasks) {
            after.session.category = category.to_owned();
            after.updated_at = at.to_owned();
        }
        assert(after@ =~= change(view));
        result.push(after);
        assert(sync::record_views(result@) =~= before.push(change(view)));
        assert(views.take(i).push(view).map_values(change) =~= views.take(i).map_values(change).push(change(view)));
    }
    assert(views.take(views.len() as int) =~= views);
    result
}

/// The rules, those of the project or of its tasks put under the category.
pub open spec fn rules_placed(list: Seq<SyncRuleView>, project: Option<Seq<char>>, tasks: Seq<Seq<char>>, category: Seq<char>, at: Seq<char>) -> Seq<SyncRuleView> {
    list.map_values(|item: SyncRuleView| placed_rule(item, project, tasks, category, at))
}

pub(crate) fn place_rules(list: Vec<SyncRule>, project: &Option<String>, set: &StringHashSet, tasks: Ghost<Seq<Seq<char>>>, category: &str, at: &str) -> (result: Vec<SyncRule>)
    requires
        forall|key: Seq<char>| #[trigger] set@.contains(key) == tasks@.contains(key),
    ensures
        sync::record_views(result@) == rules_placed(sync::record_views(list@), text::optional(*project), tasks@, category@, at@),
{
    let ghost views = sync::record_views(list@);
    let ghost change = |item: SyncRuleView| placed_rule(item, text::optional(*project), tasks@, category@, at@);
    let mut result: Vec<SyncRule> = Vec::new();
    assert(sync::record_views(result@) =~= views.take(0).map_values(change));
    for item in it: list
        invariant
            views == sync::record_views(it.seq()),
            forall|key: Seq<char>| #[trigger] set@.contains(key) == tasks@.contains(key),
            change == (|item: SyncRuleView| placed_rule(item, text::optional(*project), tasks@, category@, at@)),
            sync::record_views(result@) == views.take(it.index()).map_values(change),
    {
        let ghost i = it.index();
        let ghost view = item@;
        let ghost before = sync::record_views(result@);
        assert(views[i] == view);
        assert(views.take(i + 1) =~= views.take(i).push(view));
        let mut after = item;
        if is_touching(&after.rule.project_id, &after.rule.task_id, project, set, tasks) {
            after.rule.category = category.to_owned();
            after.updated_at = at.to_owned();
        }
        assert(after@ =~= change(view));
        result.push(after);
        assert(sync::record_views(result@) =~= before.push(change(view)));
        assert(views.take(i).push(view).map_values(change) =~= views.take(i).map_values(change).push(change(view)));
    }
    assert(views.take(views.len() as int) =~= views);
    result
}

/// The tasks of a project.
pub open spec fn tasks_of(tasks: Seq<TaskView>, project: Seq<char>) -> Seq<Seq<char>> {
    tasks.filter(|task: TaskView| task.project_id == project).map_values(|task: TaskView| task.id)
}

pub(crate) fn list_tasks_of(tasks: &Vec<Task>, project: &str) -> (result: Vec<String>)
    ensures
        text::texts(result@) == tasks_of(sync::record_views(tasks@), project@),
{
    let ghost views = sync::record_views(tasks@);
    let ghost keep = |task: TaskView| task.project_id == project@;
    let ghost pick = |task: TaskView| task.id;
    let mut result: Vec<String> = Vec::new();
    let mut i: usize = 0;
    assert(views.take(0).filter(keep) =~= Seq::empty()) by {
        reveal(Seq::filter);
    }
    assert(text::texts(result@) =~= views.take(0).filter(keep).map_values(pick));
    while i < tasks.len()
        invariant
            i <= tasks.len(),
            views == sync::record_views(tasks@),
            keep == (|task: TaskView| task.project_id == project@),
            pick == (|task: TaskView| task.id),
            text::texts(result@) == views.take(i as int).filter(keep).map_values(pick),
        decreases tasks.len() - i,
    {
        let ghost before = text::texts(result@);
        let ghost done = views.take(i as int).filter(keep);
        assert(views.take(i + 1) =~= views.take(i as int).push(views[i as int]));
        proof {
            views.take(i as int).lemma_filter_push(views[i as int], keep);
        }
        if text::same(tasks[i].project_id.as_str(), project) {
            result.push(tasks[i].id.clone());
            assert(text::texts(result@) =~= before.push(views[i as int].id));
            assert(done.push(views[i as int]).map_values(pick) =~= done.map_values(pick).push(
                views[i as int].id,
            ));
        }
        i += 1;
    }
    assert(views.take(tasks.len() as int) =~= views);
    result
}

pub(crate) fn set_of(list: &Vec<String>) -> (result: StringHashSet)
    ensures
        forall|key: Seq<char>| #[trigger]
            result@.contains(key) == text::texts(list@).contains(key),
{
    let ghost all = text::texts(list@);
    let mut result: StringHashSet = StringHashSet::new();
    let mut i: usize = 0;
    while i < list.len()
        invariant
            i <= list.len(),
            all == text::texts(list@),
            forall|key: Seq<char>| #[trigger]
                result@.contains(key) == all.take(i as int).contains(key),
        decreases list.len() - i,
    {
        let ghost before = result@;
        result.insert(list[i].clone());
        assert forall|key: Seq<char>| #[trigger]
            result@.contains(key) == all.take(i + 1).contains(key) by {
            assert(all.take(i + 1) =~= all.take(i as int).push(all[i as int]));
            assert(before.contains(key) == all.take(i as int).contains(key));
            if all.take(i as int).contains(key) {
                let m = choose|m: int|
                    0 <= m < all.take(i as int).len() && all.take(i as int)[m] == key;
                assert(all.take(i + 1)[m] == key);
            }
            if key == all[i as int] {
                assert(all.take(i + 1)[i as int] == key);
            }
        }
        i += 1;
    }
    assert(all.take(list.len() as int) =~= all);
    result
}

/// `left` is the better stand-in: the catch-all first, then built-in ones, then the oldest.
pub open spec fn stands_in_before(left: SyncCategoryView, right: SyncCategoryView) -> bool {
    let left_main = left.name == "杂务"@;
    let right_main = right.name == "杂务"@;
    if left_main != right_main {
        left_main
    } else if left.is_builtin != right.is_builtin {
        left.is_builtin
    } else {
        text::precedes(left.created_at, right.created_at)
    }
}

fn is_standing_in_before(left: &SyncCategory, right: &SyncCategory) -> (result: bool)
    ensures
        result == stands_in_before(left@, right@),
{
    let left_main = text::same(left.name.as_str(), "杂务");
    let right_main = text::same(right.name.as_str(), "杂务");
    if left_main != right_main {
        left_main
    } else if left.is_builtin != right.is_builtin {
        left.is_builtin
    } else {
        text::less(left.created_at.as_str(), right.created_at.as_str())
    }
}

/// The category that takes over from one that is deleted.
pub open spec fn stand_in(categories: Seq<SyncCategoryView>, gone: Seq<char>) -> Option<
    SyncCategoryView,
>
    decreases categories.len(),
{
    if categories.len() == 0 {
        None
    } else {
        let before = stand_in(categories.drop_last(), gone);
        let last = categories.last();
        if last.name == gone {
            before
        } else {
            match before {
                Some(best) => if stands_in_before(last, best) {
                    Some(last)
                } else {
                    before
                },
                None => Some(last),
            }
        }
    }
}

pub(crate) fn find_stand_in(categories: &Vec<SyncCategory>, gone: &str) -> (result: Option<usize>)
    ensures
        match result {
            Some(at) => at < categories.len() && stand_in(
                sync::record_views(categories@),
                gone@,
            ) == Some(categories@[at as int]@) && categories@[at as int].name@ != gone@,
            None => stand_in(sync::record_views(categories@), gone@) is None,
        },
{
    let ghost views = sync::record_views(categories@);
    let mut best: Option<usize> = None;
    let mut i: usize = 0;
    while i < categories.len()
        invariant
            i <= categories.len(),
            views == sync::record_views(categories@),
            match best {
                Some(at) => at < i && stand_in(views.take(i as int), gone@) == Some(
                    categories@[at as int]@,
                ) && categories@[at as int].name@ != gone@,
                None => stand_in(views.take(i as int), gone@) is None,
            },
        decreases categories.len() - i,
    {
        assert(views.take(i + 1).drop_last() =~= views.take(i as int));
        assert(views.take(i + 1).last() == categories@[i as int]@);
        if !text::same(categories[i].name.as_str(), gone) {
            match best {
                Some(at) => {
                    if is_standing_in_before(&categories[i], &categories[at]) {
                        best = Some(i);
                    }
                },
                None => {
                    best = Some(i);
                },
            }
        }
        i += 1;
    }
    assert(views.take(categories.len() as int) =~= views);
    best
}

/// The records without a project, its tasks and the rules for them.
pub open spec fn without_project(ledger: LedgerView, id: Seq<char>) -> LedgerView {
    let tasks = tasks_of(ledger.tasks, id);
    LedgerView {
        projects: projects_without(ledger.projects, id),
        tasks: tasks_outside(ledger.tasks, id),
        sessions: sessions_released(ledger.sessions, Some(id), tasks),
        rules: rules_outside(ledger.rules, Some(id), tasks),
        ..ledger
    }
}

/// The records without a task and the rules for it.
pub open spec fn without_task(ledger: LedgerView, id: Seq<char>) -> LedgerView {
    LedgerView {
        tasks: tasks_without(ledger.tasks, id),
        sessions: sessions_released(ledger.sessions, None, seq![id]),
        rules: rules_outside(ledger.rules, None, seq![id]),
        ..ledger
    }
}

/// The records without a category; what stood under it stands under another.
pub open spec fn without_category(
    ledger: LedgerView,
    name: Seq<char>,
    heir: SyncCategoryView,
    at: Seq<char>,
) -> LedgerView {
    LedgerView {
        categories: categories_without(ledger.categories, name),
        projects: projects_moved(ledger.projects, name, heir.name, Some(heir.color), at),
        sessions: sessions_moved(ledger.sessions, name, heir.name, at),
        rules: rules_moved(ledger.rules, name, heir.name, at),
        ..ledger
    }
}

/// The records without what a tombstone is about; none where no category could take over.
pub open spec fn cleared(ledger: LedgerView, tombstone: TombstoneView) -> Option<LedgerView> {
    let id = tombstone.entity_id;
    if tombstone.entity_kind == "project"@ {
        Some(without_project(ledger, id))
    } else if tombstone.entity_kind == "task"@ {
        Some(without_task(ledger, id))
    } else if tombstone.entity_kind == "category"@ {
        match stand_in(ledger.categories, id) {
            Some(heir) => Some(without_category(ledger, id, heir, tombstone.deleted_at)),
            None => None,
        }
    } else if tombstone.entity_kind == "session"@ {
        Some(LedgerView { sessions: sessions_without(ledger.sessions, id), ..ledger })
    } else if tombstone.entity_kind == "rule"@ {
        Some(LedgerView { rules: rules_without(ledger.rules, id), ..ledger })
    } else {
        Some(ledger)
    }
}

/// The records without what these tombstones are about.
pub open spec fn cleared_all(ledger: LedgerView, tombstones: Seq<TombstoneView>) -> Option<
    LedgerView,
>
    decreases tombstones.len(),
{
    if tombstones.len() == 0 {
        Some(ledger)
    } else {
        match cleared_all(ledger, tombstones.drop_last()) {
            Some(before) => cleared(before, tombstones.last()),
            None => None,
        }
    }
}

pub(crate) fn remove_project(ledger: Ledger, id: &str) -> (result: Ledger)
    ensures
        result@ == without_project(ledger@, id@),
{
    let list = list_tasks_of(&ledger.tasks, id);
    let set = set_of(&list);
    let ghost tasks = text::texts(list@);
    let project = Some(id.to_owned());
    Ledger {
        categories: ledger.categories,
        projects: drop_project(ledger.projects, id),
        tasks: drop_tasks_of(ledger.tasks, id),
        sessions: release_sessions(ledger.sessions, &project, &set, Ghost(tasks)),
        rules: drop_rules_of(ledger.rules, &project, &set, Ghost(tasks)),
        tombstones: ledger.tombstones,
        sleep_debt_started_on: ledger.sleep_debt_started_on,
    }
}

pub(crate) fn remove_task(ledger: Ledger, id: &str) -> (result: Ledger)
    ensures
        result@ == without_task(ledger@, id@),
{
    let mut list: Vec<String> = Vec::new();
    list.push(id.to_owned());
    let set = set_of(&list);
    let ghost tasks = text::texts(list@);
    assert(tasks =~= seq![id@]);
    Ledger {
        categories: ledger.categories,
        projects: ledger.projects,
        tasks: drop_task(ledger.tasks, id),
        sessions: release_sessions(ledger.sessions, &None, &set, Ghost(tasks)),
        rules: drop_rules_of(ledger.rules, &None, &set, Ghost(tasks)),
        tombstones: ledger.tombstones,
        sleep_debt_started_on: ledger.sleep_debt_started_on,
    }
}

pub(crate) fn remove_category(
    ledger: Ledger,
    name: &str,
    heir_name: &str,
    heir_color: &str,
    at: &str,
) -> (result: Ledger)
    ensures
        forall|heir: SyncCategoryView|
            heir.name == heir_name@ && heir.color == heir_color@ ==> result@
                == #[trigger] without_category(ledger@, name@, heir, at@),
{
    let color = Some(heir_color.to_owned());
    Ledger {
        categories: drop_category(ledger.categories, name),
        projects: move_projects(ledger.projects, name, heir_name, &color, at),
        tasks: ledger.tasks,
        sessions: move_sessions(ledger.sessions, name, heir_name, at),
        rules: move_rules(ledger.rules, name, heir_name, at),
        tombstones: ledger.tombstones,
        sleep_debt_started_on: ledger.sleep_debt_started_on,
    }
}

fn clear(ledger: Ledger, tombstone: &SyncTombstone) -> (result: Option<Ledger>)
    ensures
        match result {
            Some(after) => cleared(ledger@, tombstone@) == Some(after@),
            None => cleared(ledger@, tombstone@) is None,
        },
{
    let kind = tombstone.entity_kind.as_str();
    let id = tombstone.entity_id.as_str();
    if text::same(kind, "project") {
        Some(remove_project(ledger, id))
    } else if text::same(kind, "task") {
        Some(remove_task(ledger, id))
    } else if text::same(kind, "category") {
        match find_stand_in(&ledger.categories, id) {
            Some(at) => {
                let name = ledger.categories[at].name.clone();
                let color = ledger.categories[at].color.clone();
                Some(
                    remove_category(
                        ledger,
                        id,
                        name.as_str(),
                        color.as_str(),
                        tombstone.deleted_at.as_str(),
                    ),
                )
            },
            None => None,
        }
    } else if text::same(kind, "session") {
        let mut after = ledger;
        after.sessions = drop_session(after.sessions, id);
        Some(after)
    } else if text::same(kind, "rule") {
        let mut after = ledger;
        after.rules = drop_rule(after.rules, id);
        Some(after)
    } else {
        Some(ledger)
    }
}

/// Why a snapshot cannot be written.
#[derive(Clone, Copy, Debug, PartialEq, Eq, Structural)]
pub enum ApplyError {
    /// A task or session names a project or task that is not there.
    MissingReference,
    /// No category could take over from one that is deleted.
    NoCategory,
}

/// The day from which sleep is counted: the earlier one, as far as the new one is a date.
pub open spec fn settled_start(old: Option<Seq<char>>, new: Option<Seq<char>>) -> Option<
    Seq<char>,
> {
    match new {
        Some(day) => if clock::calendar_day(day) is Some {
            sync::earlier_start(old, new)
        } else {
            old
        },
        None => old,
    }
}

/// The keys of the records, as a set.
pub open spec fn key_set<T: Record>(list: Seq<T::V>) -> Set<Seq<char>> {
    sync::keys::<T>(list).to_set()
}

/// The records with those of the snapshot written over them, before anything is deleted.
pub open spec fn overwritten(ledger: LedgerView, snapshot: SnapshotView) -> Option<LedgerView> {
    let none = Set::<Seq<char>>::empty();
    match (
        written_all::<SyncCategory>(ledger.categories, snapshot.categories, none, none),
        written_all::<Project>(ledger.projects, snapshot.projects, none, none),
        written_all::<SyncRule>(ledger.rules, snapshot.rules, none, none),
        written_all::<TombstoneRow>(ledger.tombstones, snapshot.tombstones, none, none),
    ) {
        (Some(categories), Some(projects), Some(rules), Some(tombstones)) => {
            let project_ids = key_set::<Project>(projects);
            match written_all::<Task>(ledger.tasks, snapshot.tasks, project_ids, none) {
                Some(tasks) => match written_all::<SyncSession>(
                    ledger.sessions,
                    snapshot.sessions,
                    project_ids,
                    key_set::<Task>(tasks),
                ) {
                    Some(sessions) => Some(
                        LedgerView {
                            categories,
                            projects,
                            tasks,
                            sessions,
                            rules,
                            tombstones,
                            ..ledger
                        },
                    ),
                    None => None,
                },
                None => None,
            }
        },
        _ => None,
    }
}

/// What writing a snapshot comes to.
pub open spec fn applied(ledger: LedgerView, snapshot: SnapshotView) -> Result<
    LedgerView,
    ApplyError,
> {
    match overwritten(ledger, snapshot) {
        None => Err(ApplyError::MissingReference),
        Some(full) => match cleared_all(full, snapshot.tombstones) {
            None => Err(ApplyError::NoCategory),
            Some(left) => Ok(
                LedgerView {
                    sleep_debt_started_on: settled_start(
                        left.sleep_debt_started_on,
                        snapshot.sleep_debt_started_on,
                    ),
                    ..left
                },
            ),
        },
    }
}

/// The keys of every kind of record are unique.
pub open spec fn sound(ledger: LedgerView) -> bool {
    &&& sync::keys_differ::<SyncCategory>(ledger.categories)
    &&& sync::keys_differ::<Project>(ledger.projects)
    &&& sync::keys_differ::<Task>(ledger.tasks)
    &&& sync::keys_differ::<SyncSession>(ledger.sessions)
    &&& sync::keys_differ::<SyncRule>(ledger.rules)
    &&& sync::keys_differ::<TombstoneRow>(ledger.tombstones)
}

fn key_set_of<T: Record>(list: &Vec<T>) -> (result: StringHashSet)
    ensures
        result@ == key_set::<T>(sync::record_views(list@)),
{
    let result = sync::collect_keys(list);
    assert(result@ =~= key_set::<T>(sync::record_views(list@)));
    result
}

fn copy_tombstones(list: &Vec<SyncTombstone>) -> (result: Vec<SyncTombstone>)
    ensures
        sync::record_views(result@) == sync::record_views(list@),
{
    let ghost views = sync::record_views(list@);
    let mut result: Vec<SyncTombstone> = Vec::new();
    let mut i: usize = 0;
    while i < list.len()
        invariant
            i <= list.len(),
            views == sync::record_views(list@),
            sync::record_views(result@) == views.take(i as int),
        decreases list.len() - i,
    {
        let ghost before = sync::record_views(result@);
        let item = &list[i];
        result.push(
            SyncTombstone {
                entity_kind: item.entity_kind.clone(),
                entity_id: item.entity_id.clone(),
                deleted_at: item.deleted_at.clone(),
                device_id: item.device_id.clone(),
            },
        );
        assert(sync::record_views(result@) =~= before.push(views[i as int]));
        assert(views.take(i + 1) =~= views.take(i as int).push(views[i as int]));
        i += 1;
    }
    assert(views.take(list.len() as int) =~= views);
    result
}

proof fn lemma_cleared_none(ledger: LedgerView, tombstones: Seq<TombstoneView>, n: int)
    requires
        0 <= n <= tombstones.len(),
        cleared_all(ledger, tombstones.take(n)) is None,
    ensures
        cleared_all(ledger, tombstones) is None,
    decreases tombstones.len(),
{
    if n < tombstones.len() {
        assert(tombstones.drop_last().take(n) =~= tombstones.take(n));
        lemma_cleared_none(ledger, tombstones.drop_last(), n);
    } else {
        assert(tombstones.take(n) =~= tombstones);
    }
}

fn clear_all(ledger: Ledger, tombstones: &Vec<SyncTombstone>) -> (result: Option<Ledger>)
    ensures
        match result {
            Some(after) => cleared_all(ledger@, sync::record_views(tombstones@)) == Some(after@),
            None => cleared_all(ledger@, sync::record_views(tombstones@)) is None,
        },
{
    let ghost first = ledger@;
    let ghost views = sync::record_views(tombstones@);
    let mut rest = ledger;
    let mut i: usize = 0;
    assert(views.take(0) =~= Seq::empty());
    while i < tombstones.len()
        invariant
            i <= tombstones.len(),
            first == ledger@,
            views == sync::record_views(tombstones@),
            cleared_all(first, views.take(i as int)) == Some(rest@),
        decreases tombstones.len() - i,
    {
        assert(views.take(i + 1).drop_last() =~= views.take(i as int));
        assert(views.take(i + 1).last() == tombstones@[i as int]@);
        match clear(rest, &tombstones[i]) {
            Some(after) => {
                rest = after;
            },
            None => {
                proof {
                    lemma_cleared_none(first, views, i + 1);
                }
                return None;
            },
        }
        i += 1;
    }
    assert(views.take(tombstones.len() as int) =~= views);
    Some(rest)
}

fn settle_start(old: Option<String>, new: Option<String>) -> (result: Option<String>)
    ensures
        text::optional(result) == settled_start(text::optional(old), text::optional(new)),
{
    match new {
        Some(day) => if clock::parse_day(day.as_str()).is_some() {
            match old {
                Some(known) => if text::less(day.as_str(), known.as_str()) {
                    Some(day)
                } else {
                    Some(known)
                },
                None => Some(day),
            }
        } else {
            old
        },
        None => old,
    }
}

fn as_rows(list: Vec<SyncTombstone>) -> (result: Vec<TombstoneRow>)
    ensures
        sync::record_views(result@) == sync::record_views(list@),
{
    let ghost views = sync::record_views(list@);
    let mut result: Vec<TombstoneRow> = Vec::new();
    assert(sync::record_views(result@) =~= views.take(0));
    for note in it: list
        invariant
            views == sync::record_views(it.seq()),
            sync::record_views(result@) == views.take(it.index()),
    {
        let ghost before = sync::record_views(result@);
        let ghost view = note@;
        assert(views[it.index()] == view);
        assert(views.take(it.index() + 1) =~= views.take(it.index()).push(view));
        result.push(TombstoneRow { note });
        assert(sync::record_views(result@) =~= before.push(view));
    }
    assert(views.take(views.len() as int) =~= views);
    result
}

fn as_notes(list: Vec<TombstoneRow>) -> (result: Vec<SyncTombstone>)
    ensures
        sync::record_views(result@) == sync::record_views(list@),
{
    let ghost views = sync::record_views(list@);
    let mut result: Vec<SyncTombstone> = Vec::new();
    assert(sync::record_views(result@) =~= views.take(0));
    for row in it: list
        invariant
            views == sync::record_views(it.seq()),
            sync::record_views(result@) == views.take(it.index()),
    {
        let ghost before = sync::record_views(result@);
        let ghost view = row@;
        assert(views[it.index()] == view);
        assert(views.take(it.index() + 1) =~= views.take(it.index()).push(view));
        result.push(row.note);
        assert(sync::record_views(result@) =~= before.push(view));
    }
    assert(views.take(views.len() as int) =~= views);
    result
}

fn overwrite(ledger: Ledger, snapshot: SyncSnapshot) -> (result: Option<Ledger>)
    requires
        sound(ledger@),
    ensures
        match result {
            Some(full) => overwritten(ledger@, snapshot@) == Some(full@),
            None => overwritten(ledger@, snapshot@) is None,
        },
{
    let none = StringHashSet::new();
    let categories = match write_all(ledger.categories, snapshot.categories, &none, &none) {
        Some(list) => list,
        None => {
            return None;
        },
    };
    let projects = match write_all(ledger.projects, snapshot.projects, &none, &none) {
        Some(list) => list,
        None => {
            return None;
        },
    };
    let rules = match write_all(ledger.rules, snapshot.rules, &none, &none) {
        Some(list) => list,
        None => {
            return None;
        },
    };
    let tombstones = match write_all(
        as_rows(ledger.tombstones),
        as_rows(snapshot.tombstones),
        &none,
        &none,
    ) {
        Some(list) => as_notes(list),
        None => {
            return None;
        },
    };
    let project_ids = key_set_of(&projects);
    let tasks = match write_all(ledger.tasks, snapshot.tasks, &project_ids, &none) {
        Some(list) => list,
        None => {
            return None;
        },
    };
    let task_ids = key_set_of(&tasks);
    let sessions = match write_all(ledger.sessions, snapshot.sessions, &project_ids, &task_ids) {
        Some(list) => list,
        None => {
            return None;
        },
    };
    Some(
        Ledger {
            categories,
            projects,
            tasks,
            sessions,
            rules,
            tombstones,
            sleep_debt_started_on: ledger.sleep_debt_started_on,
        },
    )
}

/// Writes a snapshot into the records: what is no older than the record it replaces is written,
/// and what a tombstone of the snapshot is about is deleted.
pub fn apply_sync_snapshot(
    ledger: Ledger,
    snapshot: SyncSnapshot,
) -> (result: Result<Ledger, ApplyError>)
    requires
        sound(ledger@),
    ensures
        match result {
            Ok(after) => applied(ledger@, snapshot@) == Ok::<LedgerView, ApplyError>(after@),
            Err(error) => applied(ledger@, snapshot@) == Err::<LedgerView, ApplyError>(error),
        },
{
    let ghost wanted = snapshot@;
    let dead = copy_tombstones(&snapshot.tombstones);
    let started_on = snapshot.sleep_debt_started_on.clone();
    let full = match overwrite(ledger, snapshot) {
        Some(full) => full,
        None => {
            return Err(ApplyError::MissingReference);
        },
    };
    match clear_all(full, &dead) {
        Some(left) => {
            let mut after = left;
            after.sleep_debt_started_on = settle_start(after.sleep_debt_started_on, started_on);
            Ok(after)
        },
        None => Err(ApplyError::NoCategory),
    }
}

/// The record that a tombstone is about is not there.
pub open spec fn absent(ledger: LedgerView, tombstone: TombstoneView) -> bool {
    let id = tombstone.entity_id;
    &&& tombstone.entity_kind == "project"@ ==> !sync::keys::<Project>(ledger.projects).contains(id)
    &&& tombstone.entity_kind == "task"@ ==> !sync::keys::<Task>(ledger.tasks).contains(id)
    &&& tombstone.entity_kind == "category"@ ==> !sync::keys::<SyncCategory>(
        ledger.categories,
    ).contains(id)
    &&& tombstone.entity_kind == "session"@ ==> !sync::keys::<SyncSession>(
        ledger.sessions,
    ).contains(id)
    &&& tombstone.entity_kind == "rule"@ ==> !sync::keys::<SyncRule>(ledger.rules).contains(id)
}

proof fn lemma_filter_keys<T: Record>(list: Seq<T::V>, keep: spec_fn(T::V) -> bool)
    ensures
        forall|key: Seq<char>| #[trigger]
            sync::keys::<T>(list.filter(keep)).contains(key) ==> sync::keys::<T>(list).contains(key),
        forall|key: Seq<char>|
            (forall|item: T::V| #[trigger] keep(item) ==> T::key_of(item) != key)
                ==> !(#[trigger] sync::keys::<T>(list.filter(keep)).contains(key)),
{
    let kept = list.filter(keep);
    assert forall|key: Seq<char>| #[trigger]
        sync::keys::<T>(kept).contains(key) implies sync::keys::<T>(list).contains(key) && exists|
        item: T::V,
    | #[trigger] keep(item) && T::key_of(item) == key by {
        let k = choose|k: int|
            0 <= k < sync::keys::<T>(kept).len() && sync::keys::<T>(kept)[k] == key;
        assert(kept.contains(kept[k]));
        list.lemma_filter_contains_rev(keep, kept[k]);
        list.lemma_filter_pred(keep, k);
        let m = choose|m: int| 0 <= m < list.len() && list[m] == kept[k];
        assert(sync::keys::<T>(list)[m] == key);
        assert(keep(kept[k]) && T::key_of(kept[k]) == key);
    }
}

/// The kinds of keys that a state has are all among those of another.
pub open spec fn keys_within(after: LedgerView, before: LedgerView) -> bool {
    &&& forall|key: Seq<char>| #[trigger]
        sync::keys::<Project>(after.projects).contains(key) ==> sync::keys::<Project>(
            before.projects,
        ).contains(key)
    &&& forall|key: Seq<char>| #[trigger]
        sync::keys::<Task>(after.tasks).contains(key) ==> sync::keys::<Task>(
            before.tasks,
        ).contains(key)
    &&& forall|key: Seq<char>| #[trigger]
        sync::keys::<SyncCategory>(after.categories).contains(key) ==> sync::keys::<SyncCategory>(
            before.categories,
        ).contains(key)
    &&& forall|key: Seq<char>| #[trigger]
        sync::keys::<SyncSession>(after.sessions).contains(key) ==> sync::keys::<SyncSession>(
            before.sessions,
        ).contains(key)
    &&& forall|key: Seq<char>| #[trigger]
        sync::keys::<SyncRule>(after.rules).contains(key) ==> sync::keys::<SyncRule>(
            before.rules,
        ).contains(key)
}

proof fn lemma_cleared(ledger: LedgerView, tombstone: TombstoneView)
    requires
        cleared(ledger, tombstone) is Some,
    ensures
        keys_within(cleared(ledger, tombstone).unwrap(), ledger),
        absent(cleared(ledger, tombstone).unwrap(), tombstone),
{
    let id = tombstone.entity_id;
    let after = cleared(ledger, tombstone).unwrap();
    reveal_strlit("project");
    reveal_strlit("task");
    reveal_strlit("category");
    reveal_strlit("session");
    reveal_strlit("rule");
    assert("project"@[0] == 'p' && "session"@[0] == 's');
    assert("task"@[0] == 't' && "rule"@[0] == 'r');
    if tombstone.entity_kind == "project"@ {
        let tasks = tasks_of(ledger.tasks, id);
        let keep = |item: ProjectView| item.id != id;
        lemma_filter_keys::<Project>(ledger.projects, keep);
        assert(forall|item: ProjectView| #[trigger] keep(item) ==> Project::key_of(item) != id);
        assert(!sync::keys::<Project>(ledger.projects.filter(keep)).contains(id));
        lemma_filter_keys::<Task>(ledger.tasks, |item: TaskView| item.project_id != id);
        lemma_filter_keys::<SyncRule>(
            ledger.rules,
            |item: SyncRuleView|
                !touches(item.rule.project_id, item.rule.task_id, Some(id), tasks),
        );
        assert(sync::keys::<SyncSession>(after.sessions) =~= sync::keys::<SyncSession>(
            ledger.sessions,
        ));
    } else if tombstone.entity_kind == "task"@ {
        let keep = |item: TaskView| item.id != id;
        lemma_filter_keys::<Task>(ledger.tasks, keep);
        assert(forall|item: TaskView| #[trigger] keep(item) ==> Task::key_of(item) != id);
        assert(!sync::keys::<Task>(ledger.tasks.filter(keep)).contains(id));
        lemma_filter_keys::<SyncRule>(
            ledger.rules,
            |item: SyncRuleView|
                !touches(item.rule.project_id, item.rule.task_id, None, seq![id]),
        );
        assert(sync::keys::<SyncSession>(after.sessions) =~= sync::keys::<SyncSession>(
            ledger.sessions,
        ));
    } else if tombstone.entity_kind == "category"@ {
        let keep = |item: SyncCategoryView| item.name != id;
        lemma_filter_keys::<SyncCategory>(ledger.categories, keep);
        assert(forall|item: SyncCategoryView| #[trigger] keep(item) ==> SyncCategory::key_of(item) != id);
        assert(!sync::keys::<SyncCategory>(ledger.categories.filter(keep)).contains(id));
        assert(sync::keys::<Project>(after.projects) =~= sync::keys::<Project>(ledger.projects));
        assert(sync::keys::<SyncSession>(after.sessions) =~= sync::keys::<SyncSession>(
            ledger.sessions,
        ));
        assert(sync::keys::<SyncRule>(after.rules) =~= sync::keys::<SyncRule>(ledger.rules));
    } else if tombstone.entity_kind == "session"@ {
        let keep = |item: SyncSessionView| item.session.id != id;
        lemma_filter_keys::<SyncSession>(ledger.sessions, keep);
        assert(forall|item: SyncSessionView| #[trigger] keep(item) ==> SyncSession::key_of(item) != id);
        assert(!sync::keys::<SyncSession>(ledger.sessions.filter(keep)).contains(id));
    } else if tombstone.entity_kind == "rule"@ {
        let keep = |item: SyncRuleView| item.rule.id != id;
        lemma_filter_keys::<SyncRule>(ledger.rules, keep);
        assert(forall|item: SyncRuleView| #[trigger] keep(item) ==> SyncRule::key_of(item) != id);
        assert(!sync::keys::<SyncRule>(ledger.rules.filter(keep)).contains(id));
    }
}

proof fn lemma_cleared_all(ledger: LedgerView, tombstones: Seq<TombstoneView>)
    requires
        cleared_all(ledger, tombstones) is Some,
    ensures
        forall|i: int|
            0 <= i < tombstones.len() ==> absent(
                cleared_all(ledger, tombstones).unwrap(),
                #[trigger] tombstones[i],
            ),
    decreases tombstones.len(),
{
    if tombstones.len() > 0 {
        let rest = tombstones.drop_last();
        lemma_cleared_all(ledger, rest);
        let before = cleared_all(ledger, rest).unwrap();
        let after = cleared_all(ledger, tombstones).unwrap();
        lemma_cleared(before, tombstones.last());
        assert forall|i: int| 0 <= i < tombstones.len() implies absent(
            after,
            #[trigger] tombstones[i],
        ) by {
            if i < rest.len() {
                assert(tombstones[i] == rest[i]);
                assert(absent(before, rest[i]));
            }
        }
    }
}

/// Deletions arrive: once a snapshot is written, nothing that its tombstones are about is left.
pub proof fn applied_deletions_hold(ledger: LedgerView, snapshot: SnapshotView)
    requires
        applied(ledger, snapshot) is Ok,
    ensures
        forall|i: int|
            0 <= i < snapshot.tombstones.len() ==> absent(
                applied(ledger, snapshot)->Ok_0,
                #[trigger] snapshot.tombstones[i],
            ),
{
    let full = overwritten(ledger, snapshot).unwrap();
    lemma_cleared_all(full, snapshot.tombstones);
    let left = cleared_all(full, snapshot.tombstones).unwrap();
    assert forall|i: int| 0 <= i < snapshot.tombstones.len() implies absent(
        applied(ledger, snapshot)->Ok_0,
        #[trigger] snapshot.tombstones[i],
    ) by {
        assert(absent(left, snapshot.tombstones[i]));
    }
}

/// The records as devices exchange them.
pub open spec fn exported(
    ledger: LedgerView,
    devices: Seq<SyncDeviceView>,
    config: SyncConfigView,
    now: Seq<char>,
) -> SnapshotView {
    SnapshotView {
        schema_version: sync::SNAPSHOT_SCHEMA,
        generated_at: now,
        generated_by: config.device_id,
        categories: ledger.categories,
        projects: ledger.projects,
        tasks: ledger.tasks,
        sessions: ledger.sessions,
        rules: ledger.rules,
        tombstones: ledger.tombstones,
        devices: sync::noted_device(
            devices,
            SyncDeviceView { id: config.device_id, name: config.device_name, last_seen_at: now },
        ),
        sleep_debt_started_on: ledger.sleep_debt_started_on,
    }
}

/// Takes the records of this device for an exchange.
pub fn export_sync_snapshot(
    ledger: Ledger,
    devices: Vec<SyncDeviceInfo>,
    config: &GithubSyncConfig,
    now: &str,
) -> (result: SyncSnapshot)
    ensures
        result@ == exported(ledger@, sync::record_views(devices@), config@, now@),
{
    let mut known = devices;
    sync::upsert_device(
        &mut known,
        SyncDeviceInfo {
            id: config.device_id.clone(),
            name: config.device_name.clone(),
            last_seen_at: now.to_owned(),
        },
    );
    SyncSnapshot {
        schema_version: sync::SNAPSHOT_SCHEMA,
        generated_at: now.to_owned(),
        generated_by: config.device_id.clone(),
        categories: ledger.categories,
        projects: ledger.projects,
        tasks: ledger.tasks,
        sessions: ledger.sessions,
        rules: ledger.rules,
        tombstones: ledger.tombstones,
        devices: known,
        sleep_debt_started_on: ledger.sleep_debt_started_on,
    }
}

/// What the tasks and sessions name is there.
pub open spec fn references_lead(ledger: LedgerView) -> bool {
    let projects = key_set::<Project>(ledger.projects);
    let tasks = key_set::<Task>(ledger.tasks);
    &&& forall|i: int|
        0 <= i < ledger.tasks.len() ==> Task::refers(
            #[trigger] ledger.tasks[i],
            projects,
            Set::empty(),
        )
    &&& forall|i: int|
        0 <= i < ledger.sessions.len() ==> SyncSession::refers(
            #[trigger] ledger.sessions[i],
            projects,
            tasks,
        )
}

proof fn lemma_written_again<T: Stored>(
    list: Seq<T::V>,
    projects: Set<Seq<char>>,
    tasks: Set<Seq<char>>,
    n: int,
)
    requires
        sync::keys_differ::<T>(list),
        forall|i: int| 0 <= i < list.len() ==> T::refers(#[trigger] list[i], projects, tasks),
        forall|i: int|
            0 <= i < list.len() ==> T::combined(list[i], #[trigger] list[i]) == list[i],
        0 <= n <= list.len(),
    ensures
        written_all::<T>(list, list.take(n), projects, tasks) == Some(list),
    decreases n,
{
    if n == 0 {
        assert(list.take(0) =~= Seq::empty());
    } else {
        lemma_written_again::<T>(list, projects, tasks, n - 1);
        assert(list.take(n).drop_last() =~= list.take(n - 1));
        let item = list[n - 1];
        let key = T::key_of(item);
        sync::lemma_spot::<T>(list, key);
        let at = sync::spot::<T>(list, key) as int;
        assert(at <= n - 1);
        if at < n - 1 {
            assert(T::key_of(list[at]) != T::key_of(list[n - 1]));
        }
        text::lemma_precedes_total(T::time_of(item), T::time_of(item));
        assert(T::combined(list[n - 1], list[n - 1]) == list[n - 1]);
        assert(list.update(n - 1, item) =~= list);
    }
}

/// Writing an export over the records that it came from changes none of them.
pub proof fn writing_back_an_export_changes_nothing(
    ledger: LedgerView,
    devices: Seq<SyncDeviceView>,
    config: SyncConfigView,
    now: Seq<char>,
)
    requires
        sound(ledger),
        references_lead(ledger),
    ensures
        overwritten(ledger, exported(ledger, devices, config, now)) == Some(ledger),
{
    let none = Set::<Seq<char>>::empty();
    let projects = key_set::<Project>(ledger.projects);
    let tasks = key_set::<Task>(ledger.tasks);
    assert(ledger.categories.take(ledger.categories.len() as int) =~= ledger.categories);
    assert(ledger.projects.take(ledger.projects.len() as int) =~= ledger.projects);
    assert(ledger.tasks.take(ledger.tasks.len() as int) =~= ledger.tasks);
    assert(ledger.sessions.take(ledger.sessions.len() as int) =~= ledger.sessions);
    assert(ledger.rules.take(ledger.rules.len() as int) =~= ledger.rules);
    assert(ledger.tombstones.take(ledger.tombstones.len() as int) =~= ledger.tombstones);
    lemma_written_again::<SyncCategory>(
        ledger.categories,
        none,
        none,
        ledger.categories.len() as int,
    );
    lemma_written_again::<Project>(ledger.projects, none, none, ledger.projects.len() as int);
    lemma_written_again::<SyncRule>(ledger.rules, none, none, ledger.rules.len() as int);
    lemma_written_again::<TombstoneRow>(
        ledger.tombstones,
        none,
        none,
        ledger.tombstones.len() as int,
    );
    lemma_written_again::<Task>(ledger.tasks, projects, none, ledger.tasks.len() as int);
    lemma_written_again::<SyncSession>(
        ledger.sessions,
        projects,
        tasks,
        ledger.sessions.len() as int,
    );
}

} // verus!
