//! Which corrected and reviewed sessions are remembered.
use vstd::prelude::*;
use vstd::slice::slice_subrange;
use vstd::string::*;

use crate::lists;
use crate::memory;
use crate::memory::{ContextFeatures, FeaturesView};
use crate::models::{
    AppSettings, RawActivityEvent, RawEventView, SessionView, SettingsView, WorkSession,
};
use crate::score;
use crate::sessions;
use crate::text;

verus! {

broadcast use vstd::seq_lib::group_seq_properties;

/// The events come in the order of their timestamps.
pub open spec fn in_order(events: Seq<RawEventView>) -> bool {
    forall|i: int, j: int|
        0 <= i <= j < events.len() ==> !text::precedes(
            (#[trigger] events[j]).timestamp,
            (#[trigger] events[i]).timestamp,
        )
}

/// The event lies between the two timestamps.
pub open spec fn is_between(event: RawEventView, started_at: Seq<char>, ended_at: Seq<char>) -> bool {
    !text::precedes(event.timestamp, started_at) && !text::precedes(ended_at, event.timestamp)
}

/// The events between the two timestamps.
pub open spec fn events_between(
    events: Seq<RawEventView>,
    started_at: Seq<char>,
    ended_at: Seq<char>,
) -> Seq<RawEventView> {
    events.filter(|event: RawEventView| is_between(event, started_at, ended_at))
}

/// Where the events from this timestamp on begin; with `after`, those behind it.
fn partition(events: &[RawActivityEvent], timestamp: &str, after: bool) -> (result: usize)
    requires
        in_order(memory::event_views(events@)),
    ensures
        result <= events.len(),
        forall|k: int|
            0 <= k < events.len() ==> (k < result <==> if after {
                !text::precedes(timestamp@, (#[trigger] events@[k])@.timestamp)
            } else {
                text::precedes(events@[k]@.timestamp, timestamp@)
            }),
{
    let ghost views = memory::event_views(events@);
    let mut low: usize = 0;
    let mut high: usize = events.len();
    while low < high
        invariant
            low <= high <= events.len(),
            views == memory::event_views(events@),
            in_order(views),
            forall|k: int|
                0 <= k < low ==> if after {
                    !text::precedes(timestamp@, (#[trigger] views[k]).timestamp)
                } else {
                    text::precedes(views[k].timestamp, timestamp@)
                },
            forall|k: int|
                high <= k < events.len() ==> if after {
                    text::precedes(timestamp@, (#[trigger] views[k]).timestamp)
                } else {
                    !text::precedes(views[k].timestamp, timestamp@)
                },
        decreases high - low,
    {
        let middle: usize = low + (high - low) / 2;
        let found = events[middle].timestamp.as_str();
        assert(views[middle as int].timestamp == found@);
        let below = if after {
            !text::less(timestamp, found)
        } else {
            text::less(found, timestamp)
        };
        if below {
            assert forall|k: int| 0 <= k < middle + 1 implies if after {
                !text::precedes(timestamp@, (#[trigger] views[k]).timestamp)
            } else {
                text::precedes(views[k].timestamp, timestamp@)
            } by {
                lemma_between_steps(views[k].timestamp, found@, timestamp@);
            }
            low = middle + 1;
        } else {
            assert forall|k: int| middle <= k < events.len() implies if after {
                text::precedes(timestamp@, (#[trigger] views[k]).timestamp)
            } else {
                !text::precedes(views[k].timestamp, timestamp@)
            } by {
                lemma_between_steps(found@, views[k].timestamp, timestamp@);
            }
            high = middle;
        }
    }
    assert(forall|k: int| 0 <= k < events.len() ==> (#[trigger] events@[k])@ == views[k]);
    low
}

proof fn lemma_between_steps(low: Seq<char>, high: Seq<char>, mark: Seq<char>)
    requires
        !text::precedes(high, low),
    ensures
        text::precedes(high, mark) ==> text::precedes(low, mark),
        text::precedes(mark, low) ==> text::precedes(mark, high),
{
    text::lemma_precedes_total(low, high);
    if text::precedes(high, mark) && low != high {
        text::lemma_precedes_transitive(low, high, mark);
    }
    if text::precedes(mark, low) && low != high {
        text::lemma_precedes_transitive(mark, low, high);
    }
}

proof fn lemma_between_is_a_range(
    events: Seq<RawEventView>,
    started_at: Seq<char>,
    ended_at: Seq<char>,
    first: int,
    behind: int,
)
    requires
        0 <= first <= events.len(),
        0 <= behind <= events.len(),
        forall|k: int|
            0 <= k < events.len() ==> (k < first <==> text::precedes(
                (#[trigger] events[k]).timestamp,
                started_at,
            )),
        forall|k: int|
            0 <= k < events.len() ==> (k < behind <==> !text::precedes(
                ended_at,
                (#[trigger] events[k]).timestamp,
            )),
    ensures
        events_between(events, started_at, ended_at) == if first < behind {
            events.subrange(first, behind)
        } else {
            Seq::empty()
        },
{
    let keep = |event: RawEventView| is_between(event, started_at, ended_at);
    if first < behind {
        let left = events.take(first);
        let middle = events.subrange(first, behind);
        let right = events.skip(behind);
        assert(events =~= left + middle + right);
        Seq::filter_distributes_over_add(left + middle, right, keep);
        Seq::filter_distributes_over_add(left, middle, keep);
        lists::lemma_filter_uniform(left, keep);
        lists::lemma_filter_uniform(middle, keep);
        lists::lemma_filter_uniform(right, keep);
        assert(forall|i: int| 0 <= i < left.len() ==> #[trigger] left[i] == events[i]);
        assert(forall|i: int| 0 <= i < middle.len() ==> #[trigger] middle[i] == events[first + i]);
        assert(forall|i: int| 0 <= i < right.len() ==> #[trigger] right[i] == events[behind + i]);
        assert(Seq::<RawEventView>::empty() + middle + Seq::<RawEventView>::empty() =~= middle);
    } else {
        lists::lemma_filter_uniform(events, keep);
    }
}

/// The events between the two timestamps.
pub fn select_events<'a>(
    events: &'a [RawActivityEvent],
    started_at: &str,
    ended_at: &str,
) -> (result: &'a [RawActivityEvent])
    requires
        in_order(memory::event_views(events@)),
    ensures
        memory::event_views(result@) == events_between(
            memory::event_views(events@),
            started_at@,
            ended_at@,
        ),
{
    let first: usize = partition(events, started_at, false);
    let behind: usize = partition(events, ended_at, true);
    let ghost views = memory::event_views(events@);
    proof {
        assert(forall|k: int| 0 <= k < events.len() ==> (#[trigger] events@[k])@ == views[k]);
        lemma_between_is_a_range(views, started_at@, ended_at@, first as int, behind as int);
    }
    let result = if first < behind {
        slice_subrange(events, first, behind)
    } else {
        slice_subrange(events, 0, 0)
    };
    assert(memory::event_views(result@) =~= events_between(views, started_at@, ended_at@));
    result
}

/// A session with what the store and the language model say of it.
#[derive(Debug, PartialEq, Eq)]
pub struct CorrectedSession {
    pub session: WorkSession,
    /// When its row was last written.
    pub updated_at: Option<String>,
    /// Its task title only holds a place.
    pub placeholder: bool,
    /// Its evidence and events point to more than one context.
    pub ambiguous: bool,
    /// Its context names its project or task.
    pub anchored: bool,
}

/// What a `CorrectedSession` holds.
#[verifier::ext_equal]
pub struct CorrectedView {
    pub session: SessionView,
    pub updated_at: Option<Seq<char>>,
    pub placeholder: bool,
    pub ambiguous: bool,
    pub anchored: bool,
}

impl View for CorrectedSession {
    type V = CorrectedView;

    open spec fn view(&self) -> CorrectedView {
        CorrectedView {
            session: self.session@,
            updated_at: text::optional(self.updated_at),
            placeholder: self.placeholder,
            ambiguous: self.ambiguous,
            anchored: self.anchored,
        }
    }
}

pub open spec fn corrected_views(rows: Seq<CorrectedSession>) -> Seq<CorrectedView> {
    rows.map_values(|row: CorrectedSession| row@)
}

/// A memory to store.
#[derive(Debug, PartialEq, Eq)]
pub struct StoredMemory {
    pub session_id: String,
    pub features: ContextFeatures,
    pub category: String,
    pub project_id: String,
    pub task_id: String,
    pub confirmed_at: String,
}

/// What a `StoredMemory` holds.
#[verifier::ext_equal]
pub struct StoredView {
    pub session_id: Seq<char>,
    pub features: FeaturesView,
    pub category: Seq<char>,
    pub project_id: Seq<char>,
    pub task_id: Seq<char>,
    pub confirmed_at: Seq<char>,
}

impl View for StoredMemory {
    type V = StoredView;

    open spec fn view(&self) -> StoredView {
        StoredView {
            session_id: self.session_id@,
            features: self.features@,
            category: self.category@,
            project_id: self.project_id@,
            task_id: self.task_id@,
            confirmed_at: self.confirmed_at@,
        }
    }
}

impl StoredMemory {
    pub fn copy(&self) -> (result: Self)
        ensures
            result@ == self@,
    {
        StoredMemory {
            session_id: self.session_id.clone(),
            features: self.features.copy(),
            category: self.category.clone(),
            project_id: self.project_id.clone(),
            task_id: self.task_id.clone(),
            confirmed_at: self.confirmed_at.clone(),
        }
    }
}

pub open spec fn stored_views(rows: Seq<StoredMemory>) -> Seq<StoredView> {
    rows.map_values(|row: StoredMemory| row@)
}

/// A corrected session that may be remembered.
#[verifier::ext_equal]
pub struct CandidateView {
    pub memory: StoredView,
    /// The batch of corrections that it belongs to.
    pub group: Seq<char>,
    pub anchored: bool,
    /// It stands under the configured idle project.
    pub idle: bool,
}

struct Candidate {
    memory: StoredMemory,
    group: String,
    anchored: bool,
    idle: bool,
}

impl Candidate {
    spec fn model(self) -> CandidateView {
        CandidateView {
            memory: self.memory@,
            group: self.group@,
            anchored: self.anchored,
            idle: self.idle,
        }
    }
}

spec fn candidate_models(rows: Seq<Candidate>) -> Seq<CandidateView> {
    rows.map_values(|row: Candidate| row.model())
}

/// The assignment that a memory votes for.
pub open spec fn assignment(memory: StoredView) -> Seq<char> {
    text::concat_with(seq![memory.category, memory.project_id, memory.task_id], "\u{1f}"@)
}

fn assignment_of(memory: &StoredMemory) -> (result: String)
    ensures
        result@ == assignment(memory@),
{
    let mut parts: Vec<String> = Vec::new();
    parts.push(memory.category.clone());
    parts.push(memory.project_id.clone());
    parts.push(memory.task_id.clone());
    assert(text::texts(parts@) =~= seq![
        memory@.category,
        memory@.project_id,
        memory@.task_id,
    ]);
    text::join(&parts, "\u{1f}")
}

/// Sessions corrected together, to the same assignment, are of one group.
pub open spec fn group_key(
    batch: Seq<char>,
    category: Seq<char>,
    project_id: Seq<char>,
    task_id: Seq<char>,
) -> Seq<char> {
    text::concat_with(seq![batch, category, project_id, task_id], "\u{1f}"@)
}

fn group_key_of(batch: &str, category: &str, project_id: &str, task_id: &str) -> (result: String)
    ensures
        result@ == group_key(batch@, category@, project_id@, task_id@),
{
    let mut parts: Vec<String> = Vec::new();
    parts.push(batch.to_owned());
    parts.push(category.to_owned());
    parts.push(project_id.to_owned());
    parts.push(task_id.to_owned());
    assert(text::texts(parts@) =~= seq![batch@, category@, project_id@, task_id@]);
    text::join(&parts, "\u{1f}")
}

/// The session's marks are those of time away.
pub open spec fn marked_idle(session: SessionView) -> bool {
    session.source == "collector-idle"@ || session.summary == "离开/空闲"@
}

fn is_marked_idle(session: &WorkSession) -> (result: bool)
    ensures
        result == marked_idle(session@),
{
    text::same(session.source.as_str(), "collector-idle") || text::same(
        session.summary.as_str(),
        "离开/空闲",
    )
}

/// The session stands under the configured idle category and project.
pub open spec fn under_idle_target(session: SessionView, settings: SettingsView) -> bool {
    session.category == settings.idle_category && session.project_name == Some(
        settings.idle_project_name,
    )
}

fn is_under_idle_target(session: &WorkSession, settings: &AppSettings) -> (result: bool)
    ensures
        result == under_idle_target(session@, settings@),
{
    match &session.project_name {
        Some(name) => text::same(session.category.as_str(), settings.idle_category.as_str())
            && text::same(name.as_str(), settings.idle_project_name.as_str()),
        None => false,
    }
}

/// When the session was last confirmed.
pub open spec fn confirmed_at(row: CorrectedView) -> Seq<char> {
    match row.updated_at {
        Some(at) => at,
        None => row.session.ended_at,
    }
}

/// What of a corrected session may be remembered.
pub open spec fn candidate(
    row: CorrectedView,
    events: Seq<RawEventView>,
    settings: SettingsView,
    current_batch: bool,
) -> Option<CandidateView> {
    let session = row.session;
    let features = memory::features_of(
        session.evidence,
        events_between(events, session.started_at, session.ended_at),
    );
    let batch = if current_batch {
        "current-correction"@
    } else {
        confirmed_at(row)
    };
    if !sessions::reliable(session) || marked_idle(session) || session.project_name is None
        || session.task_title is None || row.placeholder || row.ambiguous
        || !memory::discriminative(features) {
        None
    } else {
        match (session.project_id, session.task_id) {
            (Some(project_id), Some(task_id)) => Some(
                CandidateView {
                    memory: StoredView {
                        session_id: session.id,
                        features,
                        category: session.category,
                        project_id,
                        task_id,
                        confirmed_at: confirmed_at(row),
                    },
                    group: group_key(batch, session.category, project_id, task_id),
                    anchored: row.anchored,
                    idle: under_idle_target(session, settings),
                },
            ),
            _ => None,
        }
    }
}

fn candidate_from(
    row: &CorrectedSession,
    events: &[RawActivityEvent],
    settings: &AppSettings,
    current_batch: bool,
) -> (result: Option<Candidate>)
    requires
        in_order(memory::event_views(events@)),
    ensures
        match result {
            Some(found) => candidate(
                row@,
                memory::event_views(events@),
                settings@,
                current_batch,
            ) == Some(found.model()),
            None => candidate(row@, memory::event_views(events@), settings@, current_batch) is None,
        },
{
    let session = &row.session;
    if !sessions::is_reliable_memory_session(session) || is_marked_idle(session) {
        return None;
    }
    let (project_id, task_id) = match (&session.project_id, &session.task_id) {
        (Some(project_id), Some(task_id)) => (project_id, task_id),
        _ => {
            return None;
        },
    };
    if session.project_name.is_none() || session.task_title.is_none() || row.placeholder
        || row.ambiguous {
        return None;
    }
    let within = select_events(events, session.started_at.as_str(), session.ended_at.as_str());
    let features = memory::features_from_session(session, within);
    if !memory::is_discriminative(&features) {
        return None;
    }
    let timestamp = match &row.updated_at {
        Some(at) => at.clone(),
        None => session.ended_at.clone(),
    };
    let batch = if current_batch {
        "current-correction".to_owned()
    } else {
        timestamp.clone()
    };
    let group = group_key_of(
        batch.as_str(),
        session.category.as_str(),
        project_id.as_str(),
        task_id.as_str(),
    );
    Some(
        Candidate {
            memory: StoredMemory {
                session_id: session.id.clone(),
                features,
                category: session.category.clone(),
                project_id: project_id.clone(),
                task_id: task_id.clone(),
                confirmed_at: timestamp,
            },
            group,
            anchored: row.anchored,
            idle: is_under_idle_target(session, settings),
        },
    )
}

/// What of the corrected sessions may be remembered.
pub open spec fn candidates(
    rows: Seq<CorrectedView>,
    events: Seq<RawEventView>,
    settings: SettingsView,
    current_batch: bool,
) -> Seq<CandidateView> {
    rows.filter_map(|row: CorrectedView| candidate(row, events, settings, current_batch))
}

/// How many candidates are of the group.
pub open spec fn group_size(list: Seq<CandidateView>, group: Seq<char>) -> nat {
    list.filter(|other: CandidateView| other.group == group).len()
}

/// How many candidates of the group have these features.
pub open spec fn repetitions(
    list: Seq<CandidateView>,
    group: Seq<char>,
    features: FeaturesView,
) -> nat {
    list.filter(
        |other: CandidateView| other.group == group && other.memory.features == features,
    ).len()
}

/// No candidate with the same features was confirmed later.
pub open spec fn is_latest(list: Seq<CandidateView>, memory: StoredView) -> bool {
    forall|k: int|
        0 <= k < list.len() && (#[trigger] list[k]).memory.features == memory.features
            ==> !text::precedes(memory.confirmed_at, list[k].memory.confirmed_at)
}

/// The latest confirmations of the same features all agree with this one.
pub open spec fn is_current_intent(list: Seq<CandidateView>, memory: StoredView) -> bool {
    forall|k: int|
        0 <= k < list.len() && (#[trigger] list[k]).memory.features == memory.features && is_latest(
            list,
            list[k].memory,
        ) ==> assignment(list[k].memory) == assignment(memory)
}

/// The candidate is worth remembering: it is what the user wants now, and either stands alone in
/// its group, repeats in it, or names its assignment.
pub open spec fn worth_keeping(list: Seq<CandidateView>, item: CandidateView) -> bool {
    is_current_intent(list, item.memory) && (group_size(list, item.group) <= 1 || repetitions(
        list,
        item.group,
        item.memory.features,
    ) >= 2 || item.anchored)
}

/// The memories of the candidates that are kept.
pub open spec fn kept_memories(list: Seq<CandidateView>) -> Seq<StoredView> {
    list.filter(|item: CandidateView| worth_keeping(list, item) && !item.idle).map_values(
        |item: CandidateView| item.memory,
    )
}

fn same_list(left: &Vec<String>, right: &Vec<String>) -> (result: bool)
    ensures
        result == (text::texts(left@) == text::texts(right@)),
{
    let ghost a = text::texts(left@);
    let ghost b = text::texts(right@);
    if left.len() != right.len() {
        assert(a.len() != b.len());
        return false;
    }
    let mut i: usize = 0;
    while i < left.len()
        invariant
            i <= left.len(),
            left.len() == right.len(),
            a == text::texts(left@),
            b == text::texts(right@),
            forall|k: int| 0 <= k < i ==> #[trigger] a[k] == b[k],
        decreases left.len() - i,
    {
        if !text::same(left[i].as_str(), right[i].as_str()) {
            assert(a[i as int] != b[i as int]);
            return false;
        }
        i += 1;
    }
    assert(a =~= b);
    true
}

fn same_features(left: &ContextFeatures, right: &ContextFeatures) -> (result: bool)
    ensures
        result == (left@ == right@),
{
    let result = text::same(left.app.as_str(), right.app.as_str()) && text::same(
        left.page.as_str(),
        right.page.as_str(),
    ) && text::same(left.window.as_str(), right.window.as_str()) && text::same(
        left.domain.as_str(),
        right.domain.as_str(),
    ) && text::same(left.workspace.as_str(), right.workspace.as_str()) && text::same(
        left.file.as_str(),
        right.file.as_str(),
    ) && same_list(&left.tokens, &right.tokens);
    result
}

fn count_group(list: &Vec<Candidate>, group: &str) -> (result: usize)
    ensures
        result == group_size(candidate_models(list@), group@),
{
    let ghost models = candidate_models(list@);
    let ghost keep = |other: CandidateView| other.group == group@;
    let mut count: usize = 0;
    let mut i: usize = 0;
    assert(models.take(0).filter(keep) =~= Seq::empty()) by {
        reveal(Seq::filter);
    }
    while i < list.len()
        invariant
            i <= list.len(),
            count <= i,
            models == candidate_models(list@),
            keep == (|other: CandidateView| other.group == group@),
            count == models.take(i as int).filter(keep).len(),
        decreases list.len() - i,
    {
        assert(models.take(i + 1) =~= models.take(i as int).push(models[i as int]));
        proof {
            models.take(i as int).lemma_filter_push(models[i as int], keep);
        }
        if text::same(list[i].group.as_str(), group) {
            count += 1;
        }
        i += 1;
    }
    assert(models.take(list.len() as int) =~= models);
    count
}

fn count_repetitions(
    list: &Vec<Candidate>,
    group: &str,
    features: &ContextFeatures,
) -> (result: usize)
    ensures
        result == repetitions(candidate_models(list@), group@, features@),
{
    let ghost models = candidate_models(list@);
    let ghost keep = |other: CandidateView|
        other.group == group@ && other.memory.features == features@;
    let mut count: usize = 0;
    let mut i: usize = 0;
    assert(models.take(0).filter(keep) =~= Seq::empty()) by {
        reveal(Seq::filter);
    }
    while i < list.len()
        invariant
            i <= list.len(),
            count <= i,
            models == candidate_models(list@),
            keep == (|other: CandidateView|
                other.group == group@ && other.memory.features == features@),
            count == models.take(i as int).filter(keep).len(),
        decreases list.len() - i,
    {
        assert(models.take(i + 1) =~= models.take(i as int).push(models[i as int]));
        proof {
            models.take(i as int).lemma_filter_push(models[i as int], keep);
        }
        if text::same(list[i].group.as_str(), group) && same_features(
            &list[i].memory.features,
            features,
        ) {
            count += 1;
        }
        i += 1;
    }
    assert(models.take(list.len() as int) =~= models);
    count
}

/// The latest candidate with these features.
fn find_latest(list: &Vec<Candidate>, features: &ContextFeatures) -> (result: Option<usize>)
    ensures
        match result {
            Some(at) => at < list.len() && candidate_models(list@)[at as int].memory.features
                == features@ && is_latest(
                candidate_models(list@),
                candidate_models(list@)[at as int].memory,
            ),
            None => forall|k: int|
                0 <= k < list.len() ==> (#[trigger] candidate_models(list@)[k]).memory.features
                    != features@,
        },
{
    let ghost models = candidate_models(list@);
    let mut best: Option<usize> = None;
    let mut i: usize = 0;
    while i < list.len()
        invariant
            i <= list.len(),
            models == candidate_models(list@),
            match best {
                Some(at) => {
                    &&& at < i
                    &&& models[at as int].memory.features == features@
                    &&& forall|k: int|
                        0 <= k < i && (#[trigger] models[k]).memory.features == features@
                            ==> !text::precedes(
                            models[at as int].memory.confirmed_at,
                            models[k].memory.confirmed_at,
                        )
                },
                None => forall|k: int|
                    0 <= k < i ==> (#[trigger] models[k]).memory.features != features@,
            },
        decreases list.len() - i,
    {
        assert(models[i as int] == list@[i as int].model());
        if same_features(&list[i].memory.features, features) {
            match best {
                None => {
                    best = Some(i);
                    proof {
                        text::lemma_precedes_total(
                            models[i as int].memory.confirmed_at,
                            models[i as int].memory.confirmed_at,
                        );
                    }
                },
                Some(at) => {
                    let newer = list[i].memory.confirmed_at.as_str();
                    let older = list[at].memory.confirmed_at.as_str();
                    assert(models[at as int] == list@[at as int].model());
                    if text::less(older, newer) {
                        assert forall|k: int|
                            0 <= k < i + 1 && (#[trigger] models[k]).memory.features
                                == features@ implies !text::precedes(
                            newer@,
                            models[k].memory.confirmed_at,
                        ) by {
                            text::lemma_precedes_total(newer@, newer@);
                            if text::precedes(newer@, models[k].memory.confirmed_at) {
                                text::lemma_precedes_transitive(
                                    older@,
                                    newer@,
                                    models[k].memory.confirmed_at,
                                );
                            }
                        }
                        best = Some(i);
                    }
                },
            }
        }
        i += 1;
    }
    best
}

fn has_current_intent(list: &Vec<Candidate>, item: &Candidate) -> (result: bool)
    ensures
        result == is_current_intent(candidate_models(list@), item.memory@),
{
    let ghost models = candidate_models(list@);
    let at: usize = match find_latest(list, &item.memory.features) {
        Some(at) => at,
        None => {
            return true;
        },
    };
    let wanted = assignment_of(&item.memory);
    let latest = list[at].memory.confirmed_at.as_str();
    assert(models[at as int] == list@[at as int].model());
    let mut i: usize = 0;
    while i < list.len()
        invariant
            i <= list.len(),
            at < list.len(),
            models == candidate_models(list@),
            models[at as int].memory.features == item.memory@.features,
            models[at as int].memory.confirmed_at == latest@,
            is_latest(models, models[at as int].memory),
            wanted@ == assignment(item.memory@),
            forall|k: int|
                0 <= k < i && (#[trigger] models[k]).memory.features == item.memory@.features
                    && is_latest(models, models[k].memory) ==> assignment(models[k].memory)
                    == assignment(item.memory@),
        decreases list.len() - i,
    {
        let other = &list[i].memory;
        assert(models[i as int] == list@[i as int].model());
        let same = same_features(&other.features, &item.memory.features);
        let newest = text::same(other.confirmed_at.as_str(), latest);
        proof {
            if same {
                text::lemma_precedes_total(latest@, other@.confirmed_at);
                if newest {
                    assert(is_latest(models, models[i as int].memory));
                } else {
                    assert(text::precedes(other@.confirmed_at, models[at as int].memory.confirmed_at));
                    assert(!is_latest(models, models[i as int].memory));
                }
            }
        }
        if same && newest {
            let assigned = assignment_of(other);
            if !text::same(assigned.as_str(), wanted.as_str()) {
                return false;
            }
        }
        i += 1;
    }
    true
}

fn is_worth_keeping(list: &Vec<Candidate>, item: &Candidate) -> (result: bool)
    ensures
        result == worth_keeping(candidate_models(list@), item.model()),
{
    has_current_intent(list, item) && (count_group(list, item.group.as_str()) <= 1
        || count_repetitions(list, item.group.as_str(), &item.memory.features) >= 2
        || item.anchored)
}

fn collect_candidates(
    rows: &Vec<CorrectedSession>,
    events: &[RawActivityEvent],
    settings: &AppSettings,
    current_batch: bool,
) -> (result: Vec<Candidate>)
    requires
        in_order(memory::event_views(events@)),
    ensures
        candidate_models(result@) == candidates(
            corrected_views(rows@),
            memory::event_views(events@),
            settings@,
            current_batch,
        ),
{
    let ghost views = corrected_views(rows@);
    let ghost pick = |row: CorrectedView|
        candidate(row, memory::event_views(events@), settings@, current_batch);
    let mut result: Vec<Candidate> = Vec::new();
    let mut i: usize = 0;
    assert(views.take(0) =~= Seq::empty());
    assert(candidate_models(result@) =~= views.take(0).filter_map(pick));
    while i < rows.len()
        invariant
            i <= rows.len(),
            in_order(memory::event_views(events@)),
            views == corrected_views(rows@),
            pick == (|row: CorrectedView|
                candidate(row, memory::event_views(events@), settings@, current_batch)),
            candidate_models(result@) == views.take(i as int).filter_map(pick),
        decreases rows.len() - i,
    {
        let ghost done = candidate_models(result@);
        proof {
            views.lemma_filter_map_take_succ(pick, i as int);
        }
        match candidate_from(&rows[i], events, settings, current_batch) {
            Some(found) => {
                let ghost model = found.model();
                result.push(found);
                assert(candidate_models(result@) =~= done + seq![model]);
            },
            None => {},
        }
        i += 1;
    }
    assert(views.take(rows.len() as int) =~= views);
    result
}

/// The memories that corrected sessions leave. What was remembered of these sessions before is
/// forgotten.
pub fn record_correction_memories(
    rows: &Vec<CorrectedSession>,
    events: &[RawActivityEvent],
    settings: &AppSettings,
    current_batch: bool,
) -> (result: Vec<StoredMemory>)
    requires
        in_order(memory::event_views(events@)),
    ensures
        stored_views(result@) == kept_memories(
            candidates(
                corrected_views(rows@),
                memory::event_views(events@),
                settings@,
                current_batch,
            ),
        ),
{
    let list = collect_candidates(rows, events, settings, current_batch);
    let ghost models = candidate_models(list@);
    let ghost keep = |item: CandidateView| worth_keeping(models, item) && !item.idle;
    let ghost pick = |item: CandidateView| item.memory;
    let mut result: Vec<StoredMemory> = Vec::new();
    let mut i: usize = 0;
    assert(models.take(0).filter(keep) =~= Seq::empty()) by {
        reveal(Seq::filter);
    }
    assert(stored_views(result@) =~= models.take(0).filter(keep).map_values(pick));
    while i < list.len()
        invariant
            i <= list.len(),
            models == candidate_models(list@),
            keep == (|item: CandidateView| worth_keeping(models, item) && !item.idle),
            pick == (|item: CandidateView| item.memory),
            stored_views(result@) == models.take(i as int).filter(keep).map_values(pick),
        decreases list.len() - i,
    {
        let ghost done = models.take(i as int).filter(keep);
        let ghost upto = models.take(i + 1).filter(keep);
        assert(models.take(i + 1) =~= models.take(i as int).push(models[i as int]));
        proof {
            models.take(i as int).lemma_filter_push(models[i as int], keep);
        }
        assert(models[i as int] == list@[i as int].model());
        if is_worth_keeping(&list, &list[i]) && !list[i].idle {
            let ghost earlier = stored_views(result@);
            result.push(list[i].memory.copy());
            assert(stored_views(result@) =~= earlier.push(models[i as int].memory));
            assert(upto.map_values(pick) =~= done.map_values(pick).push(models[i as int].memory));
        }
        i += 1;
    }
    assert(models.take(list.len() as int) =~= models);
    result
}

proof fn lemma_some_latest(list: Seq<CandidateView>, n: int, features: FeaturesView)
    requires
        0 <= n <= list.len(),
        exists|k: int| 0 <= k < n && (#[trigger] list[k]).memory.features == features,
    ensures
        exists|k: int|
            0 <= k < n && (#[trigger] list[k]).memory.features == features && is_latest(
                list.take(n),
                list[k].memory,
            ),
    decreases n,
{
    let shorter = list.take(n - 1);
    let whole = list.take(n);
    let last = list[n - 1];
    text::lemma_precedes_total(last.memory.confirmed_at, last.memory.confirmed_at);
    if exists|k: int| 0 <= k < n - 1 && (#[trigger] list[k]).memory.features == features {
        lemma_some_latest(list, n - 1, features);
        let k = choose|k: int|
            0 <= k < n - 1 && (#[trigger] list[k]).memory.features == features && is_latest(
                shorter,
                list[k].memory,
            );
        assert(forall|m: int| 0 <= m < n - 1 ==> #[trigger] whole[m] == shorter[m]);
        if last.memory.features == features && text::precedes(
            list[k].memory.confirmed_at,
            last.memory.confirmed_at,
        ) {
            assert forall|m: int|
                0 <= m < whole.len() && (#[trigger] whole[m]).memory.features
                    == features implies !text::precedes(
                last.memory.confirmed_at,
                whole[m].memory.confirmed_at,
            ) by {
                if m < n - 1 && text::precedes(
                    last.memory.confirmed_at,
                    whole[m].memory.confirmed_at,
                ) {
                    text::lemma_precedes_transitive(
                        list[k].memory.confirmed_at,
                        last.memory.confirmed_at,
                        whole[m].memory.confirmed_at,
                    );
                    assert(shorter[m].memory.features == features);
                }
            }
            assert(is_latest(whole, list[n - 1].memory));
        } else {
            assert(is_latest(whole, list[k].memory));
        }
    } else {
        assert(list[n - 1].memory.features == features);
        assert forall|m: int|
            0 <= m < whole.len() && (#[trigger] whole[m]).memory.features
                == features implies !text::precedes(
            last.memory.confirmed_at,
            whole[m].memory.confirmed_at,
        ) by {
            assert(whole[m] == list[m]);
        }
        assert(is_latest(whole, list[n - 1].memory));
    }
}

/// Corrections never leave two memories of one context that disagree: kept memories with the same
/// features stand for the same assignment.
pub proof fn kept_memories_of_a_context_agree(list: Seq<CandidateView>, i: int, j: int)
    requires
        0 <= i < kept_memories(list).len(),
        0 <= j < kept_memories(list).len(),
        kept_memories(list)[i].features == kept_memories(list)[j].features,
    ensures
        assignment(kept_memories(list)[i]) == assignment(kept_memories(list)[j]),
{
    let keep = |item: CandidateView| worth_keeping(list, item) && !item.idle;
    let kept = list.filter(keep);
    list.lemma_filter_pred(keep, i);
    list.lemma_filter_pred(keep, j);
    let features = kept[i].memory.features;
    assert(kept.contains(kept[i]));
    list.lemma_filter_contains_rev(keep, kept[i]);
    let n = choose|n: int| 0 <= n < list.len() && list[n] == kept[i];
    assert(list[n].memory.features == features);
    lemma_some_latest(list, list.len() as int, features);
    assert(list.take(list.len() as int) =~= list);
    let k = choose|k: int|
        0 <= k < list.len() && (#[trigger] list[k]).memory.features == features && is_latest(
            list,
            list[k].memory,
        );
    assert(assignment(list[k].memory) == assignment(kept[i].memory));
    assert(assignment(list[k].memory) == assignment(kept[j].memory));
}

/// Only confirmed work with a full assignment is remembered, and only under the session it is
/// about: every kept memory is that of a given row which is reliable and is not time away.
pub proof fn kept_memories_are_confirmed_work(
    rows: Seq<CorrectedView>,
    events: Seq<RawEventView>,
    settings: SettingsView,
    current_batch: bool,
    i: int,
)
    requires
        0 <= i < kept_memories(candidates(rows, events, settings, current_batch)).len(),
    ensures
        ({
            let memory = kept_memories(candidates(rows, events, settings, current_batch))[i];
            exists|k: int|
                0 <= k < rows.len() && (#[trigger] rows[k]).session.id == memory.session_id
                    && sessions::reliable(rows[k].session) && !marked_idle(rows[k].session)
                    && !under_idle_target(rows[k].session, settings) && rows[k].session.project_id
                    == Some(memory.project_id) && rows[k].session.task_id == Some(memory.task_id)
                    && rows[k].session.category == memory.category && memory::discriminative(
                    memory.features,
                )
        }),
{
    let list = candidates(rows, events, settings, current_batch);
    let keep = |item: CandidateView| worth_keeping(list, item) && !item.idle;
    let pick = |row: CorrectedView| candidate(row, events, settings, current_batch);
    let kept = list.filter(keep);
    list.lemma_filter_pred(keep, i);
    assert(kept.contains(kept[i]));
    list.lemma_filter_contains_rev(keep, kept[i]);
    rows.lemma_filter_map_contains(pick, kept[i]);
    let row = choose|row: CorrectedView| #[trigger] rows.contains(row) && pick(row) == Some(kept[i]);
    let k = choose|k: int| 0 <= k < rows.len() && rows[k] == row;
    assert(rows[k].session.id == kept[i].memory.session_id);
}

/// The session is a confident review that the user has not confirmed, made after the cutoff.
pub open spec fn provisional(
    row: CorrectedView,
    cutoff: Option<Seq<char>>,
) -> bool {
    let session = row.session;
    &&& !session.user_confirmed
    &&& session.source == "ai-review"@
    &&& session.confidence >= score::REMEMBERED
    &&& session.project_id is Some
    &&& session.task_id is Some
    &&& session.task_title is Some
    &&& !row.placeholder
    &&& match (cutoff, row.updated_at) {
        (Some(since), Some(at)) => !text::precedes(at, since),
        _ => false,
    }
}

pub fn is_provisional_ai_memory_session(
    row: &CorrectedSession,
    cutoff: &Option<String>,
) -> (result: bool)
    ensures
        result == provisional(row@, text::optional(*cutoff)),
{
    let session = &row.session;
    if session.user_confirmed || !text::same(session.source.as_str(), "ai-review")
        || session.confidence < score::REMEMBERED || session.project_id.is_none()
        || session.task_id.is_none() || session.task_title.is_none() || row.placeholder {
        return false;
    }
    match (cutoff, &row.updated_at) {
        (Some(since), Some(at)) => !text::less(at.as_str(), since.as_str()),
        _ => false,
    }
}

/// What is left of a session's memory.
#[derive(Debug, PartialEq, Eq)]
pub enum Recall {
    /// Nothing of the session is remembered.
    Forget,
    Store(StoredMemory),
    /// The row of the session, or that of its project, is gone.
    Gone,
}

/// What `Recall` holds.
#[verifier::ext_equal]
pub enum RecallView {
    Forget,
    Store(StoredView),
    Gone,
}

impl View for Recall {
    type V = RecallView;

    open spec fn view(&self) -> RecallView {
        match self {
            Recall::Forget => RecallView::Forget,
            Recall::Store(memory) => RecallView::Store(memory@),
            Recall::Gone => RecallView::Gone,
        }
    }
}

/// What a single session leaves in memory.
pub open spec fn recalled(
    row: CorrectedView,
    events: Seq<RawEventView>,
    settings: SettingsView,
    cutoff: Option<Seq<char>>,
) -> RecallView {
    let session = row.session;
    let features = memory::features_of(session.evidence, events);
    match (session.project_id, session.task_id) {
        (Some(project_id), Some(task_id)) => {
            if session.task_title is None || row.placeholder || !(sessions::reliable(session)
                || provisional(row, cutoff)) || marked_idle(session) || row.ambiguous
                || !memory::discriminative(features) {
                RecallView::Forget
            } else {
                match row.updated_at {
                    None => RecallView::Gone,
                    Some(at) => if session.project_name is None {
                        RecallView::Gone
                    } else if under_idle_target(session, settings) {
                        RecallView::Forget
                    } else {
                        RecallView::Store(
                            StoredView {
                                session_id: session.id,
                                features,
                                category: session.category,
                                project_id,
                                task_id,
                                confirmed_at: at,
                            },
                        )
                    },
                }
            }
        },
        _ => RecallView::Forget,
    }
}

/// Says what a single session leaves in memory; `events` are those of its time.
pub fn record_personal_memory(
    row: &CorrectedSession,
    events: &[RawActivityEvent],
    settings: &AppSettings,
    cutoff: &Option<String>,
) -> (result: Recall)
    ensures
        result@ == recalled(
            row@,
            memory::event_views(events@),
            settings@,
            text::optional(*cutoff),
        ),
{
    let session = &row.session;
    let (project_id, task_id) = match (&session.project_id, &session.task_id) {
        (Some(project_id), Some(task_id)) => (project_id, task_id),
        _ => {
            return Recall::Forget;
        },
    };
    if session.task_title.is_none() || row.placeholder {
        return Recall::Forget;
    }
    if !(sessions::is_reliable_memory_session(session) || is_provisional_ai_memory_session(
        row,
        cutoff,
    )) || is_marked_idle(session) || row.ambiguous {
        return Recall::Forget;
    }
    let features = memory::features_from_session(session, events);
    if !memory::is_discriminative(&features) {
        return Recall::Forget;
    }
    match &row.updated_at {
        None => Recall::Gone,
        Some(at) => if session.project_name.is_none() {
            Recall::Gone
        } else if is_under_idle_target(session, settings) {
            Recall::Forget
        } else {
            Recall::Store(
                StoredMemory {
                    session_id: session.id.clone(),
                    features,
                    category: session.category.clone(),
                    project_id: project_id.clone(),
                    task_id: task_id.clone(),
                    confirmed_at: at.clone(),
                },
            )
        },
    }
}

/// At most so many events are read for a single session.
pub const MAX_SESSION_EVENTS: usize = 500;

/// The events of a session, up to the limit.
pub open spec fn session_events(session: SessionView, events: Seq<RawEventView>) -> Seq<RawEventView> {
    let all = events_between(events, session.started_at, session.ended_at);
    if all.len() > MAX_SESSION_EVENTS {
        all.take(MAX_SESSION_EVENTS as int)
    } else {
        all
    }
}

fn select_session_events<'a>(
    session: &WorkSession,
    events: &'a [RawActivityEvent],
) -> (result: &'a [RawActivityEvent])
    requires
        in_order(memory::event_views(events@)),
    ensures
        memory::event_views(result@) == session_events(session@, memory::event_views(events@)),
{
    let all = select_events(events, session.started_at.as_str(), session.ended_at.as_str());
    if all.len() > MAX_SESSION_EVENTS {
        let result = slice_subrange(all, 0, MAX_SESSION_EVENTS);
        assert(memory::event_views(result@) =~= memory::event_views(all@).take(
            MAX_SESSION_EVENTS as int,
        ));
        result
    } else {
        all
    }
}

/// The row takes part in rebuilding the memories from confirmed work.
pub open spec fn rebuilds(row: CorrectedView) -> bool {
    sessions::reliable(row.session) && row.session.task_id is Some
}

/// What a provisional review leaves in memory.
pub open spec fn provisional_memory(
    row: CorrectedView,
    events: Seq<RawEventView>,
    settings: SettingsView,
    cutoff: Option<Seq<char>>,
) -> Option<StoredView> {
    if provisional(row, cutoff) {
        match recalled(row, session_events(row.session, events), settings, cutoff) {
            RecallView::Store(memory) => Some(memory),
            _ => None,
        }
    } else {
        None
    }
}

/// The project of a provisional review is gone.
pub open spec fn provisional_gone(
    row: CorrectedView,
    events: Seq<RawEventView>,
    settings: SettingsView,
    cutoff: Option<Seq<char>>,
) -> bool {
    provisional(row, cutoff) && recalled(
        row,
        session_events(row.session, events),
        settings,
        cutoff,
    ) is Gone
}

/// The memories as they are rebuilt: those of the confirmed sessions, then those of the provisional
/// reviews.
pub open spec fn rebuilt(
    rows: Seq<CorrectedView>,
    events: Seq<RawEventView>,
    settings: SettingsView,
    cutoff: Option<Seq<char>>,
) -> Seq<StoredView> {
    kept_memories(
        candidates(rows.filter(|row: CorrectedView| rebuilds(row)), events, settings, false),
    ) + rows.filter_map(
        |row: CorrectedView| provisional_memory(row, events, settings, cutoff),
    )
}

impl CorrectedSession {
    pub fn copy(&self) -> (result: Self)
        ensures
            result@ == self@,
    {
        CorrectedSession {
            session: self.session.copy(),
            updated_at: self.updated_at.clone(),
            placeholder: self.placeholder,
            ambiguous: self.ambiguous,
            anchored: self.anchored,
        }
    }
}

fn collect_rebuilding(rows: &Vec<CorrectedSession>) -> (result: Vec<CorrectedSession>)
    ensures
        corrected_views(result@) == corrected_views(rows@).filter(
            |row: CorrectedView| rebuilds(row),
        ),
{
    let ghost views = corrected_views(rows@);
    let ghost keep = |row: CorrectedView| rebuilds(row);
    let mut result: Vec<CorrectedSession> = Vec::new();
    let mut i: usize = 0;
    assert(views.take(0).filter(keep) =~= Seq::empty()) by {
        reveal(Seq::filter);
    }
    assert(corrected_views(result@) =~= views.take(0).filter(keep));
    while i < rows.len()
        invariant
            i <= rows.len(),
            views == corrected_views(rows@),
            keep == (|row: CorrectedView| rebuilds(row)),
            corrected_views(result@) == views.take(i as int).filter(keep),
        decreases rows.len() - i,
    {
        let ghost done = corrected_views(result@);
        assert(views.take(i + 1) =~= views.take(i as int).push(views[i as int]));
        proof {
            views.take(i as int).lemma_filter_push(views[i as int], keep);
        }
        let row = &rows[i];
        if sessions::is_reliable_memory_session(&row.session) && row.session.task_id.is_some() {
            result.push(row.copy());
            assert(corrected_views(result@) =~= done.push(views[i as int]));
        }
        i += 1;
    }
    assert(views.take(rows.len() as int) =~= views);
    result
}

/// Rebuilds the memories from the sessions; none where the project of a provisional review is gone.
pub fn rebuild_personal_memory_from_confirmed(
    rows: &Vec<CorrectedSession>,
    events: &[RawActivityEvent],
    settings: &AppSettings,
    cutoff: &Option<String>,
) -> (result: Option<Vec<StoredMemory>>)
    requires
        in_order(memory::event_views(events@)),
    ensures
        match result {
            Some(list) => {
                &&& stored_views(list@) == rebuilt(
                    corrected_views(rows@),
                    memory::event_views(events@),
                    settings@,
                    text::optional(*cutoff),
                )
                &&& forall|k: int|
                    0 <= k < rows.len() ==> !provisional_gone(
                        #[trigger] corrected_views(rows@)[k],
                        memory::event_views(events@),
                        settings@,
                        text::optional(*cutoff),
                    )
            },
            None => exists|k: int|
                0 <= k < rows.len() && provisional_gone(
                    #[trigger] corrected_views(rows@)[k],
                    memory::event_views(events@),
                    settings@,
                    text::optional(*cutoff),
                ),
        },
{
    let confirmed = collect_rebuilding(rows);
    let mut result = record_correction_memories(&confirmed, events, settings, false);
    let ghost kept = stored_views(result@);
    let ghost views = corrected_views(rows@);
    let ghost all = memory::event_views(events@);
    let ghost since = text::optional(*cutoff);
    let ghost pick = |row: CorrectedView| provisional_memory(row, all, settings@, since);
    let mut i: usize = 0;
    assert(views.take(0) =~= Seq::empty());
    assert(stored_views(result@) =~= kept + views.take(0).filter_map(pick));
    while i < rows.len()
        invariant
            i <= rows.len(),
            views == corrected_views(rows@),
            all == memory::event_views(events@),
            in_order(all),
            since == text::optional(*cutoff),
            pick == (|row: CorrectedView| provisional_memory(row, all, settings@, since)),
            stored_views(result@) == kept + views.take(i as int).filter_map(pick),
            forall|k: int|
                0 <= k < i ==> !provisional_gone(#[trigger] views[k], all, settings@, since),
        decreases rows.len() - i,
    {
        let ghost done = stored_views(result@);
        proof {
            views.lemma_filter_map_take_succ(pick, i as int);
        }
        let row = &rows[i];
        assert(views[i as int] == row@);
        if is_provisional_ai_memory_session(row, cutoff) {
            let within = select_session_events(&row.session, events);
            match record_personal_memory(row, within, settings, cutoff) {
                Recall::Store(memory) => {
                    let ghost view = memory@;
                    assert(pick(views[i as int]) == Some(view));
                    result.push(memory);
                    assert(stored_views(result@) =~= done.push(view));
                    assert(kept + (views.take(i as int).filter_map(pick) + seq![view]) =~= (kept
                        + views.take(i as int).filter_map(pick)).push(view));
                },
                Recall::Gone => {
                    assert(provisional_gone(views[i as int], all, settings@, since));
                    return None;
                },
                Recall::Forget => {
                    assert(pick(views[i as int]) is None);
                    assert(views.take(i + 1).filter_map(pick) =~= views.take(i as int).filter_map(
                        pick,
                    ));
                },
            }
        } else {
            assert(pick(views[i as int]) is None);
            assert(views.take(i + 1).filter_map(pick) =~= views.take(i as int).filter_map(pick));
        }
        i += 1;
    }
    assert(views.take(rows.len() as int) =~= views);
    Some(result)
}

/// The time that a batch of sessions spans, by their texts.
pub open spec fn spans(rows: Seq<SessionView>, from: Seq<char>, to: Seq<char>) -> bool {
    &&& exists|k: int| 0 <= k < rows.len() && (#[trigger] rows[k]).started_at == from
    &&& exists|k: int| 0 <= k < rows.len() && (#[trigger] rows[k]).ended_at == to
    &&& forall|k: int|
        0 <= k < rows.len() ==> !text::precedes((#[trigger] rows[k]).started_at, from)
            && !text::precedes(to, rows[k].ended_at)
}

/// The earliest start and the latest end of the sessions.
pub fn span_of(rows: &Vec<WorkSession>) -> (result: Option<(String, String)>)
    ensures
        match result {
            Some((from, to)) => spans(sessions::session_views(rows@), from@, to@),
            None => rows.len() == 0,
        },
{
    if rows.len() == 0 {
        return None;
    }
    let ghost views = sessions::session_views(rows@);
    let mut first: usize = 0;
    let mut last: usize = 0;
    let mut i: usize = 1;
    proof {
        text::lemma_precedes_total(views[0].started_at, views[0].started_at);
        text::lemma_precedes_total(views[0].ended_at, views[0].ended_at);
    }
    while i < rows.len()
        invariant
            i <= rows.len(),
            first < rows.len(),
            last < rows.len(),
            views == sessions::session_views(rows@),
            forall|k: int|
                0 <= k < i ==> !text::precedes(
                    (#[trigger] views[k]).started_at,
                    views[first as int].started_at,
                ) && !text::precedes(views[last as int].ended_at, views[k].ended_at),
        decreases rows.len() - i,
    {
        assert(views[i as int] == rows@[i as int]@);
        assert(views[first as int] == rows@[first as int]@);
        assert(views[last as int] == rows@[last as int]@);
        let ghost old_first = first;
        let ghost old_last = last;
        proof {
            text::lemma_precedes_total(views[i as int].started_at, views[i as int].started_at);
            text::lemma_precedes_total(views[i as int].ended_at, views[i as int].ended_at);
        }
        if text::less(rows[i].started_at.as_str(), rows[first].started_at.as_str()) {
            first = i;
        }
        if text::less(rows[last].ended_at.as_str(), rows[i].ended_at.as_str()) {
            last = i;
        }
        assert forall|k: int| 0 <= k < i + 1 implies !text::precedes(
            (#[trigger] views[k]).started_at,
            views[first as int].started_at,
        ) && !text::precedes(views[last as int].ended_at, views[k].ended_at) by {
            if first == i && text::precedes(views[k].started_at, views[first as int].started_at) {
                text::lemma_precedes_transitive(
                    views[k].started_at,
                    views[i as int].started_at,
                    views[old_first as int].started_at,
                );
            }
            if last == i && text::precedes(views[last as int].ended_at, views[k].ended_at) {
                text::lemma_precedes_transitive(
                    views[old_last as int].ended_at,
                    views[i as int].ended_at,
                    views[k].ended_at,
                );
            }
        }
        i += 1;
    }
    assert(views[first as int] == rows@[first as int]@);
    assert(views[last as int] == rows@[last as int]@);
    Some((rows[first].started_at.clone(), rows[last].ended_at.clone()))
}

} // verus!
