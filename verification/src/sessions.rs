//! Sessions on the timeline: which belong together, and how they are joined, split and repaired.
use vstd::prelude::*;
use vstd::string::*;

use crate::clock;
use crate::labels;
use crate::models;
use crate::models::{AppSettings, EvidenceItem, EvidenceView, SessionView, SettingsView, WorkSession};
use crate::score;
use crate::text;

verus! {

broadcast use vstd::seq_lib::group_seq_properties;

/// What the sessions of a list hold.
pub open spec fn session_views(sessions: Seq<WorkSession>) -> Seq<SessionView> {
    sessions.map_values(|session: WorkSession| session@)
}

/// The value of the first evidence of a kind.
pub open spec fn first_value(items: Seq<EvidenceView>, kind: Seq<char>) -> Option<Seq<char>>
    decreases items.len(),
{
    if items.len() == 0 {
        None
    } else if items[0].kind == kind {
        Some(items[0].value)
    } else {
        first_value(items.drop_first(), kind)
    }
}

pub fn first_evidence_value(evidence: &Vec<EvidenceItem>, kind: &str) -> (result: Option<String>)
    ensures
        text::optional(result) == first_value(models::evidence_views(evidence@), kind@),
{
    let ghost views = models::evidence_views(evidence@);
    let mut i: usize = 0;
    assert(views.skip(0) =~= views);
    while i < evidence.len()
        invariant
            i <= evidence.len(),
            views == models::evidence_views(evidence@),
            first_value(views, kind@) == first_value(views.skip(i as int), kind@),
        decreases evidence.len() - i,
    {
        assert(views.skip(i as int)[0] == evidence@[i as int]@);
        if text::same(evidence[i].kind.as_str(), kind) {
            return Some(evidence[i].value.clone());
        }
        assert(views.skip(i as int).drop_first() =~= views.skip(i + 1));
        i += 1;
    }
    None
}

/// The program of a session, in lower case.
pub open spec fn session_app(session: SessionView) -> Option<Seq<char>> {
    match first_value(session.evidence, "app"@) {
        Some(value) => {
            let name = text::lowercase(text::trimmed(value));
            if name.len() == 0 {
                None
            } else {
                Some(name)
            }
        },
        None => None,
    }
}

pub fn primary_session_app(session: &WorkSession) -> (result: Option<String>)
    ensures
        text::optional(result) == session_app(session@),
{
    match first_evidence_value(&session.evidence, "app") {
        Some(value) => {
            let name = text::trim(value.as_str()).as_str().to_lowercase();
            if name.as_str().is_empty() {
                None
            } else {
                Some(name)
            }
        },
        None => None,
    }
}

/// The session is a screenshot tool over the task at hand.
pub open spec fn overlay_session(session: SessionView) -> bool {
    ||| session_app(session) matches Some(app) && labels::overlay_app(app)
    ||| labels::overlay_title(session.summary)
    ||| exists|i: int|
        0 <= i < session.evidence.len() && shows_overlay(#[trigger] session.evidence[i])
}

pub open spec fn shows_overlay(item: EvidenceView) -> bool {
    (item.kind == "window"@ || item.kind == "page"@) && labels::overlay_title(item.value)
}

pub fn is_task_overlay_session(session: &WorkSession) -> (result: bool)
    ensures
        result == overlay_session(session@),
{
    if let Some(app) = primary_session_app(session) {
        if labels::is_task_overlay_app_name(app.as_str()) {
            return true;
        }
    }
    if labels::is_screenshot_overlay_title(session.summary.as_str()) {
        return true;
    }
    let mut i: usize = 0;
    while i < session.evidence.len()
        invariant
            i <= session.evidence.len(),
            forall|k: int| 0 <= k < i ==> !shows_overlay(#[trigger] session@.evidence[k]),
        decreases session.evidence.len() - i,
    {
        let item = &session.evidence[i];
        assert(session@.evidence[i as int] == item@);
        if (text::same(item.kind.as_str(), "window") || text::same(item.kind.as_str(), "page"))
            && labels::is_screenshot_overlay_title(item.value.as_str()) {
            return true;
        }
        i += 1;
    }
    false
}

/// Both sessions have the same category, project and task.
pub open spec fn same_assignment(left: SessionView, right: SessionView) -> bool {
    left.project_id == right.project_id && left.task_id == right.task_id && left.category
        == right.category
}

pub fn has_same_assignment(left: &WorkSession, right: &WorkSession) -> (result: bool)
    ensures
        result == same_assignment(left@, right@),
{
    text::same_optional(&left.project_id, &right.project_id) && text::same_optional(
        &left.task_id,
        &right.task_id,
    ) && text::same(left.category.as_str(), right.category.as_str())
}

/// Both sessions name the same program.
pub open spec fn same_known_app(left: SessionView, right: SessionView) -> bool {
    session_app(left) is Some && session_app(left) == session_app(right)
}

fn has_same_known_app(left: &WorkSession, right: &WorkSession) -> (result: bool)
    ensures
        result == same_known_app(left@, right@),
{
    let app = primary_session_app(left);
    app.is_some() && text::same_optional(&app, &primary_session_app(right))
}

/// The right session continues the left one and can be joined to it without asking.
pub open spec fn coalesces(left: SessionView, right: SessionView) -> bool {
    if right.user_confirmed || !clock::gap_within(left.ended_at, right.started_at, 5) {
        false
    } else if overlay_session(right) {
        labels::auto_source(right.source) && left.source != "collector-idle"@ && left.category
            != "离开"@
    } else if left.user_confirmed {
        false
    } else if left.source == "collector-idle"@ && right.source == "collector-idle"@ {
        left.project_id == right.project_id && left.category == right.category
    } else {
        &&& left.source == "context-complete"@
        &&& right.source == "context-complete"@
        &&& same_assignment(left, right)
        &&& same_known_app(left, right)
        &&& left.project_id is Some || left.task_id is Some || left.summary == right.summary
    }
}

pub fn can_auto_coalesce(left: &WorkSession, right: &WorkSession) -> (result: bool)
    ensures
        result == coalesces(left@, right@),
{
    if right.user_confirmed || !clock::within_gap_seconds(
        left.ended_at.as_str(),
        right.started_at.as_str(),
        5,
    ) {
        return false;
    }
    // A screenshot tool belongs to the task that was active right before it. That task may have
    // been corrected by the user and is still a valid anchor; only an automatically collected
    // overlay can be absorbed.
    if is_task_overlay_session(right) {
        return labels::is_auto_session_source(right.source.as_str()) && !text::same(
            left.source.as_str(),
            "collector-idle",
        ) && !text::same(left.category.as_str(), "离开");
    }
    if left.user_confirmed {
        return false;
    }
    if text::same(left.source.as_str(), "collector-idle") && text::same(
        right.source.as_str(),
        "collector-idle",
    ) {
        return text::same_optional(&left.project_id, &right.project_id) && text::same(
            left.category.as_str(),
            right.category.as_str(),
        );
    }
    if !text::same(left.source.as_str(), "context-complete") || !text::same(
        right.source.as_str(),
        "context-complete",
    ) {
        return false;
    }
    has_same_assignment(left, right) && has_same_known_app(left, right) && (
    left.project_id.is_some() || left.task_id.is_some() || text::same(
        left.summary.as_str(),
        right.summary.as_str(),
    ))
}

/// The two sessions are the ends of one piece of work with a short detour between them.
pub open spec fn bridges(left: SessionView, right: SessionView) -> bool {
    &&& !left.user_confirmed
    &&& !right.user_confirmed
    &&& left.source == "context-complete"@
    &&& right.source == "context-complete"@
    &&& left.category != "离开"@
    &&& same_assignment(left, right)
    &&& left.project_id is Some || left.task_id is Some
    &&& same_known_app(left, right)
    &&& clock::gap_within(left.ended_at, right.started_at, 90)
}

pub fn can_bridge_short_detour(left: &WorkSession, right: &WorkSession) -> (result: bool)
    ensures
        result == bridges(left@, right@),
{
    !left.user_confirmed && !right.user_confirmed && text::same(
        left.source.as_str(),
        "context-complete",
    ) && text::same(right.source.as_str(), "context-complete") && !text::same(
        left.category.as_str(),
        "离开",
    ) && has_same_assignment(left, right) && (left.project_id.is_some() || left.task_id.is_some())
        && has_same_known_app(left, right) && clock::within_gap_seconds(
        left.ended_at.as_str(),
        right.started_at.as_str(),
        90,
    )
}

/// The session can be a step of a detour that starts at `previous_end`.
pub open spec fn detour_step(anchor: SessionView, session: SessionView, previous_end: Seq<char>) -> bool {
    &&& !session.user_confirmed
    &&& session.source == "context-complete"@
    &&& session.category != "离开"@
    &&& session.project_id == anchor.project_id || (session.project_id is None && session.category
        == "杂务"@)
    &&& clock::gap_within(previous_end, session.started_at, 3)
}

/// Where step `i` of a detour has to begin.
pub open spec fn step_begin(anchor: SessionView, middle: Seq<SessionView>, i: int) -> Seq<char> {
    if i == 0 {
        anchor.ended_at
    } else {
        middle[i - 1].ended_at
    }
}

/// The sessions lead without gaps from `anchor` back to `current`.
pub open spec fn detour(
    anchor: SessionView,
    middle: Seq<SessionView>,
    current: SessionView,
) -> bool {
    &&& middle.len() > 0
    &&& forall|i: int|
        0 <= i < middle.len() ==> detour_step(
            anchor,
            middle[i],
            #[trigger] step_begin(anchor, middle, i),
        )
    &&& clock::gap_within(middle.last().ended_at, current.started_at, 3)
}

fn is_detour_step(anchor: &WorkSession, session: &WorkSession, previous_end: &str) -> (result: bool)
    ensures
        result == detour_step(anchor@, session@, previous_end@),
{
    let compatible = text::same_optional(&session.project_id, &anchor.project_id) || (
    session.project_id.is_none() && text::same(session.category.as_str(), "杂务"));
    !session.user_confirmed && text::same(session.source.as_str(), "context-complete")
        && !text::same(session.category.as_str(), "离开") && compatible
        && clock::within_gap_seconds(previous_end, session.started_at.as_str(), 3)
}

pub fn short_detour_is_compatible(
    anchor: &WorkSession,
    middle: &Vec<WorkSession>,
    current: &WorkSession,
) -> (result: bool)
    ensures
        result == detour(anchor@, session_views(middle@), current@),
{
    if middle.len() == 0 {
        return false;
    }
    let ghost views = session_views(middle@);
    let mut i: usize = 0;
    while i < middle.len()
        invariant
            i <= middle.len(),
            middle.len() > 0,
            views == session_views(middle@),
            forall|k: int|
                0 <= k < i ==> detour_step(
                    anchor@,
                    views[k],
                    #[trigger] step_begin(anchor@, views, k),
                ),
        decreases middle.len() - i,
    {
        let session = &middle[i];
        assert(views[i as int] == session@);
        let previous_end = if i == 0 {
            anchor.ended_at.as_str()
        } else {
            assert(views[i - 1] == middle@[i - 1]@);
            middle[i - 1].ended_at.as_str()
        };
        assert(previous_end@ == step_begin(anchor@, views, i as int));
        if !is_detour_step(anchor, session, previous_end) {
            return false;
        }
        i += 1;
    }
    assert(views.last() == middle@[middle.len() - 1]@);
    clock::within_gap_seconds(
        middle[middle.len() - 1].ended_at.as_str(),
        current.started_at.as_str(),
        3,
    )
}

/// The length of a session in whole seconds.
pub fn session_duration_seconds(session: &WorkSession) -> (result: Option<i64>)
    ensures
        match result {
            Some(seconds) => clock::gap_seconds(session@.started_at, session@.ended_at) == Some(
                seconds as int,
            ),
            None => clock::gap_seconds(session@.started_at, session@.ended_at) is None,
        },
{
    clock::context_gap_seconds(session.started_at.as_str(), session.ended_at.as_str())
}

/// The sessions share time: by the clock where all four times can be read, else by their texts.
pub open spec fn overlap(left: SessionView, right: SessionView) -> bool {
    match (
        clock::moment_of(left.started_at),
        clock::moment_of(left.ended_at),
        clock::moment_of(right.started_at),
        clock::moment_of(right.ended_at),
    ) {
        (Some(left_start), Some(left_end), Some(right_start), Some(right_end)) => clock::before(
            left_start,
            right_end,
        ) && clock::before(right_start, left_end),
        _ => text::precedes(right.started_at, left.ended_at) && text::precedes(
            left.started_at,
            right.ended_at,
        ),
    }
}

pub fn sessions_overlap(left: &WorkSession, right: &WorkSession) -> (result: bool)
    ensures
        result == overlap(left@, right@),
{
    match (
        clock::parse_moment(left.started_at.as_str()),
        clock::parse_moment(left.ended_at.as_str()),
        clock::parse_moment(right.started_at.as_str()),
        clock::parse_moment(right.ended_at.as_str()),
    ) {
        (Some(left_start), Some(left_end), Some(right_start), Some(right_end)) => clock::is_before(
            left_start,
            right_end,
        ) && clock::is_before(right_start, left_end),
        _ => text::less(right.started_at.as_str(), left.ended_at.as_str()) && text::less(
            left.started_at.as_str(),
            right.ended_at.as_str(),
        ),
    }
}

/// Two overlapping automatic sessions are one and the same.
pub open spec fn repairable(left: SessionView, right: SessionView) -> bool {
    if left.user_confirmed || right.user_confirmed || !labels::auto_source(left.source)
        || !labels::auto_source(right.source) || !same_assignment(left, right) {
        false
    } else {
        ||| left.source == "collector-idle"@ && right.source == "collector-idle"@
        ||| left.summary == right.summary
        ||| (left.project_id is Some || left.task_id is Some) && same_known_app(left, right)
    }
}

pub fn can_repair_overlapping_sessions(left: &WorkSession, right: &WorkSession) -> (result: bool)
    ensures
        result == repairable(left@, right@),
{
    if left.user_confirmed || right.user_confirmed || !labels::is_auto_session_source(
        left.source.as_str(),
    ) || !labels::is_auto_session_source(right.source.as_str()) || !has_same_assignment(
        left,
        right,
    ) {
        return false;
    }
    if text::same(left.source.as_str(), "collector-idle") && text::same(
        right.source.as_str(),
        "collector-idle",
    ) {
        return true;
    }
    text::same(left.summary.as_str(), right.summary.as_str()) || ((left.project_id.is_some()
        || left.task_id.is_some()) && has_same_known_app(left, right))
}

/// The session is time away from the computer.
pub open spec fn idle(session: SessionView, settings: SettingsView) -> bool {
    ||| session.source == "collector-idle"@
    ||| text::trimmed(session.summary) == "离开/空闲"@
    ||| session.category == settings.idle_category && session.project_name == Some(
        settings.idle_project_name,
    )
}

pub fn is_idle_session(session: &WorkSession, settings: &AppSettings) -> (result: bool)
    ensures
        result == idle(session@, settings@),
{
    let configured = match &session.project_name {
        Some(name) => text::same(
            session.category.as_str(),
            settings.idle_category.as_str(),
        ) && text::same(name.as_str(), settings.idle_project_name.as_str()),
        None => false,
    };
    let summary = text::trim(session.summary.as_str());
    text::same(session.source.as_str(), "collector-idle") || text::same(
        summary.as_str(),
        "离开/空闲",
    ) || configured
}

/// The session was confirmed by the user from what was recorded, not made up by hand.
pub open spec fn reliable(session: SessionView) -> bool {
    session.source != "manual-entry"@ && session.source != "manual-merge"@ && session.user_confirmed
}

pub fn is_reliable_memory_session(session: &WorkSession) -> (result: bool)
    ensures
        result == reliable(session@),
{
    !text::same(session.source.as_str(), "manual-entry") && !text::same(
        session.source.as_str(),
        "manual-merge",
    ) && session.user_confirmed
}

/// The list already holds evidence with this kind and value.
pub open spec fn knows(items: Seq<EvidenceView>, item: EvidenceView) -> bool {
    exists|k: int|
        0 <= k < items.len() && (#[trigger] items[k]).kind == item.kind && items[k].value
            == item.value
}

/// The first twenty different pieces of evidence.
pub open spec fn distinct_evidence(items: Seq<EvidenceView>) -> Seq<EvidenceView>
    decreases items.len(),
{
    if items.len() == 0 {
        Seq::empty()
    } else {
        let earlier = distinct_evidence(items.drop_last());
        if earlier.len() >= 20 || knows(earlier, items.last()) {
            earlier
        } else {
            earlier.push(items.last())
        }
    }
}

/// Joined evidence has at most twenty items, no two with the same kind and value.
pub proof fn joined_evidence_is_short_and_distinct(items: Seq<EvidenceView>)
    ensures
        distinct_evidence(items).len() <= 20,
        forall|i: int, j: int|
            0 <= i < j < distinct_evidence(items).len() ==> !((#[trigger] distinct_evidence(
                items,
            )[i]).kind == (#[trigger] distinct_evidence(items)[j]).kind && distinct_evidence(
                items,
            )[i].value == distinct_evidence(items)[j].value),
    decreases items.len(),
{
    if items.len() > 0 {
        joined_evidence_is_short_and_distinct(items.drop_last());
    }
}

/// Joined evidence begins with the evidence of the left session.
pub proof fn joined_evidence_keeps_the_left(left: Seq<EvidenceView>, right: Seq<EvidenceView>)
    ensures
        distinct_evidence(left).is_prefix_of(distinct_evidence(left + right)),
    decreases right.len(),
{
    if right.len() == 0 {
        assert(left + right =~= left);
    } else {
        joined_evidence_keeps_the_left(left, right.drop_last());
        assert((left + right).drop_last() =~= left + right.drop_last());
    }
}

fn knows_evidence(items: &Vec<EvidenceItem>, item: &EvidenceItem) -> (result: bool)
    ensures
        result == knows(models::evidence_views(items@), item@),
{
    let ghost views = models::evidence_views(items@);
    let mut i: usize = 0;
    while i < items.len()
        invariant
            i <= items.len(),
            views == models::evidence_views(items@),
            forall|k: int|
                0 <= k < i ==> !((#[trigger] views[k]).kind == item@.kind && views[k].value
                    == item@.value),
        decreases items.len() - i,
    {
        assert(views[i as int] == items@[i as int]@);
        if text::same(items[i].kind.as_str(), item.kind.as_str()) && text::same(
            items[i].value.as_str(),
            item.value.as_str(),
        ) {
            return true;
        }
        i += 1;
    }
    false
}

/// Adds the evidence that is not known yet, up to twenty items.
fn add_evidence(merged: &mut Vec<EvidenceItem>, items: &Vec<EvidenceItem>, Ghost(seen): Ghost<
    Seq<EvidenceView>,
>)
    requires
        models::evidence_views(old(merged)@) == distinct_evidence(seen),
    ensures
        models::evidence_views(final(merged)@) == distinct_evidence(
            seen + models::evidence_views(items@),
        ),
{
    let ghost views = models::evidence_views(items@);
    let mut i: usize = 0;
    assert(seen + views.take(0) =~= seen);
    while i < items.len()
        invariant
            i <= items.len(),
            views == models::evidence_views(items@),
            models::evidence_views(merged@) == distinct_evidence(seen + views.take(i as int)),
        decreases items.len() - i,
    {
        let ghost upto = seen + views.take(i + 1);
        assert(upto.drop_last() =~= seen + views.take(i as int));
        assert(upto.last() == items@[i as int]@);
        let ghost earlier = models::evidence_views(merged@);
        assert(earlier.len() == merged.len());
        if merged.len() < 20 && !knows_evidence(merged, &items[i]) {
            merged.push(items[i].copy());
            assert(models::evidence_views(merged@) =~= earlier.push(items@[i as int]@));
        }
        i += 1;
    }
    assert(views.take(items.len() as int) =~= views);
}

pub fn merge_evidence(
    left: &Vec<EvidenceItem>,
    right: &Vec<EvidenceItem>,
) -> (result: Vec<EvidenceItem>)
    ensures
        models::evidence_views(result@) == distinct_evidence(
            models::evidence_views(left@) + models::evidence_views(right@),
        ),
{
    let mut merged: Vec<EvidenceItem> = Vec::new();
    assert(models::evidence_views(merged@) =~= Seq::empty());
    add_evidence(&mut merged, left, Ghost(Seq::empty()));
    assert(Seq::<EvidenceView>::empty() + models::evidence_views(left@) =~= models::evidence_views(
        left@,
    ));
    add_evidence(&mut merged, right, Ghost(models::evidence_views(left@)));
    merged
}

/// The later of two ends.
pub open spec fn later_end(left: Seq<char>, right: Seq<char>) -> Seq<char> {
    if clock::later(right, left) {
        right
    } else {
        left
    }
}

/// `anchor` after it has taken in `session`.
pub open spec fn absorbed(anchor: SessionView, session: SessionView) -> SessionView {
    SessionView {
        ended_at: later_end(anchor.ended_at, session.ended_at),
        summary: labels::joint_summary(anchor.summary, session.summary),
        confidence: score::greater(anchor.confidence, session.confidence),
        evidence: distinct_evidence(anchor.evidence + session.evidence),
        ..anchor
    }
}

/// `anchor` after it has taken in the sessions, one after the other.
pub open spec fn absorbed_all(anchor: SessionView, sessions: Seq<SessionView>) -> SessionView
    decreases sessions.len(),
{
    if sessions.len() == 0 {
        anchor
    } else {
        absorbed(absorbed_all(anchor, sessions.drop_last()), sessions.last())
    }
}

/// Takes `session` into `anchor`.
pub fn absorb(anchor: &mut WorkSession, session: &WorkSession)
    ensures
        final(anchor)@ == absorbed(old(anchor)@, session@),
{
    let summary = labels::preferred_coalesced_summary(
        anchor.summary.as_str(),
        session.summary.as_str(),
    );
    let evidence = merge_evidence(&anchor.evidence, &session.evidence);
    let confidence: i32 = score::max(anchor.confidence, session.confidence);
    if clock::timestamp_is_after(session.ended_at.as_str(), anchor.ended_at.as_str()) {
        anchor.ended_at = session.ended_at.clone();
    }
    anchor.summary = summary;
    anchor.evidence = evidence;
    anchor.confidence = confidence;
}

/// What `anchor` becomes when the following sessions are joined to it.
pub fn merge_sessions_into(anchor: &WorkSession, following: &Vec<WorkSession>) -> (result:
    WorkSession)
    ensures
        result@ == absorbed_all(anchor@, session_views(following@)),
{
    let ghost views = session_views(following@);
    let mut merged = anchor.copy();
    let mut i: usize = 0;
    while i < following.len()
        invariant
            i <= following.len(),
            views == session_views(following@),
            merged@ == absorbed_all(anchor@, views.take(i as int)),
        decreases following.len() - i,
    {
        assert(views.take(i + 1).drop_last() =~= views.take(i as int));
        assert(views.take(i + 1).last() == following@[i as int]@);
        absorb(&mut merged, &following[i]);
        i += 1;
    }
    assert(views.take(following.len() as int) =~= views);
    merged
}

/// Joining sessions changes neither who the anchor is, nor where it begins, nor what it is
/// attributed to, and its confidence never drops.
pub proof fn joining_keeps_the_anchor(anchor: SessionView, sessions: Seq<SessionView>)
    ensures
        ({
            let merged = absorbed_all(anchor, sessions);
            &&& merged.id == anchor.id
            &&& merged.started_at == anchor.started_at
            &&& same_assignment(merged, anchor)
            &&& merged.user_confirmed == anchor.user_confirmed
            &&& merged.source == anchor.source
            &&& merged.confidence >= anchor.confidence
        }),
    decreases sessions.len(),
{
    if sessions.len() > 0 {
        joining_keeps_the_anchor(anchor, sessions.drop_last());
    }
}

/// The joined session ends no earlier than the anchor or any of the sessions, where their ends can
/// be read.
pub proof fn joining_covers_every_end(anchor: SessionView, sessions: Seq<SessionView>, i: int)
    requires
        clock::moment_of(anchor.ended_at) is Some,
        forall|k: int|
            0 <= k < sessions.len() ==> clock::moment_of(
                (#[trigger] sessions[k]).ended_at,
            ) is Some,
        0 <= i < sessions.len(),
    ensures
        ({
            let merged = absorbed_all(anchor, sessions);
            &&& clock::moment_of(merged.ended_at) is Some
            &&& !clock::later(anchor.ended_at, merged.ended_at)
            &&& !clock::later(sessions[i].ended_at, merged.ended_at)
        }),
    decreases sessions.len(),
{
    let rest = sessions.drop_last();
    if rest.len() == 0 {
        assert(absorbed_all(anchor, rest) == anchor);
    } else {
        joining_covers_every_end(
            anchor,
            rest,
            if i < rest.len() {
                i
            } else {
                0
            },
        );
    }
}

/// The first session with this id.
pub open spec fn find(sessions: Seq<SessionView>, id: Seq<char>) -> Option<SessionView>
    decreases sessions.len(),
{
    if sessions.len() == 0 {
        None
    } else if sessions[0].id == id {
        Some(sessions[0])
    } else {
        find(sessions.drop_first(), id)
    }
}

pub fn find_session(sessions: &Vec<WorkSession>, id: &str) -> (result: Option<usize>)
    ensures
        match result {
            Some(at) => at < sessions.len() && find(session_views(sessions@), id@) == Some(
                sessions@[at as int]@,
            ) && sessions@[at as int].id@ == id@,
            None => find(session_views(sessions@), id@) is None,
        },
{
    let ghost views = session_views(sessions@);
    let mut i: usize = 0;
    assert(views.skip(0) =~= views);
    while i < sessions.len()
        invariant
            i <= sessions.len(),
            views == session_views(sessions@),
            find(views, id@) == find(views.skip(i as int), id@),
        decreases sessions.len() - i,
    {
        assert(views.skip(i as int)[0] == sessions@[i as int]@);
        if text::same(sessions[i].id.as_str(), id) {
            return Some(i);
        }
        assert(views.skip(i as int).drop_first() =~= views.skip(i + 1));
        i += 1;
    }
    None
}

/// Puts a session behind all that do not start later.
pub open spec fn insert_by_start(sorted: Seq<SessionView>, session: SessionView) -> Seq<SessionView>
    decreases sorted.len(),
{
    if sorted.len() == 0 || !text::precedes(session.started_at, sorted.last().started_at) {
        sorted.push(session)
    } else {
        insert_by_start(sorted.drop_last(), session).push(sorted.last())
    }
}

/// The sessions in the order of their start; those that start together keep their order.
pub open spec fn by_start(sessions: Seq<SessionView>) -> Seq<SessionView>
    decreases sessions.len(),
{
    if sessions.len() == 0 {
        Seq::empty()
    } else {
        insert_by_start(by_start(sessions.drop_last()), sessions.last())
    }
}

/// No session starts before one that comes earlier in the list.
pub open spec fn start_order(sessions: Seq<SessionView>) -> bool {
    forall|i: int, j: int|
        0 <= i < j < sessions.len() ==> !text::precedes(
            (#[trigger] sessions[j]).started_at,
            (#[trigger] sessions[i]).started_at,
        )
}

proof fn lemma_insert_by_start(sorted: Seq<SessionView>, session: SessionView)
    requires
        start_order(sorted),
    ensures
        start_order(insert_by_start(sorted, session)),
        insert_by_start(sorted, session).len() == sorted.len() + 1,
        insert_by_start(sorted, session).to_multiset() == sorted.to_multiset().insert(session),
        forall|k: int|
            0 <= k <= sorted.len() ==> #[trigger] insert_by_start(sorted, session)[k] == session
                || sorted.contains(insert_by_start(sorted, session)[k]),
    decreases sorted.len(),
{
    broadcast use vstd::seq_lib::group_to_multiset_ensures;

    let result = insert_by_start(sorted, session);
    if sorted.len() == 0 {
        assert(result.to_multiset() =~= sorted.to_multiset().insert(session));
    } else if !text::precedes(session.started_at, sorted.last().started_at) {
        assert forall|i: int, j: int| 0 <= i < j < result.len() implies !text::precedes(
            (#[trigger] result[j]).started_at,
            (#[trigger] result[i]).started_at,
        ) by {
            if j == sorted.len() && i < sorted.len() - 1 {
                let last = sorted.last().started_at;
                assert(!text::precedes(last, sorted[i].started_at));
                if text::precedes(session.started_at, sorted[i].started_at) {
                    text::lemma_precedes_total(last, sorted[i].started_at);
                    text::lemma_precedes_total(session.started_at, last);
                    if sorted[i].started_at != last {
                        text::lemma_precedes_transitive(
                            session.started_at,
                            sorted[i].started_at,
                            last,
                        );
                    }
                }
            }
        }
        assert(result.to_multiset() =~= sorted.to_multiset().insert(session));
    } else {
        let rest = sorted.drop_last();
        let inner = insert_by_start(rest, session);
        lemma_insert_by_start(rest, session);
        assert forall|i: int, j: int| 0 <= i < j < result.len() implies !text::precedes(
            (#[trigger] result[j]).started_at,
            (#[trigger] result[i]).started_at,
        ) by {
            if j == inner.len() {
                assert(result[i] == inner[i]);
                if inner[i] == session {
                    text::lemma_precedes_total(session.started_at, sorted.last().started_at);
                } else {
                    let m = choose|m: int| 0 <= m < rest.len() && rest[m] == inner[i];
                    assert(sorted[m] == inner[i]);
                }
            } else {
                assert(result[i] == inner[i]);
                assert(result[j] == inner[j]);
            }
        }
        assert(sorted =~= rest.push(sorted.last()));
        assert(result.to_multiset() =~= inner.to_multiset().insert(sorted.last()));
        assert(result.to_multiset() =~= sorted.to_multiset().insert(session));
        assert forall|k: int| 0 <= k <= sorted.len() implies #[trigger] result[k] == session
            || sorted.contains(result[k]) by {
            if k < inner.len() {
                assert(result[k] == inner[k]);
                if inner[k] != session {
                    let m = choose|m: int| 0 <= m < rest.len() && rest[m] == inner[k];
                    assert(sorted[m] == inner[k]);
                }
            } else {
                assert(sorted[sorted.len() - 1] == result[k]);
            }
        }
    }
}

/// Sorting by start keeps every session and puts them in order.
pub proof fn sorting_by_start_is_a_permutation(sessions: Seq<SessionView>)
    ensures
        start_order(by_start(sessions)),
        by_start(sessions).to_multiset() == sessions.to_multiset(),
        by_start(sessions).len() == sessions.len(),
    decreases sessions.len(),
{
    broadcast use vstd::seq_lib::group_to_multiset_ensures;

    if sessions.len() > 0 {
        sorting_by_start_is_a_permutation(sessions.drop_last());
        lemma_insert_by_start(by_start(sessions.drop_last()), sessions.last());
        assert(sessions =~= sessions.drop_last().push(sessions.last()));
        assert(by_start(sessions).to_multiset() =~= sessions.to_multiset());
    } else {
        assert(sessions =~= Seq::empty());
    }
}

/// Sorts by start, stably.
pub fn sort_by_start(sessions: Vec<WorkSession>) -> (result: Vec<WorkSession>)
    ensures
        session_views(result@) == by_start(session_views(sessions@)),
{
    let ghost views = session_views(sessions@);
    let mut sorted: Vec<WorkSession> = Vec::new();
    let mut i: usize = 0;
    while i < sessions.len()
        invariant
            i <= sessions.len(),
            views == session_views(sessions@),
            session_views(sorted@) == by_start(views.take(i as int)),
        decreases sessions.len() - i,
    {
        assert(views.take(i + 1).drop_last() =~= views.take(i as int));
        assert(views.take(i + 1).last() == sessions@[i as int]@);
        insert_session(&mut sorted, sessions[i].copy());
        i += 1;
    }
    assert(views.take(sessions.len() as int) =~= views);
    sorted
}

/// A session that starts before the last of the first `at` goes in front of it.
proof fn lemma_insert_earlier(list: Seq<SessionView>, session: SessionView, at: int)
    requires
        0 < at <= list.len(),
        text::precedes(session.started_at, list[at - 1].started_at),
    ensures
        insert_by_start(list.take(at - 1), session) + list.skip(at - 1) == insert_by_start(
            list.take(at),
            session,
        ) + list.skip(at),
{
    let head = list.take(at);
    let front = insert_by_start(list.take(at - 1), session);
    assert(head.last() == list[at - 1]);
    assert(head.drop_last() =~= list.take(at - 1));
    assert(insert_by_start(head, session) == front.push(list[at - 1]));
    assert(list.skip(at - 1) =~= seq![list[at - 1]] + list.skip(at));
    assert(front.push(list[at - 1]) + list.skip(at) =~= front + list.skip(at - 1));
}

/// A session that does not start before the last of the first `at` goes behind it.
proof fn lemma_insert_here(list: Seq<SessionView>, session: SessionView, at: int)
    requires
        0 <= at <= list.len(),
        at > 0 ==> !text::precedes(session.started_at, list[at - 1].started_at),
    ensures
        insert_by_start(list.take(at), session) + list.skip(at) == list.insert(at, session),
{
    let head = list.take(at);
    if at > 0 {
        assert(head.last() == list[at - 1]);
    }
    assert(insert_by_start(head, session) == head.push(session));
    assert(head.push(session) + list.skip(at) =~= list.insert(at, session));
}

fn insert_session(sorted: &mut Vec<WorkSession>, session: WorkSession)
    ensures
        session_views(final(sorted)@) == insert_by_start(session_views(old(sorted)@), session@),
{
    let ghost before = session_views(sorted@);
    let ghost view = session@;
    let mut at: usize = sorted.len();
    proof {
        assert(before.take(at as int) =~= before);
        assert(before.skip(at as int) =~= Seq::empty());
        assert(insert_by_start(before, view) + Seq::empty() =~= insert_by_start(before, view));
    }
    while at > 0 && text::less(session.started_at.as_str(), sorted[at - 1].started_at.as_str())
        invariant
            at <= sorted.len(),
            before == session_views(sorted@),
            view == session@,
            insert_by_start(before.take(at as int), view) + before.skip(at as int)
                == insert_by_start(before, view),
        decreases at,
    {
        proof {
            assert(before[at - 1] == sorted@[at - 1]@);
            lemma_insert_earlier(before, view, at as int);
        }
        at -= 1;
    }
    proof {
        if at > 0 {
            assert(before[at - 1] == sorted@[at - 1]@);
        }
        lemma_insert_here(before, view, at as int);
    }
    sorted.insert(at, session);
    assert(session_views(sorted@) =~= before.insert(at as int, session@));
}

/// Why sessions cannot be merged.
#[derive(Debug, PartialEq, Eq)]
pub enum MergeError {
    /// Fewer than two different sessions.
    TooFew,
    /// More than 500 different sessions.
    TooMany,
    /// There is no session with this id.
    Missing(String),
    /// The sessions differ in category, project or task.
    MixedAssignment,
    /// Neighbours lie more than five seconds apart.
    Gap,
    /// A session that was not chosen lies between them.
    Unselected,
}

/// What a `MergeError` says.
pub enum MergeErrorView {
    TooFew,
    TooMany,
    Missing(Seq<char>),
    MixedAssignment,
    Gap,
    Unselected,
}

impl View for MergeError {
    type V = MergeErrorView;

    open spec fn view(&self) -> MergeErrorView {
        match self {
            MergeError::TooFew => MergeErrorView::TooFew,
            MergeError::TooMany => MergeErrorView::TooMany,
            MergeError::Missing(id) => MergeErrorView::Missing(id@),
            MergeError::MixedAssignment => MergeErrorView::MixedAssignment,
            MergeError::Gap => MergeErrorView::Gap,
            MergeError::Unselected => MergeErrorView::Unselected,
        }
    }
}

/// The first id without a session.
pub open spec fn first_missing(table: Seq<SessionView>, ids: Seq<Seq<char>>) -> Option<Seq<char>>
    decreases ids.len(),
{
    if ids.len() == 0 {
        None
    } else {
        match first_missing(table, ids.drop_last()) {
            Some(id) => Some(id),
            None => if find(table, ids.last()) is None {
                Some(ids.last())
            } else {
                None
            },
        }
    }
}

/// The sessions with these ids, in the order of the ids.
pub open spec fn chosen(table: Seq<SessionView>, ids: Seq<Seq<char>>) -> Seq<SessionView> {
    ids.map_values(|id: Seq<char>| find(table, id).unwrap())
}

/// Every session has the assignment of the first.
pub open spec fn uniform(sessions: Seq<SessionView>) -> bool {
    forall|i: int|
        0 <= i < sessions.len() ==> same_assignment(#[trigger] sessions[i], sessions[0])
}

/// Place `i` begins at most five seconds behind the end of the place before it.
pub open spec fn connected_at(sessions: Seq<SessionView>, i: int) -> bool {
    clock::touches_within(sessions[i - 1].ended_at, sessions[i].started_at, 5)
}

/// Neighbours touch, overlap, or lie at most five seconds apart.
pub open spec fn connected(sessions: Seq<SessionView>) -> bool {
    forall|i: int| 1 <= i < sessions.len() ==> #[trigger] connected_at(sessions, i)
}

/// The latest end of the sessions, starting from `first`.
pub open spec fn latest_end(first: Seq<char>, sessions: Seq<SessionView>) -> Seq<char>
    decreases sessions.len(),
{
    if sessions.len() == 0 {
        first
    } else {
        later_end(latest_end(first, sessions.drop_last()), sessions.last().ended_at)
    }
}

/// The evidence of all sessions, joined from left to right.
pub open spec fn joint_evidence(sessions: Seq<SessionView>) -> Seq<EvidenceView>
    decreases sessions.len(),
{
    if sessions.len() == 0 {
        Seq::empty()
    } else {
        distinct_evidence(joint_evidence(sessions.drop_last()) + sessions.last().evidence)
    }
}

/// The greatest confidence of the sessions, at least zero.
pub open spec fn joint_confidence(sessions: Seq<SessionView>) -> i32
    decreases sessions.len(),
{
    if sessions.len() == 0 {
        score::ZERO
    } else {
        score::greater(joint_confidence(sessions.drop_last()), sessions.last().confidence)
    }
}

/// The summaries of the sessions.
pub open spec fn summaries(sessions: Seq<SessionView>) -> Seq<Seq<char>> {
    sessions.map_values(|session: SessionView| session.summary)
}

/// The session has a length and shares time with the span.
pub open spec fn lies_within(session: SessionView, started_at: Seq<char>, ended_at: Seq<char>) -> bool {
    match (
        clock::moment_of(session.started_at),
        clock::moment_of(session.ended_at),
        clock::moment_of(started_at),
        clock::moment_of(ended_at),
    ) {
        (Some(begin), Some(end), Some(from), Some(to)) => clock::before(begin, end)
            && clock::before(begin, to) && clock::before(from, end),
        _ => false,
    }
}

/// Every session of the table that shares time with the span was chosen.
pub open spec fn span_is_chosen(
    table: Seq<SessionView>,
    ids: Seq<Seq<char>>,
    started_at: Seq<char>,
    ended_at: Seq<char>,
) -> bool {
    forall|i: int|
        0 <= i < table.len() && lies_within(#[trigger] table[i], started_at, ended_at)
            ==> ids.contains(table[i].id)
}

/// The session that replaces the given ones, which are sorted by start.
pub open spec fn merged_session(
    sessions: Seq<SessionView>,
    summary: Option<Seq<char>>,
    new_id: Seq<char>,
) -> SessionView {
    let anchor = sessions[0];
    let joint = text::concat_with(text::distinct(summaries(sessions)), " / "@);
    SessionView {
        id: new_id,
        ended_at: latest_end(anchor.ended_at, sessions),
        summary: crate::settings::setting_label(
            match summary {
                Some(given) => given,
                None => joint,
            },
            "连续工作会话"@,
        ),
        confidence: joint_confidence(sessions),
        evidence: joint_evidence(sessions),
        user_confirmed: true,
        source: "manual-merge"@,
        ..anchor
    }
}

/// What merging the sessions with the given ids comes to.
pub open spec fn merge_outcome(
    table: Seq<SessionView>,
    ids: Seq<Seq<char>>,
    summary: Option<Seq<char>>,
    new_id: Seq<char>,
) -> Result<SessionView, MergeErrorView> {
    let wanted = text::distinct(ids);
    let sessions = by_start(chosen(table, wanted));
    let merged = merged_session(sessions, summary, new_id);
    if wanted.len() < 2 {
        Err(MergeErrorView::TooFew)
    } else if wanted.len() > 500 {
        Err(MergeErrorView::TooMany)
    } else if first_missing(table, wanted) matches Some(id) {
        Err(MergeErrorView::Missing(first_missing(table, wanted).unwrap()))
    } else if !uniform(sessions) {
        Err(MergeErrorView::MixedAssignment)
    } else if !connected(sessions) {
        Err(MergeErrorView::Gap)
    } else if !span_is_chosen(table, wanted, merged.started_at, merged.ended_at) {
        Err(MergeErrorView::Unselected)
    } else {
        Ok(merged)
    }
}

pub(crate) proof fn lemma_no_missing(table: Seq<SessionView>, ids: Seq<Seq<char>>)
    ensures
        first_missing(table, ids) is None ==> forall|k: int|
            0 <= k < ids.len() ==> find(table, #[trigger] ids[k]) is Some,
    decreases ids.len(),
{
    if ids.len() > 0 {
        lemma_no_missing(table, ids.drop_last());
        if first_missing(table, ids) is None {
            assert forall|k: int| 0 <= k < ids.len() implies find(
                table,
                #[trigger] ids[k],
            ) is Some by {
                if k < ids.len() - 1 {
                    assert(ids.drop_last()[k] == ids[k]);
                }
            }
        }
    }
}

/// Collects the sessions with the given ids, or names the first id without one.
pub(crate) fn collect_chosen(table: &Vec<WorkSession>, ids: &Vec<String>) -> (result: Result<
    Vec<WorkSession>,
    String,
>)
    ensures
        match result {
            Ok(sessions) => first_missing(session_views(table@), text::texts(ids@)) is None
                && session_views(sessions@) == chosen(session_views(table@), text::texts(ids@)),
            Err(id) => first_missing(session_views(table@), text::texts(ids@)) == Some(id@),
        },
{
    let ghost views = session_views(table@);
    let ghost wanted = text::texts(ids@);
    let mut sessions: Vec<WorkSession> = Vec::new();
    let mut i: usize = 0;
    while i < ids.len()
        invariant
            i <= ids.len(),
            views == session_views(table@),
            wanted == text::texts(ids@),
            first_missing(views, wanted.take(i as int)) is None,
            session_views(sessions@) == chosen(views, wanted.take(i as int)),
        decreases ids.len() - i,
    {
        let ghost upto = wanted.take(i + 1);
        assert(upto.drop_last() =~= wanted.take(i as int));
        match find_session(table, ids[i].as_str()) {
            Some(at) => {
                let ghost done = session_views(sessions@);
                sessions.push(table[at].copy());
                assert(session_views(sessions@) =~= done.push(table@[at as int]@));
                assert(session_views(sessions@) =~= chosen(views, upto));
            },
            None => {
                proof {
                    lemma_missing_prefix(views, wanted, i + 1);
                }
                return Err(ids[i].clone());
            },
        }
        i += 1;
    }
    assert(wanted.take(ids.len() as int) =~= wanted);
    Ok(sessions)
}

proof fn lemma_missing_prefix(table: Seq<SessionView>, ids: Seq<Seq<char>>, n: int)
    requires
        0 <= n <= ids.len(),
        first_missing(table, ids.take(n)) is Some,
    ensures
        first_missing(table, ids) == first_missing(table, ids.take(n)),
    decreases ids.len(),
{
    if n < ids.len() {
        assert(ids.drop_last().take(n) =~= ids.take(n));
        lemma_missing_prefix(table, ids.drop_last(), n);
    } else {
        assert(ids.take(n) =~= ids);
    }
}

fn is_uniform(sessions: &Vec<WorkSession>) -> (result: bool)
    requires
        sessions.len() > 0,
    ensures
        result == uniform(session_views(sessions@)),
{
    let ghost views = session_views(sessions@);
    let mut i: usize = 0;
    while i < sessions.len()
        invariant
            i <= sessions.len(),
            sessions.len() > 0,
            views == session_views(sessions@),
            forall|k: int| 0 <= k < i ==> same_assignment(#[trigger] views[k], views[0]),
        decreases sessions.len() - i,
    {
        assert(views[i as int] == sessions@[i as int]@);
        assert(views[0] == sessions@[0]@);
        if !has_same_assignment(&sessions[i], &sessions[0]) {
            assert(!same_assignment(views[i as int], views[0]));
            return false;
        }
        i += 1;
    }
    true
}

fn is_connected(sessions: &Vec<WorkSession>) -> (result: bool)
    ensures
        result == connected(session_views(sessions@)),
{
    let ghost views = session_views(sessions@);
    if sessions.len() < 2 {
        return true;
    }
    let mut i: usize = 1;
    while i < sessions.len()
        invariant
            1 <= i <= sessions.len(),
            views == session_views(sessions@),
            forall|k: int| 1 <= k < i ==> #[trigger] connected_at(views, k),
        decreases sessions.len() - i,
    {
        assert(views[i as int] == sessions@[i as int]@);
        assert(views[i - 1] == sessions@[i - 1]@);
        if !clock::touch_or_overlap_within(
            sessions[i - 1].ended_at.as_str(),
            sessions[i].started_at.as_str(),
            5,
        ) {
            assert(!connected_at(views, i as int));
            return false;
        }
        i += 1;
    }
    true
}

fn shares_span(session: &WorkSession, started_at: &str, ended_at: &str) -> (result: bool)
    ensures
        result == lies_within(session@, started_at@, ended_at@),
{
    match (
        clock::parse_moment(session.started_at.as_str()),
        clock::parse_moment(session.ended_at.as_str()),
        clock::parse_moment(started_at),
        clock::parse_moment(ended_at),
    ) {
        (Some(begin), Some(end), Some(from), Some(to)) => clock::is_before(begin, end)
            && clock::is_before(begin, to) && clock::is_before(from, end),
        _ => false,
    }
}

fn is_span_chosen(
    table: &Vec<WorkSession>,
    ids: &Vec<String>,
    started_at: &str,
    ended_at: &str,
) -> (result: bool)
    ensures
        result == span_is_chosen(
            session_views(table@),
            text::texts(ids@),
            started_at@,
            ended_at@,
        ),
{
    let ghost views = session_views(table@);
    let mut i: usize = 0;
    while i < table.len()
        invariant
            i <= table.len(),
            views == session_views(table@),
            forall|k: int|
                0 <= k < i && lies_within(#[trigger] views[k], started_at@, ended_at@)
                    ==> text::texts(ids@).contains(views[k].id),
        decreases table.len() - i,
    {
        assert(views[i as int] == table@[i as int]@);
        if shares_span(&table[i], started_at, ended_at) && !text::listed(
            ids,
            table[i].id.as_str(),
        ) {
            assert(lies_within(views[i as int], started_at@, ended_at@));
            return false;
        }
        i += 1;
    }
    true
}

fn find_latest_end(sessions: &Vec<WorkSession>) -> (result: String)
    requires
        sessions.len() > 0,
    ensures
        result@ == latest_end(session_views(sessions@)[0].ended_at, session_views(sessions@)),
{
    let ghost views = session_views(sessions@);
    let mut ended_at = sessions[0].ended_at.clone();
    let ghost first = ended_at@;
    let mut i: usize = 0;
    while i < sessions.len()
        invariant
            i <= sessions.len(),
            views == session_views(sessions@),
            ended_at@ == latest_end(first, views.take(i as int)),
        decreases sessions.len() - i,
    {
        assert(views.take(i + 1).drop_last() =~= views.take(i as int));
        assert(views.take(i + 1).last() == sessions@[i as int]@);
        if clock::timestamp_is_after(sessions[i].ended_at.as_str(), ended_at.as_str()) {
            ended_at = sessions[i].ended_at.clone();
        }
        i += 1;
    }
    assert(views.take(sessions.len() as int) =~= views);
    ended_at
}

fn join_evidence(sessions: &Vec<WorkSession>) -> (result: Vec<EvidenceItem>)
    ensures
        models::evidence_views(result@) == joint_evidence(session_views(sessions@)),
{
    let ghost views = session_views(sessions@);
    let mut evidence: Vec<EvidenceItem> = Vec::new();
    let mut i: usize = 0;
    assert(models::evidence_views(evidence@) =~= joint_evidence(views.take(0)));
    while i < sessions.len()
        invariant
            i <= sessions.len(),
            views == session_views(sessions@),
            models::evidence_views(evidence@) == joint_evidence(views.take(i as int)),
        decreases sessions.len() - i,
    {
        assert(views.take(i + 1).drop_last() =~= views.take(i as int));
        assert(views.take(i + 1).last() == sessions@[i as int]@);
        evidence = merge_evidence(&evidence, &sessions[i].evidence);
        i += 1;
    }
    assert(views.take(sessions.len() as int) =~= views);
    evidence
}

fn find_joint_confidence(sessions: &Vec<WorkSession>) -> (result: i32)
    ensures
        result == joint_confidence(session_views(sessions@)),
{
    let ghost views = session_views(sessions@);
    let mut confidence: i32 = score::ZERO;
    let mut i: usize = 0;
    while i < sessions.len()
        invariant
            i <= sessions.len(),
            views == session_views(sessions@),
            confidence == joint_confidence(views.take(i as int)),
        decreases sessions.len() - i,
    {
        assert(views.take(i + 1).drop_last() =~= views.take(i as int));
        assert(views.take(i + 1).last() == sessions@[i as int]@);
        confidence = score::max(confidence, sessions[i].confidence);
        i += 1;
    }
    assert(views.take(sessions.len() as int) =~= views);
    confidence
}

fn collect_summaries(sessions: &Vec<WorkSession>) -> (result: Vec<String>)
    ensures
        text::texts(result@) == summaries(session_views(sessions@)),
{
    let ghost views = session_views(sessions@);
    let mut names: Vec<String> = Vec::new();
    let mut i: usize = 0;
    while i < sessions.len()
        invariant
            i <= sessions.len(),
            views == session_views(sessions@),
            text::texts(names@) == summaries(views).take(i as int),
        decreases sessions.len() - i,
    {
        let ghost done = text::texts(names@);
        names.push(sessions[i].summary.clone());
        assert(text::texts(names@) =~= done.push(sessions@[i as int].summary@));
        assert(summaries(views)[i as int] == sessions@[i as int].summary@);
        i += 1;
    }
    assert(summaries(views).take(sessions.len() as int) =~= summaries(views));
    names
}

/// The session that replaces the given ones, which are sorted by start.
fn build_merged(sessions: &Vec<WorkSession>, summary: &Option<String>, new_id: &str) -> (result:
    WorkSession)
    requires
        sessions.len() > 0,
    ensures
        result@ == merged_session(
            session_views(sessions@),
            text::optional(*summary),
            new_id@,
        ),
{
    let name = match summary {
        Some(given) => labels::clean_name(given.as_str(), "连续工作会话"),
        None => labels::clean_name(
            text::join(&text::unique(&collect_summaries(sessions)), " / ").as_str(),
            "连续工作会话",
        ),
    };
    let anchor = &sessions[0];
    assert(session_views(sessions@)[0] == anchor@);
    WorkSession {
        id: new_id.to_owned(),
        started_at: anchor.started_at.clone(),
        ended_at: find_latest_end(sessions),
        project_id: anchor.project_id.clone(),
        project_name: anchor.project_name.clone(),
        task_id: anchor.task_id.clone(),
        task_title: anchor.task_title.clone(),
        category: anchor.category.clone(),
        summary: name,
        confidence: find_joint_confidence(sessions),
        evidence: join_evidence(sessions),
        user_confirmed: true,
        source: "manual-merge".to_owned(),
    }
}

/// Merges the chosen sessions of the table into one confirmed session.
pub fn merge_sessions(
    table: &Vec<WorkSession>,
    ids: &Vec<String>,
    summary: &Option<String>,
    new_id: &str,
) -> (result: Result<WorkSession, MergeError>)
    ensures
        match result {
            Ok(merged) => merge_outcome(
                session_views(table@),
                text::texts(ids@),
                text::optional(*summary),
                new_id@,
            ) == Ok::<SessionView, MergeErrorView>(merged@),
            Err(error) => merge_outcome(
                session_views(table@),
                text::texts(ids@),
                text::optional(*summary),
                new_id@,
            ) == Err::<SessionView, MergeErrorView>(error@),
        },
{
    let wanted = text::unique(ids);
    if wanted.len() < 2 {
        return Err(MergeError::TooFew);
    }
    if wanted.len() > 500 {
        return Err(MergeError::TooMany);
    }
    let collected = match collect_chosen(table, &wanted) {
        Ok(collected) => collected,
        Err(id) => {
            return Err(MergeError::Missing(id));
        },
    };
    proof {
        sorting_by_start_is_a_permutation(session_views(collected@));
    }
    let sessions = sort_by_start(collected);
    if !is_uniform(&sessions) {
        return Err(MergeError::MixedAssignment);
    }
    if !is_connected(&sessions) {
        return Err(MergeError::Gap);
    }
    let merged = build_merged(&sessions, summary, new_id);
    if !is_span_chosen(table, &wanted, merged.started_at.as_str(), merged.ended_at.as_str()) {
        return Err(MergeError::Unselected);
    }
    Ok(merged)
}

/// Sessions are merged only when all have one assignment and no neighbours, by start, lie more than
/// five seconds apart; the merged session has that assignment and starts with the earliest.
pub proof fn merged_sessions_were_one_piece_of_work(
    table: Seq<SessionView>,
    ids: Seq<Seq<char>>,
    summary: Option<Seq<char>>,
    new_id: Seq<char>,
)
    requires
        merge_outcome(table, ids, summary, new_id) is Ok,
    ensures
        ({
            let merged = merge_outcome(table, ids, summary, new_id)->Ok_0;
            let sessions = by_start(chosen(table, text::distinct(ids)));
            &&& uniform(sessions)
            &&& connected(sessions)
            &&& same_assignment(merged, sessions[0])
            &&& merged.started_at == sessions[0].started_at
            &&& forall|i: int|
                0 <= i < sessions.len() ==> !text::precedes(
                    (#[trigger] sessions[i]).started_at,
                    merged.started_at,
                )
        }),
{
    let sessions = by_start(chosen(table, text::distinct(ids)));
    sorting_by_start_is_a_permutation(chosen(table, text::distinct(ids)));
    assert forall|i: int| 0 <= i < sessions.len() implies !text::precedes(
        (#[trigger] sessions[i]).started_at,
        sessions[0].started_at,
    ) by {
        if i == 0 {
            text::lemma_precedes_total(sessions[0].started_at, sessions[0].started_at);
        }
    }
}

/// The matched sessions of a plan item after one of them was absorbed by another.
pub fn replace_absorbed(matched: &Vec<String>, absorbed_id: &str, anchor_id: &str) -> (result: Vec<
    String,
>)
    ensures
        text::increasing(text::texts(result@)),
        text::texts(result@).to_set() == text::texts(matched@).map_values(
            |id: Seq<char>| if id == absorbed_id@ { anchor_id@ } else { id },
        ).to_set(),
{
    let ghost rename = |id: Seq<char>| if id == absorbed_id@ { anchor_id@ } else { id };
    let mut renamed: Vec<String> = Vec::new();
    let mut i: usize = 0;
    while i < matched.len()
        invariant
            i <= matched.len(),
            rename == (|id: Seq<char>| if id == absorbed_id@ { anchor_id@ } else { id }),
            text::texts(renamed@) == text::texts(matched@).take(i as int).map_values(rename),
        decreases matched.len() - i,
    {
        let ghost done = text::texts(renamed@);
        if text::same(matched[i].as_str(), absorbed_id) {
            renamed.push(anchor_id.to_owned());
        } else {
            renamed.push(matched[i].clone());
        }
        assert(text::texts(renamed@) =~= done.push(rename(matched@[i as int]@)));
        assert(text::texts(matched@).take(i + 1) =~= text::texts(matched@).take(i as int).push(
            matched@[i as int]@,
        ));
        assert(text::texts(renamed@) =~= text::texts(matched@).take(i + 1).map_values(rename));
        i += 1;
    }
    assert(text::texts(matched@).take(matched.len() as int) =~= text::texts(matched@));
    text::sort_unique(&renamed)
}

/// The matched sessions of a plan item after the merged ones were replaced, if it had any of them.
pub fn replace_merged(matched: &Vec<String>, ids: &Vec<String>, new_id: &str) -> (result: Option<
    Vec<String>,
>)
    ensures
        match result {
            Some(updated) => {
                &&& exists|k: int|
                    0 <= k < matched.len() && text::texts(ids@).contains(
                        #[trigger] text::texts(matched@)[k],
                    )
                &&& text::increasing(text::texts(updated@))
                &&& text::texts(updated@).to_set() == text::texts(matched@).filter(
                    |id: Seq<char>| !text::texts(ids@).contains(id),
                ).to_set().insert(new_id@)
            },
            None => forall|k: int|
                0 <= k < matched.len() ==> !text::texts(ids@).contains(
                    #[trigger] text::texts(matched@)[k],
                ),
        },
{
    let ghost all = text::texts(matched@);
    let ghost keep = |id: Seq<char>| !text::texts(ids@).contains(id);
    let mut kept: Vec<String> = Vec::new();
    let mut found = false;
    let mut i: usize = 0;
    assert(all.take(0).filter(keep) =~= Seq::empty()) by {
        reveal(Seq::filter);
    }
    while i < matched.len()
        invariant
            i <= matched.len(),
            all == text::texts(matched@),
            keep == (|id: Seq<char>| !text::texts(ids@).contains(id)),
            text::texts(kept@) == all.take(i as int).filter(keep),
            found <==> exists|k: int|
                0 <= k < i && text::texts(ids@).contains(#[trigger] all[k]),
        decreases matched.len() - i,
    {
        assert(all[i as int] == matched@[i as int]@);
        assert(all.take(i + 1) =~= all.take(i as int).push(all[i as int]));
        proof {
            all.take(i as int).lemma_filter_push(all[i as int], keep);
        }
        if text::listed(ids, matched[i].as_str()) {
            found = true;
        } else {
            let ghost done = text::texts(kept@).push(all[i as int]);
            kept.push(matched[i].clone());
            assert(text::texts(kept@) =~= done);
        }
        i += 1;
    }
    assert(all.take(matched.len() as int) =~= all);
    if !found {
        return None;
    }
    let ghost before = text::texts(kept@);
    kept.push(new_id.to_owned());
    assert(text::texts(kept@) =~= before.push(new_id@));
    assert(before.push(new_id@).to_set() =~= before.to_set().insert(new_id@));
    Some(text::sort_unique(&kept))
}

} // verus!
