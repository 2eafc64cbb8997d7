//! Sessions entered by hand, and taking a correction back.
use vstd::prelude::*;
use vstd::string::*;

use crate::catalog;
use crate::catalog::{Catalog, CatalogView};
use crate::clock;
use crate::labels;
use crate::models;
use crate::models::{
    EvidenceItem, EvidenceView, SessionPatch, SessionPatchView, SessionView, UndoStatus, WorkSession,
};
use crate::score;
use crate::sessions;
use crate::text;

verus! {

broadcast use vstd::seq_lib::group_seq_properties;

/// Why a session cannot be entered by hand.
#[derive(Clone, Copy, Debug, PartialEq, Eq, Structural)]
pub enum ManualError {
    InvalidStart,
    InvalidEnd,
    TooShort,
    NoTask,
    InvalidConfidence,
    MissingTask,
    Overlap,
}

/// The row shares time with the span.
pub open spec fn meets_span(row: SessionView, started_at: Seq<char>, ended_at: Seq<char>) -> bool {
    match (
        clock::moment_of(row.started_at),
        clock::moment_of(row.ended_at),
        clock::moment_of(started_at),
        clock::moment_of(ended_at),
    ) {
        (Some(begin), Some(end), Some(from), Some(to)) => clock::before(begin, to)
            && clock::before(from, end),
        _ => false,
    }
}

fn is_meeting_span(row: &WorkSession, started_at: &str, ended_at: &str) -> (result: bool)
    ensures
        result == meets_span(row@, started_at@, ended_at@),
{
    match (
        clock::parse_moment(row.started_at.as_str()),
        clock::parse_moment(row.ended_at.as_str()),
        clock::parse_moment(started_at),
        clock::parse_moment(ended_at),
    ) {
        (Some(begin), Some(end), Some(from), Some(to)) => clock::is_before(begin, to)
            && clock::is_before(from, end),
        _ => false,
    }
}

/// Some row of the table shares time with the span.
pub open spec fn span_is_taken(
    table: Seq<SessionView>,
    started_at: Seq<char>,
    ended_at: Seq<char>,
) -> bool {
    exists|i: int| 0 <= i < table.len() && meets_span(#[trigger] table[i], started_at, ended_at)
}

fn is_span_taken(table: &Vec<WorkSession>, started_at: &str, ended_at: &str) -> (result: bool)
    ensures
        result == span_is_taken(sessions::session_views(table@), started_at@, ended_at@),
{
    let ghost views = sessions::session_views(table@);
    let mut i: usize = 0;
    while i < table.len()
        invariant
            i <= table.len(),
            views == sessions::session_views(table@),
            forall|k: int| 0 <= k < i ==> !meets_span(#[trigger] views[k], started_at@, ended_at@),
        decreases table.len() - i,
    {
        assert(views[i as int] == table@[i as int]@);
        if is_meeting_span(&table[i], started_at, ended_at) {
            return true;
        }
        i += 1;
    }
    false
}

/// The task that a patch names.
pub open spec fn named_task(patch: SessionPatchView) -> Seq<char> {
    match patch.task_id {
        Some(id) => labels::cleaned(id),
        None => Seq::empty(),
    }
}

/// The summary of a session entered by hand.
pub open spec fn manual_summary(patch: SessionPatchView) -> Seq<char> {
    match patch.summary {
        Some(given) => if labels::cleaned(given).len() == 0 {
            "手动补录"@
        } else {
            labels::cleaned(given)
        },
        None => "手动补录"@,
    }
}

/// The evidence of a session entered by hand.
pub open spec fn manual_evidence() -> EvidenceView {
    EvidenceView {
        kind: "manual"@,
        label: "来源"@,
        value: "手动补录未记录时间"@,
        weight: score::ONE,
    }
}

/// What entering a session by hand comes to.
pub open spec fn manual_outcome(
    started_at: Seq<char>,
    ended_at: Seq<char>,
    patch: SessionPatchView,
    table: Seq<SessionView>,
    catalog: CatalogView,
    id: Seq<char>,
) -> Result<SessionView, ManualError> {
    let task = named_task(patch);
    let confidence = match patch.confidence {
        Some(given) => given,
        None => score::ONE,
    };
    match (clock::moment_of(started_at), clock::moment_of(ended_at)) {
        (None, _) => Err(ManualError::InvalidStart),
        (_, None) => Err(ManualError::InvalidEnd),
        (Some(start), Some(end)) => {
            let from = clock::rfc3339_text(start.seconds, start.nanos);
            let to = clock::rfc3339_text(end.seconds, end.nanos);
            if clock::elapsed(start, end) < 5_000_000_000 {
                Err(ManualError::TooShort)
            } else if task.len() == 0 {
                Err(ManualError::NoTask)
            } else if !score::finite(confidence) {
                Err(ManualError::InvalidConfidence)
            } else {
                match catalog::placement_of(catalog, task) {
                    None => Err(ManualError::MissingTask),
                    Some((project, category)) => if span_is_taken(table, from, to) {
                        Err(ManualError::Overlap)
                    } else {
                        Ok(
                            SessionView {
                                id,
                                started_at: from,
                                ended_at: to,
                                project_id: Some(project),
                                project_name: catalog::project_name(catalog, Some(project)),
                                task_id: Some(task),
                                task_title: catalog::task_title(catalog, Some(task)),
                                category,
                                summary: manual_summary(patch),
                                confidence: score::unit_clamped(confidence),
                                evidence: seq![manual_evidence()],
                                user_confirmed: true,
                                source: "manual-entry"@,
                            },
                        )
                    },
                }
            }
        },
    }
}

/// Enters a confirmed session for time that was not recorded.
pub fn create_manual_session(
    started_at: &str,
    ended_at: &str,
    patch: &SessionPatch,
    table: &Vec<WorkSession>,
    catalog: &Catalog,
    id: &str,
) -> (result: Result<WorkSession, ManualError>)
    ensures
        match result {
            Ok(session) => manual_outcome(
                started_at@,
                ended_at@,
                patch@,
                sessions::session_views(table@),
                catalog@,
                id@,
            ) == Ok::<SessionView, ManualError>(session@),
            Err(error) => manual_outcome(
                started_at@,
                ended_at@,
                patch@,
                sessions::session_views(table@),
                catalog@,
                id@,
            ) == Err::<SessionView, ManualError>(error),
        },
{
    let start = match clock::parse_moment(started_at) {
        Some(start) => start,
        None => {
            return Err(ManualError::InvalidStart);
        },
    };
    let end = match clock::parse_moment(ended_at) {
        Some(end) => end,
        None => {
            return Err(ManualError::InvalidEnd);
        },
    };
    if clock::elapsed_nanos(start, end) < 5_000_000_000 {
        return Err(ManualError::TooShort);
    }
    let from = clock::format_moment(start);
    let to = clock::format_moment(end);
    let task = match &patch.task_id {
        Some(given) => labels::clean(given.as_str()),
        None => String::new(),
    };
    if task.as_str().is_empty() {
        return Err(ManualError::NoTask);
    }
    let given_summary = match &patch.summary {
        Some(given) => labels::clean(given.as_str()),
        None => String::new(),
    };
    let summary = if given_summary.as_str().is_empty() {
        "手动补录".to_owned()
    } else {
        given_summary
    };
    let confidence: i32 = match patch.confidence {
        Some(given) => given,
        None => score::ONE,
    };
    if !score::is_finite(confidence) {
        return Err(ManualError::InvalidConfidence);
    }
    let (project, category) = match catalog::find_placement(catalog, task.as_str()) {
        Some(found) => found,
        None => {
            return Err(ManualError::MissingTask);
        },
    };
    if is_span_taken(table, from.as_str(), to.as_str()) {
        return Err(ManualError::Overlap);
    }
    let mut evidence: Vec<EvidenceItem> = Vec::new();
    evidence.push(
        EvidenceItem {
            kind: "manual".to_owned(),
            label: "来源".to_owned(),
            value: "手动补录未记录时间".to_owned(),
            weight: score::ONE,
        },
    );
    assert(models::evidence_views(evidence@) =~= seq![manual_evidence()]);
    let project_id = Some(project);
    let task_id = Some(task);
    let project_name = catalog::name_of_project(catalog, &project_id);
    let task_title = catalog::title_of_task(catalog, &task_id);
    Ok(
        WorkSession {
            id: id.to_owned(),
            started_at: from,
            ended_at: to,
            project_id,
            project_name,
            task_id,
            task_title,
            category,
            summary,
            confidence: score::clamp_unit(confidence),
            evidence,
            user_confirmed: true,
            source: "manual-entry".to_owned(),
        },
    )
}

/// A session entered by hand shares no time with any row of the table, stands under its task in the
/// hierarchy, and is never taken for a memory.
pub proof fn manual_sessions_fill_gaps(
    started_at: Seq<char>,
    ended_at: Seq<char>,
    patch: SessionPatchView,
    table: Seq<SessionView>,
    catalog: CatalogView,
    id: Seq<char>,
)
    requires
        manual_outcome(started_at, ended_at, patch, table, catalog, id) is Ok,
    ensures
        ({
            let session = manual_outcome(started_at, ended_at, patch, table, catalog, id)->Ok_0;
            &&& forall|i: int|
                0 <= i < table.len() ==> !meets_span(
                    #[trigger] table[i],
                    session.started_at,
                    session.ended_at,
                )
            &&& catalog::consistent(
                catalog,
                session.project_id,
                session.task_id,
                session.category,
            )
            &&& !sessions::reliable(session)
        }),
{
    let session = manual_outcome(started_at, ended_at, patch, table, catalog, id)->Ok_0;
    assert(catalog::placement_of(catalog, session.task_id.unwrap()) == Some(
        (session.project_id.unwrap(), session.category),
    ));
}

/// A session as it is stored.
#[derive(Debug, PartialEq, Eq)]
pub struct UndoSessionRow {
    pub id: String,
    pub started_at: String,
    pub ended_at: String,
    pub project_id: Option<String>,
    pub task_id: Option<String>,
    pub category: String,
    pub summary: String,
    pub confidence: i32,
    pub evidence_json: String,
    pub user_confirmed: bool,
    pub source: String,
    pub updated_at: String,
}

impl UndoSessionRow {
    pub fn copy(&self) -> (result: Self)
        ensures
            result == *self,
    {
        UndoSessionRow {
            id: self.id.clone(),
            started_at: self.started_at.clone(),
            ended_at: self.ended_at.clone(),
            project_id: self.project_id.clone(),
            task_id: self.task_id.clone(),
            category: self.category.clone(),
            summary: self.summary.clone(),
            confidence: self.confidence,
            evidence_json: self.evidence_json.clone(),
            user_confirmed: self.user_confirmed,
            source: self.source.clone(),
            updated_at: self.updated_at.clone(),
        }
    }
}

/// A rule as it is stored.
#[derive(Debug, PartialEq, Eq)]
pub struct UndoRuleRow {
    pub id: String,
    pub name: String,
    pub priority: i32,
    pub matcher_json: String,
    pub project_id: Option<String>,
    pub task_id: Option<String>,
    pub category: String,
    pub created_from_correction: bool,
    pub enabled: bool,
    pub updated_at: String,
}

impl UndoRuleRow {
    pub fn copy(&self) -> (result: Self)
        ensures
            result == *self,
    {
        UndoRuleRow {
            id: self.id.clone(),
            name: self.name.clone(),
            priority: self.priority,
            matcher_json: self.matcher_json.clone(),
            project_id: self.project_id.clone(),
            task_id: self.task_id.clone(),
            category: self.category.clone(),
            created_from_correction: self.created_from_correction,
            enabled: self.enabled,
            updated_at: self.updated_at.clone(),
        }
    }
}

/// A pin as it is stored.
#[derive(Debug, PartialEq, Eq)]
pub struct UndoContextPinRow {
    pub project_id: String,
    pub task_id: Option<String>,
    pub expires_at: String,
}

impl UndoContextPinRow {
    pub fn copy(&self) -> (result: Self)
        ensures
            result == *self,
    {
        UndoContextPinRow {
            project_id: self.project_id.clone(),
            task_id: self.task_id.clone(),
            expires_at: self.expires_at.clone(),
        }
    }
}

/// A memory as it is stored.
#[derive(Debug, PartialEq, Eq)]
pub struct UndoMemoryRow {
    pub session_id: String,
    pub features_json: String,
    pub category: String,
    pub project_id: String,
    pub task_id: String,
    pub confirmed_at: String,
    pub last_used_at: Option<String>,
    pub use_count: i64,
}

impl UndoMemoryRow {
    pub fn copy(&self) -> (result: Self)
        ensures
            result == *self,
    {
        UndoMemoryRow {
            session_id: self.session_id.clone(),
            features_json: self.features_json.clone(),
            category: self.category.clone(),
            project_id: self.project_id.clone(),
            task_id: self.task_id.clone(),
            confirmed_at: self.confirmed_at.clone(),
            last_used_at: self.last_used_at.clone(),
            use_count: self.use_count,
        }
    }
}

/// The rows that a correction can change.
#[derive(Debug, PartialEq, Eq)]
pub struct CorrectableRows {
    pub sessions: Vec<UndoSessionRow>,
    pub rules: Vec<UndoRuleRow>,
    pub memories: Vec<UndoMemoryRow>,
    pub context_pin: Option<UndoContextPinRow>,
}

/// What is needed to take a correction back.
#[derive(Debug, PartialEq, Eq)]
pub struct SessionCorrectionUndo {
    pub label: String,
    pub created_at: String,
    pub sessions: Vec<UndoSessionRow>,
    pub correction_rules: Vec<UndoRuleRow>,
    pub memories: Vec<UndoMemoryRow>,
    pub context_pin: Option<UndoContextPinRow>,
}

/// The first session row with this id.
pub open spec fn session_row(rows: Seq<UndoSessionRow>, id: Seq<char>) -> Option<UndoSessionRow>
    decreases rows.len(),
{
    if rows.len() == 0 {
        None
    } else if rows[0].id@ == id {
        Some(rows[0])
    } else {
        session_row(rows.drop_first(), id)
    }
}

/// The first memory row of this session.
pub open spec fn memory_row(rows: Seq<UndoMemoryRow>, id: Seq<char>) -> Option<UndoMemoryRow>
    decreases rows.len(),
{
    if rows.len() == 0 {
        None
    } else if rows[0].session_id@ == id {
        Some(rows[0])
    } else {
        memory_row(rows.drop_first(), id)
    }
}

fn find_session_row(rows: &Vec<UndoSessionRow>, id: &str) -> (result: Option<usize>)
    ensures
        match result {
            Some(at) => at < rows.len() && session_row(rows@, id@) == Some(rows@[at as int])
                && rows@[at as int].id@ == id@,
            None => session_row(rows@, id@) is None,
        },
{
    let mut i: usize = 0;
    assert(rows@.skip(0) =~= rows@);
    while i < rows.len()
        invariant
            i <= rows.len(),
            session_row(rows@, id@) == session_row(rows@.skip(i as int), id@),
        decreases rows.len() - i,
    {
        assert(rows@.skip(i as int)[0] == rows@[i as int]);
        if text::same(rows[i].id.as_str(), id) {
            return Some(i);
        }
        assert(rows@.skip(i as int).drop_first() =~= rows@.skip(i + 1));
        i += 1;
    }
    None
}

fn find_memory_row(rows: &Vec<UndoMemoryRow>, id: &str) -> (result: Option<usize>)
    ensures
        match result {
            Some(at) => at < rows.len() && memory_row(rows@, id@) == Some(rows@[at as int])
                && rows@[at as int].session_id@ == id@,
            None => memory_row(rows@, id@) is None,
        },
{
    let mut i: usize = 0;
    assert(rows@.skip(0) =~= rows@);
    while i < rows.len()
        invariant
            i <= rows.len(),
            memory_row(rows@, id@) == memory_row(rows@.skip(i as int), id@),
        decreases rows.len() - i,
    {
        assert(rows@.skip(i as int)[0] == rows@[i as int]);
        if text::same(rows[i].session_id.as_str(), id) {
            return Some(i);
        }
        assert(rows@.skip(i as int).drop_first() =~= rows@.skip(i + 1));
        i += 1;
    }
    None
}

/// The first id without a session row.
pub open spec fn first_unknown(rows: Seq<UndoSessionRow>, ids: Seq<Seq<char>>) -> Option<Seq<char>>
    decreases ids.len(),
{
    if ids.len() == 0 {
        None
    } else {
        match first_unknown(rows, ids.drop_last()) {
            Some(id) => Some(id),
            None => if session_row(rows, ids.last()) is None {
                Some(ids.last())
            } else {
                None
            },
        }
    }
}

proof fn lemma_first_unknown(rows: Seq<UndoSessionRow>, ids: Seq<Seq<char>>, n: int)
    requires
        0 <= n <= ids.len(),
    ensures
        first_unknown(rows, ids.take(n)) is Some ==> first_unknown(rows, ids) == first_unknown(
            rows,
            ids.take(n),
        ),
        first_unknown(rows, ids) is None ==> forall|k: int|
            0 <= k < ids.len() ==> session_row(rows, #[trigger] ids[k]) is Some,
    decreases ids.len(),
{
    if ids.len() > 0 {
        if n < ids.len() {
            assert(ids.drop_last().take(n) =~= ids.take(n));
            lemma_first_unknown(rows, ids.drop_last(), n);
        } else {
            assert(ids.take(n) =~= ids);
            lemma_first_unknown(rows, ids.drop_last(), n - 1);
        }
        if first_unknown(rows, ids) is None {
            assert forall|k: int| 0 <= k < ids.len() implies session_row(
                rows,
                #[trigger] ids[k],
            ) is Some by {
                if k < ids.len() - 1 {
                    assert(ids.drop_last()[k] == ids[k]);
                }
            }
        }
    } else {
        assert(ids.take(n) =~= ids);
    }
}

/// The session rows with these ids, each once.
pub open spec fn captured_sessions(rows: Seq<UndoSessionRow>, ids: Seq<Seq<char>>) -> Seq<
    UndoSessionRow,
> {
    text::distinct(ids).map_values(|id: Seq<char>| session_row(rows, id).unwrap())
}

/// The memories of these sessions.
pub open spec fn captured_memories(rows: Seq<UndoMemoryRow>, ids: Seq<Seq<char>>) -> Seq<
    UndoMemoryRow,
> {
    ids.filter_map(|id: Seq<char>| memory_row(rows, id))
}

/// The rules that came from corrections.
pub open spec fn learned_rules(rows: Seq<UndoRuleRow>) -> Seq<UndoRuleRow> {
    rows.filter(|row: UndoRuleRow| row.created_from_correction)
}

/// Everything that a correction of these sessions can change, as it stands.
pub open spec fn captures(
    rows: CorrectableRows,
    ids: Seq<Seq<char>>,
    snapshot: SessionCorrectionUndo,
) -> bool {
    &&& snapshot.sessions@ == captured_sessions(rows.sessions@, ids)
    &&& snapshot.correction_rules@ == learned_rules(rows.rules@)
    &&& snapshot.memories@ == captured_memories(rows.memories@, ids)
    &&& snapshot.context_pin == rows.context_pin
}

fn copy_learned(rules: &Vec<UndoRuleRow>) -> (result: Vec<UndoRuleRow>)
    ensures
        result@ == learned_rules(rules@),
{
    let ghost keep = |row: UndoRuleRow| row.created_from_correction;
    let mut result: Vec<UndoRuleRow> = Vec::new();
    let mut i: usize = 0;
    assert(rules@.take(0).filter(keep) =~= Seq::empty()) by {
        reveal(Seq::filter);
    }
    while i < rules.len()
        invariant
            i <= rules.len(),
            keep == (|row: UndoRuleRow| row.created_from_correction),
            result@ == rules@.take(i as int).filter(keep),
        decreases rules.len() - i,
    {
        assert(rules@.take(i + 1) =~= rules@.take(i as int).push(rules@[i as int]));
        proof {
            rules@.take(i as int).lemma_filter_push(rules@[i as int], keep);
        }
        if rules[i].created_from_correction {
            result.push(rules[i].copy());
        }
        i += 1;
    }
    assert(rules@.take(rules.len() as int) =~= rules@);
    result
}

fn copy_memories(rows: &Vec<UndoMemoryRow>, ids: &Vec<String>) -> (result: Vec<UndoMemoryRow>)
    ensures
        result@ == captured_memories(rows@, text::texts(ids@)),
{
    let ghost all = text::texts(ids@);
    let ghost pick = |id: Seq<char>| memory_row(rows@, id);
    let mut result: Vec<UndoMemoryRow> = Vec::new();
    let mut i: usize = 0;
    assert(all.take(0) =~= Seq::empty());
    assert(result@ =~= all.take(0).filter_map(pick));
    while i < ids.len()
        invariant
            i <= ids.len(),
            all == text::texts(ids@),
            pick == (|id: Seq<char>| memory_row(rows@, id)),
            result@ == all.take(i as int).filter_map(pick),
        decreases ids.len() - i,
    {
        let ghost done = result@;
        proof {
            all.lemma_filter_map_take_succ(pick, i as int);
        }
        match find_memory_row(rows, ids[i].as_str()) {
            Some(at) => {
                result.push(rows[at].copy());
                assert(result@ =~= done + seq![rows@[at as int]]);
            },
            None => {},
        }
        i += 1;
    }
    assert(all.take(ids.len() as int) =~= all);
    result
}

/// Notes down everything that a correction of these sessions can change.
pub fn capture_session_correction_undo(
    rows: &CorrectableRows,
    ids: &Vec<String>,
    label: String,
    created_at: String,
) -> (result: Result<SessionCorrectionUndo, String>)
    ensures
        match result {
            Ok(snapshot) => {
                &&& first_unknown(rows.sessions@, text::texts(ids@)) is None
                &&& captures(*rows, text::texts(ids@), snapshot)
                &&& snapshot.label == label
                &&& snapshot.created_at == created_at
            },
            Err(id) => first_unknown(rows.sessions@, text::texts(ids@)) == Some(id@),
        },
{
    let ghost all = text::texts(ids@);
    let mut i: usize = 0;
    while i < ids.len()
        invariant
            i <= ids.len(),
            all == text::texts(ids@),
            first_unknown(rows.sessions@, all.take(i as int)) is None,
        decreases ids.len() - i,
    {
        assert(all.take(i + 1).drop_last() =~= all.take(i as int));
        if find_session_row(&rows.sessions, ids[i].as_str()).is_none() {
            proof {
                lemma_first_unknown(rows.sessions@, all, i + 1);
            }
            return Err(ids[i].clone());
        }
        i += 1;
    }
    assert(all.take(ids.len() as int) =~= all);
    proof {
        lemma_first_unknown(rows.sessions@, all, all.len() as int);
        text::lemma_distinct(all);
    }
    let unique = text::unique(ids);
    let ghost wanted = text::texts(unique@);
    let mut captured: Vec<UndoSessionRow> = Vec::new();
    let mut k: usize = 0;
    let ghost model = captured_sessions(rows.sessions@, all);
    while k < unique.len()
        invariant
            k <= unique.len(),
            all == text::texts(ids@),
            wanted == text::texts(unique@),
            wanted == text::distinct(all),
            model == captured_sessions(rows.sessions@, all),
            forall|t: Seq<char>| text::distinct(all).contains(t) <==> #[trigger] all.contains(t),
            forall|n: int|
                0 <= n < all.len() ==> session_row(rows.sessions@, #[trigger] all[n]) is Some,
            captured@ == model.take(k as int),
        decreases unique.len() - k,
    {
        assert(wanted[k as int] == unique@[k as int]@);
        assert(wanted.contains(wanted[k as int]));
        match find_session_row(&rows.sessions, unique[k].as_str()) {
            Some(at) => {
                captured.push(rows.sessions[at].copy());
                assert(captured@ =~= model.take(k + 1));
            },
            None => {
                proof {
                    assert(all.contains(wanted[k as int]));
                    let n = choose|n: int| 0 <= n < all.len() && all[n] == wanted[k as int];
                    assert(session_row(rows.sessions@, all[n]) is Some);
                    assert(false);
                }
            },
        }
        k += 1;
    }
    assert(model.take(unique.len() as int) =~= model);
    let context_pin = match &rows.context_pin {
        Some(pin) => Some(pin.copy()),
        None => None,
    };
    Ok(
        SessionCorrectionUndo {
            label,
            created_at,
            sessions: captured,
            correction_rules: copy_learned(&rows.rules),
            memories: copy_memories(&rows.memories, ids),
            context_pin,
        },
    )
}

/// The table with a row put under its id.
pub open spec fn put_session(rows: Seq<UndoSessionRow>, row: UndoSessionRow) -> Seq<UndoSessionRow>
    decreases rows.len(),
{
    if rows.len() == 0 {
        seq![row]
    } else if rows[0].id@ == row.id@ {
        rows.update(0, row)
    } else {
        seq![rows[0]] + put_session(rows.drop_first(), row)
    }
}

/// The table with these rows put under their ids, in turn.
pub open spec fn put_sessions(
    rows: Seq<UndoSessionRow>,
    added: Seq<UndoSessionRow>,
) -> Seq<UndoSessionRow>
    decreases added.len(),
{
    if added.len() == 0 {
        rows
    } else {
        put_session(put_sessions(rows, added.drop_last()), added.last())
    }
}

proof fn lemma_put_session(rows: Seq<UndoSessionRow>, row: UndoSessionRow, at: int)
    requires
        0 <= at <= rows.len(),
        forall|k: int| 0 <= k < at ==> #[trigger] rows[k].id@ != row.id@,
        at < rows.len() ==> rows[at].id@ == row.id@,
    ensures
        put_session(rows, row) == if at < rows.len() {
            rows.update(at, row)
        } else {
            rows.push(row)
        },
    decreases rows.len(),
{
    if rows.len() == 0 {
        assert(put_session(rows, row) =~= rows.push(row));
    } else if at > 0 {
        let rest = rows.drop_first();
        assert forall|k: int| 0 <= k < at - 1 implies #[trigger] rest[k].id@ != row.id@ by {
            assert(rest[k] == rows[k + 1]);
        }
        lemma_put_session(rest, row, at - 1);
        if at < rows.len() {
            assert(put_session(rows, row) =~= rows.update(at, row));
        } else {
            assert(put_session(rows, row) =~= rows.push(row));
        }
    }
}

/// Looking up what was put gives it back; every other id keeps its row.
proof fn lemma_session_row_put(rows: Seq<UndoSessionRow>, row: UndoSessionRow, id: Seq<char>)
    ensures
        session_row(put_session(rows, row), id) == if id == row.id@ {
            Some(row)
        } else {
            session_row(rows, id)
        },
    decreases rows.len(),
{
    if rows.len() == 0 {
        assert(seq![row].drop_first() =~= Seq::empty());
        reveal_with_fuel(session_row, 2);
    } else if rows[0].id@ == row.id@ {
        assert(rows.update(0, row).drop_first() =~= rows.drop_first());
    } else {
        lemma_session_row_put(rows.drop_first(), row, id);
        let whole = seq![rows[0]] + put_session(rows.drop_first(), row);
        assert(whole.drop_first() =~= put_session(rows.drop_first(), row));
    }
}

proof fn lemma_session_row_put_all(
    rows: Seq<UndoSessionRow>,
    added: Seq<UndoSessionRow>,
    id: Seq<char>,
)
    ensures
        (forall|k: int| 0 <= k < added.len() ==> #[trigger] added[k].id@ != id) ==> session_row(
            put_sessions(rows, added),
            id,
        ) == session_row(rows, id),
        forall|k: int|
            0 <= k < added.len() && #[trigger] added[k].id@ == id && (forall|m: int|
                k < m < added.len() ==> #[trigger] added[m].id@ != id) ==> session_row(
                put_sessions(rows, added),
                id,
            ) == Some(added[k]),
    decreases added.len(),
{
    if added.len() > 0 {
        let rest = added.drop_last();
        lemma_session_row_put_all(rows, rest, id);
        lemma_session_row_put(put_sessions(rows, rest), added.last(), id);
        assert(forall|k: int| 0 <= k < rest.len() ==> #[trigger] rest[k] == added[k]);
        if forall|k: int| 0 <= k < added.len() ==> #[trigger] added[k].id@ != id {
            assert(added[added.len() - 1].id@ != id);
            assert forall|k: int| 0 <= k < rest.len() implies #[trigger] rest[k].id@ != id by {
                assert(added[k].id@ != id);
            }
        }
        assert forall|k: int|
            0 <= k < added.len() && #[trigger] added[k].id@ == id && (forall|m: int|
                k < m < added.len() ==> #[trigger] added[m].id@ != id) implies session_row(
            put_sessions(rows, added),
            id,
        ) == Some(added[k]) by {
            if k < rest.len() {
                assert(added[added.len() - 1].id@ != id);
                assert(rest[k].id@ == id);
                assert forall|m: int| k < m < rest.len() implies #[trigger] rest[m].id@ != id by {
                    assert(added[m].id@ != id);
                }
            }
        }
    }
}

fn put_session_row(rows: &mut Vec<UndoSessionRow>, row: UndoSessionRow)
    ensures
        final(rows)@ == put_session(old(rows)@, row),
{
    let ghost before = rows@;
    let mut i: usize = 0;
    while i < rows.len()
        invariant
            i <= rows.len(),
            before == old(rows)@,
            rows@ == before,
            forall|k: int| 0 <= k < i ==> #[trigger] before[k].id@ != row.id@,
        decreases rows.len() - i,
    {
        if text::same(rows[i].id.as_str(), row.id.as_str()) {
            proof {
                lemma_put_session(before, row, i as int);
            }
            rows.set(i, row);
            return;
        }
        i += 1;
    }
    proof {
        lemma_put_session(before, row, before.len() as int);
    }
    rows.push(row);
}

/// The rules that did not come from corrections.
pub open spec fn standing_rules(rows: Seq<UndoRuleRow>) -> Seq<UndoRuleRow> {
    rows.filter(|row: UndoRuleRow| !row.created_from_correction)
}

fn copy_standing(rules: &Vec<UndoRuleRow>) -> (result: Vec<UndoRuleRow>)
    ensures
        result@ == standing_rules(rules@),
{
    let ghost keep = |row: UndoRuleRow| !row.created_from_correction;
    let mut result: Vec<UndoRuleRow> = Vec::new();
    let mut i: usize = 0;
    assert(rules@.take(0).filter(keep) =~= Seq::empty()) by {
        reveal(Seq::filter);
    }
    while i < rules.len()
        invariant
            i <= rules.len(),
            keep == (|row: UndoRuleRow| !row.created_from_correction),
            result@ == rules@.take(i as int).filter(keep),
        decreases rules.len() - i,
    {
        assert(rules@.take(i + 1) =~= rules@.take(i as int).push(rules@[i as int]));
        proof {
            rules@.take(i as int).lemma_filter_push(rules@[i as int], keep);
        }
        if !rules[i].created_from_correction {
            result.push(rules[i].copy());
        }
        i += 1;
    }
    assert(rules@.take(rules.len() as int) =~= rules@);
    result
}

/// Some session row has this id.
pub open spec fn has_session(rows: Seq<UndoSessionRow>, id: Seq<char>) -> bool {
    session_row(rows, id) is Some
}

/// The memories of other sessions than these.
pub open spec fn other_memories(
    rows: Seq<UndoMemoryRow>,
    restored: Seq<UndoSessionRow>,
) -> Seq<UndoMemoryRow> {
    rows.filter(|row: UndoMemoryRow| !has_session(restored, row.session_id@))
}

fn copy_other_memories(
    rows: &Vec<UndoMemoryRow>,
    restored: &Vec<UndoSessionRow>,
) -> (result: Vec<UndoMemoryRow>)
    ensures
        result@ == other_memories(rows@, restored@),
{
    let ghost keep = |row: UndoMemoryRow| !has_session(restored@, row.session_id@);
    let mut result: Vec<UndoMemoryRow> = Vec::new();
    let mut i: usize = 0;
    assert(rows@.take(0).filter(keep) =~= Seq::empty()) by {
        reveal(Seq::filter);
    }
    while i < rows.len()
        invariant
            i <= rows.len(),
            keep == (|row: UndoMemoryRow| !has_session(restored@, row.session_id@)),
            result@ == rows@.take(i as int).filter(keep),
        decreases rows.len() - i,
    {
        assert(rows@.take(i + 1) =~= rows@.take(i as int).push(rows@[i as int]));
        proof {
            rows@.take(i as int).lemma_filter_push(rows@[i as int], keep);
        }
        if find_session_row(restored, rows[i].session_id.as_str()).is_none() {
            result.push(rows[i].copy());
        }
        i += 1;
    }
    assert(rows@.take(rows.len() as int) =~= rows@);
    result
}

/// No two rules share an id.
pub open spec fn rule_ids_differ(rows: Seq<UndoRuleRow>) -> bool {
    forall|i: int, j: int|
        0 <= i < j < rows.len() ==> (#[trigger] rows[i]).id@ != (#[trigger] rows[j]).id@
}

/// No two memories share a session.
pub open spec fn memory_ids_differ(rows: Seq<UndoMemoryRow>) -> bool {
    forall|i: int, j: int|
        0 <= i < j < rows.len() ==> (#[trigger] rows[i]).session_id@ != (
        #[trigger] rows[j]).session_id@
}

pub(crate) fn append_rules(rows: &mut Vec<UndoRuleRow>, added: &Vec<UndoRuleRow>) -> (result: bool)
    requires
        rule_ids_differ(old(rows)@),
    ensures
        result == rule_ids_differ(old(rows)@ + added@),
        result ==> final(rows)@ == old(rows)@ + added@,
{
    let ghost before = rows@;
    let ghost whole = before + added@;
    assert(whole.take(before.len() as int) =~= before);
    let mut i: usize = 0;
    while i < added.len()
        invariant
            i <= added.len(),
            before == old(rows)@,
            whole == before + added@,
            rows@ == whole.take(before.len() + i),
            rule_ids_differ(rows@),
        decreases added.len() - i,
    {
        assert(whole[before.len() + i] == added@[i as int]);
        let mut k: usize = 0;
        while k < rows.len()
            invariant
                k <= rows.len(),
                i < added.len(),
                before == old(rows)@,
                whole == before + added@,
                rows@ == whole.take(before.len() + i),
                whole[before.len() + i] == added@[i as int],
                forall|m: int| 0 <= m < k ==> (#[trigger] rows@[m]).id@ != added@[i as int].id@,
            decreases rows.len() - k,
        {
            if text::same(rows[k].id.as_str(), added[i].id.as_str()) {
                assert(whole[k as int] == rows@[k as int]);
                assert(!rule_ids_differ(whole));
                return false;
            }
            k += 1;
        }
        rows.push(added[i].copy());
        assert(rows@ =~= whole.take(before.len() + i + 1));
        i += 1;
    }
    assert(whole.take(whole.len() as int) =~= whole);
    true
}

pub(crate) fn append_memories(rows: &mut Vec<UndoMemoryRow>, added: &Vec<UndoMemoryRow>) -> (result: bool)
    requires
        memory_ids_differ(old(rows)@),
    ensures
        result == memory_ids_differ(old(rows)@ + added@),
        result ==> final(rows)@ == old(rows)@ + added@,
{
    let ghost before = rows@;
    let ghost whole = before + added@;
    assert(whole.take(before.len() as int) =~= before);
    let mut i: usize = 0;
    while i < added.len()
        invariant
            i <= added.len(),
            before == old(rows)@,
            whole == before + added@,
            rows@ == whole.take(before.len() + i),
            memory_ids_differ(rows@),
        decreases added.len() - i,
    {
        assert(whole[before.len() + i] == added@[i as int]);
        let mut k: usize = 0;
        while k < rows.len()
            invariant
                k <= rows.len(),
                i < added.len(),
                before == old(rows)@,
                whole == before + added@,
                rows@ == whole.take(before.len() + i),
                whole[before.len() + i] == added@[i as int],
                forall|m: int|
                    0 <= m < k ==> (#[trigger] rows@[m]).session_id@
                        != added@[i as int].session_id@,
            decreases rows.len() - k,
        {
            if text::same(rows[k].session_id.as_str(), added[i].session_id.as_str()) {
                assert(whole[k as int] == rows@[k as int]);
                assert(!memory_ids_differ(whole));
                return false;
            }
            k += 1;
        }
        rows.push(added[i].copy());
        assert(rows@ =~= whole.take(before.len() + i + 1));
        i += 1;
    }
    assert(whole.take(whole.len() as int) =~= whole);
    true
}

/// Why a correction cannot be taken back.
#[derive(Clone, Copy, Debug, PartialEq, Eq, Structural)]
pub enum RestoreError {
    DuplicateRule,
    DuplicateMemory,
}

/// The keys of the stored rules and memories are unique.
pub open spec fn keys_differ(rows: CorrectableRows) -> bool {
    rule_ids_differ(rows.rules@) && memory_ids_differ(rows.memories@)
}

/// The rows are what taking the correction back leaves of the rows before.
pub open spec fn restored(
    before: CorrectableRows,
    snapshot: SessionCorrectionUndo,
    after: CorrectableRows,
) -> bool {
    &&& after.sessions@ == put_sessions(before.sessions@, snapshot.sessions@)
    &&& after.rules@ == standing_rules(before.rules@) + snapshot.correction_rules@
    &&& after.memories@ == other_memories(before.memories@, snapshot.sessions@)
        + snapshot.memories@
    &&& after.context_pin == snapshot.context_pin
}

pub(crate) proof fn lemma_kept_keys_differ(before: CorrectableRows, snapshot: SessionCorrectionUndo)
    requires
        keys_differ(before),
    ensures
        rule_ids_differ(standing_rules(before.rules@)),
        memory_ids_differ(other_memories(before.memories@, snapshot.sessions@)),
{
    lemma_filtered_rule_ids(before.rules@, |row: UndoRuleRow| !row.created_from_correction);
    lemma_filtered_memory_ids(
        before.memories@,
        |row: UndoMemoryRow| !has_session(snapshot.sessions@, row.session_id@),
    );
}

pub(crate) proof fn lemma_filtered_rule_ids(rows: Seq<UndoRuleRow>, keep: spec_fn(UndoRuleRow) -> bool)
    requires
        rule_ids_differ(rows),
    ensures
        rule_ids_differ(rows.filter(keep)),
    decreases rows.len(),
{
    reveal(Seq::filter);
    if rows.len() > 0 {
        let rest = rows.drop_last();
        assert(rule_ids_differ(rest));
        lemma_filtered_rule_ids(rest, keep);
        let kept = rest.filter(keep);
        assert forall|i: int| 0 <= i < kept.len() implies (#[trigger] kept[i]).id@
            != rows.last().id@ by {
            assert(kept.contains(kept[i]));
            rest.lemma_filter_contains_rev(keep, kept[i]);
            let m = choose|m: int| 0 <= m < rest.len() && rest[m] == kept[i];
            assert(rows[m] == rest[m]);
            assert(rows[rows.len() - 1] == rows.last());
        }
    }
}

pub(crate) proof fn lemma_filtered_memory_ids(rows: Seq<UndoMemoryRow>, keep: spec_fn(UndoMemoryRow) -> bool)
    requires
        memory_ids_differ(rows),
    ensures
        memory_ids_differ(rows.filter(keep)),
    decreases rows.len(),
{
    reveal(Seq::filter);
    if rows.len() > 0 {
        let rest = rows.drop_last();
        assert(memory_ids_differ(rest));
        lemma_filtered_memory_ids(rest, keep);
        let kept = rest.filter(keep);
        assert forall|i: int| 0 <= i < kept.len() implies (#[trigger] kept[i]).session_id@
            != rows.last().session_id@ by {
            assert(kept.contains(kept[i]));
            rest.lemma_filter_contains_rev(keep, kept[i]);
            let m = choose|m: int| 0 <= m < rest.len() && rest[m] == kept[i];
            assert(rows[m] == rest[m]);
            assert(rows[rows.len() - 1] == rows.last());
        }
    }
}

/// Takes a correction back. Whether the projects and tasks that the rows name are still there is for
/// the store to say.
pub fn restore_session_correction_undo(
    before: &CorrectableRows,
    snapshot: &SessionCorrectionUndo,
) -> (result: Result<CorrectableRows, RestoreError>)
    requires
        keys_differ(*before),
    ensures
        match result {
            Ok(after) => restored(*before, *snapshot, after) && keys_differ(after),
            Err(RestoreError::DuplicateRule) => !rule_ids_differ(
                standing_rules(before.rules@) + snapshot.correction_rules@,
            ),
            Err(RestoreError::DuplicateMemory) => {
                &&& rule_ids_differ(standing_rules(before.rules@) + snapshot.correction_rules@)
                &&& !memory_ids_differ(
                    other_memories(before.memories@, snapshot.sessions@) + snapshot.memories@,
                )
            },
        },
{
    proof {
        lemma_kept_keys_differ(*before, *snapshot);
    }
    let mut rows: Vec<UndoSessionRow> = Vec::new();
    let mut i: usize = 0;
    while i < before.sessions.len()
        invariant
            i <= before.sessions.len(),
            rows@ == before.sessions@.take(i as int),
        decreases before.sessions.len() - i,
    {
        rows.push(before.sessions[i].copy());
        assert(rows@ =~= before.sessions@.take(i + 1));
        i += 1;
    }
    assert(rows@ =~= before.sessions@);
    let mut k: usize = 0;
    let ghost added = snapshot.sessions@;
    assert(added.take(0) =~= Seq::empty());
    while k < snapshot.sessions.len()
        invariant
            k <= snapshot.sessions.len(),
            added == snapshot.sessions@,
            rows@ == put_sessions(before.sessions@, added.take(k as int)),
        decreases snapshot.sessions.len() - k,
    {
        put_session_row(&mut rows, snapshot.sessions[k].copy());
        assert(added.take(k + 1).drop_last() =~= added.take(k as int));
        k += 1;
    }
    assert(added.take(added.len() as int) =~= added);
    let mut rules = copy_standing(&before.rules);
    if !append_rules(&mut rules, &snapshot.correction_rules) {
        return Err(RestoreError::DuplicateRule);
    }
    let mut memories = copy_other_memories(&before.memories, &snapshot.sessions);
    if !append_memories(&mut memories, &snapshot.memories) {
        return Err(RestoreError::DuplicateMemory);
    }
    let context_pin = match &snapshot.context_pin {
        Some(pin) => Some(pin.copy()),
        None => None,
    };
    Ok(CorrectableRows { sessions: rows, rules, memories, context_pin })
}

/// What the last noted correction says of itself.
pub fn undo_status(snapshot: &Option<SessionCorrectionUndo>) -> (result: UndoStatus)
    ensures
        result.available == snapshot.is_some(),
        match *snapshot {
            Some(noted) => result.label == Some(noted.label) && result.created_at == Some(
                noted.created_at,
            ),
            None => result.label is None && result.created_at is None,
        },
{
    match snapshot {
        Some(noted) => UndoStatus {
            available: true,
            label: Some(noted.label.clone()),
            created_at: Some(noted.created_at.clone()),
        },
        None => UndoStatus { available: false, label: None, created_at: None },
    }
}

/// The two states agree on everything that a correction of these sessions leaves alone.
pub open spec fn agree_elsewhere(
    left: CorrectableRows,
    right: CorrectableRows,
    ids: Seq<Seq<char>>,
) -> bool {
    &&& forall|id: Seq<char>|
        !ids.contains(id) ==> #[trigger] session_row(left.sessions@, id) == session_row(
            right.sessions@,
            id,
        )
    &&& standing_rules(left.rules@) == standing_rules(right.rules@)
    &&& forall|id: Seq<char>|
        !ids.contains(id) ==> #[trigger] memory_row(left.memories@, id) == memory_row(
            right.memories@,
            id,
        )
}

pub(crate) proof fn lemma_session_row_id(rows: Seq<UndoSessionRow>, id: Seq<char>)
    ensures
        session_row(rows, id) is Some ==> session_row(rows, id).unwrap().id@ == id,
        session_row(rows, id) is None <==> forall|k: int|
            0 <= k < rows.len() ==> #[trigger] rows[k].id@ != id,
    decreases rows.len(),
{
    if rows.len() > 0 {
        let rest = rows.drop_first();
        lemma_session_row_id(rest, id);
        if rows[0].id@ != id {
            if forall|k: int| 0 <= k < rest.len() ==> #[trigger] rest[k].id@ != id {
                assert forall|k: int| 0 <= k < rows.len() implies #[trigger] rows[k].id@ != id by {
                    if k > 0 {
                        assert(rest[k - 1].id@ != id);
                    }
                }
            } else {
                let k = choose|k: int| 0 <= k < rest.len() && #[trigger] rest[k].id@ == id;
                assert(rows[k + 1].id@ == id);
            }
        }
    }
}

pub(crate) proof fn lemma_memory_row_id(rows: Seq<UndoMemoryRow>, id: Seq<char>)
    ensures
        memory_row(rows, id) is Some ==> memory_row(rows, id).unwrap().session_id@ == id,
        memory_row(rows, id) is None <==> forall|k: int|
            0 <= k < rows.len() ==> #[trigger] rows[k].session_id@ != id,
    decreases rows.len(),
{
    if rows.len() > 0 {
        let rest = rows.drop_first();
        lemma_memory_row_id(rest, id);
        if rows[0].session_id@ != id {
            if forall|k: int| 0 <= k < rest.len() ==> #[trigger] rest[k].session_id@ != id {
                assert forall|k: int|
                    0 <= k < rows.len() implies #[trigger] rows[k].session_id@ != id by {
                    if k > 0 {
                        assert(rest[k - 1].session_id@ != id);
                    }
                }
            } else {
                let k = choose|k: int|
                    0 <= k < rest.len() && #[trigger] rest[k].session_id@ == id;
                assert(rows[k + 1].session_id@ == id);
            }
        }
    }
}

pub(crate) proof fn lemma_memory_row_add(left: Seq<UndoMemoryRow>, right: Seq<UndoMemoryRow>, id: Seq<char>)
    ensures
        memory_row(left + right, id) == match memory_row(left, id) {
            Some(row) => Some(row),
            None => memory_row(right, id),
        },
    decreases left.len(),
{
    if left.len() == 0 {
        assert(left + right =~= right);
    } else {
        assert((left + right).drop_first() =~= left.drop_first() + right);
        lemma_memory_row_add(left.drop_first(), right, id);
    }
}

pub(crate) proof fn lemma_other_memory_row(
    rows: Seq<UndoMemoryRow>,
    restored: Seq<UndoSessionRow>,
    id: Seq<char>,
)
    ensures
        memory_row(other_memories(rows, restored), id) == if has_session(restored, id) {
            None
        } else {
            memory_row(rows, id)
        },
    decreases rows.len(),
{
    let keep = |row: UndoMemoryRow| !has_session(restored, row.session_id@);
    reveal(Seq::filter);
    if rows.len() == 0 {
    } else {
        let first = seq![rows[0]];
        let rest = rows.drop_first();
        assert(rows =~= first + rest);
        Seq::filter_distributes_over_add(first, rest, keep);
        lemma_other_memory_row(rest, restored, id);
        lemma_memory_row_add(first.filter(keep), rest.filter(keep), id);
        reveal_with_fuel(Seq::filter, 2);
        reveal_with_fuel(memory_row, 2);
        assert(first.drop_last() =~= Seq::empty());
        assert(first.drop_first() =~= Seq::empty());
        if keep(rows[0]) {
            assert(first.filter(keep) =~= first);
        } else {
            assert(first.filter(keep) =~= Seq::empty());
        }
    }
}

pub(crate) proof fn lemma_captured_memory_row(
    rows: Seq<UndoMemoryRow>,
    ids: Seq<Seq<char>>,
    id: Seq<char>,
)
    ensures
        memory_row(captured_memories(rows, ids), id) == if ids.contains(id) {
            memory_row(rows, id)
        } else {
            None
        },
    decreases ids.len(),
{
    let pick = |wanted: Seq<char>| memory_row(rows, wanted);
    reveal(Seq::filter_map);
    if ids.len() == 0 {
    } else {
        let rest = ids.drop_last();
        let last = ids.last();
        lemma_captured_memory_row(rows, rest, id);
        lemma_memory_row_id(rows, last);
        assert(ids.contains(last)) by {
            assert(ids[ids.len() - 1] == last);
        }
        assert(ids.contains(id) == (rest.contains(id) || last == id)) by {
            if rest.contains(id) {
                let k = choose|k: int| 0 <= k < rest.len() && rest[k] == id;
                assert(ids[k] == id);
            }
            if ids.contains(id) && last != id {
                let k = choose|k: int| 0 <= k < ids.len() && ids[k] == id;
                assert(rest[k] == id);
            }
        }
        match memory_row(rows, last) {
            Some(row) => {
                lemma_memory_row_add(rest.filter_map(pick), seq![row], id);
                assert(seq![row].drop_first() =~= Seq::empty());
                reveal_with_fuel(memory_row, 2);
            },
            None => {},
        }
    }
}

pub(crate) proof fn lemma_rule_groups(standing: Seq<UndoRuleRow>, learned: Seq<UndoRuleRow>)
    ensures
        standing_rules(standing_rules(standing) + learned_rules(learned)) == standing_rules(standing),
        learned_rules(standing_rules(standing) + learned_rules(learned)) == learned_rules(learned),
{
    let stays = |row: UndoRuleRow| !row.created_from_correction;
    let taught = |row: UndoRuleRow| row.created_from_correction;
    Seq::filter_distributes_over_add(standing_rules(standing), learned_rules(learned), stays);
    Seq::filter_distributes_over_add(standing_rules(standing), learned_rules(learned), taught);
    lemma_filter_twice(standing, stays, stays);
    lemma_filter_twice(standing, stays, taught);
    lemma_filter_twice(learned, taught, stays);
    lemma_filter_twice(learned, taught, taught);
}

proof fn lemma_filter_twice(
    rows: Seq<UndoRuleRow>,
    first: spec_fn(UndoRuleRow) -> bool,
    second: spec_fn(UndoRuleRow) -> bool,
)
    ensures
        (forall|row: UndoRuleRow| #[trigger] first(row) ==> second(row)) ==> rows.filter(
            first,
        ).filter(second) == rows.filter(first),
        (forall|row: UndoRuleRow| #[trigger] first(row) ==> !second(row)) ==> rows.filter(
            first,
        ).filter(second) == Seq::<UndoRuleRow>::empty(),
    decreases rows.len(),
{
    reveal(Seq::filter);
    if rows.len() > 0 {
        let kept = rows.drop_last().filter(first);
        lemma_filter_twice(rows.drop_last(), first, second);
        if first(rows.last()) {
            kept.lemma_filter_push(rows.last(), second);
        }
    }
}

proof fn lemma_captured_sessions(
    rows: Seq<UndoSessionRow>,
    ids: Seq<Seq<char>>,
    added: Seq<UndoSessionRow>,
)
    requires
        first_unknown(rows, ids) is None,
        added == captured_sessions(rows, ids),
    ensures
        added.len() == text::distinct(ids).len(),
        forall|k: int|
            0 <= k < added.len() ==> (#[trigger] added[k]).id@ == text::distinct(ids)[k] && Some(
                added[k],
            ) == session_row(rows, text::distinct(ids)[k]),
{
    let wanted = text::distinct(ids);
    lemma_first_unknown(rows, ids, ids.len() as int);
    text::lemma_distinct(ids);
    assert forall|k: int| 0 <= k < added.len() implies (#[trigger] added[k]).id@ == wanted[k]
        && Some(added[k]) == session_row(rows, wanted[k]) by {
        assert(wanted.contains(wanted[k]));
        assert(ids.contains(wanted[k]));
        let n = choose|n: int| 0 <= n < ids.len() && ids[n] == wanted[k];
        assert(session_row(rows, ids[n]) is Some);
        lemma_session_row_id(rows, wanted[k]);
    }
}

pub(crate) proof fn lemma_captured_session_row(
    rows: Seq<UndoSessionRow>,
    ids: Seq<Seq<char>>,
    added: Seq<UndoSessionRow>,
    changed: Seq<UndoSessionRow>,
    id: Seq<char>,
)
    requires
        first_unknown(rows, ids) is None,
        added == captured_sessions(rows, ids),
        !ids.contains(id) ==> session_row(changed, id) == session_row(rows, id),
    ensures
        has_session(added, id) == ids.contains(id),
        session_row(put_sessions(changed, added), id) == session_row(rows, id),
{
    let wanted = text::distinct(ids);
    lemma_captured_sessions(rows, ids, added);
    text::lemma_distinct(ids);
    lemma_session_row_id(added, id);
    lemma_session_row_put_all(changed, added, id);
    assert(wanted.contains(id) == ids.contains(id));
    if ids.contains(id) {
        let k = choose|k: int| 0 <= k < wanted.len() && wanted[k] == id;
        assert(added[k].id@ == id);
        assert forall|m: int| k < m < added.len() implies #[trigger] added[m].id@ != id by {
            assert(wanted[m] != wanted[k]);
        }
    } else {
        assert forall|k: int| 0 <= k < added.len() implies #[trigger] added[k].id@ != id by {
            assert(wanted.contains(wanted[k]));
        }
    }
}

proof fn lemma_restored_rows(
    first: CorrectableRows,
    ids: Seq<Seq<char>>,
    snapshot: SessionCorrectionUndo,
    changed: CorrectableRows,
    after: CorrectableRows,
    id: Seq<char>,
)
    requires
        first_unknown(first.sessions@, ids) is None,
        captures(first, ids, snapshot),
        agree_elsewhere(changed, first, ids),
        restored(changed, snapshot, after),
    ensures
        session_row(after.sessions@, id) == session_row(first.sessions@, id),
        memory_row(after.memories@, id) == memory_row(first.memories@, id),
{
    let added = snapshot.sessions@;
    assert(!ids.contains(id) ==> session_row(changed.sessions@, id) == session_row(
        first.sessions@,
        id,
    ));
    assert(!ids.contains(id) ==> memory_row(changed.memories@, id) == memory_row(
        first.memories@,
        id,
    ));
    lemma_memory_row_add(other_memories(changed.memories@, added), snapshot.memories@, id);
    lemma_other_memory_row(changed.memories@, added, id);
    lemma_captured_memory_row(first.memories@, ids, id);
    lemma_captured_session_row(first.sessions@, ids, added, changed.sessions@, id);
}

/// Taking a correction back undoes it: whatever was done since to the noted sessions, their
/// memories, the learned rules and the pin, each of them is again what it was, and everything else
/// stays as it is.
pub proof fn undoing_gives_back_what_was_noted(
    first: CorrectableRows,
    ids: Seq<Seq<char>>,
    snapshot: SessionCorrectionUndo,
    changed: CorrectableRows,
    after: CorrectableRows,
)
    requires
        first_unknown(first.sessions@, ids) is None,
        captures(first, ids, snapshot),
        agree_elsewhere(changed, first, ids),
        restored(changed, snapshot, after),
    ensures
        forall|id: Seq<char>| #[trigger]
            session_row(after.sessions@, id) == session_row(first.sessions@, id),
        standing_rules(after.rules@) == standing_rules(first.rules@),
        learned_rules(after.rules@) == learned_rules(first.rules@),
        forall|id: Seq<char>| #[trigger]
            memory_row(after.memories@, id) == memory_row(first.memories@, id),
        after.context_pin == first.context_pin,
{
    assert forall|id: Seq<char>| #[trigger]
        session_row(after.sessions@, id) == session_row(first.sessions@, id) by {
        lemma_restored_rows(first, ids, snapshot, changed, after, id);
    }
    assert forall|id: Seq<char>| #[trigger]
        memory_row(after.memories@, id) == memory_row(first.memories@, id) by {
        lemma_restored_rows(first, ids, snapshot, changed, after, id);
    }
    lemma_rule_groups(changed.rules@, first.rules@);
}

pub(crate) proof fn lemma_split_rule_ids(rows: Seq<UndoRuleRow>)
    requires
        rule_ids_differ(rows),
    ensures
        rule_ids_differ(standing_rules(rows) + learned_rules(rows)),
{
    let stays = |row: UndoRuleRow| !row.created_from_correction;
    let taught = |row: UndoRuleRow| row.created_from_correction;
    let standing = standing_rules(rows);
    let learned = learned_rules(rows);
    let whole = standing + learned;
    lemma_filtered_rule_ids(rows, stays);
    lemma_filtered_rule_ids(rows, taught);
    assert forall|i: int, j: int| 0 <= i < j < whole.len() implies (#[trigger] whole[i]).id@ != (
    #[trigger] whole[j]).id@ by {
        if i < standing.len() && j >= standing.len() {
            let kept = standing[i];
            let other = learned[j - standing.len()];
            rows.lemma_filter_pred(stays, i);
            rows.lemma_filter_pred(taught, j - standing.len());
            assert(standing.contains(kept));
            assert(learned.contains(other));
            rows.lemma_filter_contains_rev(stays, kept);
            rows.lemma_filter_contains_rev(taught, other);
            let a = choose|a: int| 0 <= a < rows.len() && rows[a] == kept;
            let b = choose|b: int| 0 <= b < rows.len() && rows[b] == other;
            assert(a != b);
            if a < b {
                assert(rows[a].id@ != rows[b].id@);
            } else {
                assert(rows[b].id@ != rows[a].id@);
            }
        } else if j < standing.len() {
            assert(whole[i] == standing[i] && whole[j] == standing[j]);
        } else {
            assert(whole[i] == learned[i - standing.len()] && whole[j] == learned[j
                - standing.len()]);
        }
    }
}

pub(crate) proof fn lemma_captured_memory_ids(rows: Seq<UndoMemoryRow>, ids: Seq<Seq<char>>)
    requires
        ids.no_duplicates(),
    ensures
        memory_ids_differ(captured_memories(rows, ids)),
        forall|k: int|
            0 <= k < captured_memories(rows, ids).len() ==> ids.contains(
                (#[trigger] captured_memories(rows, ids)[k]).session_id@,
            ),
    decreases ids.len(),
{
    reveal(Seq::filter_map);
    if ids.len() > 0 {
        let rest = ids.drop_last();
        lemma_captured_memory_ids(rows, rest);
        lemma_memory_row_id(rows, ids.last());
        let before = captured_memories(rows, rest);
        let whole = captured_memories(rows, ids);
        assert forall|k: int| 0 <= k < whole.len() implies ids.contains(
            (#[trigger] whole[k]).session_id@,
        ) by {
            if k < before.len() {
                assert(whole[k] == before[k]);
                let n = choose|n: int| 0 <= n < rest.len() && rest[n] == before[k].session_id@;
                assert(ids[n] == before[k].session_id@);
            } else {
                assert(ids[ids.len() - 1] == whole[k].session_id@);
            }
        }
        assert forall|i: int, j: int| 0 <= i < j < whole.len() implies (
        #[trigger] whole[i]).session_id@ != (#[trigger] whole[j]).session_id@ by {
            assert(whole[i] == before[i]);
            if j < before.len() {
                assert(whole[j] == before[j]);
            } else {
                let n = choose|n: int| 0 <= n < rest.len() && rest[n] == before[i].session_id@;
                assert(ids[n] != ids[ids.len() - 1]);
            }
        }
    }
}

/// A noted correction of different sessions can always be taken back, as long as keys stay unique.
pub proof fn noted_corrections_can_be_taken_back(
    first: CorrectableRows,
    ids: Seq<Seq<char>>,
    snapshot: SessionCorrectionUndo,
    changed: CorrectableRows,
)
    requires
        ids.no_duplicates(),
        first_unknown(first.sessions@, ids) is None,
        captures(first, ids, snapshot),
        agree_elsewhere(changed, first, ids),
        keys_differ(first),
        keys_differ(changed),
    ensures
        rule_ids_differ(standing_rules(changed.rules@) + snapshot.correction_rules@),
        memory_ids_differ(
            other_memories(changed.memories@, snapshot.sessions@) + snapshot.memories@,
        ),
{
    let added = snapshot.sessions@;
    let keep = |row: UndoMemoryRow| !has_session(added, row.session_id@);
    let kept = other_memories(changed.memories@, added);
    let noted = snapshot.memories@;
    let whole = kept + noted;
    lemma_split_rule_ids(first.rules@);
    lemma_kept_keys_differ(changed, snapshot);
    lemma_captured_memory_ids(first.memories@, ids);
    assert forall|i: int, j: int| 0 <= i < j < whole.len() implies (
    #[trigger] whole[i]).session_id@ != (#[trigger] whole[j]).session_id@ by {
        if i < kept.len() && j >= kept.len() {
            let id = whole[j].session_id@;
            changed.memories@.lemma_filter_pred(keep, i);
            assert(whole[j] == noted[j - kept.len()]);
            assert(ids.contains(id));
            lemma_captured_session_row(
                first.sessions@,
                ids,
                added,
                changed.sessions@,
                id,
            );
        } else if j < kept.len() {
            assert(whole[i] == kept[i] && whole[j] == kept[j]);
        } else {
            assert(whole[i] == noted[i - kept.len()] && whole[j] == noted[j - kept.len()]);
        }
    }
}

} // verus!
