//! What the steps of a correction do to the stored rows.
use vstd::prelude::*;
use vstd::string::*;

use crate::models::{SessionView, WorkSession};
use crate::sessions;
use crate::text;
use crate::undo;
use crate::undo::{
    CorrectableRows, SessionCorrectionUndo, UndoContextPinRow, UndoMemoryRow, UndoRuleRow,
    UndoSessionRow,
};

verus! {

broadcast use vstd::seq_lib::group_seq_properties;

/// What one step does.
pub enum Effect {
    /// Sessions are changed at a time.
    Sessions { changed: Seq<SessionView>, at: Seq<char> },
    /// What was remembered of sessions is replaced.
    Memories { ids: Seq<Seq<char>>, kept: Seq<UndoMemoryRow> },
    /// Memories beyond the limit are dropped.
    Forgotten { ids: Seq<Seq<char>> },
    /// A learned rule takes the place of that with its id and of superfluous ones.
    Rule { row: UndoRuleRow, duplicates: Seq<Seq<char>> },
    /// A context is pinned.
    Pin { pin: UndoContextPinRow },
}

/// A row that takes a change: its time and its evidence stay.
pub open spec fn amended_row(
    before: UndoSessionRow,
    change: SessionView,
    at: Seq<char>,
    after: UndoSessionRow,
) -> bool {
    &&& after.id@ == before.id@
    &&& after.started_at@ == before.started_at@
    &&& after.ended_at@ == before.ended_at@
    &&& text::optional(after.project_id) == change.project_id
    &&& text::optional(after.task_id) == change.task_id
    &&& after.category@ == change.category
    &&& after.summary@ == change.summary
    &&& after.confidence == change.confidence
    &&& after.evidence_json@ == before.evidence_json@
    &&& after.user_confirmed == change.user_confirmed
    &&& after.source@ == change.source
    &&& after.updated_at@ == at
}

/// Every row with a change takes it, every other row stays as it is.
pub open spec fn amended_rows(
    before: Seq<UndoSessionRow>,
    changed: Seq<SessionView>,
    at: Seq<char>,
    after: Seq<UndoSessionRow>,
) -> bool {
    &&& after.len() == before.len()
    &&& forall|i: int|
        0 <= i < before.len() ==> match sessions::find(changed, (#[trigger] before[i]).id@) {
            Some(change) => amended_row(before[i], change, at, after[i]),
            None => after[i] == before[i],
        }
}

/// The memories of other sessions than these.
pub open spec fn memories_beside(rows: Seq<UndoMemoryRow>, ids: Seq<Seq<char>>) -> Seq<
    UndoMemoryRow,
> {
    rows.filter(|row: UndoMemoryRow| !ids.contains(row.session_id@))
}

/// The learned rule gives way to one with this id that makes others superfluous.
pub open spec fn gives_way(
    row: UndoRuleRow,
    id: Seq<char>,
    duplicates: Seq<Seq<char>>,
) -> bool {
    row.created_from_correction && (row.id@ == id || duplicates.contains(row.id@))
}

/// The rules but for the learned ones that give way to a rule.
pub open spec fn rules_beside(
    rows: Seq<UndoRuleRow>,
    id: Seq<char>,
    duplicates: Seq<Seq<char>>,
) -> Seq<UndoRuleRow> {
    rows.filter(|row: UndoRuleRow| !gives_way(row, id, duplicates))
}

/// The step turns the rows before into the rows after.
pub open spec fn has_effect(
    before: CorrectableRows,
    effect: Effect,
    after: CorrectableRows,
) -> bool {
    match effect {
        Effect::Sessions { changed, at } => {
            &&& amended_rows(before.sessions@, changed, at, after.sessions@)
            &&& after.rules == before.rules
            &&& after.memories == before.memories
            &&& after.context_pin == before.context_pin
        },
        Effect::Memories { ids, kept } => {
            &&& after.sessions == before.sessions
            &&& after.rules == before.rules
            &&& after.memories@ == memories_beside(before.memories@, ids) + kept
            &&& undo::memory_ids_differ(after.memories@)
            &&& after.context_pin == before.context_pin
        },
        Effect::Forgotten { ids } => {
            &&& after.sessions == before.sessions
            &&& after.rules == before.rules
            &&& after.memories@ == memories_beside(before.memories@, ids)
            &&& after.context_pin == before.context_pin
        },
        Effect::Rule { row, duplicates } => {
            &&& after.sessions == before.sessions
            &&& after.rules@ == rules_beside(before.rules@, row.id@, duplicates).push(row)
            &&& undo::rule_ids_differ(after.rules@)
            &&& after.memories == before.memories
            &&& after.context_pin == before.context_pin
        },
        Effect::Pin { pin } => {
            &&& after.sessions == before.sessions
            &&& after.rules == before.rules
            &&& after.memories == before.memories
            &&& after.context_pin == Some(pin)
        },
    }
}

fn copy_text(value: &Option<String>) -> (result: Option<String>)
    ensures
        text::optional(result) == text::optional(*value),
{
    match value {
        Some(inner) => Some(inner.clone()),
        None => None,
    }
}

/// Stores changed sessions.
pub fn amend_sessions(rows: CorrectableRows, changed: &Vec<WorkSession>, at: &str) -> (result:
    CorrectableRows)
    ensures
        has_effect(
            rows,
            Effect::Sessions { changed: sessions::session_views(changed@), at: at@ },
            result,
        ),
{
    let ghost first = rows.sessions@;
    let ghost changes = sessions::session_views(changed@);
    let mut after: Vec<UndoSessionRow> = Vec::new();
    let mut i: usize = 0;
    while i < rows.sessions.len()
        invariant
            i <= rows.sessions.len(),
            first == rows.sessions@,
            changes == sessions::session_views(changed@),
            after.len() == i,
            forall|k: int|
                0 <= k < i ==> match sessions::find(changes, (#[trigger] first[k]).id@) {
                    Some(change) => amended_row(first[k], change, at@, after@[k]),
                    None => after@[k] == first[k],
                },
        decreases rows.sessions.len() - i,
    {
        let row = &rows.sessions[i];
        match sessions::find_session(changed, row.id.as_str()) {
            Some(place) => {
                let change = &changed[place];
                after.push(
                    UndoSessionRow {
                        id: row.id.clone(),
                        started_at: row.started_at.clone(),
                        ended_at: row.ended_at.clone(),
                        project_id: copy_text(&change.project_id),
                        task_id: copy_text(&change.task_id),
                        category: change.category.clone(),
                        summary: change.summary.clone(),
                        confidence: change.confidence,
                        evidence_json: row.evidence_json.clone(),
                        user_confirmed: change.user_confirmed,
                        source: change.source.clone(),
                        updated_at: at.to_owned(),
                    },
                );
            },
            None => {
                after.push(row.copy());
            },
        }
        i += 1;
    }
    CorrectableRows {
        sessions: after,
        rules: rows.rules,
        memories: rows.memories,
        context_pin: rows.context_pin,
    }
}

fn copy_memories_beside(rows: &Vec<UndoMemoryRow>, ids: &Vec<String>) -> (result: Vec<
    UndoMemoryRow,
>)
    ensures
        result@ == memories_beside(rows@, text::texts(ids@)),
{
    let ghost keep = |row: UndoMemoryRow| !text::texts(ids@).contains(row.session_id@);
    let mut result: Vec<UndoMemoryRow> = Vec::new();
    let mut i: usize = 0;
    assert(rows@.take(0).filter(keep) =~= Seq::empty()) by {
        reveal(Seq::filter);
    }
    while i < rows.len()
        invariant
            i <= rows.len(),
            keep == (|row: UndoMemoryRow| !text::texts(ids@).contains(row.session_id@)),
            result@ == rows@.take(i as int).filter(keep),
        decreases rows.len() - i,
    {
        assert(rows@.take(i + 1) =~= rows@.take(i as int).push(rows@[i as int]));
        proof {
            rows@.take(i as int).lemma_filter_push(rows@[i as int], keep);
        }
        if !text::listed(ids, rows[i].session_id.as_str()) {
            result.push(rows[i].copy());
        }
        i += 1;
    }
    assert(rows@.take(rows.len() as int) =~= rows@);
    result
}

/// Stores what is remembered of corrected sessions, in place of what was remembered of them. Fails
/// where a session would have two memories.
pub fn amend_memories(
    rows: CorrectableRows,
    ids: &Vec<String>,
    kept: &Vec<UndoMemoryRow>,
) -> (result: Option<CorrectableRows>)
    requires
        undo::memory_ids_differ(rows.memories@),
    ensures
        match result {
            Some(after) => has_effect(
                rows,
                Effect::Memories { ids: text::texts(ids@), kept: kept@ },
                after,
            ),
            None => !undo::memory_ids_differ(
                memories_beside(rows.memories@, text::texts(ids@)) + kept@,
            ),
        },
{
    let mut memories = copy_memories_beside(&rows.memories, ids);
    proof {
        undo::lemma_filtered_memory_ids(
            rows.memories@,
            |row: UndoMemoryRow| !text::texts(ids@).contains(row.session_id@),
        );
    }
    if !undo::append_memories(&mut memories, kept) {
        return None;
    }
    Some(
        CorrectableRows {
            sessions: rows.sessions,
            rules: rows.rules,
            memories,
            context_pin: rows.context_pin,
        },
    )
}

/// Drops memories.
pub fn forget_memories(rows: CorrectableRows, ids: &Vec<String>) -> (result: CorrectableRows)
    ensures
        has_effect(rows, Effect::Forgotten { ids: text::texts(ids@) }, result),
{
    let memories = copy_memories_beside(&rows.memories, ids);
    CorrectableRows {
        sessions: rows.sessions,
        rules: rows.rules,
        memories,
        context_pin: rows.context_pin,
    }
}

/// Stores a learned rule in place of the learned one with its id and of superfluous ones. Fails
/// where another rule has its id.
pub fn amend_rule(
    rows: CorrectableRows,
    row: UndoRuleRow,
    duplicates: &Vec<String>,
) -> (result: Option<CorrectableRows>)
    requires
        undo::rule_ids_differ(rows.rules@),
    ensures
        match result {
            Some(after) => has_effect(
                rows,
                Effect::Rule { row, duplicates: text::texts(duplicates@) },
                after,
            ),
            None => !undo::rule_ids_differ(
                rules_beside(rows.rules@, row.id@, text::texts(duplicates@)).push(row),
            ),
        },
{
    let ghost first = rows.rules@;
    let ghost id = row.id@;
    let ghost gone = text::texts(duplicates@);
    let ghost keep = |other: UndoRuleRow| !gives_way(other, id, gone);
    let mut rules: Vec<UndoRuleRow> = Vec::new();
    let mut i: usize = 0;
    assert(first.take(0).filter(keep) =~= Seq::empty()) by {
        reveal(Seq::filter);
    }
    while i < rows.rules.len()
        invariant
            i <= rows.rules.len(),
            first == rows.rules@,
            id == row.id@,
            gone == text::texts(duplicates@),
            keep == (|other: UndoRuleRow| !gives_way(other, id, gone)),
            rules@ == first.take(i as int).filter(keep),
        decreases rows.rules.len() - i,
    {
        assert(first.take(i + 1) =~= first.take(i as int).push(first[i as int]));
        proof {
            first.take(i as int).lemma_filter_push(first[i as int], keep);
        }
        let other = &rows.rules[i];
        if !other.created_from_correction || (!text::same(other.id.as_str(), row.id.as_str())
            && !text::listed(duplicates, other.id.as_str())) {
            rules.push(other.copy());
        }
        i += 1;
    }
    assert(first.take(rows.rules.len() as int) =~= first);
    let ghost kept = rules@;
    assert(kept == rules_beside(first, id, gone));
    proof {
        undo::lemma_filtered_rule_ids(first, keep);
    }
    let mut added: Vec<UndoRuleRow> = Vec::new();
    added.push(row);
    assert(kept + added@ =~= kept.push(row));
    if !undo::append_rules(&mut rules, &added) {
        return None;
    }
    Some(
        CorrectableRows {
            sessions: rows.sessions,
            rules,
            memories: rows.memories,
            context_pin: rows.context_pin,
        },
    )
}

/// Stores a pin.
pub fn amend_pin(rows: CorrectableRows, pin: UndoContextPinRow) -> (result: CorrectableRows)
    ensures
        has_effect(rows, Effect::Pin { pin }, result),
{
    CorrectableRows {
        sessions: rows.sessions,
        rules: rows.rules,
        memories: rows.memories,
        context_pin: Some(pin),
    }
}

/// The step concerns these sessions alone: it changes and remembers no other, and its rule is
/// learned.
pub open spec fn concerns(effect: Effect, ids: Seq<Seq<char>>) -> bool {
    match effect {
        Effect::Sessions { changed, at } => forall|k: int|
            0 <= k < changed.len() ==> ids.contains((#[trigger] changed[k]).id),
        Effect::Memories { ids: forgotten, kept } => {
            &&& forall|k: int|
                0 <= k < forgotten.len() ==> ids.contains(#[trigger] forgotten[k])
            &&& forall|k: int|
                0 <= k < kept.len() ==> ids.contains((#[trigger] kept[k]).session_id@)
        },
        Effect::Forgotten { ids: forgotten } => true,
        Effect::Rule { row, duplicates } => row.created_from_correction,
        Effect::Pin { pin } => true,
    }
}

/// A correction of these sessions has left everything else alone: other sessions, the rules that no
/// correction taught, and the memories of other sessions as far as they are still there.
pub open spec fn left_alone(
    first: CorrectableRows,
    now: CorrectableRows,
    ids: Seq<Seq<char>>,
) -> bool {
    &&& forall|id: Seq<char>|
        !ids.contains(id) ==> #[trigger] undo::session_row(now.sessions@, id) == undo::session_row(
            first.sessions@,
            id,
        )
    &&& undo::standing_rules(now.rules@) == undo::standing_rules(first.rules@)
    &&& forall|id: Seq<char>|
        !ids.contains(id) && #[trigger] undo::memory_row(now.memories@, id) is Some
            ==> undo::memory_row(now.memories@, id) == undo::memory_row(first.memories@, id)
    &&& undo::keys_differ(now)
}

proof fn lemma_same_session_row(
    before: Seq<UndoSessionRow>,
    after: Seq<UndoSessionRow>,
    id: Seq<char>,
)
    requires
        after.len() == before.len(),
        forall|i: int|
            0 <= i < before.len() ==> (#[trigger] after[i]).id@ == before[i].id@ && (before[i].id@
                == id ==> after[i] == before[i]),
    ensures
        undo::session_row(after, id) == undo::session_row(before, id),
    decreases before.len(),
{
    if before.len() > 0 {
        assert(after[0].id@ == before[0].id@);
        assert forall|i: int| 0 <= i < before.drop_first().len() implies (
        #[trigger] after.drop_first()[i]).id@ == before.drop_first()[i].id@ && (
        before.drop_first()[i].id@ == id ==> after.drop_first()[i] == before.drop_first()[i]) by {
            assert(after[i + 1].id@ == before[i + 1].id@);
        }
        lemma_same_session_row(before.drop_first(), after.drop_first(), id);
    }
}

proof fn lemma_memory_row_beside(rows: Seq<UndoMemoryRow>, ids: Seq<Seq<char>>, id: Seq<char>)
    ensures
        undo::memory_row(memories_beside(rows, ids), id) == if ids.contains(id) {
            None
        } else {
            undo::memory_row(rows, id)
        },
    decreases rows.len(),
{
    let keep = |row: UndoMemoryRow| !ids.contains(row.session_id@);
    reveal(Seq::filter);
    if rows.len() > 0 {
        let first = seq![rows[0]];
        let rest = rows.drop_first();
        assert(rows =~= first + rest);
        Seq::filter_distributes_over_add(first, rest, keep);
        lemma_memory_row_beside(rest, ids, id);
        undo::lemma_memory_row_add(first.filter(keep), rest.filter(keep), id);
        reveal_with_fuel(Seq::filter, 2);
        reveal_with_fuel(undo::memory_row, 2);
        assert(first.drop_last() =~= Seq::empty());
        assert(first.drop_first() =~= Seq::empty());
        if keep(rows[0]) {
            assert(first.filter(keep) =~= first);
        } else {
            assert(first.filter(keep) =~= Seq::empty());
        }
    }
}

proof fn lemma_filter_again(
    rows: Seq<UndoRuleRow>,
    keep: spec_fn(UndoRuleRow) -> bool,
    stays: spec_fn(UndoRuleRow) -> bool,
)
    requires
        forall|row: UndoRuleRow| #[trigger] stays(row) ==> keep(row),
    ensures
        rows.filter(keep).filter(stays) == rows.filter(stays),
    decreases rows.len(),
{
    if rows.len() > 0 {
        let rest = rows.drop_last();
        let last = rows.last();
        lemma_filter_again(rest, keep, stays);
        assert(rows =~= rest.push(last));
        rest.lemma_filter_push(last, keep);
        rest.lemma_filter_push(last, stays);
        rest.filter(keep).lemma_filter_push(last, stays);
    } else {
        reveal(Seq::filter);
        assert(rows.filter(keep) =~= rows);
    }
}

proof fn lemma_standing_beside(
    rows: Seq<UndoRuleRow>,
    id: Seq<char>,
    duplicates: Seq<Seq<char>>,
)
    ensures
        undo::standing_rules(rules_beside(rows, id, duplicates)) == undo::standing_rules(rows),
{
    lemma_filter_again(
        rows,
        |row: UndoRuleRow| !gives_way(row, id, duplicates),
        |row: UndoRuleRow| !row.created_from_correction,
    );
}

/// A step of a correction leaves everything but its sessions, their memories, the learned rules and
/// the pin alone; memories of other sessions can only be dropped.
pub proof fn steps_leave_the_rest_alone(
    first: CorrectableRows,
    before: CorrectableRows,
    effect: Effect,
    after: CorrectableRows,
    ids: Seq<Seq<char>>,
)
    requires
        left_alone(first, before, ids),
        concerns(effect, ids),
        has_effect(before, effect, after),
    ensures
        left_alone(first, after, ids),
{
    match effect {
        Effect::Sessions { changed, at } => {
            assert forall|id: Seq<char>| !ids.contains(id) implies #[trigger] undo::session_row(
                after.sessions@,
                id,
            ) == undo::session_row(first.sessions@, id) by {
                lemma_found_has_id(changed, id);
                assert forall|i: int| 0 <= i < before.sessions@.len() implies (
                #[trigger] after.sessions@[i]).id@ == before.sessions@[i].id@ && (
                before.sessions@[i].id@ == id ==> after.sessions@[i] == before.sessions@[i]) by {
                    let row = before.sessions@[i];
                    assert(match sessions::find(changed, row.id@) {
                        Some(change) => amended_row(row, change, at, after.sessions@[i]),
                        None => after.sessions@[i] == row,
                    });
                }
                lemma_same_session_row(before.sessions@, after.sessions@, id);
                assert(undo::session_row(before.sessions@, id) == undo::session_row(
                    first.sessions@,
                    id,
                ));
            }
        },
        Effect::Memories { ids: forgotten, kept } => {
            assert forall|id: Seq<char>|
                !ids.contains(id) && #[trigger] undo::memory_row(after.memories@, id) is Some implies
                undo::memory_row(after.memories@, id) == undo::memory_row(first.memories@, id) by {
                let rest = memories_beside(before.memories@, forgotten);
                undo::lemma_memory_row_add(rest, kept, id);
                lemma_memory_row_beside(before.memories@, forgotten, id);
                undo::lemma_memory_row_id(kept, id);
                if undo::memory_row(kept, id) is Some {
                    let k = choose|k: int|
                        0 <= k < kept.len() && #[trigger] kept[k].session_id@ == id;
                    assert(ids.contains(kept[k].session_id@));
                }
                assert(undo::memory_row(before.memories@, id) is Some);
            }
        },
        Effect::Forgotten { ids: forgotten } => {
            undo::lemma_filtered_memory_ids(
                before.memories@,
                |row: UndoMemoryRow| !forgotten.contains(row.session_id@),
            );
            assert forall|id: Seq<char>|
                !ids.contains(id) && #[trigger] undo::memory_row(after.memories@, id) is Some implies
                undo::memory_row(after.memories@, id) == undo::memory_row(first.memories@, id) by {
                lemma_memory_row_beside(before.memories@, forgotten, id);
                assert(undo::memory_row(before.memories@, id) is Some);
            }
        },
        Effect::Rule { row, duplicates } => {
            let rest = rules_beside(before.rules@, row.id@, duplicates);
            let stays = |row: UndoRuleRow| !row.created_from_correction;
            lemma_standing_beside(before.rules@, row.id@, duplicates);
            rest.lemma_filter_push(row, stays);
        },
        Effect::Pin { pin } => {},
    }
}

proof fn lemma_found_has_id(changed: Seq<SessionView>, id: Seq<char>)
    ensures
        sessions::find(changed, id) matches Some(change) ==> exists|k: int|
            0 <= k < changed.len() && (#[trigger] changed[k]).id == id,
    decreases changed.len(),
{
    if changed.len() > 0 {
        if changed[0].id == id {
        } else {
            let rest = changed.drop_first();
            lemma_found_has_id(rest, id);
            if sessions::find(rest, id) is Some {
                let k = choose|k: int| 0 <= k < rest.len() && (#[trigger] rest[k]).id == id;
                assert(changed[k + 1].id == id);
            }
        }
    }
}

/// The states follow on each other by steps that concern these sessions alone.
pub open spec fn is_correction(
    states: Seq<CorrectableRows>,
    effects: Seq<Effect>,
    ids: Seq<Seq<char>>,
) -> bool {
    &&& states.len() == effects.len() + 1
    &&& forall|k: int|
        0 <= k < effects.len() ==> concerns(#[trigger] effects[k], ids) && has_effect(
            states[k],
            effects[k],
            states[k + 1],
        )
}

proof fn lemma_whole_correction(
    states: Seq<CorrectableRows>,
    effects: Seq<Effect>,
    ids: Seq<Seq<char>>,
    n: int,
)
    requires
        is_correction(states, effects, ids),
        undo::keys_differ(states[0]),
        0 <= n < states.len(),
    ensures
        left_alone(states[0], states[n], ids),
    decreases n,
{
    if n > 0 {
        lemma_whole_correction(states, effects, ids, n - 1);
        assert(concerns(effects[n - 1], ids));
        steps_leave_the_rest_alone(states[0], states[n - 1], effects[n - 1], states[n], ids);
    }
}

/// A whole correction of some sessions changes no other session and no rule that a correction did
/// not teach.
pub proof fn corrections_change_nothing_else(
    states: Seq<CorrectableRows>,
    effects: Seq<Effect>,
    ids: Seq<Seq<char>>,
)
    requires
        is_correction(states, effects, ids),
        undo::keys_differ(states[0]),
    ensures
        left_alone(states[0], states.last(), ids),
{
    lemma_whole_correction(states, effects, ids, states.len() - 1);
}

proof fn lemma_noted_memories_fit(
    first: CorrectableRows,
    changed: CorrectableRows,
    ids: Seq<Seq<char>>,
    snapshot: SessionCorrectionUndo,
)
    requires
        ids.no_duplicates(),
        left_alone(first, changed, ids),
        undo::first_unknown(first.sessions@, ids) is None,
        undo::captures(first, ids, snapshot),
    ensures
        undo::memory_ids_differ(
            undo::other_memories(changed.memories@, snapshot.sessions@) + snapshot.memories@,
        ),
{
    let added = snapshot.sessions@;
    let noted = snapshot.memories@;
    let keep = |row: UndoMemoryRow| !undo::has_session(added, row.session_id@);
    let kept = undo::other_memories(changed.memories@, added);
    let whole = kept + noted;
    undo::lemma_kept_keys_differ(changed, snapshot);
    undo::lemma_captured_memory_ids(first.memories@, ids);
    assert forall|i: int, j: int| 0 <= i < j < whole.len() implies (
    #[trigger] whole[i]).session_id@ != (#[trigger] whole[j]).session_id@ by {
        if i < kept.len() && j >= kept.len() {
            let id = whole[j].session_id@;
            changed.memories@.lemma_filter_pred(keep, i);
            assert(whole[j] == noted[j - kept.len()]);
            assert(ids.contains(id));
            undo::lemma_captured_session_row(first.sessions@, ids, added, changed.sessions@, id);
        } else if j < kept.len() {
            assert(whole[i] == kept[i] && whole[j] == kept[j]);
        } else {
            assert(whole[i] == noted[i - kept.len()] && whole[j] == noted[j - kept.len()]);
        }
    }
}

proof fn lemma_given_back(
    first: CorrectableRows,
    changed: CorrectableRows,
    ids: Seq<Seq<char>>,
    snapshot: SessionCorrectionUndo,
    after: CorrectableRows,
    id: Seq<char>,
)
    requires
        left_alone(first, changed, ids),
        undo::first_unknown(first.sessions@, ids) is None,
        undo::captures(first, ids, snapshot),
        undo::restored(changed, snapshot, after),
    ensures
        undo::session_row(after.sessions@, id) == undo::session_row(first.sessions@, id),
        ids.contains(id) ==> undo::memory_row(after.memories@, id) == undo::memory_row(
            first.memories@,
            id,
        ),
{
    let added = snapshot.sessions@;
    assert(!ids.contains(id) ==> undo::session_row(changed.sessions@, id) == undo::session_row(
        first.sessions@,
        id,
    ));
    undo::lemma_captured_session_row(first.sessions@, ids, added, changed.sessions@, id);
    undo::lemma_memory_row_add(
        undo::other_memories(changed.memories@, added),
        snapshot.memories@,
        id,
    );
    undo::lemma_other_memory_row(changed.memories@, added, id);
    undo::lemma_captured_memory_row(first.memories@, ids, id);
}

/// A whole correction of different sessions can be taken back: no key gets in the way of what was
/// noted.
pub proof fn whole_corrections_can_be_undone(
    states: Seq<CorrectableRows>,
    effects: Seq<Effect>,
    ids: Seq<Seq<char>>,
    snapshot: SessionCorrectionUndo,
)
    requires
        ids.no_duplicates(),
        is_correction(states, effects, ids),
        undo::keys_differ(states[0]),
        undo::first_unknown(states[0].sessions@, ids) is None,
        undo::captures(states[0], ids, snapshot),
    ensures
        undo::keys_differ(states.last()),
        undo::rule_ids_differ(
            undo::standing_rules(states.last().rules@) + snapshot.correction_rules@,
        ),
        undo::memory_ids_differ(
            undo::other_memories(states.last().memories@, snapshot.sessions@) + snapshot.memories@,
        ),
{
    corrections_change_nothing_else(states, effects, ids);
    undo::lemma_split_rule_ids(states[0].rules@);
    lemma_noted_memories_fit(states[0], states.last(), ids, snapshot);
}

/// Once a whole correction is taken back, every session, every rule, the memories of the corrected
/// sessions and the pin are what they were before it.
pub proof fn undone_corrections_leave_no_trace(
    states: Seq<CorrectableRows>,
    effects: Seq<Effect>,
    ids: Seq<Seq<char>>,
    snapshot: SessionCorrectionUndo,
    after: CorrectableRows,
)
    requires
        is_correction(states, effects, ids),
        undo::keys_differ(states[0]),
        undo::first_unknown(states[0].sessions@, ids) is None,
        undo::captures(states[0], ids, snapshot),
        undo::restored(states.last(), snapshot, after),
    ensures
        forall|id: Seq<char>| #[trigger]
            undo::session_row(after.sessions@, id) == undo::session_row(states[0].sessions@, id),
        undo::standing_rules(after.rules@) == undo::standing_rules(states[0].rules@),
        undo::learned_rules(after.rules@) == undo::learned_rules(states[0].rules@),
        forall|id: Seq<char>|
            ids.contains(id) ==> #[trigger] undo::memory_row(after.memories@, id)
                == undo::memory_row(states[0].memories@, id),
        after.context_pin == states[0].context_pin,
{
    let first = states[0];
    let changed = states.last();
    corrections_change_nothing_else(states, effects, ids);
    assert forall|id: Seq<char>| #[trigger]
        undo::session_row(after.sessions@, id) == undo::session_row(first.sessions@, id) by {
        lemma_given_back(first, changed, ids, snapshot, after, id);
    }
    assert forall|id: Seq<char>| ids.contains(id) implies #[trigger] undo::memory_row(
        after.memories@,
        id,
    ) == undo::memory_row(first.memories@, id) by {
        lemma_given_back(first, changed, ids, snapshot, after, id);
    }
    undo::lemma_rule_groups(changed.rules@, first.rules@);
}

} // verus!
