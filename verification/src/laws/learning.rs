//! Promises of learning: what a correction teaches, and what is remembered of it.
use vstd::prelude::*;

use crate::attribution::RuleRowView;
use crate::json;
use crate::json::JsonView;
use crate::labels;
use crate::lists;
use crate::memory;
use crate::models::{RawEventView, RuleView, SessionView, SettingsView};
use crate::recall;
use crate::recall::{CandidateView, CorrectedView, RecallView, StoredView};
use crate::rules;
use crate::text;

verus! {

broadcast use vstd::seq_lib::group_seq_properties;

/// A rule that a session teaches assigns what the session is assigned, and is in force. With a task it
/// takes the place of the first rule of that assignment and makes all the others superfluous; where
/// there was none, it is a new one.
pub proof fn taught_rules_assign_what_the_session_was(
    session: SessionView,
    keyword: Option<Seq<char>>,
    older: Seq<RuleRowView>,
    new_id: Seq<char>,
    rule: RuleView,
    merged: bool,
    duplicates: Seq<Seq<char>>,
)
    requires
        rules::teaches(session, keyword, older, new_id, rule, merged, duplicates),
    ensures
        rule.project_id == session.project_id,
        rule.task_id == session.task_id,
        rule.category == session.category,
        rule.enabled,
        rule.created_from_correction,
        rule.priority == 90,
        older.len() == 0 ==> rule.id == new_id && !merged && duplicates.len() == 0,
        older.len() > 0 && session.task_id is Some ==> rule.id == older[0].id && merged
            && duplicates.len() == older.len() - 1 && forall|k: int|
            1 <= k < older.len() ==> #[trigger] duplicates[k - 1] == older[k].id,
        session.task_id is None ==> duplicates.len() == 0,
{
}

/// A rule belongs to the same assignment as a session where category, project and task are the same,
/// nothing and an empty name being one.
pub proof fn assignments_are_told_by_their_parts(session: SessionView, rule: RuleRowView)
    ensures
        rule.project_id == session.project_id && rule.task_id == session.task_id && rule.category
            == session.category ==> rules::shares_rule_assignment(session, rule),
        rules::shares_rule_assignment(session, rule) ==> rule.category == session.category,
        rules::shares_rule_assignment(session, rule) && session.project_id is Some
            && session.project_id.unwrap().len() > 0 ==> rule.project_id == session.project_id,
        rules::shares_rule_assignment(session, rule) && session.task_id is Some
            && session.task_id.unwrap().len() > 0 ==> rule.task_id == session.task_id,
        rules::shares_rule_assignment(session, rule) && session.task_id is None ==> (rule.task_id
            matches Some(id) ==> id.len() == 0),
{
}

proof fn lemma_label_kept(list: Seq<Seq<char>>, k: int)
    requires
        0 <= k < list.len(),
        memory::context_label(list[k]).len() > 0,
    ensures
        rules::labels_of(list).contains(memory::context_label(list[k])),
{
    let mapped = list.map_values(|word: Seq<char>| memory::context_label(word));
    let keep = |word: Seq<char>| word.len() > 0;
    assert(mapped[k] == memory::context_label(list[k]));
    mapped.lemma_filter_contains(keep, k);
}

/// The names of the project and of the task, and the title that was shown, are learned wherever they
/// can tell contexts apart.
pub proof fn names_and_titles_are_learned(session: SessionView, keyword: Option<Seq<char>>)
    ensures
        session.project_name matches Some(name) ==> (labels::memory_keyword(name) matches Some(word)
            ==> is_learned(session, keyword, text::prefix_of(word, 48))),
        session.task_title matches Some(name) ==> (labels::memory_keyword(name) matches Some(word)
            ==> is_learned(session, keyword, text::prefix_of(word, 48))),
{
    let given = rules::given_keywords(keyword);
    let project = rules::name_keyword(session.project_name);
    let task = rules::name_keyword(session.task_title);
    let all = rules::raw_keywords(session, keyword);
    if let Some(name) = session.project_name {
        if let Some(word) = labels::memory_keyword(name) {
            let k = given.len() as int;
            assert(all[k] == project[0]);
            if memory::context_label(all[k]).len() > 0 {
                lemma_label_kept(all, k);
            }
        }
    }
    if let Some(name) = session.task_title {
        if let Some(word) = labels::memory_keyword(name) {
            let k = (given.len() + project.len()) as int;
            assert(all[k] == task[0]);
            if memory::context_label(all[k]).len() > 0 {
                lemma_label_kept(all, k);
            }
        }
    }
}

/// The label of the word, where it has one, is among what the session teaches.
pub open spec fn is_learned(
    session: SessionView,
    keyword: Option<Seq<char>>,
    word: Seq<char>,
) -> bool {
    memory::context_label(word).len() > 0 ==> rules::taught_labels(session, keyword).contains(
        memory::context_label(word),
    )
}

/// No word is lost when keywords are merged: a word that is no noise is kept, or one that differs only
/// in case and outer space. No word is made up.
pub proof fn merged_keywords_lose_nothing(list: Seq<Seq<char>>)
    ensures
        forall|word: Seq<char>| #[trigger]
            list.contains(word) && !labels::noise(word) ==> exists|k: int|
                0 <= k < rules::useful_keywords(list).len() && text::lowercase(
                    text::trimmed(#[trigger] rules::useful_keywords(list)[k]),
                ) == text::lowercase(text::trimmed(word)),
        forall|k: int|
            0 <= k < rules::useful_keywords(list).len() ==> list.contains(
                #[trigger] rules::useful_keywords(list)[k],
            ),
    decreases list.len(),
{
    if list.len() > 0 {
        let rest = list.drop_last();
        let last = list.last();
        merged_keywords_lose_nothing(rest);
        let before = rules::useful_keywords(rest);
        let after = rules::useful_keywords(list);
        assert forall|word: Seq<char>| #[trigger]
            list.contains(word) && !labels::noise(word) implies exists|k: int|
            0 <= k < after.len() && text::lowercase(text::trimmed(#[trigger] after[k]))
                == text::lowercase(text::trimmed(word)) by {
            let m = choose|m: int| 0 <= m < list.len() && list[m] == word;
            if m < rest.len() {
                assert(rest[m] == word);
                assert(rest.contains(word));
                let k = choose|k: int|
                    0 <= k < before.len() && text::lowercase(text::trimmed(#[trigger] before[k]))
                        == text::lowercase(text::trimmed(word));
                assert(after[k] == before[k]);
            } else if rules::keeps_key(before, last) {
                let k = choose|k: int|
                    0 <= k < before.len() && rules::keyword_key(#[trigger] before[k])
                        == rules::keyword_key(last);
                assert(after[k] == before[k]);
            } else {
                assert(after[before.len() as int] == word);
            }
        }
        assert forall|k: int| 0 <= k < after.len() implies list.contains(#[trigger] after[k]) by {
            if k < before.len() {
                assert(after[k] == before[k]);
                assert(rest.contains(before[k]));
                let m = choose|m: int| 0 <= m < rest.len() && rest[m] == before[k];
                assert(list[m] == after[k]);
            } else {
                assert(list[list.len() - 1] == after[k]);
            }
        }
    }
}

/// Of keywords that differ only in case one is kept, and every one that is kept was there.
pub proof fn keywords_are_told_apart_by_more_than_case(list: Seq<Seq<char>>)
    ensures
        forall|i: int, j: int|
            0 <= i < j < rules::distinct_lower(list).len() ==> text::lowercase(
                #[trigger] rules::distinct_lower(list)[i],
            ) != text::lowercase(#[trigger] rules::distinct_lower(list)[j]),
        forall|k: int|
            0 <= k < rules::distinct_lower(list).len() ==> list.contains(
                #[trigger] rules::distinct_lower(list)[k],
            ),
        forall|word: Seq<char>| #[trigger]
            list.contains(word) ==> rules::keeps_lower(rules::distinct_lower(list), word),
    decreases list.len(),
{
    if list.len() > 0 {
        let rest = list.drop_last();
        let last = list.last();
        keywords_are_told_apart_by_more_than_case(rest);
        let before = rules::distinct_lower(rest);
        let after = rules::distinct_lower(list);
        assert forall|k: int| 0 <= k < after.len() implies list.contains(#[trigger] after[k]) by {
            if k < before.len() {
                assert(after[k] == before[k]);
                assert(rest.contains(before[k]));
                let m = choose|m: int| 0 <= m < rest.len() && rest[m] == before[k];
                assert(list[m] == after[k]);
            } else {
                assert(list[list.len() - 1] == after[k]);
            }
        }
        assert forall|word: Seq<char>| #[trigger] list.contains(word) implies rules::keeps_lower(
            after,
            word,
        ) by {
            let m = choose|m: int| 0 <= m < list.len() && list[m] == word;
            if m < rest.len() {
                assert(rest[m] == word);
                assert(rest.contains(word));
            }
            if rules::keeps_lower(before, word) {
                let k = choose|k: int|
                    0 <= k < before.len() && text::lowercase(#[trigger] before[k])
                        == text::lowercase(word);
                assert(after[k] == before[k]);
            } else {
                assert(after[before.len() as int] == word);
            }
        }
    }
}

proof fn lemma_inserted_word(sorted: Seq<Seq<char>>, word: Seq<char>)
    ensures
        rules::insert_lower(sorted, word).len() == sorted.len() + 1,
        forall|other: Seq<char>| #[trigger]
            rules::insert_lower(sorted, word).contains(other) <==> sorted.contains(other) || other
                == word,
    decreases sorted.len(),
{
    let after = rules::insert_lower(sorted, word);
    if sorted.len() == 0 || !text::precedes(
        text::lowercase(word),
        text::lowercase(sorted.last()),
    ) {
        assert forall|other: Seq<char>| #[trigger]
            after.contains(other) <==> sorted.contains(other) || other == word by {
            if sorted.contains(other) {
                let k = choose|k: int| 0 <= k < sorted.len() && sorted[k] == other;
                assert(after[k] == other);
            }
            assert(after[sorted.len() as int] == word);
        }
    } else {
        let rest = sorted.drop_last();
        lemma_inserted_word(rest, word);
        let before = rules::insert_lower(rest, word);
        assert forall|other: Seq<char>| #[trigger]
            after.contains(other) <==> sorted.contains(other) || other == word by {
            if sorted.contains(other) || other == word {
                if sorted.contains(other) {
                    let k = choose|k: int| 0 <= k < sorted.len() && sorted[k] == other;
                    if k < rest.len() {
                        assert(rest[k] == other);
                        assert(rest.contains(other));
                    } else {
                        assert(after[before.len() as int] == other);
                    }
                }
                if before.contains(other) {
                    let k = choose|k: int| 0 <= k < before.len() && before[k] == other;
                    assert(after[k] == other);
                }
            }
            if after.contains(other) {
                let k = choose|k: int| 0 <= k < after.len() && after[k] == other;
                if k < before.len() {
                    assert(before.contains(other));
                    if rest.contains(other) {
                        let m = choose|m: int| 0 <= m < rest.len() && rest[m] == other;
                        assert(sorted[m] == other);
                    }
                } else {
                    assert(sorted[sorted.len() - 1] == other);
                }
            }
        }
    }
}

/// Sorting keywords keeps all of them, and adds none.
pub proof fn sorted_keywords_are_the_same(list: Seq<Seq<char>>)
    ensures
        rules::sorted_lower(list).len() == list.len(),
        forall|word: Seq<char>| #[trigger]
            rules::sorted_lower(list).contains(word) <==> list.contains(word),
    decreases list.len(),
{
    if list.len() > 0 {
        let rest = list.drop_last();
        sorted_keywords_are_the_same(rest);
        lemma_inserted_word(rules::sorted_lower(rest), list.last());
        assert forall|word: Seq<char>| #[trigger]
            rules::sorted_lower(list).contains(word) <==> list.contains(word) by {
            if list.contains(word) {
                let k = choose|k: int| 0 <= k < list.len() && list[k] == word;
                if k < rest.len() {
                    assert(rest[k] == word);
                    assert(rest.contains(word));
                }
            }
            if rest.contains(word) {
                let k = choose|k: int| 0 <= k < rest.len() && rest[k] == word;
                assert(list[k] == word);
            }
            assert(list[list.len() - 1] == list.last());
        }
    }
}

proof fn lemma_put_member(
    members: Seq<(Seq<char>, JsonView)>,
    key: Seq<char>,
    value: JsonView,
    other: Seq<char>,
)
    ensures
        json::last_member(json::with_member(members, key, value), other) == if other == key {
            Some(value)
        } else {
            json::last_member(members, other)
        },
    decreases members.len(),
{
    let after = json::with_member(members, key, value);
    if members.len() == 0 {
        assert(after.drop_last() =~= members);
    } else if members.last().0 == key {
        assert(after.drop_last() =~= members.drop_last());
    } else if text::precedes(members.last().0, key) {
        assert(after.drop_last() =~= members);
    } else {
        lemma_put_member(members.drop_last(), key, value, other);
        assert(after.drop_last() =~= json::with_member(members.drop_last(), key, value));
    }
}

proof fn lemma_left_member(members: Seq<(Seq<char>, JsonView)>, key: Seq<char>, other: Seq<char>)
    ensures
        json::last_member(json::without_member(members, key), other) == if other == key {
            None
        } else {
            json::last_member(members, other)
        },
    decreases members.len(),
{
    let keep = |member: (Seq<char>, JsonView)| json::has_other_key(member, key);
    if members.len() == 0 {
        assert(members.filter(keep) =~= members) by {
            reveal(Seq::filter);
        }
    } else {
        let rest = members.drop_last();
        lemma_left_member(rest, key, other);
        rest.lemma_filter_push(members.last(), keep);
        assert(rest.push(members.last()) =~= members);
        let before = rest.filter(keep);
        let after = members.filter(keep);
        assert(before == json::without_member(rest, key));
        assert(after == json::without_member(members, key));
        if keep(members.last()) {
            assert(after == before.push(members.last()));
            assert(after.drop_last() =~= before);
            assert(after.last() == members.last());
        } else {
            assert(after == before);
        }
    }
}

proof fn lemma_listed_texts(words: Seq<Seq<char>>)
    ensures
        rules::text_list(words) matches JsonView::List(items) && json::text_items(items) == words,
    decreases words.len(),
{
    let items = words.map_values(|word: Seq<char>| JsonView::Text(word));
    let pick = |item: JsonView| item.as_text();
    if words.len() == 0 {
        assert(items =~= Seq::empty());
        assert(items.filter_map(pick) =~= words) by {
            reveal(Seq::filter_map);
        }
    } else {
        let rest = words.drop_last();
        lemma_listed_texts(rest);
        let before = rest.map_values(|word: Seq<char>| JsonView::Text(word));
        assert(items.drop_last() =~= before);
        assert(items.filter_map(pick) =~= before.filter_map(pick).push(words.last())) by {
            reveal(Seq::filter_map);
            assert(items.last() == JsonView::Text(words.last()));
        }
        assert(rest.push(words.last()) =~= words);
    }
}

/// A rule that is not merged into older ones asks for exactly the words that the session taught, and,
/// where the session has no task, for the program that it showed.
pub proof fn taught_rules_ask_for_what_was_learned(
    session: SessionView,
    keyword: Option<Seq<char>>,
    older: Seq<RuleRowView>,
    new_id: Seq<char>,
    rule: RuleView,
    merged: bool,
    duplicates: Seq<Seq<char>>,
    word: Seq<char>,
)
    requires
        rules::teaches(session, keyword, older, new_id, rule, merged, duplicates),
        session.task_id is None || older.len() == 0,
    ensures
        json::text_items(rule.matcher.member_items("keywords"@)).contains(word)
            <==> rules::taught_labels(session, keyword).contains(word),
        session.task_id is None && rules::rule_app(session).len() > 0 ==> rule.matcher.member_text(
            "app"@,
        ) == Some(rules::rule_app(session)),
        session.task_id is Some ==> rule.matcher.member("app"@) is None,
{
    let words = choose|words: Seq<Seq<char>>|
        memory::sorted_set(words, rules::taught_labels(session, keyword))
            && #[trigger] rules::taught_rule(session, words, older, new_id, rule);
    reveal_strlit("app");
    reveal_strlit("generation");
    reveal_strlit("keywords");
    assert("app"@.len() == 3 && "generation"@.len() == 10 && "keywords"@.len() == 8);
    let rest = seq![
        ("generation"@, JsonView::Natural(2)),
        ("keywords"@, rules::text_list(words)),
    ];
    let first = seq![("generation"@, JsonView::Natural(2))];
    let none = Seq::<(Seq<char>, JsonView)>::empty();
    assert(rest.drop_last() =~= first);
    assert(first.drop_last() =~= none);
    assert(rest.last() == ("keywords"@, rules::text_list(words)));
    assert(json::last_member(none, "app"@) is None);
    assert(json::last_member(first, "app"@) is None);
    assert(json::last_member(rest, "app"@) is None);
    assert(json::last_member(rest, "keywords"@) == Some(rules::text_list(words)));
    let app = ("app"@, JsonView::Text(rules::rule_app(session)));
    let whole = seq![app] + rest;
    assert(whole.last() == ("keywords"@, rules::text_list(words)));
    assert(whole.drop_last() =~= seq![app] + first);
    assert((seq![app] + first).drop_last() =~= seq![app]);
    assert((seq![app] + first).last() == first[0]);
    assert(json::last_member(seq![app], "app"@) == Some(app.1));
    assert(json::last_member(seq![app] + first, "app"@) == Some(app.1));
    assert(json::last_member(whole, "app"@) == Some(app.1));
    assert(json::last_member(whole, "keywords"@) == Some(rules::text_list(words)));
    lemma_listed_texts(words);
    assert(words.to_set().contains(word) <==> words.contains(word));
    let labels = rules::taught_labels(session, keyword);
    assert(labels.to_set().contains(word) <==> labels.contains(word));
}

/// A rule in its normal form asks for its keywords in one list alone, and for no program where it has
/// a task; everything else that it asks for stays.
pub proof fn normal_rules_keep_the_rest(
    members: Seq<(Seq<char>, JsonView)>,
    has_task: bool,
    key: Seq<char>,
)
    ensures
        ({
            let matcher = JsonView::Object(members);
            let after = rules::normal_matcher(matcher, has_task);
            &&& after.member("keyword"@) is None
            &&& json::text_items(after.member_items("keywords"@)) == rules::normal_keywords(matcher)
            &&& has_task ==> after.member("app"@) is None
            &&& !has_task ==> after.member("app"@) == matcher.member("app"@)
            &&& key != "keyword"@ && key != "keywords"@ && key != "app"@ ==> after.member(key)
                == matcher.member(key)
        }),
{
    reveal_strlit("app");
    reveal_strlit("keyword");
    reveal_strlit("keywords");
    assert("app"@.len() == 3 && "keyword"@.len() == 7 && "keywords"@.len() == 8);
    let words = rules::text_list(rules::normal_keywords(JsonView::Object(members)));
    let kept = if has_task {
        json::without_member(members, "app"@)
    } else {
        members
    };
    let left = json::without_member(kept, "keyword"@);
    lemma_listed_texts(rules::normal_keywords(JsonView::Object(members)));
    lemma_put_member(left, "keywords"@, words, "keyword"@);
    lemma_put_member(left, "keywords"@, words, "keywords"@);
    lemma_put_member(left, "keywords"@, words, "app"@);
    lemma_put_member(left, "keywords"@, words, key);
    lemma_left_member(kept, "keyword"@, "keyword"@);
    lemma_left_member(kept, "keyword"@, "app"@);
    lemma_left_member(kept, "keyword"@, key);
    lemma_left_member(members, "app"@, "app"@);
    lemma_left_member(members, "app"@, key);
}

/// The observations of a span are those made from its start to its end, both included.
pub proof fn spans_include_their_ends(
    events: Seq<RawEventView>,
    started_at: Seq<char>,
    ended_at: Seq<char>,
    event: RawEventView,
)
    ensures
        recall::events_between(events, started_at, ended_at).contains(event) <==> events.contains(
            event,
        ) && !text::precedes(event.timestamp, started_at) && !text::precedes(
            ended_at,
            event.timestamp,
        ),
{
    let keep = |event: RawEventView| recall::is_between(event, started_at, ended_at);
    lists::lemma_filtered(events, keep);
    assert(events.filter(keep).contains(event) <==> events.contains(event) && keep(event));
}

/// The session is work that was confirmed, not entered or merged by hand, and no time away.
pub open spec fn is_confirmed_work(session: SessionView) -> bool {
    &&& session.user_confirmed
    &&& session.source != "manual-entry"@
    &&& session.source != "manual-merge"@
    &&& session.source != "collector-idle"@
    &&& session.summary != "离开/空闲"@
}

/// A correction can be remembered exactly where it confirms work with a project and a task, whose task
/// is no placeholder, in a context that is unambiguous and tells something. What is remembered is the
/// assignment of the session, under its id, at the time of the correction.
pub proof fn corrections_of_clear_work_are_remembered(
    row: CorrectedView,
    events: Seq<RawEventView>,
    settings: SettingsView,
    current_batch: bool,
)
    ensures
        ({
            let session = row.session;
            let features = memory::features_of(
                session.evidence,
                recall::events_between(events, session.started_at, session.ended_at),
            );
            let found = recall::candidate(row, events, settings, current_batch);
            &&& found is Some <==> is_confirmed_work(session) && session.project_name is Some
                && session.task_title is Some && session.project_id is Some
                && session.task_id is Some && !row.placeholder && !row.ambiguous
                && memory::discriminative(features)
            &&& found matches Some(item) ==> {
                &&& item.memory.session_id == session.id
                &&& item.memory.features == features
                &&& item.memory.category == session.category
                &&& Some(item.memory.project_id) == session.project_id
                &&& Some(item.memory.task_id) == session.task_id
                &&& item.memory.confirmed_at == if row.updated_at is Some {
                    row.updated_at.unwrap()
                } else {
                    session.ended_at
                }
                &&& item.anchored == row.anchored
                &&& item.idle <==> session.category == settings.idle_category
                    && session.project_name == Some(settings.idle_project_name)
            }
        }),
{
}

/// A memory is stored exactly for confirmed work, or for a confident review that is recent enough,
/// under the same conditions, and not for time away.
pub proof fn memories_are_stored_for_clear_work(
    row: CorrectedView,
    events: Seq<RawEventView>,
    settings: SettingsView,
    cutoff: Option<Seq<char>>,
)
    ensures
        ({
            let session = row.session;
            let found = recall::recalled(row, events, settings, cutoff);
            &&& found matches RecallView::Store(stored) ==> {
                &&& stored.session_id == session.id
                &&& stored.features == memory::features_of(session.evidence, events)
                &&& stored.category == session.category
                &&& Some(stored.project_id) == session.project_id
                &&& Some(stored.task_id) == session.task_id
                &&& Some(stored.confirmed_at) == row.updated_at
                &&& memory::discriminative(stored.features)
                &&& !row.placeholder && !row.ambiguous
                &&& session.source != "collector-idle"@ && session.summary != "离开/空闲"@
                &&& !(session.category == settings.idle_category && session.project_name == Some(
                    settings.idle_project_name,
                ))
            }
            &&& is_confirmed_work(session) && session.project_id is Some && session.task_id is Some
                && session.task_title is Some && session.project_name is Some
                && row.updated_at is Some && !row.placeholder && !row.ambiguous
                && memory::discriminative(memory::features_of(session.evidence, events)) && !(
            session.category == settings.idle_category && session.project_name == Some(
                settings.idle_project_name,
            )) ==> found is Store
            &&& !session.user_confirmed && session.source != "ai-review"@ ==> !(found is Store)
            &&& session.source == "manual-entry"@ || session.source == "manual-merge"@ ==> !(
            found is Store)
        }),
{
    reveal_strlit("ai-review");
    reveal_strlit("manual-entry");
    reveal_strlit("manual-merge");
    assert("ai-review"@.len() == 9 && "manual-entry"@.len() == 12 && "manual-merge"@.len() == 12);
}

/// A review counts as provisional memory where it was not confirmed, is sure by at least 0.92, is
/// complete and came no earlier than the cutoff.
pub proof fn sure_reviews_are_provisional(row: CorrectedView, cutoff: Option<Seq<char>>)
    ensures
        recall::provisional(row, cutoff) <==> !row.session.user_confirmed && row.session.source
            == "ai-review"@ && row.session.confidence >= 0x3F6B851F
            && row.session.project_id is Some && row.session.task_id is Some
            && row.session.task_title is Some && !row.placeholder && cutoff is Some
            && row.updated_at is Some && !text::precedes(row.updated_at.unwrap(), cutoff.unwrap()),
{
}

/// The latest word counts: once a context was last confirmed as something else, what it was before is
/// not remembered.
pub proof fn the_latest_word_counts(list: Seq<CandidateView>, i: int, j: int)
    requires
        0 <= i < list.len(),
        0 <= j < list.len(),
        list[i].memory.features == list[j].memory.features,
        forall|k: int|
            0 <= k < list.len() && (#[trigger] list[k]).memory.features == list[j].memory.features
                ==> !text::precedes(list[j].memory.confirmed_at, list[k].memory.confirmed_at),
        list[i].memory.category + "\u{1f}"@ + list[i].memory.project_id + "\u{1f}"@
            + list[i].memory.task_id != list[j].memory.category + "\u{1f}"@
            + list[j].memory.project_id + "\u{1f}"@ + list[j].memory.task_id,
    ensures
        !recall::kept_memories(list).contains(list[i].memory),
{
    let keep = |item: CandidateView| recall::worth_keeping(list, item) && !item.idle;
    let kept = list.filter(keep);
    assert(recall::is_latest(list, list[j].memory));
    if recall::kept_memories(list).contains(list[i].memory) {
        let m = choose|m: int|
            0 <= m < kept.len() && recall::kept_memories(list)[m] == list[i].memory;
        list.lemma_filter_pred(keep, m);
        assert(kept[m].memory == list[i].memory);
        assert(recall::assignment(list[j].memory) == recall::assignment(list[i].memory));
        lemma_three_parts(
            list[i].memory.category,
            list[i].memory.project_id,
            list[i].memory.task_id,
        );
        lemma_three_parts(
            list[j].memory.category,
            list[j].memory.project_id,
            list[j].memory.task_id,
        );
    }
}

proof fn lemma_three_parts(a: Seq<char>, b: Seq<char>, c: Seq<char>)
    ensures
        text::concat_with(seq![a, b, c], "\u{1f}"@) == a + "\u{1f}"@ + b + "\u{1f}"@ + c,
{
    reveal_with_fuel(text::concat_with, 4);
    assert(seq![a, b, c].drop_last() =~= seq![a, b]);
    assert(seq![a, b].drop_last() =~= seq![a]);
    assert(seq![a].drop_last() =~= Seq::<Seq<char>>::empty());
}

/// A correction that stands alone in its batch is remembered, unless it stands under time away; so is
/// one of several that fixes the context itself.
pub proof fn single_corrections_are_remembered(list: Seq<CandidateView>, i: int)
    requires
        0 <= i < list.len(),
        !list[i].idle,
        forall|k: int|
            0 <= k < list.len() && k != i ==> (#[trigger] list[k]).memory.features
                != list[i].memory.features,
        list[i].anchored || list.len() == 1,
    ensures
        recall::kept_memories(list).contains(list[i].memory),
{
    let keep = |item: CandidateView| recall::worth_keeping(list, item) && !item.idle;
    let grouped = |other: CandidateView| other.group == list[i].group;
    assert forall|k: int|
        0 <= k < list.len() && (#[trigger] list[k]).memory.features == list[i].memory.features
            && recall::is_latest(list, list[k].memory) implies recall::assignment(list[k].memory)
        == recall::assignment(list[i].memory) by {
        assert(k == i);
    }
    if list.len() == 1 {
        list.lemma_filter_len(grouped);
    }
    assert(recall::worth_keeping(list, list[i]));
    list.lemma_filter_contains(keep, i);
    let kept = list.filter(keep);
    let m = choose|m: int| 0 <= m < kept.len() && kept[m] == list[i];
    assert(recall::kept_memories(list)[m] == list[i].memory);
}

/// Rebuilding remembers what confirmed work with a task still teaches, and every confident review that
/// may be remembered for now; nothing else.
pub proof fn rebuilding_remembers_both(
    rows: Seq<CorrectedView>,
    events: Seq<RawEventView>,
    settings: SettingsView,
    cutoff: Option<Seq<char>>,
    stored: StoredView,
)
    ensures
        recall::rebuilt(rows, events, settings, cutoff).contains(stored) <==> (
        recall::kept_memories(
            recall::candidates(
                rows.filter(|row: CorrectedView| recall::rebuilds(row)),
                events,
                settings,
                false,
            ),
        ).contains(stored) || exists|k: int|
            0 <= k < rows.len() && recall::provisional_memory(
                #[trigger] rows[k],
                events,
                settings,
                cutoff,
            ) == Some(stored)),
{
    let kept = recall::kept_memories(
        recall::candidates(
            rows.filter(|row: CorrectedView| recall::rebuilds(row)),
            events,
            settings,
            false,
        ),
    );
    let pick = |row: CorrectedView|
        recall::provisional_memory(row, events, settings, cutoff);
    let more = rows.filter_map(pick);
    let all = recall::rebuilt(rows, events, settings, cutoff);
    assert(all == kept + more);
    if kept.contains(stored) {
        let k = choose|k: int| 0 <= k < kept.len() && kept[k] == stored;
        assert(all[k] == stored);
    }
    if exists|k: int| 0 <= k < rows.len() && pick(#[trigger] rows[k]) == Some(stored) {
        let k = choose|k: int| 0 <= k < rows.len() && pick(#[trigger] rows[k]) == Some(stored);
        lists::lemma_picked(rows, pick, k);
        let m = choose|m: int| 0 <= m < more.len() && more[m] == stored;
        assert(all[kept.len() + m] == stored);
    }
    if all.contains(stored) && !kept.contains(stored) {
        let m = choose|m: int| 0 <= m < all.len() && all[m] == stored;
        if m < kept.len() {
            assert(kept[m] == stored);
        } else {
            assert(more[m - kept.len()] == stored);
        }
        rows.lemma_filter_map_contains(pick, stored);
        let row = choose|row: CorrectedView| #[trigger]
            rows.contains(row) && pick(row) == Some(stored);
        let k = choose|k: int| 0 <= k < rows.len() && rows[k] == row;
        assert(pick(rows[k]) == Some(stored));
    }
}

/// What is rebuilt from are confirmed sessions with a task that were not entered or merged by hand; a
/// rule is of the old kind unless it says that it is of the second.
pub proof fn rebuilding_starts_from_confirmed_work(row: CorrectedView, matcher: JsonView)
    ensures
        recall::rebuilds(row) <==> row.session.user_confirmed && row.session.source
            != "manual-entry"@ && row.session.source != "manual-merge"@ && row.session.task_id is Some,
        rules::legacy(matcher) <==> matcher.member_natural("generation"@) != Some(2u64),
{
}

} // verus!
