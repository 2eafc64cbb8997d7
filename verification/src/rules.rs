//! Rules learned from corrections: how they are made, merged and kept in normal form.
use vstd::prelude::*;
use vstd::string::*;

use crate::attribution::{RuleRow, RuleRowView};
use crate::json;
use crate::json::{JsonValue, JsonView};
use crate::labels;
use crate::lists;
use crate::memory;
use crate::models::{AttributionRule, EvidenceItem, EvidenceView, RuleView, SessionView, WorkSession};
use crate::sessions;
use crate::text;

verus! {

broadcast use vstd::seq_lib::group_seq_properties;

/// The program of a session without its suffix.
pub open spec fn rule_app(session: SessionView) -> Seq<char> {
    match sessions::first_value(session.evidence, "app"@) {
        Some(value) => text::lowercase(text::drop_suffixes(text::trimmed(value), ".exe"@)),
        None => Seq::empty(),
    }
}

fn read_rule_app(session: &WorkSession) -> (result: String)
    ensures
        result@ == rule_app(session@),
{
    proof {
        reveal_strlit(".exe");
    }
    match sessions::first_evidence_value(&session.evidence, "app") {
        Some(value) => text::trim_end_suffix(text::trim(value.as_str()).as_str(), ".exe").as_str().to_lowercase(),
        None => String::new(),
    }
}

/// The value of the first evidence that shows a page or a window.
pub open spec fn shown_title(items: Seq<EvidenceView>) -> Seq<char>
    decreases items.len(),
{
    if items.len() == 0 {
        Seq::empty()
    } else if items[0].kind == "page"@ || items[0].kind == "window"@ {
        text::trimmed(items[0].value)
    } else {
        shown_title(items.drop_first())
    }
}

pub fn read_shown_title(evidence: &Vec<EvidenceItem>) -> (result: String)
    ensures
        result@ == shown_title(crate::models::evidence_views(evidence@)),
{
    let ghost views = crate::models::evidence_views(evidence@);
    let mut i: usize = 0;
    assert(views.skip(0) =~= views);
    while i < evidence.len()
        invariant
            i <= evidence.len(),
            views == crate::models::evidence_views(evidence@),
            shown_title(views) == shown_title(views.skip(i as int)),
        decreases evidence.len() - i,
    {
        assert(views.skip(i as int)[0] == evidence@[i as int]@);
        if text::same(evidence[i].kind.as_str(), "page") || text::same(
            evidence[i].kind.as_str(),
            "window",
        ) {
            return text::trim(evidence[i].value.as_str());
        }
        assert(views.skip(i as int).drop_first() =~= views.skip(i + 1));
        i += 1;
    }
    String::new()
}

/// The keywords that the user gave, separated by commas or semicolons.
pub open spec fn given_keywords(keyword: Option<Seq<char>>) -> Seq<Seq<char>> {
    match keyword {
        Some(given) => if text::blank(given) {
            Seq::empty()
        } else {
            text::pieces(
                text::trimmed(given),
                |c: char| ",，;；"@.contains(c),
            ).filter_map(
                |piece: Seq<char>|
                    if text::trimmed(piece).len() >= 2 {
                        Some(text::prefix_of(text::trimmed(piece), 48))
                    } else {
                        None
                    },
            )
        },
        None => Seq::empty(),
    }
}

fn collect_given(keyword: &Option<String>) -> (result: Vec<String>)
    ensures
        text::texts(result@) == given_keywords(text::optional(*keyword)),
{
    let mut result: Vec<String> = Vec::new();
    assert(text::texts(result@) =~= Seq::empty());
    let given = match keyword {
        Some(given) => given,
        None => {
            return result;
        },
    };
    let trimmed = text::trim(given.as_str());
    if trimmed.as_str().is_empty() {
        return result;
    }
    let parts = text::split_any(trimmed.as_str(), ",，;；");
    let ghost all = text::texts(parts@);
    let ghost pick = |piece: Seq<char>|
        if text::trimmed(piece).len() >= 2 {
            Some(text::prefix_of(text::trimmed(piece), 48))
        } else {
            None
        };
    let mut i: usize = 0;
    assert(all.take(0) =~= Seq::empty());
    assert(text::texts(result@) =~= all.take(0).filter_map(pick));
    while i < parts.len()
        invariant
            i <= parts.len(),
            all == text::texts(parts@),
            pick == (|piece: Seq<char>|
                if text::trimmed(piece).len() >= 2 {
                    Some(text::prefix_of(text::trimmed(piece), 48))
                } else {
                    None
                }),
            text::texts(result@) == all.take(i as int).filter_map(pick),
        decreases parts.len() - i,
    {
        let ghost done = text::texts(result@);
        proof {
            all.lemma_filter_map_take_succ(pick, i as int);
        }
        let piece = text::trim(parts[i].as_str());
        if piece.as_str().unicode_len() >= 2 {
            result.push(text::take_chars(piece.as_str(), 48));
            assert(text::texts(result@) =~= done + seq![text::prefix_of(piece@, 48)]);
        }
        i += 1;
    }
    assert(all.take(parts.len() as int) =~= all);
    result
}

/// A name as a keyword, cut to 48 characters; nothing where it identifies nothing.
pub open spec fn name_keyword(name: Option<Seq<char>>) -> Seq<Seq<char>> {
    match name {
        Some(value) => match labels::memory_keyword(value) {
            Some(word) => seq![text::prefix_of(word, 48)],
            None => Seq::empty(),
        },
        None => Seq::empty(),
    }
}

/// The window title as a keyword, cut to 64 characters; nothing where it only names the program.
pub open spec fn title_keyword(title: Seq<char>, app: Seq<char>) -> Seq<Seq<char>> {
    match labels::memory_keyword(title) {
        Some(word) => {
            let lowered = text::lowercase(word);
            if lowered != app && !labels::generic_context(lowered) {
                seq![text::prefix_of(word, 64)]
            } else {
                Seq::empty()
            }
        },
        None => Seq::empty(),
    }
}

/// Everything that could identify the context of a session.
pub open spec fn raw_keywords(session: SessionView, keyword: Option<Seq<char>>) -> Seq<Seq<char>> {
    given_keywords(keyword) + name_keyword(session.project_name) + name_keyword(session.task_title)
        + title_keyword(shown_title(session.evidence), rule_app(session))
}

/// The context labels of the texts, without those that are empty.
pub open spec fn labels_of(list: Seq<Seq<char>>) -> Seq<Seq<char>> {
    list.map_values(|word: Seq<char>| memory::context_label(word)).filter(
        |word: Seq<char>| word.len() > 0,
    )
}

fn push_text(list: &mut Vec<String>, item: String)
    ensures
        text::texts(final(list)@) == text::texts(old(list)@).push(item@),
{
    let ghost before = text::texts(list@);
    list.push(item);
    assert(text::texts(list@) =~= before.push(item@));
}

fn push_name(list: &mut Vec<String>, name: &Option<String>)
    ensures
        text::texts(final(list)@) == text::texts(old(list)@) + name_keyword(text::optional(*name)),
{
    let ghost before = text::texts(list@);
    if let Some(value) = name {
        if let Some(word) = labels::context_memory_keyword(value.as_str()) {
            push_text(list, text::take_chars(word.as_str(), 48));
            assert(text::texts(list@) =~= before + seq![text::prefix_of(word@, 48)]);
            return;
        }
    }
    assert(before + Seq::<Seq<char>>::empty() =~= before);
}

fn collect_raw(session: &WorkSession, keyword: &Option<String>, app: &str) -> (result: Vec<String>)
    requires
        app@ == rule_app(session@),
    ensures
        text::texts(result@) == raw_keywords(session@, text::optional(*keyword)),
{
    let mut list = collect_given(keyword);
    push_name(&mut list, &session.project_name);
    push_name(&mut list, &session.task_title);
    let ghost before = text::texts(list@);
    let title = read_shown_title(&session.evidence);
    if let Some(word) = labels::context_memory_keyword(title.as_str()) {
        let lowered = word.as_str().to_lowercase();
        if !text::same(lowered.as_str(), app) && !labels::is_generic_context_label(
            lowered.as_str(),
        ) {
            push_text(&mut list, text::take_chars(word.as_str(), 64));
            assert(text::texts(list@) =~= before + seq![text::prefix_of(word@, 64)]);
            return list;
        }
    }
    assert(before + Seq::<Seq<char>>::empty() =~= before);
    list
}

fn label_all(list: &Vec<String>) -> (result: Vec<String>)
    ensures
        text::texts(result@) == labels_of(text::texts(list@)),
{
    let ghost mapped = text::texts(list@).map_values(
        |word: Seq<char>| memory::context_label(word),
    );
    let ghost keep = |word: Seq<char>| word.len() > 0;
    let mut result: Vec<String> = Vec::new();
    let mut i: usize = 0;
    assert(mapped.take(0).filter(keep) =~= Seq::empty()) by {
        reveal(Seq::filter);
    }
    while i < list.len()
        invariant
            i <= list.len(),
            mapped == text::texts(list@).map_values(
                |word: Seq<char>| memory::context_label(word),
            ),
            keep == (|word: Seq<char>| word.len() > 0),
            text::texts(result@) == mapped.take(i as int).filter(keep),
        decreases list.len() - i,
    {
        let word = memory::canonical_context(list[i].as_str());
        assert(mapped.take(i + 1) =~= mapped.take(i as int).push(word@));
        proof {
            mapped.take(i as int).lemma_filter_push(word@, keep);
        }
        if !word.as_str().is_empty() {
            push_text(&mut result, word);
        }
        i += 1;
    }
    assert(mapped.take(list.len() as int) =~= mapped);
    result
}

/// Two texts are the same keyword.
pub open spec fn keyword_key(word: Seq<char>) -> Seq<char> {
    text::lowercase(text::trimmed(word))
}

/// Some kept keyword is the same as `word`.
pub open spec fn keeps_key(kept: Seq<Seq<char>>, word: Seq<char>) -> bool {
    exists|k: int| 0 <= k < kept.len() && keyword_key(#[trigger] kept[k]) == keyword_key(word)
}

/// The keywords that identify something, each once.
pub open spec fn useful_keywords(list: Seq<Seq<char>>) -> Seq<Seq<char>>
    decreases list.len(),
{
    if list.len() == 0 {
        Seq::empty()
    } else {
        let before = useful_keywords(list.drop_last());
        if labels::noise(list.last()) || keeps_key(before, list.last()) {
            before
        } else {
            before.push(list.last())
        }
    }
}

fn has_key(kept: &Vec<String>, word: &str) -> (result: bool)
    ensures
        result == keeps_key(text::texts(kept@), word@),
{
    let ghost all = text::texts(kept@);
    let key = text::trim(word).as_str().to_lowercase();
    let mut i: usize = 0;
    while i < kept.len()
        invariant
            i <= kept.len(),
            all == text::texts(kept@),
            key@ == keyword_key(word@),
            forall|k: int| 0 <= k < i ==> keyword_key(#[trigger] all[k]) != keyword_key(word@),
        decreases kept.len() - i,
    {
        assert(all[i as int] == kept@[i as int]@);
        let other = text::trim(kept[i].as_str()).as_str().to_lowercase();
        if text::same(other.as_str(), key.as_str()) {
            return true;
        }
        i += 1;
    }
    false
}

fn keep_useful(list: &Vec<String>) -> (result: Vec<String>)
    ensures
        text::texts(result@) == useful_keywords(text::texts(list@)),
{
    let ghost all = text::texts(list@);
    let mut result: Vec<String> = Vec::new();
    let mut i: usize = 0;
    while i < list.len()
        invariant
            i <= list.len(),
            all == text::texts(list@),
            text::texts(result@) == useful_keywords(all.take(i as int)),
        decreases list.len() - i,
    {
        assert(all.take(i + 1).drop_last() =~= all.take(i as int));
        if !labels::is_context_memory_noise(list[i].as_str()) && !has_key(
            &result,
            list[i].as_str(),
        ) {
            push_text(&mut result, list[i].clone());
        }
        i += 1;
    }
    assert(all.take(list.len() as int) =~= all);
    result
}

/// At most `count` of the texts, from the front.
pub open spec fn at_most(list: Seq<Seq<char>>, count: nat) -> Seq<Seq<char>> {
    if list.len() <= count {
        list
    } else {
        list.take(count as int)
    }
}

fn truncate(list: Vec<String>, count: usize) -> (result: Vec<String>)
    ensures
        text::texts(result@) == at_most(text::texts(list@), count as nat),
{
    let mut result = list;
    let ghost before = text::texts(result@);
    result.truncate(count);
    assert(text::texts(result@) =~= at_most(before, count as nat));
    result
}

/// The listed keywords of a stored matcher.
pub open spec fn stored_keywords(matcher_json: Seq<char>) -> Seq<Seq<char>> {
    json::text_items(crate::attribution::matcher_view(matcher_json).member_items("keywords"@))
}

fn read_stored(matcher_json: &str) -> (result: Vec<String>)
    ensures
        text::texts(result@) == stored_keywords(matcher_json@),
{
    let matcher = match json::parse(matcher_json) {
        Some(value) => value,
        None => JsonValue::Null,
    };
    match matcher.items_of("keywords") {
        Some(items) => json::collect_texts(items),
        None => {
            let none: Vec<String> = Vec::new();
            assert(matcher@.member_items("keywords"@) =~= Seq::empty());
            assert(text::texts(none@) =~= json::text_items(Seq::empty()));
            none
        },
    }
}

/// The keywords followed by those of the rules, in order.
pub open spec fn with_stored(words: Seq<Seq<char>>, rules: Seq<RuleRowView>) -> Seq<Seq<char>>
    decreases rules.len(),
{
    if rules.len() == 0 {
        words
    } else {
        with_stored(words, rules.drop_last()) + stored_keywords(rules.last().matcher_json)
    }
}

fn extend_stored(words: Vec<String>, rules: &Vec<RuleRow>) -> (result: Vec<String>)
    ensures
        text::texts(result@) == with_stored(
            text::texts(words@),
            crate::attribution::rule_views(rules@),
        ),
{
    let ghost views = crate::attribution::rule_views(rules@);
    let ghost start = text::texts(words@);
    let mut result = words;
    let mut i: usize = 0;
    while i < rules.len()
        invariant
            i <= rules.len(),
            views == crate::attribution::rule_views(rules@),
            text::texts(result@) == with_stored(start, views.take(i as int)),
        decreases rules.len() - i,
    {
        assert(views.take(i + 1).drop_last() =~= views.take(i as int));
        assert(views.take(i + 1).last() == rules@[i as int]@);
        let ghost before = text::texts(result@);
        let mut more = read_stored(rules[i].matcher_json.as_str());
        let ghost added = text::texts(more@);
        result.append(&mut more);
        assert(text::texts(result@) =~= before + added);
        i += 1;
    }
    assert(views.take(rules.len() as int) =~= views);
    result
}

/// A list of texts as a JSON list.
pub open spec fn text_list(words: Seq<Seq<char>>) -> JsonView {
    JsonView::List(words.map_values(|word: Seq<char>| JsonView::Text(word)))
}

fn make_text_list(words: Vec<String>) -> (result: JsonValue)
    ensures
        result@ == text_list(text::texts(words@)),
{
    let ghost all = text::texts(words@);
    let mut items: Vec<JsonValue> = Vec::new();
    let mut i: usize = 0;
    while i < words.len()
        invariant
            i <= words.len(),
            all == text::texts(words@),
            items.len() == i,
            forall|k: int| 0 <= k < i ==> json::view_of(#[trigger] items@[k]) == JsonView::Text(all[k]),
        decreases words.len() - i,
    {
        items.push(JsonValue::Text(words[i].clone()));
        i += 1;
    }
    proof {
        json::lemma_list_view(items@);
        assert(json::list_view(items@) =~= all.map_values(
            |word: Seq<char>| JsonView::Text(word),
        )) by {
            assert forall|k: int| 0 <= k < items.len() implies #[trigger] json::list_view(items@)[k]
                == JsonView::Text(all[k]) by {
                assert(json::view_of(items@[k]) == JsonView::Text(all[k]));
            }
        }
    }
    JsonValue::List(items)
}

/// The matcher of a learned rule.
pub open spec fn learned_matcher(words: Seq<Seq<char>>, app: Option<Seq<char>>) -> JsonView {
    let rest = seq![("generation"@, JsonView::Natural(2)), ("keywords"@, text_list(words))];
    JsonView::Object(
        match app {
            Some(name) => seq![("app"@, JsonView::Text(name))] + rest,
            None => rest,
        },
    )
}

proof fn lemma_matcher_is_writable(words: Seq<Seq<char>>, app: Option<Seq<char>>)
    ensures
        json::writable(learned_matcher(words, app)),
{
    reveal_strlit("app");
    reveal_strlit("generation");
    reveal_strlit("keywords");
    let list = text_list(words);
    assert(json::writable(list)) by {
        let items = words.map_values(|word: Seq<char>| JsonView::Text(word));
        assert forall|i: int| 0 <= i < items.len() implies json::writable(#[trigger] items[i]) by {
            assert(items[i] == JsonView::Text(words[i]));
        }
    }
    assert(json::writable(JsonView::Natural(2)));
    if let Some(name) = app {
        assert(json::writable(JsonView::Text(name)));
    }
    reveal_with_fuel(text::precedes, 2);
    assert(text::precedes("app"@, "generation"@));
    assert(text::precedes("app"@, "keywords"@));
    assert(text::precedes("generation"@, "keywords"@));
}

fn make_matcher(words: Vec<String>, app: Option<String>) -> (result: JsonValue)
    ensures
        result@ == learned_matcher(text::texts(words@), text::optional(app)),
{
    let mut members: Vec<(String, JsonValue)> = Vec::new();
    if let Some(name) = app {
        members.push(("app".to_owned(), JsonValue::Text(name)));
    }
    members.push(("generation".to_owned(), JsonValue::Natural(2)));
    members.push(("keywords".to_owned(), make_text_list(words)));
    proof {
        json::lemma_member_view(members@);
        let rest = seq![
            ("generation"@, JsonView::Natural(2)),
            ("keywords"@, text_list(text::texts(words@))),
        ];
        match text::optional(app) {
            Some(name) => {
                assert(json::member_view(members@) =~= seq![("app"@, JsonView::Text(name))] + rest);
            },
            None => {
                assert(json::member_view(members@) =~= rest);
            },
        }
    }
    JsonValue::Object(members)
}

/// A rule that was learned, and the older rules that it replaces.
#[derive(Debug, PartialEq, Eq)]
pub struct LearnedRule {
    pub rule: AttributionRule,
    /// The rule takes the place of an older one with the same assignment.
    pub merged: bool,
    pub duplicates: Vec<String>,
}

fn is_same_or_empty(left: &Option<String>, right: &Option<String>) -> (result: bool)
    ensures
        result == (labels::or_empty(text::optional(*left)) == labels::or_empty(
            text::optional(*right),
        )),
{
    match (left, right) {
        (Some(a), Some(b)) => text::same(a.as_str(), b.as_str()),
        (Some(a), None) => {
            assert(a@.len() == 0 ==> a@ =~= Seq::empty());
            a.as_str().is_empty()
        },
        (None, Some(b)) => {
            assert(b@.len() == 0 ==> b@ =~= Seq::empty());
            b.as_str().is_empty()
        },
        (None, None) => true,
    }
}

/// The rule assigns what the session is assigned to.
pub open spec fn shares_rule_assignment(session: SessionView, rule: RuleRowView) -> bool {
    &&& labels::or_empty(rule.project_id) == labels::or_empty(session.project_id)
    &&& labels::or_empty(rule.task_id) == labels::or_empty(session.task_id)
    &&& rule.category == session.category
}

/// The rules with the assignment of the session, in the order in which they come.
pub fn rules_with_assignment(rules: Vec<RuleRow>, session: &WorkSession) -> (result: Vec<RuleRow>)
    ensures
        crate::attribution::rule_views(result@) == crate::attribution::rule_views(rules@).filter(
            |rule: RuleRowView| shares_rule_assignment(session@, rule),
        ),
{
    let ghost views = crate::attribution::rule_views(rules@);
    let ghost keep = |rule: RuleRowView| shares_rule_assignment(session@, rule);
    let mut result: Vec<RuleRow> = Vec::new();
    let mut i: usize = 0;
    assert(views.take(0).filter(keep) =~= Seq::empty()) by {
        reveal(Seq::filter);
    }
    while i < rules.len()
        invariant
            i <= rules.len(),
            views == crate::attribution::rule_views(rules@),
            keep == (|rule: RuleRowView| shares_rule_assignment(session@, rule)),
            crate::attribution::rule_views(result@) =~= views.take(i as int).filter(keep),
        decreases rules.len() - i,
    {
        let row = &rules[i];
        assert(views.take(i + 1) =~= views.take(i as int).push(row@));
        proof {
            views.take(i as int).lemma_filter_push(row@, keep);
        }
        if is_same_or_empty(&row.project_id, &session.project_id) && is_same_or_empty(
            &row.task_id,
            &session.task_id,
        ) && text::same(row.category.as_str(), session.category.as_str()) {
            let ghost before = crate::attribution::rule_views(result@);
            result.push(
                RuleRow {
                    id: row.id.clone(),
                    name: row.name.clone(),
                    priority: row.priority,
                    matcher_json: row.matcher_json.clone(),
                    project_id: row.project_id.clone(),
                    task_id: row.task_id.clone(),
                    category: row.category.clone(),
                    updated_at: row.updated_at.clone(),
                },
            );
            assert(crate::attribution::rule_views(result@) =~= before.push(row@));
        }
        i += 1;
    }
    assert(views.take(rules.len() as int) =~= views);
    result
}

/// The first of the rules whose matcher is stored as the text of this document.
pub open spec fn known(older: Seq<RuleRowView>, matcher: JsonView) -> Option<RuleRowView>
    decreases older.len(),
{
    if older.len() == 0 {
        None
    } else if older[0].matcher_json == json::document_text(matcher) {
        Some(older[0])
    } else {
        known(older.skip(1), matcher)
    }
}

fn find_known(older: &Vec<RuleRow>, matcher: &JsonValue) -> (result: Option<usize>)
    requires
        json::writable(matcher@),
    ensures
        match result {
            Some(i) => i < older.len() && known(
                crate::attribution::rule_views(older@),
                matcher@,
            ) == Some(older@[i as int]@),
            None => known(crate::attribution::rule_views(older@), matcher@) is None,
        },
{
    let ghost views = crate::attribution::rule_views(older@);
    let wanted = json::write_document(matcher);
    let mut i: usize = 0;
    assert(views.skip(0) =~= views);
    while i < older.len()
        invariant
            i <= older.len(),
            views == crate::attribution::rule_views(older@),
            wanted@ == json::document_text(matcher@),
            known(views, matcher@) == known(views.skip(i as int), matcher@),
        decreases older.len() - i,
    {
        assert(views.skip(i as int)[0] == older@[i as int]@);
        assert(views.skip(i as int).skip(1) =~= views.skip(i + 1));
        if text::same(older[i].matcher_json.as_str(), wanted.as_str()) {
            return Some(i);
        }
        i += 1;
    }
    None
}

/// The session has a task that older rules assign already.
pub open spec fn joins_older(session: SessionView, older: Seq<RuleRowView>) -> bool {
    session.task_id is Some && older.len() > 0
}

/// The rule that a session teaches. `words` are its keywords and `older` the rules with its
/// assignment, latest first. For a task the keywords join those of the older rules; otherwise a
/// rule with the same matcher is taught again.
pub open spec fn taught_rule(
    session: SessionView,
    words: Seq<Seq<char>>,
    older: Seq<RuleRowView>,
    new_id: Seq<char>,
    rule: RuleView,
) -> bool {
    let merging = joins_older(session, older);
    let app = rule_app(session);
    &&& rule.id == (if merging {
        older[0].id
    } else {
        match known(older, rule.matcher) {
            Some(row) => row.id,
            None => new_id,
        }
    })
    &&& rule.name == "自动学习："@ + text::prefix_of(session.summary, 24)
    &&& rule.priority == 90
    &&& rule.matcher == (if merging {
        learned_matcher(at_most(useful_keywords(with_stored(words, older)), 48), None)
    } else if app.len() > 0 && session.task_id is None {
        learned_matcher(words, Some(app))
    } else {
        learned_matcher(words, None)
    })
    &&& rule.project_id == session.project_id
    &&& rule.task_id == session.task_id
    &&& rule.category == session.category
    &&& rule.created_from_correction
    &&& rule.enabled
}

/// The labels that a session is recognised by, with the keyword that the user gave.
pub open spec fn taught_labels(session: SessionView, keyword: Option<Seq<char>>) -> Seq<Seq<char>> {
    labels_of(raw_keywords(session, keyword))
}

/// What is learned from a session: the rule, whether it takes the place of an older one, and the
/// ids of the rules that it makes superfluous.
pub open spec fn teaches(
    session: SessionView,
    keyword: Option<Seq<char>>,
    older: Seq<RuleRowView>,
    new_id: Seq<char>,
    rule: RuleView,
    merged: bool,
    duplicates: Seq<Seq<char>>,
) -> bool {
    &&& taught_labels(session, keyword).len() > 0
    &&& merged == (joins_older(session, older) || known(older, rule.matcher) is Some)
    &&& duplicates == if joins_older(session, older) {
        older.skip(1).map_values(|row: RuleRowView| row.id)
    } else {
        Seq::empty()
    }
    &&& exists|words: Seq<Seq<char>>|
        memory::sorted_set(words, taught_labels(session, keyword)) && #[trigger] taught_rule(
            session,
            words,
            older,
            new_id,
            rule,
        )
}

/// Learns a rule from a session, with the keyword that the user gave. Nothing is learned where the
/// context has no label to recognise it by. `older` are the enabled learned rules with the
/// session's assignment, latest first.
pub fn learn_rule_from_session(
    session: &WorkSession,
    keyword: &Option<String>,
    older: &Vec<RuleRow>,
    new_id: &str,
) -> (result: Option<LearnedRule>)
    ensures
        match result {
            Some(learned) => teaches(
                session@,
                text::optional(*keyword),
                crate::attribution::rule_views(older@),
                new_id@,
                learned.rule@,
                learned.merged,
                text::texts(learned.duplicates@),
            ),
            None => taught_labels(session@, text::optional(*keyword)).len() == 0,
        },
{
    let app = read_rule_app(session);
    let raw = collect_raw(session, keyword, app.as_str());
    let labelled = label_all(&raw);
    assert(text::texts(labelled@).len() == labelled.len());
    if labelled.len() == 0 {
        return None;
    }
    let words = text::sort_unique(&labelled);
    let ghost sorted = text::texts(words@);
    let name = text::joined(
        "自动学习：",
        text::take_chars(session.summary.as_str(), 24).as_str(),
    );
    let joining = session.task_id.is_some() && older.len() > 0;
    let mut merged = joining;
    let mut duplicates: Vec<String> = Vec::new();
    let mut id = new_id.to_owned();
    let ghost views = crate::attribution::rule_views(older@);
    assert(text::texts(duplicates@) =~= Seq::empty());
    let matcher = if joining {
        assert(views[0] == older@[0]@);
        id = older[0].id.clone();
        collect_duplicates(older, &mut duplicates);
        let all = extend_stored(words, older);
        make_matcher(truncate(keep_useful(&all), 48), None)
    } else if !app.as_str().is_empty() && session.task_id.is_none() {
        make_matcher(words, Some(app))
    } else {
        make_matcher(words, None)
    };
    if !joining {
        proof {
            if app@.len() > 0 && session@.task_id is None {
                lemma_matcher_is_writable(sorted, Some(app@));
            } else {
                lemma_matcher_is_writable(sorted, None);
            }
        }
        if let Some(found) = find_known(older, &matcher) {
            id = older[found].id.clone();
            merged = true;
        }
    }
    let rule = AttributionRule {
        id,
        name,
        priority: 90,
        matcher,
        project_id: session.project_id.clone(),
        task_id: session.task_id.clone(),
        category: session.category.clone(),
        created_from_correction: true,
        enabled: true,
    };
    assert(taught_rule(session@, sorted, views, new_id@, rule@));
    Some(LearnedRule { rule, merged, duplicates })
}

/// The rules of an assignment once a learned rule is stored as `row`: it is the latest, and
/// stands for the one whose id it has and for those that it makes superfluous.
pub open spec fn rules_after(
    older: Seq<RuleRowView>,
    row: RuleRowView,
    duplicates: Seq<Seq<char>>,
) -> Seq<RuleRowView> {
    seq![row] + older.filter(
        |other: RuleRowView| other.id != row.id && !duplicates.contains(other.id),
    )
}

/// Learning twice from one session keeps one rule: the second time the rule that the first time
/// taught is taught again, and no rule is added. For a session with a task it is the only rule of
/// its assignment; for one without, its matcher stays as it was.
pub proof fn learning_twice_keeps_one_rule(
    session: SessionView,
    keyword: Option<Seq<char>>,
    older: Seq<RuleRowView>,
    first_id: Seq<char>,
    first: RuleView,
    first_merged: bool,
    first_duplicates: Seq<Seq<char>>,
    first_row: RuleRowView,
    second_id: Seq<char>,
    second: RuleView,
    second_merged: bool,
    second_duplicates: Seq<Seq<char>>,
    second_row: RuleRowView,
)
    requires
        teaches(session, keyword, older, first_id, first, first_merged, first_duplicates),
        first_row.id == first.id,
        first_row.matcher_json == json::document_text(first.matcher),
        teaches(
            session,
            keyword,
            rules_after(older, first_row, first_duplicates),
            second_id,
            second,
            second_merged,
            second_duplicates,
        ),
        second_row.id == second.id,
    ensures
        second_merged,
        second.id == first.id,
        rules_after(
            rules_after(older, first_row, first_duplicates),
            second_row,
            second_duplicates,
        ).len() == rules_after(older, first_row, first_duplicates).len(),
        session.task_id is Some ==> rules_after(older, first_row, first_duplicates) =~= seq![
            first_row,
        ],
        session.task_id is None ==> second.matcher == first.matcher,
{
    let labels = taught_labels(session, keyword);
    let keep = |other: RuleRowView| other.id != first_row.id && !first_duplicates.contains(other.id);
    let rest = older.filter(keep);
    let after = rules_after(older, first_row, first_duplicates);
    let words = choose|words: Seq<Seq<char>>|
        memory::sorted_set(words, labels) && #[trigger] taught_rule(
            session,
            words,
            older,
            first_id,
            first,
        );
    let again = choose|words: Seq<Seq<char>>|
        memory::sorted_set(words, labels) && #[trigger] taught_rule(
            session,
            words,
            after,
            second_id,
            second,
        );
    text::lemma_increasing_unique(words, again);
    assert(after[0] == first_row);
    if session.task_id is Some {
        assert forall|i: int| 0 <= i < older.len() implies !keep(#[trigger] older[i]) by {
            if i > 0 {
                let ids = older.skip(1).map_values(|row: RuleRowView| row.id);
                assert(ids[i - 1] == older[i].id);
            }
        }
        lists::lemma_filter_uniform(older, keep);
        assert(after =~= seq![first_row]);
        assert(second_duplicates =~= Seq::empty());
    } else {
        assert(first.matcher == second.matcher);
    }
    let keep_again = |other: RuleRowView|
        other.id != second_row.id && !second_duplicates.contains(other.id);
    assert(after.filter(keep_again) =~= rest) by {
        assert forall|i: int| 0 <= i < rest.len() implies keep_again(#[trigger] rest[i]) by {
            older.lemma_filter_pred(keep, i);
        }
        lists::lemma_filter_uniform(rest, keep_again);
        lists::lemma_filter_uniform(seq![first_row], keep_again);
        Seq::filter_distributes_over_add(seq![first_row], rest, keep_again);
    }
}

/// Collects the ids of all rules but the first.
fn collect_duplicates(rules: &Vec<RuleRow>, duplicates: &mut Vec<String>)
    requires
        rules.len() > 0,
        old(duplicates)@.len() == 0,
    ensures
        text::texts(final(duplicates)@) == crate::attribution::rule_views(rules@).skip(1).map_values(
            |rule: RuleRowView| rule.id,
        ),
{
    let ghost views = crate::attribution::rule_views(rules@);
    let ghost ids = views.skip(1).map_values(|rule: RuleRowView| rule.id);
    let mut i: usize = 1;
    assert(text::texts(duplicates@) =~= ids.take(0));
    while i < rules.len()
        invariant
            1 <= i <= rules.len(),
            views == crate::attribution::rule_views(rules@),
            ids == views.skip(1).map_values(|rule: RuleRowView| rule.id),
            text::texts(duplicates@) == ids.take(i - 1),
        decreases rules.len() - i,
    {
        assert(views[i as int] == rules@[i as int]@);
        push_text(duplicates, rules[i].id.clone());
        assert(text::texts(duplicates@) =~= ids.take(i as int));
        i += 1;
    }
    assert(ids.take(rules.len() - 1) =~= ids);
}

/// Merged keywords are at most 48, none of them is noise, and no two are the same.
pub proof fn merged_keywords_are_useful(list: Seq<Seq<char>>)
    ensures
        at_most(useful_keywords(list), 48).len() <= 48,
        forall|i: int|
            0 <= i < useful_keywords(list).len() ==> !labels::noise(
                #[trigger] useful_keywords(list)[i],
            ),
        forall|i: int, j: int|
            0 <= i < j < useful_keywords(list).len() ==> keyword_key(
                #[trigger] useful_keywords(list)[i],
            ) != keyword_key(#[trigger] useful_keywords(list)[j]),
    decreases list.len(),
{
    if list.len() > 0 {
        merged_keywords_are_useful(list.drop_last());
    }
}

/// The texts, trimmed, without those that are blank.
pub open spec fn trimmed_all(list: Seq<Seq<char>>) -> Seq<Seq<char>> {
    list.map_values(|word: Seq<char>| text::trimmed(word)).filter(|word: Seq<char>| word.len() > 0)
}

fn trim_all(list: &Vec<String>) -> (result: Vec<String>)
    ensures
        text::texts(result@) == trimmed_all(text::texts(list@)),
{
    let ghost mapped = text::texts(list@).map_values(|word: Seq<char>| text::trimmed(word));
    let ghost keep = |word: Seq<char>| word.len() > 0;
    let mut result: Vec<String> = Vec::new();
    let mut i: usize = 0;
    assert(mapped.take(0).filter(keep) =~= Seq::empty()) by {
        reveal(Seq::filter);
    }
    while i < list.len()
        invariant
            i <= list.len(),
            mapped == text::texts(list@).map_values(|word: Seq<char>| text::trimmed(word)),
            keep == (|word: Seq<char>| word.len() > 0),
            text::texts(result@) == mapped.take(i as int).filter(keep),
        decreases list.len() - i,
    {
        let word = text::trim(list[i].as_str());
        assert(mapped.take(i + 1) =~= mapped.take(i as int).push(word@));
        proof {
            mapped.take(i as int).lemma_filter_push(word@, keep);
        }
        if !word.as_str().is_empty() {
            push_text(&mut result, word);
        }
        i += 1;
    }
    assert(mapped.take(list.len() as int) =~= mapped);
    result
}

/// The context labels of a matcher's keywords.
pub open spec fn matcher_labels(matcher: JsonView) -> Seq<Seq<char>> {
    let listed = labels_of(trimmed_all(json::text_items(matcher.member_items("keywords"@))));
    match matcher.member_text("keyword"@) {
        Some(word) => {
            let label = memory::context_label(text::trimmed(word));
            if text::blank(word) || label.len() == 0 {
                listed
            } else {
                listed.push(label)
            }
        },
        None => listed,
    }
}

fn collect_matcher_labels(matcher: &JsonValue) -> (result: Vec<String>)
    ensures
        text::texts(result@) == matcher_labels(matcher@),
{
    let items = match matcher.items_of("keywords") {
        Some(items) => json::collect_texts(items),
        None => {
            let none: Vec<String> = Vec::new();
            assert(matcher@.member_items("keywords"@) =~= Seq::empty());
            assert(text::texts(none@) =~= json::text_items(Seq::empty()));
            none
        },
    };
    let mut result = label_all(&trim_all(&items));
    if let Some(word) = matcher.text_of("keyword") {
        let trimmed = text::trim(word.as_str());
        if !trimmed.as_str().is_empty() {
            let label = memory::canonical_context(trimmed.as_str());
            if !label.as_str().is_empty() {
                push_text(&mut result, label);
            }
        }
    }
    result
}

/// Some kept text has the same lower-case form.
pub open spec fn keeps_lower(kept: Seq<Seq<char>>, word: Seq<char>) -> bool {
    exists|k: int|
        0 <= k < kept.len() && text::lowercase(#[trigger] kept[k]) == text::lowercase(word)
}

/// The texts without those whose lower-case form came before.
pub open spec fn distinct_lower(list: Seq<Seq<char>>) -> Seq<Seq<char>>
    decreases list.len(),
{
    if list.len() == 0 {
        Seq::empty()
    } else {
        let before = distinct_lower(list.drop_last());
        if keeps_lower(before, list.last()) {
            before
        } else {
            before.push(list.last())
        }
    }
}

/// Puts a text behind all whose lower-case form does not come later.
pub open spec fn insert_lower(sorted: Seq<Seq<char>>, word: Seq<char>) -> Seq<Seq<char>>
    decreases sorted.len(),
{
    if sorted.len() == 0 || !text::precedes(
        text::lowercase(word),
        text::lowercase(sorted.last()),
    ) {
        sorted.push(word)
    } else {
        insert_lower(sorted.drop_last(), word).push(sorted.last())
    }
}

/// The texts in the order of their lower-case forms.
pub open spec fn sorted_lower(list: Seq<Seq<char>>) -> Seq<Seq<char>>
    decreases list.len(),
{
    if list.len() == 0 {
        Seq::empty()
    } else {
        insert_lower(sorted_lower(list.drop_last()), list.last())
    }
}

fn has_lower(kept: &Vec<String>, word: &str) -> (result: bool)
    ensures
        result == keeps_lower(text::texts(kept@), word@),
{
    let ghost all = text::texts(kept@);
    let lowered = word.to_lowercase();
    let mut i: usize = 0;
    while i < kept.len()
        invariant
            i <= kept.len(),
            all == text::texts(kept@),
            lowered@ == text::lowercase(word@),
            forall|k: int|
                0 <= k < i ==> text::lowercase(#[trigger] all[k]) != text::lowercase(word@),
        decreases kept.len() - i,
    {
        assert(all[i as int] == kept@[i as int]@);
        if text::same(kept[i].as_str().to_lowercase().as_str(), lowered.as_str()) {
            return true;
        }
        i += 1;
    }
    false
}

fn keep_distinct_lower(list: &Vec<String>) -> (result: Vec<String>)
    ensures
        text::texts(result@) == distinct_lower(text::texts(list@)),
{
    let ghost all = text::texts(list@);
    let mut result: Vec<String> = Vec::new();
    let mut i: usize = 0;
    while i < list.len()
        invariant
            i <= list.len(),
            all == text::texts(list@),
            text::texts(result@) == distinct_lower(all.take(i as int)),
        decreases list.len() - i,
    {
        assert(all.take(i + 1).drop_last() =~= all.take(i as int));
        if !has_lower(&result, list[i].as_str()) {
            push_text(&mut result, list[i].clone());
        }
        i += 1;
    }
    assert(all.take(list.len() as int) =~= all);
    result
}

fn put_lower(sorted: &mut Vec<String>, word: &str)
    ensures
        text::texts(final(sorted)@) == insert_lower(text::texts(old(sorted)@), word@),
{
    let ghost before = text::texts(sorted@);
    let lowered = word.to_lowercase();
    let mut at: usize = sorted.len();
    assert(before.take(at as int) =~= before);
    assert(insert_lower(before.take(at as int), word@) + before.skip(at as int) =~= insert_lower(
        before,
        word@,
    ));
    while at > 0 && text::less(
        lowered.as_str(),
        sorted[at - 1].as_str().to_lowercase().as_str(),
    )
        invariant
            at <= sorted.len(),
            before == text::texts(sorted@),
            lowered@ == text::lowercase(word@),
            insert_lower(before.take(at as int), word@) + before.skip(at as int) == insert_lower(
                before,
                word@,
            ),
        decreases at,
    {
        let ghost head = before.take(at as int);
        assert(head.drop_last() =~= before.take(at - 1));
        assert(head.last() == sorted@[at - 1]@);
        assert(insert_lower(head.drop_last(), word@).push(head.last()) + before.skip(at as int)
            =~= insert_lower(before.take(at - 1), word@) + before.skip(at - 1));
        at -= 1;
    }
    proof {
        if at > 0 {
            assert(before.take(at as int).last() == sorted@[at - 1]@);
        }
        assert(insert_lower(before.take(at as int), word@) == before.take(at as int).push(word@));
        assert(before.take(at as int).push(word@) + before.skip(at as int) =~= before.insert(
            at as int,
            word@,
        ));
    }
    sorted.insert(at, word.to_owned());
    assert(text::texts(sorted@) =~= before.insert(at as int, word@));
}

fn sort_lower(list: &Vec<String>) -> (result: Vec<String>)
    ensures
        text::texts(result@) == sorted_lower(text::texts(list@)),
{
    let ghost all = text::texts(list@);
    let mut result: Vec<String> = Vec::new();
    let mut i: usize = 0;
    while i < list.len()
        invariant
            i <= list.len(),
            all == text::texts(list@),
            text::texts(result@) == sorted_lower(all.take(i as int)),
        decreases list.len() - i,
    {
        assert(all.take(i + 1).drop_last() =~= all.take(i as int));
        put_lower(&mut result, list[i].as_str());
        i += 1;
    }
    assert(all.take(list.len() as int) =~= all);
    result
}

/// The keywords of a matcher in normal form.
pub open spec fn normal_keywords(matcher: JsonView) -> Seq<Seq<char>> {
    at_most(sorted_lower(distinct_lower(matcher_labels(matcher))), 32)
}

/// The normal form of a matcher: its keywords as one list of context labels, and no program where
/// the rule leads to a task.
pub open spec fn normal_matcher(matcher: JsonView, has_task: bool) -> JsonView {
    match matcher {
        JsonView::Object(members) => {
            let kept = if has_task {
                json::without_member(members, "app"@)
            } else {
                members
            };
            JsonView::Object(
                json::with_member(
                    json::without_member(kept, "keyword"@),
                    "keywords"@,
                    text_list(normal_keywords(matcher)),
                ),
            )
        },
        _ => matcher,
    }
}

pub fn normalize_matcher(matcher: JsonValue, has_task: bool) -> (result: JsonValue)
    ensures
        result@ == normal_matcher(matcher@, has_task),
{
    let found = collect_matcher_labels(&matcher);
    let words = truncate(sort_lower(&keep_distinct_lower(&found)), 32);
    match matcher {
        JsonValue::Object(start) => {
            let mut members = start;
            if has_task {
                json::remove_member(&mut members, "app");
            }
            json::remove_member(&mut members, "keyword");
            json::put_member(&mut members, "keywords", make_text_list(words));
            JsonValue::Object(members)
        },
        other => other,
    }
}

/// The document of a stored matcher, an empty object where it cannot be read.
pub open spec fn stored_matcher(matcher_json: Seq<char>) -> JsonView {
    match json::document(matcher_json) {
        Some(view) => view,
        None => JsonView::Object(Seq::empty()),
    }
}

/// What a stored rule matches in normal form.
pub open spec fn normal_rule_matcher(rule: RuleRowView) -> JsonView {
    normal_matcher(stored_matcher(rule.matcher_json), rule.task_id is Some)
}

/// Two rules say the same once their matchers are in normal form.
pub open spec fn same_rule(left: RuleRowView, right: RuleRowView) -> bool {
    &&& normal_rule_matcher(left) == normal_rule_matcher(right)
    &&& left.project_id == right.project_id
    &&& left.task_id == right.task_id
    &&& left.category == right.category
}

/// An earlier rule says the same.
pub open spec fn repeats_earlier(rules: Seq<RuleRowView>, i: int) -> bool {
    exists|j: int| 0 <= j < i && same_rule(#[trigger] rules[j], rules[i])
}

/// What becomes of a rule: its matcher in normal form, or nothing where it goes.
#[derive(Debug, PartialEq, Eq)]
pub struct NormalizedRule {
    pub id: String,
    pub matcher: Option<JsonValue>,
}

/// The outcome for rule `i`.
pub open spec fn normalizes(rules: Seq<RuleRowView>, i: int, outcome: NormalizedRule) -> bool {
    &&& outcome.id@ == rules[i].id
    &&& match outcome.matcher {
        Some(matcher) => !repeats_earlier(rules, i) && matcher@ == normal_rule_matcher(rules[i]),
        None => repeats_earlier(rules, i),
    }
}

fn read_normal(rule: &RuleRow) -> (result: JsonValue)
    ensures
        result@ == normal_rule_matcher(rule@),
{
    let stored = match json::parse(rule.matcher_json.as_str()) {
        Some(value) => value,
        None => {
            let none: Vec<(String, JsonValue)> = Vec::new();
            assert(json::member_view(none@) =~= Seq::empty());
            JsonValue::Object(none)
        },
    };
    normalize_matcher(stored, rule.task_id.is_some())
}

/// Brings learned rules into normal form and drops those that repeat an earlier one.
pub fn normalize_correction_rules(rules: &Vec<RuleRow>) -> (result: Vec<NormalizedRule>)
    ensures
        result.len() == rules.len(),
        forall|i: int|
            0 <= i < rules.len() ==> normalizes(
                crate::attribution::rule_views(rules@),
                i,
                #[trigger] result@[i],
            ),
{
    let ghost views = crate::attribution::rule_views(rules@);
    let mut matchers: Vec<JsonValue> = Vec::new();
    let mut i: usize = 0;
    while i < rules.len()
        invariant
            i <= rules.len(),
            views == crate::attribution::rule_views(rules@),
            matchers.len() == i,
            forall|k: int|
                0 <= k < i ==> (#[trigger] matchers@[k])@ == normal_rule_matcher(views[k]),
        decreases rules.len() - i,
    {
        assert(views[i as int] == rules@[i as int]@);
        matchers.push(read_normal(&rules[i]));
        i += 1;
    }
    let mut result: Vec<NormalizedRule> = Vec::new();
    let mut n: usize = 0;
    while n < rules.len()
        invariant
            n <= rules.len(),
            views == crate::attribution::rule_views(rules@),
            matchers.len() == rules.len(),
            forall|k: int|
                0 <= k < rules.len() ==> (#[trigger] matchers@[k])@ == normal_rule_matcher(
                    views[k],
                ),
            result.len() == n,
            forall|k: int| 0 <= k < n ==> normalizes(views, k, #[trigger] result@[k]),
        decreases rules.len() - n,
    {
        assert(views[n as int] == rules@[n as int]@);
        let repeated = has_earlier(rules, &matchers, n);
        let matcher = if repeated {
            None
        } else {
            Some(read_normal(&rules[n]))
        };
        result.push(NormalizedRule { id: rules[n].id.clone(), matcher });
        n += 1;
    }
    result
}

fn has_earlier(rules: &Vec<RuleRow>, matchers: &Vec<JsonValue>, n: usize) -> (result: bool)
    requires
        n < rules.len(),
        matchers.len() == rules.len(),
        forall|k: int|
            0 <= k < rules.len() ==> (#[trigger] matchers@[k])@ == normal_rule_matcher(
                crate::attribution::rule_views(rules@)[k],
            ),
    ensures
        result == repeats_earlier(crate::attribution::rule_views(rules@), n as int),
{
    let ghost views = crate::attribution::rule_views(rules@);
    let mut j: usize = 0;
    while j < n
        invariant
            j <= n < rules.len(),
            matchers.len() == rules.len(),
            views == crate::attribution::rule_views(rules@),
            forall|k: int|
                0 <= k < rules.len() ==> (#[trigger] matchers@[k])@ == normal_rule_matcher(
                    views[k],
                ),
            forall|k: int| 0 <= k < j ==> !same_rule(#[trigger] views[k], views[n as int]),
        decreases n - j,
    {
        assert(views[j as int] == rules@[j as int]@);
        assert(views[n as int] == rules@[n as int]@);
        assert(matchers@[j as int]@ == normal_rule_matcher(views[j as int]));
        assert(matchers@[n as int]@ == normal_rule_matcher(views[n as int]));
        if json::same_value(&matchers[j], &matchers[n]) && text::same_optional(
            &rules[j].project_id,
            &rules[n].project_id,
        ) && text::same_optional(&rules[j].task_id, &rules[n].task_id) && text::same(
            rules[j].category.as_str(),
            rules[n].category.as_str(),
        ) {
            assert(same_rule(views[j as int], views[n as int]));
            return true;
        }
        j += 1;
    }
    false
}

/// No two rules that stay say the same.
pub proof fn normalized_rules_are_distinct(rules: Seq<RuleRowView>, i: int, j: int)
    requires
        0 <= i < j < rules.len(),
        !repeats_earlier(rules, j),
    ensures
        !same_rule(rules[i], rules[j]),
{
}

/// Normal keywords are at most 32.
pub proof fn normal_keywords_are_bounded(matcher: JsonView)
    ensures
        normal_keywords(matcher).len() <= 32,
{
}

/// A rule from before the current generation of learned rules.
pub open spec fn legacy(matcher: JsonView) -> bool {
    matcher.member_natural("generation"@) != Some(2u64)
}

/// A stored matcher that can be read and is from before the current generation.
pub fn is_legacy_rule(matcher_json: &str) -> (result: bool)
    ensures
        result == (json::document(matcher_json@) matches Some(matcher) && legacy(matcher)),
{
    match json::parse(matcher_json) {
        Some(matcher) => match matcher.natural_of("generation") {
            Some(generation) => generation != 2,
            None => true,
        },
        None => false,
    }
}

} // verus!
