//! Promises of attributing activity to a category, a project and a task.
use vstd::prelude::*;

use crate::attribution;
use crate::attribution::RuleRowView;
use crate::clock;
use crate::clock::Moment;
use crate::json;
use crate::json::JsonView;
use crate::lists;
use crate::memory::MemoryDecision;
use crate::models::{ContextPinView, RawEventView, SettingsView};
use crate::text;

verus! {

broadcast use vstd::seq_lib::group_seq_properties;

/// A text that may be missing.
pub open spec fn or_nothing(value: Option<Seq<char>>) -> Seq<char> {
    match value {
        Some(inner) => inner,
        None => Seq::empty(),
    }
}

/// What a rule asks of a part of the observation, in lower case.
pub open spec fn asked(rule: RuleRowView, part: Seq<char>) -> Seq<char> {
    match json::document(rule.matcher_json) {
        Some(matcher) => text::lowercase(or_nothing(matcher.member_text(part))),
        None => text::lowercase(Seq::empty()),
    }
}

/// The word is one of the rule's keywords, in lower case.
pub open spec fn is_keyword(rule: RuleRowView, word: Seq<char>) -> bool {
    json::document(rule.matcher_json) matches Some(matcher) && {
        ||| word.len() > 0 && exists|k: int|
            0 <= k < matcher.member_items("keywords"@).len() && (
            #[trigger] matcher.member_items("keywords"@)[k] matches JsonView::Text(listed) && word
                == text::lowercase(listed))
        ||| matcher.member_text("keyword"@) matches Some(single) && text::trimmed(single).len() > 0
            && word == text::lowercase(single)
    }
}

/// What the observation shows, in lower case: program, title, address and file.
pub open spec fn shown(event: RawEventView) -> Seq<char> {
    text::lowercase(
        or_nothing(event.app) + " "@ + or_nothing(event.window_title) + " "@ + or_nothing(
            event.url,
        ) + " "@ + or_nothing(event.file_path),
    )
}

/// What the rule asks of a part occurs there, or it asks nothing.
pub open spec fn is_met(wanted: Seq<char>, value: Option<Seq<char>>) -> bool {
    wanted.len() > 0 ==> text::occurs(text::lowercase(or_nothing(value)), wanted)
}

/// The rule asks something, and all that it asks is met: the program, the address and the workspace
/// that it names, and one of its keywords where it has any.
pub open spec fn is_satisfied(rule: RuleRowView, event: RawEventView) -> bool {
    &&& (exists|word: Seq<char>| #[trigger] is_keyword(rule, word)) || asked(rule, "app"@).len() > 0
        || asked(rule, "domain"@).len() > 0 || asked(rule, "workspace"@).len() > 0
    &&& (exists|word: Seq<char>| #[trigger] is_keyword(rule, word)) ==> exists|word: Seq<char>|
        #[trigger] is_keyword(rule, word) && word.len() > 0 && text::occurs(shown(event), word)
    &&& is_met(asked(rule, "app"@), event.app)
    &&& is_met(asked(rule, "domain"@), event.url)
    &&& is_met(asked(rule, "workspace"@), event.workspace)
}

/// `length` is that of the longest keyword that occurs, zero where none does.
pub open spec fn is_longest(rule: RuleRowView, event: RawEventView, length: nat) -> bool {
    &&& forall|word: Seq<char>| #[trigger]
        is_keyword(rule, word) && text::occurs(shown(event), word) ==> word.len() <= length
    &&& length > 0 ==> exists|word: Seq<char>| #[trigger]
        is_keyword(rule, word) && text::occurs(shown(event), word) && word.len() == length
}

/// How many parts of the observation the rule names.
pub open spec fn named_parts(rule: RuleRowView) -> int {
    (if asked(rule, "app"@).len() > 0 {
        1int
    } else {
        0int
    }) + (if asked(rule, "domain"@).len() > 0 {
        1int
    } else {
        0int
    }) + (if asked(rule, "workspace"@).len() > 0 {
        1int
    } else {
        0int
    })
}

proof fn lemma_missing_matcher()
    ensures
        forall|key: Seq<char>| #[trigger] JsonView::Null.member_text(key) is None,
        forall|key: Seq<char>| #[trigger] JsonView::Null.member_items(key).len() == 0,
{
}

proof fn lemma_keywords(rule: RuleRowView)
    ensures
        forall|word: Seq<char>| #[trigger]
            attribution::matcher_keywords(attribution::matcher_view(rule.matcher_json)).contains(
                word,
            ) <==> is_keyword(rule, word),
{
    let matcher = attribution::matcher_view(rule.matcher_json);
    let items = matcher.member_items("keywords"@);
    let pick = |item: JsonView| item.as_text();
    let texts = json::text_items(items);
    let lower = |word: Seq<char>| text::lowercase(word);
    let keep = |word: Seq<char>| word.len() > 0;
    let lowered = texts.map_values(lower);
    let listed = lowered.filter(keep);
    let all = attribution::matcher_keywords(matcher);
    lists::lemma_filtered(lowered, keep);
    assert(texts == items.filter_map(pick));
    assert forall|word: Seq<char>| #[trigger] all.contains(word) <==> is_keyword(rule, word) by {
        if all.contains(word) {
            let k = choose|k: int| 0 <= k < all.len() && all[k] == word;
            if k < listed.len() {
                assert(listed[k] == word);
                assert(lowered.contains(word) && word.len() > 0);
                let m = choose|m: int| 0 <= m < lowered.len() && lowered[m] == word;
                assert(texts.contains(texts[m]));
                items.lemma_filter_map_contains(pick, texts[m]);
                let item = choose|item: JsonView| #[trigger]
                    items.contains(item) && pick(item) == Some(texts[m]);
                let n = choose|n: int| 0 <= n < items.len() && items[n] == item;
                assert(items[n] matches JsonView::Text(found) && word == text::lowercase(found));
            }
        }
        if is_keyword(rule, word) {
            let found = json::document(rule.matcher_json).unwrap();
            assert(found == matcher);
            if word.len() > 0 && exists|k: int|
                0 <= k < items.len() && (#[trigger] items[k] matches JsonView::Text(listed_word)
                    && word == text::lowercase(listed_word)) {
                let k = choose|k: int|
                    0 <= k < items.len() && (#[trigger] items[k] matches JsonView::Text(listed_word)
                        && word == text::lowercase(listed_word));
                let original = items[k]->Text_0;
                assert(pick(items[k]) == Some(original));
                lists::lemma_picked(items, pick, k);
                assert(texts.contains(original));
                let m = choose|m: int| 0 <= m < texts.len() && texts[m] == original;
                assert(lowered[m] == word);
                assert(lowered.contains(word));
                assert(listed.contains(word));
                let n = choose|n: int| 0 <= n < listed.len() && listed[n] == word;
                assert(all[n] == word);
            } else {
                assert(all[all.len() - 1] == word);
            }
        }
    }
}

proof fn lemma_longest(words: Seq<Seq<char>>, hay: Seq<char>)
    ensures
        forall|word: Seq<char>| #[trigger]
            words.contains(word) && text::occurs(hay, word) ==> word.len()
                <= attribution::longest_match(words, hay),
        attribution::longest_match(words, hay) > 0 ==> exists|word: Seq<char>| #[trigger]
            words.contains(word) && text::occurs(hay, word) && word.len()
                == attribution::longest_match(words, hay),
    decreases words.len(),
{
    if words.len() > 0 {
        let rest = words.drop_last();
        let last = words.last();
        lemma_longest(rest, hay);
        assert(words[words.len() - 1] == last);
        let best = attribution::longest_match(rest, hay);
        assert forall|word: Seq<char>| #[trigger]
            words.contains(word) && text::occurs(hay, word) implies word.len()
            <= attribution::longest_match(words, hay) by {
            let k = choose|k: int| 0 <= k < words.len() && words[k] == word;
            if k < rest.len() {
                assert(rest[k] == word);
                assert(rest.contains(word));
            }
        }
        if attribution::longest_match(words, hay) > 0 {
            if text::occurs(hay, last) && last.len() > best {
                assert(words.contains(last));
            } else {
                let word = choose|word: Seq<char>| #[trigger]
                    rest.contains(word) && text::occurs(hay, word) && word.len() == best;
                let k = choose|k: int| 0 <= k < rest.len() && rest[k] == word;
                assert(words[k] == word);
                assert(words.contains(word));
            }
        }
    }
}

proof fn lemma_applies(rule: RuleRowView, event: RawEventView)
    ensures
        attribution::rule_rank(rule, event, attribution::haystack(event)) is Some <==> is_satisfied(
            rule,
            event,
        ),
        attribution::rule_rank(rule, event, attribution::haystack(event)) matches Some(rank) ==> {
            &&& rank.priority == rule.priority
            &&& is_longest(rule, event, rank.keyword_length)
            &&& rank.constraints == named_parts(rule)
            &&& rank.updated_at == rule.updated_at
        },
{
    let matcher = attribution::matcher_view(rule.matcher_json);
    let words = attribution::matcher_keywords(matcher);
    let hay = attribution::haystack(event);
    lemma_missing_matcher();
    lemma_keywords(rule);
    lemma_longest(words, hay);
    assert(hay == shown(event));
    assert(attribution::matcher_part(matcher, "app"@) == asked(rule, "app"@));
    assert(attribution::matcher_part(matcher, "domain"@) == asked(rule, "domain"@));
    assert(attribution::matcher_part(matcher, "workspace"@) == asked(rule, "workspace"@));
    if words.len() > 0 {
        assert(words.contains(words[0]));
        assert(is_keyword(rule, words[0]));
    } else {
        assert forall|word: Seq<char>| !(#[trigger] is_keyword(rule, word)) by {
            assert(!words.contains(word));
        }
    }
    let length = attribution::longest_match(words, hay);
    if length > 0 {
        let word = choose|word: Seq<char>| #[trigger]
            words.contains(word) && text::occurs(hay, word) && word.len() == length;
        assert(is_keyword(rule, word) && text::occurs(shown(event), word));
    }
    assert forall|word: Seq<char>| #[trigger]
        is_keyword(rule, word) && text::occurs(shown(event), word) implies word.len() <= length by {
        assert(words.contains(word));
    }
    if exists|word: Seq<char>| #[trigger]
        is_keyword(rule, word) && word.len() > 0 && text::occurs(shown(event), word) {
        let word = choose|word: Seq<char>| #[trigger]
            is_keyword(rule, word) && word.len() > 0 && text::occurs(shown(event), word);
        assert(words.contains(word));
    }
}

/// A rule decides only where all that it asks is met, and then it assigns what it says. Where nothing
/// is decided, no rule has all that it asks.
pub proof fn rules_decide_where_they_are_satisfied(
    event: RawEventView,
    settings: SettingsView,
    idle_project: Option<Seq<char>>,
    rules: Seq<RuleRowView>,
)
    ensures
        match attribution::first_decision(event, false, settings, idle_project, None, rules) {
            Some(decision) => exists|k: int|
                0 <= k < rules.len() && is_satisfied(#[trigger] rules[k], event)
                    && decision.project_id == rules[k].project_id && decision.task_id
                    == rules[k].task_id && decision.category == rules[k].category
                    && decision.summary is None && (decision.evidence matches Some(item)
                    && item.kind == "rule"@ && item.value == rules[k].name) && !(exists|m: int|
                    0 <= m < rules.len() && is_satisfied(#[trigger] rules[m], event)
                        && rules[m].priority > rules[k].priority),
            None => forall|k: int|
                0 <= k < rules.len() ==> !is_satisfied(#[trigger] rules[k], event),
        },
{
    let hay = attribution::haystack(event);
    let best = attribution::best_rule(rules, event, hay, rules.len() as int);
    attribution::best_rule_is_not_outranked(rules, event, hay, rules.len() as int);
    assert forall|k: int| 0 <= k < rules.len() implies (attribution::rule_rank(
        #[trigger] rules[k],
        event,
        hay,
    ) is Some <==> is_satisfied(rules[k], event)) && (attribution::rule_rank(rules[k], event, hay)
        is Some ==> attribution::rule_rank(rules[k], event, hay).unwrap().priority
        == rules[k].priority) by {
        lemma_applies(rules[k], event);
    }
    if let Some(k) = best {
        let decision = attribution::first_decision(
            event,
            false,
            settings,
            idle_project,
            None,
            rules,
        ).unwrap();
        assert(is_satisfied(rules[k], event));
        assert(!(exists|m: int|
            0 <= m < rules.len() && is_satisfied(#[trigger] rules[m], event) && rules[m].priority
                > rules[k].priority)) by {
            assert forall|m: int|
                0 <= m < rules.len() && is_satisfied(
                    #[trigger] rules[m],
                    event,
                ) implies rules[m].priority <= rules[k].priority by {
                let rank = attribution::rule_rank(rules[m], event, hay).unwrap();
                assert(!attribution::outranks(
                    rank,
                    attribution::rule_rank(rules[k], event, hay).unwrap(),
                ));
            }
        }
    } else {
        assert forall|k: int| 0 <= k < rules.len() implies !is_satisfied(
            #[trigger] rules[k],
            event,
        ) by {
            assert(attribution::rule_rank(rules[k], event, hay) is None);
        }
    }
}

/// Among satisfied rules of one priority the one with the longest keyword found decides, then the one
/// that names more parts, then the one that was changed last.
pub proof fn the_most_specific_rule_decides(
    event: RawEventView,
    rules: Seq<RuleRowView>,
    chosen: int,
    other: int,
    chosen_length: nat,
    other_length: nat,
)
    requires
        attribution::best_rule(rules, event, attribution::haystack(event), rules.len() as int)
            == Some(chosen),
        0 <= other < rules.len(),
        is_satisfied(rules[other], event),
        rules[other].priority == rules[chosen].priority,
        is_longest(rules[chosen], event, chosen_length),
        is_longest(rules[other], event, other_length),
    ensures
        other_length <= chosen_length,
        other_length == chosen_length ==> named_parts(rules[other]) <= named_parts(rules[chosen]),
        other_length == chosen_length && named_parts(rules[other]) == named_parts(rules[chosen])
            ==> !text::precedes(rules[chosen].updated_at, rules[other].updated_at),
{
    let hay = attribution::haystack(event);
    attribution::best_rule_is_not_outranked(rules, event, hay, rules.len() as int);
    lemma_applies(rules[chosen], event);
    lemma_applies(rules[other], event);
    let best = attribution::rule_rank(rules[chosen], event, hay).unwrap();
    let rank = attribution::rule_rank(rules[other], event, hay).unwrap();
    assert(!attribution::outranks(rank, best));
    lemma_longest_is_unique(rules[chosen], event, chosen_length, best.keyword_length);
    lemma_longest_is_unique(rules[other], event, other_length, rank.keyword_length);
}

proof fn lemma_longest_is_unique(rule: RuleRowView, event: RawEventView, left: nat, right: nat)
    requires
        is_longest(rule, event, left),
        is_longest(rule, event, right),
    ensures
        left == right,
{
    if left > 0 {
        let word = choose|word: Seq<char>| #[trigger]
            is_keyword(rule, word) && text::occurs(shown(event), word) && word.len() == left;
    }
    if right > 0 {
        let word = choose|word: Seq<char>| #[trigger]
            is_keyword(rule, word) && text::occurs(shown(event), word) && word.len() == right;
    }
}

/// Time away goes to the category and project that the user set for it, whatever is pinned and
/// whatever rules there are; a pinned context takes all other activity, whatever rules there are.
pub proof fn time_away_and_pins_go_first(
    event: RawEventView,
    settings: SettingsView,
    idle_project: Option<Seq<char>>,
    pin: Option<ContextPinView>,
    rules: Seq<RuleRowView>,
)
    ensures
        attribution::first_decision(event, true, settings, idle_project, pin, rules) matches Some(
            decision,
        ) && decision.project_id == idle_project && decision.task_id is None && decision.category
            == settings.idle_category && decision.summary == Some("离开/空闲"@)
            && decision.confidence == 0x3F75C28F && decision.evidence is None,
        pin matches Some(held) ==> (attribution::first_decision(
            event,
            false,
            settings,
            idle_project,
            pin,
            rules,
        ) matches Some(decision) && decision.project_id == Some(held.project_id)
            && decision.task_id == held.task_id && decision.category == held.category
            && decision.summary is None && decision.confidence == 0x3F7AE148 && (
        decision.evidence matches Some(item) && item.kind == "context-pin"@ && item.value
            == held.project_name && item.weight == 0x3F7AE148)),
{
}

/// What memory recognises is assigned to what it remembers, with its confidence and a word on how much
/// supports it; everything else gets a category by its words, and no project is guessed.
pub proof fn memory_decides_before_words(event: RawEventView, found: MemoryDecision)
    ensures
        ({
            let decision = attribution::memory_decision(found);
            &&& decision.project_id == Some(found.project_id@)
            &&& decision.task_id == Some(found.task_id@)
            &&& decision.category == found.category@
            &&& decision.confidence == found.confidence
            &&& decision.summary is None
            &&& decision.evidence matches Some(item) && item.kind == "personal-memory"@
                && item.value == found.matched_label@ && item.weight == found.confidence
        }),
        ({
            let decision = attribution::fallback_decision(event);
            &&& decision.project_id is None
            &&& decision.task_id is None
            &&& decision.category == attribution::suggested_category(shown(event))
            &&& decision.summary is None
            &&& decision.evidence is None
            &&& decision.confidence == 0x3F0CCCCD
        }),
{
}

/// The words of the trade suggest its category: words of programming before those of study, those of
/// study before those of writing, and so on; without any the activity is a chore.
pub proof fn words_suggest_categories(hay: Seq<char>)
    ensures
        ({
            let programming = text::occurs(hay, "code"@) || text::occurs(hay, "rust"@)
                || text::occurs(hay, "github"@) || text::occurs(hay, "tauri"@) || text::occurs(
                hay,
                "screenuse"@,
            ) || text::occurs(hay, "codex"@);
            let reading = text::occurs(hay, "scholar"@) || text::occurs(hay, "pubmed"@)
                || text::occurs(hay, "知网"@) || text::occurs(hay, "arxiv"@) || text::occurs(
                hay,
                "pdf"@,
            ) || text::occurs(hay, "论文"@) || text::occurs(hay, "教材"@) || text::occurs(
                hay,
                "ebook"@,
            );
            let writing = text::occurs(hay, "word"@) || text::occurs(hay, "wps"@) || text::occurs(
                hay,
                "obsidian"@,
            ) || text::occurs(hay, "markdown"@);
            let lessons = text::occurs(hay, "bilibili"@) || text::occurs(hay, "course"@);
            let talking = text::occurs(hay, "wechat"@) || text::occurs(hay, "qq"@)
                || text::occurs(hay, "mail"@) || text::occurs(hay, "teams"@) || text::occurs(
                hay,
                "meeting"@,
            );
            let playing = text::occurs(hay, "steam"@) || text::occurs(hay, "game"@)
                || text::occurs(hay, "youtube"@);
            let found = attribution::suggested_category(hay);
            &&& programming ==> found == "开发"@
            &&& !programming && reading ==> found == "学习"@
            &&& !programming && !reading && writing ==> found == "写作"@
            &&& !programming && !reading && !writing && lessons ==> found == "学习"@
            &&& !programming && !reading && !writing && !lessons && talking ==> found == "沟通"@
            &&& !programming && !reading && !writing && !lessons && !talking && playing ==> found
                == "娱乐"@
            &&& !programming && !reading && !writing && !lessons && !talking && !playing ==> found
                == "杂务"@
        }),
{
}

/// A pin holds until the moment that it names, and one whose end cannot be read does not hold.
pub proof fn pins_hold_until_their_end(expires_at: Seq<char>, now: Moment)
    ensures
        clock::moment_of(expires_at) is None ==> !attribution::pin_holds(expires_at, now),
        clock::moment_of(expires_at) matches Some(end) ==> (attribution::pin_holds(expires_at, now)
            <==> now.seconds < end.seconds || (now.seconds == end.seconds && now.nanos
            < end.nanos)),
{
}

} // verus!
