//! Promises of personal memory: what is compared, and when it decides.
use vstd::prelude::*;

use crate::lists;
use crate::memory;
use crate::memory::{
    EventField, FeaturesView, MatchScore, MemoryRecord, SimilarityProfile, TextMatch, Vote,
};
use crate::models::{EvidenceView, RawEventView};
use crate::text;

verus! {

broadcast use vstd::seq_lib::group_seq_properties;

/// A remembered context is a candidate from a score of 0.42 where something of it matches exactly, and
/// from 0.68 otherwise.
pub proof fn candidates_are_similar_enough(score: MatchScore)
    ensures
        memory::is_candidate(score) <==> score.score >= 0x3ED70A3D && (score.strong || score.score
            >= 0x3F2E147B),
{
}

/// Memory decides only clearly: never below 0.6 and never where two exact matches come close. Two
/// witnesses need 0.72 and a lead of 0.18; otherwise a near exact match needs 0.86 and a lead of 0.12,
/// an exact one 0.62 and 0.14, and a similar one 0.74 and 0.2.
pub proof fn memory_decides_only_clearly(
    winner: Vote,
    runner_strong: bool,
    close: bool,
    margin: i32,
)
    ensures
        ({
            let found = memory::deserved(winner, runner_strong, close, margin);
            let silent = winner.best < 0x3F19999A || (winner.strong && runner_strong && close);
            let witnessed = winner.support >= 2 && winner.best >= 0x3F3851EC && margin
                >= 0x3E3851EC;
            let near = winner.best >= 0x3F5C28F6 && margin >= 0x3DF5C28F;
            let exact = winner.strong && winner.best >= 0x3F1EB852 && margin >= 0x3E0F5C29;
            let similar = winner.best >= 0x3F3D70A4 && margin >= 0x3E4CCCCD;
            &&& found is Some <==> !silent && (witnessed || near || exact || similar)
            &&& found is Some && witnessed ==> found == Some(0x3F733333i32)
            &&& found is Some && !witnessed && near ==> found == Some(0x3F6E147Bi32)
            &&& found is Some && !witnessed && !near && exact ==> found == Some(0x3F6147AEi32)
            &&& found is Some && !witnessed && !near && !exact ==> found == Some(0x3F5C28F6i32)
        }),
{
}

/// What takes part in a decision is a candidate, and either confirmed or one of at least three
/// unconfirmed candidates with one assignment.
pub proof fn only_confirmed_or_agreeing_memories_take_part(
    records: Seq<MemoryRecord>,
    scores: Seq<MatchScore>,
    i: int,
)
    requires
        records.len() == scores.len(),
        0 <= i < records.len(),
    ensures
        memory::takes_part(records, scores, i) ==> memory::is_candidate(scores[i]),
        memory::is_candidate(scores[i]) && records[i].user_confirmed ==> memory::takes_part(
            records,
            scores,
            i,
        ),
        memory::takes_part(records, scores, i) && !records[i].user_confirmed ==> exists|
            a: int,
            b: int,
            c: int,
        |
            0 <= a < b < c < records.len() && #[trigger] is_witness(records, scores, i, a)
                && #[trigger] is_witness(records, scores, i, b) && #[trigger] is_witness(
                records,
                scores,
                i,
                c,
            ),
        (forall|k: int|
            0 <= k < records.len() && k != i ==> !(#[trigger] is_witness(records, scores, i, k)))
            && !records[i].user_confirmed ==> !memory::takes_part(records, scores, i),
{
    let key = memory::assignment(records[i]);
    if memory::takes_part(records, scores, i) && !records[i].user_confirmed {
        lemma_three(records, scores, i, records.len(), 3);
        let c = choose|c: int|
            0 <= c < records.len() && #[trigger] is_witness(records, scores, i, c)
                && memory::agreeing(records, scores, key, c as nat) >= 2;
        lemma_three(records, scores, i, c as nat, 2);
        let b = choose|b: int|
            0 <= b < c && #[trigger] is_witness(records, scores, i, b) && memory::agreeing(
                records,
                scores,
                key,
                b as nat,
            ) >= 1;
        lemma_three(records, scores, i, b as nat, 1);
        let a = choose|a: int|
            0 <= a < b && #[trigger] is_witness(records, scores, i, a) && memory::agreeing(
                records,
                scores,
                key,
                a as nat,
            ) >= 0;
        assert(is_witness(records, scores, i, a) && is_witness(records, scores, i, b)
            && is_witness(records, scores, i, c));
        if forall|k: int|
            0 <= k < records.len() && k != i ==> !(#[trigger] is_witness(records, scores, i, k)) {
            assert(a == i || !is_witness(records, scores, i, a));
            assert(b == i || !is_witness(records, scores, i, b));
        }
    }
}

/// The other memory is an unconfirmed candidate with the same category, project and task.
pub open spec fn is_witness(
    records: Seq<MemoryRecord>,
    scores: Seq<MatchScore>,
    i: int,
    other: int,
) -> bool {
    &&& memory::is_candidate(scores[other])
    &&& !records[other].user_confirmed
    &&& records[other].category@ + "\u{1f}"@ + records[other].project_id@ + "\u{1f}"@
        + records[other].task_id@ == records[i].category@ + "\u{1f}"@ + records[i].project_id@
        + "\u{1f}"@ + records[i].task_id@
}

proof fn lemma_three(
    records: Seq<MemoryRecord>,
    scores: Seq<MatchScore>,
    i: int,
    n: nat,
    count: nat,
)
    requires
        n <= records.len(),
        records.len() == scores.len(),
        count > 0,
        memory::agreeing(records, scores, memory::assignment(records[i]), n) >= count,
    ensures
        exists|c: int|
            0 <= c < n && #[trigger] is_witness(records, scores, i, c) && memory::agreeing(
                records,
                scores,
                memory::assignment(records[i]),
                c as nat,
            ) >= count - 1,
    decreases n,
{
    let key = memory::assignment(records[i]);
    if n > 0 {
        let m = (n - 1) as nat;
        if memory::is_candidate(scores[m as int]) && !records[m as int].user_confirmed
            && memory::assignment(records[m as int]) == key {
            assert(is_witness(records, scores, i, m as int));
        } else {
            lemma_three(records, scores, i, m, count);
        }
    }
}

/// Records are ranked by their score, and of equal ones the later confirmed comes first. The list holds
/// only wanted records, none twice, and all of them where it is not full; a wanted record that is not on
/// it scores no better than any that is.
pub proof fn rankings_are_by_score(
    records: Seq<MemoryRecord>,
    scores: Seq<MatchScore>,
    wanted: Seq<bool>,
    limit: nat,
    order: Seq<usize>,
)
    requires
        memory::ranking(records, scores, wanted, limit, order),
    ensures
        order.len() <= limit,
        forall|k: int|
            0 <= k < order.len() ==> #[trigger] order[k] < records.len() && wanted[order[k] as int],
        forall|k: int, l: int|
            0 <= k < l < order.len() ==> {
                let a = #[trigger] order[k] as int;
                let b = #[trigger] order[l] as int;
                &&& a != b
                &&& scores[a].score >= scores[b].score
                &&& scores[a].score == scores[b].score ==> !text::precedes(
                    records[a].confirmed_at@,
                    records[b].confirmed_at@,
                )
            },
        order.len() < limit ==> forall|i: int|
            0 <= i < records.len() && #[trigger] wanted[i] ==> order.contains(i as usize),
        forall|i: int, k: int|
            0 <= i < records.len() && #[trigger] wanted[i] && !order.contains(i as usize) && 0 <= k
                < order.len() ==> scores[#[trigger] order[k] as int].score >= scores[i].score,
{
    assert forall|k: int, l: int| 0 <= k < l < order.len() implies {
        let a = #[trigger] order[k] as int;
        let b = #[trigger] order[l] as int;
        &&& a != b
        &&& scores[a].score >= scores[b].score
        &&& scores[a].score == scores[b].score ==> !text::precedes(
            records[a].confirmed_at@,
            records[b].confirmed_at@,
        )
    } by {
        let a = order[k] as int;
        let b = order[l] as int;
        assert(memory::ahead(records, scores, a, b));
        text::lemma_precedes_total(records[a].confirmed_at@, records[b].confirmed_at@);
        text::lemma_precedes_total(records[a].confirmed_at@, records[a].confirmed_at@);
    }
    assert forall|i: int, k: int|
        0 <= i < records.len() && #[trigger] wanted[i] && !order.contains(i as usize) && 0 <= k
            < order.len() implies scores[#[trigger] order[k] as int].score >= scores[i].score by {
        assert(memory::gave_way(records, scores, order, limit, i));
        assert(memory::ahead(records, scores, order[k] as int, i));
    }
}

/// The winner has the highest total, the runner-up the next; of equal totals the better best match.
pub proof fn the_highest_total_wins(
    votes: Seq<Vote>,
    totals: Seq<i32>,
    winner: int,
    runner_up: Option<usize>,
)
    requires
        memory::leads(votes, totals, winner, runner_up),
    ensures
        0 <= winner < votes.len(),
        forall|i: int|
            0 <= i < votes.len() ==> #[trigger] totals[i] < totals[winner] || (totals[i]
                == totals[winner] && votes[i].best <= votes[winner].best),
        runner_up is None <==> votes.len() == 1,
        runner_up matches Some(second) ==> second < votes.len() && second != winner && forall|i: int|
            0 <= i < votes.len() && i != winner ==> #[trigger] totals[i] <= totals[second as int],
{
    assert forall|i: int| 0 <= i < votes.len() implies #[trigger] totals[i] < totals[winner] || (
    totals[i] == totals[winner] && votes[i].best <= votes[winner].best) by {
        assert(!memory::beats(votes, totals, i, winner));
    }
    if let Some(second) = runner_up {
        assert forall|i: int| 0 <= i < votes.len() && i != winner implies #[trigger] totals[i]
            <= totals[second as int] by {
            assert(!memory::beats(votes, totals, i, second as int));
        }
    }
}

/// A decision names what matched exactly: the page before the workspace, the workspace before the file,
/// the file before the domain, the domain before the window.
pub proof fn decisions_name_the_strongest_match(query: FeaturesView, known: FeaturesView)
    ensures
        ({
            let label = memory::label_of_match(query, known);
            let page = query.page.len() > 0 && query.page == known.page;
            let workspace = query.workspace.len() > 0 && query.workspace == known.workspace;
            let file = query.file.len() > 0 && query.file == known.file;
            let domain = query.domain.len() > 0 && query.domain == known.domain;
            let window = query.window.len() > 0 && query.window == known.window;
            &&& page ==> label == "当前页面："@ + query.page
            &&& !page && workspace ==> label == "工作区："@ + query.workspace
            &&& !page && !workspace && file ==> label == "文件："@ + query.file
            &&& !page && !workspace && !file && domain ==> label == "网页域名："@ + query.domain
            &&& !page && !workspace && !file && !domain && window ==> label == "窗口："@
                + query.window
            &&& !page && !workspace && !file && !domain && !window ==> label
                == "相似的个人修正记录"@
        }),
{
}

/// A context tells itself from others by its page, domain, workspace or file, or by a window that is
/// not one of the generic ones; the program alone never does.
pub proof fn programs_alone_tell_nothing(features: FeaturesView)
    ensures
        memory::discriminative(features) <==> features.page.len() > 0 || features.domain.len() > 0
            || features.workspace.len() > 0 || features.file.len() > 0 || (features.window.len() > 0
            && !memory::generic(features.window)),
{
}

/// The text of a field is that of the latest observation in which it is not blank.
pub proof fn the_latest_text_counts(events: Seq<RawEventView>, field: EventField)
    ensures
        match memory::latest_text(events, field) {
            Some(found) => text::trimmed(found).len() > 0 && exists|k: int|
                0 <= k < events.len() && memory::field_text(#[trigger] events[k], field) == Some(
                    found,
                ) && forall|j: int|
                    k < j < events.len() ==> match memory::field_text(#[trigger] events[j], field) {
                        Some(other) => text::trimmed(other).len() == 0,
                        None => true,
                    },
            None => forall|k: int|
                0 <= k < events.len() ==> match memory::field_text(#[trigger] events[k], field) {
                    Some(other) => text::trimmed(other).len() == 0,
                    None => true,
                },
        },
        memory::field_text(events.last(), EventField::Url) == events.last().url,
        memory::field_text(events.last(), EventField::Workspace) == events.last().workspace,
        memory::field_text(events.last(), EventField::File) == events.last().file_path,
    decreases events.len(),
{
    if events.len() > 0 {
        let rest = events.drop_last();
        the_latest_text_counts(rest, field);
        assert(forall|k: int| 0 <= k < rest.len() ==> events[k] == rest[k]);
        assert(events[events.len() - 1] == events.last());
        match memory::nonblank_text(memory::field_text(events.last(), field)) {
            Some(found) => {
                assert(memory::field_text(events[events.len() - 1], field) == Some(found));
            },
            None => {
                if let Some(found) = memory::latest_text(rest, field) {
                    let k = choose|k: int|
                        0 <= k < rest.len() && memory::field_text(#[trigger] rest[k], field) == Some(
                            found,
                        ) && forall|j: int|
                            k < j < rest.len() ==> match memory::field_text(
                                #[trigger] rest[j],
                                field,
                            ) {
                                Some(other) => text::trimmed(other).len() == 0,
                                None => true,
                            };
                    assert(memory::field_text(events[k], field) == Some(found));
                    assert forall|j: int| k < j < events.len() implies match memory::field_text(
                        #[trigger] events[j],
                        field,
                    ) {
                        Some(other) => text::trimmed(other).len() == 0,
                        None => true,
                    } by {
                        if j < rest.len() {
                            assert(memory::field_text(rest[j], field) == memory::field_text(
                                events[j],
                                field,
                            ));
                        }
                    }
                }
            },
        }
    }
}

/// The evidence of a kind that counts is the heaviest, and of equally heavy items the last.
pub proof fn the_heaviest_evidence_counts(items: Seq<EvidenceView>, kind: Seq<char>)
    ensures
        match memory::heaviest(items, kind) {
            Some(found) => exists|k: int|
                0 <= k < items.len() && #[trigger] items[k] == found && found.kind == kind && (
                forall|j: int|
                    0 <= j < items.len() && (#[trigger] items[j]).kind == kind ==> items[j].weight
                        <= found.weight && (j > k ==> items[j].weight < found.weight)),
            None => forall|k: int| 0 <= k < items.len() ==> (#[trigger] items[k]).kind != kind,
        },
    decreases items.len(),
{
    if items.len() > 0 {
        let rest = items.drop_last();
        let last = items.last();
        the_heaviest_evidence_counts(rest, kind);
        assert(forall|k: int| 0 <= k < rest.len() ==> items[k] == rest[k]);
        assert(items[items.len() - 1] == last);
        match memory::heaviest(rest, kind) {
            Some(best) => {
                let k = choose|k: int|
                    0 <= k < rest.len() && #[trigger] rest[k] == best && best.kind == kind && (
                    forall|j: int|
                        0 <= j < rest.len() && (#[trigger] rest[j]).kind == kind ==> rest[j].weight
                            <= best.weight && (j > k ==> rest[j].weight < best.weight));
                assert(items[k] == best);
                let found = memory::heaviest(items, kind).unwrap();
                let at = if last.kind == kind && best.weight <= last.weight {
                    items.len() - 1
                } else {
                    k
                };
                assert(items[at] == found);
                assert forall|j: int|
                    0 <= j < items.len() && (#[trigger] items[j]).kind
                        == kind implies items[j].weight <= found.weight && (j > at
                    ==> items[j].weight < found.weight) by {
                    if j < rest.len() {
                        assert(rest[j].kind == kind);
                    }
                }
            },
            None => {
                if last.kind == kind {
                    assert(items[items.len() - 1] == last);
                }
            },
        }
    }
}

proof fn lemma_one_word(word: Seq<char>)
    requires
        word.len() > 0,
        forall|k: int| 0 <= k < word.len() ==> !text::white(#[trigger] word[k]),
    ensures
        text::word_list(word) == seq![word],
{
    let cut = |c: char| text::white(c);
    let kept = |piece: Seq<char>| piece.len() > 0;
    lemma_one_piece(word);
    assert(text::pieces(word, cut) == seq![word]);
    let none = Seq::<Seq<char>>::empty();
    none.lemma_filter_push(word, kept);
    assert(none.push(word) =~= seq![word]);
    assert(none.filter(kept) =~= none) by {
        reveal(Seq::filter);
    }
}

proof fn lemma_one_piece(word: Seq<char>)
    requires
        forall|k: int| 0 <= k < word.len() ==> !text::white(#[trigger] word[k]),
    ensures
        text::pieces(word, |c: char| text::white(c)) == seq![word],
    decreases word.len(),
{
    if word.len() == 0 {
        assert(word =~= Seq::empty());
    } else {
        let rest = word.drop_last();
        assert forall|k: int| 0 <= k < rest.len() implies !text::white(#[trigger] rest[k]) by {
            assert(rest[k] == word[k]);
        }
        lemma_one_piece(rest);
        assert(!text::white(word[word.len() - 1]));
        assert(seq![rest].drop_last() =~= Seq::<Seq<char>>::empty());
        assert(rest.push(word.last()) =~= word);
        assert(Seq::<Seq<char>>::empty().push(word) =~= seq![word]);
    }
}

proof fn lemma_joined(list: Seq<Seq<char>>)
    requires
        forall|i: int, k: int|
            0 <= i < list.len() && 0 <= k < list[i].len() ==> !text::white(#[trigger] list[i][k]),
        forall|i: int| 0 <= i < list.len() ==> (#[trigger] list[i]).len() > 0,
    ensures
        text::word_list(text::concat_with(list, " "@)) == list,
    decreases list.len(),
{
    reveal_strlit(" ");
    if list.len() == 0 {
        let nothing = Seq::<char>::empty();
        let kept = |piece: Seq<char>| piece.len() > 0;
        let none = Seq::<Seq<char>>::empty();
        none.lemma_filter_push(nothing, kept);
        assert(none.push(nothing) =~= seq![nothing]);
        assert(none.filter(kept) =~= none) by {
            reveal(Seq::filter);
        }
        assert(text::word_list(nothing) =~= list);
    } else {
        let rest = list.drop_last();
        let last = list.last();
        assert forall|k: int| 0 <= k < last.len() implies !text::white(#[trigger] last[k]) by {
            assert(list[list.len() - 1][k] == last[k]);
        }
        assert(list[list.len() - 1].len() > 0);
        if list.len() == 1 {
            lemma_one_word(last);
            assert(list =~= seq![last]);
        } else {
            assert forall|i: int, k: int|
                0 <= i < rest.len() && 0 <= k < rest[i].len() implies !text::white(
                #[trigger] rest[i][k],
            ) by {
                assert(list[i][k] == rest[i][k]);
            }
            assert forall|i: int| 0 <= i < rest.len() implies (#[trigger] rest[i]).len() > 0 by {
                assert(list[i].len() > 0);
            }
            lemma_joined(rest);
            let head = text::concat_with(rest, " "@);
            text::lemma_word_behind_space(head, last);
            assert(text::concat_with(list, " "@) =~= head + (seq![' '] + last));
            assert(rest.push(last) =~= list);
        }
    }
}

/// Normalising a text keeps its words, in lower case and with underscores as spaces, and nothing but
/// single spaces between them; it begins and ends with a word.
pub proof fn normalising_keeps_the_words(s: Seq<char>)
    ensures
        text::word_list(memory::normal_text(s)) == text::word_list(
            text::lowercase(s).map_values(
                |c: char|
                    if c == '_' || c == '\r' || c == '\n' || c == '\t' {
                        ' '
                    } else {
                        c
                    },
            ),
        ),
        memory::normal_text(s) == text::concat_with(
            text::word_list(memory::normal_text(s)),
            " "@,
        ),
        text::trimmed(memory::normal_text(s)) == memory::normal_text(s),
{
    let soft = memory::softened(text::lowercase(s));
    assert(soft =~= text::lowercase(s).map_values(
        |c: char|
            if c == '_' || c == '\r' || c == '\n' || c == '\t' {
                ' '
            } else {
                c
            },
    ));
    let words = text::word_list(soft);
    text::lemma_words_are_whole(soft);
    text::lemma_words(soft);
    lemma_joined(words);
    text::lemma_joined_words(soft, " "@);
}

/// What was observed last tells the context; only where nothing was observed of it, the heaviest
/// evidence does. The program is told without its ending.
pub proof fn observations_count_before_evidence(
    evidence: Seq<EvidenceView>,
    events: Seq<RawEventView>,
    features: FeaturesView,
)
    requires
        memory::session_features(evidence, events, features),
    ensures
        memory::latest_text(events, EventField::Page) matches Some(page) ==> features.page
            == memory::context_label(page),
        memory::latest_text(events, EventField::Page) is None && memory::heaviest(
            evidence,
            "page"@,
        ) is Some && text::trimmed(memory::heaviest(evidence, "page"@).unwrap().value).len() > 0
            ==> features.page == memory::context_label(
            memory::heaviest(evidence, "page"@).unwrap().value,
        ),
        memory::latest_text(events, EventField::Url) matches Some(url) ==> features.domain
            == memory::context_label(memory::url_host(url)),
        memory::latest_text(events, EventField::Workspace) matches Some(folder)
            ==> features.workspace == memory::path_label(folder),
        memory::latest_text(events, EventField::File) matches Some(path) ==> features.file
            == memory::path_label(path),
        memory::latest_text(events, EventField::File) is None && memory::heaviest(
            evidence,
            "file"@,
        ) is Some && text::trimmed(memory::heaviest(evidence, "file"@).unwrap().value).len() > 0
            ==> features.file == memory::path_label(
            memory::heaviest(evidence, "file"@).unwrap().value,
        ),
        forall|i: int|
            0 <= i < memory::tokens_of(features.page).len() ==> features.tokens.contains(
                #[trigger] memory::tokens_of(features.page)[i],
            ),
{
    let page = memory::tokens_of(features.page);
    let rest = memory::tokens_of(features.window) + memory::tokens_of(features.domain)
        + memory::tokens_of(features.workspace) + memory::tokens_of(features.file);
    let all = page + memory::tokens_of(features.window) + memory::tokens_of(features.domain)
        + memory::tokens_of(features.workspace) + memory::tokens_of(features.file);
    assert(all =~= page + rest);
    assert forall|i: int| 0 <= i < page.len() implies features.tokens.contains(
        #[trigger] page[i],
    ) by {
        assert(all[i] == page[i]);
        assert(all.to_set().contains(page[i]));
        assert(features.tokens.to_set().contains(page[i]));
    }
}

/// Every two neighbouring Chinese characters of a text in Chinese are a word of it.
pub proof fn neighbouring_characters_are_words(s: Seq<char>, i: int)
    requires
        forall|k: int| 0 <= k < s.len() ==> memory::cjk(#[trigger] s[k]),
        0 <= i < s.len() - 1,
    ensures
        memory::tokens_of(s).contains(seq![s[i], s[i + 1]]),
{
    let chinese = |c: char| memory::cjk(c);
    lists::lemma_filter_uniform(s, chinese);
    let pairs = memory::pairs(s);
    let words = memory::word_tokens(s);
    assert(pairs[i] == seq![s[i], s[i + 1]]);
    assert(memory::tokens_of(s) == words + pairs);
    assert((words + pairs)[words.len() + i] == pairs[i]);
}

/// Two texts match exactly where they are the same and say something; otherwise by how many words they
/// share, and not at all where one says nothing.
pub proof fn texts_match_by_their_words(left: Seq<char>, right: Seq<char>, result: TextMatch)
    requires
        memory::text_match(left, right, result),
    ensures
        result == TextMatch::Exact <==> left == right && left.len() > 0,
        left.len() == 0 || right.len() == 0 ==> (result matches TextMatch::Partial(overlap)
            && overlap.shared == 0),
        result matches TextMatch::Partial(overlap) ==> overlap.shared > 0 ==> exists|word: Seq<char>|
            #[trigger] memory::tokens_of(left).contains(word) && memory::tokens_of(right).contains(
                word,
            ),
{
    let a = memory::tokens_of(left).to_set();
    let b = memory::tokens_of(right).to_set();
    if let TextMatch::Partial(overlap) = result {
        if overlap.shared > 0 {
            if forall|word: Seq<char>| !(a.contains(word) && b.contains(word)) {
                assert(a.intersect(b) =~= Set::empty());
            }
            let word = choose|word: Seq<char>| a.contains(word) && b.contains(word);
            assert(memory::tokens_of(left).contains(word));
            assert(memory::tokens_of(right).contains(word));
        }
    }
}

/// A match is strong where the page, the workspace, the file, the domain or the window is the same; the
/// program alone never makes it so.
pub proof fn strong_matches_are_exact(
    query: FeaturesView,
    known: FeaturesView,
    profile: SimilarityProfile,
)
    requires
        memory::profiles(query, known, profile),
    ensures
        profile.strong <==> (query.page == known.page && query.page.len() > 0) || (query.workspace
            == known.workspace && query.workspace.len() > 0) || (query.file == known.file
            && query.file.len() > 0) || (query.domain == known.domain && query.domain.len() > 0) || (
        query.window == known.window && query.window.len() > 0),
        profile.app_exact <==> query.app == known.app && query.app.len() > 0,
        profile.domain_exact <==> query.domain == known.domain && query.domain.len() > 0,
{
}

} // verus!
