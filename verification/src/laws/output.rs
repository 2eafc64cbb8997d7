//! Promises of what is written for others and read from pages.
use vstd::prelude::*;

use crate::export;
use crate::export::ExportFormat;
use crate::labels;
use crate::memory;
use crate::pricing;
use crate::pricing::ModelRateView;
use crate::text;

verus! {

broadcast use vstd::seq_lib::group_seq_properties;

proof fn lemma_nothing_replaced(s: Seq<char>, c: char, to: Seq<char>)
    requires
        !s.contains(c),
    ensures
        text::replaced(s, seq![c], to) == s,
    decreases s.len(),
{
    if s.len() > 0 {
        assert(s[0] != c) by {
            assert(s.contains(s[0]));
        }
        if text::has_prefix(s, seq![c]) {
            assert(s.take(1)[0] == s[0]);
        }
        let rest = s.drop_first();
        assert(!rest.contains(c)) by {
            if rest.contains(c) {
                let k = choose|k: int| 0 <= k < rest.len() && rest[k] == c;
                assert(s[k + 1] == c);
            }
        }
        lemma_nothing_replaced(rest, c, to);
        assert(seq![s[0]] + rest =~= s);
    }
}

proof fn lemma_replaced_chars(s: Seq<char>, c: char, to: Seq<char>, d: char)
    requires
        !to.contains(d),
        d == c || !s.contains(d),
    ensures
        !text::replaced(s, seq![c], to).contains(d),
    decreases s.len(),
{
    let after = text::replaced(s, seq![c], to);
    if s.len() > 0 {
        if text::has_prefix(s, seq![c]) {
            let rest = s.skip(1);
            assert(!(d != c && rest.contains(d))) by {
                if rest.contains(d) {
                    let k = choose|k: int| 0 <= k < rest.len() && rest[k] == d;
                    assert(s[k + 1] == d);
                }
            }
            lemma_replaced_chars(rest, c, to, d);
            let tail = text::replaced(rest, seq![c], to);
            if after.contains(d) {
                let k = choose|k: int| 0 <= k < after.len() && after[k] == d;
                if k < to.len() {
                    assert(to[k] == d);
                } else {
                    assert(tail[k - to.len()] == d);
                }
            }
        } else {
            let rest = s.drop_first();
            assert(s[0] != c) by {
                if s[0] == c {
                    assert(s.take(1) =~= seq![c]);
                }
            }
            assert(s[0] != d) by {
                assert(s.contains(s[0]));
            }
            assert(!(d != c && rest.contains(d))) by {
                if rest.contains(d) {
                    let k = choose|k: int| 0 <= k < rest.len() && rest[k] == d;
                    assert(s[k + 1] == d);
                }
            }
            lemma_replaced_chars(rest, c, to, d);
            let tail = text::replaced(rest, seq![c], to);
            if after.contains(d) {
                let k = choose|k: int| 0 <= k < after.len() && after[k] == d;
                if k > 0 {
                    assert(tail[k - 1] == d);
                }
            }
        }
    }
}

/// A text without marks of the format is written as it is.
pub proof fn plain_cells_are_written_as_they_are(s: Seq<char>)
    ensures
        !s.contains('"') && !s.contains('\n') ==> export::csv_cell(s) == seq!['"'] + s + seq!['"'],
        !s.contains('&') && !s.contains('<') && !s.contains('>') ==> export::html_cell(s) == s,
        !s.contains('|') && !s.contains('\n') ==> export::md_cell(s) == s,
{
    reveal_strlit("\"");
    reveal_strlit("\n");
    reveal_strlit("&");
    reveal_strlit("<");
    reveal_strlit(">");
    reveal_strlit("|");
    assert("\""@ =~= seq!['"']);
    assert("\n"@ =~= seq!['\n']);
    assert("&"@ =~= seq!['&']);
    assert("<"@ =~= seq!['<']);
    assert(">"@ =~= seq!['>']);
    assert("|"@ =~= seq!['|']);
    if !s.contains('"') && !s.contains('\n') {
        lemma_nothing_replaced(s, '"', "\"\""@);
        lemma_nothing_replaced(s, '\n', " "@);
    }
    if !s.contains('&') && !s.contains('<') && !s.contains('>') {
        lemma_nothing_replaced(s, '&', "&amp;"@);
        lemma_nothing_replaced(s, '<', "&lt;"@);
        lemma_nothing_replaced(s, '>', "&gt;"@);
    }
    if !s.contains('|') && !s.contains('\n') {
        lemma_nothing_replaced(s, '|', "\\|"@);
        lemma_nothing_replaced(s, '\n', " "@);
    }
}

/// No cell breaks its table: a page's cell opens no tag, and no other cell breaks its line.
pub proof fn cells_do_not_break_their_table(s: Seq<char>)
    ensures
        !export::html_cell(s).contains('<'),
        !export::html_cell(s).contains('>'),
        !export::csv_cell(s).contains('\n'),
        !export::md_cell(s).contains('\n'),
{
    reveal_strlit("\"");
    reveal_strlit("\n");
    reveal_strlit(" ");
    reveal_strlit("&");
    reveal_strlit("<");
    reveal_strlit(">");
    reveal_strlit("&lt;");
    reveal_strlit("&gt;");
    assert("\n"@ =~= seq!['\n']);
    assert("<"@ =~= seq!['<']);
    assert(">"@ =~= seq!['>']);
    let masked = text::replaced(s, "&"@, "&amp;"@);
    let opened = text::replaced(masked, "<"@, "&lt;"@);
    lemma_replaced_chars(masked, '<', "&lt;"@, '<');
    lemma_replaced_chars(opened, '>', "&gt;"@, '<');
    lemma_replaced_chars(opened, '>', "&gt;"@, '>');
    let quoted = text::replaced(s, "\""@, "\"\""@);
    lemma_replaced_chars(quoted, '\n', " "@, '\n');
    let inner = text::replaced(quoted, "\n"@, " "@);
    let cell = export::csv_cell(s);
    if cell.contains('\n') {
        let k = choose|k: int| 0 <= k < cell.len() && cell[k] == '\n';
        if 0 < k < cell.len() - 1 {
            assert(inner[k - 1] == '\n');
        }
    }
    lemma_replaced_chars(text::replaced(s, "|"@, "\\|"@), '\n', " "@, '\n');
}

/// The quotes of a cell read back: halving the doubled quotes gives the text again.
pub proof fn doubled_quotes_read_back(s: Seq<char>)
    ensures
        text::replaced(text::replaced(s, "\""@, "\"\""@), "\"\""@, "\""@) == s,
    decreases s.len(),
{
    reveal_strlit("\"");
    reveal_strlit("\"\"");
    let one = "\""@;
    let two = "\"\""@;
    assert(one =~= seq!['"']);
    assert(two =~= seq!['"', '"']);
    if s.len() > 0 {
        let after = text::replaced(s, one, two);
        if text::has_prefix(s, one) {
            let rest = s.skip(1);
            doubled_quotes_read_back(rest);
            let tail = text::replaced(rest, one, two);
            assert(s.take(1)[0] == s[0]);
            assert(after.take(2) =~= two);
            assert(after.skip(2) =~= tail);
            assert(one + rest =~= s);
        } else {
            let rest = s.drop_first();
            doubled_quotes_read_back(rest);
            let tail = text::replaced(rest, one, two);
            assert(s[0] != '"') by {
                if s[0] == '"' {
                    assert(s.take(1) =~= one);
                }
            }
            if text::has_prefix(after, two) {
                assert(after.take(2)[0] == after[0]);
            }
            assert(after.drop_first() =~= tail);
            assert(seq![s[0]] + rest =~= s);
        }
    }
}

/// A format is named in any case, by its name or its short one.
pub proof fn formats_are_named(word: Seq<char>)
    ensures
        export::format_of(word) == Some(ExportFormat::Csv) <==> text::lowercase(word) == "csv"@,
        export::format_of(word) == Some(ExportFormat::Excel) <==> text::lowercase(word) == "excel"@
            || text::lowercase(word) == "xls"@,
        export::format_of(word) == Some(ExportFormat::Markdown) <==> text::lowercase(word)
            == "markdown"@ || text::lowercase(word) == "md"@,
{
    reveal_strlit("csv");
    reveal_strlit("xls");
    reveal_strlit("excel");
    reveal_strlit("markdown");
    reveal_strlit("md");
    assert("csv"@[0] != "xls"@[0]);
    assert("csv"@.len() == 3 && "xls"@.len() == 3 && "excel"@.len() == 5 && "markdown"@.len() == 8
        && "md"@.len() == 2);
}

proof fn lemma_plain_tail(s: Seq<char>, t: Seq<char>)
    requires
        forall|k: int| 0 <= k < t.len() ==> #[trigger] t[k] != '<' && t[k] != '>',
    ensures
        pricing::untagged(s + t) == if pricing::untagged(s).1 {
            (pricing::untagged(s).0, true)
        } else {
            (pricing::untagged(s).0 + t, false)
        },
    decreases t.len(),
{
    if t.len() == 0 {
        assert(s + t =~= s);
        assert(pricing::untagged(s).0 + t =~= pricing::untagged(s).0);
    } else {
        let rest = t.drop_last();
        assert forall|k: int| 0 <= k < rest.len() implies #[trigger] rest[k] != '<' && rest[k]
            != '>' by {
            assert(rest[k] == t[k]);
        }
        lemma_plain_tail(s, rest);
        assert((s + t).drop_last() =~= s + rest);
        assert((s + t).last() == t[t.len() - 1]);
        assert((pricing::untagged(s).0 + rest).push(t.last()) =~= pricing::untagged(s).0 + t);
    }
}

/// Tags are left out and the rest of a page is kept: what stands behind a closed part is added, with or
/// without a tag between.
pub proof fn tags_are_left_out(page: Seq<char>, tag: Seq<char>, more: Seq<char>)
    requires
        !pricing::untagged(page).1,
        forall|k: int| 0 <= k < tag.len() ==> #[trigger] tag[k] != '<' && tag[k] != '>',
        forall|k: int| 0 <= k < more.len() ==> #[trigger] more[k] != '<' && more[k] != '>',
    ensures
        pricing::untagged(page + more).0 == pricing::untagged(page).0 + more,
        pricing::untagged((page.push('<') + tag).push('>') + more).0 == pricing::untagged(page).0
            + more,
{
    lemma_plain_tail(page, more);
    assert(page.push('<').drop_last() =~= page);
    lemma_plain_tail(page.push('<'), tag);
    let closed = (page.push('<') + tag).push('>');
    assert(closed.drop_last() =~= page.push('<') + tag);
    lemma_plain_tail(closed, more);
}

proof fn lemma_joined_front(first: Seq<char>, rest: Seq<Seq<char>>, separator: Seq<char>)
    requires
        rest.len() > 0,
    ensures
        text::concat_with(seq![first] + rest, separator) == first + separator + text::concat_with(
            rest,
            separator,
        ),
    decreases rest.len(),
{
    let all = seq![first] + rest;
    assert(all.last() == rest.last());
    if rest.len() == 1 {
        assert(all.drop_last() =~= seq![first]);
        assert(seq![first].drop_last() =~= Seq::<Seq<char>>::empty());
        assert(text::concat_with(seq![first], separator) =~= first);
        assert(text::concat_with(rest, separator) =~= rest[0]);
    } else {
        let less = rest.drop_last();
        lemma_joined_front(first, less, separator);
        assert(all.drop_last() =~= seq![first] + less);
    }
    assert(text::concat_with(all, separator) =~= first + separator + text::concat_with(
        rest,
        separator,
    ));
}

/// Cutting a page at a separator loses nothing: joined by it, the parts are the page again.
pub proof fn parts_make_up_the_whole(s: Seq<char>, separator: Seq<char>)
    ensures
        pricing::parts(s, separator).len() > 0,
        text::concat_with(pricing::parts(s, separator), separator) == s,
    decreases s.len(),
{
    let at = text::first_at(s, separator);
    if separator.len() > 0 && text::occurs(s, separator) && 0 <= at && at + separator.len()
        <= s.len() {
        let rest = s.skip(at + separator.len());
        parts_make_up_the_whole(rest, separator);
        lemma_joined_front(s.take(at), pricing::parts(rest, separator), separator);
        let found = choose|k: int| text::occurs_at(s, separator, k);
        lemma_some_first(s, separator, found);
        assert(text::occurs_at(s, separator, at));
        assert(s.take(at) + separator + rest =~= s);
    } else {
        assert(seq![s].drop_last() =~= Seq::<Seq<char>>::empty());
        assert(text::concat_with(seq![s], separator) =~= s);
    }
}

proof fn lemma_some_first(hay: Seq<char>, needle: Seq<char>, at: int)
    requires
        text::occurs_at(hay, needle, at),
    ensures
        text::occurs_at(hay, needle, text::first_at(hay, needle)),
    decreases at,
{
    if forall|k: int| 0 <= k < at ==> !text::occurs_at(hay, needle, k) {
        text::lemma_first_at(hay, needle, at);
    } else {
        let k = choose|k: int| 0 <= k < at && text::occurs_at(hay, needle, k);
        lemma_some_first(hay, needle, k);
    }
}

/// The rate of a model is the first that is listed under its name, letters and digits alone counting.
pub proof fn the_first_listed_rate_counts(rates: Seq<ModelRateView>, key: Seq<char>)
    ensures
        match pricing::rate_for(rates, key) {
            Some(found) => exists|k: int|
                0 <= k < rates.len() && #[trigger] rates[k] == found && pricing::model_key(
                    found.model,
                ) == key && forall|j: int|
                    0 <= j < k ==> pricing::model_key((#[trigger] rates[j]).model) != key,
            None => forall|k: int|
                0 <= k < rates.len() ==> pricing::model_key((#[trigger] rates[k]).model) != key,
        },
    decreases rates.len(),
{
    if rates.len() > 0 {
        if pricing::model_key(rates[0].model) == key {
            assert(rates[0] == pricing::rate_for(rates, key).unwrap());
        } else {
            let rest = rates.drop_first();
            the_first_listed_rate_counts(rest, key);
            match pricing::rate_for(rest, key) {
                Some(found) => {
                    let k = choose|k: int|
                        0 <= k < rest.len() && #[trigger] rest[k] == found && pricing::model_key(
                            found.model,
                        ) == key && forall|j: int|
                            0 <= j < k ==> pricing::model_key((#[trigger] rest[j]).model) != key;
                    assert(rates[k + 1] == found);
                    assert forall|j: int| 0 <= j < k + 1 implies pricing::model_key(
                        (#[trigger] rates[j]).model,
                    ) != key by {
                        if j > 0 {
                            assert(rest[j - 1] == rates[j]);
                        }
                    }
                },
                None => {
                    assert forall|j: int| 0 <= j < rates.len() implies pricing::model_key(
                        (#[trigger] rates[j]).model,
                    ) != key by {
                        if j > 0 {
                            assert(rest[j - 1] == rates[j]);
                        }
                    }
                },
            }
        }
    }
}

proof fn lemma_before_char(s: Seq<char>, c: char, tail: Seq<char>)
    requires
        !s.contains(c),
        tail.len() == 0 || tail[0] == c,
    ensures
        text::before_char(s + tail, c) == s,
    decreases s.len(),
{
    let whole = s + tail;
    if s.len() == 0 {
        assert(whole =~= tail);
    } else {
        let rest = s.drop_first();
        assert(s.contains(s[0]));
        assert(!rest.contains(c)) by {
            if rest.contains(c) {
                let k = choose|k: int| 0 <= k < rest.len() && rest[k] == c;
                assert(s[k + 1] == c);
            }
        }
        lemma_before_char(rest, c, tail);
        assert(whole.drop_first() =~= rest + tail);
        assert(seq![s[0]] + rest =~= s);
    }
}

proof fn lemma_after_char(s: Seq<char>, c: char)
    requires
        !s.contains(c),
    ensures
        text::after_last_char(s, c) == s,
    decreases s.len(),
{
    if s.len() > 0 {
        let rest = s.drop_last();
        assert(s.contains(s[s.len() - 1]));
        assert(!rest.contains(c)) by {
            if rest.contains(c) {
                let k = choose|k: int| 0 <= k < rest.len() && rest[k] == c;
                assert(s[k] == c);
            }
        }
        lemma_after_char(rest, c);
        assert(rest.push(s.last()) =~= s);
    }
}

/// The host of an address is what stands between its scheme and its first slash, without a leading
/// `www.`.
pub proof fn hosts_stand_behind_the_scheme(scheme: Seq<char>, host: Seq<char>, tail: Seq<char>)
    requires
        !scheme.contains(':'),
        !host.contains('/'),
        !host.contains('@'),
        !host.contains(':'),
        !text::has_prefix(host, "www."@),
        tail.len() == 0 || tail[0] == '/',
    ensures
        memory::url_host(scheme + "://"@ + (host + tail)) == host,
        memory::url_host(scheme + "://"@ + (("www."@ + host) + tail)) == host,
{
    reveal_strlit("www.");
    lemma_host(scheme, host, tail);
    let long = "www."@ + host;
    assert(!long.contains('/') && !long.contains('@') && !long.contains(':')) by {
        if long.contains('/') {
            let k = choose|k: int| 0 <= k < long.len() && long[k] == '/';
            assert(k >= 4 && host[k - 4] == '/');
        }
        if long.contains('@') {
            let k = choose|k: int| 0 <= k < long.len() && long[k] == '@';
            assert(k >= 4 && host[k - 4] == '@');
        }
        if long.contains(':') {
            let k = choose|k: int| 0 <= k < long.len() && long[k] == ':';
            assert(k >= 4 && host[k - 4] == ':');
        }
    }
    lemma_host(scheme, long, tail);
    assert(long.take(4) =~= "www."@);
    assert(long.skip(4) =~= host);
    assert(text::drop_prefixes(long, "www."@) == text::drop_prefixes(host, "www."@));
    assert(text::drop_prefixes(host, "www."@) == host);
}

proof fn lemma_host(scheme: Seq<char>, host: Seq<char>, tail: Seq<char>)
    requires
        !scheme.contains(':'),
        !host.contains('/'),
        !host.contains('@'),
        !host.contains(':'),
        tail.len() == 0 || tail[0] == '/',
    ensures
        memory::url_host(scheme + "://"@ + (host + tail)) == text::drop_prefixes(host, "www."@),
{
    reveal_strlit("://");
    let mark = "://"@;
    let url = scheme + mark + (host + tail);
    let at = scheme.len() as int;
    assert(url.subrange(at, at + 3) =~= mark);
    assert(text::occurs_at(url, mark, at));
    assert forall|k: int| 0 <= k < at implies !text::occurs_at(url, mark, k) by {
        if text::occurs_at(url, mark, k) {
            assert(url.subrange(k, k + 3)[0] == url[k]);
            assert(url[k] == scheme[k]);
            assert(scheme.contains(scheme[k]));
        }
    }
    text::lemma_first_at(url, mark, at);
    assert(url.skip(at + 3) =~= host + tail);
    lemma_before_char(host, '/', tail);
    lemma_after_char(host, '@');
    lemma_before_char(host, ':', Seq::empty());
    assert(host + Seq::<char>::empty() =~= host);
}

/// A row of the rate card is one with four cells whose first names such a model; it holds that name and
/// the first word of each other cell.
pub proof fn rates_stand_in_rows_of_four(row: Seq<char>)
    ensures
        pricing::rate_row(row) matches Some(found) ==> {
            let cells = pricing::cells(row);
            &&& cells.len() == 4
            &&& text::has_prefix(text::ascii_lower(cells[0]), "gpt-"@)
            &&& cells[0].len() <= 80 ==> found.model == cells[0]
            &&& text::word_list(cells[1]).len() > 0 && found.input == text::replaced(
                text::word_list(cells[1])[0],
                ","@,
                ""@,
            )
            &&& text::word_list(cells[2]).len() > 0 && found.cached == text::replaced(
                text::word_list(cells[2])[0],
                ","@,
                ""@,
            )
            &&& text::word_list(cells[3]).len() > 0 && found.output == text::replaced(
                text::word_list(cells[3])[0],
                ","@,
                ""@,
            )
        },
        pricing::cells(row).len() != 4 ==> pricing::rate_row(row) is None,
{
}

/// Of two sessions that become one, the first gives the words, unless they only tell of something
/// passing and those of the second do not.
pub proof fn joined_sessions_keep_telling_words(left: Seq<char>, right: Seq<char>)
    ensures
        !labels::transient(left) ==> labels::joint_summary(left, right) == left,
        labels::transient(left) && !labels::transient(right) ==> labels::joint_summary(left, right)
            == right,
        labels::transient(left) && labels::transient(right) ==> labels::joint_summary(left, right)
            == left,
        text::occurs(text::lowercase(left), "snipaste"@) || text::occurs(
            text::lowercase(left),
            "新标签页"@,
        ) || text::occurs(text::lowercase(left), "loading"@) || text::occurs(
            text::lowercase(left),
            "加载中"@,
        ) || text::occurs(text::lowercase(left), "无标题"@) ==> labels::transient(left),
{
}

} // verus!
