//! Plan entries from calendar files and other services.
use vstd::prelude::*;
use vstd::string::*;

use crate::models::{PlanItem, PlanItemView};
use crate::plan;
use crate::text;

use std::hash::{BuildHasher, BuildHasherDefault, DefaultHasher};

verus! {

broadcast use vstd::seq_lib::group_seq_properties;

/// Why entries cannot be had.
#[derive(Clone, Copy, Debug, PartialEq, Eq, Structural)]
pub enum PullError {
    /// A time is as long as a date, but cannot be cut where a date is cut.
    BrokenTime,
}

/// A service that has plan entries.
pub trait IntegrationAdapter {
    fn name(&self) -> (result: &'static str);

    fn pull_plan_items(&self) -> (result: Result<Vec<PlanItem>, PullError>);
}

/// A calendar file; without content it is not there.
#[derive(Debug, PartialEq, Eq)]
pub struct IcsAdapter {
    pub path: String,
    pub content: Option<String>,
}

impl IntegrationAdapter for IcsAdapter {
    fn name(&self) -> (result: &'static str)
        ensures
            result@ == "ics"@,
    {
        "ics"
    }

    fn pull_plan_items(&self) -> (result: Result<Vec<PlanItem>, PullError>)
        ensures
            match result {
                Ok(items) => file_entries(text::optional(self.content)) == Ok::<
                    Seq<PlanItemView>,
                    PullError,
                >(plan::plan_views(items@)),
                Err(error) => file_entries(text::optional(self.content)) == Err::<
                    Seq<PlanItemView>,
                    PullError,
                >(error),
            },
    {
        match &self.content {
            Some(content) => parse_ics(content.as_str()),
            None => {
                let none: Vec<PlanItem> = Vec::new();
                assert(plan::plan_views(none@) =~= Seq::empty());
                Ok(none)
            },
        }
    }
}

/// The entries of a file that may be missing.
pub open spec fn file_entries(content: Option<Seq<char>>) -> Result<Seq<PlanItemView>, PullError> {
    match content {
        Some(value) => entries(value),
        None => Ok(Seq::empty()),
    }
}

/// The service has nothing yet.
pub fn google_calendar_placeholder() -> (result: Vec<PlanItem>)
    ensures
        result@.len() == 0,
{
    Vec::new()
}

/// The service has nothing yet.
pub fn microsoft_todo_placeholder() -> (result: Vec<PlanItem>)
    ensures
        result@.len() == 0,
{
    Vec::new()
}

/// The text without white space in front.
pub open spec fn left_trimmed(s: Seq<char>) -> Seq<char> {
    text::skip_while(s, |c: char| text::white(c))
}

fn trim_left(value: &str) -> (result: String)
    ensures
        result@ == left_trimmed(value@),
{
    let chars = text::chars_of(value);
    let ghost drop = |c: char| text::white(c);
    let mut from: usize = 0;
    assert(chars@.skip(0) =~= chars@);
    while from < chars.len() && text::is_white(chars[from])
        invariant
            from <= chars.len(),
            drop == (|c: char| text::white(c)),
            text::skip_while(chars@, drop) == text::skip_while(chars@.skip(from as int), drop),
        decreases chars.len() - from,
    {
        assert(chars@.skip(from as int).drop_first() =~= chars@.skip(from + 1));
        assert(chars@.skip(from as int)[0] == chars@[from as int]);
        from += 1;
    }
    assert(chars@.subrange(from as int, chars.len() as int) =~= chars@.skip(from as int));
    if from < chars.len() {
        assert(chars@.skip(from as int)[0] == chars@[from as int]);
    }
    text::string_of(&chars, from, chars.len())
}

/// The text without one carriage return at its end.
pub open spec fn without_return(s: Seq<char>) -> Seq<char> {
    if s.len() > 0 && s.last() == '\r' {
        s.drop_last()
    } else {
        s
    }
}

/// The lines of a text: what lies between line feeds, with a carriage return before a line feed
/// left out, and without an empty line at the end.
pub open spec fn lines_of(s: Seq<char>) -> Seq<Seq<char>> {
    let parts = text::pieces(s, |c: char| c == '\n');
    let ended = parts.drop_last().map_values(|part: Seq<char>| without_return(part));
    if parts.len() > 0 && parts.last().len() > 0 {
        ended.push(parts.last())
    } else {
        ended
    }
}

fn drop_return(value: &str) -> (result: String)
    ensures
        result@ == without_return(value@),
{
    let chars = text::chars_of(value);
    if chars.len() > 0 && chars[chars.len() - 1] == '\r' {
        assert(chars@.subrange(0, chars.len() - 1) =~= value@.drop_last());
        text::string_of(&chars, 0, chars.len() - 1)
    } else {
        value.to_owned()
    }
}

fn split_lines(value: &str) -> (result: Vec<String>)
    ensures
        text::texts(result@) == lines_of(value@),
{
    let parts = text::split_any(value, "\n");
    let ghost all = text::texts(parts@);
    let ghost change = |part: Seq<char>| without_return(part);
    assert(all == text::pieces(value@, |c: char| c == '\n')) by {
        reveal_strlit("\n");
        assert("\n"@ =~= seq!['\n']);
        assert("\n"@[0] == '\n');
        assert((|c: char| "\n"@.contains(c)) =~= (|c: char| c == '\n'));
    }
    let mut result: Vec<String> = Vec::new();
    if parts.len() == 0 {
        assert(text::texts(result@) =~= lines_of(value@));
        return result;
    }
    let last: usize = parts.len() - 1;
    let mut i: usize = 0;
    assert(text::texts(result@) =~= all.take(0).map_values(change));
    while i < last
        invariant
            i <= last,
            last == parts.len() - 1,
            all == text::texts(parts@),
            change == (|part: Seq<char>| without_return(part)),
            text::texts(result@) == all.take(i as int).map_values(change),
        decreases last - i,
    {
        let ghost before = text::texts(result@);
        let line = drop_return(parts[i].as_str());
        let ghost view = line@;
        result.push(line);
        assert(view == change(all[i as int]));
        assert(text::texts(result@) =~= before.push(view));
        assert(all.take(i + 1).map_values(change) =~= all.take(i as int).map_values(change).push(
            view,
        ));
        i += 1;
    }
    assert(all.take(last as int) =~= all.drop_last());
    if !parts[last].as_str().is_empty() {
        let ghost before = text::texts(result@);
        result.push(parts[last].clone());
        assert(text::texts(result@) =~= before.push(all.last()));
    }
    result
}

/// A line that goes on with the one before.
pub open spec fn continues(line: Seq<char>) -> bool {
    line.len() > 0 && (line[0] == ' ' || line[0] == '\t')
}

/// The lines with those that go on joined to the ones before.
pub open spec fn unfolded(lines: Seq<Seq<char>>) -> Seq<Seq<char>>
    decreases lines.len(),
{
    if lines.len() == 0 {
        Seq::empty()
    } else {
        let before = unfolded(lines.drop_last());
        let line = lines.last();
        if continues(line) {
            if before.len() == 0 {
                before
            } else {
                before.drop_last().push(before.last() + left_trimmed(line))
            }
        } else {
            before.push(text::drop_tail_while(line, |c: char| c == '\r'))
        }
    }
}

/// The lines of a calendar file, each in one piece.
pub fn unfold_ics_lines(value: &str) -> (result: Vec<String>)
    ensures
        text::texts(result@) == unfolded(lines_of(value@)),
{
    let lines = split_lines(value);
    let ghost all = text::texts(lines@);
    let mut result: Vec<String> = Vec::new();
    let mut i: usize = 0;
    assert(text::texts(result@) =~= unfolded(all.take(0)));
    while i < lines.len()
        invariant
            i <= lines.len(),
            all == text::texts(lines@),
            text::texts(result@) == unfolded(all.take(i as int)),
        decreases lines.len() - i,
    {
        let ghost before = text::texts(result@);
        assert(all.take(i + 1).drop_last() =~= all.take(i as int));
        assert(all.take(i + 1).last() == lines@[i as int]@);
        let line = lines[i].as_str();
        let chars = text::chars_of(line);
        if chars.len() > 0 && (chars[0] == ' ' || chars[0] == '\t') {
            if result.len() > 0 {
                let at: usize = result.len() - 1;
                let rest = trim_left(line);
                let longer = text::joined(result[at].as_str(), rest.as_str());
                let ghost view = longer@;
                result.set(at, longer);
                assert(text::texts(result@) =~= before.drop_last().push(view));
            }
        } else {
            let cut = text::trim_end_char(line, '\r');
            let ghost view = cut@;
            result.push(cut);
            assert(text::texts(result@) =~= before.push(view));
        }
        i += 1;
    }
    assert(all.take(lines.len() as int) =~= all);
    result
}

/// What stands behind the first colon.
pub open spec fn behind_colon(line: Seq<char>) -> Option<Seq<char>> {
    if text::occurs(line, ":"@) {
        Some(line.skip(text::first_at(line, ":"@) + ":"@.len()))
    } else {
        None
    }
}

fn read_behind_colon(line: &str) -> (result: Option<String>)
    ensures
        text::optional(result) == behind_colon(line@),
{
    match text::split_once(line, ":") {
        Some((_, rest)) => Some(rest),
        None => None,
    }
}

/// The value of a property, where the line is about it.
pub open spec fn value_of(line: Seq<char>, name: Seq<char>) -> Option<Seq<char>> {
    if text::has_prefix(line, name + ":"@) || text::has_prefix(line, name + ";"@) {
        behind_colon(line)
    } else {
        None
    }
}

/// Reads the value of a property, where the line is about it.
pub fn property_value(line: &str, name: &str) -> (result: Option<String>)
    ensures
        text::optional(result) == value_of(line@, name@),
{
    let plain = text::joined(name, ":");
    let with_parameters = text::joined(name, ";");
    if text::starts_with(line, plain.as_str()) || text::starts_with(
        line,
        with_parameters.as_str(),
    ) {
        read_behind_colon(line)
    } else {
        None
    }
}

/// The text with its escapes resolved.
pub open spec fn unescaped(v: Seq<char>) -> Seq<char> {
    text::replaced(
        text::replaced(
            text::replaced(text::replaced(v, "\\n"@, " "@), "\\,"@, ","@),
            "\\;"@,
            ";"@,
        ),
        "\\\\"@,
        "\\"@,
    )
}

/// Resolves the escapes of a text.
pub fn unescape_ics(value: &str) -> (result: String)
    ensures
        result@ == unescaped(value@),
{
    proof {
        reveal_strlit("\\n");
        reveal_strlit("\\,");
        reveal_strlit("\\;");
        reveal_strlit("\\\\");
    }
    let a = text::replace(value, "\\n", " ");
    let b = text::replace(a.as_str(), "\\,", ",");
    let c = text::replace(b.as_str(), "\\;", ";");
    text::replace(c.as_str(), "\\\\", "\\")
}

/// How many bytes a character takes in UTF-8.
pub open spec fn width(c: char) -> nat {
    if (c as u32) < 0x80 {
        1
    } else if (c as u32) < 0x800 {
        2
    } else if (c as u32) < 0x10000 {
        3
    } else {
        4
    }
}

fn width_of(c: char) -> (result: usize)
    ensures
        result == width(c),
        1 <= result <= 4,
{
    let code: u32 = c as u32;
    if code < 0x80 {
        1
    } else if code < 0x800 {
        2
    } else if code < 0x10000 {
        3
    } else {
        4
    }
}

/// How many bytes a text takes.
pub open spec fn byte_len(s: Seq<char>) -> nat
    decreases s.len(),
{
    if s.len() == 0 {
        0
    } else {
        byte_len(s.drop_last()) + width(s.last())
    }
}

/// How many characters the first so many bytes are, where a character ends there.
pub open spec fn chars_in(s: Seq<char>, bytes: nat) -> Option<nat>
    decreases s.len(),
{
    if byte_len(s) == bytes {
        Some(s.len())
    } else if s.len() == 0 {
        None
    } else {
        chars_in(s.drop_last(), bytes)
    }
}

/// The text between two places, counted in bytes, where characters end there.
pub open spec fn byte_cut(s: Seq<char>, from: nat, to: nat) -> Option<Seq<char>> {
    match (chars_in(s, from), chars_in(s, to)) {
        (Some(a), Some(b)) => if a <= b {
            Some(s.subrange(a as int, b as int))
        } else {
            None
        },
        _ => None,
    }
}

proof fn lemma_byte_len_grows(s: Seq<char>, k: int)
    requires
        0 <= k < s.len(),
    ensures
        byte_len(s.take(k)) < byte_len(s),
        byte_len(s) >= s.len(),
    decreases s.len(),
{
    if k < s.len() - 1 {
        lemma_byte_len_grows(s.drop_last(), k);
        assert(s.drop_last().take(k) =~= s.take(k));
    } else {
        assert(s.take(k) =~= s.drop_last());
        if s.len() > 1 {
            lemma_byte_len_grows(s.drop_last(), 0);
        }
    }
}

proof fn lemma_chars_in(s: Seq<char>, bytes: nat, k: int)
    requires
        0 <= k <= s.len(),
        byte_len(s.take(k)) == bytes,
    ensures
        chars_in(s, bytes) == Some(k as nat),
    decreases s.len(),
{
    if k == s.len() {
        assert(s.take(k) =~= s);
    } else {
        lemma_byte_len_grows(s, k);
        assert(s.drop_last().take(k) =~= s.take(k));
        lemma_chars_in(s.drop_last(), bytes, k);
    }
}

proof fn lemma_chars_in_none(s: Seq<char>, bytes: nat)
    requires
        forall|k: int| 0 <= k <= s.len() ==> byte_len(#[trigger] s.take(k)) != bytes,
    ensures
        chars_in(s, bytes) is None,
    decreases s.len(),
{
    assert(s.take(s.len() as int) =~= s);
    if s.len() > 0 {
        assert forall|k: int| 0 <= k <= s.len() - 1 implies byte_len(
            #[trigger] s.drop_last().take(k),
        ) != bytes by {
            assert(s.drop_last().take(k) =~= s.take(k));
        }
        lemma_chars_in_none(s.drop_last(), bytes);
    }
}

fn count_chars_in(chars: &Vec<char>, bytes: usize) -> (result: Option<usize>)
    requires
        bytes <= 15,
    ensures
        match result {
            Some(count) => chars_in(chars@, bytes as nat) == Some(count as nat) && count
                <= chars.len(),
            None => chars_in(chars@, bytes as nat) is None,
        },
{
    let mut sum: usize = 0;
    let mut i: usize = 0;
    assert(chars@.take(0) =~= Seq::empty());
    while i < chars.len() && sum < bytes
        invariant
            i <= chars.len(),
            bytes <= 15,
            sum <= 19,
            sum == byte_len(chars@.take(i as int)),
            forall|k: int| 0 <= k < i ==> byte_len(#[trigger] chars@.take(k)) < bytes,
        decreases chars.len() - i,
    {
        assert(chars@.take(i + 1).drop_last() =~= chars@.take(i as int));
        sum = sum + width_of(chars[i]);
        i += 1;
    }
    if sum == bytes {
        proof {
            lemma_chars_in(chars@, bytes as nat, i as int);
        }
        Some(i)
    } else {
        proof {
            assert forall|k: int| 0 <= k <= chars@.len() implies byte_len(
                #[trigger] chars@.take(k),
            ) != bytes by {
                if k > i {
                    lemma_byte_len_grows(chars@.take(k), i as int);
                    assert(chars@.take(k).take(i as int) =~= chars@.take(i as int));
                }
            }
            lemma_chars_in_none(chars@, bytes as nat);
        }
        None
    }
}

fn cut_bytes(chars: &Vec<char>, from: usize, to: usize) -> (result: Option<String>)
    requires
        from <= to <= 15,
    ensures
        text::optional(result) == byte_cut(chars@, from as nat, to as nat),
{
    match (count_chars_in(chars, from), count_chars_in(chars, to)) {
        (Some(a), Some(b)) => if a <= b {
            Some(text::string_of(chars, a, b))
        } else {
            None
        },
        _ => None,
    }
}

/// The time without the mark for universal time.
pub open spec fn unmarked(v: Seq<char>) -> Seq<char> {
    text::drop_tail_while(v, |c: char| c == 'Z')
}

/// The cuts of a date.
pub open spec fn date_cuts(v: Seq<char>) -> Option<Seq<char>> {
    match (byte_cut(v, 0, 4), byte_cut(v, 4, 6), byte_cut(v, 6, 8)) {
        (Some(year), Some(month), Some(day)) => Some(year + "-"@ + month + "-"@ + day),
        _ => None,
    }
}

/// The cuts of a time of day.
pub open spec fn clock_cuts(v: Seq<char>) -> Option<Seq<char>> {
    match (byte_cut(v, 9, 11), byte_cut(v, 11, 13), byte_cut(v, 13, 15)) {
        (Some(hour), Some(minute), Some(second)) => Some(hour + ":"@ + minute + ":"@ + second),
        _ => None,
    }
}

/// A calendar time in the usual form; none where it cannot be cut.
pub open spec fn normal_time(value: Seq<char>) -> Option<Seq<char>> {
    let v = unmarked(value);
    if byte_len(v) == 8 {
        match date_cuts(v) {
            Some(date) => Some(date + "T00:00:00Z"@),
            None => None,
        }
    } else if byte_len(v) >= 15 {
        match (date_cuts(v), clock_cuts(v)) {
            (Some(date), Some(time)) => Some(date + "T"@ + time + "Z"@),
            _ => None,
        }
    } else {
        Some(v)
    }
}

fn join_three(a: &str, b: &str, c: &str, between: &str) -> (result: String)
    ensures
        result@ == a@ + between@ + b@ + between@ + c@,
{
    let mut all = text::joined(a, between);
    all = text::joined(all.as_str(), b);
    all = text::joined(all.as_str(), between);
    text::joined(all.as_str(), c)
}

fn cut_date(chars: &Vec<char>) -> (result: Option<String>)
    ensures
        text::optional(result) == date_cuts(chars@),
{
    match (cut_bytes(chars, 0, 4), cut_bytes(chars, 4, 6), cut_bytes(chars, 6, 8)) {
        (Some(year), Some(month), Some(day)) => Some(
            join_three(year.as_str(), month.as_str(), day.as_str(), "-"),
        ),
        _ => None,
    }
}

fn cut_clock(chars: &Vec<char>) -> (result: Option<String>)
    ensures
        text::optional(result) == clock_cuts(chars@),
{
    match (cut_bytes(chars, 9, 11), cut_bytes(chars, 11, 13), cut_bytes(chars, 13, 15)) {
        (Some(hour), Some(minute), Some(second)) => Some(
            join_three(hour.as_str(), minute.as_str(), second.as_str(), ":"),
        ),
        _ => None,
    }
}

/// How many bytes the characters take, counted up to 15.
fn count_bytes(chars: &Vec<char>) -> (result: usize)
    ensures
        byte_len(chars@) < 15 ==> result == byte_len(chars@),
        byte_len(chars@) >= 15 ==> result >= 15,
{
    let mut sum: usize = 0;
    let mut i: usize = 0;
    assert(chars@.take(0) =~= Seq::empty());
    while i < chars.len() && sum < 15
        invariant
            i <= chars.len(),
            sum <= 18,
            sum == byte_len(chars@.take(i as int)),
        decreases chars.len() - i,
    {
        assert(chars@.take(i + 1).drop_last() =~= chars@.take(i as int));
        sum = sum + width_of(chars[i]);
        i += 1;
    }
    proof {
        if i < chars.len() {
            lemma_byte_len_grows(chars@, i as int);
        } else {
            assert(chars@.take(i as int) =~= chars@);
        }
    }
    sum
}

/// Writes a calendar time in the usual form; none where it cannot be cut.
pub fn normalize_ics_time(value: &str) -> (result: Option<String>)
    ensures
        text::optional(result) == normal_time(value@),
{
    let v = text::trim_end_char(value, 'Z');
    let chars = text::chars_of(v.as_str());
    let bytes: usize = count_bytes(&chars);
    if bytes == 8 {
        match cut_date(&chars) {
            Some(date) => Some(text::joined(date.as_str(), "T00:00:00Z")),
            None => None,
        }
    } else if bytes >= 15 {
        match (cut_date(&chars), cut_clock(&chars)) {
            (Some(date), Some(time)) => {
                let head = text::joined(date.as_str(), "T");
                let most = text::joined(head.as_str(), time.as_str());
                Some(text::joined(most.as_str(), "Z"))
            },
            _ => None,
        }
    } else {
        Some(v)
    }
}

/// A character that identifiers may have, or a hyphen in its place.
pub open spec fn id_char(c: char) -> char {
    if ('a' <= c && c <= 'z') || ('A' <= c && c <= 'Z') || ('0' <= c && c <= '9') || c == '-' || c
        == '_' || c == '.' {
        c
    } else {
        '-'
    }
}

/// Makes an identifier of a text.
pub fn sanitize_id(value: &str) -> (result: String)
    ensures
        result@ == value@.map_values(|c: char| id_char(c)),
{
    let chars = text::chars_of(value);
    let ghost change = |c: char| id_char(c);
    let mut result: String = String::new();
    let mut i: usize = 0;
    assert(result@ =~= value@.take(0).map_values(change));
    while i < chars.len()
        invariant
            i <= chars.len(),
            chars@ == value@,
            change == (|c: char| id_char(c)),
            result@ == value@.take(i as int).map_values(change),
        decreases chars.len() - i,
    {
        let c = chars[i];
        let plain = ('a' <= c && c <= 'z') || ('A' <= c && c <= 'Z') || ('0' <= c && c <= '9') || c
            == '-' || c == '_' || c == '.';
        let ghost before = result@;
        if plain {
            result.push(c);
        } else {
            result.push('-');
        }
        assert(result@ =~= before.push(change(c)));
        assert(value@.take(i + 1).map_values(change) =~= value@.take(i as int).map_values(
            change,
        ).push(change(c)));
        i += 1;
    }
    assert(value@.take(chars.len() as int) =~= value@);
    result
}

/// The hash of a text.
pub uninterp spec fn text_hash(value: Seq<char>) -> u64;

/// Trusted: `BuildHasher::hash_one` with the default `DefaultHasher` of the standard library,
/// which no process seeds; the text alone decides the result. Which number it is, is the business
/// of the release of the standard library.
#[verifier::external_body]
fn hash_text(value: &str) -> (result: u64)
    ensures
        result == text_hash(value@),
{
    BuildHasherDefault::<DefaultHasher>::default().hash_one(value)
}

/// The digit in base sixteen.
pub open spec fn hex_digit(n: nat) -> char {
    if n < 10 {
        text::digit(n)
    } else if n == 10 {
        'a'
    } else if n == 11 {
        'b'
    } else if n == 12 {
        'c'
    } else if n == 13 {
        'd'
    } else if n == 14 {
        'e'
    } else {
        'f'
    }
}

/// The number in base sixteen.
pub open spec fn hexadecimal(n: nat) -> Seq<char>
    decreases n,
{
    if n < 16 {
        seq![hex_digit(n)]
    } else {
        hexadecimal(n / 16).push(hex_digit(n % 16))
    }
}

fn hex_digit_char(n: u64) -> (result: char)
    requires
        n < 16,
    ensures
        result == hex_digit(n as nat),
{
    if n < 10 {
        text::digit_char(n)
    } else if n == 10 {
        'a'
    } else if n == 11 {
        'b'
    } else if n == 12 {
        'c'
    } else if n == 13 {
        'd'
    } else if n == 14 {
        'e'
    } else {
        'f'
    }
}

fn hex_text(n: u64) -> (result: String)
    ensures
        result@ == hexadecimal(n as nat),
    decreases n,
{
    if n < 16 {
        let mut result: String = String::new();
        result.push(hex_digit_char(n));
        assert(result@ =~= hexadecimal(n as nat));
        result
    } else {
        let mut result = hex_text(n / 16);
        result.push(hex_digit_char(n % 16));
        result
    }
}

/// A short text that stands for a longer one.
pub fn stable_hash(value: &str) -> (result: String)
    ensures
        result@ == hexadecimal(text_hash(value@) as nat),
{
    hex_text(hash_text(value))
}

/// A text in quotes, as the standard library shows it to developers.
pub uninterp spec fn quoted(value: Seq<char>) -> Seq<char>;

/// Trusted: the `Debug` form of a `str`, in quotes and with escapes; the text alone decides the
/// result.
#[verifier::external_body]
fn quote(value: &str) -> (result: String)
    ensures
        result@ == quoted(value@),
{
    format!("{value:?}")
}

/// The developers' form of a text that may be missing.
pub open spec fn quoted_optional(value: Option<Seq<char>>) -> Seq<char> {
    match value {
        Some(inner) => "Some("@ + quoted(inner) + ")"@,
        None => "None"@,
    }
}

fn quote_optional(value: &Option<String>) -> (result: String)
    ensures
        result@ == quoted_optional(text::optional(*value)),
{
    match value {
        Some(inner) => {
            let form = quote(inner.as_str());
            let head = text::joined("Some(", form.as_str());
            text::joined(head.as_str(), ")")
        },
        None => "None".to_owned(),
    }
}

/// What is known of an event while its lines are read.
#[verifier::ext_equal]
pub struct EventView {
    pub open: bool,
    pub uid: Seq<char>,
    pub title: Seq<char>,
    pub start: Option<Seq<char>>,
    pub end: Option<Seq<char>>,
    pub note: Option<Seq<char>>,
    pub status: Seq<char>,
    pub items: Seq<PlanItemView>,
}

struct Event {
    open: bool,
    uid: String,
    title: String,
    start: Option<String>,
    end: Option<String>,
    note: Option<String>,
    status: String,
    items: Vec<PlanItem>,
}

impl Event {
    spec fn model(self) -> EventView {
        EventView {
            open: self.open,
            uid: self.uid@,
            title: self.title@,
            start: text::optional(self.start),
            end: text::optional(self.end),
            note: text::optional(self.note),
            status: self.status@,
            items: plan::plan_views(self.items@),
        }
    }
}

/// The state before the first line.
pub open spec fn nothing_read() -> EventView {
    EventView {
        open: false,
        uid: Seq::empty(),
        title: Seq::empty(),
        start: None,
        end: None,
        note: None,
        status: "planned"@,
        items: Seq::empty(),
    }
}

/// What an event is known by.
pub open spec fn event_id(event: EventView) -> Seq<char> {
    if event.uid.len() == 0 {
        hexadecimal(
            text_hash(
                quoted(event.title) + quoted_optional(event.start) + quoted_optional(event.end)
                    + quoted_optional(event.note),
            ) as nat,
        )
    } else {
        event.uid
    }
}

/// The entry of an event.
pub open spec fn event_entry(event: EventView) -> PlanItemView {
    PlanItemView {
        id: "ics:"@ + event_id(event),
        source: "ICS"@,
        title: event.title,
        note: event.note,
        start_at: event.start,
        due_at: match event.end {
            Some(end) => Some(end),
            None => event.start,
        },
        status: event.status,
        tags: seq!["日历"@],
        matched_session_ids: Seq::empty(),
    }
}

/// The time that a line gives, where it gives one; none where it cannot be cut.
pub open spec fn line_time(line: Seq<char>) -> Option<Option<Seq<char>>> {
    match behind_colon(line) {
        Some(value) => match normal_time(value) {
            Some(time) => Some(Some(time)),
            None => None,
        },
        None => Some(None),
    }
}

/// The event with a property of it read.
pub open spec fn with_property(event: EventView, line: Seq<char>) -> Option<EventView> {
    match value_of(line, "UID"@) {
        Some(v) => Some(EventView { uid: v.map_values(|c: char| id_char(c)), ..event }),
        None => match value_of(line, "SUMMARY"@) {
            Some(v) => Some(EventView { title: unescaped(v), ..event }),
            None => match value_of(line, "DESCRIPTION"@) {
                Some(v) => Some(EventView { note: Some(unescaped(v)), ..event }),
                None => match value_of(line, "STATUS"@) {
                    Some(v) => Some(EventView { status: text::lowercase(v), ..event }),
                    None => if text::has_prefix(line, "DTSTART"@) {
                        match line_time(line) {
                            Some(start) => Some(EventView { start, ..event }),
                            None => None,
                        }
                    } else if text::has_prefix(line, "DTEND"@) {
                        match line_time(line) {
                            Some(end) => Some(EventView { end, ..event }),
                            None => None,
                        }
                    } else {
                        Some(event)
                    },
                },
            },
        },
    }
}

/// The state behind a line; none where its time cannot be cut.
pub open spec fn with_line(event: EventView, line: Seq<char>) -> Option<EventView> {
    if line == "BEGIN:VEVENT"@ {
        Some(EventView { open: true, items: event.items, ..nothing_read() })
    } else if line == "END:VEVENT"@ && event.open {
        Some(
            EventView {
                open: false,
                items: if event.title.len() == 0 {
                    event.items
                } else {
                    event.items.push(event_entry(event))
                },
                ..event
            },
        )
    } else if event.open {
        with_property(event, line)
    } else {
        Some(event)
    }
}

/// The state behind these lines.
pub open spec fn with_lines(lines: Seq<Seq<char>>) -> Option<EventView>
    decreases lines.len(),
{
    if lines.len() == 0 {
        Some(nothing_read())
    } else {
        match with_lines(lines.drop_last()) {
            Some(event) => with_line(event, text::trimmed(lines.last())),
            None => None,
        }
    }
}

/// The entries of a calendar file.
pub open spec fn entries(content: Seq<char>) -> Result<Seq<PlanItemView>, PullError> {
    match with_lines(unfolded(lines_of(content))) {
        Some(event) => Ok(event.items),
        None => Err(PullError::BrokenTime),
    }
}

fn write_entry(event: &Event) -> (result: PlanItem)
    ensures
        result@ == event_entry(event.model()),
{
    let known_by = if event.uid.as_str().is_empty() {
        let title = quote(event.title.as_str());
        let start = quote_optional(&event.start);
        let end = quote_optional(&event.end);
        let note = quote_optional(&event.note);
        let mut all = text::joined(title.as_str(), start.as_str());
        all = text::joined(all.as_str(), end.as_str());
        all = text::joined(all.as_str(), note.as_str());
        stable_hash(all.as_str())
    } else {
        event.uid.clone()
    };
    let mut tags: Vec<String> = Vec::new();
    tags.push("日历".to_owned());
    assert(text::texts(tags@) =~= seq!["日历"@]);
    let none: Vec<String> = Vec::new();
    assert(text::texts(none@) =~= Seq::empty());
    PlanItem {
        id: text::joined("ics:", known_by.as_str()),
        source: "ICS".to_owned(),
        title: event.title.clone(),
        note: event.note.clone(),
        start_at: event.start.clone(),
        due_at: match &event.end {
            Some(end) => Some(end.clone()),
            None => event.start.clone(),
        },
        status: event.status.clone(),
        tags,
        matched_session_ids: none,
    }
}

fn read_line_time(line: &str) -> (result: Option<Option<String>>)
    ensures
        match result {
            Some(time) => line_time(line@) == Some(text::optional(time)),
            None => line_time(line@) is None,
        },
{
    match read_behind_colon(line) {
        Some(value) => match normalize_ics_time(value.as_str()) {
            Some(time) => Some(Some(time)),
            None => None,
        },
        None => Some(None),
    }
}

fn read_property(event: Event, line: &str) -> (result: Option<Event>)
    ensures
        match result {
            Some(after) => with_property(event.model(), line@) == Some(after.model()),
            None => with_property(event.model(), line@) is None,
        },
{
    let mut after = event;
    if let Some(v) = property_value(line, "UID") {
        after.uid = sanitize_id(v.as_str());
    } else if let Some(v) = property_value(line, "SUMMARY") {
        after.title = unescape_ics(v.as_str());
    } else if let Some(v) = property_value(line, "DESCRIPTION") {
        after.note = Some(unescape_ics(v.as_str()));
    } else if let Some(v) = property_value(line, "STATUS") {
        after.status = v.as_str().to_lowercase();
    } else if text::starts_with(line, "DTSTART") {
        match read_line_time(line) {
            Some(start) => {
                after.start = start;
            },
            None => {
                return None;
            },
        }
    } else if text::starts_with(line, "DTEND") {
        match read_line_time(line) {
            Some(end) => {
                after.end = end;
            },
            None => {
                return None;
            },
        }
    }
    Some(after)
}

fn read_line(event: Event, line: &str) -> (result: Option<Event>)
    ensures
        match result {
            Some(after) => with_line(event.model(), line@) == Some(after.model()),
            None => with_line(event.model(), line@) is None,
        },
{
    if text::same(line, "BEGIN:VEVENT") {
        let fresh = String::new();
        let empty = String::new();
        assert(fresh@ =~= Seq::empty());
        assert(empty@ =~= Seq::empty());
        Some(
            Event {
                open: true,
                uid: fresh,
                title: empty,
                start: None,
                end: None,
                note: None,
                status: "planned".to_owned(),
                items: event.items,
            },
        )
    } else if text::same(line, "END:VEVENT") && event.open {
        let mut after = event;
        if !after.title.as_str().is_empty() {
            let ghost before = plan::plan_views(after.items@);
            let entry = write_entry(&after);
            let ghost view = entry@;
            after.items.push(entry);
            assert(plan::plan_views(after.items@) =~= before.push(view));
        }
        after.open = false;
        Some(after)
    } else if event.open {
        read_property(event, line)
    } else {
        Some(event)
    }
}

proof fn lemma_lines_none(lines: Seq<Seq<char>>, n: int)
    requires
        0 <= n <= lines.len(),
        with_lines(lines.take(n)) is None,
    ensures
        with_lines(lines) is None,
    decreases lines.len(),
{
    if n < lines.len() {
        assert(lines.drop_last().take(n) =~= lines.take(n));
        lemma_lines_none(lines.drop_last(), n);
    } else {
        assert(lines.take(n) =~= lines);
    }
}

/// Reads the entries of a calendar file.
pub fn parse_ics(content: &str) -> (result: Result<Vec<PlanItem>, PullError>)
    ensures
        match result {
            Ok(items) => entries(content@) == Ok::<Seq<PlanItemView>, PullError>(
                plan::plan_views(items@),
            ),
            Err(error) => entries(content@) == Err::<Seq<PlanItemView>, PullError>(error),
        },
{
    let lines = unfold_ics_lines(content);
    let ghost all = text::texts(lines@);
    let uid = String::new();
    let title = String::new();
    let items: Vec<PlanItem> = Vec::new();
    assert(uid@ =~= Seq::empty());
    assert(title@ =~= Seq::empty());
    assert(plan::plan_views(items@) =~= Seq::empty());
    let mut event = Event {
        open: false,
        uid,
        title,
        start: None,
        end: None,
        note: None,
        status: "planned".to_owned(),
        items,
    };
    let mut i: usize = 0;
    assert(all.take(0) =~= Seq::empty());
    while i < lines.len()
        invariant
            i <= lines.len(),
            all == text::texts(lines@),
            all == unfolded(lines_of(content@)),
            with_lines(all.take(i as int)) == Some(event.model()),
        decreases lines.len() - i,
    {
        assert(all.take(i + 1).drop_last() =~= all.take(i as int));
        assert(all.take(i + 1).last() == lines@[i as int]@);
        let line = text::trim(lines[i].as_str());
        match read_line(event, line.as_str()) {
            Some(after) => {
                event = after;
            },
            None => {
                proof {
                    lemma_lines_none(all, i + 1);
                }
                return Err(PullError::BrokenTime);
            },
        }
        i += 1;
    }
    assert(all.take(lines.len() as int) =~= all);
    Ok(event.items)
}

proof fn lemma_items_have_titles(lines: Seq<Seq<char>>)
    requires
        with_lines(lines) is Some,
    ensures
        forall|k: int|
            0 <= k < with_lines(lines).unwrap().items.len() ==> (
            #[trigger] with_lines(lines).unwrap().items[k]).title.len() > 0
                && with_lines(lines).unwrap().items[k].source == "ICS"@
                && with_lines(lines).unwrap().items[k].matched_session_ids.len() == 0,
    decreases lines.len(),
{
    if lines.len() > 0 {
        lemma_items_have_titles(lines.drop_last());
    }
}

/// Every entry that a calendar file gives has a title, says where it comes from, and matches no
/// session yet.
pub proof fn calendar_entries_are_titled(content: Seq<char>)
    requires
        entries(content) is Ok,
    ensures
        forall|k: int|
            0 <= k < entries(content)->Ok_0.len() ==> (
            #[trigger] entries(content)->Ok_0[k]).title.len() > 0 && entries(content)->Ok_0[k].source
                == "ICS"@ && entries(content)->Ok_0[k].matched_session_ids.len() == 0,
{
    lemma_items_have_titles(unfolded(lines_of(content)));
}

} // verus!
