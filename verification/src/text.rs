//! Text as sequences of characters: trimming, searching, splitting and ordering.
//!
//! The models work on `Seq<char>`; the executable functions take `&str` and
//! return owned strings, so that every step of a text rule has its own contract.
use vstd::prelude::*;
use vstd::string::*;

verus! {

broadcast use vstd::seq_lib::group_seq_properties;

/// Trusted: `String::push` appends one character to the end of the string.
pub assume_specification[ String::push ](value: &mut String, ch: char)
    ensures
        final(value)@ == old(value)@.push(ch),
;

/// The lower-case form of a text under Unicode's `Lowercase` mapping.
pub uninterp spec fn lowercase(value: Seq<char>) -> Seq<char>;

/// Trusted: `str::to_lowercase` returns the lower-case equivalent of the text, which
/// depends on the text alone and is empty for an empty text. The mapping itself is Unicode's and
/// is not written out.
pub assume_specification[ str::to_lowercase ](value: &str) -> (result: String)
    ensures
        result@ == lowercase(value@),
        value@.len() == 0 ==> result@.len() == 0,
;

/// The empty text, which is its own lower case.
pub(crate) fn empty_lowercase() -> (result: String)
    ensures
        result@ == Seq::<char>::empty(),
        lowercase(Seq::empty()) == Seq::<char>::empty(),
{
    let nothing = String::new();
    assert(nothing@ =~= Seq::empty());
    let result = nothing.as_str().to_lowercase();
    assert(result@ =~= Seq::empty());
    result
}

/// Whether a character is a letter or a number in Unicode's sense.
pub uninterp spec fn alphanumeric(c: char) -> bool;

/// Trusted: `char::is_alphanumeric` tests the character against Unicode's alphabetic
/// and numeric classes; the classes are not written out.
pub assume_specification[ char::is_alphanumeric ](c: char) -> (result: bool)
    ensures
        result == alphanumeric(c),
;

/// Copies the characters of `value` into a vector.
pub fn chars_of(value: &str) -> (result: Vec<char>)
    ensures
        result@ == value@,
{
    let mut result: Vec<char> = Vec::new();
    for c in iter: value.chars()
        invariant
            result@ == iter.seq().take(iter.index()),
            iter.seq() == value@,
    {
        result.push(c);
    }
    result
}

/// Joins the characters `from..to` of `chars` into a string.
pub fn string_of(chars: &Vec<char>, from: usize, to: usize) -> (result: String)
    requires
        from <= to <= chars.len(),
    ensures
        result@ == chars@.subrange(from as int, to as int),
{
    let mut result: String = String::new();
    let mut i: usize = from;
    while i < to
        invariant
            from <= i <= to <= chars.len(),
            result@ == chars@.subrange(from as int, i as int),
        decreases to - i,
    {
        result.push(chars[i]);
        i += 1;
    }
    result
}

/// Text equality.
pub fn same(left: &str, right: &str) -> (result: bool)
    ensures
        result == (left@ == right@),
{
    left.to_owned() == right.to_owned()
}

/// Two strings with `extra` behind `base`.
pub fn joined(base: &str, extra: &str) -> (result: String)
    ensures
        result@ == base@ + extra@,
{
    let mut result = base.to_owned();
    result.append(extra);
    result
}

/// Characters with Unicode's `White_Space` property.
pub open spec fn white(c: char) -> bool {
    let code = c as u32;
    ||| 9 <= code <= 13
    ||| code == 0x20
    ||| code == 0x85
    ||| code == 0xA0
    ||| code == 0x1680
    ||| 0x2000 <= code <= 0x200A
    ||| code == 0x2028
    ||| code == 0x2029
    ||| code == 0x202F
    ||| code == 0x205F
    ||| code == 0x3000
}

pub fn is_white(c: char) -> (result: bool)
    ensures
        result == white(c),
{
    let code: u32 = c as u32;
    (9 <= code && code <= 13) || code == 0x20 || code == 0x85 || code == 0xA0 || code == 0x1680
        || (0x2000 <= code && code <= 0x200A) || code == 0x2028 || code == 0x2029 || code == 0x202F
        || code == 0x205F || code == 0x3000
}

/// `s` without the leading characters that satisfy `drop`.
pub open spec fn skip_while(s: Seq<char>, drop: spec_fn(char) -> bool) -> Seq<char>
    decreases s.len(),
{
    if s.len() > 0 && drop(s[0]) {
        skip_while(s.drop_first(), drop)
    } else {
        s
    }
}

/// `s` without the trailing characters that satisfy `drop`.
pub open spec fn drop_tail_while(s: Seq<char>, drop: spec_fn(char) -> bool) -> Seq<char>
    decreases s.len(),
{
    if s.len() > 0 && drop(s.last()) {
        drop_tail_while(s.drop_last(), drop)
    } else {
        s
    }
}

/// `s` without white space at either end.
pub open spec fn trimmed(s: Seq<char>) -> Seq<char> {
    drop_tail_while(skip_while(s, |c: char| white(c)), |c: char| white(c))
}

/// What is left of `s` begins and ends where it should: the edges do not satisfy `drop`,
/// and it is a contiguous piece of `s`.
pub proof fn lemma_trim_edges(s: Seq<char>, drop: spec_fn(char) -> bool)
    ensures
        ({
            let t = drop_tail_while(skip_while(s, drop), drop);
            &&& t.len() > 0 ==> !drop(t[0]) && !drop(t.last())
            &&& t.len() <= s.len()
        }),
{
    lemma_skip_while(s, drop);
    lemma_drop_tail_while(skip_while(s, drop), drop);
}

pub proof fn lemma_skip_while(s: Seq<char>, drop: spec_fn(char) -> bool)
    ensures
        skip_while(s, drop).len() <= s.len(),
        skip_while(s, drop) == s.skip(s.len() - skip_while(s, drop).len()),
        skip_while(s, drop).len() > 0 ==> !drop(skip_while(s, drop)[0]),
    decreases s.len(),
{
    if s.len() > 0 && drop(s[0]) {
        lemma_skip_while(s.drop_first(), drop);
        let t = skip_while(s, drop);
        assert(s.drop_first().skip(s.len() - 1 - t.len()) =~= s.skip(s.len() - t.len()));
    } else {
        assert(s.skip(0) =~= s);
    }
}

pub proof fn lemma_drop_tail_while(s: Seq<char>, drop: spec_fn(char) -> bool)
    ensures
        drop_tail_while(s, drop).len() <= s.len(),
        drop_tail_while(s, drop) == s.take(drop_tail_while(s, drop).len() as int),
        drop_tail_while(s, drop).len() > 0 ==> !drop(drop_tail_while(s, drop).last()),
    decreases s.len(),
{
    if s.len() > 0 && drop(s.last()) {
        lemma_drop_tail_while(s.drop_last(), drop);
        let t = drop_tail_while(s, drop);
        assert(s.drop_last().take(t.len() as int) =~= s.take(t.len() as int));
    } else {
        assert(s.take(s.len() as int) =~= s);
    }
}

/// The text without white space at either end.
pub fn trim(value: &str) -> (result: String)
    ensures
        result@ == trimmed(value@),
{
    let chars = chars_of(value);
    let mut from: usize = 0;
    assert(chars@.skip(0) =~= chars@);
    while from < chars.len() && is_white(chars[from])
        invariant
            from <= chars.len(),
            skip_while(chars@, |c: char| white(c)) == skip_while(
                chars@.skip(from as int),
                |c: char| white(c),
            ),
        decreases chars.len() - from,
    {
        assert(chars@.skip(from as int).drop_first() =~= chars@.skip(from + 1));
        from += 1;
    }
    let mut to: usize = chars.len();
    assert(chars@.subrange(from as int, to as int) =~= chars@.skip(from as int));
    while to > from && is_white(chars[to - 1])
        invariant
            from <= to <= chars.len(),
            trimmed(chars@) == drop_tail_while(
                chars@.subrange(from as int, to as int),
                |c: char| white(c),
            ),
        decreases to - from,
    {
        assert(chars@.subrange(from as int, to as int).drop_last() =~= chars@.subrange(
            from as int,
            to - 1,
        ));
        to -= 1;
    }
    string_of(&chars, from, to)
}

/// The text without trailing repetitions of `ch`.
pub fn trim_end_char(value: &str, ch: char) -> (result: String)
    ensures
        result@ == drop_tail_while(value@, |c: char| c == ch),
{
    let chars = chars_of(value);
    let mut to: usize = chars.len();
    assert(chars@.subrange(0, to as int) =~= chars@);
    while to > 0 && chars[to - 1] == ch
        invariant
            to <= chars.len(),
            drop_tail_while(chars@, |c: char| c == ch) == drop_tail_while(
                chars@.subrange(0, to as int),
                |c: char| c == ch,
            ),
        decreases to,
    {
        assert(chars@.subrange(0, to as int).drop_last() =~= chars@.subrange(0, to - 1));
        to -= 1;
    }
    string_of(&chars, 0, to)
}

/// The text without leading repetitions of `ch`.
pub fn trim_start_char(value: &str, ch: char) -> (result: String)
    ensures
        result@ == skip_while(value@, |c: char| c == ch),
{
    let chars = chars_of(value);
    let mut from: usize = 0;
    assert(chars@.skip(0) =~= chars@);
    while from < chars.len() && chars[from] == ch
        invariant
            from <= chars.len(),
            skip_while(chars@, |c: char| c == ch) == skip_while(
                chars@.skip(from as int),
                |c: char| c == ch,
            ),
        decreases chars.len() - from,
    {
        assert(chars@.skip(from as int).drop_first() =~= chars@.skip(from + 1));
        from += 1;
    }
    assert(chars@.subrange(from as int, chars.len() as int) =~= chars@.skip(from as int));
    string_of(&chars, from, chars.len())
}

/// Whether `s` ends with `suffix`.
pub open spec fn has_suffix(s: Seq<char>, suffix: Seq<char>) -> bool {
    suffix.len() <= s.len() && s.skip(s.len() - suffix.len()) == suffix
}

/// Whether `s` begins with `prefix`.
pub open spec fn has_prefix(s: Seq<char>, prefix: Seq<char>) -> bool {
    prefix.len() <= s.len() && s.take(prefix.len() as int) == prefix
}

/// `s` without any trailing copies of the non-empty `suffix`.
pub open spec fn drop_suffixes(s: Seq<char>, suffix: Seq<char>) -> Seq<char>
    decreases s.len(),
{
    if suffix.len() > 0 && has_suffix(s, suffix) {
        drop_suffixes(s.take(s.len() - suffix.len()), suffix)
    } else {
        s
    }
}

/// Whether the characters of `part` stand in `chars` from `at` on.
fn stands_at(chars: &Vec<char>, part: &Vec<char>, at: usize) -> (result: bool)
    requires
        at <= chars.len(),
    ensures
        result == (part.len() <= chars.len() - at && chars@.subrange(
            at as int,
            at + part.len(),
        ) == part@),
{
    if part.len() > chars.len() - at {
        return false;
    }
    let mut i: usize = 0;
    while i < part.len()
        invariant
            at <= chars.len(),
            part.len() <= chars.len() - at,
            i <= part.len(),
            forall|k: int| 0 <= k < i ==> chars@[at + k] == part@[k],
        decreases part.len() - i,
    {
        if chars[at + i] != part[i] {
            assert(chars@.subrange(at as int, at + part.len())[i as int] != part@[i as int]);
            return false;
        }
        i += 1;
    }
    assert(chars@.subrange(at as int, at + part.len()) =~= part@);
    true
}

pub fn starts_with(value: &str, prefix: &str) -> (result: bool)
    ensures
        result == has_prefix(value@, prefix@),
{
    let chars = chars_of(value);
    let part = chars_of(prefix);
    let result = stands_at(&chars, &part, 0);
    assert(part.len() <= chars.len() ==> chars@.subrange(0, part.len() as int) =~= chars@.take(
        part.len() as int,
    ));
    result
}

pub fn ends_with(value: &str, suffix: &str) -> (result: bool)
    ensures
        result == has_suffix(value@, suffix@),
{
    let chars = chars_of(value);
    let part = chars_of(suffix);
    if part.len() > chars.len() {
        return false;
    }
    let at: usize = chars.len() - part.len();
    assert(chars@.subrange(at as int, at + part.len()) =~= chars@.skip(at as int));
    stands_at(&chars, &part, at)
}

/// The text without any trailing copies of `suffix`.
pub fn trim_end_suffix(value: &str, suffix: &str) -> (result: String)
    requires
        suffix@.len() > 0,
    ensures
        result@ == drop_suffixes(value@, suffix@),
{
    let chars = chars_of(value);
    let part = chars_of(suffix);
    let mut to: usize = chars.len();
    assert(chars@.take(to as int) =~= chars@);
    while to >= part.len() && stands_at_before(&chars, &part, to)
        invariant
            to <= chars.len(),
            part.len() > 0,
            drop_suffixes(chars@, part@) == drop_suffixes(chars@.take(to as int), part@),
        decreases to,
    {
        assert(chars@.take(to as int).take(to - part.len()) =~= chars@.take(to - part.len()));
        to -= part.len();
    }
    assert(chars@.subrange(0, to as int) =~= chars@.take(to as int));
    string_of(&chars, 0, to)
}

/// Whether `part` stands in `chars` right before `end`.
fn stands_at_before(chars: &Vec<char>, part: &Vec<char>, end: usize) -> (result: bool)
    requires
        part.len() <= end <= chars.len(),
    ensures
        result == has_suffix(chars@.take(end as int), part@),
{
    let at: usize = end - part.len();
    assert(chars@.take(end as int).skip(at as int) =~= chars@.subrange(at as int, end as int));
    stands_at(chars, part, at)
}

/// The text behind `prefix`, where the text begins with it.
pub fn strip_prefix(value: &str, prefix: &str) -> (result: Option<String>)
    ensures
        match result {
            Some(rest) => has_prefix(value@, prefix@) && rest@ == value@.skip(
                prefix@.len() as int,
            ),
            None => !has_prefix(value@, prefix@),
        },
{
    if starts_with(value, prefix) {
        let chars = chars_of(value);
        let at: usize = prefix.unicode_len();
        assert(chars@.subrange(at as int, chars.len() as int) =~= chars@.skip(at as int));
        Some(string_of(&chars, at, chars.len()))
    } else {
        None
    }
}

/// The text before `suffix`, where the text ends with it.
pub fn strip_suffix(value: &str, suffix: &str) -> (result: Option<String>)
    ensures
        match result {
            Some(rest) => has_suffix(value@, suffix@) && rest@ == value@.take(
                value@.len() - suffix@.len(),
            ),
            None => !has_suffix(value@, suffix@),
        },
{
    if ends_with(value, suffix) {
        let chars = chars_of(value);
        let to: usize = chars.len() - suffix.unicode_len();
        assert(chars@.subrange(0, to as int) =~= chars@.take(to as int));
        Some(string_of(&chars, 0, to))
    } else {
        None
    }
}

/// `needle` stands in `hay` from index `at` on.
pub open spec fn occurs_at(hay: Seq<char>, needle: Seq<char>, at: int) -> bool {
    0 <= at <= hay.len() - needle.len() && hay.subrange(at, at + needle.len()) == needle
}

/// `needle` is a contiguous part of `hay`.
pub open spec fn occurs(hay: Seq<char>, needle: Seq<char>) -> bool {
    exists|at: int| occurs_at(hay, needle, at)
}

/// The first place at or behind `from` where `needle` stands.
pub open spec fn is_first_occurrence(
    hay: Seq<char>,
    needle: Seq<char>,
    from: int,
    at: int,
) -> bool {
    from <= at && occurs_at(hay, needle, at) && forall|k: int|
        from <= k < at ==> !occurs_at(hay, needle, k)
}

/// Searches `needle` from `from` on.
pub fn find_chars(hay: &Vec<char>, needle: &Vec<char>, from: usize) -> (result: Option<usize>)
    requires
        from <= hay.len(),
    ensures
        match result {
            Some(at) => is_first_occurrence(hay@, needle@, from as int, at as int),
            None => forall|k: int| from <= k ==> !occurs_at(hay@, needle@, k),
        },
{
    let mut at: usize = from;
    while at < hay.len()
        invariant
            from <= at <= hay.len(),
            forall|k: int| from <= k < at ==> !occurs_at(hay@, needle@, k),
        decreases hay.len() - at,
    {
        if stands_at(hay, needle, at) {
            return Some(at);
        }
        at += 1;
    }
    if stands_at(hay, needle, at) {
        Some(at)
    } else {
        None
    }
}

pub fn contains(hay: &str, needle: &str) -> (result: bool)
    ensures
        result == occurs(hay@, needle@),
{
    let hay_chars = chars_of(hay);
    let needle_chars = chars_of(needle);
    match find_chars(&hay_chars, &needle_chars, 0) {
        Some(at) => {
            assert(occurs_at(hay@, needle@, at as int));
            true
        },
        None => {
            assert(forall|k: int| occurs_at(hay@, needle@, k) ==> 0 <= k);
            false
        },
    }
}

/// Where `needle` first stands in `hay`, where it does.
pub open spec fn first_at(hay: Seq<char>, needle: Seq<char>) -> int {
    choose|at: int| is_first_occurrence(hay, needle, 0, at)
}

pub proof fn lemma_first_at(hay: Seq<char>, needle: Seq<char>, at: int)
    requires
        is_first_occurrence(hay, needle, 0, at),
    ensures
        first_at(hay, needle) == at,
        occurs(hay, needle),
{
    let other = first_at(hay, needle);
    assert(is_first_occurrence(hay, needle, 0, other));
    if other < at {
        assert(!occurs_at(hay, needle, other));
    } else if at < other {
        assert(!occurs_at(hay, needle, at));
    }
}

/// The text before and behind the first `separator`.
pub fn split_once(value: &str, separator: &str) -> (result: Option<(String, String)>)
    ensures
        match result {
            Some((before, after)) => {
                &&& occurs(value@, separator@)
                &&& is_first_occurrence(value@, separator@, 0, first_at(value@, separator@))
                &&& before@ == value@.take(first_at(value@, separator@))
                &&& after@ == value@.skip(first_at(value@, separator@) + separator@.len())
            },
            None => !occurs(value@, separator@),
        },
{
    let chars = chars_of(value);
    let part = chars_of(separator);
    match find_chars(&chars, &part, 0) {
        Some(at) => {
            assert(occurs_at(chars@, part@, at as int));
            assert(at + part.len() <= chars.len());
            let behind: usize = at + part.len();
            assert(chars@.subrange(0, at as int) =~= chars@.take(at as int));
            assert(chars@.subrange(behind as int, chars.len() as int) =~= chars@.skip(
                behind as int,
            ));
            proof {
                lemma_first_at(value@, separator@, at as int);
            }
            let before = string_of(&chars, 0, at);
            let after = string_of(&chars, behind, chars.len());
            Some((before, after))
        },
        None => {
            assert(forall|k: int| occurs_at(value@, separator@, k) ==> 0 <= k);
            None
        },
    }
}

/// The characters before the first `c`, or all of them.
pub open spec fn before_char(s: Seq<char>, c: char) -> Seq<char>
    decreases s.len(),
{
    if s.len() == 0 || s[0] == c {
        Seq::empty()
    } else {
        seq![s[0]] + before_char(s.drop_first(), c)
    }
}

pub fn until_char(value: &str, c: char) -> (result: String)
    ensures
        result@ == before_char(value@, c),
{
    let chars = chars_of(value);
    let mut result: String = String::new();
    let mut i: usize = 0;
    assert(chars@.skip(0) =~= chars@);
    while i < chars.len() && chars[i] != c
        invariant
            i <= chars.len(),
            result@ + before_char(chars@.skip(i as int), c) == before_char(chars@, c),
        decreases chars.len() - i,
    {
        let ghost rest = chars@.skip(i as int);
        let ghost done = result@;
        assert(rest.drop_first() =~= chars@.skip(i + 1));
        result.push(chars[i]);
        assert(done + (seq![rest[0]] + before_char(chars@.skip(i + 1), c)) =~= result@
            + before_char(chars@.skip(i + 1), c));
        i += 1;
    }
    assert(result@ + Seq::<char>::empty() =~= result@);
    result
}

/// The characters behind the last `c`, or all of them.
pub open spec fn after_last_char(s: Seq<char>, c: char) -> Seq<char>
    decreases s.len(),
{
    if s.len() == 0 || s.last() == c {
        Seq::empty()
    } else {
        after_last_char(s.drop_last(), c).push(s.last())
    }
}

pub fn behind_last_char(value: &str, c: char) -> (result: String)
    ensures
        result@ == after_last_char(value@, c),
{
    let chars = chars_of(value);
    let mut from: usize = chars.len();
    assert(chars@.take(chars.len() as int) =~= chars@);
    assert(after_last_char(chars@.take(from as int), c) + Seq::<char>::empty() =~= after_last_char(
        chars@,
        c,
    ));
    assert(chars@.skip(from as int) =~= Seq::<char>::empty());
    while from > 0 && chars[from - 1] != c
        invariant
            from <= chars.len(),
            after_last_char(chars@, c) == after_last_char(chars@.take(from as int), c) + chars@.skip(
                from as int,
            ),
        decreases from,
    {
        let ghost head = chars@.take(from as int);
        assert(head.drop_last() =~= chars@.take(from - 1));
        assert(after_last_char(chars@.take(from - 1), c).push(head.last()) + chars@.skip(
            from as int,
        ) =~= after_last_char(chars@.take(from - 1), c) + chars@.skip(from - 1));
        from -= 1;
    }
    assert(after_last_char(chars@.take(from as int), c) =~= Seq::<char>::empty());
    assert(Seq::<char>::empty() + chars@.skip(from as int) =~= chars@.skip(from as int));
    assert(chars@.subrange(from as int, chars.len() as int) =~= chars@.skip(from as int));
    string_of(&chars, from, chars.len())
}

/// `s` without any leading copies of the non-empty `prefix`.
pub open spec fn drop_prefixes(s: Seq<char>, prefix: Seq<char>) -> Seq<char>
    decreases s.len(),
{
    if prefix.len() > 0 && has_prefix(s, prefix) {
        drop_prefixes(s.skip(prefix.len() as int), prefix)
    } else {
        s
    }
}

/// The text without any leading copies of `prefix`.
pub fn trim_start_prefix(value: &str, prefix: &str) -> (result: String)
    requires
        prefix@.len() > 0,
    ensures
        result@ == drop_prefixes(value@, prefix@),
{
    let chars = chars_of(value);
    let part = chars_of(prefix);
    let mut from: usize = 0;
    assert(chars@.skip(0) =~= chars@);
    loop
        invariant
            from <= chars.len(),
            part@ == prefix@,
            part.len() > 0,
            drop_prefixes(chars@, part@) == drop_prefixes(chars@.skip(from as int), part@),
        ensures
            drop_prefixes(chars@, part@) == chars@.skip(from as int),
            from <= chars.len(),
        decreases chars.len() - from,
    {
        let ghost rest = chars@.skip(from as int);
        assert(part.len() <= chars.len() - from ==> rest.take(part.len() as int)
            =~= chars@.subrange(from as int, from + part.len()));
        if !stands_at(&chars, &part, from) {
            break;
        }
        assert(rest.skip(part.len() as int) =~= chars@.skip(from + part.len()));
        from += part.len();
    }
    assert(chars@.subrange(from as int, chars.len() as int) =~= chars@.skip(from as int));
    string_of(&chars, from, chars.len())
}

/// The first `count` characters, or all of them.
pub open spec fn prefix_of(s: Seq<char>, count: nat) -> Seq<char> {
    if s.len() <= count {
        s
    } else {
        s.take(count as int)
    }
}

pub fn take_chars(value: &str, count: usize) -> (result: String)
    ensures
        result@ == prefix_of(value@, count as nat),
{
    let chars = chars_of(value);
    let to: usize = if chars.len() <= count {
        chars.len()
    } else {
        count
    };
    assert(chars@.subrange(0, to as int) =~= prefix_of(value@, count as nat));
    string_of(&chars, 0, to)
}

/// Line breaks and tabs become spaces.
pub open spec fn unbroken(c: char) -> char {
    if c == '\r' || c == '\n' || c == '\t' {
        ' '
    } else {
        c
    }
}

/// `s` on one line.
pub open spec fn one_line(s: Seq<char>) -> Seq<char> {
    s.map_values(|c: char| unbroken(c))
}

pub fn flatten_breaks(value: &str) -> (result: String)
    ensures
        result@ == one_line(value@),
{
    let mut result: String = String::new();
    for c in iter: value.chars()
        invariant
            result@ == one_line(iter.seq().take(iter.index())),
            iter.seq() == value@,
    {
        let kept: char = if c == '\r' || c == '\n' || c == '\t' {
            ' '
        } else {
            c
        };
        result.push(kept);
        assert(one_line(value@.take(iter.index() + 1)) =~= one_line(value@.take(iter.index())).push(
            unbroken(c),
        ));
    }
    assert(value@.take(value@.len() as int) =~= value@);
    result
}

/// `left` comes before `right` in the order of their code points.
pub open spec fn precedes(left: Seq<char>, right: Seq<char>) -> bool
    decreases left.len(),
{
    if right.len() == 0 {
        false
    } else if left.len() == 0 {
        true
    } else if left[0] == right[0] {
        precedes(left.drop_first(), right.drop_first())
    } else {
        (left[0] as int) < (right[0] as int)
    }
}

fn char_less(left: char, right: char) -> (result: bool)
    ensures
        result == ((left as int) < (right as int)),
{
    (left as u32) < (right as u32)
}

/// Text comparison: code points decide at the first difference, then the shorter text.
pub fn less(left: &str, right: &str) -> (result: bool)
    ensures
        result == precedes(left@, right@),
{
    let a = chars_of(left);
    let b = chars_of(right);
    let mut i: usize = 0;
    assert(a@.skip(0) =~= a@);
    assert(b@.skip(0) =~= b@);
    while i < a.len() && i < b.len() && a[i] == b[i]
        invariant
            i <= a.len(),
            i <= b.len(),
            precedes(a@, b@) == precedes(a@.skip(i as int), b@.skip(i as int)),
        decreases a.len() - i,
    {
        assert(a@.skip(i as int).drop_first() =~= a@.skip(i + 1));
        assert(b@.skip(i as int).drop_first() =~= b@.skip(i + 1));
        i += 1;
    }
    if i == b.len() {
        false
    } else if i == a.len() {
        true
    } else {
        char_less(a[i], b[i])
    }
}

/// Text comes before itself never, and of two different texts one comes first.
pub proof fn lemma_precedes_total(a: Seq<char>, b: Seq<char>)
    ensures
        !(precedes(a, b) && precedes(b, a)),
        a == b || precedes(a, b) || precedes(b, a),
        a == b ==> !precedes(a, b),
    decreases a.len(),
{
    if a.len() > 0 && b.len() > 0 && a[0] == b[0] {
        lemma_precedes_total(a.drop_first(), b.drop_first());
        if a.drop_first() == b.drop_first() {
            assert(a =~= seq![a[0]] + a.drop_first());
            assert(b =~= seq![b[0]] + b.drop_first());
            assert(a == b);
        }
    } else if a.len() == 0 && b.len() == 0 {
        assert(a =~= b);
    }
}

/// The order of texts is transitive.
pub proof fn lemma_precedes_transitive(a: Seq<char>, b: Seq<char>, c: Seq<char>)
    requires
        precedes(a, b),
        precedes(b, c),
    ensures
        precedes(a, c),
    decreases a.len(),
{
    if a.len() > 0 && b.len() > 0 && c.len() > 0 {
        if a[0] == b[0] && b[0] == c[0] {
            lemma_precedes_transitive(a.drop_first(), b.drop_first(), c.drop_first());
        }
    }
}

/// The texts of a list of strings.
pub open spec fn texts(list: Seq<String>) -> Seq<Seq<char>> {
    list.map_values(|item: String| item@)
}

/// The text of an optional string.
pub open spec fn optional(value: Option<String>) -> Option<Seq<char>> {
    match value {
        Some(inner) => Some(inner@),
        None => None,
    }
}

/// Copies a list of strings.
pub fn copy_list(list: &Vec<String>) -> (result: Vec<String>)
    ensures
        texts(result@) == texts(list@),
{
    let mut result: Vec<String> = Vec::new();
    let mut i: usize = 0;
    while i < list.len()
        invariant
            i <= list.len(),
            texts(result@) == texts(list@).take(i as int),
        decreases list.len() - i,
    {
        let ghost done = texts(result@);
        result.push(list[i].clone());
        assert(texts(result@) =~= done.push(list@[i as int]@));
        i += 1;
    }
    assert(texts(list@).take(list.len() as int) =~= texts(list@));
    result
}

/// Equality of optional texts.
pub fn same_optional(left: &Option<String>, right: &Option<String>) -> (result: bool)
    ensures
        result == (optional(*left) == optional(*right)),
{
    match (left, right) {
        (Some(a), Some(b)) => same(a.as_str(), b.as_str()),
        (None, None) => true,
        _ => false,
    }
}

/// The pieces of `s` between the characters that satisfy `cut`.
pub open spec fn pieces(s: Seq<char>, cut: spec_fn(char) -> bool) -> Seq<Seq<char>>
    decreases s.len(),
{
    if s.len() == 0 {
        seq![Seq::<char>::empty()]
    } else {
        let before = pieces(s.drop_last(), cut);
        if cut(s.last()) {
            before.push(Seq::<char>::empty())
        } else {
            before.drop_last().push(before.last().push(s.last()))
        }
    }
}

/// Cuts at every character that stands in `separators`.
pub fn split_any(value: &str, separators: &str) -> (result: Vec<String>)
    ensures
        texts(result@) == pieces(value@, |c: char| separators@.contains(c)),
{
    let cuts = chars_of(separators);
    let ghost cut = |c: char| separators@.contains(c);
    let mut result: Vec<String> = Vec::new();
    let mut current: String = String::new();
    for c in iter: value.chars()
        invariant
            texts(result@).push(current@) == pieces(value@.take(iter.index()), cut),
            iter.seq() == value@,
            cuts@ == separators@,
            cut == (|c: char| separators@.contains(c)),
    {
        let ghost before = value@.take(iter.index());
        let ghost after = value@.take(iter.index() + 1);
        assert(after.drop_last() =~= before);
        assert(after.last() == c);
        let ghost old_pieces = texts(result@).push(current@);
        assert(old_pieces.drop_last() =~= texts(result@));
        if holds(&cuts, c) {
            let ghost done = result@;
            result.push(current);
            assert(texts(result@) =~= old_pieces);
            current = String::new();
        } else {
            current.push(c);
        }
    }
    assert(value@.take(value@.len() as int) =~= value@);
    let ghost done = texts(result@).push(current@);
    result.push(current);
    assert(texts(result@) =~= done);
    result
}

/// Whether `c` stands in `chars`.
fn holds(chars: &Vec<char>, c: char) -> (result: bool)
    ensures
        result == chars@.contains(c),
{
    let mut i: usize = 0;
    while i < chars.len()
        invariant
            i <= chars.len(),
            forall|k: int| 0 <= k < i ==> chars@[k] != c,
        decreases chars.len() - i,
    {
        if chars[i] == c {
            return true;
        }
        i += 1;
    }
    false
}

/// The maximal runs of characters that are not white space.
pub open spec fn word_list(s: Seq<char>) -> Seq<Seq<char>> {
    pieces(s, |c: char| white(c)).filter(|word: Seq<char>| word.len() > 0)
}

proof fn lemma_pieces_are_uncut(s: Seq<char>, cut: spec_fn(char) -> bool)
    ensures
        pieces(s, cut).len() > 0,
        forall|i: int, k: int|
            0 <= i < pieces(s, cut).len() && 0 <= k < pieces(s, cut)[i].len() ==> !cut(
                #[trigger] pieces(s, cut)[i][k],
            ),
    decreases s.len(),
{
    if s.len() > 0 {
        let rest = pieces(s.drop_last(), cut);
        let whole = pieces(s, cut);
        lemma_pieces_are_uncut(s.drop_last(), cut);
        assert forall|i: int, k: int| 0 <= i < whole.len() && 0 <= k < whole[i].len() implies !cut(
            #[trigger] whole[i][k],
        ) by {
            if cut(s.last()) {
                if i < rest.len() {
                    assert(whole[i] == rest[i]);
                    assert(!cut(rest[i][k]));
                }
            } else if i < rest.len() - 1 {
                assert(whole[i] == rest[i]);
                assert(!cut(rest[i][k]));
            } else if k < rest.last().len() {
                assert(whole[i][k] == rest[i][k]);
                assert(!cut(rest[i][k]));
            }
        }
    }
}

/// Words are not empty and hold no white space.
pub proof fn lemma_words(s: Seq<char>)
    ensures
        forall|i: int|
            0 <= i < word_list(s).len() ==> {
                let word = #[trigger] word_list(s)[i];
                word.len() > 0 && !white(word[0]) && !white(word.last())
            },
{
    let cut = |c: char| white(c);
    let kept = |word: Seq<char>| word.len() > 0;
    let all = pieces(s, cut);
    lemma_pieces_are_uncut(s, cut);
    assert forall|i: int| 0 <= i < word_list(s).len() implies {
        let word = #[trigger] word_list(s)[i];
        word.len() > 0 && !white(word[0]) && !white(word.last())
    } by {
        let word = word_list(s)[i];
        all.lemma_filter_pred(kept, i);
        assert(all.filter(kept).contains(word));
        all.lemma_filter_contains_rev(kept, word);
        let m = choose|m: int| 0 <= m < all.len() && all[m] == word;
        assert(!cut(all[m][0]));
        assert(!cut(all[m][word.len() - 1]));
    }
}

/// No character of a word is white space.
pub proof fn lemma_words_are_whole(s: Seq<char>)
    ensures
        forall|i: int, k: int|
            0 <= i < word_list(s).len() && 0 <= k < word_list(s)[i].len() ==> !white(
                #[trigger] word_list(s)[i][k],
            ),
{
    let cut = |c: char| white(c);
    let kept = |word: Seq<char>| word.len() > 0;
    let all = pieces(s, cut);
    lemma_pieces_are_uncut(s, cut);
    assert forall|i: int, k: int|
        0 <= i < word_list(s).len() && 0 <= k < word_list(s)[i].len() implies !white(
        #[trigger] word_list(s)[i][k],
    ) by {
        let word = word_list(s)[i];
        assert(all.filter(kept).contains(word));
        all.lemma_filter_contains_rev(kept, word);
        let m = choose|m: int| 0 <= m < all.len() && all[m] == word;
        assert(!cut(all[m][k]));
    }
}

proof fn lemma_piece_behind_space(s: Seq<char>, word: Seq<char>)
    requires
        forall|k: int| 0 <= k < word.len() ==> !white(#[trigger] word[k]),
    ensures
        pieces(s + (seq![' '] + word), |c: char| white(c)) == pieces(s, |c: char| white(c)).push(word),
    decreases word.len(),
{
    let cut = |c: char| white(c);
    let whole = s + (seq![' '] + word);
    let before = pieces(s, cut);
    if word.len() == 0 {
        assert(whole.drop_last() =~= s);
        assert(whole.last() == ' ');
        assert(word =~= Seq::empty());
    } else {
        let rest = word.drop_last();
        assert forall|k: int| 0 <= k < rest.len() implies !white(#[trigger] rest[k]) by {
            assert(rest[k] == word[k]);
        }
        lemma_piece_behind_space(s, rest);
        assert(whole.drop_last() =~= s + (seq![' '] + rest));
        assert(whole.last() == word[word.len() - 1]);
        assert(before.push(rest).drop_last() =~= before);
        assert(rest.push(word.last()) =~= word);
    }
}

/// A word behind a space is one word more.
pub proof fn lemma_word_behind_space(s: Seq<char>, word: Seq<char>)
    requires
        word.len() > 0,
        forall|k: int| 0 <= k < word.len() ==> !white(#[trigger] word[k]),
    ensures
        word_list(s + (seq![' '] + word)) == word_list(s).push(word),
{
    lemma_piece_behind_space(s, word);
    pieces(s, |c: char| white(c)).lemma_filter_push(word, |word: Seq<char>| word.len() > 0);
}

/// Joined words begin and end as the first and the last of them do.
pub proof fn lemma_joined_words(s: Seq<char>, separator: Seq<char>)
    ensures
        ({
            let joined = concat_with(word_list(s), separator);
            &&& word_list(s).len() == 0 <==> joined.len() == 0
            &&& joined.len() > 0 ==> !white(joined[0]) && !white(joined.last())
            &&& trimmed(joined) == joined
        }),
{
    let list = word_list(s);
    lemma_words(s);
    lemma_joined_edges(list, separator);
}

proof fn lemma_joined_edges(list: Seq<Seq<char>>, separator: Seq<char>)
    requires
        forall|i: int|
            0 <= i < list.len() ==> {
                let word = #[trigger] list[i];
                word.len() > 0 && !white(word[0]) && !white(word.last())
            },
    ensures
        ({
            let joined = concat_with(list, separator);
            &&& list.len() == 0 <==> joined.len() == 0
            &&& joined.len() > 0 ==> !white(joined[0]) && !white(joined.last())
        }),
    decreases list.len(),
{
    if list.len() > 1 {
        let rest = list.drop_last();
        assert forall|i: int| 0 <= i < rest.len() implies {
            let word = #[trigger] rest[i];
            word.len() > 0 && !white(word[0]) && !white(word.last())
        } by {
            assert(rest[i] == list[i]);
        }
        lemma_joined_edges(rest, separator);
        let joined = concat_with(list, separator);
        assert(list.last() == list[list.len() - 1]);
        assert(joined[0] == concat_with(rest, separator)[0]);
        assert(joined.last() == list.last().last());
    } else if list.len() == 1 {
        assert(list[0].len() > 0);
    }
}

pub fn words(value: &str) -> (result: Vec<String>)
    ensures
        texts(result@) == word_list(value@),
{
    let ghost cut = |c: char| white(c);
    let ghost kept = |word: Seq<char>| word.len() > 0;
    let mut result: Vec<String> = Vec::new();
    let mut current: String = String::new();
    let ghost mut closed: Seq<Seq<char>> = Seq::empty();
    assert(closed.filter(kept) =~= Seq::empty()) by {
        reveal(Seq::filter);
    }
    for c in iter: value.chars()
        invariant
            closed.push(current@) == pieces(value@.take(iter.index()), cut),
            texts(result@) == closed.filter(kept),
            iter.seq() == value@,
            cut == (|c: char| white(c)),
            kept == (|word: Seq<char>| word.len() > 0),
    {
        let ghost before = value@.take(iter.index());
        let ghost after = value@.take(iter.index() + 1);
        assert(after.drop_last() =~= before);
        let ghost old_pieces = closed.push(current@);
        assert(old_pieces.drop_last() =~= closed);
        if is_white(c) {
            proof {
                closed.lemma_filter_push(current@, kept);
                closed = old_pieces;
            }
            if !current.as_str().is_empty() {
                let ghost done = texts(result@).push(current@);
                result.push(current);
                assert(texts(result@) =~= done);
            }
            current = String::new();
        } else {
            current.push(c);
        }
    }
    assert(value@.take(value@.len() as int) =~= value@);
    proof {
        closed.lemma_filter_push(current@, kept);
    }
    if !current.as_str().is_empty() {
        let ghost done = texts(result@).push(current@);
        result.push(current);
        assert(texts(result@) =~= done);
    }
    result
}

/// The texts in order, with `separator` between neighbours.
pub open spec fn concat_with(parts: Seq<Seq<char>>, separator: Seq<char>) -> Seq<char>
    decreases parts.len(),
{
    if parts.len() == 0 {
        Seq::empty()
    } else if parts.len() == 1 {
        parts[0]
    } else {
        concat_with(parts.drop_last(), separator) + separator + parts.last()
    }
}

pub fn join(parts: &Vec<String>, separator: &str) -> (result: String)
    ensures
        result@ == concat_with(texts(parts@), separator@),
{
    let mut result: String = String::new();
    let mut i: usize = 0;
    while i < parts.len()
        invariant
            i <= parts.len(),
            result@ == concat_with(texts(parts@).take(i as int), separator@),
        decreases parts.len() - i,
    {
        let ghost upto = texts(parts@).take(i + 1);
        assert(upto.drop_last() =~= texts(parts@).take(i as int));
        if i > 0 {
            result.append(separator);
        }
        result.append(parts[i].as_str());
        if i == 0 {
            assert(result@ =~= parts@[0]@);
        }
        i += 1;
    }
    assert(texts(parts@).take(parts.len() as int) =~= texts(parts@));
    result
}

/// `s` with every copy of `from`, taken from the left without overlap, replaced by `to`.
pub open spec fn replaced(s: Seq<char>, from: Seq<char>, to: Seq<char>) -> Seq<char>
    decreases s.len(),
{
    if s.len() == 0 || from.len() == 0 {
        s
    } else if has_prefix(s, from) {
        to + replaced(s.skip(from.len() as int), from, to)
    } else {
        seq![s[0]] + replaced(s.drop_first(), from, to)
    }
}

/// Replaces every copy of the non-empty `from` by `to`.
pub fn replace(value: &str, from: &str, to: &str) -> (result: String)
    requires
        from@.len() > 0,
    ensures
        result@ == replaced(value@, from@, to@),
{
    let chars = chars_of(value);
    let part = chars_of(from);
    let mut result: String = String::new();
    let mut at: usize = 0;
    assert(chars@.skip(0) =~= chars@);
    while at < chars.len()
        invariant
            at <= chars.len(),
            part@ == from@,
            from@.len() > 0,
            result@ + replaced(chars@.skip(at as int), from@, to@) == replaced(chars@, from@, to@),
        decreases chars.len() - at,
    {
        let ghost rest = chars@.skip(at as int);
        let hit = stands_at(&chars, &part, at);
        assert(part.len() <= chars.len() - at ==> rest.take(part.len() as int)
            =~= chars@.subrange(at as int, at + part.len()));
        if hit {
            assert(rest.skip(part.len() as int) =~= chars@.skip(at + part.len()));
            let ghost done = result@;
            result.append(to);
            assert(done + (to@ + replaced(chars@.skip(at + part.len()), from@, to@)) =~= result@
                + replaced(chars@.skip(at + part.len()), from@, to@));
            at += part.len();
        } else {
            assert(rest.drop_first() =~= chars@.skip(at + 1));
            let ghost done = result@;
            result.push(chars[at]);
            assert(done + (seq![rest[0]] + replaced(chars@.skip(at + 1), from@, to@)) =~= result@
                + replaced(chars@.skip(at + 1), from@, to@));
            at += 1;
        }
    }
    assert(result@ + replaced(chars@.skip(at as int), from@, to@) =~= result@);
    result
}

/// One decimal digit.
pub open spec fn digit(n: nat) -> char {
    if n == 0 {
        '0'
    } else if n == 1 {
        '1'
    } else if n == 2 {
        '2'
    } else if n == 3 {
        '3'
    } else if n == 4 {
        '4'
    } else if n == 5 {
        '5'
    } else if n == 6 {
        '6'
    } else if n == 7 {
        '7'
    } else if n == 8 {
        '8'
    } else {
        '9'
    }
}

/// A number in decimal notation.
pub open spec fn decimal(n: nat) -> Seq<char>
    decreases n,
{
    if n < 10 {
        seq![digit(n)]
    } else {
        decimal(n / 10).push(digit(n % 10))
    }
}

pub(crate) fn digit_char(n: u64) -> (result: char)
    requires
        n < 10,
    ensures
        result == digit(n as nat),
{
    if n == 0 {
        '0'
    } else if n == 1 {
        '1'
    } else if n == 2 {
        '2'
    } else if n == 3 {
        '3'
    } else if n == 4 {
        '4'
    } else if n == 5 {
        '5'
    } else if n == 6 {
        '6'
    } else if n == 7 {
        '7'
    } else if n == 8 {
        '8'
    } else {
        '9'
    }
}

pub fn number_text(n: u64) -> (result: String)
    ensures
        result@ == decimal(n as nat),
    decreases n,
{
    if n < 10 {
        let mut result: String = String::new();
        result.push(digit_char(n));
        assert(result@ =~= seq![digit(n as nat)]);
        result
    } else {
        let mut result = number_text(n / 10);
        result.push(digit_char(n % 10));
        result
    }
}

/// ASCII capitals become small letters.
pub open spec fn ascii_lower_char(c: char) -> char {
    if 'A' <= c <= 'Z' {
        ((c as u8) + 32) as u8 as char
    } else {
        c
    }
}

pub open spec fn ascii_lower(s: Seq<char>) -> Seq<char> {
    s.map_values(|c: char| ascii_lower_char(c))
}

pub fn to_ascii_lower(value: &str) -> (result: String)
    ensures
        result@ == ascii_lower(value@),
{
    let mut result: String = String::new();
    for c in iter: value.chars()
        invariant
            result@ == ascii_lower(iter.seq().take(iter.index())),
            iter.seq() == value@,
    {
        result.push(lower_char(c));
        assert(ascii_lower(value@.take(iter.index() + 1)) =~= ascii_lower(
            value@.take(iter.index()),
        ).push(ascii_lower_char(c)));
    }
    assert(value@.take(value@.len() as int) =~= value@);
    result
}

fn lower_char(c: char) -> (result: char)
    ensures
        result == ascii_lower_char(c),
{
    if 'A' <= c && c <= 'Z' {
        ((c as u8) + 32) as char
    } else {
        c
    }
}

/// The texts increase strictly.
pub open spec fn increasing(list: Seq<Seq<char>>) -> bool {
    forall|i: int, j: int| 0 <= i < j < list.len() ==> precedes(#[trigger] list[i], #[trigger] list[j])
}

/// Whether the list holds `value`.
pub fn listed(list: &Vec<String>, value: &str) -> (result: bool)
    ensures
        result == texts(list@).contains(value@),
{
    let mut i: usize = 0;
    while i < list.len()
        invariant
            i <= list.len(),
            forall|k: int| 0 <= k < i ==> list@[k]@ != value@,
        decreases list.len() - i,
    {
        if same(list[i].as_str(), value) {
            assert(texts(list@)[i as int] == value@);
            return true;
        }
        i += 1;
    }
    assert forall|k: int| 0 <= k < list.len() implies texts(list@)[k] != value@ by {
        assert(list@[k]@ != value@);
    }
    false
}

/// Sorts the texts and drops repetitions.
pub fn sort_unique(list: &Vec<String>) -> (result: Vec<String>)
    ensures
        increasing(texts(result@)),
        texts(result@).to_set() == texts(list@).to_set(),
{
    let mut result: Vec<String> = Vec::new();
    let mut i: usize = 0;
    while i < list.len()
        invariant
            i <= list.len(),
            increasing(texts(result@)),
            texts(result@).to_set() == texts(list@).take(i as int).to_set(),
        decreases list.len() - i,
    {
        let ghost before = texts(result@);
        let ghost item = list@[i as int]@;
        insert_sorted(&mut result, list[i].as_str());
        let ghost upto = texts(list@).take(i + 1);
        assert(upto =~= texts(list@).take(i as int).push(item));
        assert(texts(result@).to_set() =~= upto.to_set());
        i += 1;
    }
    assert(texts(list@).take(list.len() as int) =~= texts(list@));
    result
}

/// Puts `item` in its place in a strictly increasing list that may already hold it.
fn insert_sorted(list: &mut Vec<String>, item: &str)
    requires
        increasing(texts(old(list)@)),
    ensures
        increasing(texts(final(list)@)),
        texts(final(list)@).to_set() == texts(old(list)@).to_set().insert(item@),
{
    let ghost before = texts(list@);
    let mut at: usize = 0;
    while at < list.len() && less(list[at].as_str(), item)
        invariant
            at <= list.len(),
            texts(list@) == before,
            forall|k: int| 0 <= k < at ==> precedes(#[trigger] before[k], item@),
        decreases list.len() - at,
    {
        at += 1;
    }
    if at < list.len() && same(list[at].as_str(), item) {
        assert(before[at as int] == item@);
        assert(before.to_set() =~= before.to_set().insert(item@));
        return;
    }
    list.insert(at, item.to_owned());
    let ghost after = texts(list@);
    assert(after =~= before.insert(at as int, item@));
    proof {
        if at < before.len() {
            lemma_precedes_total(before[at as int], item@);
            assert(precedes(item@, before[at as int]));
        }
        assert forall|i: int, j: int| 0 <= i < j < after.len() implies precedes(
            #[trigger] after[i],
            #[trigger] after[j],
        ) by {
            if i < at && j > at {
                assert(after[j] == before[j - 1]);
            } else if i == at && j > at {
                assert(after[j] == before[j - 1]);
                if j - 1 > at {
                    lemma_precedes_transitive(item@, before[at as int], before[j - 1]);
                }
            } else if i > at {
                assert(after[i] == before[i - 1]);
                assert(after[j] == before[j - 1]);
            }
        }
        assert(after.to_set() =~= before.to_set().insert(item@)) by {
            assert forall|t: Seq<char>| after.to_set().contains(t) <==> before.to_set().insert(
                item@,
            ).contains(t) by {
                if after.contains(t) {
                    let k = choose|k: int| 0 <= k < after.len() && after[k] == t;
                    if k < at {
                        assert(before[k] == t);
                    } else if k > at {
                        assert(before[k - 1] == t);
                    }
                }
                if before.contains(t) {
                    let k = choose|k: int| 0 <= k < before.len() && before[k] == t;
                    if k < at {
                        assert(after[k] == t);
                    } else {
                        assert(after[k + 1] == t);
                    }
                }
                if t == item@ {
                    assert(after[at as int] == t);
                }
            }
        }
    }
}

/// Nothing but white space.
pub open spec fn blank(s: Seq<char>) -> bool {
    trimmed(s).len() == 0
}

pub fn is_blank(value: &str) -> (result: bool)
    ensures
        result == blank(value@),
{
    trim(value).as_str().is_empty()
}

/// The texts without repetitions, in the order of their first occurrence.
pub open spec fn distinct(list: Seq<Seq<char>>) -> Seq<Seq<char>>
    decreases list.len(),
{
    if list.len() == 0 {
        Seq::empty()
    } else {
        let before = distinct(list.drop_last());
        if before.contains(list.last()) {
            before
        } else {
            before.push(list.last())
        }
    }
}

pub proof fn lemma_distinct(list: Seq<Seq<char>>)
    ensures
        distinct(list).no_duplicates(),
        forall|t: Seq<char>| distinct(list).contains(t) <==> #[trigger] list.contains(t),
        distinct(list).len() <= list.len(),
    decreases list.len(),
{
    if list.len() > 0 {
        lemma_distinct(list.drop_last());
        let before = distinct(list.drop_last());
        let last = list.last();
        assert forall|t: Seq<char>| distinct(list).contains(t) <==> #[trigger] list.contains(t) by {
            if list.contains(t) {
                let k = choose|k: int| 0 <= k < list.len() && list[k] == t;
                if k < list.len() - 1 {
                    assert(list.drop_last()[k] == t);
                    assert(list.drop_last().contains(t));
                    let m = choose|m: int| 0 <= m < before.len() && before[m] == t;
                    assert(distinct(list)[m] == t);
                } else if !before.contains(last) {
                    assert(distinct(list)[before.len() as int] == t);
                }
            }
            if distinct(list).contains(t) {
                if before.contains(t) {
                    assert(list.drop_last().contains(t));
                    let m = choose|m: int|
                        0 <= m < list.drop_last().len() && list.drop_last()[m] == t;
                    assert(list[m] == t);
                } else {
                    assert(list[list.len() - 1] == t);
                }
            }
        }
    }
}

pub fn unique(list: &Vec<String>) -> (result: Vec<String>)
    ensures
        texts(result@) == distinct(texts(list@)),
{
    let mut result: Vec<String> = Vec::new();
    let mut i: usize = 0;
    while i < list.len()
        invariant
            i <= list.len(),
            texts(result@) == distinct(texts(list@).take(i as int)),
        decreases list.len() - i,
    {
        assert(texts(list@).take(i + 1).drop_last() =~= texts(list@).take(i as int));
        if !listed(&result, list[i].as_str()) {
            let ghost done = texts(result@).push(list@[i as int]@);
            result.push(list[i].clone());
            assert(texts(result@) =~= done);
        }
        i += 1;
    }
    assert(texts(list@).take(list.len() as int) =~= texts(list@));
    result
}

/// The texts of the list, each once, in increasing order.
pub open spec fn sorted_distinct(list: Seq<Seq<char>>) -> Seq<Seq<char>> {
    choose|sorted: Seq<Seq<char>>| #[trigger]
        increasing(sorted) && sorted.to_set() == list.to_set()
}

/// An increasing list of the same texts is the sorted one.
pub proof fn lemma_sorted_distinct(list: Seq<Seq<char>>, sorted: Seq<Seq<char>>)
    requires
        increasing(sorted),
        sorted.to_set() == list.to_set(),
    ensures
        sorted == sorted_distinct(list),
{
    lemma_increasing_unique(sorted, sorted_distinct(list));
}

proof fn lemma_insertable(sorted: Seq<Seq<char>>, t: Seq<char>) -> (longer: Seq<Seq<char>>)
    requires
        increasing(sorted),
    ensures
        increasing(longer),
        forall|other: Seq<char>| #[trigger]
            longer.contains(other) <==> sorted.contains(other) || other == t,
    decreases sorted.len(),
{
    if sorted.contains(t) {
        sorted
    } else if sorted.len() == 0 || precedes(sorted.last(), t) {
        let longer = sorted.push(t);
        assert forall|i: int, j: int| 0 <= i < j < longer.len() implies precedes(
            #[trigger] longer[i],
            #[trigger] longer[j],
        ) by {
            if j == sorted.len() {
                if i < sorted.len() - 1 {
                    assert(precedes(sorted[i], sorted[sorted.len() - 1]));
                    lemma_precedes_transitive(sorted[i], sorted.last(), t);
                }
            } else {
                assert(precedes(sorted[i], sorted[j]));
            }
        }
        assert forall|other: Seq<char>| #[trigger]
            longer.contains(other) <==> sorted.contains(other) || other == t by {
            if sorted.contains(other) {
                let k = choose|k: int| 0 <= k < sorted.len() && sorted[k] == other;
                assert(longer[k] == other);
            }
            assert(longer[sorted.len() as int] == t);
        }
        longer
    } else {
        let rest = sorted.drop_last();
        let last = sorted.last();
        assert(sorted.contains(sorted[sorted.len() - 1]));
        lemma_precedes_total(last, t);
        assert forall|i: int, j: int| 0 <= i < j < rest.len() implies precedes(
            #[trigger] rest[i],
            #[trigger] rest[j],
        ) by {
            assert(precedes(sorted[i], sorted[j]));
        }
        let shorter = lemma_insertable(rest, t);
        let longer = shorter.push(last);
        assert forall|i: int, j: int| 0 <= i < j < longer.len() implies precedes(
            #[trigger] longer[i],
            #[trigger] longer[j],
        ) by {
            if j == shorter.len() {
                assert(shorter.contains(shorter[i]));
                if shorter[i] != t {
                    let k = choose|k: int| 0 <= k < rest.len() && rest[k] == shorter[i];
                    assert(precedes(sorted[k], sorted[sorted.len() - 1]));
                }
            } else {
                assert(precedes(shorter[i], shorter[j]));
            }
        }
        assert forall|other: Seq<char>| #[trigger]
            longer.contains(other) <==> sorted.contains(other) || other == t by {
            if longer.contains(other) {
                let k = choose|k: int| 0 <= k < longer.len() && longer[k] == other;
                if k < shorter.len() {
                    assert(shorter.contains(other));
                    if other != t {
                        let m = choose|m: int| 0 <= m < rest.len() && rest[m] == other;
                        assert(sorted[m] == other);
                    }
                }
            }
            if sorted.contains(other) || other == t {
                if sorted.contains(other) {
                    let k = choose|k: int| 0 <= k < sorted.len() && sorted[k] == other;
                    if k < rest.len() {
                        assert(rest[k] == other);
                        assert(rest.contains(other));
                    } else {
                        assert(longer[shorter.len() as int] == other);
                    }
                }
                if shorter.contains(other) {
                    let k = choose|k: int| 0 <= k < shorter.len() && shorter[k] == other;
                    assert(longer[k] == other);
                }
            }
        }
        longer
    }
}

proof fn lemma_sortable(list: Seq<Seq<char>>) -> (sorted: Seq<Seq<char>>)
    ensures
        increasing(sorted),
        sorted.to_set() == list.to_set(),
    decreases list.len(),
{
    if list.len() == 0 {
        assert(increasing(list));
        list
    } else {
        let rest = list.drop_last();
        let before = lemma_sortable(rest);
        let sorted = lemma_insertable(before, list.last());
        assert forall|t: Seq<char>| #[trigger]
            sorted.to_set().contains(t) <==> list.to_set().contains(t) by {
            assert(before.to_set().contains(t) <==> rest.to_set().contains(t));
            if list.contains(t) {
                let k = choose|k: int| 0 <= k < list.len() && list[k] == t;
                if k < rest.len() {
                    assert(rest[k] == t);
                    assert(rest.contains(t));
                }
            }
            if rest.contains(t) {
                let k = choose|k: int| 0 <= k < rest.len() && rest[k] == t;
                assert(list[k] == t);
            }
            assert(list[list.len() - 1] == list.last());
            assert(sorted.contains(t) <==> before.contains(t) || t == list.last());
        }
        assert(sorted.to_set() =~= list.to_set());
        sorted
    }
}

/// The sorted list is in increasing order and holds the texts of the list, and no others.
pub proof fn lemma_sorted_texts(list: Seq<Seq<char>>)
    ensures
        increasing(sorted_distinct(list)),
        forall|t: Seq<char>| #[trigger]
            sorted_distinct(list).contains(t) <==> list.contains(t),
{
    let sorted = lemma_sortable(list);
    lemma_sorted_distinct(list, sorted);
    assert forall|t: Seq<char>| #[trigger]
        sorted_distinct(list).contains(t) <==> list.contains(t) by {
        assert(sorted.to_set().contains(t) <==> list.to_set().contains(t));
    }
}

/// Two increasing lists of the same texts are the same list.
pub proof fn lemma_increasing_unique(left: Seq<Seq<char>>, right: Seq<Seq<char>>)
    requires
        increasing(left),
        increasing(right),
        left.to_set() == right.to_set(),
    ensures
        left == right,
    decreases left.len(),
{
    assert forall|t: Seq<char>| left.contains(t) == right.contains(t) by {
        assert(left.to_set().contains(t) == left.contains(t));
        assert(right.to_set().contains(t) == right.contains(t));
    }
    if left.len() == 0 {
        if right.len() > 0 {
            assert(right.contains(right[0]));
            assert(left.contains(right[0]));
        }
    } else {
        let a = left.last();
        assert(left.contains(a));
        assert(right.contains(a));
        assert(right.len() > 0);
        let b = right.last();
        assert(right.contains(b));
        assert(left.contains(b));
        let i = choose|i: int| 0 <= i < left.len() && left[i] == b;
        let j = choose|j: int| 0 <= j < right.len() && right[j] == a;
        lemma_precedes_total(a, b);
        if a != b {
            assert(precedes(left[i], left[left.len() - 1]));
            assert(precedes(right[j], right[right.len() - 1]));
        }
        let before = left.drop_last();
        let other = right.drop_last();
        assert forall|t: Seq<char>| before.to_set().contains(t) == other.to_set().contains(t) by {
            if before.contains(t) {
                let k = choose|k: int| 0 <= k < before.len() && before[k] == t;
                assert(precedes(left[k], left[left.len() - 1]));
                lemma_precedes_total(t, a);
                assert(left.contains(left[k]));
                let m = choose|m: int| 0 <= m < right.len() && right[m] == t;
                assert(m < right.len() - 1);
                assert(other[m] == t);
            }
            if other.contains(t) {
                let k = choose|k: int| 0 <= k < other.len() && other[k] == t;
                assert(precedes(right[k], right[right.len() - 1]));
                lemma_precedes_total(t, a);
                assert(right.contains(right[k]));
                let m = choose|m: int| 0 <= m < left.len() && left[m] == t;
                assert(m < left.len() - 1);
                assert(before[m] == t);
            }
        }
        assert(before.to_set() =~= other.to_set());
        lemma_increasing_unique(before, other);
        assert(left =~= before.push(a));
        assert(right =~= other.push(b));
    }
}

} // verus!
