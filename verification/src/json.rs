//! JSON documents as values of the library.
use vstd::prelude::*;
use vstd::string::*;

use crate::text;

verus! {

/// A JSON document. The members of an object come in the order of their keys, each key once.
/// A number that is no integer is kept as text.
#[derive(Debug, PartialEq, Eq)]
pub enum JsonValue {
    Null,
    Bool(bool),
    Natural(u64),
    Negative(i64),
    Fraction(String),
    Text(String),
    List(Vec<JsonValue>),
    Object(Vec<(String, JsonValue)>),
}

/// What a `JsonValue` holds.
#[verifier::ext_equal]
pub enum JsonView {
    Null,
    Bool(bool),
    Natural(u64),
    Negative(i64),
    Fraction(Seq<char>),
    Text(Seq<char>),
    List(Seq<JsonView>),
    Object(Seq<(Seq<char>, JsonView)>),
}

pub open spec fn view_of(value: JsonValue) -> JsonView
    decreases value,
{
    match value {
        JsonValue::Null => JsonView::Null,
        JsonValue::Bool(flag) => JsonView::Bool(flag),
        JsonValue::Natural(number) => JsonView::Natural(number),
        JsonValue::Negative(number) => JsonView::Negative(number),
        JsonValue::Fraction(digits) => JsonView::Fraction(digits@),
        JsonValue::Text(content) => JsonView::Text(content@),
        JsonValue::List(items) => JsonView::List(list_view(items@)),
        JsonValue::Object(members) => JsonView::Object(member_view(members@)),
    }
}

pub open spec fn list_view(items: Seq<JsonValue>) -> Seq<JsonView>
    decreases items,
{
    if items.len() == 0 {
        Seq::empty()
    } else {
        list_view(items.drop_last()).push(view_of(items.last()))
    }
}

pub open spec fn member_view(members: Seq<(String, JsonValue)>) -> Seq<(Seq<char>, JsonView)>
    decreases members,
{
    if members.len() == 0 {
        Seq::empty()
    } else {
        member_view(members.drop_last()).push((members.last().0@, view_of(members.last().1)))
    }
}

impl View for JsonValue {
    type V = JsonView;

    open spec fn view(&self) -> JsonView {
        view_of(*self)
    }
}

pub proof fn lemma_list_view(items: Seq<JsonValue>)
    ensures
        list_view(items).len() == items.len(),
        forall|i: int| 0 <= i < items.len() ==> #[trigger] list_view(items)[i] == view_of(items[i]),
    decreases items.len(),
{
    if items.len() > 0 {
        lemma_list_view(items.drop_last());
        assert forall|i: int| 0 <= i < items.len() implies #[trigger] list_view(items)[i]
            == view_of(items[i]) by {
            if i < items.len() - 1 {
                assert(items.drop_last()[i] == items[i]);
                assert(list_view(items.drop_last())[i] == view_of(items.drop_last()[i]));
            }
        }
    }
}

pub proof fn lemma_member_view(members: Seq<(String, JsonValue)>)
    ensures
        member_view(members).len() == members.len(),
        forall|i: int|
            0 <= i < members.len() ==> #[trigger] member_view(members)[i] == (
                members[i].0@,
                view_of(members[i].1),
            ),
    decreases members.len(),
{
    if members.len() > 0 {
        lemma_member_view(members.drop_last());
        assert forall|i: int| 0 <= i < members.len() implies #[trigger] member_view(members)[i] == (
            members[i].0@,
            view_of(members[i].1),
        ) by {
            if i < members.len() - 1 {
                assert(members.drop_last()[i] == members[i]);
                assert(member_view(members.drop_last())[i] == (
                    members.drop_last()[i].0@,
                    view_of(members.drop_last()[i].1),
                ));
            }
        }
    }
}

/// The outside JSON type.
#[verifier::external_type_specification]
#[verifier::external_body]
pub struct ExValue(serde_json::Value);

/// What an outside JSON value holds.
pub uninterp spec fn outside_content(value: serde_json::Value) -> JsonView;

/// The document that a text denotes, if it is one.
pub uninterp spec fn document(value: Seq<char>) -> Option<JsonView>;

/// Trusted: `serde_json::from_str` reads a JSON document; the text alone decides whether there is
/// one and what it holds. The grammar is serde_json's.
#[verifier::external_body]
fn read_outside(value: &str) -> (result: Option<serde_json::Value>)
    ensures
        match result {
            Some(outside) => document(value@) == Some(outside_content(outside)),
            None => document(value@) is None,
        },
{
    serde_json::from_str::<serde_json::Value>(value).ok()
}

/// Trusted: takes a `serde_json::Value` apart, variant by variant (`Number::as_u64`,
/// `Number::as_i64` and the number's text tell the three kinds of number apart).
#[verifier::external_body]
fn take_apart(value: serde_json::Value) -> (result: JsonValue)
    ensures
        result@ == outside_content(value),
{
    match value {
        serde_json::Value::Null => JsonValue::Null,
        serde_json::Value::Bool(flag) => JsonValue::Bool(flag),
        serde_json::Value::Number(number) => match (number.as_u64(), number.as_i64()) {
            (Some(natural), _) => JsonValue::Natural(natural),
            (None, Some(negative)) => JsonValue::Negative(negative),
            (None, None) => JsonValue::Fraction(number.to_string()),
        },
        serde_json::Value::String(content) => JsonValue::Text(content),
        serde_json::Value::Array(items) => JsonValue::List(items.into_iter().map(take_apart).collect()),
        serde_json::Value::Object(members) => JsonValue::Object(
            members.into_iter().map(|(key, item)| (key, take_apart(item))).collect()),
    }
}

/// Reads a JSON document.
pub fn parse(value: &str) -> (result: Option<JsonValue>)
    ensures
        match result {
            Some(parsed) => document(value@) == Some(parsed@),
            None => document(value@) is None,
        },
{
    match read_outside(value) {
        Some(outside) => Some(take_apart(outside)),
        None => None,
    }
}

/// The document can be written: it holds no fraction, its negative numbers are negative, and the
/// members of its objects come in the order of their keys, each key once.
pub open spec fn writable(value: JsonView) -> bool
    decreases value,
{
    match value {
        JsonView::Fraction(digits) => false,
        JsonView::Negative(number) => number < 0,
        JsonView::List(items) => forall|i: int|
            0 <= i < items.len() ==> writable(#[trigger] items[i]),
        JsonView::Object(members) => {
            &&& forall|i: int| 0 <= i < members.len() ==> writable((#[trigger] members[i]).1)
            &&& forall|i: int, j: int|
                0 <= i < j < members.len() ==> text::precedes(
                    (#[trigger] members[i]).0,
                    (#[trigger] members[j]).0,
                )
        },
        _ => true,
    }
}

/// Trusted: puts a `serde_json::Value` together, variant by variant. Its objects hold their members
/// in the order of their keys, each key once, and it tells natural and negative numbers apart, so
/// that only such a document comes out as it is; a fraction is left out too, since its digits need
/// not be those of a number.
#[verifier::external_body]
fn put_together(value: &JsonValue) -> (result: serde_json::Value)
    requires
        writable(value@),
    ensures
        outside_content(result) == value@,
{
    match value {
        JsonValue::Null => serde_json::Value::Null,
        JsonValue::Bool(flag) => serde_json::Value::Bool(*flag),
        JsonValue::Natural(number) => serde_json::Value::from(*number),
        JsonValue::Negative(number) => serde_json::Value::from(*number),
        JsonValue::Fraction(digits) => serde_json::Value::String(digits.clone()),
        JsonValue::Text(content) => serde_json::Value::String(content.clone()),
        JsonValue::List(items) => serde_json::Value::Array(items.iter().map(put_together).collect()),
        JsonValue::Object(members) => serde_json::Value::Object(
            members.iter().map(|(key, item)| (key.clone(), put_together(item))).collect()),
    }
}

/// The text of a document without white space between its parts.
pub uninterp spec fn document_text(value: JsonView) -> Seq<char>;

/// Trusted: `to_string` of a `serde_json::Value` writes the document; what the value holds alone
/// decides the text. The notation is serde_json's compact one and is not written out.
#[verifier::external_body]
fn write_outside(value: &serde_json::Value) -> (result: String)
    ensures
        result@ == document_text(outside_content(*value)),
{
    value.to_string()
}

/// Writes a JSON document.
pub fn write_document(value: &JsonValue) -> (result: String)
    requires
        writable(value@),
    ensures
        result@ == document_text(value@),
{
    let outside = put_together(value);
    write_outside(&outside)
}

impl JsonView {
    /// The last member with this key, where the value is an object that has one.
    pub open spec fn member(self, key: Seq<char>) -> Option<JsonView> {
        match self {
            JsonView::Object(members) => last_member(members, key),
            _ => None,
        }
    }

    pub open spec fn as_text(self) -> Option<Seq<char>> {
        match self {
            JsonView::Text(content) => Some(content),
            _ => None,
        }
    }

    /// The text of a member.
    pub open spec fn member_text(self, key: Seq<char>) -> Option<Seq<char>> {
        match self.member(key) {
            Some(value) => value.as_text(),
            None => None,
        }
    }

    /// The truth value of a member, false where it has none.
    pub open spec fn member_flag(self, key: Seq<char>) -> bool {
        self.member(key) == Some(JsonView::Bool(true))
    }

    /// The items of a member that is a list, none where it is not.
    pub open spec fn member_items(self, key: Seq<char>) -> Seq<JsonView> {
        match self.member(key) {
            Some(JsonView::List(items)) => items,
            _ => Seq::empty(),
        }
    }

    /// The integer of a member, where it fits.
    pub open spec fn member_integer(self, key: Seq<char>) -> Option<i64> {
        match self.member(key) {
            Some(JsonView::Natural(number)) => if number <= i64::MAX {
                Some(number as i64)
            } else {
                None
            },
            Some(JsonView::Negative(number)) => Some(number),
            _ => None,
        }
    }

    /// The natural number of a member.
    pub open spec fn member_natural(self, key: Seq<char>) -> Option<u64> {
        match self.member(key) {
            Some(JsonView::Natural(number)) => Some(number),
            _ => None,
        }
    }
}

pub open spec fn last_member(members: Seq<(Seq<char>, JsonView)>, key: Seq<char>) -> Option<JsonView>
    decreases members.len(),
{
    if members.len() == 0 {
        None
    } else if members.last().0 == key {
        Some(members.last().1)
    } else {
        last_member(members.drop_last(), key)
    }
}

/// An optional value and an optional view agree.
pub open spec fn shows(value: Option<&JsonValue>, view: Option<JsonView>) -> bool {
    match value {
        Some(inner) => view == Some(inner@),
        None => view is None,
    }
}

/// An optional string and an optional text agree.
pub open spec fn reads(value: Option<String>, view: Option<Seq<char>>) -> bool {
    match value {
        Some(inner) => view == Some(inner@),
        None => view is None,
    }
}

impl JsonValue {
    pub fn get(&self, key: &str) -> (result: Option<&JsonValue>)
        ensures
            shows(result, self@.member(key@)),
    {
        match self {
            JsonValue::Object(members) => {
                let mut i: usize = members.len();
                proof {
                    lemma_member_view(members@);
                    assert(member_view(members@).take(members.len() as int) =~= member_view(
                        members@,
                    ));
                }
                while i > 0
                    invariant
                        i <= members.len(),
                        self@ == JsonView::Object(member_view(members@)),
                        member_view(members@).len() == members.len(),
                        forall|k: int|
                            0 <= k < members.len() ==> #[trigger] member_view(members@)[k] == (
                                members@[k].0@,
                                view_of(members@[k].1),
                            ),
                        last_member(member_view(members@), key@) == last_member(
                            member_view(members@).take(i as int),
                            key@,
                        ),
                    decreases i,
                {
                    let ghost upto = member_view(members@).take(i as int);
                    assert(upto.last() == member_view(members@)[i - 1]);
                    assert(upto.drop_last() =~= member_view(members@).take(i - 1));
                    if text::same(members[i - 1].0.as_str(), key) {
                        return Some(&members[i - 1].1);
                    }
                    i -= 1;
                }
                None
            },
            _ => None,
        }
    }

    /// The text of a member, as a copy.
    pub fn text_of(&self, key: &str) -> (result: Option<String>)
        ensures
            reads(result, self@.member_text(key@)),
    {
        match self.get(key) {
            Some(JsonValue::Text(content)) => Some(content.clone()),
            _ => None,
        }
    }

    /// The truth value of a member, false where it has none.
    pub fn flag_of(&self, key: &str) -> (result: bool)
        ensures
            result == self@.member_flag(key@),
    {
        match self.get(key) {
            Some(JsonValue::Bool(flag)) => *flag,
            _ => false,
        }
    }

    /// The items of a member that is a list.
    pub fn items_of(&self, key: &str) -> (result: Option<&Vec<JsonValue>>)
        ensures
            match result {
                Some(items) => list_view(items@) == self@.member_items(key@) && self@.member(key@)
                    == Some(JsonView::List(list_view(items@))),
                None => !(self@.member(key@) matches Some(JsonView::List(_))),
            },
    {
        match self.get(key) {
            Some(JsonValue::List(items)) => Some(items),
            _ => None,
        }
    }

    /// The integer of a member, where it fits.
    pub fn integer_of(&self, key: &str) -> (result: Option<i64>)
        ensures
            result == self@.member_integer(key@),
    {
        match self.get(key) {
            Some(JsonValue::Natural(number)) => if *number <= i64::MAX as u64 {
                Some(*number as i64)
            } else {
                None
            },
            Some(JsonValue::Negative(number)) => Some(*number),
            _ => None,
        }
    }

    /// The natural number of a member.
    pub fn natural_of(&self, key: &str) -> (result: Option<u64>)
        ensures
            result == self@.member_natural(key@),
    {
        match self.get(key) {
            Some(JsonValue::Natural(number)) => Some(*number),
            _ => None,
        }
    }
}

/// The texts among the items, in order.
pub open spec fn text_items(items: Seq<JsonView>) -> Seq<Seq<char>> {
    items.filter_map(|item: JsonView| item.as_text())
}

/// Copies the texts among the items.
pub fn collect_texts(items: &Vec<JsonValue>) -> (result: Vec<String>)
    ensures
        text::texts(result@) == text_items(list_view(items@)),
{
    let ghost views = list_view(items@);
    let ghost pick = |item: JsonView| item.as_text();
    proof {
        lemma_list_view(items@);
    }
    let mut result: Vec<String> = Vec::new();
    let mut i: usize = 0;
    assert(views.take(0) =~= Seq::empty());
    while i < items.len()
        invariant
            i <= items.len(),
            views.len() == items.len(),
            forall|k: int| 0 <= k < items.len() ==> #[trigger] views[k] == view_of(items@[k]),
            pick == (|item: JsonView| item.as_text()),
            text::texts(result@) == views.take(i as int).filter_map(pick),
        decreases items.len() - i,
    {
        let ghost done = text::texts(result@);
        assert(views[i as int] == view_of(items@[i as int]));
        proof {
            views.lemma_filter_map_take_succ(pick, i as int);
        }
        if let JsonValue::Text(content) = &items[i] {
            result.push(content.clone());
            assert(text::texts(result@) =~= done.push(content@));
        }
        i += 1;
    }
    assert(views.take(items.len() as int) =~= views);
    result
}

/// The members without those of this key.
pub open spec fn without_member(members: Seq<(Seq<char>, JsonView)>, key: Seq<char>) -> Seq<
    (Seq<char>, JsonView),
> {
    members.filter(|member: (Seq<char>, JsonView)| has_other_key(member, key))
}

/// The member is not of this key.
pub open spec fn has_other_key(member: (Seq<char>, JsonView), key: Seq<char>) -> bool {
    member.0 != key
}

/// The members, ordered by key, with this one put in its place.
pub open spec fn with_member(
    members: Seq<(Seq<char>, JsonView)>,
    key: Seq<char>,
    value: JsonView,
) -> Seq<(Seq<char>, JsonView)>
    decreases members.len(),
{
    if members.len() == 0 {
        seq![(key, value)]
    } else if members.last().0 == key {
        members.drop_last().push((key, value))
    } else if text::precedes(members.last().0, key) {
        members.push((key, value))
    } else {
        with_member(members.drop_last(), key, value).push(members.last())
    }
}

pub fn remove_member(members: &mut Vec<(String, JsonValue)>, key: &str)
    ensures
        member_view(final(members)@) == without_member(member_view(old(members)@), key@),
{
    let ghost start = member_view(members@);
    let ghost keep = |member: (Seq<char>, JsonView)| has_other_key(member, key@);
    let ghost start_rows = members@;
    let mut i: usize = members.len();
    proof {
        lemma_member_view(members@);
        assert(start.take(i as int) =~= start);
        assert(members@.take(i as int) =~= start_rows.take(i as int));
        assert(start.skip(i as int).filter(keep) =~= Seq::empty()) by {
            reveal(Seq::filter);
        }
        assert(member_view(members@).skip(i as int) =~= start.skip(i as int).filter(keep));
    }
    while i > 0
        invariant
            i <= members.len(),
            i <= start_rows.len(),
            start == member_view(start_rows),
            keep == (|member: (Seq<char>, JsonView)| has_other_key(member, key@)),
            members@.take(i as int) == start_rows.take(i as int),
            member_view(members@).skip(i as int) == start.skip(i as int).filter(keep),
        decreases i,
    {
        let ghost before = members@;
        proof {
            lemma_member_view(before);
            lemma_member_view(start_rows);
            assert(before[i - 1] == before.take(i as int)[i - 1]);
            assert(start_rows[i - 1] == start_rows.take(i as int)[i - 1]);
            assert(start.skip(i - 1) =~= seq![start[i - 1]] + start.skip(i as int));
            Seq::filter_distributes_over_add(seq![start[i - 1]], start.skip(i as int), keep);
            assert(seq![start[i - 1]].filter(keep) =~= if keep(start[i - 1]) {
                seq![start[i - 1]]
            } else {
                Seq::empty()
            }) by {
                let none = Seq::<(Seq<char>, JsonView)>::empty();
                assert(none.filter(keep) =~= none) by {
                    reveal(Seq::filter);
                }
                none.lemma_filter_push(start[i - 1], keep);
                assert(seq![start[i - 1]] =~= none.push(start[i - 1]));
            }
        }
        if text::same(members[i - 1].0.as_str(), key) {
            let gone = members.remove(i - 1);
            proof {
                lemma_member_view(members@);
                assert(members@ =~= before.remove(i - 1));
                assert(members@.take(i - 1) =~= start_rows.take(i - 1)) by {
                    assert forall|k: int| 0 <= k < i - 1 implies members@[k] == start_rows[k] by {
                        assert(before.take(i as int)[k] == start_rows.take(i as int)[k]);
                    }
                }
                assert(member_view(members@).skip(i - 1) =~= member_view(before).skip(i as int)) by {
                    assert forall|k: int| 0 <= k < members.len() - (i - 1) implies member_view(
                        members@,
                    ).skip(i - 1)[k] == member_view(before).skip(i as int)[k] by {
                        assert(members@[i - 1 + k] == before[i + k]);
                    }
                }
            }
        } else {
            proof {
                assert(members@.take(i - 1) =~= start_rows.take(i - 1)) by {
                    assert forall|k: int| 0 <= k < i - 1 implies members@[k] == start_rows[k] by {
                        assert(before.take(i as int)[k] == start_rows.take(i as int)[k]);
                    }
                }
                assert(member_view(members@).skip(i - 1) =~= seq![start[i - 1]] + member_view(
                    before,
                ).skip(i as int));
            }
        }
        i -= 1;
    }
    proof {
        assert(member_view(members@).skip(0) =~= member_view(members@));
        assert(start.skip(0) =~= start);
    }
}

pub fn put_member(members: &mut Vec<(String, JsonValue)>, key: &str, value: JsonValue)
    ensures
        member_view(final(members)@) == with_member(member_view(old(members)@), key@, value@),
{
    let ghost start = member_view(members@);
    let ghost rows = members@;
    let mut at: usize = members.len();
    proof {
        lemma_member_view(rows);
        assert(start.take(at as int) =~= start);
        assert(with_member(start.take(at as int), key@, value@) + start.skip(at as int)
            =~= with_member(start, key@, value@));
    }
    while at > 0 && !text::same(members[at - 1].0.as_str(), key) && !text::less(
        members[at - 1].0.as_str(),
        key,
    )
        invariant
            at <= members.len(),
            members@ == rows,
            start == member_view(rows),
            start.len() == rows.len(),
            forall|k: int|
                0 <= k < rows.len() ==> #[trigger] start[k] == (rows[k].0@, view_of(rows[k].1)),
            with_member(start.take(at as int), key@, value@) + start.skip(at as int)
                == with_member(start, key@, value@),
        decreases at,
    {
        let ghost head = start.take(at as int);
        assert(head.last() == start[at - 1]);
        assert(head.drop_last() =~= start.take(at - 1));
        assert(with_member(head.drop_last(), key@, value@).push(head.last()) + start.skip(
            at as int,
        ) =~= with_member(start.take(at - 1), key@, value@) + start.skip(at - 1));
        at -= 1;
    }
    let ghost head = start.take(at as int);
    proof {
        if at > 0 {
            assert(head.last() == start[at - 1]);
        }
    }
    if at > 0 && text::same(members[at - 1].0.as_str(), key) {
        members.set(at - 1, (key.to_owned(), value));
        proof {
            lemma_member_view(members@);
            assert(member_view(members@) =~= head.drop_last().push((key@, value@)) + start.skip(
                at as int,
            ));
        }
    } else {
        members.insert(at, (key.to_owned(), value));
        proof {
            lemma_member_view(members@);
            assert(member_view(members@) =~= head.push((key@, value@)) + start.skip(at as int)) by {
                assert forall|k: int| 0 <= k < members.len() implies member_view(members@)[k] == (
                head.push((key@, value@)) + start.skip(at as int))[k] by {
                    if k > at {
                        assert(members@[k] == rows[k - 1]);
                    } else if k < at {
                        assert(members@[k] == rows[k]);
                    }
                }
            }
            assert(with_member(head, key@, value@) =~= head.push((key@, value@)));
        }
    }
}

/// Equality of documents.
pub fn same_value(left: &JsonValue, right: &JsonValue) -> (result: bool)
    ensures
        result == (left@ == right@),
    decreases left,
{
    match (left, right) {
        (JsonValue::Null, JsonValue::Null) => true,
        (JsonValue::Bool(a), JsonValue::Bool(b)) => *a == *b,
        (JsonValue::Natural(a), JsonValue::Natural(b)) => *a == *b,
        (JsonValue::Negative(a), JsonValue::Negative(b)) => *a == *b,
        (JsonValue::Fraction(a), JsonValue::Fraction(b)) => text::same(a.as_str(), b.as_str()),
        (JsonValue::Text(a), JsonValue::Text(b)) => text::same(a.as_str(), b.as_str()),
        (JsonValue::List(a), JsonValue::List(b)) => {
            proof {
                lemma_list_view(a@);
                lemma_list_view(b@);
            }
            if a.len() != b.len() {
                return false;
            }
            let mut i: usize = 0;
            while i < a.len()
                invariant
                    i <= a.len(),
                    a.len() == b.len(),
                    left == JsonValue::List(*a),
                    list_view(a@).len() == a.len(),
                    list_view(b@).len() == b.len(),
                    forall|k: int|
                        0 <= k < a.len() ==> #[trigger] list_view(a@)[k] == view_of(a@[k]),
                    forall|k: int|
                        0 <= k < b.len() ==> #[trigger] list_view(b@)[k] == view_of(b@[k]),
                    forall|k: int|
                        0 <= k < i ==> #[trigger] list_view(a@)[k] == list_view(b@)[k],
                    left@ == JsonView::List(list_view(a@)),
                    right@ == JsonView::List(list_view(b@)),
                decreases a.len() - i,
            {
                assert(decreases_to!(left => a@[i as int]));
                if !same_value(&a[i], &b[i]) {
                    assert(list_view(a@)[i as int] != list_view(b@)[i as int]);
                    return false;
                }
                i += 1;
            }
            assert(list_view(a@) =~= list_view(b@));
            true
        },
        (JsonValue::Object(a), JsonValue::Object(b)) => {
            proof {
                lemma_member_view(a@);
                lemma_member_view(b@);
            }
            if a.len() != b.len() {
                return false;
            }
            let mut i: usize = 0;
            while i < a.len()
                invariant
                    i <= a.len(),
                    a.len() == b.len(),
                    left == JsonValue::Object(*a),
                    member_view(a@).len() == a.len(),
                    member_view(b@).len() == b.len(),
                    forall|k: int|
                        0 <= k < a.len() ==> #[trigger] member_view(a@)[k] == (
                            a@[k].0@,
                            view_of(a@[k].1),
                        ),
                    forall|k: int|
                        0 <= k < b.len() ==> #[trigger] member_view(b@)[k] == (
                            b@[k].0@,
                            view_of(b@[k].1),
                        ),
                    forall|k: int|
                        0 <= k < i ==> #[trigger] member_view(a@)[k] == member_view(b@)[k],
                    left@ == JsonView::Object(member_view(a@)),
                    right@ == JsonView::Object(member_view(b@)),
                decreases a.len() - i,
            {
                assert(decreases_to!(left => a@[i as int].1));
                if !text::same(a[i].0.as_str(), b[i].0.as_str()) || !same_value(&a[i].1, &b[i].1) {
                    assert(member_view(a@)[i as int] != member_view(b@)[i as int]);
                    return false;
                }
                i += 1;
            }
            assert(member_view(a@) =~= member_view(b@));
            true
        },
        _ => false,
    }
}

} // verus!
