//! Merging the records of two devices.
use vstd::hash_map::StringHashMap;
use vstd::hash_set::StringHashSet;
use vstd::prelude::*;
use vstd::string::*;

use crate::lists;
use crate::models::{
    AttributionRule, Project, ProjectView, RuleView, SessionView, SyncCounts, SyncDeviceInfo,
    SyncDeviceView, Task, TaskView, WorkSession,
};
use crate::text;

verus! {

broadcast use vstd::seq_lib::group_seq_properties;

/// The layout of snapshots that this version reads and writes.
pub const SNAPSHOT_SCHEMA: u32 = 1;

/// A record that has an identity and a time of its last change.
pub trait Record: View + Sized {
    spec fn key_of(view: Self::V) -> Seq<char>;

    spec fn time_of(view: Self::V) -> Seq<char>;

    fn record_key(&self) -> (result: String)
        ensures
            result@ == Self::key_of(self@),
    ;

    fn record_time(&self) -> (result: &str)
        ensures
            result@ == Self::time_of(self@),
    ;
}

/// What the records hold.
pub open spec fn record_views<T: Record>(items: Seq<T>) -> Seq<T::V> {
    items.map_values(|item: T| item@)
}

/// How many records come before the first one with this key.
pub open spec fn spot<T: Record>(list: Seq<T::V>, key: Seq<char>) -> nat
    decreases list.len(),
{
    if list.len() == 0 || T::key_of(list[0]) == key {
        0
    } else {
        1 + spot::<T>(list.drop_first(), key)
    }
}

/// The list with a record in the place of its key, unless the one there is newer.
pub open spec fn placed<T: Record>(list: Seq<T::V>, item: T::V) -> Seq<T::V> {
    let at = spot::<T>(list, T::key_of(item)) as int;
    if at >= list.len() {
        list.push(item)
    } else if !text::precedes(T::time_of(item), T::time_of(list[at])) {
        list.update(at, item)
    } else {
        list
    }
}

/// The list with these records placed in turn.
pub open spec fn placed_all<T: Record>(list: Seq<T::V>, items: Seq<T::V>) -> Seq<T::V>
    decreases items.len(),
{
    if items.len() == 0 {
        list
    } else {
        placed::<T>(placed_all::<T>(list, items.drop_last()), items.last())
    }
}

/// The newest record of every key; of two that are equally new, the one on the right.
pub open spec fn latest<T: Record>(left: Seq<T::V>, right: Seq<T::V>) -> Seq<T::V> {
    placed_all::<T>(placed_all::<T>(Seq::empty(), left), right)
}

/// No two records share a key.
pub open spec fn keys_differ<T: Record>(list: Seq<T::V>) -> bool {
    forall|i: int, j: int|
        0 <= i < j < list.len() ==> T::key_of(#[trigger] list[i]) != T::key_of(#[trigger] list[j])
}

pub(crate) proof fn lemma_spot<T: Record>(list: Seq<T::V>, key: Seq<char>)
    ensures
        spot::<T>(list, key) <= list.len(),
        spot::<T>(list, key) < list.len() ==> T::key_of(list[spot::<T>(list, key) as int]) == key,
        forall|k: int|
            0 <= k < spot::<T>(list, key) ==> T::key_of(#[trigger] list[k]) != key,
    decreases list.len(),
{
    if list.len() > 0 && T::key_of(list[0]) != key {
        let rest = list.drop_first();
        lemma_spot::<T>(rest, key);
        assert forall|k: int| 0 <= k < spot::<T>(list, key) implies T::key_of(#[trigger] list[k])
            != key by {
            if k > 0 {
                assert(list[k] == rest[k - 1]);
            }
        }
    }
}

/// The index knows where every key of the list stands.
pub open spec fn indexes<T: Record>(index: Map<Seq<char>, usize>, list: Seq<T::V>) -> bool {
    &&& forall|i: int|
        0 <= i < list.len() ==> index.contains_key(T::key_of(#[trigger] list[i]))
            && index[T::key_of(list[i])] == i
    &&& forall|key: Seq<char>| #[trigger]
        index.contains_key(key) ==> index[key] < list.len() && T::key_of(list[index[key] as int])
            == key
}

pub(crate) proof fn lemma_indexed_spot<T: Record>(
    index: Map<Seq<char>, usize>,
    list: Seq<T::V>,
    key: Seq<char>,
)
    requires
        indexes::<T>(index, list),
    ensures
        index.contains_key(key) ==> spot::<T>(list, key) == index[key],
        !index.contains_key(key) ==> spot::<T>(list, key) == list.len(),
{
    lemma_spot::<T>(list, key);
    let at = spot::<T>(list, key) as int;
    if at < list.len() {
        assert(index.contains_key(T::key_of(list[at])));
    }
}

fn place_all<T: Record>(list: &mut Vec<T>, index: &mut StringHashMap<usize>, items: Vec<T>)
    requires
        indexes::<T>(old(index)@, record_views(old(list)@)),
    ensures
        record_views(final(list)@) == placed_all::<T>(
            record_views(old(list)@),
            record_views(items@),
        ),
        indexes::<T>(final(index)@, record_views(final(list)@)),
{
    let ghost first = record_views(list@);
    let ghost added = record_views(items@);
    assert(added.take(0) =~= Seq::empty());
    for item in it: items
        invariant
            added == record_views(it.seq()),
            record_views(list@) == placed_all::<T>(first, added.take(it.index())),
            indexes::<T>(index@, record_views(list@)),
    {
        let ghost before = record_views(list@);
        let ghost i = it.index();
        assert(added[i] == item@);
        assert(added.take(i + 1).drop_last() =~= added.take(i));
        assert(added.take(i + 1).last() == item@);
        let key = item.record_key();
        proof {
            lemma_indexed_spot::<T>(index@, before, key@);
        }
        match index.get(key.as_str()) {
            Some(found) => {
                let at: usize = *found;
                if !text::less(item.record_time(), list[at].record_time()) {
                    let ghost view = item@;
                    list.set(at, item);
                    assert(record_views(list@) =~= before.update(at as int, view));
                    assert(indexes::<T>(index@, record_views(list@)));
                }
            },
            None => {
                let ghost view = item@;
                let at: usize = list.len();
                list.push(item);
                index.insert(key, at);
                assert(record_views(list@) =~= before.push(view));
                assert(indexes::<T>(index@, record_views(list@)));
            },
        }
    }
    assert(added.take(added.len() as int) =~= added);
}

/// Keeps the newest record of every key, in the order in which the keys first come.
pub fn merge_latest<T: Record>(left: Vec<T>, right: Vec<T>) -> (result: Vec<T>)
    ensures
        record_views(result@) == latest::<T>(record_views(left@), record_views(right@)),
        keys_differ::<T>(record_views(result@)),
{
    let mut result: Vec<T> = Vec::new();
    let mut index: StringHashMap<usize> = StringHashMap::new();
    assert(record_views(result@) =~= Seq::empty());
    place_all(&mut result, &mut index, left);
    place_all(&mut result, &mut index, right);
    proof {
        lemma_indexed_keys_differ::<T>(index@, record_views(result@));
    }
    result
}

pub(crate) proof fn lemma_indexed_keys_differ<T: Record>(
    index: Map<Seq<char>, usize>,
    list: Seq<T::V>,
)
    requires
        indexes::<T>(index, list),
    ensures
        keys_differ::<T>(list),
{
    assert forall|i: int, j: int| 0 <= i < j < list.len() implies T::key_of(#[trigger] list[i])
        != T::key_of(#[trigger] list[j]) by {
        assert(index[T::key_of(list[i])] == i);
        assert(index[T::key_of(list[j])] == j);
    }
}

/// The record stands for all of its key up to here: one of them, and none of them is newer.
pub open spec fn stands_for<T: Record>(items: Seq<T::V>, chosen: T::V) -> bool {
    &&& items.contains(chosen)
    &&& forall|k: int|
        0 <= k < items.len() && T::key_of(#[trigger] items[k]) == T::key_of(chosen)
            ==> !text::precedes(T::time_of(chosen), T::time_of(items[k]))
}

proof fn lemma_placed_all<T: Record>(items: Seq<T::V>)
    ensures
        ({
            let list = placed_all::<T>(Seq::empty(), items);
            &&& keys_differ::<T>(list)
            &&& forall|i: int| 0 <= i < list.len() ==> stands_for::<T>(items, #[trigger] list[i])
            &&& forall|k: int|
                0 <= k < items.len() ==> spot::<T>(list, T::key_of(#[trigger] items[k]))
                    < list.len()
        }),
    decreases items.len(),
{
    if items.len() > 0 {
        let rest = items.drop_last();
        let item = items.last();
        let key = T::key_of(item);
        lemma_placed_all::<T>(rest);
        let before = placed_all::<T>(Seq::empty(), rest);
        let list = placed_all::<T>(Seq::empty(), items);
        let at = spot::<T>(before, key) as int;
        lemma_spot::<T>(before, key);
        assert(items.contains(item)) by {
            assert(items[items.len() - 1] == item);
        }
        text::lemma_precedes_total(T::time_of(item), T::time_of(item));
        assert forall|i: int, j: int| 0 <= i < j < list.len() implies T::key_of(#[trigger] list[i])
            != T::key_of(#[trigger] list[j]) by {
            if i < before.len() && j < before.len() {
                assert(T::key_of(before[i]) != T::key_of(before[j]));
            } else {
                assert(T::key_of(before[i]) != key);
            }
        }
        assert forall|i: int| 0 <= i < list.len() implies stands_for::<T>(
            items,
            #[trigger] list[i],
        ) by {
            let chosen = list[i];
            if i < before.len() {
                assert(stands_for::<T>(rest, before[i]));
            }
            if i < before.len() && chosen == before[i] {
                let m = choose|m: int| 0 <= m < rest.len() && rest[m] == chosen;
                assert(items[m] == chosen);
            }
            assert forall|k: int|
                0 <= k < items.len() && T::key_of(#[trigger] items[k]) == T::key_of(
                    chosen,
                ) implies !text::precedes(T::time_of(chosen), T::time_of(items[k])) by {
                if k < rest.len() {
                    assert(items[k] == rest[k]);
                    if at < before.len() {
                        lemma_no_older::<T>(rest, before[at], item, k);
                    } else if i == before.len() {
                        lemma_spot::<T>(before, T::key_of(rest[k]));
                        assert(spot::<T>(before, T::key_of(rest[k])) < before.len());
                    }
                } else if at < before.len() {
                    if i != at {
                        assert(T::key_of(before[i]) == T::key_of(before[at]));
                        if i < at {
                            assert(T::key_of(before[i]) != T::key_of(before[at]));
                        } else {
                            assert(T::key_of(before[at]) != T::key_of(before[i]));
                        }
                    } else {
                        text::lemma_precedes_total(T::time_of(item), T::time_of(before[at]));
                    }
                }
            }
        }
        assert forall|k: int| 0 <= k < items.len() implies spot::<T>(
            list,
            T::key_of(#[trigger] items[k]),
        ) < list.len() by {
            let wanted = T::key_of(items[k]);
            lemma_spot::<T>(list, wanted);
            if spot::<T>(list, wanted) >= list.len() {
                if k < rest.len() {
                    assert(items[k] == rest[k]);
                    lemma_spot::<T>(before, wanted);
                    let m = spot::<T>(before, wanted) as int;
                    assert(T::key_of(list[m]) == wanted);
                } else if at < before.len() {
                    assert(T::key_of(list[at]) == wanted);
                } else {
                    assert(T::key_of(list[before.len() as int]) == wanted);
                }
            }
        }
    } else {
        assert(placed_all::<T>(Seq::empty(), items) =~= Seq::empty());
    }
}

proof fn lemma_no_older<T: Record>(rest: Seq<T::V>, chosen: T::V, item: T::V, k: int)
    requires
        stands_for::<T>(rest, chosen),
        0 <= k < rest.len(),
    ensures
        !text::precedes(T::time_of(item), T::time_of(chosen)) && T::key_of(rest[k]) == T::key_of(
            chosen,
        ) ==> !text::precedes(T::time_of(item), T::time_of(rest[k])),
{
    let a = T::time_of(item);
    let b = T::time_of(chosen);
    let c = T::time_of(rest[k]);
    text::lemma_precedes_total(a, b);
    if !text::precedes(a, b) && T::key_of(rest[k]) == T::key_of(chosen) && text::precedes(a, c) {
        assert(!text::precedes(b, c));
        if a != b {
            text::lemma_precedes_transitive(b, a, c);
        }
    }
}

proof fn lemma_placed_concat<T: Record>(list: Seq<T::V>, left: Seq<T::V>, right: Seq<T::V>)
    ensures
        placed_all::<T>(placed_all::<T>(list, left), right) == placed_all::<T>(list, left + right),
    decreases right.len(),
{
    if right.len() == 0 {
        assert(left + right =~= left);
    } else {
        assert((left + right).drop_last() =~= left + right.drop_last());
        assert((left + right).last() == right.last());
        lemma_placed_concat::<T>(list, left, right.drop_last());
    }
}

/// The newest record wins: every key of either side has exactly one record in the merged list, it
/// is a record of one of the sides, and neither side has a newer one.
pub proof fn merging_keeps_the_newest_of_every_key<T: Record>(left: Seq<T::V>, right: Seq<T::V>)
    ensures
        keys_differ::<T>(latest::<T>(left, right)),
        forall|i: int|
            0 <= i < latest::<T>(left, right).len() ==> stands_for::<T>(
                left + right,
                #[trigger] latest::<T>(left, right)[i],
            ),
        forall|k: int|
            0 <= k < (left + right).len() ==> spot::<T>(
                latest::<T>(left, right),
                T::key_of(#[trigger] (left + right)[k]),
            ) < latest::<T>(left, right).len(),
{
    lemma_placed_concat::<T>(Seq::empty(), left, right);
    lemma_placed_all::<T>(left + right);
}

/// Records of one key that are equally new are the same.
pub open spec fn ties_agree<T: Record>(list: Seq<T::V>) -> bool {
    forall|i: int, j: int|
        0 <= i < list.len() && 0 <= j < list.len() && T::key_of(#[trigger] list[i]) == T::key_of(
            #[trigger] list[j],
        ) && T::time_of(list[i]) == T::time_of(list[j]) ==> list[i] == list[j]
}

proof fn lemma_one_side_kept<T: Record>(left: Seq<T::V>, right: Seq<T::V>, i: int)
    requires
        ties_agree::<T>(left + right),
        0 <= i < latest::<T>(left, right).len(),
    ensures
        latest::<T>(right, left).contains(latest::<T>(left, right)[i]),
{
    let all = left + right;
    let turned = right + left;
    let item = latest::<T>(left, right)[i];
    let other = latest::<T>(right, left);
    merging_keeps_the_newest_of_every_key::<T>(left, right);
    merging_keeps_the_newest_of_every_key::<T>(right, left);
    assert(stands_for::<T>(all, item));
    let k = choose|k: int| 0 <= k < all.len() && all[k] == item;
    let m = if k < left.len() {
        right.len() + k
    } else {
        k - left.len()
    };
    assert(turned[m] == item);
    let at = spot::<T>(other, T::key_of(turned[m])) as int;
    assert(at < other.len());
    lemma_spot::<T>(other, T::key_of(item));
    let rival = other[at];
    assert(stands_for::<T>(turned, rival));
    let p = choose|p: int| 0 <= p < turned.len() && turned[p] == rival;
    let q = if p < right.len() {
        left.len() + p
    } else {
        p - right.len()
    };
    assert(all[q] == rival);
    text::lemma_precedes_total(T::time_of(item), T::time_of(rival));
    assert(!text::precedes(T::time_of(item), T::time_of(all[q])));
    assert(!text::precedes(T::time_of(rival), T::time_of(turned[m])));
    assert(all[k] == all[q]);
}

/// Devices agree in whichever order they merge: where equally new records of one key are the same,
/// both orders keep the same records.
pub proof fn the_order_of_merging_does_not_matter<T: Record>(left: Seq<T::V>, right: Seq<T::V>)
    requires
        ties_agree::<T>(left + right),
    ensures
        forall|item: T::V| #[trigger]
            latest::<T>(left, right).contains(item) <==> latest::<T>(right, left).contains(item),
{
    let turned = right + left;
    assert(ties_agree::<T>(turned)) by {
        let all = left + right;
        assert forall|i: int, j: int|
            0 <= i < turned.len() && 0 <= j < turned.len() && T::key_of(#[trigger] turned[i])
                == T::key_of(#[trigger] turned[j]) && T::time_of(turned[i]) == T::time_of(
                turned[j],
            ) implies turned[i] == turned[j] by {
            let a = if i < right.len() {
                left.len() + i
            } else {
                i - right.len()
            };
            let b = if j < right.len() {
                left.len() + j
            } else {
                j - right.len()
            };
            assert(all[a] == turned[i] && all[b] == turned[j]);
        }
    }
    assert forall|item: T::V| #[trigger]
        latest::<T>(left, right).contains(item) <==> latest::<T>(right, left).contains(item) by {
        if latest::<T>(left, right).contains(item) {
            let i = choose|i: int|
                0 <= i < latest::<T>(left, right).len() && latest::<T>(left, right)[i] == item;
            lemma_one_side_kept::<T>(left, right, i);
        }
        if latest::<T>(right, left).contains(item) {
            let i = choose|i: int|
                0 <= i < latest::<T>(right, left).len() && latest::<T>(right, left)[i] == item;
            lemma_one_side_kept::<T>(right, left, i);
        }
    }
}

/// A category as devices exchange it.
#[derive(Debug, PartialEq, Eq)]
pub struct SyncCategory {
    pub name: String,
    pub color: String,
    pub is_builtin: bool,
    pub created_at: String,
    pub updated_at: String,
}

/// What a `SyncCategory` holds.
#[verifier::ext_equal]
pub struct SyncCategoryView {
    pub name: Seq<char>,
    pub color: Seq<char>,
    pub is_builtin: bool,
    pub created_at: Seq<char>,
    pub updated_at: Seq<char>,
}

impl View for SyncCategory {
    type V = SyncCategoryView;

    open spec fn view(&self) -> SyncCategoryView {
        SyncCategoryView {
            name: self.name@,
            color: self.color@,
            is_builtin: self.is_builtin,
            created_at: self.created_at@,
            updated_at: self.updated_at@,
        }
    }
}

impl Record for SyncCategory {
    open spec fn key_of(view: Self::V) -> Seq<char> {
        view.name
    }

    open spec fn time_of(view: Self::V) -> Seq<char> {
        view.updated_at
    }

    fn record_key(&self) -> (result: String) {
        self.name.clone()
    }

    fn record_time(&self) -> (result: &str) {
        self.updated_at.as_str()
    }
}

/// A session with the time of its last change.
#[derive(Debug, PartialEq, Eq)]
pub struct SyncSession {
    pub session: WorkSession,
    pub updated_at: String,
}

/// What a `SyncSession` holds.
#[verifier::ext_equal]
pub struct SyncSessionView {
    pub session: SessionView,
    pub updated_at: Seq<char>,
}

impl View for SyncSession {
    type V = SyncSessionView;

    open spec fn view(&self) -> SyncSessionView {
        SyncSessionView {
            session: self.session@,
            updated_at: self.updated_at@,
        }
    }
}

impl Record for SyncSession {
    open spec fn key_of(view: Self::V) -> Seq<char> {
        view.session.id
    }

    open spec fn time_of(view: Self::V) -> Seq<char> {
        view.updated_at
    }

    fn record_key(&self) -> (result: String) {
        self.session.id.clone()
    }

    fn record_time(&self) -> (result: &str) {
        self.updated_at.as_str()
    }
}

/// A rule with the time of its last change.
#[derive(Debug, PartialEq, Eq)]
pub struct SyncRule {
    pub rule: AttributionRule,
    pub updated_at: String,
}

/// What a `SyncRule` holds.
#[verifier::ext_equal]
pub struct SyncRuleView {
    pub rule: RuleView,
    pub updated_at: Seq<char>,
}

impl View for SyncRule {
    type V = SyncRuleView;

    open spec fn view(&self) -> SyncRuleView {
        SyncRuleView {
            rule: self.rule@,
            updated_at: self.updated_at@,
        }
    }
}

impl Record for SyncRule {
    open spec fn key_of(view: Self::V) -> Seq<char> {
        view.rule.id
    }

    open spec fn time_of(view: Self::V) -> Seq<char> {
        view.updated_at
    }

    fn record_key(&self) -> (result: String) {
        self.rule.id.clone()
    }

    fn record_time(&self) -> (result: &str) {
        self.updated_at.as_str()
    }
}

/// A note that a record was deleted.
#[derive(Debug, PartialEq, Eq)]
pub struct SyncTombstone {
    pub entity_kind: String,
    pub entity_id: String,
    pub deleted_at: String,
    pub device_id: String,
}

/// What a `SyncTombstone` holds.
#[verifier::ext_equal]
pub struct TombstoneView {
    pub entity_kind: Seq<char>,
    pub entity_id: Seq<char>,
    pub deleted_at: Seq<char>,
    pub device_id: Seq<char>,
}

impl View for SyncTombstone {
    type V = TombstoneView;

    open spec fn view(&self) -> TombstoneView {
        TombstoneView {
            entity_kind: self.entity_kind@,
            entity_id: self.entity_id@,
            deleted_at: self.deleted_at@,
            device_id: self.device_id@,
        }
    }
}

/// The record that a tombstone is about, as merging tells it.
pub open spec fn entity_key(kind: Seq<char>, id: Seq<char>) -> Seq<char> {
    kind + ":"@ + id
}

fn entity_key_of(kind: &str, id: &str) -> (result: String)
    ensures
        result@ == entity_key(kind@, id@),
{
    let head = text::joined(kind, ":");
    text::joined(head.as_str(), id)
}

impl Record for SyncTombstone {
    open spec fn key_of(view: Self::V) -> Seq<char> {
        entity_key(view.entity_kind, view.entity_id)
    }

    open spec fn time_of(view: Self::V) -> Seq<char> {
        view.deleted_at
    }

    fn record_key(&self) -> (result: String) {
        entity_key_of(self.entity_kind.as_str(), self.entity_id.as_str())
    }

    fn record_time(&self) -> (result: &str) {
        self.deleted_at.as_str()
    }
}

/// The key under which a tombstone is stored. Two of them are equal only where both the kinds and
/// the ids are: every character of the kind comes behind a sign of its own.
pub open spec fn row_key(kind: Seq<char>, id: Seq<char>) -> Seq<char>
    decreases kind.len(),
{
    if kind.len() == 0 {
        seq!['.'] + id
    } else {
        seq!['+', kind[0]] + row_key(kind.drop_first(), id)
    }
}

/// Tombstones are stored under one key only where they are about the same record.
pub proof fn stored_tombstones_are_told_apart(
    kind: Seq<char>,
    id: Seq<char>,
    other_kind: Seq<char>,
    other_id: Seq<char>,
)
    ensures
        row_key(kind, id) == row_key(other_kind, other_id) <==> kind == other_kind && id == other_id,
    decreases kind.len(),
{
    let left = row_key(kind, id);
    let right = row_key(other_kind, other_id);
    if left == right {
        if kind.len() == 0 || other_kind.len() == 0 {
            assert(left[0] == right[0]);
            assert(left.skip(1) =~= id);
            assert(right.skip(1) =~= other_id);
            assert(kind =~= other_kind);
        } else {
            assert(left[1] == right[1]);
            assert(left.skip(2) =~= row_key(kind.drop_first(), id));
            assert(right.skip(2) =~= row_key(other_kind.drop_first(), other_id));
            stored_tombstones_are_told_apart(
                kind.drop_first(),
                id,
                other_kind.drop_first(),
                other_id,
            );
            assert(kind =~= seq![kind[0]] + kind.drop_first());
            assert(other_kind =~= seq![other_kind[0]] + other_kind.drop_first());
        }
    }
}

fn row_key_of(kind: &str, id: &str) -> (result: String)
    ensures
        result@ == row_key(kind@, id@),
{
    let chars = text::chars_of(kind);
    let mut result: String = String::new();
    let mut i: usize = 0;
    assert(kind@.skip(0) =~= kind@);
    assert(result@ + row_key(kind@, id@) =~= row_key(kind@, id@));
    while i < chars.len()
        invariant
            i <= chars.len(),
            chars@ == kind@,
            result@ + row_key(kind@.skip(i as int), id@) == row_key(kind@, id@),
        decreases chars.len() - i,
    {
        let ghost before = result@;
        let ghost rest = kind@.skip(i as int);
        assert(rest.drop_first() =~= kind@.skip(i + 1));
        result.push('+');
        result.push(chars[i]);
        assert(before + row_key(rest, id@) =~= result@ + row_key(kind@.skip(i + 1), id@));
        i += 1;
    }
    assert(kind@.skip(i as int).len() == 0);
    let ghost before = result@;
    result.push('.');
    let whole = text::joined(result.as_str(), id);
    assert(whole@ =~= before + (seq!['.'] + id@));
    whole
}

/// A tombstone as it is stored: one for every kind and id.
pub struct TombstoneRow {
    pub note: SyncTombstone,
}

impl View for TombstoneRow {
    type V = TombstoneView;

    open spec fn view(&self) -> TombstoneView {
        self.note@
    }
}

impl Record for TombstoneRow {
    open spec fn key_of(view: Self::V) -> Seq<char> {
        row_key(view.entity_kind, view.entity_id)
    }

    open spec fn time_of(view: Self::V) -> Seq<char> {
        view.deleted_at
    }

    fn record_key(&self) -> (result: String) {
        row_key_of(self.note.entity_kind.as_str(), self.note.entity_id.as_str())
    }

    fn record_time(&self) -> (result: &str) {
        self.note.deleted_at.as_str()
    }
}

/// Finds the stored tombstone of a record, or the end of the list.
pub(crate) fn find_tombstone(list: &Vec<SyncTombstone>, kind: &str, id: &str) -> (result: usize)
    ensures
        result == spot::<TombstoneRow>(record_views(list@), row_key(kind@, id@)),
        result <= list.len(),
{
    let ghost views = record_views(list@);
    let ghost key = row_key(kind@, id@);
    let mut i: usize = 0;
    assert(views.skip(0) =~= views);
    while i < list.len()
        invariant
            i <= list.len(),
            views == record_views(list@),
            key == row_key(kind@, id@),
            spot::<TombstoneRow>(views, key) == i + spot::<TombstoneRow>(views.skip(i as int), key),
        decreases list.len() - i,
    {
        let ghost rest = views.skip(i as int);
        assert(rest[0] == list@[i as int]@);
        assert(rest.drop_first() =~= views.skip(i + 1));
        proof {
            stored_tombstones_are_told_apart(rest[0].entity_kind, rest[0].entity_id, kind@, id@);
        }
        if text::same(list[i].entity_kind.as_str(), kind) && text::same(
            list[i].entity_id.as_str(),
            id,
        ) {
            return i;
        }
        i += 1;
    }
    i
}

impl Record for Project {
    open spec fn key_of(view: Self::V) -> Seq<char> {
        view.id
    }

    open spec fn time_of(view: Self::V) -> Seq<char> {
        view.updated_at
    }

    fn record_key(&self) -> (result: String) {
        self.id.clone()
    }

    fn record_time(&self) -> (result: &str) {
        self.updated_at.as_str()
    }
}

impl Record for Task {
    open spec fn key_of(view: Self::V) -> Seq<char> {
        view.id
    }

    open spec fn time_of(view: Self::V) -> Seq<char> {
        view.updated_at
    }

    fn record_key(&self) -> (result: String) {
        self.id.clone()
    }

    fn record_time(&self) -> (result: &str) {
        self.updated_at.as_str()
    }
}

impl Record for SyncDeviceInfo {
    open spec fn key_of(view: Self::V) -> Seq<char> {
        view.id
    }

    open spec fn time_of(view: Self::V) -> Seq<char> {
        view.last_seen_at
    }

    fn record_key(&self) -> (result: String) {
        self.id.clone()
    }

    fn record_time(&self) -> (result: &str) {
        self.last_seen_at.as_str()
    }
}

/// Everything that devices exchange.
#[derive(Debug, PartialEq, Eq)]
pub struct SyncSnapshot {
    pub schema_version: u32,
    pub generated_at: String,
    pub generated_by: String,
    pub categories: Vec<SyncCategory>,
    pub projects: Vec<Project>,
    pub tasks: Vec<Task>,
    pub sessions: Vec<SyncSession>,
    pub rules: Vec<SyncRule>,
    pub tombstones: Vec<SyncTombstone>,
    pub devices: Vec<SyncDeviceInfo>,
    pub sleep_debt_started_on: Option<String>,
}

/// What a `SyncSnapshot` holds.
#[verifier::ext_equal]
pub struct SnapshotView {
    pub schema_version: u32,
    pub generated_at: Seq<char>,
    pub generated_by: Seq<char>,
    pub categories: Seq<SyncCategoryView>,
    pub projects: Seq<ProjectView>,
    pub tasks: Seq<TaskView>,
    pub sessions: Seq<SyncSessionView>,
    pub rules: Seq<SyncRuleView>,
    pub tombstones: Seq<TombstoneView>,
    pub devices: Seq<SyncDeviceView>,
    pub sleep_debt_started_on: Option<Seq<char>>,
}

impl View for SyncSnapshot {
    type V = SnapshotView;

    open spec fn view(&self) -> SnapshotView {
        SnapshotView {
            schema_version: self.schema_version,
            generated_at: self.generated_at@,
            generated_by: self.generated_by@,
            categories: record_views(self.categories@),
            projects: record_views(self.projects@),
            tasks: record_views(self.tasks@),
            sessions: record_views(self.sessions@),
            rules: record_views(self.rules@),
            tombstones: record_views(self.tombstones@),
            devices: record_views(self.devices@),
            sleep_debt_started_on: text::optional(self.sleep_debt_started_on),
        }
    }
}

/// Why two snapshots cannot be merged.
#[derive(Clone, Copy, Debug, PartialEq, Eq, Structural)]
pub enum SnapshotError {
    Incompatible,
    NoCategory,
}

/// A tombstone that is no older than the record buries it.
pub open spec fn buried(
    tombstones: Seq<TombstoneView>,
    kind: Seq<char>,
    id: Seq<char>,
    updated_at: Seq<char>,
) -> bool {
    let at = spot::<SyncTombstone>(tombstones, entity_key(kind, id)) as int;
    at < tombstones.len() && !text::precedes(tombstones[at].deleted_at, updated_at)
}

/// The map tells of every tombstone when its record was deleted.
pub open spec fn tells_deletions(
    deletions: Map<Seq<char>, String>,
    tombstones: Seq<TombstoneView>,
) -> bool {
    &&& forall|i: int|
        0 <= i < tombstones.len() ==> deletions.contains_key(
            SyncTombstone::key_of(#[trigger] tombstones[i]),
        ) && deletions[SyncTombstone::key_of(tombstones[i])]@ == tombstones[i].deleted_at
    &&& forall|key: Seq<char>| #[trigger]
        deletions.contains_key(key) ==> spot::<SyncTombstone>(tombstones, key) < tombstones.len()
}

/// Whether the record was deleted after its last change.
pub fn is_deleted(
    deletions: &StringHashMap<String>,
    kind: &str,
    id: &str,
    updated_at: &str,
) -> (result: bool)
    ensures
        result == (deletions@.contains_key(entity_key(kind@, id@)) && !text::precedes(
            deletions@[entity_key(kind@, id@)]@,
            updated_at@,
        )),
{
    let key = entity_key_of(kind, id);
    match deletions.get(key.as_str()) {
        Some(deleted_at) => !text::less(deleted_at.as_str(), updated_at),
        None => false,
    }
}

proof fn lemma_buried(
    deletions: Map<Seq<char>, String>,
    tombstones: Seq<TombstoneView>,
    kind: Seq<char>,
    id: Seq<char>,
    updated_at: Seq<char>,
)
    requires
        tells_deletions(deletions, tombstones),
    ensures
        buried(tombstones, kind, id, updated_at) == (deletions.contains_key(entity_key(kind, id))
            && !text::precedes(deletions[entity_key(kind, id)]@, updated_at)),
{
    let key = entity_key(kind, id);
    lemma_spot::<SyncTombstone>(tombstones, key);
    let at = spot::<SyncTombstone>(tombstones, key) as int;
    if at < tombstones.len() {
        assert(SyncTombstone::key_of(tombstones[at]) == key);
    }
}

fn collect_deletions(tombstones: &Vec<SyncTombstone>) -> (result: StringHashMap<String>)
    requires
        keys_differ::<SyncTombstone>(record_views(tombstones@)),
    ensures
        tells_deletions(result@, record_views(tombstones@)),
{
    let ghost views = record_views(tombstones@);
    let mut result: StringHashMap<String> = StringHashMap::new();
    let mut i: usize = 0;
    while i < tombstones.len()
        invariant
            i <= tombstones.len(),
            views == record_views(tombstones@),
            keys_differ::<SyncTombstone>(views),
            forall|k: int|
                0 <= k < i ==> result@.contains_key(SyncTombstone::key_of(#[trigger] views[k]))
                    && result@[SyncTombstone::key_of(views[k])]@ == views[k].deleted_at,
            forall|key: Seq<char>| #[trigger]
                result@.contains_key(key) ==> spot::<SyncTombstone>(views, key) < i,
        decreases tombstones.len() - i,
    {
        let item = &tombstones[i];
        let key = item.record_key();
        assert(views[i as int] == item@);
        proof {
            lemma_spot::<SyncTombstone>(views, key@);
            let at = spot::<SyncTombstone>(views, key@) as int;
            if at > i {
                assert(SyncTombstone::key_of(views[i as int]) != key@);
            }
            assert forall|k: int| 0 <= k < i implies SyncTombstone::key_of(#[trigger] views[k])
                != key@ by {
                assert(SyncTombstone::key_of(views[k]) != SyncTombstone::key_of(views[i as int]));
            }
        }
        result.insert(key, item.deleted_at.clone());
        i += 1;
    }
    result
}

/// The keys of the records.
pub open spec fn keys<T: Record>(list: Seq<T::V>) -> Seq<Seq<char>> {
    list.map_values(|item: T::V| T::key_of(item))
}

pub(crate) fn collect_keys<T: Record>(list: &Vec<T>) -> (result: StringHashSet)
    ensures
        forall|key: Seq<char>| #[trigger]
            result@.contains(key) == keys::<T>(record_views(list@)).contains(key),
{
    let ghost names = keys::<T>(record_views(list@));
    let mut result: StringHashSet = StringHashSet::new();
    let mut i: usize = 0;
    while i < list.len()
        invariant
            i <= list.len(),
            names == keys::<T>(record_views(list@)),
            forall|key: Seq<char>| #[trigger]
                result@.contains(key) == names.take(i as int).contains(key),
        decreases list.len() - i,
    {
        let key = list[i].record_key();
        assert(names[i as int] == key@);
        let ghost before = result@;
        let ghost added = key@;
        result.insert(key);
        assert forall|other: Seq<char>| #[trigger]
            result@.contains(other) == names.take(i + 1).contains(other) by {
            assert(names.take(i + 1) =~= names.take(i as int).push(added));
            assert(before.contains(other) == names.take(i as int).contains(other));
            if names.take(i as int).contains(other) {
                let m = choose|m: int|
                    0 <= m < names.take(i as int).len() && names.take(i as int)[m] == other;
                assert(names.take(i + 1)[m] == other);
            }
            if other == added {
                assert(names.take(i + 1)[i as int] == other);
            }
        }
        i += 1;
    }
    assert(names.take(list.len() as int) =~= names);
    result
}

/// The least text of the list.
pub open spec fn least(list: Seq<Seq<char>>) -> Seq<char>
    decreases list.len(),
{
    if list.len() <= 1 {
        list[0]
    } else if text::precedes(list.last(), least(list.drop_last())) {
        list.last()
    } else {
        least(list.drop_last())
    }
}

/// Where records go whose category is gone.
pub open spec fn fallback(categories: Seq<SyncCategoryView>) -> Seq<char> {
    let names = keys::<SyncCategory>(categories);
    if names.contains("杂务"@) {
        "杂务"@
    } else {
        least(names)
    }
}

fn choose_fallback(categories: &Vec<SyncCategory>, names: &StringHashSet) -> (result: String)
    requires
        categories.len() > 0,
        forall|key: Seq<char>| #[trigger]
            names@.contains(key) == keys::<SyncCategory>(record_views(categories@)).contains(key),
    ensures
        result@ == fallback(record_views(categories@)),
{
    if names.contains("杂务") {
        return "杂务".to_owned();
    }
    let ghost all = keys::<SyncCategory>(record_views(categories@));
    let mut best: usize = 0;
    let mut i: usize = 1;
    assert(all.take(1)[0] == all[0]);
    while i < categories.len()
        invariant
            1 <= i <= categories.len(),
            best < i,
            all == keys::<SyncCategory>(record_views(categories@)),
            all[best as int] == least(all.take(i as int)),
        decreases categories.len() - i,
    {
        assert(all.take(i + 1).drop_last() =~= all.take(i as int));
        assert(all.take(i + 1).last() == categories@[i as int].name@);
        assert(all[best as int] == categories@[best as int].name@);
        if text::less(categories[i].name.as_str(), categories[best].name.as_str()) {
            best = i;
        }
        i += 1;
    }
    assert(all.take(categories.len() as int) =~= all);
    assert(all[best as int] == categories@[best as int].name@);
    categories[best].name.clone()
}

/// The earlier of two dates, by their texts.
pub open spec fn earlier_start(left: Option<Seq<char>>, right: Option<Seq<char>>) -> Option<
    Seq<char>,
> {
    match (left, right) {
        (Some(a), Some(b)) => if text::precedes(b, a) {
            Some(b)
        } else {
            Some(a)
        },
        (Some(a), None) => Some(a),
        (None, other) => other,
    }
}

fn choose_start(left: Option<String>, right: Option<String>) -> (result: Option<String>)
    ensures
        text::optional(result) == earlier_start(text::optional(left), text::optional(right)),
{
    match (left, right) {
        (Some(a), Some(b)) => if text::less(b.as_str(), a.as_str()) {
            Some(b)
        } else {
            Some(a)
        },
        (Some(a), None) => Some(a),
        (None, other) => other,
    }
}

/// The category, or the fallback where it is gone.
pub open spec fn standing_category(
    categories: Seq<SyncCategoryView>,
    category: Seq<char>,
) -> Seq<char> {
    if keys::<SyncCategory>(categories).contains(category) {
        category
    } else {
        fallback(categories)
    }
}

/// The reference, where its target is there.
pub open spec fn standing_reference(ids: Seq<Seq<char>>, id: Option<Seq<char>>) -> Option<
    Seq<char>,
> {
    match id {
        Some(found) => if ids.contains(found) {
            id
        } else {
            None
        },
        None => None,
    }
}

/// A name goes with its reference.
pub open spec fn standing_name(
    ids: Seq<Seq<char>>,
    id: Option<Seq<char>>,
    name: Option<Seq<char>>,
) -> Option<Seq<char>> {
    match id {
        Some(found) => if ids.contains(found) {
            name
        } else {
            None
        },
        None => name,
    }
}

pub open spec fn merged_tombstones(left: SnapshotView, right: SnapshotView) -> Seq<TombstoneView> {
    latest::<SyncTombstone>(left.tombstones, right.tombstones)
}

pub open spec fn merged_categories(left: SnapshotView, right: SnapshotView) -> Seq<
    SyncCategoryView,
> {
    latest::<SyncCategory>(left.categories, right.categories).filter(
        |item: SyncCategoryView|
            !buried(merged_tombstones(left, right), "category"@, item.name, item.updated_at),
    )
}

pub open spec fn merged_projects(left: SnapshotView, right: SnapshotView) -> Seq<ProjectView> {
    latest::<Project>(left.projects, right.projects).filter(
        |item: ProjectView|
            !buried(merged_tombstones(left, right), "project"@, item.id, item.updated_at),
    ).map_values(
        |item: ProjectView|
            ProjectView {
                category: standing_category(merged_categories(left, right), item.category),
                ..item
            },
    )
}

pub open spec fn merged_tasks(left: SnapshotView, right: SnapshotView) -> Seq<TaskView> {
    latest::<Task>(left.tasks, right.tasks).filter(
        |item: TaskView|
            keys::<Project>(merged_projects(left, right)).contains(item.project_id) && !buried(
                merged_tombstones(left, right),
                "task"@,
                item.id,
                item.updated_at,
            ),
    )
}

/// The session with its references as far as they lead somewhere.
pub open spec fn resolved_session(
    categories: Seq<SyncCategoryView>,
    projects: Seq<Seq<char>>,
    tasks: Seq<Seq<char>>,
    item: SyncSessionView,
) -> SyncSessionView {
    SyncSessionView {
        session: SessionView {
            project_id: standing_reference(projects, item.session.project_id),
            project_name: standing_name(
                projects,
                item.session.project_id,
                item.session.project_name,
            ),
            task_id: standing_reference(tasks, item.session.task_id),
            task_title: standing_name(tasks, item.session.task_id, item.session.task_title),
            category: standing_category(categories, item.session.category),
            ..item.session
        },
        ..item
    }
}

pub open spec fn merged_sessions(left: SnapshotView, right: SnapshotView) -> Seq<SyncSessionView> {
    latest::<SyncSession>(left.sessions, right.sessions).filter(
        |item: SyncSessionView|
            !buried(
                merged_tombstones(left, right),
                "session"@,
                item.session.id,
                item.updated_at,
            ),
    ).map_values(
        |item: SyncSessionView|
            resolved_session(
                merged_categories(left, right),
                keys::<Project>(merged_projects(left, right)),
                keys::<Task>(merged_tasks(left, right)),
                item,
            ),
    )
}

/// The rule with its references as far as they lead somewhere.
pub open spec fn resolved_rule(
    categories: Seq<SyncCategoryView>,
    projects: Seq<Seq<char>>,
    tasks: Seq<Seq<char>>,
    item: SyncRuleView,
) -> SyncRuleView {
    SyncRuleView {
        rule: RuleView {
            project_id: standing_reference(projects, item.rule.project_id),
            task_id: standing_reference(tasks, item.rule.task_id),
            category: standing_category(categories, item.rule.category),
            ..item.rule
        },
        ..item
    }
}

pub open spec fn merged_rules(left: SnapshotView, right: SnapshotView) -> Seq<SyncRuleView> {
    latest::<SyncRule>(left.rules, right.rules).filter(
        |item: SyncRuleView|
            !buried(merged_tombstones(left, right), "rule"@, item.rule.id, item.updated_at),
    ).map_values(
        |item: SyncRuleView|
            resolved_rule(
                merged_categories(left, right),
                keys::<Project>(merged_projects(left, right)),
                keys::<Task>(merged_tasks(left, right)),
                item,
            ),
    )
}

/// What merging two snapshots comes to.
pub open spec fn merged(
    left: SnapshotView,
    right: SnapshotView,
    generated_at: Seq<char>,
) -> Result<SnapshotView, SnapshotError> {
    if left.schema_version != SNAPSHOT_SCHEMA || right.schema_version != SNAPSHOT_SCHEMA {
        Err(SnapshotError::Incompatible)
    } else if merged_categories(left, right).len() == 0 {
        Err(SnapshotError::NoCategory)
    } else {
        Ok(
            SnapshotView {
                schema_version: SNAPSHOT_SCHEMA,
                generated_at,
                generated_by: left.generated_by,
                categories: merged_categories(left, right),
                projects: merged_projects(left, right),
                tasks: merged_tasks(left, right),
                sessions: merged_sessions(left, right),
                rules: merged_rules(left, right),
                tombstones: merged_tombstones(left, right),
                devices: latest::<SyncDeviceInfo>(left.devices, right.devices),
                sleep_debt_started_on: earlier_start(
                    left.sleep_debt_started_on,
                    right.sleep_debt_started_on,
                ),
            },
        )
    }
}

/// The reference leads somewhere, or there is none.
fn is_standing(ids: &StringHashSet, id: &Option<String>) -> (result: bool)
    ensures
        result == match *id {
            Some(found) => ids@.contains(found@),
            None => true,
        },
{
    match id {
        Some(found) => ids.contains(found.as_str()),
        None => true,
    }
}

fn keep_categories(
    list: Vec<SyncCategory>,
    tombstones: &Vec<SyncTombstone>,
    deletions: &StringHashMap<String>,
) -> (result: Vec<SyncCategory>)
    requires
        tells_deletions(deletions@, record_views(tombstones@)),
    ensures
        record_views(result@) == record_views(list@).filter(
            |item: SyncCategoryView|
                !buried(record_views(tombstones@), "category"@, item.name, item.updated_at),
        ),
{
    let ghost views = record_views(list@);
    let ghost dead = record_views(tombstones@);
    let ghost keep = |item: SyncCategoryView|
        !buried(dead, "category"@, item.name, item.updated_at);
    let mut result: Vec<SyncCategory> = Vec::new();
    assert(views.take(0).filter(keep) =~= Seq::empty()) by {
        reveal(Seq::filter);
    }
    assert(record_views(result@) =~= views.take(0).filter(keep));
    for item in it: list
        invariant
            views == record_views(it.seq()),
            dead == record_views(tombstones@),
            tells_deletions(deletions@, dead),
            keep == (|item: SyncCategoryView|
                !buried(dead, "category"@, item.name, item.updated_at)),
            record_views(result@) == views.take(it.index()).filter(keep),
    {
        let ghost i = it.index();
        let ghost view = item@;
        let ghost done = views.take(i).filter(keep);
        assert(views[i] == view);
        assert(views.take(i + 1) =~= views.take(i).push(view));
        proof {
            views.take(i).lemma_filter_push(view, keep);
            lemma_buried(deletions@, dead, "category"@, view.name, view.updated_at);
        }
        if !is_deleted(deletions, "category", item.name.as_str(), item.updated_at.as_str()) {
            let ghost before = record_views(result@);
            result.push(item);
            assert(record_views(result@) =~= before.push(view));
        }
    }
    assert(views.take(views.len() as int) =~= views);
    result
}

fn keep_projects(
    list: Vec<Project>,
    tombstones: &Vec<SyncTombstone>,
    deletions: &StringHashMap<String>,
    categories: &Vec<SyncCategory>,
    names: &StringHashSet,
    standby: &str,
) -> (result: Vec<Project>)
    requires
        tells_deletions(deletions@, record_views(tombstones@)),
        forall|key: Seq<char>| #[trigger]
            names@.contains(key) == keys::<SyncCategory>(record_views(categories@)).contains(key),
        standby@ == fallback(record_views(categories@)),
    ensures
        record_views(result@) == record_views(list@).filter(
            |item: ProjectView|
                !buried(record_views(tombstones@), "project"@, item.id, item.updated_at),
        ).map_values(
            |item: ProjectView| ProjectView {
                category: standing_category(record_views(categories@), item.category),
                ..item
            },
        ),
{
    let ghost views = record_views(list@);
    let ghost dead = record_views(tombstones@);
    let ghost keep = |item: ProjectView|
        !buried(dead, "project"@, item.id, item.updated_at);
    let ghost change = |item: ProjectView| ProjectView {
                category: standing_category(record_views(categories@), item.category),
                ..item
            };
    let mut result: Vec<Project> = Vec::new();
    assert(views.take(0).filter(keep) =~= Seq::empty()) by {
        reveal(Seq::filter);
    }
    assert(record_views(result@) =~= views.take(0).filter(keep).map_values(change));
    for item in it: list
        invariant
            views == record_views(it.seq()),
            dead == record_views(tombstones@),
            tells_deletions(deletions@, dead),
            forall|key: Seq<char>| #[trigger]
                names@.contains(key) == keys::<SyncCategory>(record_views(categories@)).contains(key),
            standby@ == fallback(record_views(categories@)),
            keep == (|item: ProjectView|
                !buried(dead, "project"@, item.id, item.updated_at)),
            change == (|item: ProjectView| ProjectView {
                category: standing_category(record_views(categories@), item.category),
                ..item
            }),
            record_views(result@) == views.take(it.index()).filter(keep).map_values(change),
    {
        let ghost i = it.index();
        let ghost view = item@;
        let ghost done = views.take(i).filter(keep);
        assert(views[i] == view);
        assert(views.take(i + 1) =~= views.take(i).push(view));
        proof {
            views.take(i).lemma_filter_push(view, keep);
            lemma_buried(deletions@, dead, "project"@, view.id, view.updated_at);
        }
        if !is_deleted(deletions, "project", item.id.as_str(), item.updated_at.as_str()) {
            let ghost before = record_views(result@);
            let mut after = item;
            if !names.contains(after.category.as_str()) {
                after.category = standby.to_owned();
            }
            assert(after@ =~= change(view));
            result.push(after);
            assert(record_views(result@) =~= before.push(change(view)));
            assert(done.push(view).map_values(change) =~= done.map_values(change).push(change(view)));
        }
    }
    assert(views.take(views.len() as int) =~= views);
    result
}

fn keep_tasks(
    list: Vec<Task>,
    tombstones: &Vec<SyncTombstone>,
    deletions: &StringHashMap<String>,
    projects: &StringHashSet,
    project_ids: Ghost<Seq<Seq<char>>>,
) -> (result: Vec<Task>)
    requires
        tells_deletions(deletions@, record_views(tombstones@)),
        forall|key: Seq<char>| #[trigger]
            projects@.contains(key) == project_ids@.contains(key),
    ensures
        record_views(result@) == record_views(list@).filter(
            |item: TaskView|
                project_ids@.contains(item.project_id) && !buried(record_views(tombstones@), "task"@, item.id, item.updated_at),
        ),
{
    let ghost views = record_views(list@);
    let ghost dead = record_views(tombstones@);
    let ghost keep = |item: TaskView|
        project_ids@.contains(item.project_id) && !buried(dead, "task"@, item.id, item.updated_at);
    let mut result: Vec<Task> = Vec::new();
    assert(views.take(0).filter(keep) =~= Seq::empty()) by {
        reveal(Seq::filter);
    }
    assert(record_views(result@) =~= views.take(0).filter(keep));
    for item in it: list
        invariant
            views == record_views(it.seq()),
            dead == record_views(tombstones@),
            tells_deletions(deletions@, dead),
            forall|key: Seq<char>| #[trigger]
                projects@.contains(key) == project_ids@.contains(key),
            keep == (|item: TaskView|
                project_ids@.contains(item.project_id) && !buried(dead, "task"@, item.id, item.updated_at)),
            record_views(result@) == views.take(it.index()).filter(keep),
    {
        let ghost i = it.index();
        let ghost view = item@;
        let ghost done = views.take(i).filter(keep);
        assert(views[i] == view);
        assert(views.take(i + 1) =~= views.take(i).push(view));
        proof {
            views.take(i).lemma_filter_push(view, keep);
            lemma_buried(deletions@, dead, "task"@, view.id, view.updated_at);
        }
        if projects.contains(item.project_id.as_str()) && !is_deleted(deletions, "task", item.id.as_str(), item.updated_at.as_str()) {
            let ghost before = record_views(result@);
            result.push(item);
            assert(record_views(result@) =~= before.push(view));
        }
    }
    assert(views.take(views.len() as int) =~= views);
    result
}

fn keep_sessions(
    list: Vec<SyncSession>,
    tombstones: &Vec<SyncTombstone>,
    deletions: &StringHashMap<String>,
    categories: &Vec<SyncCategory>,
    names: &StringHashSet,
    standby: &str,
    projects: &StringHashSet,
    project_ids: Ghost<Seq<Seq<char>>>,
    tasks: &StringHashSet,
    task_ids: Ghost<Seq<Seq<char>>>,
) -> (result: Vec<SyncSession>)
    requires
        tells_deletions(deletions@, record_views(tombstones@)),
        forall|key: Seq<char>| #[trigger]
            names@.contains(key) == keys::<SyncCategory>(record_views(categories@)).contains(key),
        standby@ == fallback(record_views(categories@)),
        forall|key: Seq<char>| #[trigger]
            projects@.contains(key) == project_ids@.contains(key),
        forall|key: Seq<char>| #[trigger]
            tasks@.contains(key) == task_ids@.contains(key),
    ensures
        record_views(result@) == record_views(list@).filter(
            |item: SyncSessionView|
                !buried(record_views(tombstones@), "session"@, item.session.id, item.updated_at),
        ).map_values(
            |item: SyncSessionView| resolved_session(
                record_views(categories@),
                project_ids@,
                task_ids@,
                item,
            ),
        ),
{
    let ghost views = record_views(list@);
    let ghost dead = record_views(tombstones@);
    let ghost keep = |item: SyncSessionView|
        !buried(dead, "session"@, item.session.id, item.updated_at);
    let ghost change = |item: SyncSessionView| resolved_session(
                record_views(categories@),
                project_ids@,
                task_ids@,
                item,
            );
    let mut result: Vec<SyncSession> = Vec::new();
    assert(views.take(0).filter(keep) =~= Seq::empty()) by {
        reveal(Seq::filter);
    }
    assert(record_views(result@) =~= views.take(0).filter(keep).map_values(change));
    for item in it: list
        invariant
            views == record_views(it.seq()),
            dead == record_views(tombstones@),
            tells_deletions(deletions@, dead),
            forall|key: Seq<char>| #[trigger]
                names@.contains(key) == keys::<SyncCategory>(record_views(categories@)).contains(key),
            standby@ == fallback(record_views(categories@)),
            forall|key: Seq<char>| #[trigger]
                projects@.contains(key) == project_ids@.contains(key),
            forall|key: Seq<char>| #[trigger]
                tasks@.contains(key) == task_ids@.contains(key),
            keep == (|item: SyncSessionView|
                !buried(dead, "session"@, item.session.id, item.updated_at)),
            change == (|item: SyncSessionView| resolved_session(
                record_views(categories@),
                project_ids@,
                task_ids@,
                item,
            )),
            record_views(result@) == views.take(it.index()).filter(keep).map_values(change),
    {
        let ghost i = it.index();
        let ghost view = item@;
        let ghost done = views.take(i).filter(keep);
        assert(views[i] == view);
        assert(views.take(i + 1) =~= views.take(i).push(view));
        proof {
            views.take(i).lemma_filter_push(view, keep);
            lemma_buried(deletions@, dead, "session"@, view.session.id, view.updated_at);
        }
        if !is_deleted(deletions, "session", item.session.id.as_str(), item.updated_at.as_str()) {
            let ghost before = record_views(result@);
            let mut after = item;
            if !is_standing(projects, &after.session.project_id) {
                after.session.project_id = None;
                after.session.project_name = None;
            }
            if !is_standing(tasks, &after.session.task_id) {
                after.session.task_id = None;
                after.session.task_title = None;
            }
            if !names.contains(after.session.category.as_str()) {
                after.session.category = standby.to_owned();
            }
            assert(after@ =~= change(view));
            result.push(after);
            assert(record_views(result@) =~= before.push(change(view)));
            assert(done.push(view).map_values(change) =~= done.map_values(change).push(change(view)));
        }
    }
    assert(views.take(views.len() as int) =~= views);
    result
}

fn keep_rules(
    list: Vec<SyncRule>,
    tombstones: &Vec<SyncTombstone>,
    deletions: &StringHashMap<String>,
    categories: &Vec<SyncCategory>,
    names: &StringHashSet,
    standby: &str,
    projects: &StringHashSet,
    project_ids: Ghost<Seq<Seq<char>>>,
    tasks: &StringHashSet,
    task_ids: Ghost<Seq<Seq<char>>>,
) -> (result: Vec<SyncRule>)
    requires
        tells_deletions(deletions@, record_views(tombstones@)),
        forall|key: Seq<char>| #[trigger]
            names@.contains(key) == keys::<SyncCategory>(record_views(categories@)).contains(key),
        standby@ == fallback(record_views(categories@)),
        forall|key: Seq<char>| #[trigger]
            projects@.contains(key) == project_ids@.contains(key),
        forall|key: Seq<char>| #[trigger]
            tasks@.contains(key) == task_ids@.contains(key),
    ensures
        record_views(result@) == record_views(list@).filter(
            |item: SyncRuleView|
                !buried(record_views(tombstones@), "rule"@, item.rule.id, item.updated_at),
        ).map_values(
            |item: SyncRuleView| resolved_rule(
                record_views(categories@),
                project_ids@,
                task_ids@,
                item,
            ),
        ),
{
    let ghost views = record_views(list@);
    let ghost dead = record_views(tombstones@);
    let ghost keep = |item: SyncRuleView|
        !buried(dead, "rule"@, item.rule.id, item.updated_at);
    let ghost change = |item: SyncRuleView| resolved_rule(
                record_views(categories@),
                project_ids@,
                task_ids@,
                item,
            );
    let mut result: Vec<SyncRule> = Vec::new();
    assert(views.take(0).filter(keep) =~= Seq::empty()) by {
        reveal(Seq::filter);
    }
    assert(record_views(result@) =~= views.take(0).filter(keep).map_values(change));
    for item in it: list
        invariant
            views == record_views(it.seq()),
            dead == record_views(tombstones@),
            tells_deletions(deletions@, dead),
            forall|key: Seq<char>| #[trigger]
                names@.contains(key) == keys::<SyncCategory>(record_views(categories@)).contains(key),
            standby@ == fallback(record_views(categories@)),
            forall|key: Seq<char>| #[trigger]
                projects@.contains(key) == project_ids@.contains(key),
            forall|key: Seq<char>| #[trigger]
                tasks@.contains(key) == task_ids@.contains(key),
            keep == (|item: SyncRuleView|
                !buried(dead, "rule"@, item.rule.id, item.updated_at)),
            change == (|item: SyncRuleView| resolved_rule(
                record_views(categories@),
                project_ids@,
                task_ids@,
                item,
            )),
            record_views(result@) == views.take(it.index()).filter(keep).map_values(change),
    {
        let ghost i = it.index();
        let ghost view = item@;
        let ghost done = views.take(i).filter(keep);
        assert(views[i] == view);
        assert(views.take(i + 1) =~= views.take(i).push(view));
        proof {
            views.take(i).lemma_filter_push(view, keep);
            lemma_buried(deletions@, dead, "rule"@, view.rule.id, view.updated_at);
        }
        if !is_deleted(deletions, "rule", item.rule.id.as_str(), item.updated_at.as_str()) {
            let ghost before = record_views(result@);
            let mut after = item;
            if !is_standing(projects, &after.rule.project_id) {
                after.rule.project_id = None;
            }
            if !is_standing(tasks, &after.rule.task_id) {
                after.rule.task_id = None;
            }
            if !names.contains(after.rule.category.as_str()) {
                after.rule.category = standby.to_owned();
            }
            assert(after@ =~= change(view));
            result.push(after);
            assert(record_views(result@) =~= before.push(change(view)));
            assert(done.push(view).map_values(change) =~= done.map_values(change).push(change(view)));
        }
    }
    assert(views.take(views.len() as int) =~= views);
    result
}

/// Merges the records of two devices. The newest record of every key wins, unless it was deleted
/// since; what refers to records that are gone is let go.
pub fn merge_snapshots(
    left: SyncSnapshot,
    right: SyncSnapshot,
    generated_at: String,
) -> (result: Result<SyncSnapshot, SnapshotError>)
    ensures
        match result {
            Ok(snapshot) => merged(left@, right@, generated_at@) == Ok::<
                SnapshotView,
                SnapshotError,
            >(snapshot@),
            Err(error) => merged(left@, right@, generated_at@) == Err::<
                SnapshotView,
                SnapshotError,
            >(error),
        },
{
    if left.schema_version != SNAPSHOT_SCHEMA || right.schema_version != SNAPSHOT_SCHEMA {
        return Err(SnapshotError::Incompatible);
    }
    let ghost a = left@;
    let ghost b = right@;
    let sleep_debt_started_on = choose_start(
        left.sleep_debt_started_on,
        right.sleep_debt_started_on,
    );
    let tombstones = merge_latest(left.tombstones, right.tombstones);
    let deletions = collect_deletions(&tombstones);
    let categories = keep_categories(
        merge_latest(left.categories, right.categories),
        &tombstones,
        &deletions,
    );
    assert(record_views(categories@) == merged_categories(a, b));
    if categories.len() == 0 {
        return Err(SnapshotError::NoCategory);
    }
    let names = collect_keys(&categories);
    let standby = choose_fallback(&categories, &names);
    let projects = keep_projects(
        merge_latest(left.projects, right.projects),
        &tombstones,
        &deletions,
        &categories,
        &names,
        standby.as_str(),
    );
    assert(record_views(projects@) == merged_projects(a, b));
    let project_set = collect_keys(&projects);
    let ghost project_ids = keys::<Project>(record_views(projects@));
    let tasks = keep_tasks(
        merge_latest(left.tasks, right.tasks),
        &tombstones,
        &deletions,
        &project_set,
        Ghost(project_ids),
    );
    assert(record_views(tasks@) == merged_tasks(a, b));
    let task_set = collect_keys(&tasks);
    let ghost task_ids = keys::<Task>(record_views(tasks@));
    let sessions = keep_sessions(
        merge_latest(left.sessions, right.sessions),
        &tombstones,
        &deletions,
        &categories,
        &names,
        standby.as_str(),
        &project_set,
        Ghost(project_ids),
        &task_set,
        Ghost(task_ids),
    );
    assert(record_views(sessions@) == merged_sessions(a, b));
    let rules = keep_rules(
        merge_latest(left.rules, right.rules),
        &tombstones,
        &deletions,
        &categories,
        &names,
        standby.as_str(),
        &project_set,
        Ghost(project_ids),
        &task_set,
        Ghost(task_ids),
    );
    assert(record_views(rules@) == merged_rules(a, b));
    let devices = merge_latest(left.devices, right.devices);
    Ok(
        SyncSnapshot {
            schema_version: SNAPSHOT_SCHEMA,
            generated_at,
            generated_by: left.generated_by,
            categories,
            projects,
            tasks,
            sessions,
            rules,
            tombstones,
            devices,
            sleep_debt_started_on,
        },
    )
}

/// The category is one of the list.
pub open spec fn names_category(categories: Seq<SyncCategoryView>, category: Seq<char>) -> bool {
    keys::<SyncCategory>(categories).contains(category)
}

proof fn lemma_fallback(categories: Seq<SyncCategoryView>)
    requires
        categories.len() > 0,
    ensures
        names_category(categories, fallback(categories)),
{
    let names = keys::<SyncCategory>(categories);
    if !names.contains("杂务"@) {
        lemma_least(names);
    }
}

proof fn lemma_least(list: Seq<Seq<char>>)
    requires
        list.len() > 0,
    ensures
        list.contains(least(list)),
    decreases list.len(),
{
    if list.len() == 1 {
        assert(list[0] == least(list));
    } else {
        lemma_least(list.drop_last());
        let k = choose|k: int|
            0 <= k < list.drop_last().len() && list.drop_last()[k] == least(list.drop_last());
        assert(list[k] == least(list.drop_last()));
        assert(list[list.len() - 1] == list.last());
    }
}

/// Every reference of the snapshot leads to a record of the snapshot.
pub open spec fn references_resolve(snapshot: SnapshotView) -> bool {
    let projects = keys::<Project>(snapshot.projects);
    let tasks = keys::<Task>(snapshot.tasks);
    &&& forall|i: int|
        0 <= i < snapshot.projects.len() ==> names_category(
            snapshot.categories,
            (#[trigger] snapshot.projects[i]).category,
        )
    &&& forall|i: int|
        0 <= i < snapshot.tasks.len() ==> projects.contains(
            (#[trigger] snapshot.tasks[i]).project_id,
        )
    &&& forall|i: int|
        0 <= i < snapshot.sessions.len() ==> {
            let session = (#[trigger] snapshot.sessions[i]).session;
            &&& names_category(snapshot.categories, session.category)
            &&& session.project_id is Some ==> projects.contains(session.project_id.unwrap())
            &&& session.task_id is Some ==> tasks.contains(session.task_id.unwrap())
        }
    &&& forall|i: int|
        0 <= i < snapshot.rules.len() ==> {
            let rule = (#[trigger] snapshot.rules[i]).rule;
            &&& names_category(snapshot.categories, rule.category)
            &&& rule.project_id is Some ==> projects.contains(rule.project_id.unwrap())
            &&& rule.task_id is Some ==> tasks.contains(rule.task_id.unwrap())
        }
}

/// A merged snapshot is whole: every category, project and task that one of its records names is
/// there.
pub proof fn merged_references_resolve(
    left: SnapshotView,
    right: SnapshotView,
    generated_at: Seq<char>,
)
    requires
        merged(left, right, generated_at) is Ok,
    ensures
        references_resolve(merged(left, right, generated_at)->Ok_0),
{
    let snapshot = merged(left, right, generated_at)->Ok_0;
    lemma_fallback(snapshot.categories);
    let raw = latest::<Task>(left.tasks, right.tasks);
    let keep = |item: TaskView|
        keys::<Project>(merged_projects(left, right)).contains(item.project_id) && !buried(
            merged_tombstones(left, right),
            "task"@,
            item.id,
            item.updated_at,
        );
    assert forall|i: int| 0 <= i < snapshot.tasks.len() implies keys::<Project>(
        snapshot.projects,
    ).contains((#[trigger] snapshot.tasks[i]).project_id) by {
        raw.lemma_filter_pred(keep, i);
    }
}

/// No record of the snapshot is buried by one of its tombstones.
pub open spec fn outlives_tombstones(snapshot: SnapshotView) -> bool {
    let dead = snapshot.tombstones;
    &&& forall|i: int|
        0 <= i < snapshot.categories.len() ==> !buried(
            dead,
            "category"@,
            (#[trigger] snapshot.categories[i]).name,
            snapshot.categories[i].updated_at,
        )
    &&& forall|i: int|
        0 <= i < snapshot.projects.len() ==> !buried(
            dead,
            "project"@,
            (#[trigger] snapshot.projects[i]).id,
            snapshot.projects[i].updated_at,
        )
    &&& forall|i: int|
        0 <= i < snapshot.tasks.len() ==> !buried(
            dead,
            "task"@,
            (#[trigger] snapshot.tasks[i]).id,
            snapshot.tasks[i].updated_at,
        )
    &&& forall|i: int|
        0 <= i < snapshot.sessions.len() ==> !buried(
            dead,
            "session"@,
            (#[trigger] snapshot.sessions[i]).session.id,
            snapshot.sessions[i].updated_at,
        )
    &&& forall|i: int|
        0 <= i < snapshot.rules.len() ==> !buried(
            dead,
            "rule"@,
            (#[trigger] snapshot.rules[i]).rule.id,
            snapshot.rules[i].updated_at,
        )
}

/// A deletion on either device is honoured: no record of a merged snapshot was deleted after its
/// last change.
pub proof fn merged_records_outlive_their_tombstones(
    left: SnapshotView,
    right: SnapshotView,
    generated_at: Seq<char>,
)
    requires
        merged(left, right, generated_at) is Ok,
    ensures
        outlives_tombstones(merged(left, right, generated_at)->Ok_0),
{
    let snapshot = merged(left, right, generated_at)->Ok_0;
    let dead = merged_tombstones(left, right);
    let categories = |item: SyncCategoryView|
        !buried(dead, "category"@, item.name, item.updated_at);
    let projects = |item: ProjectView| !buried(dead, "project"@, item.id, item.updated_at);
    let tasks = |item: TaskView|
        keys::<Project>(merged_projects(left, right)).contains(item.project_id) && !buried(
            dead,
            "task"@,
            item.id,
            item.updated_at,
        );
    let sessions = |item: SyncSessionView|
        !buried(dead, "session"@, item.session.id, item.updated_at);
    let rules = |item: SyncRuleView| !buried(dead, "rule"@, item.rule.id, item.updated_at);
    assert forall|i: int| 0 <= i < snapshot.categories.len() implies !buried(
        dead,
        "category"@,
        (#[trigger] snapshot.categories[i]).name,
        snapshot.categories[i].updated_at,
    ) by {
        latest::<SyncCategory>(left.categories, right.categories).lemma_filter_pred(categories, i);
    }
    assert forall|i: int| 0 <= i < snapshot.projects.len() implies !buried(
        dead,
        "project"@,
        (#[trigger] snapshot.projects[i]).id,
        snapshot.projects[i].updated_at,
    ) by {
        latest::<Project>(left.projects, right.projects).lemma_filter_pred(projects, i);
    }
    assert forall|i: int| 0 <= i < snapshot.tasks.len() implies !buried(
        dead,
        "task"@,
        (#[trigger] snapshot.tasks[i]).id,
        snapshot.tasks[i].updated_at,
    ) by {
        latest::<Task>(left.tasks, right.tasks).lemma_filter_pred(tasks, i);
    }
    assert forall|i: int| 0 <= i < snapshot.sessions.len() implies !buried(
        dead,
        "session"@,
        (#[trigger] snapshot.sessions[i]).session.id,
        snapshot.sessions[i].updated_at,
    ) by {
        latest::<SyncSession>(left.sessions, right.sessions).lemma_filter_pred(sessions, i);
    }
    assert forall|i: int| 0 <= i < snapshot.rules.len() implies !buried(
        dead,
        "rule"@,
        (#[trigger] snapshot.rules[i]).rule.id,
        snapshot.rules[i].updated_at,
    ) by {
        latest::<SyncRule>(left.rules, right.rules).lemma_filter_pred(rules, i);
    }
}

/// So many devices are listed at most.
pub const MAX_DEVICES: usize = 20;

/// The list with a device put in before the first one that was seen earlier.
pub open spec fn insert_by_sight(sorted: Seq<SyncDeviceView>, device: SyncDeviceView) -> Seq<
    SyncDeviceView,
>
    decreases sorted.len(),
{
    if sorted.len() == 0 || !text::precedes(sorted.last().last_seen_at, device.last_seen_at) {
        sorted.push(device)
    } else {
        insert_by_sight(sorted.drop_last(), device).push(sorted.last())
    }
}

/// The devices, the one last seen first; devices seen at the same time keep their order.
pub open spec fn by_sight(devices: Seq<SyncDeviceView>) -> Seq<SyncDeviceView>
    decreases devices.len(),
{
    if devices.len() == 0 {
        Seq::empty()
    } else {
        insert_by_sight(by_sight(devices.drop_last()), devices.last())
    }
}

/// The devices with this one noted.
pub open spec fn noted_device(devices: Seq<SyncDeviceView>, device: SyncDeviceView) -> Seq<
    SyncDeviceView,
> {
    let sorted = by_sight(placed::<SyncDeviceInfo>(devices, device));
    if sorted.len() > MAX_DEVICES {
        sorted.take(MAX_DEVICES as int)
    } else {
        sorted
    }
}

fn insert_device(sorted: &mut Vec<SyncDeviceInfo>, device: SyncDeviceInfo)
    ensures
        record_views(final(sorted)@) == insert_by_sight(record_views(old(sorted)@), device@),
{
    let ghost before = record_views(sorted@);
    let mut at: usize = sorted.len();
    assert(before.take(at as int) =~= before);
    assert(insert_by_sight(before.take(at as int), device@) + before.skip(at as int)
        =~= insert_by_sight(before, device@));
    while at > 0 && text::less(sorted[at - 1].last_seen_at.as_str(), device.last_seen_at.as_str())
        invariant
            at <= sorted.len(),
            before == record_views(sorted@),
            insert_by_sight(before.take(at as int), device@) + before.skip(at as int)
                == insert_by_sight(before, device@),
        decreases at,
    {
        let ghost head = before.take(at as int);
        assert(head.drop_last() =~= before.take(at - 1));
        assert(head.last() == sorted@[at - 1]@);
        assert(insert_by_sight(head.drop_last(), device@).push(head.last()) + before.skip(at as int)
            =~= insert_by_sight(before.take(at - 1), device@) + before.skip(at - 1));
        at -= 1;
    }
    proof {
        if at > 0 {
            assert(before.take(at as int).last() == sorted@[at - 1]@);
        }
        assert(insert_by_sight(before.take(at as int), device@) == before.take(at as int).push(
            device@,
        ));
        assert(before.take(at as int).push(device@) + before.skip(at as int) =~= before.insert(
            at as int,
            device@,
        ));
    }
    sorted.insert(at, device);
    assert(record_views(sorted@) =~= before.insert(at as int, device@));
}

/// Notes that a device was seen.
pub fn upsert_device(devices: &mut Vec<SyncDeviceInfo>, device: SyncDeviceInfo)
    ensures
        record_views(final(devices)@) == noted_device(record_views(old(devices)@), device@),
{
    let ghost views = record_views(devices@);
    let ghost wanted = device@;
    let mut at: usize = 0;
    assert(views.skip(0) =~= views);
    while at < devices.len() && !text::same(devices[at].id.as_str(), device.id.as_str())
        invariant
            at <= devices.len(),
            views == record_views(devices@),
            wanted == device@,
            spot::<SyncDeviceInfo>(views, wanted.id) == at + spot::<SyncDeviceInfo>(
                views.skip(at as int),
                wanted.id,
            ),
        decreases devices.len() - at,
    {
        assert(views.skip(at as int)[0] == devices@[at as int]@);
        assert(views.skip(at as int).drop_first() =~= views.skip(at + 1));
        at += 1;
    }
    if at < devices.len() {
        assert(views.skip(at as int)[0] == devices@[at as int]@);
        if !text::less(device.last_seen_at.as_str(), devices[at].last_seen_at.as_str()) {
            devices.set(at, device);
            assert(record_views(devices@) =~= views.update(at as int, wanted));
        }
    } else {
        devices.push(device);
        assert(record_views(devices@) =~= views.push(wanted));
    }
    let ghost after = record_views(devices@);
    assert(after == placed::<SyncDeviceInfo>(views, wanted));
    let mut sorted: Vec<SyncDeviceInfo> = Vec::new();
    let mut i: usize = 0;
    assert(record_views(sorted@) =~= by_sight(after.take(0)));
    while i < devices.len()
        invariant
            i <= devices.len(),
            after == record_views(devices@),
            record_views(sorted@) == by_sight(after.take(i as int)),
        decreases devices.len() - i,
    {
        assert(after.take(i + 1).drop_last() =~= after.take(i as int));
        assert(after.take(i + 1).last() == devices@[i as int]@);
        insert_device(&mut sorted, devices[i].copy());
        i += 1;
    }
    assert(after.take(devices.len() as int) =~= after);
    if sorted.len() > MAX_DEVICES {
        let ghost all = record_views(sorted@);
        sorted.truncate(MAX_DEVICES);
        assert(record_views(sorted@) =~= all.take(MAX_DEVICES as int));
    }
    *devices = sorted;
}

impl SyncSnapshot {
    /// How many records of each kind the snapshot holds.
    pub fn counts(&self) -> (result: SyncCounts)
        ensures
            result.categories == self.categories@.len() as u32,
            result.projects == self.projects@.len() as u32,
            result.tasks == self.tasks@.len() as u32,
            result.sessions == self.sessions@.len() as u32,
            result.rules == self.rules@.len() as u32,
    {
        SyncCounts {
            categories: self.categories.len() as u32,
            projects: self.projects.len() as u32,
            tasks: self.tasks.len() as u32,
            sessions: self.sessions.len() as u32,
            rules: self.rules.len() as u32,
        }
    }
}

proof fn lemma_keys_differ_filter<T: Record>(list: Seq<T::V>, keep: spec_fn(T::V) -> bool)
    requires
        keys_differ::<T>(list),
    ensures
        keys_differ::<T>(list.filter(keep)),
    decreases list.len(),
{
    reveal(Seq::filter);
    if list.len() > 0 {
        let rest = list.drop_last();
        assert(keys_differ::<T>(rest));
        lemma_keys_differ_filter::<T>(rest, keep);
        let kept = rest.filter(keep);
        assert forall|i: int| 0 <= i < kept.len() implies T::key_of(#[trigger] kept[i])
            != T::key_of(list.last()) by {
            assert(kept.contains(kept[i]));
            rest.lemma_filter_contains_rev(keep, kept[i]);
            let m = choose|m: int| 0 <= m < rest.len() && rest[m] == kept[i];
            assert(list[m] == rest[m]);
            assert(list[list.len() - 1] == list.last());
        }
    }
}

proof fn lemma_placed_fresh<T: Record>(list: Seq<T::V>, n: int)
    requires
        keys_differ::<T>(list),
        0 <= n <= list.len(),
    ensures
        placed_all::<T>(Seq::empty(), list.take(n)) == list.take(n),
    decreases n,
{
    if n == 0 {
        assert(list.take(0) =~= Seq::empty());
    } else {
        let before = list.take(n - 1);
        lemma_placed_fresh::<T>(list, n - 1);
        assert(list.take(n).drop_last() =~= before);
        lemma_spot::<T>(before, T::key_of(list[n - 1]));
        let at = spot::<T>(before, T::key_of(list[n - 1])) as int;
        if at < before.len() {
            assert(before[at] == list[at]);
            assert(T::key_of(list[at]) != T::key_of(list[n - 1]));
        }
        assert(before.push(list[n - 1]) =~= list.take(n));
    }
}

proof fn lemma_placed_again<T: Record>(list: Seq<T::V>, n: int)
    requires
        keys_differ::<T>(list),
        0 <= n <= list.len(),
    ensures
        placed_all::<T>(list, list.take(n)) == list,
    decreases n,
{
    if n == 0 {
        assert(list.take(0) =~= Seq::empty());
    } else {
        lemma_placed_again::<T>(list, n - 1);
        assert(list.take(n).drop_last() =~= list.take(n - 1));
        let key = T::key_of(list[n - 1]);
        lemma_spot::<T>(list, key);
        let at = spot::<T>(list, key) as int;
        assert(at <= n - 1);
        if at < n - 1 {
            assert(T::key_of(list[at]) != T::key_of(list[n - 1]));
        }
        assert(list.update(n - 1, list[n - 1]) =~= list);
        text::lemma_precedes_total(T::time_of(list[n - 1]), T::time_of(list[n - 1]));
    }
}

proof fn lemma_latest_of_itself<T: Record>(list: Seq<T::V>)
    requires
        keys_differ::<T>(list),
    ensures
        latest::<T>(list, list) == list,
{
    assert(list.take(list.len() as int) =~= list);
    lemma_placed_fresh::<T>(list, list.len() as int);
    lemma_placed_again::<T>(list, list.len() as int);
}

/// The keys of each kind of record are unique.
pub open spec fn all_keys_differ(snapshot: SnapshotView) -> bool {
    &&& keys_differ::<SyncCategory>(snapshot.categories)
    &&& keys_differ::<Project>(snapshot.projects)
    &&& keys_differ::<Task>(snapshot.tasks)
    &&& keys_differ::<SyncSession>(snapshot.sessions)
    &&& keys_differ::<SyncRule>(snapshot.rules)
    &&& keys_differ::<SyncTombstone>(snapshot.tombstones)
    &&& keys_differ::<SyncDeviceInfo>(snapshot.devices)
}

/// A merged snapshot holds no key twice.
pub proof fn merged_keys_differ(left: SnapshotView, right: SnapshotView, generated_at: Seq<char>)
    requires
        merged(left, right, generated_at) is Ok,
    ensures
        all_keys_differ(merged(left, right, generated_at)->Ok_0),
{
    let dead = merged_tombstones(left, right);
    merging_keeps_the_newest_of_every_key::<SyncTombstone>(left.tombstones, right.tombstones);
    merging_keeps_the_newest_of_every_key::<SyncDeviceInfo>(left.devices, right.devices);
    merging_keeps_the_newest_of_every_key::<SyncCategory>(left.categories, right.categories);
    lemma_keys_differ_filter::<SyncCategory>(
        latest::<SyncCategory>(left.categories, right.categories),
        |item: SyncCategoryView| !buried(dead, "category"@, item.name, item.updated_at),
    );
    merging_keeps_the_newest_of_every_key::<Project>(left.projects, right.projects);
    let projects = |item: ProjectView| !buried(dead, "project"@, item.id, item.updated_at);
    lemma_keys_differ_filter::<Project>(
        latest::<Project>(left.projects, right.projects),
        projects,
    );
    let kept_projects = latest::<Project>(left.projects, right.projects).filter(projects);
    assert forall|i: int, j: int|
        0 <= i < j < merged_projects(left, right).len() implies Project::key_of(
        #[trigger] merged_projects(left, right)[i],
    ) != Project::key_of(#[trigger] merged_projects(left, right)[j]) by {
        assert(Project::key_of(kept_projects[i]) != Project::key_of(kept_projects[j]));
    }
    merging_keeps_the_newest_of_every_key::<Task>(left.tasks, right.tasks);
    lemma_keys_differ_filter::<Task>(
        latest::<Task>(left.tasks, right.tasks),
        |item: TaskView|
            keys::<Project>(merged_projects(left, right)).contains(item.project_id) && !buried(
                merged_tombstones(left, right),
                "task"@,
                item.id,
                item.updated_at,
            ),
    );
    merging_keeps_the_newest_of_every_key::<SyncSession>(left.sessions, right.sessions);
    let sessions = |item: SyncSessionView|
        !buried(dead, "session"@, item.session.id, item.updated_at);
    lemma_keys_differ_filter::<SyncSession>(
        latest::<SyncSession>(left.sessions, right.sessions),
        sessions,
    );
    let kept_sessions = latest::<SyncSession>(left.sessions, right.sessions).filter(sessions);
    assert forall|i: int, j: int|
        0 <= i < j < merged_sessions(left, right).len() implies SyncSession::key_of(
        #[trigger] merged_sessions(left, right)[i],
    ) != SyncSession::key_of(#[trigger] merged_sessions(left, right)[j]) by {
        assert(SyncSession::key_of(kept_sessions[i]) != SyncSession::key_of(kept_sessions[j]));
    }
    merging_keeps_the_newest_of_every_key::<SyncRule>(left.rules, right.rules);
    let rules = |item: SyncRuleView| !buried(dead, "rule"@, item.rule.id, item.updated_at);
    lemma_keys_differ_filter::<SyncRule>(latest::<SyncRule>(left.rules, right.rules), rules);
    let kept_rules = latest::<SyncRule>(left.rules, right.rules).filter(rules);
    assert forall|i: int, j: int|
        0 <= i < j < merged_rules(left, right).len() implies SyncRule::key_of(
        #[trigger] merged_rules(left, right)[i],
    ) != SyncRule::key_of(#[trigger] merged_rules(left, right)[j]) by {
        assert(SyncRule::key_of(kept_rules[i]) != SyncRule::key_of(kept_rules[j]));
    }
}

/// A whole snapshot, merged with itself, stays as it is: synchronising again without changes
/// changes nothing.
pub proof fn merging_a_snapshot_with_itself_changes_nothing(snapshot: SnapshotView)
    requires
        snapshot.schema_version == SNAPSHOT_SCHEMA,
        snapshot.categories.len() > 0,
        all_keys_differ(snapshot),
        references_resolve(snapshot),
        outlives_tombstones(snapshot),
    ensures
        merged(snapshot, snapshot, snapshot.generated_at) == Ok::<SnapshotView, SnapshotError>(
            snapshot,
        ),
{
    let dead = snapshot.tombstones;
    lemma_latest_of_itself::<SyncTombstone>(snapshot.tombstones);
    lemma_latest_of_itself::<SyncDeviceInfo>(snapshot.devices);
    lemma_latest_of_itself::<SyncCategory>(snapshot.categories);
    lists::lemma_filter_uniform(
        snapshot.categories,
        |item: SyncCategoryView| !buried(dead, "category"@, item.name, item.updated_at),
    );
    assert(merged_categories(snapshot, snapshot) == snapshot.categories);
    lemma_latest_of_itself::<Project>(snapshot.projects);
    lists::lemma_filter_uniform(
        snapshot.projects,
        |item: ProjectView| !buried(dead, "project"@, item.id, item.updated_at),
    );
    assert(merged_projects(snapshot, snapshot) =~= snapshot.projects);
    lemma_latest_of_itself::<Task>(snapshot.tasks);
    lists::lemma_filter_uniform(
        snapshot.tasks,
        |item: TaskView|
            keys::<Project>(merged_projects(snapshot, snapshot)).contains(item.project_id)
                && !buried(
                merged_tombstones(snapshot, snapshot),
                "task"@,
                item.id,
                item.updated_at,
            ),
    );
    assert(merged_tasks(snapshot, snapshot) == snapshot.tasks);
    lemma_latest_of_itself::<SyncSession>(snapshot.sessions);
    lists::lemma_filter_uniform(
        snapshot.sessions,
        |item: SyncSessionView| !buried(dead, "session"@, item.session.id, item.updated_at),
    );
    assert(merged_sessions(snapshot, snapshot) =~= snapshot.sessions);
    lemma_latest_of_itself::<SyncRule>(snapshot.rules);
    lists::lemma_filter_uniform(
        snapshot.rules,
        |item: SyncRuleView| !buried(dead, "rule"@, item.rule.id, item.updated_at),
    );
    assert(merged_rules(snapshot, snapshot) =~= snapshot.rules);
}

/// Where the record with this key stands; behind the list where there is none.
pub(crate) fn find_record<T: Record>(list: &Vec<T>, key: &str) -> (result: usize)
    ensures
        result == spot::<T>(record_views(list@), key@),
        result <= list.len(),
        result < list.len() ==> T::key_of(list@[result as int]@) == key@,
{
    let ghost views = record_views(list@);
    let mut i: usize = 0;
    assert(views.skip(0) =~= views);
    while i < list.len()
        invariant
            i <= list.len(),
            views == record_views(list@),
            spot::<T>(views, key@) == i + spot::<T>(views.skip(i as int), key@),
        decreases list.len() - i,
    {
        assert(views.skip(i as int)[0] == list@[i as int]@);
        let found = list[i].record_key();
        if text::same(found.as_str(), key) {
            return i;
        }
        assert(views.skip(i as int).drop_first() =~= views.skip(i + 1));
        i += 1;
    }
    i
}

} // verus!
