//! Facts about lists.
use vstd::prelude::*;

verus! {

broadcast use vstd::seq_lib::group_seq_properties;

/// A filter that everything passes changes nothing; one that nothing passes leaves nothing.
pub proof fn lemma_filter_uniform<T>(list: Seq<T>, keep: spec_fn(T) -> bool)
    ensures
        (forall|i: int| 0 <= i < list.len() ==> keep(#[trigger] list[i])) ==> list.filter(keep)
            == list,
        (forall|i: int| 0 <= i < list.len() ==> !keep(#[trigger] list[i])) ==> list.filter(keep)
            == Seq::<T>::empty(),
    decreases list.len(),
{
    reveal(Seq::filter);
    if list.len() > 0 {
        let rest = list.drop_last();
        lemma_filter_uniform(rest, keep);
        assert(list =~= rest.push(list.last()));
        assert(forall|i: int| 0 <= i < rest.len() ==> #[trigger] rest[i] == list[i]);
        if forall|i: int| 0 <= i < list.len() ==> keep(#[trigger] list[i]) {
            assert(keep(list[list.len() - 1]));
        }
        if forall|i: int| 0 <= i < list.len() ==> !keep(#[trigger] list[i]) {
            assert(!keep(list[list.len() - 1]));
        }
    } else {
        assert(list =~= Seq::empty());
    }
}

/// What passes a filter is exactly what the list holds and the filter keeps.
pub proof fn lemma_filtered<T>(list: Seq<T>, keep: spec_fn(T) -> bool)
    ensures
        forall|item: T| #[trigger]
            list.filter(keep).contains(item) <==> list.contains(item) && keep(item),
        forall|k: int|
            0 <= k < list.filter(keep).len() ==> list.contains(#[trigger] list.filter(keep)[k])
                && keep(list.filter(keep)[k]),
{
    assert forall|item: T| #[trigger]
        list.filter(keep).contains(item) implies list.contains(item) && keep(item) by {
        list.lemma_filter_contains_rev(keep, item);
        let k = choose|k: int| 0 <= k < list.filter(keep).len() && list.filter(keep)[k] == item;
        list.lemma_filter_pred(keep, k);
    }
    assert forall|item: T| list.contains(item) && keep(item) implies #[trigger] list.filter(
        keep,
    ).contains(item) by {
        let k = choose|k: int| 0 <= k < list.len() && list[k] == item;
        list.lemma_filter_contains(keep, k);
    }
    assert forall|k: int| 0 <= k < list.filter(keep).len() implies list.contains(
        #[trigger] list.filter(keep)[k],
    ) && keep(list.filter(keep)[k]) by {
        assert(list.filter(keep).contains(list.filter(keep)[k]));
    }
}

/// What a list is picked from is all there.
pub proof fn lemma_picked<A, B>(list: Seq<A>, pick: spec_fn(A) -> Option<B>, k: int)
    requires
        0 <= k < list.len(),
        pick(list[k]) is Some,
    ensures
        list.filter_map(pick).contains(pick(list[k]).unwrap()),
    decreases list.len(),
{
    reveal(Seq::filter_map);
    let rest = list.drop_last();
    let wanted = pick(list[k]).unwrap();
    let before = rest.filter_map(pick);
    let whole = list.filter_map(pick);
    if k < rest.len() {
        assert(rest[k] == list[k]);
        lemma_picked(rest, pick, k);
        let m = choose|m: int| 0 <= m < before.len() && before[m] == wanted;
        assert(whole[m] == wanted);
    } else {
        assert(whole[before.len() as int] == wanted);
    }
}

} // verus!
