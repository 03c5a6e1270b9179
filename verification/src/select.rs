//! Picking items out of a list and putting them in order.

use vstd::prelude::*;

use crate::order::{
    is_order, keys_ok, lemma_order_exists, order_of, ordered, places, stable_order, KeyModel,
    SortKey,
};

verus! {

/// The places whose flag is set, ascending.
pub open spec fn picked(flags: Seq<bool>) -> Seq<int>
    decreases flags.len(),
{
    if flags.len() == 0 {
        Seq::empty()
    } else if flags.last() {
        picked(flags.drop_last()).push(flags.len() - 1)
    } else {
        picked(flags.drop_last())
    }
}

/// `picked` lists the set places, each once and ascending.
pub proof fn lemma_picked(flags: Seq<bool>)
    ensures
        picked(flags).len() <= flags.len(),
        forall|k: int|
            0 <= k < picked(flags).len() ==> 0 <= #[trigger] picked(flags)[k] < flags.len()
                && flags[picked(flags)[k]],
        forall|k: int, l: int|
            0 <= k < l < picked(flags).len() ==> #[trigger] picked(flags)[k]
                < #[trigger] picked(flags)[l],
        forall|i: int| 0 <= i < flags.len() && flags[i] ==> #[trigger] picked(flags).contains(i),
    decreases flags.len(),
{
    if flags.len() > 0 {
        let rest = flags.drop_last();
        lemma_picked(rest);
        assert forall|i: int| 0 <= i < flags.len() && flags[i] implies #[trigger] picked(
            flags,
        ).contains(i) by {
            if i < flags.len() - 1 {
                assert(picked(rest).contains(i));
                let k = choose|k: int| 0 <= k < picked(rest).len() && picked(rest)[k] == i;
                assert(picked(flags)[k] == i);
            } else {
                assert(picked(flags)[picked(rest).len() as int] == i);
            }
        }
    }
}

/// The places whose flag is set.
pub fn pick(flags: &Vec<bool>) -> (r: Vec<usize>)
    ensures
        places(r@) == picked(flags@),
{
    let mut out: Vec<usize> = Vec::new();
    let mut i: usize = 0;
    assert(places(out@) =~= Seq::<int>::empty());
    while i < flags.len()
        invariant
            i <= flags@.len(),
            places(out@) == picked(flags@.take(i as int)),
        decreases flags@.len() - i,
    {
        let ghost before = places(out@);
        assert(flags@.take(i + 1).drop_last() =~= flags@.take(i as int));
        if flags[i] {
            out.push(i);
            assert(places(out@) =~= before.push(i as int));
        }
        i += 1;
    }
    assert(flags@.take(flags@.len() as int) =~= flags@);
    out
}

/// The given places in the stable ascending order of their keys.
pub fn arrange(picks: &Vec<usize>, keys: &Vec<SortKey>) -> (r: Vec<usize>)
    requires
        picks@.len() == keys@.len(),
        keys_ok(keys.deep_view()),
    ensures
        places(r@) == ordered(places(picks@), keys.deep_view()),
        is_order(keys.deep_view(), order_of(keys.deep_view())),
{
    let order = stable_order(keys);
    let ghost km = keys.deep_view();
    let mut out: Vec<usize> = Vec::new();
    let mut i: usize = 0;
    while i < order.len()
        invariant
            i <= order@.len(),
            picks@.len() == km.len(),
            places(order@) == order_of(km),
            is_order(km, places(order@)),
            places(out@) == ordered(places(picks@), km).take(i as int),
        decreases order@.len() - i,
    {
        let ghost before = places(out@);
        assert(places(order@)[i as int] == order@[i as int]);
        out.push(picks[order[i]]);
        assert(places(out@) =~= before.push(picks@[order@[i as int] as int] as int));
        assert(ordered(places(picks@), km).take(i + 1) =~= before.push(
            places(picks@)[order_of(km)[i as int]],
        ));
        i += 1;
    }
    assert(ordered(places(picks@), km).take(picks@.len() as int) =~= ordered(places(picks@), km));
    out
}

/// As many flags are picked as places have their flag set.
pub proof fn lemma_picked_count(flags: Seq<bool>, places: Set<int>)
    requires
        forall|i: int| #[trigger] places.contains(i) <==> 0 <= i < flags.len() && flags[i],
    ensures
        places.finite(),
        places.len() == picked(flags).len(),
{
    let picks = picked(flags);
    lemma_picked(flags);
    assert(picks.no_duplicates()) by {
        assert forall|k: int, l: int|
            0 <= k < picks.len() && 0 <= l < picks.len() && k != l implies picks[k] != picks[l] by {
            if k < l {
                assert(picks[k] < picks[l]);
            } else {
                assert(picks[l] < picks[k]);
            }
        }
    }
    picks.unique_seq_to_set();
    assert forall|i: int| places.contains(i) <==> #[trigger] picks.to_set().contains(i) by {
        if places.contains(i) {
            assert(picks.contains(i));
        }
        if picks.contains(i) {
            let k = choose|k: int| 0 <= k < picks.len() && picks[k] == i;
            assert(flags[picks[k]]);
        }
    }
    assert(places =~= picks.to_set());
    vstd::seq_lib::seq_to_set_is_finite(picks);
}

/// Ordering keeps the members of a list, and puts them in the order of their keys.
pub proof fn lemma_ordered<T>(items: Seq<T>, keys: Seq<KeyModel>)
    requires
        keys_ok(keys),
        items.len() == keys.len(),
    ensures
        is_order(keys, order_of(keys)),
        ordered(items, keys).len() == items.len(),
        forall|k: int|
            0 <= k < items.len() ==> 0 <= order_of(keys)[k] < items.len() && #[trigger] ordered(
                items,
                keys,
            )[k] == items[order_of(keys)[k]],
        forall|x: T| #[trigger] ordered(items, keys).contains(x) <==> items.contains(x),
{
    lemma_order_exists(keys);
    let order = order_of(keys);
    assert forall|x: T| #[trigger] ordered(items, keys).contains(x) <==> items.contains(x) by {
        if ordered(items, keys).contains(x) {
            let k = choose|k: int| 0 <= k < items.len() && ordered(items, keys)[k] == x;
            assert(items[order[k]] == x);
        }
        if items.contains(x) {
            let i = choose|i: int| 0 <= i < items.len() && items[i] == x;
            assert(order.contains(i));
            let k = choose|k: int| 0 <= k < order.len() && order[k] == i;
            assert(ordered(items, keys)[k] == x);
        }
    }
}

} // verus!
