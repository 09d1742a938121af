//! Laws of the packing model, proved once and for all inputs: every packing
//! conserves the items, never overfills a bin, and is empty exactly for an
//! empty input; the decreasing sort orders, permutes, and keeps ties stable.

use crate::model::all_items;
use crate::model::bin_items;
use crate::model::bins_contents;
use crate::model::bin_load;
use crate::model::insert_descending;
use crate::model::lemma_bin_load_push;
use crate::model::lemma_bin_load_singleton;
use crate::model::lemma_insert_descending_permutes;
use crate::model::lemma_sort_descending_by_permutes;
use crate::model::lemma_weight_bound_permutation;
use crate::model::next_fit_state;
use crate::model::pack_first_fit;
use crate::model::pack_first_fit_decreasing;
use crate::model::pack_next_fit;
use crate::model::place_first_fit;
use crate::model::sorted_descending;
use crate::model::sort_descending_by;
use vstd::multiset::Multiset;
use vstd::prelude::*;

verus! {

/// Prepending one bin prepends its items.
proof fn lemma_all_items_cons<A>(bin: Seq<(int, A)>, bins: Seq<Seq<(int, A)>>)
    ensures
        all_items(seq![bin] + bins) == bin + all_items(bins),
{
    assert((seq![bin] + bins).first() == bin);
    assert((seq![bin] + bins).drop_first() =~= bins);
}

/// Appending one bin appends its items.
proof fn lemma_all_items_push<A>(bins: Seq<Seq<(int, A)>>, bin: Seq<(int, A)>)
    ensures
        all_items(bins.push(bin)) == all_items(bins) + bin,
    decreases bins.len(),
{
    if bins.len() == 0 {
        assert(bins.push(bin) =~= seq![bin]);
        lemma_all_items_cons(bin, bins);
        assert(seq![bin] + bins =~= bins.push(bin));
        assert(all_items(bins) + bin =~= bin + all_items(bins));
    } else {
        let rest = bins.drop_first();
        assert(bins.push(bin).first() == bins.first());
        assert(bins.push(bin).drop_first() =~= rest.push(bin));
        lemma_all_items_push(rest, bin);
        assert(bins.first() + (all_items(rest) + bin) =~= (bins.first() + all_items(rest))
            + bin);
    }
}

/// One first-fit placement adds exactly the placed item to the packed items.
proof fn lemma_place_first_fit_conserves<A>(
    bins: Seq<Seq<(int, A)>>,
    capacity: int,
    item: (int, A),
)
    ensures
        all_items(place_first_fit(bins, capacity, item)).to_multiset() == all_items(
            bins,
        ).to_multiset().insert(item),
    decreases bins.len(),
{
    broadcast use vstd::seq_lib::group_to_multiset_ensures;
    broadcast use vstd::seq_lib::lemma_multiset_commutative;

    if bins.len() == 0 {
        lemma_all_items_cons(seq![item], Seq::<Seq<(int, A)>>::empty());
        assert(seq![seq![item]] =~= seq![seq![item]] + Seq::<Seq<(int, A)>>::empty());
        assert(all_items(Seq::<Seq<(int, A)>>::empty()) == Seq::<(int, A)>::empty());
        assert(seq![item] =~= Seq::<(int, A)>::empty().push(item));
        assert(all_items(place_first_fit(bins, capacity, item)).to_multiset() =~= all_items(
            bins,
        ).to_multiset().insert(item));
    } else {
        let first = bins.first();
        let rest = bins.drop_first();
        assert(all_items(bins) == first + all_items(rest));
        if bin_load(first) + item.0 <= capacity {
            lemma_all_items_cons(first.push(item), rest);
            assert((first.push(item) + all_items(rest)).to_multiset() =~= (first + all_items(
                rest,
            )).to_multiset().insert(item));
        } else {
            lemma_all_items_cons(first, place_first_fit(rest, capacity, item));
            lemma_place_first_fit_conserves(rest, capacity, item);
            assert((first + all_items(place_first_fit(rest, capacity, item))).to_multiset()
                =~= (first + all_items(rest)).to_multiset().insert(item));
        }
    }
}

/// Conservation for first-fit: the packed bins hold exactly the input
/// items, each exactly once, as a multiset.
pub proof fn lemma_pack_first_fit_conserves<A>(capacity: int, items: Seq<(int, A)>)
    ensures
        all_items(pack_first_fit(capacity, items)).to_multiset() == items.to_multiset(),
    decreases items.len(),
{
    broadcast use vstd::seq_lib::group_to_multiset_ensures;

    if items.len() == 0 {
        assert(all_items(pack_first_fit(capacity, items)).to_multiset() =~= items.to_multiset());
    } else {
        lemma_pack_first_fit_conserves(capacity, items.drop_last());
        lemma_place_first_fit_conserves(
            pack_first_fit(capacity, items.drop_last()),
            capacity,
            items.last(),
        );
        assert(items.drop_last().push(items.last()) =~= items);
    }
}

/// The next-fit state splits the input items between the closed bins and
/// the current bin.
proof fn lemma_next_fit_state_conserves<A>(capacity: int, items: Seq<(int, A)>)
    ensures
        all_items(next_fit_state(capacity, items).0).to_multiset().add(
            next_fit_state(capacity, items).1.to_multiset(),
        ) == items.to_multiset(),
    decreases items.len(),
{
    broadcast use vstd::seq_lib::group_to_multiset_ensures;
    broadcast use vstd::seq_lib::lemma_multiset_commutative;

    if items.len() == 0 {
        assert(all_items(next_fit_state(capacity, items).0).to_multiset().add(
            next_fit_state(capacity, items).1.to_multiset(),
        ) =~= items.to_multiset());
    } else {
        let prev = next_fit_state(capacity, items.drop_last());
        let item = items.last();
        lemma_next_fit_state_conserves(capacity, items.drop_last());
        assert(items.drop_last().push(item) =~= items);
        if bin_load(prev.1) + item.0 <= capacity {
            assert(all_items(prev.0).to_multiset().add(prev.1.push(item).to_multiset())
                =~= items.to_multiset());
        } else {
            lemma_all_items_push(prev.0, prev.1);
            assert(seq![item] =~= Seq::<(int, A)>::empty().push(item));
            assert(all_items(prev.0.push(prev.1)).to_multiset().add(seq![item].to_multiset())
                =~= items.to_multiset());
        }
    }
}

/// Conservation for next-fit: the packed bins hold exactly the input items,
/// each exactly once, as a multiset.
pub proof fn lemma_pack_next_fit_conserves<A>(capacity: int, items: Seq<(int, A)>)
    ensures
        all_items(pack_next_fit(capacity, items)).to_multiset() == items.to_multiset(),
{
    broadcast use vstd::seq_lib::group_to_multiset_ensures;
    broadcast use vstd::seq_lib::lemma_multiset_commutative;

    let state = next_fit_state(capacity, items);
    lemma_next_fit_state_conserves(capacity, items);
    if state.1.len() == 0 {
        assert(state.1.to_multiset() =~= Multiset::<(int, A)>::empty());
        assert(all_items(state.0).to_multiset() =~= items.to_multiset());
    } else {
        lemma_all_items_push(state.0, state.1);
        assert(all_items(state.0.push(state.1)).to_multiset() =~= items.to_multiset());
    }
}

/// Conservation for first-fit-decreasing: sorting first changes nothing
/// about which items are packed.
pub proof fn lemma_pack_first_fit_decreasing_conserves<A>(capacity: int, items: Seq<(int, A)>)
    ensures
        all_items(pack_first_fit_decreasing(capacity, items)).to_multiset() == items.to_multiset(),
{
    let key = |item: (int, A)| item.0;
    lemma_sort_descending_by_permutes(items, key);
    lemma_pack_first_fit_conserves(capacity, sort_descending_by(items, key));
}

/// One first-fit placement of an item that fits keeps every bin within
/// capacity.
proof fn lemma_place_first_fit_capacity<A>(
    bins: Seq<Seq<(int, A)>>,
    capacity: int,
    item: (int, A),
)
    requires
        item.0 <= capacity,
        forall|k: int| 0 <= k < bins.len() ==> bin_load(#[trigger] bins[k]) <= capacity,
    ensures
        forall|k: int|
            0 <= k < place_first_fit(bins, capacity, item).len() ==> bin_load(
                #[trigger] place_first_fit(bins, capacity, item)[k],
            ) <= capacity,
    decreases bins.len(),
{
    let placed = place_first_fit(bins, capacity, item);
    if bins.len() == 0 {
        lemma_bin_load_singleton(item);
        assert(placed[0] == seq![item]);
    } else {
        let first = bins.first();
        let rest = bins.drop_first();
        assert(forall|k: int| 0 <= k < rest.len() ==> #[trigger] rest[k] == bins[k + 1]);
        if bin_load(first) + item.0 <= capacity {
            lemma_bin_load_push(first, item);
            assert(placed[0] == first.push(item));
            assert(forall|k: int| 1 <= k < placed.len() ==> #[trigger] placed[k] == rest[k - 1]);
        } else {
            lemma_place_first_fit_capacity(rest, capacity, item);
            assert(placed[0] == first);
            assert(forall|k: int|
                1 <= k < placed.len() ==> #[trigger] placed[k] == place_first_fit(
                    rest,
                    capacity,
                    item,
                )[k - 1]);
        }
    }
}

/// Capacity invariant for first-fit: when every item fits into a bin at
/// all, no packed bin's load exceeds the capacity.
pub proof fn lemma_pack_first_fit_capacity<A>(capacity: int, items: Seq<(int, A)>)
    requires
        forall|k: int| 0 <= k < items.len() ==> (#[trigger] items[k]).0 <= capacity,
    ensures
        forall|k: int|
            0 <= k < pack_first_fit(capacity, items).len() ==> bin_load(
                #[trigger] pack_first_fit(capacity, items)[k],
            ) <= capacity,
    decreases items.len(),
{
    if items.len() > 0 {
        let head = items.drop_last();
        assert(forall|k: int| 0 <= k < head.len() ==> #[trigger] head[k] == items[k]);
        lemma_pack_first_fit_capacity(capacity, head);
        lemma_place_first_fit_capacity(pack_first_fit(capacity, head), capacity, items.last());
    }
}

/// The next-fit state keeps the closed bins and the current bin within
/// capacity.
proof fn lemma_next_fit_state_capacity<A>(capacity: int, items: Seq<(int, A)>)
    requires
        0 <= capacity,
        forall|k: int| 0 <= k < items.len() ==> (#[trigger] items[k]).0 <= capacity,
    ensures
        forall|k: int|
            0 <= k < next_fit_state(capacity, items).0.len() ==> bin_load(
                #[trigger] next_fit_state(capacity, items).0[k],
            ) <= capacity,
        bin_load(next_fit_state(capacity, items).1) <= capacity,
    decreases items.len(),
{
    let state = next_fit_state(capacity, items);
    if items.len() == 0 {
        assert(bin_load(state.1) == 0);
    } else {
        let head = items.drop_last();
        let item = items.last();
        assert(forall|k: int| 0 <= k < head.len() ==> #[trigger] head[k] == items[k]);
        lemma_next_fit_state_capacity(capacity, head);
        let prev = next_fit_state(capacity, head);
        if bin_load(prev.1) + item.0 <= capacity {
            lemma_bin_load_push(prev.1, item);
        } else {
            lemma_bin_load_singleton(item);
            assert(forall|k: int|
                0 <= k < prev.0.len() ==> #[trigger] prev.0.push(prev.1)[k] == prev.0[k]);
        }
    }
}

/// Capacity invariant for next-fit: when every item fits into a bin at all,
/// no packed bin's load exceeds the capacity.
pub proof fn lemma_pack_next_fit_capacity<A>(capacity: int, items: Seq<(int, A)>)
    requires
        0 <= capacity,
        forall|k: int| 0 <= k < items.len() ==> (#[trigger] items[k]).0 <= capacity,
    ensures
        forall|k: int|
            0 <= k < pack_next_fit(capacity, items).len() ==> bin_load(
                #[trigger] pack_next_fit(capacity, items)[k],
            ) <= capacity,
{
    lemma_next_fit_state_capacity(capacity, items);
    let state = next_fit_state(capacity, items);
    if state.1.len() > 0 {
        assert(forall|k: int|
            0 <= k < state.0.len() ==> #[trigger] state.0.push(state.1)[k] == state.0[k]);
    }
}

/// Capacity invariant for first-fit-decreasing: when every item fits into a
/// bin at all, no packed bin's load exceeds the capacity.
pub proof fn lemma_pack_first_fit_decreasing_capacity<A>(capacity: int, items: Seq<(int, A)>)
    requires
        forall|k: int| 0 <= k < items.len() ==> (#[trigger] items[k]).0 <= capacity,
    ensures
        forall|k: int|
            0 <= k < pack_first_fit_decreasing(capacity, items).len() ==> bin_load(
                #[trigger] pack_first_fit_decreasing(capacity, items)[k],
            ) <= capacity,
{
    let key = |item: (int, A)| item.0;
    lemma_sort_descending_by_permutes(items, key);
    lemma_weight_bound_permutation(items, sort_descending_by(items, key), capacity);
    lemma_pack_first_fit_capacity(capacity, sort_descending_by(items, key));
}

/// Packing an empty input yields an empty bin list, for all three
/// algorithms.
pub proof fn lemma_pack_empty<A>(capacity: int)
    ensures
        pack_first_fit(capacity, Seq::<(int, A)>::empty()) == Seq::<Seq<(int, A)>>::empty(),
        pack_next_fit(capacity, Seq::<(int, A)>::empty()) == Seq::<Seq<(int, A)>>::empty(),
        pack_first_fit_decreasing(capacity, Seq::<(int, A)>::empty()) == Seq::<
            Seq<(int, A)>,
        >::empty(),
{
    let key = |item: (int, A)| item.0;
    assert(sort_descending_by(Seq::<(int, A)>::empty(), key) == Seq::<(int, A)>::empty());
}

/// Mapping the elements of two sequences that hold the same multiset gives
/// two sequences that hold the same multiset.
proof fn lemma_to_multiset_map_values<A, B>(s: Seq<A>, t: Seq<A>, f: spec_fn(A) -> B)
    requires
        s.to_multiset() == t.to_multiset(),
    ensures
        s.map_values(f).to_multiset() == t.map_values(f).to_multiset(),
    decreases s.len(),
{
    broadcast use vstd::seq_lib::group_to_multiset_ensures;
    broadcast use vstd::multiset::group_multiset_axioms;

    if s.len() == 0 {
        assert(s.to_multiset().len() == 0);
        assert(t.len() == 0);
        assert(s.map_values(f) =~= t.map_values(f));
    } else {
        let x = s[0];
        assert(s.contains(x));
        assert(t.to_multiset().count(x) > 0);
        assert(t.contains(x));
        let j = choose|j: int| 0 <= j < t.len() && t[j] == x;
        assert(s.remove(0).to_multiset() == s.to_multiset().remove(x));
        assert(t.remove(j).to_multiset() == t.to_multiset().remove(x));
        lemma_to_multiset_map_values(s.remove(0), t.remove(j), f);
        assert(s.map_values(f).remove(0) =~= s.remove(0).map_values(f));
        assert(t.map_values(f).remove(j) =~= t.remove(j).map_values(f));
        let ms = s.map_values(f).to_multiset();
        let mt = t.map_values(f).to_multiset();
        assert(s.map_values(f).remove(0).to_multiset() == ms.remove(f(x)));
        assert(t.map_values(f).remove(j).to_multiset() == mt.remove(f(x)));
        assert(s.map_values(f).contains(f(x)));
        assert(t.map_values(f).contains(f(x))) by {
            assert(t.map_values(f)[j] == f(x));
        }
        assert forall|b: B| ms.count(b) == mt.count(b) by {
            if b == f(x) {
                assert(ms.remove(f(x)).count(b) == mt.remove(f(x)).count(b));
                assert(ms.count(b) > 0 && mt.count(b) > 0);
            } else {
                assert(ms.remove(f(x)).count(b) == mt.remove(f(x)).count(b));
            }
        }
        assert(ms =~= mt);
    }
}

/// Flattening the returned reference lists gives the references of every
/// packed item, in bin order.
proof fn lemma_bins_contents_flatten<A>(bins: Seq<Seq<(int, A)>>)
    ensures
        bins_contents(bins).flatten() == bin_items(all_items(bins)),
    decreases bins.len(),
{
    if bins.len() == 0 {
        assert(bins_contents(bins) =~= Seq::<Seq<A>>::empty());
        assert(bin_items(all_items(bins)) =~= Seq::<A>::empty());
        assert(Seq::<Seq<A>>::empty().flatten() == Seq::<A>::empty());
    } else {
        let first = bins.first();
        let rest = bins.drop_first();
        lemma_bins_contents_flatten(rest);
        assert(bins_contents(bins).first() == bin_items(first));
        assert(bins_contents(bins).drop_first() =~= bins_contents(rest));
        assert(bin_items(first + all_items(rest)) =~= bin_items(first) + bin_items(
            all_items(rest),
        ));
    }
}

/// Conservation, stated of what the caller receives: across all bins of the
/// first-fit packing, the returned references are exactly the input items'
/// references, each exactly once, as a multiset.
pub proof fn lemma_pack_first_fit_conserves_references<A>(capacity: int, items: Seq<(int, A)>)
    ensures
        bins_contents(pack_first_fit(capacity, items)).flatten().to_multiset() == bin_items(
            items,
        ).to_multiset(),
{
    lemma_pack_first_fit_conserves(capacity, items);
    lemma_bins_contents_flatten(pack_first_fit(capacity, items));
    lemma_to_multiset_map_values(
        all_items(pack_first_fit(capacity, items)),
        items,
        |item: (int, A)| item.1,
    );
}

/// Conservation, stated of what the caller receives: across all bins of the
/// next-fit packing, the returned references are exactly the input items'
/// references, each exactly once, as a multiset.
pub proof fn lemma_pack_next_fit_conserves_references<A>(capacity: int, items: Seq<(int, A)>)
    ensures
        bins_contents(pack_next_fit(capacity, items)).flatten().to_multiset() == bin_items(
            items,
        ).to_multiset(),
{
    lemma_pack_next_fit_conserves(capacity, items);
    lemma_bins_contents_flatten(pack_next_fit(capacity, items));
    lemma_to_multiset_map_values(
        all_items(pack_next_fit(capacity, items)),
        items,
        |item: (int, A)| item.1,
    );
}

/// Conservation, stated of what the caller receives: across all bins of the
/// first-fit-decreasing packing, the returned references are exactly the
/// input items' references, each exactly once, as a multiset.
pub proof fn lemma_pack_first_fit_decreasing_conserves_references<A>(
    capacity: int,
    items: Seq<(int, A)>,
)
    ensures
        bins_contents(pack_first_fit_decreasing(capacity, items)).flatten().to_multiset()
            == bin_items(items).to_multiset(),
{
    lemma_pack_first_fit_decreasing_conserves(capacity, items);
    lemma_bins_contents_flatten(pack_first_fit_decreasing(capacity, items));
    lemma_to_multiset_map_values(
        all_items(pack_first_fit_decreasing(capacity, items)),
        items,
        |item: (int, A)| item.1,
    );
}

/// The stable insertion keeps the sequence sorted in descending key order.
proof fn lemma_insert_descending_sorted<A>(sorted: Seq<A>, item: A, key: spec_fn(A) -> int)
    requires
        sorted_descending(sorted, key),
    ensures
        sorted_descending(insert_descending(sorted, item, key), key),
    decreases sorted.len(),
{
    broadcast use vstd::seq_lib::group_to_multiset_ensures;

    let result = insert_descending(sorted, item, key);
    if sorted.len() == 0 {
        assert(sorted_descending(seq![item], key));
    } else if key(sorted.last()) >= key(item) {
        assert forall|i: int, j: int| 0 <= i <= j < result.len() implies key(#[trigger] result[i])
            >= key(#[trigger] result[j]) by {
            if j < sorted.len() {
                assert(result[i] == sorted[i] && result[j] == sorted[j]);
            } else if i < sorted.len() {
                assert(result[i] == sorted[i] && result[j] == item);
                assert(key(sorted[i]) >= key(sorted[sorted.len() - 1]));
            }
        }
    } else {
        let head = sorted.drop_last();
        let inserted = insert_descending(head, item, key);
        assert(sorted_descending(head, key)) by {
            assert(forall|k: int| 0 <= k < head.len() ==> #[trigger] head[k] == sorted[k]);
        }
        lemma_insert_descending_sorted(head, item, key);
        lemma_insert_descending_permutes(head, item, key);
        assert forall|i: int| 0 <= i < inserted.len() implies key(#[trigger] inserted[i]) >= key(
            sorted.last(),
        ) by {
            assert(inserted.to_multiset().count(inserted[i]) > 0);
            if inserted[i] != item {
                assert(head.to_multiset().count(inserted[i]) > 0);
                assert(head.contains(inserted[i]));
                let k = choose|k: int| 0 <= k < head.len() && head[k] == inserted[i];
                assert(head[k] == sorted[k]);
                assert(key(sorted[k]) >= key(sorted[sorted.len() - 1]));
            }
        }
        assert forall|i: int, j: int| 0 <= i <= j < result.len() implies key(#[trigger] result[i])
            >= key(#[trigger] result[j]) by {
            if j < inserted.len() {
                assert(result[i] == inserted[i] && result[j] == inserted[j]);
            } else if i < inserted.len() {
                assert(result[i] == inserted[i] && result[j] == sorted.last());
            }
        }
    }
}

/// Sortedness: the decreasing sort orders the items by non-increasing key.
pub proof fn lemma_sort_descending_by_sorted<A>(items: Seq<A>, key: spec_fn(A) -> int)
    ensures
        sorted_descending(sort_descending_by(items, key), key),
    decreases items.len(),
{
    if items.len() > 0 {
        lemma_sort_descending_by_sorted(items.drop_last(), key);
        lemma_insert_descending_sorted(
            sort_descending_by(items.drop_last(), key),
            items.last(),
            key,
        );
    }
}

/// The stable insertion appends the element at the end of its own weight
/// class and leaves every weight class otherwise unchanged.
proof fn lemma_insert_descending_filter<A>(
    sorted: Seq<A>,
    item: A,
    key: spec_fn(A) -> int,
    weight: int,
)
    ensures
        insert_descending(sorted, item, key).filter((|x: A| key(x) == weight)) == (if key(item)
            == weight {
            sorted.filter((|x: A| key(x) == weight)).push(item)
        } else {
            sorted.filter((|x: A| key(x) == weight))
        }),
    decreases sorted.len(),
{
    broadcast use vstd::seq_lib::group_filter_ensures;
    broadcast use Seq::lemma_filter_push;

    let p = |x: A| key(x) == weight;
    if sorted.len() == 0 {
        assert(sorted.filter(p) =~= Seq::<A>::empty());
        assert(seq![item] =~= Seq::<A>::empty().push(item));
        assert(Seq::<A>::empty().push(item).filter(p) == if p(item) {
            Seq::<A>::empty().filter(p).push(item)
        } else {
            Seq::<A>::empty().filter(p)
        });
        assert(Seq::<A>::empty().filter(p) =~= Seq::<A>::empty());
    } else if key(sorted.last()) >= key(item) {
        assert(sorted.push(item).filter(p) == if p(item) {
            sorted.filter(p).push(item)
        } else {
            sorted.filter(p)
        });
    } else {
        let head = sorted.drop_last();
        let last = sorted.last();
        lemma_insert_descending_filter(head, item, key, weight);
        assert(head.push(last) =~= sorted);
        assert(sorted.filter(p) == if p(last) {
            head.filter(p).push(last)
        } else {
            head.filter(p)
        });
        assert(insert_descending(head, item, key).push(last).filter(p) == if p(last) {
            insert_descending(head, item, key).filter(p).push(last)
        } else {
            insert_descending(head, item, key).filter(p)
        });
        if key(item) == weight {
            assert(!p(last));
        }
    }
}

/// Stability: for every weight, the items of that weight stand in the
/// sorted output in exactly their original relative order.
pub proof fn lemma_sort_descending_by_stable<A>(items: Seq<A>, key: spec_fn(A) -> int, weight: int)
    ensures
        sort_descending_by(items, key).filter((|x: A| key(x) == weight)) == items.filter(
            (|x: A| key(x) == weight),
        ),
    decreases items.len(),
{
    broadcast use Seq::lemma_filter_push;

    let p = |x: A| key(x) == weight;
    if items.len() > 0 {
        let head = items.drop_last();
        let last = items.last();
        lemma_sort_descending_by_stable(head, key, weight);
        lemma_insert_descending_filter(sort_descending_by(head, key), last, key, weight);
        assert(head.push(last) =~= items);
        assert(items.filter(p) == if p(last) {
            head.filter(p).push(last)
        } else {
            head.filter(p)
        });
    }
}

} // verus!
