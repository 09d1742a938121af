//! The mathematical model of the packing algorithms.
//!
//! Items are pairs `(weight, reference)`; a bin is the sequence of pairs
//! placed in it, in placement order; a packing is the sequence of bins, in
//! the order the bins were opened. The executable algorithms promise to
//! return exactly the packings these functions describe.

use vstd::prelude::*;

verus! {

/// The load of a bin: the sum of the weights of the items placed in it.
pub open spec fn bin_load<A>(bin: Seq<(int, A)>) -> int
    decreases bin.len(),
{
    if bin.len() == 0 {
        0
    } else {
        bin_load(bin.drop_last()) + bin.last().0
    }
}

/// First-fit placement of one item: scan the bins in the order they were
/// opened, put the item into the first one whose load leaves room, and open
/// a new final bin when none does.
pub open spec fn place_first_fit<A>(
    bins: Seq<Seq<(int, A)>>,
    capacity: int,
    item: (int, A),
) -> Seq<Seq<(int, A)>>
    decreases bins.len(),
{
    if bins.len() == 0 {
        seq![seq![item]]
    } else if bin_load(bins.first()) + item.0 <= capacity {
        seq![bins.first().push(item)] + bins.drop_first()
    } else {
        seq![bins.first()] + place_first_fit(bins.drop_first(), capacity, item)
    }
}

/// The bins produced by running first-fit over a whole item sequence, in
/// input order.
pub open spec fn pack_first_fit<A>(capacity: int, items: Seq<(int, A)>) -> Seq<Seq<(int, A)>>
    decreases items.len(),
{
    if items.len() == 0 {
        Seq::empty()
    } else {
        place_first_fit(pack_first_fit(capacity, items.drop_last()), capacity, items.last())
    }
}

/// Next-fit state after a prefix of the input: the closed bins and the one
/// current bin. An item joins the current bin when its load leaves room;
/// otherwise the current bin is closed and a fresh one opens with the item.
pub open spec fn next_fit_state<A>(capacity: int, items: Seq<(int, A)>) -> (
    Seq<Seq<(int, A)>>,
    Seq<(int, A)>,
)
    decreases items.len(),
{
    if items.len() == 0 {
        (Seq::empty(), Seq::empty())
    } else {
        let prev = next_fit_state(capacity, items.drop_last());
        let item = items.last();
        if bin_load(prev.1) + item.0 <= capacity {
            (prev.0, prev.1.push(item))
        } else {
            (prev.0.push(prev.1), seq![item])
        }
    }
}

/// The bins produced by next-fit: the closed bins followed by the current
/// bin, unless the current bin never received an item (the placeholder of an
/// empty run never appears in the output).
pub open spec fn pack_next_fit<A>(capacity: int, items: Seq<(int, A)>) -> Seq<Seq<(int, A)>> {
    let state = next_fit_state(capacity, items);
    if state.1.len() == 0 {
        state.0
    } else {
        state.0.push(state.1)
    }
}

/// Insert an element into a descending-sorted sequence, after every element
/// whose key is at least its own: the stable position for the latest arrival.
pub open spec fn insert_descending<A>(sorted: Seq<A>, item: A, key: spec_fn(A) -> int) -> Seq<A>
    decreases sorted.len(),
{
    if sorted.len() == 0 {
        seq![item]
    } else if key(sorted.last()) >= key(item) {
        sorted.push(item)
    } else {
        insert_descending(sorted.drop_last(), item, key).push(sorted.last())
    }
}

/// Stable descending insertion sort by `key`: elements are inserted in input
/// order, each after the equal-keyed elements that arrived before it.
pub open spec fn sort_descending_by<A>(items: Seq<A>, key: spec_fn(A) -> int) -> Seq<A>
    decreases items.len(),
{
    if items.len() == 0 {
        Seq::empty()
    } else {
        insert_descending(sort_descending_by(items.drop_last(), key), items.last(), key)
    }
}

/// The bins produced by first-fit-decreasing: a stable descending sort by
/// weight, then first-fit over the sorted sequence.
pub open spec fn pack_first_fit_decreasing<A>(
    capacity: int,
    items: Seq<(int, A)>,
) -> Seq<Seq<(int, A)>> {
    pack_first_fit(capacity, sort_descending_by(items, |item: (int, A)| item.0))
}

/// Descending order by key: along the sequence, keys never increase.
pub open spec fn sorted_descending<A>(items: Seq<A>, key: spec_fn(A) -> int) -> bool {
    forall|i: int, j: int|
        0 <= i <= j < items.len() ==> key(#[trigger] items[i]) >= key(#[trigger] items[j])
}

/// The references a model bin holds, in placement order.
pub open spec fn bin_items<A>(bin: Seq<(int, A)>) -> Seq<A> {
    bin.map_values(|item: (int, A)| item.1)
}

/// Just the item references of each bin, the shape the algorithms return to
/// the caller.
pub open spec fn bins_contents<A>(bins: Seq<Seq<(int, A)>>) -> Seq<Seq<A>> {
    bins.map_values(|bin: Seq<(int, A)>| bin_items(bin))
}

/// Every packed item of every bin, in bin order.
pub open spec fn all_items<A>(bins: Seq<Seq<(int, A)>>) -> Seq<(int, A)>
    decreases bins.len(),
{
    if bins.len() == 0 {
        Seq::empty()
    } else {
        bins.first() + all_items(bins.drop_first())
    }
}

/// Appending an item adds exactly its weight to the load.
pub proof fn lemma_bin_load_push<A>(bin: Seq<(int, A)>, item: (int, A))
    ensures
        bin_load(bin.push(item)) == bin_load(bin) + item.0,
{
    assert(bin.push(item).drop_last() =~= bin);
}

/// A bin holding one item carries exactly that item's weight.
pub proof fn lemma_bin_load_singleton<A>(item: (int, A))
    ensures
        bin_load(seq![item]) == item.0,
{
    assert(seq![item].drop_last() =~= Seq::<(int, A)>::empty());
    assert(bin_load(Seq::<(int, A)>::empty()) == 0);
}

/// Bins that have no room are passed over unchanged: placement only touches
/// the remainder of the bin list.
proof fn lemma_place_first_fit_prefix<A>(
    bins: Seq<Seq<(int, A)>>,
    capacity: int,
    item: (int, A),
    j: int,
)
    requires
        0 <= j <= bins.len(),
        forall|k: int| 0 <= k < j ==> bin_load(#[trigger] bins[k]) + item.0 > capacity,
    ensures
        place_first_fit(bins, capacity, item) == bins.take(j) + place_first_fit(
            bins.skip(j),
            capacity,
            item,
        ),
    decreases j,
{
    if j == 0 {
        assert(bins.skip(0) =~= bins);
        assert(bins.take(0) + place_first_fit(bins, capacity, item) =~= place_first_fit(
            bins,
            capacity,
            item,
        ));
    } else {
        let rest = bins.drop_first();
        assert(bins.first() == bins[0]);
        assert(forall|k: int|
            0 <= k < j - 1 ==> bin_load(#[trigger] rest[k]) + item.0 > capacity) by {
            assert(forall|k: int| 0 <= k < j - 1 ==> rest[k] == bins[k + 1]);
        }
        lemma_place_first_fit_prefix(rest, capacity, item, j - 1);
        assert(rest.skip(j - 1) =~= bins.skip(j));
        assert(seq![bins.first()] + (rest.take(j - 1) + place_first_fit(
            bins.skip(j),
            capacity,
            item,
        )) =~= bins.take(j) + place_first_fit(bins.skip(j), capacity, item));
    }
}

/// When the first bin with room is bin `j`, placement is exactly an update
/// of bin `j`.
pub(crate) proof fn lemma_place_first_fit_at<A>(
    bins: Seq<Seq<(int, A)>>,
    capacity: int,
    item: (int, A),
    j: int,
)
    requires
        0 <= j < bins.len(),
        forall|k: int| 0 <= k < j ==> bin_load(#[trigger] bins[k]) + item.0 > capacity,
        bin_load(bins[j]) + item.0 <= capacity,
    ensures
        place_first_fit(bins, capacity, item) == bins.update(j, bins[j].push(item)),
{
    lemma_place_first_fit_prefix(bins, capacity, item, j);
    let rest = bins.skip(j);
    assert(rest.first() == bins[j]);
    assert(rest.drop_first() =~= bins.skip(j + 1));
    assert(place_first_fit(rest, capacity, item) == seq![bins[j].push(item)] + bins.skip(j + 1));
    assert(bins.take(j) + (seq![bins[j].push(item)] + bins.skip(j + 1)) =~= bins.update(
        j,
        bins[j].push(item),
    ));
}

/// When no bin has room, placement is exactly a new final singleton bin.
pub(crate) proof fn lemma_place_first_fit_append<A>(
    bins: Seq<Seq<(int, A)>>,
    capacity: int,
    item: (int, A),
)
    requires
        forall|k: int| 0 <= k < bins.len() ==> bin_load(#[trigger] bins[k]) + item.0 > capacity,
    ensures
        place_first_fit(bins, capacity, item) == bins.push(seq![item]),
{
    let n = bins.len() as int;
    lemma_place_first_fit_prefix(bins, capacity, item, n);
    assert(bins.skip(n) =~= Seq::<Seq<(int, A)>>::empty());
    assert(bins.take(n) + seq![seq![item]] =~= bins.push(seq![item]));
}

/// Inserting at the position a backwards scan finds: every element from
/// `pos` on has a smaller key and the element before `pos`, if any, does
/// not, so the stable insertion lands exactly at `pos`.
pub(crate) proof fn lemma_insert_descending_at<A>(
    sorted: Seq<A>,
    item: A,
    key: spec_fn(A) -> int,
    pos: int,
)
    requires
        0 <= pos <= sorted.len(),
        forall|k: int| pos <= k < sorted.len() ==> key(#[trigger] sorted[k]) < key(item),
        pos > 0 ==> key(sorted[pos - 1]) >= key(item),
    ensures
        insert_descending(sorted, item, key) == sorted.insert(pos, item),
    decreases sorted.len(),
{
    if pos == sorted.len() {
        if sorted.len() == 0 {
            assert(insert_descending(sorted, item, key) =~= sorted.insert(pos, item));
        } else {
            assert(key(sorted.last()) >= key(item));
            assert(sorted.push(item) =~= sorted.insert(pos, item));
        }
    } else {
        assert(key(sorted.last()) < key(item));
        let head = sorted.drop_last();
        assert(forall|k: int| pos <= k < head.len() ==> key(#[trigger] head[k]) < key(item)) by {
            assert(forall|k: int| 0 <= k < head.len() ==> head[k] == sorted[k]);
        }
        if pos > 0 {
            assert(head[pos - 1] == sorted[pos - 1]);
        }
        lemma_insert_descending_at(head, item, key, pos);
        assert(head.insert(pos, item).push(sorted.last()) =~= sorted.insert(pos, item));
    }
}

/// Mapping the elements commutes with the stable insertion when the key of
/// an image equals the key of its element.
proof fn lemma_insert_descending_map<A, B>(
    sorted: Seq<A>,
    item: A,
    f: spec_fn(A) -> B,
    key_a: spec_fn(A) -> int,
    key_b: spec_fn(B) -> int,
)
    requires
        forall|x: A| #[trigger] key_b(f(x)) == key_a(x),
    ensures
        insert_descending(sorted, item, key_a).map_values(f) == insert_descending(
            sorted.map_values(f),
            f(item),
            key_b,
        ),
    decreases sorted.len(),
{
    let mapped = sorted.map_values(f);
    if sorted.len() == 0 {
        assert(seq![item].map_values(f) =~= seq![f(item)]);
    } else {
        assert(mapped.last() == f(sorted.last()));
        if key_a(sorted.last()) >= key_a(item) {
            assert(sorted.push(item).map_values(f) =~= mapped.push(f(item)));
        } else {
            lemma_insert_descending_map(sorted.drop_last(), item, f, key_a, key_b);
            assert(mapped.drop_last() =~= sorted.drop_last().map_values(f));
            assert(insert_descending(sorted.drop_last(), item, key_a).push(
                sorted.last(),
            ).map_values(f) =~= insert_descending(sorted.drop_last(), item, key_a).map_values(
                f,
            ).push(f(sorted.last())));
        }
    }
}

/// Mapping the elements commutes with the stable sort when the key of an
/// image equals the key of its element.
pub(crate) proof fn lemma_sort_descending_by_map<A, B>(
    items: Seq<A>,
    f: spec_fn(A) -> B,
    key_a: spec_fn(A) -> int,
    key_b: spec_fn(B) -> int,
)
    requires
        forall|x: A| #[trigger] key_b(f(x)) == key_a(x),
    ensures
        sort_descending_by(items, key_a).map_values(f) == sort_descending_by(
            items.map_values(f),
            key_b,
        ),
    decreases items.len(),
{
    let mapped = items.map_values(f);
    if items.len() == 0 {
        assert(sort_descending_by(items, key_a).map_values(f) =~= sort_descending_by(
            mapped,
            key_b,
        ));
    } else {
        lemma_sort_descending_by_map(items.drop_last(), f, key_a, key_b);
        lemma_insert_descending_map(
            sort_descending_by(items.drop_last(), key_a),
            items.last(),
            f,
            key_a,
            key_b,
        );
        assert(mapped.drop_last() =~= items.drop_last().map_values(f));
        assert(mapped.last() == f(items.last()));
    }
}

/// The stable insertion only adds the inserted element: the contents as a
/// multiset gain exactly that element.
pub(crate) proof fn lemma_insert_descending_permutes<A>(sorted: Seq<A>, item: A, key: spec_fn(A) -> int)
    ensures
        insert_descending(sorted, item, key).to_multiset() == sorted.to_multiset().insert(item),
    decreases sorted.len(),
{
    broadcast use vstd::seq_lib::group_to_multiset_ensures;

    if sorted.len() == 0 {
        assert(seq![item] =~= Seq::<A>::empty().push(item));
        assert(seq![item].to_multiset() =~= sorted.to_multiset().insert(item));
    } else if key(sorted.last()) >= key(item) {
    } else {
        lemma_insert_descending_permutes(sorted.drop_last(), item, key);
        assert(sorted.drop_last().push(sorted.last()) =~= sorted);
        assert(insert_descending(sorted.drop_last(), item, key).push(
            sorted.last(),
        ).to_multiset() =~= sorted.to_multiset().insert(item));
    }
}

/// The stable descending sort is a permutation: it returns exactly the
/// input elements, as a multiset.
pub proof fn lemma_sort_descending_by_permutes<A>(items: Seq<A>, key: spec_fn(A) -> int)
    ensures
        sort_descending_by(items, key).to_multiset() == items.to_multiset(),
    decreases items.len(),
{
    broadcast use vstd::seq_lib::group_to_multiset_ensures;

    if items.len() == 0 {
        assert(sort_descending_by(items, key).to_multiset() =~= items.to_multiset());
    } else {
        lemma_sort_descending_by_permutes(items.drop_last(), key);
        lemma_insert_descending_permutes(
            sort_descending_by(items.drop_last(), key),
            items.last(),
            key,
        );
        assert(items.drop_last().push(items.last()) =~= items);
    }
}

/// A bound on every weight survives a permutation of the items.
pub(crate) proof fn lemma_weight_bound_permutation<A>(
    s1: Seq<(int, A)>,
    s2: Seq<(int, A)>,
    bound: int,
)
    requires
        s1.to_multiset() == s2.to_multiset(),
    ensures
        (forall|k: int| 0 <= k < s1.len() ==> (#[trigger] s1[k]).0 <= bound) <==> (forall|k: int|
            0 <= k < s2.len() ==> (#[trigger] s2[k]).0 <= bound),
{
    broadcast use vstd::seq_lib::group_to_multiset_ensures;

    if forall|k: int| 0 <= k < s1.len() ==> (#[trigger] s1[k]).0 <= bound {
        assert forall|k: int| 0 <= k < s2.len() implies (#[trigger] s2[k]).0 <= bound by {
            assert(s2.to_multiset().count(s2[k]) > 0);
            assert(s1.contains(s2[k]));
        }
    }
    if forall|k: int| 0 <= k < s2.len() ==> (#[trigger] s2[k]).0 <= bound {
        assert forall|k: int| 0 <= k < s1.len() implies (#[trigger] s1[k]).0 <= bound by {
            assert(s1.to_multiset().count(s1[k]) > 0);
            assert(s2.contains(s1[k]));
        }
    }
}

} // verus!
