mod first_fit;
mod next_fit;

pub use first_fit::first_fit;
pub use next_fit::next_fit;

use crate::errors::Error;
use crate::model::bin_items;
use crate::model::bin_load;
use crate::model::bins_contents;
use crate::model::insert_descending;
use crate::model::lemma_insert_descending_at;
use crate::model::lemma_sort_descending_by_map;
use crate::model::lemma_sort_descending_by_permutes;
use crate::model::lemma_weight_bound_permutation;
use crate::model::pack_first_fit_decreasing;
use crate::model::sort_descending_by;
use crate::models;
use crate::Weighted;
use vstd::prelude::*;

verus! {

/// Internal accumulator for one bin: its fixed capacity, the current load,
/// and the references of the items placed in it, in placement order.
pub(crate) struct Bin<'a, T> {
    pub capacity: usize,
    pub load: usize,
    pub contents: Vec<&'a T>,
}

impl<'a, T> Bin<'a, T> {
    /// An empty bin: the placeholder next-fit starts from.
    pub(crate) fn with_capacity(capacity: usize) -> (bin: Bin<'a, T>)
        ensures
            bin.capacity == capacity,
            bin.load == 0,
            bin.contents@ == Seq::<&'a T>::empty(),
    {
        Bin { capacity, load: 0, contents: Vec::new() }
    }

    /// A bin opened for an item no open bin had room for.
    pub(crate) fn new_from_item<W: Weighted<'a, T>>(capacity: usize, item: &W) -> (bin: Bin<
        'a,
        T,
    >)
        requires
            item.spec_weight() <= capacity,
        ensures
            bin.capacity == capacity,
            bin.load == item.spec_weight(),
            bin.contents@ == seq![item.spec_reference()],
    {
        Bin { capacity, load: item.weight(), contents: vec![item.reference()] }
    }

    /// Whether the item's weight still fits beside the current load.
    pub(crate) fn has_room_for<W: Weighted<'a, T>>(&self, item: &W) -> (room: bool)
        requires
            self.load <= self.capacity,
        ensures
            room == (self.load + item.spec_weight() <= self.capacity),
    {
        item.weight() <= self.capacity - self.load
    }

    /// Append the item. The caller has already established that it fits;
    /// violating that is an internal defect, not a runtime error.
    pub(crate) fn add<W: Weighted<'a, T>>(&mut self, item: &W)
        requires
            old(self).load + item.spec_weight() <= old(self).capacity,
        ensures
            final(self).capacity == old(self).capacity,
            final(self).load == old(self).load + item.spec_weight(),
            final(self).contents@ == old(self).contents@.push(item.spec_reference()),
    {
        self.load = self.load + item.weight();
        self.contents.push(item.reference());
    }
}

/// The executable bins realise the model bins: same count, and bin by bin
/// the given capacity, the model load, and the model references.
pub(crate) open spec fn bins_match<'a, T>(
    ebins: Seq<Bin<'a, T>>,
    sbins: Seq<Seq<(int, &'a T)>>,
    capacity: int,
) -> bool {
    &&& ebins.len() == sbins.len()
    &&& forall|k: int|
        0 <= k < ebins.len() ==> {
            &&& (#[trigger] ebins[k]).capacity == capacity
            &&& ebins[k].load == bin_load(sbins[k])
            &&& ebins[k].load <= capacity
            &&& ebins[k].contents@ == bin_items(sbins[k])
        }
}

/// The views of returned bins, bin by bin: the shape the contracts compare
/// against the model.
pub open spec fn vec_views<'a, T>(bins: Seq<Vec<&'a T>>) -> Seq<Seq<&'a T>> {
    bins.map_values(|bin: Vec<&'a T>| bin@)
}

/// Strip the accumulators down to their contents, in bin order.
pub(crate) fn extract_contents<'a, T>(
    bins: Vec<Bin<'a, T>>,
    Ghost(sbins): Ghost<Seq<Seq<(int, &'a T)>>>,
    Ghost(capacity): Ghost<int>,
) -> (out: Vec<Vec<&'a T>>)
    requires
        bins_match(bins@, sbins, capacity),
    ensures
        vec_views(out@) == bins_contents(sbins),
{
    let mut bins = bins;
    let mut out: Vec<Vec<&'a T>> = Vec::new();
    while bins.len() > 0
        invariant
            out@.len() + bins@.len() == sbins.len(),
            bins_match(bins@, sbins.skip(out@.len() as int), capacity),
            vec_views(out@) == bins_contents(sbins).take(out@.len() as int),
        decreases bins@.len(),
    {
        let ghost k = out@.len() as int;
        let ghost old_bins = bins@;
        let bin = bins.remove(0);
        proof {
            assert(bin == old_bins[0]);
            assert(sbins.skip(k)[0] == sbins[k]);
            assert(bin.contents@ == bin_items(sbins[k]));
            assert(bins@ =~= old_bins.drop_first());
        }
        out.push(bin.contents);
        proof {
            assert(sbins.skip(k).drop_first() =~= sbins.skip(k + 1));
            assert forall|j: int| 0 <= j < bins@.len() implies {
                &&& (#[trigger] bins@[j]).capacity == capacity
                &&& bins@[j].load == bin_load(sbins.skip(k + 1)[j])
                &&& bins@[j].load <= capacity
                &&& bins@[j].contents@ == bin_items(sbins.skip(k + 1)[j])
            } by {
                assert(bins@[j] == old_bins[j + 1]);
                assert(sbins.skip(k + 1)[j] == sbins.skip(k)[j + 1]);
            }
            assert(bins_contents(sbins)[k] == bin_items(sbins[k]));
            assert(vec_views(out@) =~= bins_contents(sbins).take(k + 1));
        }
    }
    proof {
        assert(vec_views(out@) =~= bins_contents(sbins));
    }
    out
}

/// Sorts the input by descending weight and keeps equal-weight items in
/// their original relative order: a stable insertion sort, each item placed
/// after the equal-weight items that arrived before it.
#[must_use]
pub fn sort_descending<'a, T, R: Weighted<'a, T>>(items: Vec<R>) -> (sorted: Vec<R>)
    ensures
        sorted@ == sort_descending_by(items@, |item: R| item.spec_weight() as int),
{
    let ghost orig = items@;
    let mut rest = items;
    let mut sorted: Vec<R> = Vec::new();
    while rest.len() > 0
        invariant
            rest@.len() <= orig.len(),
            rest@ == orig.skip(orig.len() - rest@.len()),
            sorted@ == sort_descending_by(
                orig.take(orig.len() - rest@.len()),
                |item: R| item.spec_weight() as int,
            ),
        decreases rest@.len(),
    {
        let ghost done = orig.len() - rest@.len();
        let ghost prev_sorted = sorted@;
        let ghost prev_rest = rest@;
        let item = rest.remove(0);
        proof {
            assert(0 <= done < orig.len());
            assert(prev_rest == orig.skip(done));
            assert(item == prev_rest[0]);
            assert(orig.skip(done)[0] == orig[done]);
            assert(rest@ == prev_rest.remove(0));
            assert(rest@ =~= orig.skip(done + 1));
        }
        let w = item.weight();
        let mut pos: usize = sorted.len();
        loop
            invariant
                pos <= sorted@.len(),
                sorted@ == prev_sorted,
                w == item.spec_weight(),
                forall|k: int|
                    pos <= k < sorted@.len() ==> (#[trigger] sorted@[k]).spec_weight() < w,
            ensures
                pos <= sorted@.len(),
                sorted@ == prev_sorted,
                forall|k: int|
                    pos <= k < sorted@.len() ==> (#[trigger] sorted@[k]).spec_weight() < w,
                pos > 0 ==> sorted@[pos - 1].spec_weight() >= w,
            decreases pos,
        {
            if pos == 0 {
                break ;
            }
            let prev = &sorted[pos - 1];
            if prev.weight() >= w {
                break ;
            }
            pos = pos - 1;
        }
        sorted.insert(pos, item);
        proof {
            let key = |it: R| it.spec_weight() as int;
            lemma_insert_descending_at(prev_sorted, item, key, pos as int);
            assert(sorted@ == insert_descending(prev_sorted, item, key));
            assert(orig.take(done + 1).drop_last() =~= orig.take(done));
            assert(orig.take(done + 1).last() == orig[done]);
        }
    }
    proof {
        assert(orig.take(orig.len() as int) =~= orig);
    }
    sorted
}

/// Sorts the input in descending weight order (stable on ties) and then
/// applies `first_fit`: the first-fit-decreasing policy. The bins are
/// exactly `pack_first_fit_decreasing` over the items' weights and
/// references.
///
/// # Errors
/// Returns `Err` exactly when some item's weight exceeds `capacity`; no
/// partial packing is returned.
pub fn first_fit_decreasing<'a, T, R: Weighted<'a, T>>(capacity: usize, items: Vec<R>) -> (result:
    Result<Vec<Vec<&'a T>>, Error>)
    ensures
        match result {
            Ok(bins) => {
                &&& forall|k: int|
                    0 <= k < models(items@).len() ==> (#[trigger] models(items@)[k]).0 <= capacity
                &&& vec_views(bins@) == bins_contents(
                    pack_first_fit_decreasing(capacity as int, models(items@)),
                )
            },
            Err(e) => {
                &&& e == Error::ItemTooLargeError
                &&& exists|k: int|
                    0 <= k < models(items@).len() && (#[trigger] models(items@)[k]).0 > capacity
            },
        },
{
    let ghost m = models(items@);
    let sorted = sort_descending(items);
    proof {
        let f = |r: R| (r.spec_weight() as int, r.spec_reference());
        let key_r = |item: R| item.spec_weight() as int;
        let key_pair = |item: (int, &'a T)| item.0;
        lemma_sort_descending_by_map(items@, f, key_r, key_pair);
        assert(models(sorted@) == sort_descending_by(m, key_pair));
        lemma_sort_descending_by_permutes(m, key_pair);
        lemma_weight_bound_permutation(m, sort_descending_by(m, key_pair), capacity as int);
    }
    first_fit(capacity, sorted)
}

} // verus!
