use crate::algorithms::bins_match;
use crate::algorithms::extract_contents;
use crate::algorithms::vec_views;
use crate::algorithms::Bin;
use crate::errors::Error;
use crate::model::bin_items;
use crate::model::bin_load;
use crate::model::bins_contents;
use crate::model::lemma_bin_load_push;
use crate::model::lemma_bin_load_singleton;
use crate::model::lemma_place_first_fit_append;
use crate::model::lemma_place_first_fit_at;
use crate::model::pack_first_fit;
use crate::model::place_first_fit;
use crate::models;
use crate::Weighted;
use vstd::prelude::*;

verus! {

/// Place one item by the first-fit rule: scan the open bins in creation
/// order, join the first with room, or open a new final bin.
fn place_item<'a, T, R: Weighted<'a, T>>(
    bins: &mut Vec<Bin<'a, T>>,
    capacity: usize,
    item: &R,
    Ghost(sbins): Ghost<Seq<Seq<(int, &'a T)>>>,
)
    requires
        item.spec_weight() <= capacity,
        bins_match(old(bins)@, sbins, capacity as int),
    ensures
        bins_match(
            final(bins)@,
            place_first_fit(
                sbins,
                capacity as int,
                (item.spec_weight() as int, item.spec_reference()),
            ),
            capacity as int,
        ),
{
    let ghost it = (item.spec_weight() as int, item.spec_reference());
    let mut j: usize = 0;
    while j < bins.len()
        invariant
            item.spec_weight() <= capacity,
            bins_match(bins@, sbins, capacity as int),
            j <= bins@.len(),
            forall|k: int| 0 <= k < j ==> bin_load(#[trigger] sbins[k]) + it.0 > capacity,
            it == (item.spec_weight() as int, item.spec_reference()),
        decreases bins@.len() - j,
    {
        assert(bins@[j as int].load <= capacity);
        let room = bins[j].has_room_for(item);
        if room {
            let ghost old_bins = bins@;
            let bin = &mut bins[j];
            bin.add(item);
            proof {
                lemma_place_first_fit_at(sbins, capacity as int, it, j as int);
                lemma_bin_load_push(sbins[j as int], it);
                let placed = sbins.update(j as int, sbins[j as int].push(it));
                assert(bins@ =~= old_bins.update(j as int, bins@[j as int]));
                assert(bins@[j as int].contents@ =~= bin_items(placed[j as int]));
                assert forall|k: int| 0 <= k < bins@.len() implies {
                    &&& (#[trigger] bins@[k]).capacity == capacity as int
                    &&& bins@[k].load == bin_load(placed[k])
                    &&& bins@[k].load <= capacity as int
                    &&& bins@[k].contents@ == bin_items(placed[k])
                } by {
                    if k != j {
                        assert(bins@[k] == old_bins[k]);
                        assert(placed[k] == sbins[k]);
                    }
                }
            }
            return;
        }
        j += 1;
    }
    let bin = Bin::new_from_item(capacity, item);
    bins.push(bin);
    proof {
        lemma_place_first_fit_append(sbins, capacity as int, it);
        let placed = sbins.push(seq![it]);
        lemma_bin_load_singleton(it);
        assert(bin.contents@ =~= bin_items(seq![it]));
        assert forall|k: int| 0 <= k < bins@.len() implies {
            &&& (#[trigger] bins@[k]).capacity == capacity as int
            &&& bins@[k].load == bin_load(placed[k])
            &&& bins@[k].load <= capacity as int
            &&& bins@[k].contents@ == bin_items(placed[k])
        } by {
            if k < bins@.len() - 1 {
                assert(placed[k] == sbins[k]);
            }
        }
    }
}

/// Keeps all bins open. Places each item, in input order, into the first bin
/// with room, scanning the bins in the order they were created. If no bin
/// has room, a new bin is opened and placed at the end of the list; no bin
/// is ever closed early. The result holds the bins in creation order, each
/// bin its items in assignment order: exactly `pack_first_fit` over the
/// items' weights and references.
///
/// # Errors
/// Returns `Err` exactly when some item's weight exceeds `capacity`; no
/// partial packing is returned.
pub fn first_fit<'a, T, R: Weighted<'a, T>>(capacity: usize, items: Vec<R>) -> (result: Result<
    Vec<Vec<&'a T>>,
    Error,
>)
    ensures
        match result {
            Ok(bins) => {
                &&& forall|k: int|
                    0 <= k < models(items@).len() ==> (#[trigger] models(items@)[k]).0 <= capacity
                &&& vec_views(bins@) == bins_contents(
                    pack_first_fit(capacity as int, models(items@)),
                )
            },
            Err(e) => {
                &&& e == Error::ItemTooLargeError
                &&& exists|k: int|
                    0 <= k < models(items@).len() && (#[trigger] models(items@)[k]).0 > capacity
            },
        },
{
    let ghost m = models(items@);
    let mut bins: Vec<Bin<'a, T>> = Vec::new();
    let n = items.len();
    let mut i: usize = 0;
    while i < n
        invariant
            n == items@.len(),
            i <= n,
            m == models(items@),
            forall|k: int| 0 <= k < i ==> (#[trigger] m[k]).0 <= capacity,
            bins_match(bins@, pack_first_fit(capacity as int, m.take(i as int)), capacity as int),
        decreases n - i,
    {
        let item = &items[i];
        let w = item.weight();
        if w > capacity {
            proof {
                assert(m[i as int].0 > capacity);
            }
            return Err(Error::ItemTooLargeError);
        }
        let ghost prefix = pack_first_fit(capacity as int, m.take(i as int));
        place_item(&mut bins, capacity, item, Ghost(prefix));
        proof {
            assert(m.take(i + 1).drop_last() =~= m.take(i as int));
            assert(m.take(i + 1).last() == m[i as int]);
            assert(m[i as int] == (item.spec_weight() as int, item.spec_reference()));
            assert(pack_first_fit(capacity as int, m.take(i + 1)) == place_first_fit(
                prefix,
                capacity as int,
                m[i as int],
            ));
        }
        i += 1;
    }
    proof {
        assert(m.take(n as int) =~= m);
    }
    Ok(extract_contents(bins, Ghost(pack_first_fit(capacity as int, m)), Ghost(capacity as int)))
}

} // verus!
