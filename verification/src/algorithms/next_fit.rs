use crate::algorithms::bins_match;
use crate::algorithms::extract_contents;
use crate::algorithms::vec_views;
use crate::algorithms::Bin;
use crate::errors::Error;
use crate::model::bin_items;
use crate::model::bin_load;
use crate::model::bins_contents;
use crate::model::lemma_bin_load_push;
use crate::model::lemma_bin_load_singleton;
use crate::model::next_fit_state;
use crate::model::pack_next_fit;
use crate::models;
use crate::Weighted;
use vstd::prelude::*;

verus! {

/// There is one bin open at a time. Each item is placed into that bin until
/// an item does not fit; then the bin is closed, a new bin is opened with
/// the item, and the process continues. A placeholder bin that never
/// received an item is discarded, so an empty input yields no bins. The
/// result holds the bins in creation order, each bin its items in
/// assignment order: exactly `pack_next_fit` over the items' weights and
/// references.
///
/// # Errors
/// Returns `Err` exactly when some item's weight exceeds `capacity`; no
/// partial packing is returned.
pub fn next_fit<'a, T, R: Weighted<'a, T>>(capacity: usize, items: Vec<R>) -> (result: Result<
    Vec<Vec<&'a T>>,
    Error,
>)
    ensures
        match result {
            Ok(bins) => {
                &&& forall|k: int|
                    0 <= k < models(items@).len() ==> (#[trigger] models(items@)[k]).0 <= capacity
                &&& vec_views(bins@) == bins_contents(
                    pack_next_fit(capacity as int, models(items@)),
                )
            },
            Err(e) => {
                &&& e == Error::ItemTooLargeError
                &&& exists|k: int|
                    0 <= k < models(items@).len() && (#[trigger] models(items@)[k]).0 > capacity
            },
        },
{
    let ghost m = models(items@);
    let mut bins: Vec<Bin<'a, T>> = Vec::new();
    let mut current_bin = Bin::with_capacity(capacity);
    let n = items.len();
    let mut i: usize = 0;
    while i < n
        invariant
            n == items@.len(),
            i <= n,
            m == models(items@),
            forall|k: int| 0 <= k < i ==> (#[trigger] m[k]).0 <= capacity,
            bins_match(
                bins@,
                next_fit_state(capacity as int, m.take(i as int)).0,
                capacity as int,
            ),
            current_bin.capacity == capacity,
            current_bin.load == bin_load(next_fit_state(capacity as int, m.take(i as int)).1),
            current_bin.load <= capacity,
            current_bin.contents@ == bin_items(next_fit_state(capacity as int, m.take(i as int)).1),
        decreases n - i,
    {
        let ghost st = next_fit_state(capacity as int, m.take(i as int));
        let item = &items[i];
        let w = item.weight();
        if w > capacity {
            proof {
                assert(m[i as int].0 > capacity);
            }
            return Err(Error::ItemTooLargeError);
        }
        let ghost it = (item.spec_weight() as int, item.spec_reference());
        proof {
            assert(m.take(i + 1).drop_last() =~= m.take(i as int));
            assert(m.take(i + 1).last() == m[i as int]);
            assert(m[i as int] == it);
        }
        let room = current_bin.has_room_for(item);
        if room {
            current_bin.add(item);
            proof {
                lemma_bin_load_push(st.1, it);
                assert(current_bin.contents@ =~= bin_items(st.1.push(it)));
                assert(next_fit_state(capacity as int, m.take(i + 1)) == (st.0, st.1.push(it)));
            }
        } else {
            let ghost old_bins = bins@;
            bins.push(current_bin);
            current_bin = Bin::new_from_item(capacity, item);
            proof {
                lemma_bin_load_singleton(it);
                assert(current_bin.contents@ =~= bin_items(seq![it]));
                assert(next_fit_state(capacity as int, m.take(i + 1)) == (
                    st.0.push(st.1),
                    seq![it],
                ));
                assert forall|k: int| 0 <= k < bins@.len() implies {
                    &&& (#[trigger] bins@[k]).capacity == capacity as int
                    &&& bins@[k].load == bin_load(st.0.push(st.1)[k])
                    &&& bins@[k].load <= capacity as int
                    &&& bins@[k].contents@ == bin_items(st.0.push(st.1)[k])
                } by {
                    if k < bins@.len() - 1 {
                        assert(bins@[k] == old_bins[k]);
                        assert(st.0.push(st.1)[k] == st.0[k]);
                    }
                }
            }
        }
        i += 1;
    }
    proof {
        assert(m.take(n as int) =~= m);
    }
    let ghost st = next_fit_state(capacity as int, m);
    let ghost packed = pack_next_fit(capacity as int, m);
    if current_bin.contents.len() > 0 {
        let ghost old_bins = bins@;
        bins.push(current_bin);
        proof {
            assert(st.1.len() > 0);
            assert(packed == st.0.push(st.1));
            assert forall|k: int| 0 <= k < bins@.len() implies {
                &&& (#[trigger] bins@[k]).capacity == capacity as int
                &&& bins@[k].load == bin_load(packed[k])
                &&& bins@[k].load <= capacity as int
                &&& bins@[k].contents@ == bin_items(packed[k])
            } by {
                if k < bins@.len() - 1 {
                    assert(bins@[k] == old_bins[k]);
                    assert(packed[k] == st.0[k]);
                }
            }
        }
    } else {
        proof {
            assert(st.1.len() == 0);
            assert(packed == st.0);
        }
    }
    Ok(extract_contents(bins, Ghost(packed), Ghost(capacity as int)))
}

} // verus!
