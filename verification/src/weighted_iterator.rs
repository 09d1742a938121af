use crate::WeightedReference;
use vstd::prelude::*;

verus! {

/// Weight a sequence of references with a caller-supplied weight function:
/// each element is paired with the weight the function computes for it, and
/// keeps its own reference.
pub fn to_weighted<'a, T, F: Fn(&'a T) -> usize>(items: Vec<&'a T>, weight_fn: F) -> (weighted:
    Vec<WeightedReference<'a, T>>)
    requires
        forall|k: int| 0 <= k < items@.len() ==> weight_fn.requires((#[trigger] items@[k],)),
    ensures
        weighted@.len() == items@.len(),
        forall|k: int|
            0 <= k < items@.len() ==> {
                &&& (#[trigger] weighted@[k]).reference == items@[k]
                &&& weight_fn.ensures((items@[k],), weighted@[k].weight)
            },
{
    let mut weighted: Vec<WeightedReference<'a, T>> = Vec::new();
    let mut i: usize = 0;
    while i < items.len()
        invariant
            i <= items@.len(),
            weighted@.len() == i,
            forall|k: int| 0 <= k < items@.len() ==> weight_fn.requires((#[trigger] items@[k],)),
            forall|k: int|
                0 <= k < i ==> {
                    &&& (#[trigger] weighted@[k]).reference == items@[k]
                    &&& weight_fn.ensures((items@[k],), weighted@[k].weight)
                },
        decreases items@.len() - i,
    {
        let item = items[i];
        let weight = weight_fn(item);
        weighted.push(WeightedReference { weight, reference: item });
        i += 1;
    }
    weighted
}

} // verus!
