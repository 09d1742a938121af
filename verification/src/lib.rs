//! Bin packing of weighted items into fixed-capacity bins: first-fit,
//! next-fit, and first-fit-decreasing. The algorithms never copy or mutate
//! the caller's items; they return references to them, nested in owned bin
//! lists, and each is proved to return exactly the packing that its
//! mathematical model describes.

pub mod algorithms;
pub mod errors;
pub mod laws;
pub mod model;
pub mod packing_algorithms_trait;
pub mod weighted_iterator;
pub mod weighted_reference;

use vstd::prelude::*;

verus! {

/// A weighted item: bin packing algorithms pack `Weighted` things into bins.
///
/// An implementation pairs a non-negative integral weight with a stable
/// reference to the underlying item; the reference stays usable after the
/// packing call returns. The weight is fixed for the whole call: the
/// algorithms only ever observe `spec_weight` and `spec_reference`.
pub trait Weighted<'a, T>: Sized {
    /// The weight the algorithms see, as a mathematical value.
    spec fn spec_weight(&self) -> usize;

    /// The reference the algorithms hand back, as a mathematical value.
    spec fn spec_reference(&self) -> &'a T;

    /// Weight of the item.
    fn weight(&self) -> (w: usize)
        ensures
            w == self.spec_weight(),
    ;

    /// Reference to the original item, valid beyond the packing call.
    fn reference(&self) -> (r: &'a T)
        ensures
            r == self.spec_reference(),
    ;
}

/// The abstract content of a sequence of weighted items: the weight and the
/// reference of each element, in input order. All algorithm contracts are
/// stated over this sequence of pairs.
pub open spec fn models<'a, T, R: Weighted<'a, T>>(items: Seq<R>) -> Seq<(int, &'a T)> {
    items.map_values(|r: R| (r.spec_weight() as int, r.spec_reference()))
}

/// A reference to a small unsigned integer weighs as much as its own value.
impl<'a> Weighted<'a, u8> for &'a u8 {
    open spec fn spec_weight(&self) -> usize {
        **self as usize
    }

    open spec fn spec_reference(&self) -> &'a u8 {
        *self
    }

    fn weight(&self) -> usize {
        **self as usize
    }

    fn reference(&self) -> &'a u8 {
        *self
    }
}

/// A reference to a small unsigned integer weighs as much as its own value.
impl<'a> Weighted<'a, u16> for &'a u16 {
    open spec fn spec_weight(&self) -> usize {
        **self as usize
    }

    open spec fn spec_reference(&self) -> &'a u16 {
        *self
    }

    fn weight(&self) -> usize {
        **self as usize
    }

    fn reference(&self) -> &'a u16 {
        *self
    }
}

/// A reference to a `usize` weighs as much as its own value.
impl<'a> Weighted<'a, usize> for &'a usize {
    open spec fn spec_weight(&self) -> usize {
        **self
    }

    open spec fn spec_reference(&self) -> &'a usize {
        *self
    }

    fn weight(&self) -> usize {
        **self
    }

    fn reference(&self) -> &'a usize {
        *self
    }
}

/// Allow arbitrary values to be `Weighted` by combining an externally
/// computed weight with a reference to the value.
pub struct WeightedReference<'a, T> {
    pub weight: usize,
    pub reference: &'a T,
}

impl<'a, T> Weighted<'a, T> for WeightedReference<'a, T> {
    open spec fn spec_weight(&self) -> usize {
        self.weight
    }

    open spec fn spec_reference(&self) -> &'a T {
        self.reference
    }

    fn weight(&self) -> usize {
        self.weight
    }

    fn reference(&self) -> &'a T {
        self.reference
    }
}

} // verus!
