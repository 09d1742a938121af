use crate::algorithms;
use crate::algorithms::vec_views;
use crate::errors::Error;
use crate::model::bins_contents;
use crate::model::pack_first_fit;
use crate::model::pack_first_fit_decreasing;
use crate::models;
use crate::Weighted;
use vstd::prelude::*;

verus! {

/// Trait allowing packing functions to be called on the collection itself.
pub trait PackingAlgorithms<'a, T>: Sized {
    /// The abstract weights and references of the collection's items, in
    /// order.
    spec fn wmodel(self) -> Seq<(int, &'a T)>;

    /// Pack the collection with the first-fit policy.
    fn first_fit(self, capacity: usize) -> (result: Result<Vec<Vec<&'a T>>, Error>)
        ensures
            match result {
                Ok(bins) => {
                    &&& forall|k: int|
                        0 <= k < self.wmodel().len() ==> (#[trigger] self.wmodel()[k]).0
                            <= capacity
                    &&& vec_views(bins@) == bins_contents(
                        pack_first_fit(capacity as int, self.wmodel()),
                    )
                },
                Err(e) => {
                    &&& e == Error::ItemTooLargeError
                    &&& exists|k: int|
                        0 <= k < self.wmodel().len() && (#[trigger] self.wmodel()[k]).0 > capacity
                },
            },
    ;

    /// Pack the collection with the first-fit-decreasing policy.
    fn first_fit_decreasing(self, capacity: usize) -> (result: Result<Vec<Vec<&'a T>>, Error>)
        ensures
            match result {
                Ok(bins) => {
                    &&& forall|k: int|
                        0 <= k < self.wmodel().len() ==> (#[trigger] self.wmodel()[k]).0
                            <= capacity
                    &&& vec_views(bins@) == bins_contents(
                        pack_first_fit_decreasing(capacity as int, self.wmodel()),
                    )
                },
                Err(e) => {
                    &&& e == Error::ItemTooLargeError
                    &&& exists|k: int|
                        0 <= k < self.wmodel().len() && (#[trigger] self.wmodel()[k]).0 > capacity
                },
            },
    ;
}

/// Blanket implementation for vectors of `Weighted` items.
impl<'a, T, R: Weighted<'a, T>> PackingAlgorithms<'a, T> for Vec<R> {
    open spec fn wmodel(self) -> Seq<(int, &'a T)> {
        models(self@)
    }

    fn first_fit(self, capacity: usize) -> (result: Result<Vec<Vec<&'a T>>, Error>) {
        let ghost collection = self;
        let result = algorithms::first_fit(capacity, self);
        proof {
            if result is Err {
                let k = choose|k: int|
                    0 <= k < models(collection@).len() && (#[trigger] models(collection@)[k]).0
                        > capacity;
                assert(0 <= k < collection.wmodel().len() && collection.wmodel()[k].0 > capacity);
            }
        }
        result
    }

    fn first_fit_decreasing(self, capacity: usize) -> (result: Result<Vec<Vec<&'a T>>, Error>) {
        let ghost collection = self;
        let result = algorithms::first_fit_decreasing(capacity, self);
        proof {
            if result is Err {
                let k = choose|k: int|
                    0 <= k < models(collection@).len() && (#[trigger] models(collection@)[k]).0
                        > capacity;
                assert(0 <= k < collection.wmodel().len() && collection.wmodel()[k].0 > capacity);
            }
        }
        result
    }
}

} // verus!
