use crate::WeightedReference;
use vstd::prelude::*;

verus! {

/// Default conversion into a `WeightedReference` for a numeric reference:
/// the value is its own weight.
impl<'a> From<&'a u8> for WeightedReference<'a, u8> {
    fn from(source: &'a u8) -> (result: WeightedReference<'a, u8>) {
        WeightedReference { weight: *source as usize, reference: source }
    }
}

impl<'a> vstd::std_specs::convert::FromSpecImpl<&'a u8> for WeightedReference<'a, u8> {
    open spec fn obeys_from_spec() -> bool {
        true
    }

    open spec fn from_spec(source: &'a u8) -> WeightedReference<'a, u8> {
        WeightedReference { weight: *source as usize, reference: source }
    }
}

/// Default conversion into a `WeightedReference` for a numeric reference:
/// the value is its own weight.
impl<'a> From<&'a u16> for WeightedReference<'a, u16> {
    fn from(source: &'a u16) -> (result: WeightedReference<'a, u16>) {
        WeightedReference { weight: *source as usize, reference: source }
    }
}

impl<'a> vstd::std_specs::convert::FromSpecImpl<&'a u16> for WeightedReference<'a, u16> {
    open spec fn obeys_from_spec() -> bool {
        true
    }

    open spec fn from_spec(source: &'a u16) -> WeightedReference<'a, u16> {
        WeightedReference { weight: *source as usize, reference: source }
    }
}

/// Default conversion into a `WeightedReference` for a numeric reference:
/// the value is its own weight.
impl<'a> From<&'a usize> for WeightedReference<'a, usize> {
    fn from(source: &'a usize) -> (result: WeightedReference<'a, usize>) {
        WeightedReference { weight: *source, reference: source }
    }
}

impl<'a> vstd::std_specs::convert::FromSpecImpl<&'a usize> for WeightedReference<'a, usize> {
    open spec fn obeys_from_spec() -> bool {
        true
    }

    open spec fn from_spec(source: &'a usize) -> WeightedReference<'a, usize> {
        WeightedReference { weight: *source, reference: source }
    }
}

impl<'a> WeightedReference<'a, u8> {
    /// Build the weighted view of a sequence of numeric references: each
    /// element weighs its own value and keeps its own reference, so
    /// converting the same source twice gives the same weights and the same
    /// references.
    pub fn collect_from(source: Vec<&'a u8>) -> (weighted: Vec<WeightedReference<'a, u8>>)
        ensures
            weighted@.len() == source@.len(),
            forall|k: int|
                0 <= k < source@.len() ==> {
                    &&& (#[trigger] weighted@[k]).weight == *source@[k] as usize
                    &&& weighted@[k].reference == source@[k]
                },
    {
        let mut weighted: Vec<WeightedReference<'a, u8>> = Vec::new();
        let mut i: usize = 0;
        while i < source.len()
            invariant
                i <= source@.len(),
                weighted@.len() == i,
                forall|k: int|
                    0 <= k < i ==> {
                        &&& (#[trigger] weighted@[k]).weight == *source@[k] as usize
                        &&& weighted@[k].reference == source@[k]
                    },
            decreases source@.len() - i,
        {
            let item = source[i];
            weighted.push(WeightedReference::from(item));
            i += 1;
        }
        weighted
    }
}

impl<'a> WeightedReference<'a, u16> {
    /// Build the weighted view of a sequence of numeric references: each
    /// element weighs its own value and keeps its own reference.
    pub fn collect_from(source: Vec<&'a u16>) -> (weighted: Vec<WeightedReference<'a, u16>>)
        ensures
            weighted@.len() == source@.len(),
            forall|k: int|
                0 <= k < source@.len() ==> {
                    &&& (#[trigger] weighted@[k]).weight == *source@[k] as usize
                    &&& weighted@[k].reference == source@[k]
                },
    {
        let mut weighted: Vec<WeightedReference<'a, u16>> = Vec::new();
        let mut i: usize = 0;
        while i < source.len()
            invariant
                i <= source@.len(),
                weighted@.len() == i,
                forall|k: int|
                    0 <= k < i ==> {
                        &&& (#[trigger] weighted@[k]).weight == *source@[k] as usize
                        &&& weighted@[k].reference == source@[k]
                    },
            decreases source@.len() - i,
        {
            let item = source[i];
            weighted.push(WeightedReference::from(item));
            i += 1;
        }
        weighted
    }
}

impl<'a> WeightedReference<'a, usize> {
    /// Build the weighted view of a sequence of numeric references: each
    /// element weighs its own value and keeps its own reference.
    pub fn collect_from(source: Vec<&'a usize>) -> (weighted: Vec<WeightedReference<'a, usize>>)
        ensures
            weighted@.len() == source@.len(),
            forall|k: int|
                0 <= k < source@.len() ==> {
                    &&& (#[trigger] weighted@[k]).weight == *source@[k]
                    &&& weighted@[k].reference == source@[k]
                },
    {
        let mut weighted: Vec<WeightedReference<'a, usize>> = Vec::new();
        let mut i: usize = 0;
        while i < source.len()
            invariant
                i <= source@.len(),
                weighted@.len() == i,
                forall|k: int|
                    0 <= k < i ==> {
                        &&& (#[trigger] weighted@[k]).weight == *source@[k]
                        &&& weighted@[k].reference == source@[k]
                    },
            decreases source@.len() - i,
        {
            let item = source[i];
            weighted.push(WeightedReference::from(item));
            i += 1;
        }
        weighted
    }
}

} // verus!
