use vstd::prelude::*;

verus! {

/// The single failure condition shared by all packing algorithms: an item's
/// weight strictly exceeds the bin capacity, so no packing exists at all.
/// The whole call fails; no partial bin list is produced.
#[derive(Debug, Clone, PartialEq, Eq, Structural)]
pub enum Error {
    ItemTooLargeError,
}

} // verus!
