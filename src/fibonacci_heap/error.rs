use vstd::prelude::*;

verus! {

/// The conditions under which a heap operation is refused.
#[derive(Clone, Copy, PartialEq, Eq, Structural, Debug)]
pub enum HeapReferenceError {
    /// The heap holds no element.
    EmptyHeap,
    /// The new key is greater than the node's current key.
    KeyIncreaseRejected,
    /// The handle's node has already been removed.
    StaleHandle,
    /// The heap is already being mutated.
    RecursiveExclusiveAccess,
}

} // verus!
