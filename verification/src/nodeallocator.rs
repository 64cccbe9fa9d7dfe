//! Where the nodes of a tree come from.

use vstd::prelude::*;

verus! {

/// A store that makes room for one more node and says where it put it.
pub trait NodeAllocator {
    /// What a node holds.
    type Key;

    /// The number of nodes that were allocated.
    spec fn count(&self) -> nat;

    /// The key of the node that was allocated as number `index`.
    spec fn key_of(&self, index: int) -> Self::Key;

    /// Allocates a node without children for `key` and returns its index.
    fn new_child(&mut self, key: Self::Key) -> (index: usize)
        ensures
            index == old(self).count(),
            final(self).count() == old(self).count() + 1,
            final(self).key_of(index as int) == key,
            forall|i: int| 0 <= i < old(self).count() ==> final(self).key_of(i) == old(self).key_of(i),
    ;
}

} // verus!
