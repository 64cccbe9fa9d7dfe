//! What a node of a tree can be asked, however it is stored.

use crate::Dist;
use vstd::prelude::*;

verus! {

/// A node: a key, and children that are found by their distance from it.
/// A child is named by its index in the tree that the node belongs to.
pub trait BkNode {
    /// What the node holds.
    type Key;

    /// The children of the node: the slot and the index of each.
    spec fn kids(&self) -> Seq<(Dist, usize)>;

    /// The key of the node.
    spec fn spec_key(&self) -> Self::Key;

    /// The key of the node.
    fn key(&self) -> (key: &Self::Key)
        ensures
            *key == self.spec_key(),
    ;

    /// Whether the node has a child at distance `dist`.
    fn has_child_at(&self, dist: Dist) -> (has: bool)
        ensures
            has == exists|k: int| 0 <= k < self.kids().len() && (#[trigger] self.kids()[k]).0 == dist,
    ;

    /// The child at distance `dist`, if there is one.
    fn child_at(&self, dist: Dist) -> (child: Option<usize>)
        ensures
            child is Some ==> self.kids().contains((dist, child->Some_0)),
            child is None ==> forall|k: int|
                0 <= k < self.kids().len() ==> (#[trigger] self.kids()[k]).0 != dist,
    ;

    /// The children of the node, the one in the farthest slot first.
    fn children_vector(&self) -> (children: Vec<(Dist, usize)>)
        ensures
            children@ == self.kids(),
    ;
}

/// A node that can be given children.
pub trait BkNodeMut: BkNode {
    /// Puts the node with index `child` in the slot `dist`, which is empty.
    fn set_child_node(&mut self, dist: Dist, child: usize)
        requires
            dist < usize::MAX,
            forall|k: int| 0 <= k < old(self).kids().len() ==> (#[trigger] old(self).kids()[k]).0 != dist,
        ensures
            final(self).spec_key() == old(self).spec_key(),
            final(self).kids().contains((dist, child)),
            forall|e: (Dist, usize)|
                final(self).kids().contains(e) <==> e == (dist, child) || old(self).kids().contains(
                    e,
                ),
    ;
}

} // verus!
