//! The tree in memory: an arena of nodes, built key by key.

use crate::bknode::{BkNode, BkNodeMut};
use crate::bktree::find::{finds_exactly, BkFind};
use crate::bktree::preorder::{entries, BkPreOrder};
use crate::bktree::{BkTree, BkTreeAdd, Point};
use crate::error::BkError;
use crate::keyquery::KeyQuery;
use crate::metric::Metric;
use crate::nodeallocator::NodeAllocator;
use crate::shape::{
    added, chain_ok, grown, is_bk_tree, lemma_chain_frame, lemma_depth_frame, lemma_depth_le,
    lemma_way_down, same_below, Shape,
};
use crate::Dist;
use vstd::prelude::*;

verus! {

/// The child list that a vector of slots stands for: each occupied slot with
/// the child in it, the farthest slot first.
pub open spec fn child_list(slots: Seq<Option<usize>>) -> Seq<(Dist, usize)>
    decreases slots.len(),
{
    if slots.len() == 0 {
        Seq::empty()
    } else {
        let rest = child_list(slots.drop_last());
        match slots.last() {
            Some(c) => seq![((slots.len() - 1) as usize, c)] + rest,
            None => rest,
        }
    }
}

/// The child list holds the occupied slots, each once, in falling order.
pub proof fn lemma_child_list(slots: Seq<Option<usize>>)
    requires
        slots.len() <= usize::MAX,
    ensures
        forall|k: int|
            0 <= k < child_list(slots).len() ==> {
                let e = #[trigger] child_list(slots)[k];
                e.0 < slots.len() && slots[e.0 as int] == Some(e.1)
            },
        forall|d: int|
            0 <= d < slots.len() && (#[trigger] slots[d]) is Some ==> child_list(slots).contains(
                (d as usize, slots[d]->Some_0),
            ),
        forall|k1: int, k2: int|
            0 <= k1 < k2 < child_list(slots).len() ==> (#[trigger] child_list(slots)[k1]).0 > (
            #[trigger] child_list(slots)[k2]).0,
    decreases slots.len(),
{
    if slots.len() > 0 {
        let front = slots.drop_last();
        let rest = child_list(front);
        let all = child_list(slots);
        lemma_child_list(front);
        let shift: int = if slots.last() is Some {
            1
        } else {
            0
        };
        assert forall|k: int| shift <= k < all.len() implies all[k] == rest[k - shift] by {}
        assert forall|d: int| 0 <= d < slots.len() && (#[trigger] slots[d]) is Some implies all.contains(
            (d as usize, slots[d]->Some_0),
        ) by {
            if d < front.len() {
                assert(front[d] == slots[d]);
                let e = (d as usize, slots[d]->Some_0);
                assert(rest.contains(e));
                let k = choose|k: int| 0 <= k < rest.len() && rest[k] == e;
                assert(all[k + shift] == e);
            } else {
                assert(all[0] == (d as usize, slots[d]->Some_0));
            }
        }
        assert forall|k: int| 0 <= k < all.len() implies ({
            let e = #[trigger] all[k];
            e.0 < slots.len() && slots[e.0 as int] == Some(e.1)
        }) by {
            if k >= shift {
                let e = rest[k - shift];
                assert(front[e.0 as int] == slots[e.0 as int]);
            }
        }
        assert forall|k1: int, k2: int| 0 <= k1 < k2 < all.len() implies (#[trigger] all[k1]).0 > (
        #[trigger] all[k2]).0 by {
            let e2 = rest[k2 - shift];
            if k1 >= shift {
                let e1 = rest[k1 - shift];
            }
        }
    }
}

/// The slots `slots` with the child `child` in the slot `dist`, and with as
/// many empty slots more as it takes to have that slot.
pub open spec fn with_slot(slots: Seq<Option<usize>>, dist: Dist, child: usize) -> Seq<
    Option<usize>,
> {
    Seq::new(
        if slots.len() <= dist {
            (dist + 1) as nat
        } else {
            slots.len()
        },
        |d: int|
            if d == dist {
                Some(child)
            } else if d < slots.len() {
                slots[d]
            } else {
                None
            },
    )
}

/// A node of the tree in memory.  Its children are found by their distance
/// from it: slot `d` of the node holds the index of the child whose key is at
/// distance `d` from the node's key.  The slots grow on demand.
#[derive(Debug)]
pub struct BkInRam<K> {
    /// The key that the node holds.
    pub key: K,
    children: Vec<Option<usize>>,
    parent: usize,
    dist: Dist,
}

impl<K> BkInRam<K> {
    /// The slots of the node, which hold the indices of its children.
    pub closed spec fn slots(&self) -> Seq<Option<usize>> {
        self.children@
    }

    /// The index of the node's parent (`0` for a node that has none yet).
    pub closed spec fn spec_parent(&self) -> usize {
        self.parent
    }

    /// The distance between the node's key and its parent's.
    pub closed spec fn spec_dist(&self) -> Dist {
        self.dist
    }

    /// A node that holds `key` and has neither children nor a parent.
    pub fn new(key: K) -> (node: BkInRam<K>)
        ensures
            node.spec_key() == key,
            node.slots() == Seq::<Option<usize>>::empty(),
            node.spec_parent() == 0,
            node.spec_dist() == 0,
    {
        BkInRam { key, children: Vec::new(), parent: 0, dist: 0 }
    }

    /// The children of the node with their slots, the farthest first: a
    /// search looks at the last child first, and does better when that is
    /// the closest.
    pub fn children_iter(&self) -> (children: Vec<(Dist, usize)>)
        ensures
            children@ == child_list(self.slots()),
    {
        let mut out: Vec<(Dist, usize)> = Vec::new();
        let mut d: usize = self.children.len();
        assert(self.children@.subrange(0, d as int) =~= self.children@);
        while d > 0
            invariant
                d <= self.children.len(),
                out@ + child_list(self.children@.subrange(0, d as int)) == child_list(
                    self.children@,
                ),
            decreases d,
        {
            let ghost front = self.children@.subrange(0, d as int);
            d -= 1;
            assert(front.drop_last() =~= self.children@.subrange(0, d as int));
            match self.children[d] {
                Some(c) => {
                    assert(seq![(d, c)] + child_list(front.drop_last()) == child_list(front));
                    assert(out@.push((d, c)) + child_list(front.drop_last()) =~= out@ + (seq![
                        (d, c),
                    ] + child_list(front.drop_last())));
                    out.push((d, c));
                },
                None => {},
            }
        }
        assert(out@ + Seq::<(Dist, usize)>::empty() =~= out@);
        out
    }

    /// The number of children of the node.
    pub fn child_count(&self) -> (n: usize)
        ensures
            n == self.kids().len(),
    {
        let len: usize = self.children.len();
        let mut n: usize = 0;
        let mut i: usize = 0;
        assert(self.children@.subrange(0, 0) =~= Seq::empty());
        while i < len
            invariant
                i <= len,
                len == self.children@.len(),
                n <= i,
                n == child_list(self.children@.subrange(0, i as int)).len(),
            decreases len - i,
        {
            let ghost next = self.children@.subrange(0, i + 1);
            assert(next.drop_last() =~= self.children@.subrange(0, i as int));
            if self.children[i].is_some() {
                n += 1;
            }
            i += 1;
        }
        assert(self.children@.subrange(0, len as int) =~= self.children@);
        n
    }

    /// The children of a node are those in its slots, the farthest first.
    pub proof fn lemma_kids_of_slots(&self)
        ensures
            self.kids() == child_list(self.slots()),
    {
    }

    /// The farthest slot that holds a child, if the node has children.
    pub fn farthest_slot(&self) -> (r: Option<Dist>)
        ensures
            r is None <==> self.kids().len() == 0,
            r is Some ==> {
                &&& forall|k: int|
                    0 <= k < self.kids().len() ==> (#[trigger] self.kids()[k]).0 <= r->Some_0
                &&& exists|k: int|
                    0 <= k < self.kids().len() && (#[trigger] self.kids()[k]).0 == r->Some_0
            },
    {
        let len: usize = self.children.len();
        proof {
            lemma_child_list(self.children@);
        }
        let mut d: usize = len;
        while d > 0
            invariant
                d <= len,
                len == self.children@.len(),
                forall|e: int| d <= e < len ==> self.children@[e] is None,
            decreases d,
        {
            d -= 1;
            match self.children[d] {
                Some(c) => {
                    proof {
                        lemma_child_list(self.children@);
                        let list = self.kids();
                        assert(self.children@[d as int] is Some);
                        assert(list.contains((d, c)));
                        let at = choose|k: int| 0 <= k < list.len() && list[k] == (d, c);
                        assert(list[at].0 == d);
                        assert forall|k: int| 0 <= k < list.len() implies (#[trigger] list[k]).0
                            <= d by {
                            assert(self.children@[list[k].0 as int] is Some);
                        }
                    }
                    return Some(d);
                },
                None => {},
            }
        }
        proof {
            let list = self.kids();
            if list.len() > 0 {
                assert(self.children@[list[0].0 as int] is Some);
            }
        }
        None
    }

    /// Puts the node with index `child` in the slot `dist`, which grows the
    /// slots as far as needed.
    fn put_child(&mut self, dist: Dist, child: usize)
        requires
            dist < usize::MAX,
        ensures
            final(self).key == old(self).key,
            final(self).parent == old(self).parent,
            final(self).dist == old(self).dist,
            final(self).children@.len() == (if old(self).children@.len() <= dist {
                dist + 1
            } else {
                old(self).children@.len() as int
            }),
            forall|d: int|
                0 <= d < final(self).children@.len() ==> #[trigger] final(self).children@[d] == (
                if d == dist {
                    Some(child)
                } else if d < old(self).children@.len() {
                    old(self).children@[d]
                } else {
                    None
                }),
    {
        while self.children.len() <= dist
            invariant
                dist < usize::MAX,
                old(self).children@.len() <= self.children@.len(),
                self.children@.len() <= dist + 1 || self.children@.len() == old(
                    self,
                ).children@.len(),
                self.key == old(self).key,
                self.parent == old(self).parent,
                self.dist == old(self).dist,
                forall|d: int|
                    0 <= d < self.children@.len() ==> #[trigger] self.children@[d] == (if d < old(
                        self,
                    ).children@.len() {
                        old(self).children@[d]
                    } else {
                        None
                    }),
            decreases dist + 1 - self.children.len(),
        {
            self.children.push(None);
        }
        self.children[dist] = Some(child);
    }

    /// The distance between the node's key and its parent's: the slot of
    /// its parent that the node is in.
    pub fn dist(&self) -> (d: Dist)
        ensures
            d == self.spec_dist(),
    {
        self.dist
    }
}

impl<K> BkNode for BkInRam<K> {
    type Key = K;

    closed spec fn kids(&self) -> Seq<(Dist, usize)> {
        child_list(self.children@)
    }

    closed spec fn spec_key(&self) -> K {
        self.key
    }

    fn key(&self) -> (key: &K) {
        &self.key
    }

    fn has_child_at(&self, dist: Dist) -> (has: bool) {
        let len: usize = self.children.len();
        proof {
            lemma_child_list(self.children@);
        }
        if dist < len {
            match self.children[dist] {
                Some(c) => {
                    assert(self.kids().contains((dist, c)));
                    true
                },
                None => false,
            }
        } else {
            false
        }
    }

    fn child_at(&self, dist: Dist) -> (child: Option<usize>) {
        let len: usize = self.children.len();
        proof {
            lemma_child_list(self.children@);
        }
        if dist < len {
            self.children[dist]
        } else {
            None
        }
    }

    fn children_vector(&self) -> (children: Vec<(Dist, usize)>) {
        self.children_iter()
    }
}

impl<K> BkNodeMut for BkInRam<K> {
    fn set_child_node(&mut self, dist: Dist, child: usize)
        ensures
            final(self).slots() == with_slot(old(self).slots(), dist, child),
            final(self).spec_parent() == old(self).spec_parent(),
            final(self).spec_dist() == old(self).spec_dist(),
    {
        let len: usize = self.children.len();
        proof {
            lemma_child_list(self.children@);
        }
        self.put_child(dist, child);
        let len: usize = self.children.len();
        proof {
            assert(self.children@ =~= with_slot(old(self).children@, dist, child));
            lemma_child_list(self.children@);
            assert(self.children@[dist as int] is Some);
            assert forall|e: (Dist, usize)| self.kids().contains(e) implies e == (dist, child) || old(
                self,
            ).kids().contains(e) by {
                let k = choose|k: int| 0 <= k < self.kids().len() && self.kids()[k] == e;
                assert(self.children@[self.kids()[k].0 as int] == Some(e.1));
                if e.0 != dist {
                    assert(old(self).children@[e.0 as int] is Some);
                }
            }
            assert forall|e: (Dist, usize)| old(self).kids().contains(e) implies self.kids().contains(
                e,
            ) by {
                let k = choose|k: int| 0 <= k < old(self).kids().len() && old(self).kids()[k] == e;
                assert(old(self).children@[old(self).kids()[k].0 as int] == Some(e.1));
                assert(old(self).kids()[k].0 != dist);
                assert(self.children@[e.0 as int] is Some);
            }
        }
    }
}

/// The arena that holds the nodes of a tree in memory.  A node is named by
/// its index, and nodes are never removed.
#[derive(Debug)]
pub struct BkInRamAllocator<K> {
    nodes: Vec<BkInRam<K>>,
}

impl<K> BkInRamAllocator<K> {
    /// The nodes that were allocated, in order.
    pub closed spec fn nodes(&self) -> Seq<BkInRam<K>> {
        self.nodes@
    }

    /// An arena without nodes.
    pub fn new() -> (alloc: Self)
        ensures
            alloc.nodes().len() == 0,
    {
        BkInRamAllocator { nodes: Vec::new() }
    }

    /// The number of nodes that were allocated.
    pub fn len(&self) -> (n: usize)
        ensures
            n == self.nodes().len(),
    {
        self.nodes.len()
    }

    /// The node with index `index`.
    pub fn node(&self, index: usize) -> (node: &BkInRam<K>)
        requires
            index < self.nodes().len(),
        ensures
            *node == self.nodes()[index as int],
    {
        &self.nodes[index]
    }
}

impl<K> NodeAllocator for BkInRamAllocator<K> {
    type Key = K;

    closed spec fn count(&self) -> nat {
        self.nodes@.len()
    }

    closed spec fn key_of(&self, index: int) -> K {
        self.nodes@[index].key
    }

    fn new_child(&mut self, key: K) -> (index: usize)
        ensures
            final(self).nodes().len() == old(self).nodes().len() + 1,
            forall|i: int|
                0 <= i < old(self).nodes().len() ==> #[trigger] final(self).nodes()[i] == old(
                    self,
                ).nodes()[i],
            final(self).nodes().last().spec_key() == key,
            final(self).nodes().last().slots().len() == 0,
            final(self).nodes().last().spec_parent() == 0,
            final(self).nodes().last().spec_dist() == 0,
    {
        let index = self.nodes.len();
        self.nodes.push(BkInRam::new(key));
        index
    }
}

/// Whether the slots and the parent fields of the nodes agree: a node is in
/// the slot of its parent that its `dist` names, and a slot names a later
/// node that calls the slot's owner its parent.
#[verifier::opaque]
pub closed spec fn linked<K>(nodes: Seq<BkInRam<K>>) -> bool {
    &&& nodes.len() <= usize::MAX
    &&& forall|c: int|
        0 < c < nodes.len() ==> {
            let p = (#[trigger] nodes[c]).parent as int;
            let d = nodes[c].dist as int;
            p < c && d < nodes[p].children@.len() && nodes[p].children@[d] == Some(c as usize)
        }
    &&& forall|p: int, d: int|
        0 <= p < nodes.len() && 0 <= d < nodes[p].children@.len() && (
        #[trigger] nodes[p].children@[d]) is Some ==> {
            let c = nodes[p].children@[d]->Some_0 as int;
            p < c < nodes.len() && nodes[c].parent == p && nodes[c].dist == d
        }
}

/// The tree that an arena of nodes stands for.
#[verifier::opaque]
pub closed spec fn shape_of<K: View>(nodes: Seq<BkInRam<K>>) -> Shape<K::V> {
    Shape {
        keys: Seq::new(nodes.len(), |i: int| nodes[i].key@),
        kids: Seq::new(nodes.len(), |i: int| child_list(nodes[i].children@)),
    }
}

/// An entry of a node's child list names an occupied slot of the node.
proof fn lemma_kid<K: View>(nodes: Seq<BkInRam<K>>, p: int, k: int)
    requires
        shape_of(nodes).edge(p, k),
    ensures
        0 <= p < nodes.len(),
        shape_of(nodes).slot(p, k) < nodes[p].children@.len(),
        nodes[p].children@[shape_of(nodes).slot(p, k) as int] == Some(
            shape_of(nodes).child(p, k) as usize,
        ),
        forall|k2: int|
            shape_of(nodes).edge(p, k2) && k2 != k ==> shape_of(nodes).slot(p, k2)
                != shape_of(nodes).slot(p, k),
{
    reveal(shape_of);
    let slots = nodes[p].children@;
    assert(nodes[p].children.len() <= usize::MAX);
    lemma_child_list(slots);
    let list = child_list(slots);
    assert(shape_of(nodes).kids[p] == list);
    assert forall|k2: int| shape_of(nodes).edge(p, k2) && k2 != k implies list[k2].0
        != list[k].0 by {
        if k < k2 {
            assert(list[k].0 > list[k2].0);
        } else {
            assert(list[k2].0 > list[k].0);
        }
    }
}

/// An occupied slot of a node is an entry of the node's child list.
proof fn lemma_slot<K: View>(nodes: Seq<BkInRam<K>>, p: int, d: int) -> (k: int)
    requires
        0 <= p < nodes.len(),
        0 <= d < nodes[p].children@.len(),
        nodes[p].children@[d] is Some,
    ensures
        shape_of(nodes).edge(p, k),
        shape_of(nodes).slot(p, k) == d,
        shape_of(nodes).child(p, k) == nodes[p].children@[d]->Some_0,
{
    reveal(shape_of);
    let slots = nodes[p].children@;
    assert(nodes[p].children.len() <= usize::MAX);
    lemma_child_list(slots);
    let list = child_list(slots);
    assert(shape_of(nodes).kids[p] == list);
    let e = (d as usize, slots[d]->Some_0);
    assert(list.contains(e));
    choose|k: int| 0 <= k < list.len() && list[k] == e
}

/// What the tree that an arena stands for holds at node `i`.
proof fn lemma_shape_at<K: View>(nodes: Seq<BkInRam<K>>, i: int)
    requires
        0 <= i < nodes.len(),
    ensures
        shape_of(nodes).keys.len() == nodes.len(),
        shape_of(nodes).kids.len() == nodes.len(),
        shape_of(nodes).keys[i] == nodes[i].key@,
        shape_of(nodes).kids[i] == child_list(nodes[i].children@),
{
    reveal(shape_of);
}

/// The tree that an arena stands for has a node for each node of the arena.
proof fn lemma_shape_len<K: View>(nodes: Seq<BkInRam<K>>)
    ensures
        shape_of(nodes).keys.len() == nodes.len(),
        shape_of(nodes).kids.len() == nodes.len(),
{
    reveal(shape_of);
}

/// Nodes that are linked stand for a tree.
proof fn lemma_linked_tree<K: View>(nodes: Seq<BkInRam<K>>)
    requires
        linked(nodes),
    ensures
        shape_of(nodes).is_tree(),
        shape_of(nodes).len() == nodes.len(),
{
    let s = shape_of(nodes);
    reveal(linked);
    lemma_shape_len(nodes);
    assert forall|p: int, k: int| #[trigger] s.edge(p, k) implies p < s.child(p, k) < s.len() by {
        lemma_kid(nodes, p, k);
    }
    assert forall|c: int| 0 < c < s.len() implies #[trigger] s.has_parent(c) by {
        let p = nodes[c].parent as int;
        let k = lemma_slot(nodes, p, nodes[c].dist as int);
        assert(s.lists(p, c));
    }
    assert forall|p1: int, k1: int, p2: int, k2: int|
        #[trigger] s.edge(p1, k1) && #[trigger] s.edge(p2, k2) && s.child(p1, k1) == s.child(
            p2,
            k2,
        ) implies p1 == p2 && k1 == k2 by {
        lemma_kid(nodes, p1, k1);
        lemma_kid(nodes, p2, k2);
    }
    assert forall|p: int, k1: int, k2: int|
        #[trigger] s.edge(p, k1) && #[trigger] s.edge(p, k2) && s.slot(p, k1) == s.slot(
            p,
            k2,
        ) implies k1 == k2 by {
        lemma_kid(nodes, p, k1);
    }
}

/// In the tree that linked nodes stand for, the parent and the slot of a
/// node are what its fields say.
proof fn lemma_bridge<K: View>(nodes: Seq<BkInRam<K>>)
    requires
        linked(nodes),
    ensures
        shape_of(nodes).is_tree(),
        shape_of(nodes).len() == nodes.len(),
        forall|x: int|
            0 < x < nodes.len() ==> #[trigger] shape_of(nodes).parent(x) == nodes[x].parent
                && shape_of(nodes).slot_of(x) == nodes[x].dist,
{
    let s = shape_of(nodes);
    lemma_linked_tree(nodes);
    reveal(linked);
    assert forall|x: int| 0 < x < nodes.len() implies #[trigger] s.parent(x) == nodes[x].parent
        && s.slot_of(x) == nodes[x].dist by {
        s.lemma_parent(x);
        lemma_kid(nodes, s.parent(x), s.rank(x));
    }
}

/// A Burkhard-Keller tree in memory.  Keys are added one at a time and never
/// removed; a key that the tree already holds is not added again.
#[derive(Debug)]
pub struct BkInRamTree<KQ: KeyQuery, M: Metric<KQ::Query>> {
    alloc: BkInRamAllocator<KQ::Key>,
    max_depth: usize,
    kq: KQ,
    metric: M,
}

impl<KQ: KeyQuery, M: Metric<KQ::Query>> BkInRamTree<KQ, M> {
    /// The depth that the tree keeps track of: the largest number of edges
    /// between the root and a node.
    pub closed spec fn max_depth(&self) -> nat {
        self.max_depth as nat
    }

    /// A tree without keys.
    pub fn new(kq: KQ, metric: M) -> (tree: Self)
        ensures
            tree.wf(),
            tree.shape() == Shape::<Point<KQ>>::empty(),
            tree.max_depth() == 0,
    {
        let tree = BkInRamTree { alloc: BkInRamAllocator::new(), max_depth: 0, kq, metric };
        proof {
            lemma_no_node::<KQ, M>(tree.alloc.nodes@);
        }
        tree
    }

    /// The number of keys in the tree.
    pub fn len(&self) -> (n: usize)
        ensures
            n == self.shape().len(),
    {
        proof {
            lemma_shape_len(self.alloc.nodes@);
        }
        self.alloc.nodes.len()
    }

    /// The node with index `index`.
    pub fn node(&self, index: usize) -> (node: &BkInRam<KQ::Key>)
        requires
            index < self.shape().len(),
        ensures
            node.spec_key()@ == self.shape().keys[index as int],
            node.kids() == self.shape().kids[index as int],
            self.wf() && index > 0 ==> node.spec_dist() == self.shape().slot_of(index as int)
                && node.spec_parent() == self.shape().parent(index as int),
    {
        proof {
            lemma_shape_len(self.alloc.nodes@);
            lemma_shape_at(self.alloc.nodes@, index as int);
            if self.wf() {
                lemma_bridge(self.alloc.nodes@);
            }
        }
        &self.alloc.nodes[index]
    }

    /// The depth that the tree keeps track of is that of its deepest node.
    pub proof fn lemma_max_depth(&self)
        requires
            self.wf(),
        ensures
            self.shape().is_height(self.max_depth()),
    {
    }

    /// Finds every key within `tolerance` of `needle`: returns each of them
    /// once, with its distance to `needle`, and nothing else.
    pub fn find_each(&self, needle: &KQ::Query, tolerance: Dist) -> (found: Vec<(Dist, KQ::Key)>)
        requires
            self.wf(),
        ensures
            finds_exactly::<KQ, M>(found@, self.shape().keys.to_set(), needle@, tolerance),
    {
        BkFind::new(self, tolerance, needle).each().unwrap()
    }

    /// Walks the tree and returns, for each node, its slot in its parent
    /// (`0` for the root), the number of its children, and its key: each
    /// node before its children, and the children of a node from the
    /// nearest slot to the farthest.
    pub fn preorder_each(&self) -> (walk: Vec<(Dist, usize, KQ::Key)>)
        requires
            self.wf(),
        ensures
            entries(walk@) == self.shape().preorder(),
    {
        BkPreOrder::new(self).each().unwrap()
    }
}

impl<KQ: KeyQuery, M: Metric<KQ::Query>> BkTreeAdd for BkInRamTree<KQ, M> {
    /// Adds `query` to the tree, unless the tree holds it already.
    ///
    /// The search for the place starts at the root.  At each node it takes
    /// the distance between the node's key and `query`, and goes on to the
    /// child in the slot of that distance, until it meets `query` itself or
    /// an empty slot; the new node goes into that slot.
    fn add(&mut self, query: &KQ::Query) {
        let ghost s = self.shape();
        let ghost q = query@;
        let n = self.alloc.nodes.len();
        proof {
            lemma_shape_len(self.alloc.nodes@);
        }
        if n == 0 {
            let key = self.kq.to_key(query);
            self.alloc.new_child(key);
            proof {
                lemma_first_node::<KQ, M>(old(self).alloc.nodes@, self.alloc.nodes@, q);
            }
            return ;
        }
        let mut cur: usize = 0;
        let mut depth: usize = 0;
        let mut dist = self.kq.distance(&self.metric, self.alloc.nodes[0].key(), query);
        let mut same = dist == 0 && self.kq.eq(self.alloc.nodes[0].key(), query);
        let mut next: Option<usize> = if same {
            None
        } else {
            self.alloc.nodes[0].child_at(dist)
        };
        proof {
            M::lemma_dist_self(q);
            lemma_shape_at(self.alloc.nodes@, 0);
            assert(s.kids[0] == self.alloc.nodes@[0].kids());
            assert forall|j: int| 0 <= j < s.len() implies s.is_anc(0, j) by {
                s.lemma_root_anc(j);
            }
        }
        while next.is_some()
            invariant
                *self == *old(self),
                self.wf(),
                s == self.shape(),
                n == s.len(),
                n == self.alloc.nodes@.len(),
                q == query@,
                0 <= cur < n,
                dist == M::dist(s.keys[cur as int], q),
                same == (s.keys[cur as int] == q),
                chain_ok::<KQ::Query, M>(s, q, cur as int),
                depth == s.depth(cur as int),
                forall|j: int| 0 <= j < n && s.keys[j] == q ==> s.is_anc(cur as int, j),
                same ==> next is None,
                next is Some ==> s.kids[cur as int].contains((dist, next->Some_0)),
                !same && next is None ==> forall|k: int|
                    0 <= k < s.kids[cur as int].len() ==> (#[trigger] s.kids[cur as int][k]).0
                        != dist,
            decreases n - cur,
        {
            let child = next.unwrap();
            proof {
                lemma_shape_at(self.alloc.nodes@, cur as int);
                let k = choose|k: int|
                    0 <= k < s.kids[cur as int].len() && s.kids[cur as int][k] == (dist, child);
                assert(s.edge(cur as int, k));
                s.lemma_edge(cur as int, k);
                lemma_depth_le(s, child as int);
                assert forall|j: int| 0 <= j < n && s.keys[j] == q implies s.is_anc(
                    child as int,
                    j,
                ) by {
                    lemma_way_down::<KQ::Query, M>(s, q, cur as int, j);
                }
            }
            cur = child;
            depth += 1;
            dist = self.kq.distance(&self.metric, self.alloc.nodes[cur].key(), query);
            same = dist == 0 && self.kq.eq(self.alloc.nodes[cur].key(), query);
            next =
            if same {
                None
            } else {
                self.alloc.nodes[cur].child_at(dist)
            };
            proof {
                M::lemma_dist_self(q);
                lemma_shape_at(self.alloc.nodes@, cur as int);
                assert(s.kids[cur as int] == self.alloc.nodes@[cur as int].kids());
            }
        }
        if same {
            proof {
                assert(s.keys[cur as int] == q);
            }
        } else {
            proof {
                M::lemma_dist_bounded(s.keys[cur as int], q);
                lemma_depth_le(s, cur as int);
                lemma_shape_at(self.alloc.nodes@, cur as int);
                assert forall|j: int| 0 <= j < n implies s.keys[j] != q by {
                    if s.keys[j] == q {
                        lemma_way_down::<KQ::Query, M>(s, q, cur as int, j);
                    }
                }
                let len = self.alloc.nodes@[cur as int].children@.len();
                if dist < len && self.alloc.nodes@[cur as int].children@[dist as int] is Some {
                    let k = lemma_slot(self.alloc.nodes@, cur as int, dist as int);
                    assert(s.kids[cur as int][k].0 == dist);
                }
            }
            let key = self.kq.to_key(query);
            let index = self.alloc.new_child(key);
            self.alloc.nodes[cur].put_child(dist, index);
            self.alloc.nodes[index].parent = cur;
            self.alloc.nodes[index].dist = dist;
            if self.max_depth < depth + 1 {
                self.max_depth = depth + 1;
            }
            proof {
                assert(self.alloc.nodes.len() == n + 1);
                assert(leaf_added(old(self).alloc.nodes@, self.alloc.nodes@, q, cur as int, dist));
                lemma_new_leaf::<KQ, M>(
                    old(self).alloc.nodes@,
                    self.alloc.nodes@,
                    q,
                    cur as int,
                    dist,
                );
                let t = self.shape();
                lemma_shape_len(self.alloc.nodes@);
                assert forall|j: int| 0 <= j < t.len() implies #[trigger] t.depth(j)
                    <= self.max_depth by {
                    if j < n {
                        lemma_depth_frame(s, t, n as int, j);
                    } else {
                        lemma_depth_frame(s, t, n as int, cur as int);
                    }
                }
                if self.max_depth != depth + 1 {
                    let j = choose|j: int| 0 <= j < s.len() && #[trigger] s.depth(j) == old(
                        self,
                    ).max_depth;
                    lemma_depth_frame(s, t, n as int, j);
                } else {
                    lemma_depth_frame(s, t, n as int, cur as int);
                    assert(t.depth(n as int) == self.max_depth);
                }
            }
        }
    }
}

/// An arena without nodes is the empty tree.
proof fn lemma_no_node<KQ: KeyQuery, M: Metric<KQ::Query>>(nodes: Seq<BkInRam<KQ::Key>>)
    requires
        nodes.len() == 0,
    ensures
        linked(nodes),
        is_bk_tree::<KQ::Query, M>(shape_of(nodes)),
        shape_of(nodes) == Shape::<Point<KQ>>::empty(),
{
    reveal(linked);
    reveal(shape_of);
    let s = shape_of(nodes);
    assert(s.keys =~= Seq::empty());
    assert(s.kids =~= Seq::empty());
    assert forall|p: int, k: int| !#[trigger] s.edge(p, k) by {}
}

/// The first node of an arena is a tree of one node.
proof fn lemma_first_node<KQ: KeyQuery, M: Metric<KQ::Query>>(
    before: Seq<BkInRam<KQ::Key>>,
    after: Seq<BkInRam<KQ::Key>>,
    point: Point<KQ>,
)
    requires
        before.len() == 0,
        after.len() == 1,
        after[0].key@ == point,
        after[0].children@.len() == 0,
    ensures
        linked(after),
        is_bk_tree::<KQ::Query, M>(shape_of(after)),
        grown(shape_of(before), shape_of(after), point),
        shape_of(after).depth(0) == 0,
{
    let s = shape_of(after);
    assert(child_list(after[0].children@).len() == 0);
    assert(linked(after)) by {
        reveal(linked);
    }
    lemma_linked_tree(after);
    lemma_shape_at(after, 0);
    lemma_shape_len(before);
    assert(shape_of(before).keys =~= Seq::empty());
    assert(s.keys =~= shape_of(before).keys.push(point));
    assert forall|p: int, k: int| !#[trigger] s.edge(p, k) by {}
}

/// Whether `after` is `before` with one more node that holds `point`, put
/// in the slot `dist` of node `cur`, which was empty.
spec fn leaf_added<K: View>(
    before: Seq<BkInRam<K>>,
    after: Seq<BkInRam<K>>,
    point: K::V,
    cur: int,
    dist: Dist,
) -> bool {
    let n = before.len() as int;
    &&& 0 <= cur < n
    &&& n < usize::MAX
    &&& after.len() == n + 1
    &&& dist < usize::MAX
    &&& (dist >= before[cur].children@.len() || before[cur].children@[dist as int] is None)
    &&& forall|i: int| 0 <= i < n && i != cur ==> #[trigger] after[i] == before[i]
    &&& after[cur].key == before[cur].key
    &&& after[cur].parent == before[cur].parent
    &&& after[cur].dist == before[cur].dist
    &&& after[cur].children@.len() == (if before[cur].children@.len() <= dist {
        dist + 1
    } else {
        before[cur].children@.len() as int
    })
    &&& forall|d: int|
        0 <= d < after[cur].children@.len() ==> #[trigger] after[cur].children@[d] == (if d
            == dist {
            Some(n as usize)
        } else if d < before[cur].children@.len() {
            before[cur].children@[d]
        } else {
            None
        })
    &&& after[n].key@ == point
    &&& after[n].children@.len() == 0
    &&& after[n].parent == cur
    &&& after[n].dist == dist
}

/// A new leaf in an empty slot keeps the nodes linked.
proof fn lemma_leaf_linked<K: View>(
    before: Seq<BkInRam<K>>,
    after: Seq<BkInRam<K>>,
    point: K::V,
    cur: int,
    dist: Dist,
)
    requires
        linked(before),
        leaf_added(before, after, point, cur, dist),
    ensures
        linked(after),
{
    reveal(linked);
    let n = before.len() as int;
    assert forall|c: int| 0 < c < after.len() implies ({
        let p = (#[trigger] after[c]).parent as int;
        let d = after[c].dist as int;
        p < c && d < after[p].children@.len() && after[p].children@[d] == Some(c as usize)
    }) by {
        if c < n {
            assert(after[c].parent == before[c].parent && after[c].dist == before[c].dist);
            let p = before[c].parent as int;
            let d = before[c].dist as int;
            assert(before[p].children@[d] == Some(c as usize));
            if p == cur {
                assert(after[cur].children@[d] == before[cur].children@[d]);
            } else {
                assert(after[p] == before[p]);
            }
        }
    }
    assert forall|p: int, d: int|
        0 <= p < after.len() && 0 <= d < after[p].children@.len() && (
        #[trigger] after[p].children@[d]) is Some implies ({
        let c = after[p].children@[d]->Some_0 as int;
        p < c < after.len() && after[c].parent == p && after[c].dist == d
    }) by {
        if p == cur {
            if d != dist {
                assert(before[cur].children@[d] is Some);
                let c = before[cur].children@[d]->Some_0 as int;
                assert(after[c].parent == before[c].parent && after[c].dist == before[c].dist);
            }
        } else {
            assert(after[p] == before[p]);
            assert(before[p].children@[d] is Some);
            let c = before[p].children@[d]->Some_0 as int;
            assert(after[c].parent == before[c].parent && after[c].dist == before[c].dist);
        }
    }
}

/// A new leaf keeps the keys and the edges of the tree, and adds one edge.
proof fn lemma_leaf_grown<K: View>(
    before: Seq<BkInRam<K>>,
    after: Seq<BkInRam<K>>,
    point: K::V,
    cur: int,
    dist: Dist,
)
    requires
        linked(before),
        linked(after),
        leaf_added(before, after, point, cur, dist),
    ensures
        grown(shape_of(before), shape_of(after), point),
        same_below(shape_of(before), shape_of(after), before.len() as int),
        shape_of(after).parent(before.len() as int) == cur,
        shape_of(after).slot_of(before.len() as int) == dist,
{
    let n = before.len() as int;
    let s = shape_of(before);
    let t = shape_of(after);
    lemma_bridge(before);
    lemma_bridge(after);
    assert(t.keys =~= s.keys.push(point)) by {
        reveal(shape_of);
    }
    assert(t.kids[n].len() == 0) by {
        lemma_shape_at(after, n);
        assert(child_list(after[n].children@).len() == 0);
    }
    assert(same_below(s, t, n)) by {
        assert forall|y: int| 0 <= y < n implies #[trigger] s.keys[y] == t.keys[y] by {}
        assert forall|y: int| 0 < y < n implies #[trigger] s.parent(y) == t.parent(y) && s.slot_of(
            y,
        ) == t.slot_of(y) by {
            assert(after[y].parent == before[y].parent && after[y].dist == before[y].dist);
        }
    }
    assert forall|p: int, k: int| #[trigger] s.edge(p, k) implies t.has_edge(
        p,
        s.slot(p, k),
        s.child(p, k),
    ) by {
        lemma_kid(before, p, k);
        let d = s.slot(p, k) as int;
        if p != cur {
            assert(after[p] == before[p]);
        }
        let k2 = lemma_slot(after, p, d);
    }
    assert forall|p: int, k: int| #[trigger] t.edge(p, k) && t.child(p, k) != n implies s.has_edge(
        p,
        t.slot(p, k),
        t.child(p, k),
    ) by {
        lemma_kid(after, p, k);
        let d = t.slot(p, k) as int;
        if p != cur {
            if p == n {
                lemma_shape_at(after, n);
            } else {
                assert(after[p] == before[p]);
            }
        }
        let k2 = lemma_slot(before, p, d);
    }
}

/// What putting a new last node in an empty slot of `cur` does to the tree:
/// a Burkhard-Keller tree stays one, if the new key is new and at the
/// distance from each node on the way down that the slots name.
proof fn lemma_new_leaf<KQ: KeyQuery, M: Metric<KQ::Query>>(
    before: Seq<BkInRam<KQ::Key>>,
    after: Seq<BkInRam<KQ::Key>>,
    point: Point<KQ>,
    cur: int,
    dist: Dist,
)
    requires
        linked(before),
        is_bk_tree::<KQ::Query, M>(shape_of(before)),
        leaf_added(before, after, point, cur, dist),
        dist == M::dist(shape_of(before).keys[cur], point),
        chain_ok::<KQ::Query, M>(shape_of(before), point, cur),
        !shape_of(before).keys.contains(point),
    ensures
        linked(after),
        is_bk_tree::<KQ::Query, M>(shape_of(after)),
        grown(shape_of(before), shape_of(after), point),
        same_below(shape_of(before), shape_of(after), before.len() as int),
        shape_of(after).depth(before.len() as int) == shape_of(before).depth(cur) + 1,
{
    let n = before.len() as int;
    let s = shape_of(before);
    let t = shape_of(after);
    lemma_leaf_linked(before, after, point, cur, dist);
    lemma_leaf_grown(before, after, point, cur, dist);
    lemma_linked_tree(after);
    assert forall|j: int| 0 <= j < t.len() implies #[trigger] chain_ok::<KQ::Query, M>(
        t,
        t.keys[j],
        j,
    ) by {
        if j < n {
            assert(chain_ok::<KQ::Query, M>(s, s.keys[j], j));
            lemma_chain_frame::<KQ::Query, M>(s, t, n, s.keys[j], j);
        } else {
            lemma_chain_frame::<KQ::Query, M>(s, t, n, point, cur);
        }
    }
    assert forall|i: int, j: int| 0 <= i < t.len() && 0 <= j < t.len() && i != j implies t.keys[i]
        != t.keys[j] by {
        if i < n {
            assert(s.keys.contains(s.keys[i]));
        }
        if j < n {
            assert(s.keys.contains(s.keys[j]));
        }
    }
    assert(t.depth(n) == t.depth(cur) + 1);
    lemma_depth_frame(s, t, n, cur);
}

impl<KQ: KeyQuery, M: Metric<KQ::Query>> BkTree for BkInRamTree<KQ, M> {
    type KQ = KQ;

    type Metric = M;

    closed spec fn shape(&self) -> Shape<Point<KQ>> {
        shape_of(self.alloc.nodes@)
    }

    closed spec fn wf(&self) -> bool {
        &&& linked(self.alloc.nodes@)
        &&& is_bk_tree::<KQ::Query, M>(shape_of(self.alloc.nodes@))
        &&& shape_of(self.alloc.nodes@).is_height(self.max_depth as nat)
    }

    closed spec fn key_of(&self, index: int) -> Option<Point<KQ>> {
        if 0 <= index < self.alloc.nodes@.len() {
            Some(self.alloc.nodes@[index].key@)
        } else {
            None
        }
    }

    proof fn lemma_wf(&self) {
        reveal(shape_of);
    }

    fn node_count(&self) -> (n: usize)
        ensures
            n == self.shape().len(),
    {
        proof {
            lemma_shape_len(self.alloc.nodes@);
        }
        self.alloc.nodes.len()
    }

    fn root(&self) -> (r: Option<usize>)
        ensures
            r == (if self.shape().len() > 0 {
                Some(0usize)
            } else {
                None
            }),
    {
        proof {
            lemma_shape_len(self.alloc.nodes@);
        }
        if self.alloc.nodes.len() > 0 {
            Some(0)
        } else {
            None
        }
    }

    fn max_depth_hint(&self) -> (hint: usize)
        ensures
            hint == self.max_depth(),
    {
        self.max_depth
    }

    fn key_at(&self, index: usize) -> (r: Result<KQ::Key, BkError>) {
        proof {
            lemma_shape_len(self.alloc.nodes@);
        }
        if index < self.alloc.nodes.len() {
            proof {
                lemma_shape_at(self.alloc.nodes@, index as int);
            }
            Ok(KQ::to_key_static(KQ::to_query_static(self.alloc.nodes[index].key())))
        } else {
            Err(BkError::Truncated)
        }
    }

    fn distance_at(&self, index: usize, needle: &KQ::Query) -> (r: Result<Dist, BkError>) {
        proof {
            lemma_shape_len(self.alloc.nodes@);
        }
        if index < self.alloc.nodes.len() {
            proof {
                lemma_shape_at(self.alloc.nodes@, index as int);
            }
            Ok(self.kq.distance(&self.metric, self.alloc.nodes[index].key(), needle))
        } else {
            Err(BkError::Truncated)
        }
    }

    fn children_vector(&self, index: usize) -> (r: Result<Vec<(Dist, usize)>, BkError>) {
        proof {
            lemma_shape_len(self.alloc.nodes@);
        }
        if index < self.alloc.nodes.len() {
            proof {
                lemma_shape_at(self.alloc.nodes@, index as int);
            }
            Ok(self.alloc.nodes[index].children_vector())
        } else {
            Err(BkError::Truncated)
        }
    }
}

} // verus!
