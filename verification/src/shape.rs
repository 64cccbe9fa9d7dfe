//! The mathematical model of a Burkhard-Keller tree, shared by every way of
//! storing one.
//!
//! A tree is a sequence of nodes.  Node `0` is the root, and each node lists
//! its children as pairs of a slot (the distance between the two keys) and
//! the child's index.  A child always has a larger index than its parent.

use crate::metric::Metric;
use crate::Dist;
use vstd::prelude::*;

verus! {

/// The keys of the nodes of a tree and, for each node, its children.
pub struct Shape<P> {
    /// The point that each node holds.
    pub keys: Seq<P>,
    /// For each node, the slot and the index of each of its children.
    pub kids: Seq<Seq<(Dist, usize)>>,
}

impl<P> Shape<P> {
    /// The tree without nodes.
    pub open spec fn empty() -> Self {
        Shape { keys: Seq::empty(), kids: Seq::empty() }
    }

    /// The number of nodes.
    pub open spec fn len(self) -> nat {
        self.keys.len()
    }

    /// Whether `k` is a position in the child list of node `p`.
    pub open spec fn edge(self, p: int, k: int) -> bool {
        0 <= p < self.kids.len() && 0 <= k < self.kids[p].len()
    }

    /// The node that the `k`-th entry of the child list of `p` leads to.
    pub open spec fn child(self, p: int, k: int) -> int {
        self.kids[p][k].1 as int
    }

    /// The slot of the `k`-th entry of the child list of `p`.
    pub open spec fn slot(self, p: int, k: int) -> Dist {
        self.kids[p][k].0
    }

    /// Whether node `p` has the child `c` in slot `d`.
    pub open spec fn has_edge(self, p: int, d: Dist, c: int) -> bool {
        exists|k: int| #[trigger] self.edge(p, k) && self.child(p, k) == c && self.slot(p, k) == d
    }

    /// Whether node `p` lists `c` among its children.
    pub open spec fn lists(self, p: int, c: int) -> bool {
        exists|k: int| #[trigger] self.edge(p, k) && self.child(p, k) == c
    }

    /// Whether some node lists `c` among its children.
    pub open spec fn has_parent(self, c: int) -> bool {
        exists|p: int| #[trigger] self.lists(p, c)
    }

    /// The parent of node `c`: a node that lists `c` among its children.
    pub open spec fn parent(self, c: int) -> int {
        choose|p: int| #[trigger] self.lists(p, c)
    }

    /// The position of `c` in the child list of its parent.
    pub open spec fn rank(self, c: int) -> int {
        choose|k: int| #[trigger] self.edge(self.parent(c), k) && self.child(self.parent(c), k) == c
    }

    /// The slot that `c` occupies in its parent.
    pub open spec fn slot_of(self, c: int) -> Dist {
        self.slot(self.parent(c), self.rank(c))
    }

    /// The nodes form a tree rooted at node `0`: a child comes after its
    /// parent, every node but the root is listed as a child exactly once,
    /// and a node has at most one child per slot.
    pub open spec fn is_tree(self) -> bool {
        &&& self.kids.len() == self.keys.len()
        &&& forall|p: int, k: int| #[trigger]
            self.edge(p, k) ==> p < self.child(p, k) < self.len()
        &&& forall|c: int| 0 < c < self.len() ==> #[trigger] self.has_parent(c)
        &&& forall|p1: int, k1: int, p2: int, k2: int|
            #[trigger] self.edge(p1, k1) && #[trigger] self.edge(p2, k2) && self.child(p1, k1)
                == self.child(p2, k2) ==> p1 == p2 && k1 == k2
        &&& forall|p: int, k1: int, k2: int|
            #[trigger] self.edge(p, k1) && #[trigger] self.edge(p, k2) && self.slot(p, k1)
                == self.slot(p, k2) ==> k1 == k2
    }

    /// Whether `a` is `j` or lies on the path from the root to `j`.
    pub open spec fn is_anc(self, a: int, j: int) -> bool
        decreases j,
    {
        a == j || (0 < j < self.len() && 0 <= self.parent(j) < j && self.is_anc(
            a,
            self.parent(j),
        ))
    }

    /// The child of `a` on the path from `a` down to `x`.
    pub open spec fn toward(self, a: int, x: int) -> int
        decreases x,
    {
        if 0 < x < self.len() && 0 <= self.parent(x) < x && self.parent(x) != a {
            self.toward(a, self.parent(x))
        } else {
            x
        }
    }

    /// The number of edges on the path from the root to `x`.
    pub open spec fn depth(self, x: int) -> nat
        decreases x,
    {
        if 0 < x < self.len() && 0 <= self.parent(x) < x {
            self.depth(self.parent(x)) + 1
        } else {
            0
        }
    }

    /// The first `k` children of node `x` in walking order, the `k`-th
    /// first, each followed by everything below it.  An entry holds the slot
    /// of a node, the number of its children, and its key.
    pub open spec fn preorder_kids(self, x: int, k: int) -> Seq<(Dist, usize, P)>
        decreases self.len() - x, k,
    {
        if 0 <= x < self.len() && 0 < k <= self.kids[x].len() {
            let c = self.child(x, k - 1);
            let below = if x < c < self.len() {
                self.preorder_from(c, self.slot(x, k - 1))
            } else {
                Seq::empty()
            };
            below + self.preorder_kids(x, k - 1)
        } else {
            Seq::empty()
        }
    }

    /// Node `x`, which is in slot `d` of its parent, followed by everything
    /// below it.
    pub open spec fn preorder_from(self, x: int, d: Dist) -> Seq<(Dist, usize, P)>
        decreases self.len() - x, self.kids[x].len() + 1,
    {
        if 0 <= x < self.len() {
            seq![(d, self.kids[x].len() as usize, self.keys[x])] + self.preorder_kids(
                x,
                self.kids[x].len() as int,
            )
        } else {
            Seq::empty()
        }
    }

    /// The nodes of the tree, each before its children, and the children of
    /// a node from the nearest slot to the farthest.
    pub open spec fn preorder(self) -> Seq<(Dist, usize, P)> {
        self.preorder_from(0, 0)
    }

    /// What is still to come from a stack of nodes that wait to be walked,
    /// the top of the stack first.
    pub open spec fn pending(self, stack: Seq<(Dist, usize)>) -> Seq<(Dist, usize, P)>
        decreases stack.len(),
    {
        if stack.len() == 0 {
            Seq::empty()
        } else {
            self.preorder_from(stack.last().1 as int, stack.last().0) + self.pending(
                stack.drop_last(),
            )
        }
    }

    /// Whether `h` is the depth of the deepest node, or `0` in a tree
    /// without nodes.
    pub open spec fn is_height(self, h: nat) -> bool {
        &&& forall|j: int| 0 <= j < self.len() ==> #[trigger] self.depth(j) <= h
        &&& h == 0 || exists|j: int| 0 <= j < self.len() && #[trigger] self.depth(j) == h
    }

    /// Whether `m` is the largest slot that a child is in, or `0` in a tree
    /// without children.
    pub open spec fn is_max_slot(self, m: nat) -> bool {
        &&& forall|p: int, k: int| #[trigger] self.edge(p, k) ==> self.slot(p, k) <= m
        &&& m == 0 || exists|p: int, k: int| #[trigger] self.edge(p, k) && self.slot(p, k) == m
    }

    /// Whether `m` is the largest number of children of a node, or `0` in
    /// a tree without nodes.
    pub open spec fn is_max_count(self, m: nat) -> bool {
        &&& forall|p: int| 0 <= p < self.kids.len() ==> (#[trigger] self.kids[p]).len() <= m
        &&& m == 0 || exists|p: int|
            0 <= p < self.kids.len() && (#[trigger] self.kids[p]).len() == m
    }

    /// The largest slot that a child is in.
    pub open spec fn max_slot(self) -> nat {
        choose|m: nat| self.is_max_slot(m)
    }

    /// The largest number of children of a node.
    pub open spec fn max_count(self) -> nat {
        choose|m: nat| self.is_max_count(m)
    }

    /// There is one largest slot and one largest number of children.
    pub proof fn lemma_max(self, slot: nat, count: nat)
        requires
            self.is_max_slot(slot),
            self.is_max_count(count),
        ensures
            self.max_slot() == slot,
            self.max_count() == count,
    {
        let s2 = self.max_slot();
        let c2 = self.max_count();
        if s2 != slot {
            if s2 > slot {
                let (p, k) = choose|p: int, k: int| #[trigger]
                    self.edge(p, k) && self.slot(p, k) == s2;
            } else {
                let (p, k) = choose|p: int, k: int| #[trigger]
                    self.edge(p, k) && self.slot(p, k) == slot;
            }
        }
        if c2 != count {
            if c2 > count {
                let p = choose|p: int|
                    0 <= p < self.kids.len() && (#[trigger] self.kids[p]).len() == c2;
            } else {
                let p = choose|p: int|
                    0 <= p < self.kids.len() && (#[trigger] self.kids[p]).len() == count;
            }
        }
    }

    /// In a tree, the parent of a node other than the root comes before it
    /// and lists it.
    pub proof fn lemma_parent(self, c: int)
        requires
            self.is_tree(),
            0 < c < self.len(),
        ensures
            0 <= self.parent(c) < c,
            self.edge(self.parent(c), self.rank(c)),
            self.child(self.parent(c), self.rank(c)) == c,
    {
        assert(self.has_parent(c));
        assert(self.lists(self.parent(c), c));
    }

    /// In a tree, an entry of a child list names the parent and the rank of
    /// the child it leads to.
    pub proof fn lemma_edge(self, p: int, k: int)
        requires
            self.is_tree(),
            self.edge(p, k),
        ensures
            p < self.child(p, k) < self.len(),
            self.parent(self.child(p, k)) == p,
            self.rank(self.child(p, k)) == k,
            self.slot_of(self.child(p, k)) == self.slot(p, k),
    {
        let c = self.child(p, k);
        self.lemma_parent(c);
    }

    /// A node below `a` is reached through exactly one child of `a`.
    pub proof fn lemma_toward(self, a: int, x: int)
        requires
            self.is_tree(),
            0 <= a,
            x < self.len(),
            self.is_anc(a, x),
            a != x,
        ensures
            a < self.toward(a, x) <= x,
            self.parent(self.toward(a, x)) == a,
            self.is_anc(self.toward(a, x), x),
        decreases x,
    {
        self.lemma_parent(x);
        if self.parent(x) != a {
            self.lemma_toward(a, self.parent(x));
        }
    }

    /// A node on the path to `j` does not come after `j`.
    pub proof fn lemma_anc_le(self, a: int, j: int)
        requires
            self.is_anc(a, j),
        ensures
            a <= j,
        decreases j,
    {
        if a != j {
            self.lemma_anc_le(a, self.parent(j));
        }
    }

    /// The root is on the path to every node of a tree.
    pub proof fn lemma_root_anc(self, j: int)
        requires
            self.is_tree(),
            0 <= j < self.len(),
        ensures
            self.is_anc(0, j),
        decreases j,
    {
        if j != 0 {
            self.lemma_parent(j);
            self.lemma_root_anc(self.parent(j));
        }
    }
}

/// Whether `after` is `before` with one more node, a leaf that holds
/// `point`: the keys and the edges of `before` are kept, and every new edge
/// leads to the new node.
pub open spec fn grown<P>(before: Shape<P>, after: Shape<P>, point: P) -> bool {
    &&& after.keys == before.keys.push(point)
    &&& after.kids.len() == before.kids.len() + 1
    &&& after.kids[before.kids.len() as int].len() == 0
    &&& forall|p: int, k: int| #[trigger]
        before.edge(p, k) ==> after.has_edge(p, before.slot(p, k), before.child(p, k))
    &&& forall|p: int, k: int| #[trigger]
        after.edge(p, k) && after.child(p, k) != before.len() ==> before.has_edge(
            p,
            after.slot(p, k),
            after.child(p, k),
        )
}

/// What adding `point` makes of a tree: nothing if the tree holds `point`
/// already, and else a tree with one more leaf.
pub open spec fn added<P>(before: Shape<P>, after: Shape<P>, point: P) -> bool {
    if before.keys.contains(point) {
        after == before
    } else {
        grown(before, after, point)
    }
}

/// Adding a point makes the tree hold it, beside what it held.
pub proof fn lemma_added_keys<P>(before: Shape<P>, after: Shape<P>, point: P)
    requires
        added(before, after, point),
    ensures
        after.keys.to_set() == before.keys.to_set().insert(point),
        after.len() == before.len() + (if before.keys.contains(point) {
            0nat
        } else {
            1nat
        }),
{
    if before.keys.contains(point) {
        assert(after.keys.to_set() =~= before.keys.to_set().insert(point));
    } else {
        let n = before.keys.len() as int;
        assert forall|e: P| after.keys.to_set().contains(e) implies before.keys.to_set().insert(
            point,
        ).contains(e) by {
            let i = choose|i: int| 0 <= i < after.keys.len() && after.keys[i] == e;
            if i < n {
                assert(before.keys[i] == e);
            }
        }
        assert forall|e: P| before.keys.to_set().insert(point).contains(e) implies after.keys.to_set().contains(
            e,
        ) by {
            if e == point {
                assert(after.keys[n] == e);
            } else {
                let i = choose|i: int| 0 <= i < before.keys.len() && before.keys[i] == e;
                assert(after.keys[i] == e);
            }
        }
        assert(after.keys.to_set() =~= before.keys.to_set().insert(point));
    }
}

/// Adding the same point a second time changes nothing: the tree has the
/// same nodes, and so a search finds the same keys.
pub proof fn lemma_add_idempotent<P>(start: Shape<P>, once: Shape<P>, twice: Shape<P>, point: P)
    requires
        added(start, once, point),
        added(once, twice, point),
    ensures
        twice == once,
        twice.len() == once.len(),
        twice.keys.to_set() == once.keys.to_set(),
{
    if !start.keys.contains(point) {
        assert(once.keys[start.keys.len() as int] == point);
    }
}

/// Whether two trees have the same keys, parents and slots below node `n`.
pub open spec fn same_below<P>(s1: Shape<P>, s2: Shape<P>, n: int) -> bool {
    &&& n <= s1.len()
    &&& n <= s2.len()
    &&& forall|y: int| 0 <= y < n ==> #[trigger] s1.keys[y] == s2.keys[y]
    &&& forall|y: int|
        0 < y < n ==> #[trigger] s1.parent(y) == s2.parent(y) && s1.slot_of(y) == s2.slot_of(y)
}

/// The depth of a node depends only on the nodes before it.
pub proof fn lemma_depth_frame<P>(s1: Shape<P>, s2: Shape<P>, n: int, x: int)
    requires
        same_below(s1, s2, n),
        x < n,
    ensures
        s1.depth(x) == s2.depth(x),
    decreases x,
{
    if 0 < x && 0 <= s1.parent(x) < x {
        lemma_depth_frame(s1, s2, n, s1.parent(x));
    }
}

/// A node is no deeper than its index.
pub proof fn lemma_depth_le<P>(s: Shape<P>, x: int)
    requires
        0 <= x,
    ensures
        s.depth(x) <= x,
    decreases x,
{
    if 0 < x < s.len() && 0 <= s.parent(x) < x {
        lemma_depth_le(s, s.parent(x));
    }
}

/// Whether `point` is, for every node on the path from the root to `x`, at
/// the distance from that node's parent that the node's slot names.
pub open spec fn chain_ok<Q: View + ?Sized, M: Metric<Q>>(
    s: Shape<Q::V>,
    point: Q::V,
    x: int,
) -> bool
    decreases x,
{
    if 0 < x < s.len() && 0 <= s.parent(x) < x {
        M::dist(s.keys[s.parent(x)], point) == s.slot_of(x) && chain_ok::<Q, M>(
            s,
            point,
            s.parent(x),
        )
    } else {
        true
    }
}

/// A Burkhard-Keller tree under the metric `M`: a tree in which each key is
/// at the distance from each node above it that the slot on the way down
/// names, and in which no key occurs twice.
pub open spec fn is_bk_tree<Q: View + ?Sized, M: Metric<Q>>(s: Shape<Q::V>) -> bool {
    &&& s.is_tree()
    &&& forall|j: int| 0 <= j < s.len() ==> #[trigger] chain_ok::<Q, M>(s, s.keys[j], j)
    &&& forall|i: int, j: int|
        0 <= i < s.len() && 0 <= j < s.len() && i != j ==> s.keys[i] != s.keys[j]
}

/// The results that a search for `needle` within `tolerance` owes: each key
/// of `keys` that is close enough, with its distance.
pub open spec fn match_set<Q: View + ?Sized, M: Metric<Q>>(
    keys: Set<Q::V>,
    needle: Q::V,
    tolerance: Dist,
) -> Set<(Dist, Q::V)> {
    Set::new(
        |e: (Dist, Q::V)|
            keys.contains(e.1) && e.0 == M::dist(e.1, needle) && e.0 <= tolerance,
    )
}

/// What `chain_ok` says of the child of `a` on the way to `x`: its slot is
/// the distance between the key of `a` and `point`.
pub proof fn lemma_chain_slot<Q: View + ?Sized, M: Metric<Q>>(
    s: Shape<Q::V>,
    point: Q::V,
    a: int,
    x: int,
)
    requires
        s.is_tree(),
        0 <= a,
        x < s.len(),
        s.is_anc(a, x),
        a != x,
        chain_ok::<Q, M>(s, point, x),
    ensures
        s.slot_of(s.toward(a, x)) == M::dist(s.keys[a], point),
        chain_ok::<Q, M>(s, point, s.toward(a, x)),
    decreases x,
{
    s.lemma_parent(x);
    if s.parent(x) != a {
        lemma_chain_slot::<Q, M>(s, point, a, s.parent(x));
    }
}

/// Whether a point fits the path to a node depends only on the nodes before
/// that node.
pub proof fn lemma_chain_frame<Q: View + ?Sized, M: Metric<Q>>(
    s1: Shape<Q::V>,
    s2: Shape<Q::V>,
    n: int,
    point: Q::V,
    x: int,
)
    requires
        same_below(s1, s2, n),
        x < n,
    ensures
        chain_ok::<Q, M>(s1, point, x) == chain_ok::<Q, M>(s2, point, x),
    decreases x,
{
    if 0 < x && 0 <= s1.parent(x) < x {
        lemma_chain_frame::<Q, M>(s1, s2, n, point, s1.parent(x));
    }
}

/// In a Burkhard-Keller tree, a node that holds `point` lies below `cur`
/// only through the child of `cur` in the slot that is the distance between
/// `point` and the key of `cur`.
pub proof fn lemma_way_down<Q: View + ?Sized, M: Metric<Q>>(
    s: Shape<Q::V>,
    point: Q::V,
    cur: int,
    j: int,
)
    requires
        is_bk_tree::<Q, M>(s),
        0 <= cur,
        j < s.len(),
        s.is_anc(cur, j),
        cur != j,
        s.keys[j] == point,
    ensures
        s.edge(cur, s.rank(s.toward(cur, j))),
        s.child(cur, s.rank(s.toward(cur, j))) == s.toward(cur, j),
        s.slot(cur, s.rank(s.toward(cur, j))) == M::dist(s.keys[cur], point),
        s.is_anc(s.toward(cur, j), j),
{
    s.lemma_anc_le(cur, j);
    s.lemma_toward(cur, j);
    s.lemma_parent(s.toward(cur, j));
    assert(chain_ok::<Q, M>(s, s.keys[j], j));
    lemma_chain_slot::<Q, M>(s, point, cur, j);
}

} // verus!
