//! Two trees with the same nodes under other indices.
//!
//! A tree that is copied node by node, each child into a slot of the same
//! distance, is a Burkhard-Keller tree if the one it was copied from is, and
//! holds the same keys.

use crate::metric::Metric;
use crate::shape::{chain_ok, is_bk_tree, Shape};
use vstd::prelude::*;

verus! {

/// Whether `copy` has the nodes of `tree`, with node `f` of `copy` standing
/// for node `place[f]` of `tree`: the roots stand for each other, no node of
/// `tree` is stood for twice, a node has the key and as many children as
/// the node that it stands for, and the children of a node stand for the
/// children of that node, in the same order and in slots of the same
/// distance.
pub open spec fn mirrors<P>(tree: Shape<P>, copy: Shape<P>, place: Seq<int>) -> bool {
    &&& copy.keys.len() == tree.keys.len()
    &&& copy.kids.len() == copy.keys.len()
    &&& place.len() == tree.keys.len()
    &&& place.len() > 0 ==> place[0] == 0
    &&& forall|f: int| 0 <= f < place.len() ==> 0 <= #[trigger] place[f] < tree.len()
    &&& forall|f: int, g: int|
        0 <= f < place.len() && 0 <= g < place.len() && f != g ==> #[trigger] place[f]
            != #[trigger] place[g]
    &&& forall|f: int| 0 <= f < place.len() ==> #[trigger] copy.keys[f] == tree.keys[place[f]]
    &&& forall|f: int|
        0 <= f < place.len() ==> (#[trigger] copy.kids[f]).len() == tree.kids[place[f]].len()
    &&& forall|f: int, i: int| #[trigger]
        copy.edge(f, i) ==> {
            &&& f < copy.child(f, i) < copy.len()
            &&& place[copy.child(f, i)] == tree.child(place[f], i)
            &&& copy.slot(f, i) == tree.slot(place[f], i)
        }
}

/// As many different numbers below `n` as there are numbers below `n` are
/// all of them.
pub proof fn lemma_onto(place: Seq<int>, n: nat, a: int) -> (f: int)
    requires
        place.len() == n,
        forall|f: int| 0 <= f < place.len() ==> 0 <= #[trigger] place[f] < n,
        forall|f: int, g: int|
            0 <= f < place.len() && 0 <= g < place.len() && f != g ==> #[trigger] place[f]
                != #[trigger] place[g],
        0 <= a < n,
    ensures
        0 <= f < n,
        place[f] == a,
{
    let all = vstd::set_lib::set_int_range(0, n as int);
    vstd::set_lib::lemma_int_range(0, n as int);
    assert(place.no_duplicates());
    place.unique_seq_to_set();
    let got = place.to_set();
    assert(got.subset_of(all)) by {
        assert forall|x: int| got.contains(x) implies all.contains(x) by {
            let f = choose|f: int| 0 <= f < place.len() && place[f] == x;
        }
    }
    vstd::set_lib::lemma_subset_equality(got, all);
    assert(got.contains(a));
    choose|f: int| 0 <= f < place.len() && place[f] == a
}

/// No more different numbers below `n` can be listed than `n`.
pub proof fn lemma_at_most(place: Seq<int>, n: nat)
    requires
        forall|f: int| 0 <= f < place.len() ==> 0 <= #[trigger] place[f] < n,
        forall|f: int, g: int|
            0 <= f < place.len() && 0 <= g < place.len() && f != g ==> #[trigger] place[f]
                != #[trigger] place[g],
    ensures
        place.len() <= n,
{
    let all = vstd::set_lib::set_int_range(0, n as int);
    vstd::set_lib::lemma_int_range(0, n as int);
    assert(place.no_duplicates());
    place.unique_seq_to_set();
    let got = place.to_set();
    assert(got.subset_of(all)) by {
        assert forall|x: int| got.contains(x) implies all.contains(x) by {
            let f = choose|f: int| 0 <= f < place.len() && place[f] == x;
        }
    }
    vstd::set_lib::lemma_len_subset(got, all);
}

/// A copy of a tree is a tree.
pub proof fn lemma_mirror_tree<P>(tree: Shape<P>, copy: Shape<P>, place: Seq<int>)
    requires
        tree.is_tree(),
        mirrors(tree, copy, place),
    ensures
        copy.is_tree(),
{
    let n = tree.len();
    assert forall|c: int| 0 < c < copy.len() implies #[trigger] copy.has_parent(c) by {
        let a = place[c];
        assert(a != place[0]);
        tree.lemma_parent(a);
        let p = tree.parent(a);
        let k = tree.rank(a);
        let f = lemma_onto(place, n, p);
        assert(copy.edge(f, k));
        assert(place[copy.child(f, k)] == a);
        assert(copy.child(f, k) == c);
        assert(copy.lists(f, c));
    }
    assert forall|f1: int, i1: int, f2: int, i2: int|
        #[trigger] copy.edge(f1, i1) && #[trigger] copy.edge(f2, i2) && copy.child(f1, i1)
            == copy.child(f2, i2) implies f1 == f2 && i1 == i2 by {
        assert(tree.edge(place[f1], i1));
        assert(tree.edge(place[f2], i2));
    }
    assert forall|f: int, i1: int, i2: int|
        #[trigger] copy.edge(f, i1) && #[trigger] copy.edge(f, i2) && copy.slot(f, i1)
            == copy.slot(f, i2) implies i1 == i2 by {
        assert(tree.edge(place[f], i1));
        assert(tree.edge(place[f], i2));
    }
}

/// In a copy of a tree, the parent of a node stands for the parent of the
/// node that it stands for, and the node is in a slot of the same distance.
pub proof fn lemma_mirror_parent<P>(tree: Shape<P>, copy: Shape<P>, place: Seq<int>, c: int)
    requires
        tree.is_tree(),
        mirrors(tree, copy, place),
        0 < c < copy.len(),
    ensures
        0 <= copy.parent(c) < c,
        0 < place[c] < tree.len(),
        place[copy.parent(c)] == tree.parent(place[c]),
        copy.slot_of(c) == tree.slot_of(place[c]),
{
    lemma_mirror_tree(tree, copy, place);
    copy.lemma_parent(c);
    let f = copy.parent(c);
    let i = copy.rank(c);
    assert(copy.edge(f, i));
    assert(tree.edge(place[f], i));
    tree.lemma_edge(place[f], i);
    assert(place[c] != place[0]);
}

/// A point fits the path to a node of a copy as it fits the path to the
/// node that the node stands for.
pub proof fn lemma_mirror_chain<Q: View + ?Sized, M: Metric<Q>>(
    tree: Shape<Q::V>,
    copy: Shape<Q::V>,
    place: Seq<int>,
    point: Q::V,
    c: int,
)
    requires
        tree.is_tree(),
        mirrors(tree, copy, place),
        0 <= c < copy.len(),
    ensures
        chain_ok::<Q, M>(copy, point, c) == chain_ok::<Q, M>(tree, point, place[c]),
    decreases c,
{
    if c > 0 {
        lemma_mirror_parent(tree, copy, place, c);
        tree.lemma_parent(place[c]);
        lemma_mirror_chain::<Q, M>(tree, copy, place, point, copy.parent(c));
    }
}

/// A copy of a Burkhard-Keller tree is one, and holds the same keys.
pub proof fn lemma_mirror_bk_tree<Q: View + ?Sized, M: Metric<Q>>(
    tree: Shape<Q::V>,
    copy: Shape<Q::V>,
    place: Seq<int>,
)
    requires
        is_bk_tree::<Q, M>(tree),
        mirrors(tree, copy, place),
    ensures
        is_bk_tree::<Q, M>(copy),
        copy.keys.to_set() == tree.keys.to_set(),
{
    lemma_mirror_tree(tree, copy, place);
    assert forall|j: int| 0 <= j < copy.len() implies #[trigger] chain_ok::<Q, M>(
        copy,
        copy.keys[j],
        j,
    ) by {
        lemma_mirror_chain::<Q, M>(tree, copy, place, copy.keys[j], j);
        assert(chain_ok::<Q, M>(tree, tree.keys[place[j]], place[j]));
    }
    assert forall|e: Q::V| copy.keys.to_set().contains(e) implies tree.keys.to_set().contains(
        e,
    ) by {
        let f = choose|f: int| 0 <= f < copy.keys.len() && copy.keys[f] == e;
        assert(tree.keys[place[f]] == e);
    }
    assert forall|e: Q::V| tree.keys.to_set().contains(e) implies copy.keys.to_set().contains(
        e,
    ) by {
        let a = choose|a: int| 0 <= a < tree.keys.len() && tree.keys[a] == e;
        let f = lemma_onto(place, tree.len(), a);
        assert(copy.keys[f] == e);
    }
    assert(copy.keys.to_set() =~= tree.keys.to_set());
}

} // verus!
