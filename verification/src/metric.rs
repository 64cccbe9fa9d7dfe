//! The distance function that a tree is built on.

use crate::Dist;
use vstd::prelude::*;

pub mod hamming;
pub mod strlen;

verus! {

/// A distance between two queries of type `Q`, stated over their views.
///
/// The search prunes subtrees by the triangle inequality, so an
/// implementation has to prove the laws of a pseudometric for its `dist`.
/// A distance also names a child slot of a node, so it stays below
/// `usize::MAX`.
pub trait Metric<Q: View + ?Sized> {
    /// The distance between two points.
    spec fn dist(a: Q::V, b: Q::V) -> nat;

    /// Every distance is a valid slot index.
    proof fn lemma_dist_bounded(a: Q::V, b: Q::V)
        ensures
            Self::dist(a, b) < usize::MAX,
    ;

    /// A point is at distance zero from itself.
    proof fn lemma_dist_self(a: Q::V)
        ensures
            Self::dist(a, a) == 0,
    ;

    /// The distance does not depend on the order of its arguments.
    proof fn lemma_dist_symmetric(a: Q::V, b: Q::V)
        ensures
            Self::dist(a, b) == Self::dist(b, a),
    ;

    /// Going through a third point is never shorter.
    proof fn lemma_dist_triangle(a: Q::V, b: Q::V, c: Q::V)
        ensures
            Self::dist(a, c) <= Self::dist(a, b) + Self::dist(b, c),
    ;

    /// Computes the distance between `k1` and `k2`.
    fn distance(&self, k1: &Q, k2: &Q) -> (d: Dist)
        ensures
            d == Self::dist(k1@, k2@),
    ;

    /// Computes the distance between `k1` and `k2` without a metric value.
    fn distance_static(k1: &Q, k2: &Q) -> (d: Dist)
        ensures
            d == Self::dist(k1@, k2@),
    ;
}

} // verus!
