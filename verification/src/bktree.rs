//! What a tree offers to a search, however its nodes are stored.

use crate::error::BkError;
use crate::keyquery::KeyQuery;
use crate::metric::Metric;
use crate::shape::{added, is_bk_tree, Shape};
use crate::Dist;
use vstd::prelude::*;

pub mod find;
pub mod preorder;
pub mod walk;

verus! {

/// The points that the keys and queries of `KQ` stand for.
pub type Point<KQ> = <<KQ as KeyQuery>::Key as View>::V;

/// A tree whose nodes are addressed by index.  Node `0` is the root.
///
/// What is stored may come from a file, so every access can fail.  Where the
/// stored data is well formed, no access to a node of the tree fails; where
/// one fails, the failure says that the data is not in the format.
pub trait BkTree: Sized {
    /// The keys that the tree stores and the queries that it answers.
    type KQ: KeyQuery;

    /// The metric that orders the tree.
    type Metric: Metric<<Self::KQ as KeyQuery>::Query>;

    /// The tree that is stored.
    spec fn shape(&self) -> Shape<Point<Self::KQ>>;

    /// Whether what is stored can be read as a tree.
    spec fn wf(&self) -> bool;

    /// The point that the key of node `index` stands for, if there is such
    /// a node and its key can be read.
    spec fn key_of(&self, index: int) -> Option<Point<Self::KQ>>;

    /// What is well formed is a Burkhard-Keller tree under the metric, and
    /// the keys of its nodes can be read.
    proof fn lemma_wf(&self)
        requires
            self.wf(),
        ensures
            is_bk_tree::<<Self::KQ as KeyQuery>::Query, Self::Metric>(self.shape()),
            forall|index: int|
                0 <= index < self.shape().len() ==> #[trigger] self.key_of(index) == Some(
                    self.shape().keys[index],
                ),
    ;

    /// The number of nodes.
    fn node_count(&self) -> (n: usize)
        ensures
            self.wf() ==> n == self.shape().len(),
    ;

    /// The index of the root, if the tree has nodes.
    fn root(&self) -> (r: Option<usize>)
        ensures
            self.wf() ==> r == (if self.shape().len() > 0 {
                Some(0usize)
            } else {
                None
            }),
    ;

    /// An estimate of the depth of the tree, to size a search's stack.
    fn max_depth_hint(&self) -> usize;

    /// The key of node `index`.
    fn key_at(&self, index: usize) -> (r: Result<<Self::KQ as KeyQuery>::Key, BkError>)
        ensures
            self.wf() && index < self.shape().len() ==> r is Ok,
            r is Ok ==> self.key_of(index as int) == Some(r->Ok_0@),
            r is Err ==> r->Err_0.spec_is_format_error(),
    ;

    /// The distance between the key of node `index` and `needle`.
    fn distance_at(&self, index: usize, needle: &<Self::KQ as KeyQuery>::Query) -> (r: Result<
        Dist,
        BkError,
    >)
        ensures
            self.wf() && index < self.shape().len() ==> r is Ok,
            r is Ok ==> self.key_of(index as int) is Some && r->Ok_0 == Self::Metric::dist(
                self.key_of(index as int)->Some_0,
                needle@,
            ),
            r is Err ==> r->Err_0.spec_is_format_error(),
    ;

    /// The children of node `index`, each with its slot.
    fn children_vector(&self, index: usize) -> (r: Result<Vec<(Dist, usize)>, BkError>)
        ensures
            self.wf() && index < self.shape().len() ==> r is Ok && r->Ok_0@
                == self.shape().kids[index as int],
            r is Err ==> r->Err_0.spec_is_format_error(),
    ;
}

/// A tree that keys can be added to.
pub trait BkTreeAdd: BkTree {
    /// Adds `query` to the tree, unless the tree holds it already: a tree
    /// that holds it stays as it is, and any other gets one more leaf.
    fn add(&mut self, query: &<Self::KQ as KeyQuery>::Query)
        requires
            old(self).wf(),
        ensures
            final(self).wf(),
            added(old(self).shape(), final(self).shape(), query@),
    ;
}

} // verus!
