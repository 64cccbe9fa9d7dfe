//! The walk over a whole tree, each node before its children.

use crate::bktree::walk::{
    lemma_room_left, lemma_walk_child, lemma_walk_expanded, lemma_walk_pop, visited_ok, walk_ok,
};
use crate::bktree::{BkTree, Point};
use crate::error::BkError;
use crate::keyquery::KeyQuery;
use crate::Dist;
use vstd::prelude::*;

verus! {

/// The entries of a walk as points: the slot of a node, the number of its
/// children, and the view of its key.
pub open spec fn entries<K: View>(out: Seq<(Dist, usize, K)>) -> Seq<(Dist, usize, K::V)> {
    out.map_values(|e: (Dist, usize, K)| (e.0, e.1, e.2@))
}

/// A walk over a tree that is under way: the nodes that wait to be walked.
pub struct BkPreOrder<'a, T: BkTree> {
    tree: &'a T,
    stack: Vec<(Dist, usize)>,
}

impl<'a, T: BkTree> BkPreOrder<'a, T> {
    /// Whether nothing was walked yet.
    pub closed spec fn fresh(&self) -> bool {
        self.stack@.len() == 0
    }

    /// The tree that is walked.
    pub closed spec fn tree(&self) -> &'a T {
        self.tree
    }

    /// Prepares a walk over `tree`.
    pub fn new(tree: &'a T) -> (walk: Self)
        ensures
            walk.fresh(),
            walk.tree() == tree,
    {
        BkPreOrder { tree, stack: Vec::new() }
    }

    /// Walks the tree and returns, for each node, its slot in its parent
    /// (`0` for the root), the number of its children, and its key: each
    /// node before its children, and the children of a node from the
    /// nearest slot to the farthest.
    pub fn each(self) -> (r: Result<Vec<(Dist, usize, <T::KQ as KeyQuery>::Key)>, BkError>)
        requires
            self.fresh(),
        ensures
            self.tree().wf() ==> r is Ok && entries(r->Ok_0@) == self.tree().shape().preorder(),
            r is Err ==> r->Err_0.spec_is_format_error(),
    {
        self.each_stacksafe()
    }

    /// The walk of `each`, with a stack of its own in place of recursion, so
    /// that a deep tree does not exhaust the call stack.
    pub fn each_stacksafe(self) -> (r: Result<
        Vec<(Dist, usize, <T::KQ as KeyQuery>::Key)>,
        BkError,
    >)
        requires
            self.fresh(),
        ensures
            self.tree().wf() ==> r is Ok && entries(r->Ok_0@) == self.tree().shape().preorder(),
            r is Err ==> r->Err_0.spec_is_format_error(),
    {
        let tree = self.tree;
        let mut stack = self.stack;
        let mut out: Vec<(Dist, usize, <T::KQ as KeyQuery>::Key)> = Vec::new();
        let ghost s = tree.shape();
        let ghost wf = tree.wf();
        let ghost mut visited: Set<int> = Set::empty();
        let mut budget = tree.node_count();
        proof {
            if wf {
                tree.lemma_wf();
            }
        }
        match tree.root() {
            Some(root) => {
                stack.push((0, root));
                proof {
                    if wf {
                        assert(stack@.drop_last() =~= Seq::empty());
                        assert(s.pending(stack@.drop_last()) =~= Seq::empty());
                        assert(stack@.last() == (0usize, 0usize));
                        assert(s.pending(stack@) =~= s.preorder());
                    }
                }
            },
            None => {},
        }
        assert(entries(out@) =~= Seq::empty());
        while stack.len() > 0
            invariant
                tree == self.tree(),
                s == tree.shape(),
                wf == tree.wf(),
                wf ==> forall|index: int|
                    0 <= index < s.len() ==> #[trigger] tree.key_of(index) == Some(s.keys[index]),
                wf ==> s.is_tree(),
                wf ==> budget + visited.len() == s.len(),
                wf ==> visited_ok(s, visited),
                wf ==> walk_ok(s, visited, -1, 0, stack@),
                wf ==> entries(out@) + s.pending(stack@) == s.preorder(),
            decreases budget,
        {
            let ghost before = stack@;
            let top = stack.pop().unwrap();
            let dist = top.0;
            let index = top.1;
            let ghost p = index as int;
            let ghost rest = stack@;
            proof {
                if wf {
                    lemma_walk_pop(s, visited, before);
                    assert(stack@ == before.drop_last());
                    lemma_room_left(visited, s.len(), p);
                }
            }
            if budget == 0 {
                return Err(BkError::MalformedTree);
            }
            budget -= 1;
            let children = tree.children_vector(index)?;
            let key = tree.key_at(index)?;
            let ghost told = entries(out@);
            out.push((dist, children.len(), key));
            proof {
                if wf {
                    assert(entries(out@) =~= told.push((dist, children.len(), s.keys[p])));
                    assert(s.preorder_kids(p, 0) =~= Seq::empty());
                    assert(Seq::<(Dist, usize, Point<T::KQ>)>::empty() + s.pending(rest)
                        =~= s.pending(rest));
                }
            }
            let mut k: usize = 0;
            while k < children.len()
                invariant
                    tree == self.tree(),
                    s == tree.shape(),
                    wf == tree.wf(),
                    wf ==> forall|index: int|
                        0 <= index < s.len() ==> #[trigger] tree.key_of(index) == Some(
                            s.keys[index],
                        ),
                    0 <= k <= children.len(),
                    p == index,
                    wf ==> s.is_tree(),
                    wf ==> visited_ok(s, visited),
                    wf ==> 0 <= p < s.len() && !visited.contains(p) && children@ == s.kids[p],
                    wf ==> walk_ok(s, visited, p, k as int, stack@),
                    wf ==> s.pending(stack@) == s.preorder_kids(p, k as int) + s.pending(rest),
                decreases children.len() - k,
            {
                let ghost stack_before = stack@;
                stack.push(children[k]);
                proof {
                    if wf {
                        assert(s.edge(p, k as int));
                        s.lemma_edge(p, k as int);
                        lemma_walk_child(s, visited, stack_before, p, k as int, true, children[k as int].0);
                        assert(stack@.drop_last() =~= stack_before);
                        let sub = s.preorder_from(s.child(p, k as int), s.slot(p, k as int));
                        assert(s.pending(stack@) == sub + s.pending(stack_before));
                        assert(s.preorder_kids(p, k + 1) == sub + s.preorder_kids(p, k as int));
                        assert(sub + (s.preorder_kids(p, k as int) + s.pending(rest)) =~= (sub
                            + s.preorder_kids(p, k as int)) + s.pending(rest));
                    }
                }
                k += 1;
            }
            proof {
                if wf {
                    lemma_walk_expanded(s, visited, stack@, p);
                    let here = seq![(dist, children.len(), s.keys[p])];
                    assert(s.preorder_from(p, dist) == here + s.preorder_kids(
                        p,
                        s.kids[p].len() as int,
                    ));
                    assert(s.pending(before) == s.preorder_from(p, dist) + s.pending(rest));
                    assert(told + ((here + s.preorder_kids(p, s.kids[p].len() as int)) + s.pending(
                        rest,
                    )) =~= told.push((dist, children.len(), s.keys[p])) + (s.preorder_kids(
                        p,
                        s.kids[p].len() as int,
                    ) + s.pending(rest)));
                    visited = visited.insert(p);
                }
            }
        }
        proof {
            if wf {
                assert(entries(out@) + Seq::<(Dist, usize, Point<T::KQ>)>::empty() =~= entries(
                    out@,
                ));
            }
        }
        Ok(out)
    }
}

} // verus!
