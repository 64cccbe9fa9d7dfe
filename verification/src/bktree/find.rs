//! The search: depth first over an explicit stack, skipping every subtree
//! that the triangle inequality rules out.

use crate::bktree::walk::{
    lemma_room_left, lemma_walk_child, lemma_walk_expanded, lemma_walk_pop, visited_ok, walk_ok,
};
use crate::bktree::{BkTree, Point};
use crate::error::BkError;
use crate::keyquery::KeyQuery;
use crate::metric::Metric;
use crate::shape::{chain_ok, is_bk_tree, lemma_chain_slot, match_set, Shape};
use crate::Dist;
use vstd::prelude::*;

verus! {

/// The results of a search as points: each distance with the view of its key.
pub open spec fn pairs<K: View>(out: Seq<(Dist, K)>) -> Seq<(Dist, K::V)> {
    out.map_values(|e: (Dist, K)| (e.0, e.1@))
}

/// Whether `out` holds, once each, exactly the keys of `keys` that are
/// within `tolerance` of `needle`, each with its distance to `needle`.
pub open spec fn finds_exactly<KQ: KeyQuery, M: Metric<KQ::Query>>(
    out: Seq<(Dist, KQ::Key)>,
    keys: Set<Point<KQ>>,
    needle: Point<KQ>,
    tolerance: Dist,
) -> bool {
    &&& pairs(out).no_duplicates()
    &&& pairs(out).to_set() == match_set::<KQ::Query, M>(keys, needle, tolerance)
}

/// Whether each candidate on the stack comes with the distance between its
/// key and the needle.
pub open spec fn measured<Q: View + ?Sized, M: Metric<Q>>(
    s: Shape<Q::V>,
    needle: Q::V,
    stack: Seq<(Dist, usize)>,
) -> bool {
    forall|i: int|
        0 <= i < stack.len() ==> (#[trigger] stack[i]).0 == M::dist(
            s.keys[stack[i].1 as int],
            needle,
        )
}

/// Whether node `j` is on the stack or below a node that is.
pub open spec fn covered<P>(s: Shape<P>, stack: Seq<(Dist, usize)>, j: int) -> bool {
    exists|i: int| 0 <= i < stack.len() && s.is_anc((#[trigger] stack[i]).1 as int, j)
}

/// What holds of the results so far: result `r` is the key of node
/// `found[r]`, which was examined and is close enough, and no node was
/// reported twice.
pub open spec fn results_ok<KQ: KeyQuery, M: Metric<KQ::Query>>(
    s: Shape<Point<KQ>>,
    needle: Point<KQ>,
    tolerance: Dist,
    visited: Set<int>,
    found: Seq<int>,
    out: Seq<(Dist, KQ::Key)>,
) -> bool {
    &&& found.len() == out.len()
    &&& found.no_duplicates()
    &&& forall|r: int|
        0 <= r < found.len() ==> {
            &&& 0 <= #[trigger] found[r] < s.len()
            &&& visited.contains(found[r])
            &&& out[r].0 == M::dist(s.keys[found[r]], needle)
            &&& out[r].0 <= tolerance
            &&& out[r].1@ == s.keys[found[r]]
        }
}

/// Whether every node that is close enough to the needle was reported, is
/// still to come from the stack, is `p` itself, or lies below an entry of
/// the child list of `p` that was not looked at yet.
pub open spec fn nothing_lost<Q: View + ?Sized, M: Metric<Q>>(
    s: Shape<Q::V>,
    needle: Q::V,
    tolerance: Dist,
    found: Seq<int>,
    stack: Seq<(Dist, usize)>,
    p: int,
    k: int,
) -> bool {
    forall|j: int|
        0 <= j < s.len() && M::dist(#[trigger] s.keys[j], needle) <= tolerance ==> {
            ||| found.contains(j)
            ||| covered(s, stack, j)
            ||| j == p
            ||| (0 <= p && s.is_anc(p, j) && s.rank(s.toward(p, j)) >= k)
        }
}

/// Taking the top candidate `p` off the stack to expand it loses nothing:
/// what was below `p` is `p` or below one of its children.
pub proof fn lemma_pop<Q: View + ?Sized, M: Metric<Q>>(
    s: Shape<Q::V>,
    needle: Q::V,
    tolerance: Dist,
    found: Seq<int>,
    stack: Seq<(Dist, usize)>,
)
    requires
        s.is_tree(),
        stack.len() > 0,
        0 <= stack.last().1 < s.len(),
        nothing_lost::<Q, M>(s, needle, tolerance, found, stack, -1, 0),
    ensures
        nothing_lost::<Q, M>(
            s,
            needle,
            tolerance,
            found,
            stack.drop_last(),
            stack.last().1 as int,
            0,
        ),
{
    let rest = stack.drop_last();
    let p = stack.last().1 as int;
    assert forall|j: int|
        0 <= j < s.len() && M::dist(#[trigger] s.keys[j], needle) <= tolerance implies {
        ||| found.contains(j)
        ||| covered(s, rest, j)
        ||| j == p
        ||| (0 <= p && s.is_anc(p, j) && s.rank(s.toward(p, j)) >= 0)
    } by {
        if !found.contains(j) {
            assert(covered(s, stack, j));
            let i = choose|i: int| 0 <= i < stack.len() && s.is_anc((#[trigger] stack[i]).1 as int, j);
            if i < rest.len() {
                assert(rest[i] == stack[i]);
                assert(covered(s, rest, j));
            } else if j != p {
                s.lemma_toward(p, j);
                s.lemma_parent(s.toward(p, j));
            }
        }
    }
}

/// Looking at entry `k` of the child list of `p` loses nothing: the child
/// goes on the stack if its slot is within `tolerance` of the distance
/// between `p` and the needle, and by the triangle inequality nothing below
/// it is close enough to the needle if it is not.
pub proof fn lemma_child<Q: View + ?Sized, M: Metric<Q>>(
    s: Shape<Q::V>,
    needle: Q::V,
    tolerance: Dist,
    found: Seq<int>,
    stack: Seq<(Dist, usize)>,
    p: int,
    k: int,
    pushed: bool,
    child_dist: Dist,
)
    requires
        is_bk_tree::<Q, M>(s),
        0 <= p < s.len(),
        s.edge(p, k),
        nothing_lost::<Q, M>(s, needle, tolerance, found, stack, p, k),
        !pushed ==> s.slot(p, k) + tolerance < M::dist(s.keys[p], needle) || M::dist(
            s.keys[p],
            needle,
        ) + tolerance < s.slot(p, k),
    ensures
        nothing_lost::<Q, M>(
            s,
            needle,
            tolerance,
            found,
            if pushed {
                stack.push((child_dist, s.kids[p][k].1))
            } else {
                stack
            },
            p,
            k + 1,
        ),
{
    let c = s.child(p, k);
    let next = if pushed {
        stack.push((child_dist, s.kids[p][k].1))
    } else {
        stack
    };
    s.lemma_edge(p, k);
    assert forall|j: int|
        0 <= j < s.len() && M::dist(#[trigger] s.keys[j], needle) <= tolerance implies {
        ||| found.contains(j)
        ||| covered(s, next, j)
        ||| j == p
        ||| (0 <= p && s.is_anc(p, j) && s.rank(s.toward(p, j)) >= k + 1)
    } by {
        if found.contains(j) || j == p {
        } else if covered(s, stack, j) {
            let i = choose|i: int| 0 <= i < stack.len() && s.is_anc((#[trigger] stack[i]).1 as int, j);
            assert(next[i] == stack[i]);
            assert(covered(s, next, j));
        } else {
            let t = s.toward(p, j);
            assert(s.is_anc(p, j) && s.rank(t) >= k);
            if s.rank(t) == k {
                s.lemma_toward(p, j);
                s.lemma_parent(t);
                assert(t == c);
                if pushed {
                    assert(next[stack.len() as int].1 as int == c);
                    assert(covered(s, next, j));
                } else {
                    assert(chain_ok::<Q, M>(s, s.keys[j], j));
                    lemma_chain_slot::<Q, M>(s, s.keys[j], p, j);
                    M::lemma_dist_triangle(s.keys[p], needle, s.keys[j]);
                    M::lemma_dist_triangle(s.keys[p], s.keys[j], needle);
                    M::lemma_dist_symmetric(needle, s.keys[j]);
                    assert(false);
                }
            }
        }
    }
}

/// Closing the expansion of `p` loses nothing, if `p` is reported where it
/// is close enough to the needle.
pub proof fn lemma_expanded<Q: View + ?Sized, M: Metric<Q>>(
    s: Shape<Q::V>,
    needle: Q::V,
    tolerance: Dist,
    found: Seq<int>,
    stack: Seq<(Dist, usize)>,
    p: int,
)
    requires
        s.is_tree(),
        0 <= p < s.len(),
        nothing_lost::<Q, M>(s, needle, tolerance, found, stack, p, s.kids[p].len() as int),
    ensures
        nothing_lost::<Q, M>(
            s,
            needle,
            tolerance,
            if M::dist(s.keys[p], needle) <= tolerance {
                found.push(p)
            } else {
                found
            },
            stack,
            -1,
            0,
        ),
{
    let told = if M::dist(s.keys[p], needle) <= tolerance {
        found.push(p)
    } else {
        found
    };
    assert forall|j: int|
        0 <= j < s.len() && M::dist(#[trigger] s.keys[j], needle) <= tolerance implies {
        ||| told.contains(j)
        ||| covered(s, stack, j)
    } by {
        if found.contains(j) {
            let r = choose|r: int| 0 <= r < found.len() && found[r] == j;
            assert(told[r] == j);
        } else if j == p {
            assert(told[found.len() as int] == p);
        } else if !covered(s, stack, j) {
            s.lemma_toward(p, j);
            s.lemma_parent(s.toward(p, j));
            assert(false);
        }
    }
}

/// Once the stack is empty, the results are exactly what the search owes.
pub proof fn lemma_search_done<KQ: KeyQuery, M: Metric<KQ::Query>>(
    s: Shape<Point<KQ>>,
    needle: Point<KQ>,
    tolerance: Dist,
    visited: Set<int>,
    found: Seq<int>,
    out: Seq<(Dist, KQ::Key)>,
)
    requires
        is_bk_tree::<KQ::Query, M>(s),
        results_ok::<KQ, M>(s, needle, tolerance, visited, found, out),
        nothing_lost::<KQ::Query, M>(s, needle, tolerance, found, Seq::empty(), -1, 0),
    ensures
        finds_exactly::<KQ, M>(out, s.keys.to_set(), needle, tolerance),
{
    let got = pairs(out);
    let owed = match_set::<KQ::Query, M>(s.keys.to_set(), needle, tolerance);
    assert forall|r1: int, r2: int| 0 <= r1 < got.len() && 0 <= r2 < got.len() && r1 != r2 implies got[r1]
        != got[r2] by {
        assert(found[r1] != found[r2]);
        assert(s.keys[found[r1]] != s.keys[found[r2]]);
    }
    assert forall|e: (Dist, Point<KQ>)| got.to_set().contains(e) implies owed.contains(e) by {
        let r = choose|r: int| 0 <= r < got.len() && got[r] == e;
        assert(s.keys.contains(s.keys[found[r]]));
    }
    assert forall|e: (Dist, Point<KQ>)| owed.contains(e) implies got.to_set().contains(e) by {
        let j = choose|j: int| 0 <= j < s.keys.len() && s.keys[j] == e.1;
        assert(M::dist(s.keys[j], needle) <= tolerance);
        assert(!covered(s, Seq::<(Dist, usize)>::empty(), j));
        assert(found.contains(j));
        let r = choose|r: int| 0 <= r < found.len() && found[r] == j;
        assert(got[r] == e);
    }
    assert(got.to_set() =~= owed);
}

/// Whether each candidate on the stack is a node whose key can be read, and
/// comes with the distance between that key and the needle.
pub open spec fn known<T: BkTree>(tree: &T, needle: Point<T::KQ>, stack: Seq<(Dist, usize)>) -> bool {
    forall|i: int|
        0 <= i < stack.len() ==> {
            let e = #[trigger] stack[i];
            tree.key_of(e.1 as int) is Some && e.0 == T::Metric::dist(
                tree.key_of(e.1 as int)->Some_0,
                needle,
            )
        }
}

/// Whether `point` is the key of a node of `tree`.
pub open spec fn holds_key<T: BkTree>(tree: &T, point: Point<T::KQ>) -> bool {
    exists|j: int| #[trigger] tree.key_of(j) == Some(point)
}

/// Whether each entry of `out` is a key that was read from a node of `tree`
/// and that is within `tolerance` of `needle`, with its distance.
pub open spec fn answers<T: BkTree>(
    tree: &T,
    out: Seq<(Dist, <T::KQ as KeyQuery>::Key)>,
    needle: Point<T::KQ>,
    tolerance: Dist,
) -> bool {
    forall|i: int|
        0 <= i < out.len() ==> {
            let e = #[trigger] out[i];
            holds_key(tree, e.1@) && e.0 == T::Metric::dist(e.1@, needle) && e.0 <= tolerance
        }
}

/// A search that is under way: the candidates that are still to be examined.
pub struct BkFind<'a, T: BkTree> {
    tree: &'a T,
    needle: &'a <T::KQ as KeyQuery>::Query,
    tolerance: Dist,
    stack: Vec<(Dist, usize)>,
}

impl<'a, T: BkTree> BkFind<'a, T> {
    /// Whether no candidate has been put on the stack yet.
    pub closed spec fn fresh(&self) -> bool {
        self.stack@.len() == 0
    }

    /// The tree that is searched.
    pub closed spec fn tree(&self) -> &'a T {
        self.tree
    }

    /// The point that is searched for.
    pub closed spec fn needle(&self) -> Point<T::KQ> {
        self.needle@
    }

    /// How far from the needle a result may be.
    pub closed spec fn tolerance(&self) -> Dist {
        self.tolerance
    }

    /// Prepares a search of `tree` for the keys within `tolerance` of
    /// `needle`.
    pub fn new(tree: &'a T, tolerance: Dist, needle: &'a <T::KQ as KeyQuery>::Query) -> (find: Self)
        ensures
            find.fresh(),
            find.tree() == tree,
            find.needle() == needle@,
            find.tolerance() == tolerance,
    {
        let stack = Vec::with_capacity(tree.max_depth_hint());
        BkFind { tree, needle, tolerance, stack }
    }

    /// Runs the search: returns every key of the tree that is within the
    /// tolerance of the needle, each once and with its distance.  Whatever
    /// is stored, what is returned was read from a node and is within the
    /// tolerance.
    ///
    /// A candidate is a node with its distance to the needle.  Expanding a
    /// candidate puts on the stack the children whose slot differs from that
    /// distance by no more than the tolerance; no key below another child
    /// can be close enough.  Children come in the order of the child list,
    /// so the last of them is expanded first.
    pub fn each(self) -> (r: Result<Vec<(Dist, <T::KQ as KeyQuery>::Key)>, BkError>)
        requires
            self.fresh(),
        ensures
            self.tree().wf() ==> r is Ok && finds_exactly::<T::KQ, T::Metric>(
                r->Ok_0@,
                self.tree().shape().keys.to_set(),
                self.needle(),
                self.tolerance(),
            ),
            r is Ok ==> answers(self.tree(), r->Ok_0@, self.needle(), self.tolerance()),
            r is Err ==> r->Err_0.spec_is_format_error(),
    {
        let tree = self.tree;
        let needle = self.needle;
        let tolerance = self.tolerance;
        let mut stack = self.stack;
        let mut out: Vec<(Dist, <T::KQ as KeyQuery>::Key)> = Vec::new();
        let ghost s = tree.shape();
        let ghost wf = tree.wf();
        let ghost mut visited: Set<int> = Set::empty();
        let ghost mut found: Seq<int> = Seq::empty();
        let mut budget = tree.node_count();
        proof {
            if wf {
                tree.lemma_wf();
            }
        }
        match tree.root() {
            Some(root) => {
                let d = tree.distance_at(root, needle)?;
                stack.push((d, root));
                proof {
                    if wf {
                        assert forall|j: int| 0 <= j < s.len() implies covered(s, stack@, j) by {
                            s.lemma_root_anc(j);
                            assert(s.is_anc(stack@[0].1 as int, j));
                        }
                    }
                }
            },
            None => {},
        }
        while stack.len() > 0
            invariant
                tree == self.tree(),
                needle@ == self.needle(),
                tolerance == self.tolerance(),
                known(tree, needle@, stack@),
                answers(tree, out@, needle@, tolerance),
                s == tree.shape(),
                wf == tree.wf(),
                wf ==> forall|index: int|
                    0 <= index < s.len() ==> #[trigger] tree.key_of(index) == Some(s.keys[index]),
                wf ==> is_bk_tree::<<T::KQ as KeyQuery>::Query, T::Metric>(s),
                wf ==> budget + visited.len() == s.len(),
                wf ==> visited_ok(s, visited),
                wf ==> walk_ok(s, visited, -1, 0, stack@),
                wf ==> measured::<<T::KQ as KeyQuery>::Query, T::Metric>(s, needle@, stack@),
                wf ==> results_ok::<T::KQ, T::Metric>(s, needle@, tolerance, visited, found, out@),
                wf ==> nothing_lost::<<T::KQ as KeyQuery>::Query, T::Metric>(
                    s,
                    needle@,
                    tolerance,
                    found,
                    stack@,
                    -1,
                    0,
                ),
            decreases budget,
        {
            let ghost before = stack@;
            let candidate = stack.pop().unwrap();
            let dist = candidate.0;
            let index = candidate.1;
            let ghost p = index as int;
            proof {
                if wf {
                    assert(stack@ == before.drop_last());
                    lemma_walk_pop(s, visited, before);
                    lemma_pop::<<T::KQ as KeyQuery>::Query, T::Metric>(
                        s,
                        needle@,
                        tolerance,
                        found,
                        before,
                    );
                    lemma_room_left(visited, s.len(), p);
                }
            }
            if budget == 0 {
                return Err(BkError::MalformedTree);
            }
            budget -= 1;
            let min = dist.saturating_sub(tolerance);
            let max = dist.saturating_add(tolerance);
            let children = tree.children_vector(index)?;
            let mut k: usize = 0;
            while k < children.len()
                invariant
                    tree == self.tree(),
                    known(tree, needle@, stack@),
                    s == tree.shape(),
                    wf == tree.wf(),
                    wf ==> forall|index: int|
                        0 <= index < s.len() ==> #[trigger] tree.key_of(index) == Some(
                            s.keys[index],
                        ),
                    0 <= k <= children.len(),
                    min == if dist >= tolerance {
                        (dist - tolerance) as usize
                    } else {
                        0usize
                    },
                    max == if dist + tolerance > usize::MAX {
                        usize::MAX
                    } else {
                        (dist + tolerance) as usize
                    },
                    p == index,
                    wf ==> is_bk_tree::<<T::KQ as KeyQuery>::Query, T::Metric>(s),
                    wf ==> visited_ok(s, visited),
                    wf ==> 0 <= p < s.len() && !visited.contains(p) && children@ == s.kids[p]
                        && dist == T::Metric::dist(s.keys[p], needle@),
                    wf ==> walk_ok(s, visited, p, k as int, stack@),
                    wf ==> measured::<<T::KQ as KeyQuery>::Query, T::Metric>(s, needle@, stack@),
                    wf ==> nothing_lost::<<T::KQ as KeyQuery>::Query, T::Metric>(
                        s,
                        needle@,
                        tolerance,
                        found,
                        stack@,
                        p,
                        k as int,
                    ),
                decreases children.len() - k,
            {
                let slot = children[k].0;
                let child = children[k].1;
                let ghost stack_before = stack@;
                proof {
                    if wf {
                        assert(s.edge(p, k as int));
                        s.lemma_edge(p, k as int);
                    }
                }
                if min <= slot && slot <= max {
                    let child_dist = tree.distance_at(child, needle)?;
                    stack.push((child_dist, child));
                    proof {
                        if wf {
                            lemma_walk_child(s, visited, stack_before, p, k as int, true, child_dist);
                            lemma_child::<<T::KQ as KeyQuery>::Query, T::Metric>(
                                s,
                                needle@,
                                tolerance,
                                found,
                                stack_before,
                                p,
                                k as int,
                                true,
                                child_dist,
                            );
                        }
                    }
                } else {
                    proof {
                        if wf {
                            lemma_walk_child(s, visited, stack_before, p, k as int, false, 0);
                            lemma_child::<<T::KQ as KeyQuery>::Query, T::Metric>(
                                s,
                                needle@,
                                tolerance,
                                found,
                                stack_before,
                                p,
                                k as int,
                                false,
                                0,
                            );
                        }
                    }
                }
                k += 1;
            }
            proof {
                if wf {
                    lemma_walk_expanded(s, visited, stack@, p);
                    lemma_expanded::<<T::KQ as KeyQuery>::Query, T::Metric>(
                        s,
                        needle@,
                        tolerance,
                        found,
                        stack@,
                        p,
                    );
                }
            }
            if dist <= tolerance {
                let key = tree.key_at(index)?;
                out.push((dist, key));
                proof {
                    found = found.push(p);
                    assert(before.last() == candidate);
                    assert(holds_key(tree, key@));
                }
            }
            proof {
                visited = visited.insert(p);
            }
        }
        proof {
            if wf {
                assert(stack@ =~= Seq::empty());
                lemma_search_done::<T::KQ, T::Metric>(s, needle@, tolerance, visited, found, out@);
            }
        }
        Ok(out)
    }
}

} // verus!
