//! What every walk over a tree with an explicit stack relies on: a node is
//! put on the stack when its parent is taken off, so no node is met twice.

use crate::shape::Shape;
use crate::Dist;
use vstd::prelude::*;

verus! {

/// What holds of a node `e` on the stack while node `p` is being expanded
/// and the first `k` entries of its child list have been pushed (`p` is `-1`
/// between two expansions): it was not taken off the stack yet, and it is
/// the root or a child of a node that was.
pub open spec fn waiting<P>(s: Shape<P>, visited: Set<int>, p: int, k: int, e: int) -> bool {
    &&& 0 <= e < s.len()
    &&& !visited.contains(e)
    &&& e != p
    &&& (e == 0 || visited.contains(s.parent(e)) || (s.parent(e) == p && 0 <= s.rank(e) < k))
}

/// What holds of the stack: every entry is waiting, and no node is on the
/// stack twice.
pub open spec fn walk_ok<P>(
    s: Shape<P>,
    visited: Set<int>,
    p: int,
    k: int,
    stack: Seq<(Dist, usize)>,
) -> bool {
    &&& forall|i: int|
        0 <= i < stack.len() ==> waiting(s, visited, p, k, (#[trigger] stack[i]).1 as int)
    &&& forall|i: int, j: int|
        0 <= i < j < stack.len() ==> (#[trigger] stack[i]).1 != (#[trigger] stack[j]).1
}

/// What holds of the nodes that were taken off the stack: there are finitely
/// many, and each but the root was reached from its parent.
pub open spec fn visited_ok<P>(s: Shape<P>, visited: Set<int>) -> bool {
    &&& visited.finite()
    &&& forall|v: int|
        #[trigger] visited.contains(v) ==> 0 <= v < s.len() && (v == 0 || visited.contains(
            s.parent(v),
        ))
}

/// A finite set of numbers below `n`, none of them `p`, has fewer than `n`
/// elements.
pub proof fn lemma_room_left(visited: Set<int>, n: nat, p: int)
    requires
        visited.finite(),
        forall|v: int| #[trigger] visited.contains(v) ==> 0 <= v < n,
        0 <= p < n,
        !visited.contains(p),
    ensures
        visited.len() < n,
{
    let all = vstd::set_lib::set_int_range(0, n as int);
    vstd::set_lib::lemma_int_range(0, n as int);
    let more = visited.insert(p);
    assert(more.subset_of(all));
    vstd::set_lib::lemma_len_subset(more, all);
}

/// Taking the top node off the stack to expand it.
pub proof fn lemma_walk_pop<P>(s: Shape<P>, visited: Set<int>, stack: Seq<(Dist, usize)>)
    requires
        stack.len() > 0,
        walk_ok(s, visited, -1, 0, stack),
    ensures
        waiting(s, visited, -1, 0, stack.last().1 as int),
        walk_ok(s, visited, stack.last().1 as int, 0, stack.drop_last()),
{
    let rest = stack.drop_last();
    let p = stack.last().1 as int;
    assert forall|i: int| 0 <= i < rest.len() implies waiting(
        s,
        visited,
        p,
        0,
        (#[trigger] rest[i]).1 as int,
    ) by {
        assert(rest[i] == stack[i]);
        assert(waiting(s, visited, -1, 0, stack[i].1 as int));
        assert(stack[i].1 != stack[stack.len() - 1].1);
    }
    assert forall|i: int, j: int| 0 <= i < j < rest.len() implies (#[trigger] rest[i]).1 != (
    #[trigger] rest[j]).1 by {
        assert(rest[i] == stack[i] && rest[j] == stack[j]);
    }
}

/// Looking at entry `k` of the child list of `p`, and pushing the child or
/// leaving it out.
pub proof fn lemma_walk_child<P>(
    s: Shape<P>,
    visited: Set<int>,
    stack: Seq<(Dist, usize)>,
    p: int,
    k: int,
    pushed: bool,
    tag: Dist,
)
    requires
        s.is_tree(),
        visited_ok(s, visited),
        0 <= p < s.len(),
        !visited.contains(p),
        s.edge(p, k),
        walk_ok(s, visited, p, k, stack),
    ensures
        walk_ok(
            s,
            visited,
            p,
            k + 1,
            if pushed {
                stack.push((tag, s.kids[p][k].1))
            } else {
                stack
            },
        ),
{
    let c = s.child(p, k);
    let next = if pushed {
        stack.push((tag, s.kids[p][k].1))
    } else {
        stack
    };
    s.lemma_edge(p, k);
    assert forall|i: int| 0 <= i < next.len() implies waiting(
        s,
        visited,
        p,
        k + 1,
        (#[trigger] next[i]).1 as int,
    ) by {
        if i < stack.len() {
            assert(next[i] == stack[i]);
            assert(waiting(s, visited, p, k, stack[i].1 as int));
        } else {
            if visited.contains(c) {
                assert(visited.contains(s.parent(c)));
            }
        }
    }
    assert forall|i: int, j: int| 0 <= i < j < next.len() implies (#[trigger] next[i]).1 != (
    #[trigger] next[j]).1 by {
        assert(next[i] == stack[i]);
        if j < stack.len() {
            assert(next[j] == stack[j]);
        } else {
            assert(waiting(s, visited, p, k, stack[i].1 as int));
        }
    }
}

/// Closing the expansion of `p`: it counts as met.
pub proof fn lemma_walk_expanded<P>(
    s: Shape<P>,
    visited: Set<int>,
    stack: Seq<(Dist, usize)>,
    p: int,
)
    requires
        visited_ok(s, visited),
        waiting(s, visited, -1, 0, p),
        walk_ok(s, visited, p, s.kids[p].len() as int, stack),
    ensures
        visited_ok(s, visited.insert(p)),
        walk_ok(s, visited.insert(p), -1, 0, stack),
{
    let seen = visited.insert(p);
    assert forall|i: int| 0 <= i < stack.len() implies waiting(
        s,
        seen,
        -1,
        0,
        (#[trigger] stack[i]).1 as int,
    ) by {
        assert(waiting(s, visited, p, s.kids[p].len() as int, stack[i].1 as int));
    }
}

} // verus!
