//! Where the nodes of a tree go in a file, and why what is written is a
//! copy of the tree.

use crate::fromfile::TreeImage;
use crate::mirror::{lemma_at_most, mirrors};
use crate::shape::Shape;
use crate::Dist;
use vstd::prelude::*;

verus! {

/// Where the nodes of a tree go in a file, as far as that is settled while
/// the tree is written.  Every sequence has an entry for each node that
/// room was handed out for.
pub struct Plan {
    /// The node of the tree that each node of the file stands for.
    pub place: Seq<int>,
    /// The distance from its parent that each node of the file is to hold.
    pub want: Seq<Dist>,
    /// The node of the file that each node of the file is a child of.
    pub owner: Seq<int>,
    /// The place of each node in the child list of the node of the tree
    /// that its parent stands for.
    pub rank: Seq<int>,
    /// Where the children of each node that was written start in the
    /// file; `0` for a node without children.
    pub base: Seq<int>,
    /// The nodes that were written.
    pub done: Set<int>,
}

impl Plan {
    /// The number of nodes that room was handed out for.
    pub open spec fn count(self) -> int {
        self.place.len() as int
    }

    /// The plan for a file that holds the root only, which is not written
    /// yet.
    pub open spec fn start() -> Plan {
        Plan {
            place: seq![0int],
            want: seq![0usize],
            owner: seq![0int],
            rank: seq![0int],
            base: seq![0int],
            done: Set::empty(),
        }
    }

    /// The plan after node `f` was written and room was handed out for its
    /// children, one after the other and the child in the nearest slot
    /// first.
    pub open spec fn step<P>(self, s: Shape<P>, f: int) -> Plan {
        let a = self.place[f];
        let c = s.kids[a].len() as int;
        Plan {
            place: self.place + Seq::new(c as nat, |i: int| s.child(a, c - 1 - i)),
            want: self.want + Seq::new(c as nat, |i: int| s.slot(a, c - 1 - i)),
            owner: self.owner + Seq::new(c as nat, |i: int| f),
            rank: self.rank + Seq::new(c as nat, |i: int| c - 1 - i),
            base: self.base.update(
                f,
                if c > 0 {
                    self.count()
                } else {
                    0
                },
            ) + Seq::new(c as nat, |i: int| 0int),
            done: self.done.insert(f),
        }
    }

    /// Whether the plan is in order for the tree `s`: the root of the file
    /// stands for the root of the tree, no node of the tree is stood for
    /// twice, every node of the file but the root is a child of a node that
    /// was written, and the children of a node that was written lie next to
    /// each other and stand for the children of the node that it stands for.
    pub open spec fn ok<P>(self, s: Shape<P>) -> bool {
        &&& self.count() >= 1
        &&& self.want.len() == self.count()
        &&& self.owner.len() == self.count()
        &&& self.rank.len() == self.count()
        &&& self.base.len() == self.count()
        &&& self.place[0] == 0
        &&& self.want[0] == 0
        &&& forall|f: int| 0 <= f < self.count() ==> 0 <= #[trigger] self.place[f] < s.len()
        &&& forall|f: int, g: int|
            0 <= f < self.count() && 0 <= g < self.count() && f != g ==> #[trigger] self.place[f]
                != #[trigger] self.place[g]
        &&& self.done.finite()
        &&& forall|f: int| #[trigger] self.done.contains(f) ==> 0 <= f < self.count()
        &&& forall|g: int|
            0 < g < self.count() ==> {
                let p = #[trigger] self.owner[g];
                &&& self.done.contains(p)
                &&& s.edge(self.place[p], self.rank[g])
                &&& self.place[g] == s.child(self.place[p], self.rank[g])
                &&& self.want[g] == s.slot(self.place[p], self.rank[g])
            }
        &&& forall|f: int| #[trigger]
            self.done.contains(f) ==> self.block_ok(s, f)
    }

    /// Whether the children of node `f` of the file, which was written,
    /// are where the plan says.
    pub open spec fn block_ok<P>(self, s: Shape<P>, f: int) -> bool {
        let a = self.place[f];
        let c = s.kids[a].len() as int;
        let b = self.base[f];
        if c > 0 {
            &&& f < b
            &&& b + c <= self.count()
            &&& forall|i: int|
                0 <= i < c ==> #[trigger] self.place[b + i] == s.child(a, c - 1 - i) && self.want[b
                    + i] == s.slot(a, c - 1 - i)
        } else {
            b == 0
        }
    }

    /// Whether the sections hold what was written as the plan says.
    pub open spec fn written(self, s: Shape<u64>, image: TreeImage) -> bool {
        forall|f: int| #[trigger]
            self.done.contains(f) ==> {
                &&& image.key(f) == Some(s.keys[self.place[f]])
                &&& image.slot(f) == Some(self.want[f])
                &&& image.count(f) == Some(s.kids[self.place[f]].len() as usize)
                &&& image.base(f) == Some(self.base[f] as usize)
            }
    }

    /// Whether the stack holds the nodes that wait to be written, each
    /// once, with the node that each stands for and the distance that it is
    /// to hold.
    pub open spec fn waiting(self, stack: Seq<(usize, usize, Dist)>) -> bool {
        &&& forall|t: int|
            0 <= t < stack.len() ==> {
                let e = #[trigger] stack[t];
                &&& e.0 < self.count()
                &&& self.place[e.0 as int] == e.1
                &&& self.want[e.0 as int] == e.2
                &&& !self.done.contains(e.0 as int)
            }
        &&& forall|t: int, u: int|
            0 <= t < u < stack.len() ==> (#[trigger] stack[t]).0 != (#[trigger] stack[u]).0
        &&& forall|g: int|
            0 <= g < self.count() ==> #[trigger] self.done.contains(g) || on_stack(stack, g)
    }
}

/// Whether node `g` of the file is on the stack.
pub open spec fn on_stack(stack: Seq<(usize, usize, Dist)>, g: int) -> bool {
    exists|t: int| 0 <= t < stack.len() && (#[trigger] stack[t]).0 == g
}

/// The entries that go on the stack for the children of node `a` of the
/// tree, whose room starts at `start`: the first `j` entries of its child
/// list, each with its place in the file.
pub open spec fn pushes<P>(s: Shape<P>, a: int, start: int, j: int) -> Seq<(usize, usize, Dist)> {
    Seq::new(
        j as nat,
        |t: int| ((start + s.kids[a].len() - 1 - t) as usize, s.kids[a][t].1, s.kids[a][t].0),
    )
}

/// Writing a node and handing out room for its children keeps the plan in
/// order.
pub proof fn lemma_plan_step<P>(plan: Plan, s: Shape<P>, f: int)
    requires
        s.is_tree(),
        plan.ok(s),
        0 <= f < plan.count(),
        !plan.done.contains(f),
    ensures
        plan.step(s, f).ok(s),
        plan.step(s, f).count() == plan.count() + s.kids[plan.place[f]].len(),
        plan.step(s, f).count() <= s.len(),
{
    let next = plan.step(s, f);
    let a = plan.place[f];
    let c = s.kids[a].len() as int;
    let n = plan.count();
    assert forall|g: int| 0 <= g < next.count() implies 0 <= #[trigger] next.place[g] < s.len() by {
        if g >= n {
            assert(s.edge(a, c - 1 - (g - n)));
        } else {
            assert(next.place[g] == plan.place[g]);
        }
    }
    assert forall|g: int, h: int|
        0 <= g < next.count() && 0 <= h < next.count() && g != h implies #[trigger] next.place[g]
        != #[trigger] next.place[h] by {
        if g >= n {
            lemma_fresh(plan, s, f, g, h);
        } else if h >= n {
            lemma_fresh(plan, s, f, h, g);
        } else {
            assert(next.place[g] == plan.place[g] && next.place[h] == plan.place[h]);
        }
    }
    assert forall|g: int| 0 < g < next.count() implies ({
        let p = #[trigger] next.owner[g];
        &&& next.done.contains(p)
        &&& s.edge(next.place[p], next.rank[g])
        &&& next.place[g] == s.child(next.place[p], next.rank[g])
        &&& next.want[g] == s.slot(next.place[p], next.rank[g])
    }) by {
        if g >= n {
            assert(s.edge(a, c - 1 - (g - n)));
            assert(next.place[f] == plan.place[f]);
        } else {
            let p = plan.owner[g];
            assert(plan.done.contains(p));
            assert(next.place[p] == plan.place[p]);
            assert(next.place[g] == plan.place[g]);
        }
    }
    assert forall|h: int| #[trigger] next.done.contains(h) implies next.block_ok(s, h) by {
        assert(next.place[h] == plan.place[h]);
        if h != f {
            assert(plan.block_ok(s, h));
            let ah = plan.place[h];
            let ch = s.kids[ah].len() as int;
            let bh = plan.base[h];
            assert(next.base[h] == bh);
            if ch > 0 {
                assert forall|i: int| 0 <= i < ch implies #[trigger] next.place[bh + i] == s.child(
                    ah,
                    ch - 1 - i,
                ) && next.want[bh + i] == s.slot(ah, ch - 1 - i) by {
                    assert(plan.place[bh + i] == s.child(ah, ch - 1 - i));
                }
            }
        } else {
            if c > 0 {
                assert forall|i: int| 0 <= i < c implies #[trigger] next.place[n + i] == s.child(
                    a,
                    c - 1 - i,
                ) && next.want[n + i] == s.slot(a, c - 1 - i) by {}
            }
        }
    }
    let place = Seq::new(next.count() as nat, |g: int| next.place[g]);
    assert(place =~= next.place);
    lemma_at_most(next.place, s.len());
}

/// The nodes of the tree that the children of node `f` stand for are
/// stood for by no other node of the file.
proof fn lemma_fresh<P>(plan: Plan, s: Shape<P>, f: int, g: int, h: int)
    requires
        s.is_tree(),
        plan.ok(s),
        0 <= f < plan.count(),
        !plan.done.contains(f),
        0 <= g < plan.step(s, f).count(),
        0 <= h < plan.step(s, f).count(),
        g != h,
        g >= plan.count(),
    ensures
        plan.step(s, f).place[g] != plan.step(s, f).place[h],
{
    let next = plan.step(s, f);
    let a = plan.place[f];
    let c = s.kids[a].len() as int;
    let n = plan.count();
    let kg = c - 1 - (g - n);
    assert(s.edge(a, kg));
    s.lemma_edge(a, kg);
    if h >= n {
        let kh = c - 1 - (h - n);
        assert(s.edge(a, kh));
    } else if h > 0 {
        let p = plan.owner[h];
        assert(plan.done.contains(p));
        assert(s.edge(plan.place[p], plan.rank[h]));
        assert(plan.place[p] != plan.place[f]);
    } else {
        assert(next.place[0] == 0);
    }
}

/// What was written stays written when room is handed out or another node
/// is written.
pub proof fn lemma_written_kept(
    plan: Plan,
    s: Shape<u64>,
    f: int,
    before: TreeImage,
    after: TreeImage,
)
    requires
        s.is_tree(),
        plan.ok(s),
        0 <= f < plan.count(),
        !plan.done.contains(f),
        plan.written(s, before),
        forall|g: int|
            0 <= g < plan.count() && g != f ==> {
                &&& #[trigger] after.key(g) == before.key(g)
                &&& after.slot(g) == before.slot(g)
                &&& after.count(g) == before.count(g)
                &&& after.base(g) == before.base(g)
            },
        after.key(f) == Some(s.keys[plan.place[f]]),
        after.slot(f) == Some(plan.want[f]),
        after.count(f) == Some(s.kids[plan.place[f]].len() as usize),
        after.base(f) == Some(plan.step(s, f).base[f] as usize),
    ensures
        plan.step(s, f).written(s, after),
{
    let next = plan.step(s, f);
    assert forall|g: int| #[trigger] next.done.contains(g) implies ({
        &&& after.key(g) == Some(s.keys[next.place[g]])
        &&& after.slot(g) == Some(next.want[g])
        &&& after.count(g) == Some(s.kids[next.place[g]].len() as usize)
        &&& after.base(g) == Some(next.base[g] as usize)
    }) by {
        assert(next.place[g] == plan.place[g]);
        assert(next.want[g] == plan.want[g]);
        if g != f {
            assert(plan.done.contains(g));
            assert(after.key(g) == before.key(g));
            assert(next.base[g] == plan.base[g]);
        }
    }
}

/// Taking a node off the stack and putting its children there keeps the
/// stack in order.
pub proof fn lemma_stack_step<P>(
    plan: Plan,
    s: Shape<P>,
    stack: Seq<(usize, usize, Dist)>,
)
    requires
        s.is_tree(),
        plan.ok(s),
        stack.len() > 0,
        plan.waiting(stack),
        plan.step(s, stack.last().0 as int).count() <= usize::MAX,
    ensures
        plan.step(s, stack.last().0 as int).waiting(
            stack.drop_last() + pushes(
                s,
                stack.last().1 as int,
                plan.count(),
                s.kids[stack.last().1 as int].len() as int,
            ),
        ),
{
    let f = stack.last().0 as int;
    let a = stack.last().1 as int;
    let c = s.kids[a].len() as int;
    let n = plan.count();
    let next = plan.step(s, f);
    let rest = stack.drop_last();
    let more = pushes(s, a, n, c);
    let all = rest + more;
    assert forall|t: int| 0 <= t < all.len() implies ({
        let e = #[trigger] all[t];
        &&& e.0 < next.count()
        &&& next.place[e.0 as int] == e.1
        &&& next.want[e.0 as int] == e.2
        &&& !next.done.contains(e.0 as int)
    }) by {
        if t < rest.len() {
            assert(all[t] == stack[t]);
            assert(stack[t].0 != stack[stack.len() - 1].0);
            assert(next.place[stack[t].0 as int] == plan.place[stack[t].0 as int]);
        } else {
            let j = t - rest.len();
            assert(all[t] == more[j]);
            assert(s.edge(a, j));
            let g = n + c - 1 - j;
            assert(next.place[g] == s.child(a, c - 1 - (g - n)));
            if plan.done.contains(g) {
            }
        }
    }
    assert forall|t: int, u: int| 0 <= t < u < all.len() implies (#[trigger] all[t]).0 != (
    #[trigger] all[u]).0 by {
        if u < rest.len() {
            assert(all[t] == stack[t] && all[u] == stack[u]);
        } else if t < rest.len() {
            assert(all[t] == stack[t]);
            assert(all[u] == more[u - rest.len()]);
        } else {
            assert(all[t] == more[t - rest.len()]);
            assert(all[u] == more[u - rest.len()]);
        }
    }
    assert forall|g: int| 0 <= g < next.count() implies #[trigger] next.done.contains(g)
        || on_stack(all, g) by {
        if g >= n {
            let j = n + c - 1 - g;
            assert(all[rest.len() + j] == more[j]);
            assert(all[rest.len() + j].0 == g);
        } else if g != f && !plan.done.contains(g) {
            assert(on_stack(stack, g));
            let t = choose|t: int| 0 <= t < stack.len() && (#[trigger] stack[t]).0 == g;
            assert(all[t] == stack[t]);
        }
    }
}

/// Once nothing waits to be written, the sections hold a copy of the tree.
pub proof fn lemma_plan_done(plan: Plan, s: Shape<u64>, image: TreeImage)
    requires
        s.is_tree(),
        plan.ok(s),
        plan.waiting(Seq::empty()),
        plan.written(s, image),
        image.node_count == plan.count(),
        image.config.wf(),
        plan.count() <= usize::MAX,
    ensures
        image.node_count == s.len(),
        image.readable(),
        mirrors(s, image.shape(), plan.place),
        forall|f: int|
            0 <= f < image.node_count && #[trigger] image.count(f) == Some(0usize) ==> image.base(f)
                == Some(0usize),
{
    let n = s.len() as int;
    let count = plan.count();
    assert forall|g: int| 0 <= g < count implies #[trigger] plan.done.contains(g) by {
        assert(!on_stack(Seq::<(usize, usize, Dist)>::empty(), g));
    }
    assert forall|a: int| 0 <= a < n implies has_place(plan, a) by {
        lemma_reached(plan, s, a);
    }
    let back = Seq::new(n as nat, |a: int| choose|f: int| 0 <= f < count && plan.place[f] == a);
    assert forall|a: int| 0 <= a < n implies 0 <= #[trigger] back[a] < count && plan.place[back[a]]
        == a by {
        assert(has_place(plan, a));
    }
    lemma_at_most(back, count as nat);
    lemma_at_most(plan.place, s.len());
    let d = image.shape();
    assert forall|f: int|
        0 <= f < image.node_count && #[trigger] image.count(f) == Some(0usize) implies image.base(f)
        == Some(0usize) by {
        assert(plan.done.contains(f));
        assert(plan.block_ok(s, f));
    }
    assert forall|f: int| 0 <= f < count implies #[trigger] image.node_ok(f) by {
        assert(plan.done.contains(f));
        assert(plan.block_ok(s, f));
    }
    assert forall|f: int| 0 <= f < count implies #[trigger] d.keys[f] == s.keys[plan.place[f]] by {
        assert(plan.done.contains(f));
    }
    assert forall|f: int| 0 <= f < count implies (#[trigger] d.kids[f]).len()
        == s.kids[plan.place[f]].len() by {
        assert(plan.done.contains(f));
    }
    assert forall|f: int, i: int| #[trigger] d.edge(f, i) implies ({
        &&& f < d.child(f, i) < d.len()
        &&& plan.place[d.child(f, i)] == s.child(plan.place[f], i)
        &&& d.slot(f, i) == s.slot(plan.place[f], i)
    }) by {
        assert(plan.done.contains(f));
        assert(plan.block_ok(s, f));
        let b = plan.base[f];
        let c = d.kids[f].len() as int;
        let g = b + (c - 1 - i);
        assert(plan.done.contains(g));
        assert(plan.place[b + (c - 1 - i)] == s.child(plan.place[f], c - 1 - (c - 1 - i)));
    }
}

/// Whether a node of the file stands for node `a` of the tree.
pub open spec fn has_place(plan: Plan, a: int) -> bool {
    exists|f: int| 0 <= f < plan.count() && plan.place[f] == a
}

/// Once every node of the file was written, every node of the tree is
/// stood for.
proof fn lemma_reached<P>(plan: Plan, s: Shape<P>, a: int)
    requires
        s.is_tree(),
        plan.ok(s),
        forall|g: int| 0 <= g < plan.count() ==> plan.done.contains(g),
        0 <= a < s.len(),
    ensures
        has_place(plan, a),
    decreases a,
{
    if a == 0 {
        assert(plan.place[0] == 0);
    } else {
        s.lemma_parent(a);
        let p = s.parent(a);
        let k = s.rank(a);
        lemma_reached(plan, s, p);
        let f = choose|f: int| 0 <= f < plan.count() && plan.place[f] == p;
        assert(plan.done.contains(f));
        assert(plan.block_ok(s, f));
        let c = s.kids[p].len() as int;
        let i = c - 1 - k;
        assert(plan.place[plan.base[f] + i] == s.child(p, c - 1 - i));
    }
}

} // verus!
