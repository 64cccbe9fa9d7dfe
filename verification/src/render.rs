//! Writing a tree from memory into the four sections of a file.

use crate::array_storage::{spec_byte_size, FixedKeysConfig};
use crate::bk::BkInRamTree;
use crate::bkfile::{
    located, reads_back, spec_file, spec_header_end, spec_layout, spec_layout_end, write_file,
    FileDescrHeader, FileSections, PREFIX_SIZE,
};
use crate::bknode::BkNode;
use crate::bktree::find::{finds_exactly, pairs};
use crate::bktree::walk::lemma_room_left;
use crate::bktree::{BkTree, Point};
use crate::endian::pow256;
use crate::error::BkError;
use crate::fromfile::{spec_open, TreeImage};
use crate::keyquery::KeyQuery;
use crate::keys::U64Key;
use crate::metric::Metric;
use crate::mirror::{lemma_at_most, lemma_mirror_bk_tree, mirrors};
use crate::render::plan::{
    lemma_plan_done, lemma_plan_step, lemma_stack_step, lemma_written_kept, on_stack, pushes, Plan,
};
use crate::render::storage::InFileAllocator;
use crate::shape::{is_bk_tree, Shape};
use crate::Dist;
use vstd::prelude::*;

pub mod plan;
pub mod storage;

verus! {

/// The four sections that a tree was written into.
#[derive(Debug, Clone)]
pub struct Rendered {
    /// The widths of the entries.
    pub config: FixedKeysConfig,
    /// The number of nodes.
    pub node_count: u64,
    /// The distances of the nodes from their parents.
    pub dist: Vec<u8>,
    /// The indices of the first children of the nodes.
    pub child_index: Vec<u8>,
    /// The numbers of children of the nodes.
    pub num_children: Vec<u8>,
    /// The keys of the nodes.
    pub keys: Vec<u8>,
}

impl Rendered {
    /// What the sections hold.
    pub open spec fn image(&self) -> TreeImage {
        TreeImage {
            config: self.config,
            node_count: self.node_count as nat,
            dist: self.dist@,
            child_index: self.child_index@,
            num_children: self.num_children@,
            keys: self.keys@,
        }
    }
}

impl Rendered {
    /// The descriptor of the file that the sections go into: the number of
    /// nodes, and for each section the width of its entries, its length,
    /// and where it starts.  Fails with `OutOfStorage`, and only then,
    /// where 64 bits cannot count the bytes of the file.
    pub fn describe(&self, created_on: String) -> (r: Result<FileDescrHeader, BkError>)
        ensures
            r is Ok <==> spec_layout_end(
                self.dist@.len(),
                self.child_index@.len(),
                self.num_children@.len(),
                self.keys@.len(),
            ) <= u64::MAX,
            r is Err ==> r->Err_0 == BkError::OutOfStorage,
            r is Ok ==> {
                &&& r->Ok_0.created_on == created_on
                &&& r->Ok_0.node_count == self.node_count
                &&& r->Ok_0.padding@.len() == 0
                &&& r->Ok_0.section == spec_layout(
                    self.config,
                    self.dist@.len(),
                    self.child_index@.len(),
                    self.num_children@.len(),
                    self.keys@.len(),
                )
            },
    {
        let dist_len: usize = self.dist.len();
        let child_len: usize = self.child_index.len();
        let num_len: usize = self.num_children.len();
        let key_len: usize = self.keys.len();
        let section = FileSections::layout(
            &self.config,
            dist_len as u64,
            child_len as u64,
            num_len as u64,
            key_len as u64,
        )?;
        Ok(
            FileDescrHeader {
                created_on,
                node_count: self.node_count,
                section,
                padding: String::new(),
            },
        )
    }

    /// The bytes of the file that holds the sections after the header made
    /// of `descr`, the encoded descriptor.  The file reads back: a verified
    /// read succeeds, and every part stands where the descriptor says.
    pub fn to_file(&self, descr: &[u8]) -> (file: Vec<u8>)
        ensures
            file@ == spec_file(
                descr@,
                self.dist@,
                self.child_index@,
                self.num_children@,
                self.keys@,
            ),
            reads_back(
                file@,
                descr@,
                self.dist@,
                self.child_index@,
                self.num_children@,
                self.keys@,
            ),
    {
        write_file(
            descr,
            self.dist.as_slice(),
            self.child_index.as_slice(),
            self.num_children.as_slice(),
            self.keys.as_slice(),
        )
    }
}

/// A file that a tree was written into opens as what was written: the
/// sections that the descriptor names are those of the tree, so that they
/// hold a Burkhard-Keller tree with the keys of the tree that was written.
pub proof fn lemma_reopens<M: Metric<u64>>(
    s: Shape<u64>,
    image: TreeImage,
    descr: FileDescrHeader,
    encoded: Seq<u8>,
    file: Seq<u8>,
)
    requires
        renders::<M>(s, image),
        descr.node_count == image.node_count,
        descr.section == spec_layout(
            image.config,
            image.dist.len(),
            image.child_index.len(),
            image.num_children.len(),
            image.keys.len(),
        ),
        file.len() <= u64::MAX,
        located(file, encoded, image.dist, image.child_index, image.num_children, image.keys),
    ensures
        spec_open(file, spec_header_end(PREFIX_SIZE as nat, encoded.len()), descr) == Ok::<
            TreeImage,
            BkError,
        >(image),
        image.readable(),
        is_bk_tree::<u64, M>(image.shape()),
        image.shape().keys.to_set() == s.keys.to_set(),
{
    let end = spec_header_end(PREFIX_SIZE as nat, encoded.len());
    let opened = spec_open(file, end, descr);
    assert(opened is Ok);
    assert(opened->Ok_0.dist =~= image.dist);
    assert(opened->Ok_0.child_index =~= image.child_index);
    assert(opened->Ok_0.num_children =~= image.num_children);
    assert(opened->Ok_0.keys =~= image.keys);
}

/// Two searches that each find exactly what there is to find among the
/// same keys find the same: the tree that was written to a file and read
/// back answers as the tree in memory does.
pub proof fn lemma_same_answers<KQ: KeyQuery, M: Metric<KQ::Query>>(
    first: Seq<(Dist, KQ::Key)>,
    second: Seq<(Dist, KQ::Key)>,
    keys: Set<Point<KQ>>,
    needle: Point<KQ>,
    tolerance: Dist,
)
    requires
        finds_exactly::<KQ, M>(first, keys, needle, tolerance),
        finds_exactly::<KQ, M>(second, keys, needle, tolerance),
    ensures
        pairs(first).to_set() == pairs(second).to_set(),
        first.len() == second.len(),
{
    pairs(first).unique_seq_to_set();
    pairs(second).unique_seq_to_set();
}

/// The round trip: a tree is written into sections, the sections into a
/// file, and the file is opened again.  Whatever a search of the tree in
/// memory finds for a needle and a tolerance, a search of the tree that the
/// file opens as finds as well, and nothing else.
pub proof fn lemma_round_trip<M: Metric<u64>>(
    s: Shape<u64>,
    image: TreeImage,
    descr: FileDescrHeader,
    encoded: Seq<u8>,
    file: Seq<u8>,
    opened: TreeImage,
    needle: u64,
    tolerance: Dist,
    from_memory: Seq<(Dist, u64)>,
    from_file: Seq<(Dist, u64)>,
)
    requires
        renders::<M>(s, image),
        descr.node_count == image.node_count,
        descr.section == spec_layout(
            image.config,
            image.dist.len(),
            image.child_index.len(),
            image.num_children.len(),
            image.keys.len(),
        ),
        file.len() <= u64::MAX,
        located(file, encoded, image.dist, image.child_index, image.num_children, image.keys),
        spec_open(file, spec_header_end(PREFIX_SIZE as nat, encoded.len()), descr) == Ok::<
            TreeImage,
            BkError,
        >(opened),
        finds_exactly::<U64Key, M>(from_memory, s.keys.to_set(), needle, tolerance),
        finds_exactly::<U64Key, M>(from_file, opened.shape().keys.to_set(), needle, tolerance),
    ensures
        opened.readable(),
        is_bk_tree::<u64, M>(opened.shape()),
        pairs(from_file).to_set() == pairs(from_memory).to_set(),
        from_file.len() == from_memory.len(),
{
    lemma_reopens::<M>(s, image, descr, encoded, file);
    lemma_same_answers::<U64Key, M>(from_file, from_memory, s.keys.to_set(), needle, tolerance);
}

/// Whether the sections of `image` hold the tree `s`: every node can be
/// read, a node without children names `0` as the place of its children,
/// and the nodes are those of `s` under other indices, so that the sections
/// hold a Burkhard-Keller tree with the keys of `s`.
pub open spec fn renders<M: Metric<u64>>(s: Shape<u64>, image: TreeImage) -> bool {
    &&& image.node_count == s.len()
    &&& image.readable()
    &&& forall|f: int|
        0 <= f < image.node_count && #[trigger] image.count(f) == Some(0usize) ==> image.base(f)
            == Some(0usize)
    &&& exists|place: Seq<int>| mirrors(s, image.shape(), place)
    &&& is_bk_tree::<u64, M>(image.shape())
    &&& image.shape().keys.to_set() == s.keys.to_set()
}

/// The largest slot that a child of a node of `tree` is in, and the largest
/// number of children of a node.
fn widest_node<M: Metric<u64>>(tree: &BkInRamTree<U64Key, M>) -> (most: (usize, usize))
    requires
        tree.wf(),
    ensures
        tree.shape().is_max_slot(most.0 as nat),
        tree.shape().is_max_count(most.1 as nat),
{
    let n = tree.len();
    let mut slot: usize = 0;
    let mut count: usize = 0;
    let mut a: usize = 0;
    let ghost s = tree.shape();
    proof {
        tree.lemma_wf();
    }
    while a < n
        invariant
            a <= n,
            s == tree.shape(),
            n == s.len(),
            s.kids.len() == n,
            forall|b: int, k: int| 0 <= b < a && #[trigger] s.edge(b, k) ==> s.slot(b, k) <= slot,
            slot == 0 || exists|b: int, k: int| #[trigger] s.edge(b, k) && s.slot(b, k) == slot,
            forall|b: int| 0 <= b < a ==> (#[trigger] s.kids[b]).len() <= count,
            count == 0 || exists|b: int| 0 <= b < n && (#[trigger] s.kids[b]).len() == count,
        decreases n - a,
    {
        let node = tree.node(a);
        match node.farthest_slot() {
            Some(far) => {
                if far > slot {
                    slot = far;
                    proof {
                        let k = choose|k: int|
                            0 <= k < node.kids().len() && (#[trigger] node.kids()[k]).0 == far;
                        assert(s.edge(a as int, k) && s.slot(a as int, k) == far);
                    }
                }
            },
            None => {},
        }
        let here = node.child_count();
        if here > count {
            count = here;
            assert(s.kids[a as int].len() == count);
        }
        a += 1;
    }
    (slot, count)
}

/// Writes `tree` into the four sections of a file.
///
/// The root becomes node `0`.  The nodes are walked from the root down with
/// a stack: when a node is written, room is handed out for its children,
/// which so lie next to each other, the child in the nearest slot first.
/// The entries are as narrow as can be: an index takes the bytes that the
/// number of nodes takes, a distance those that the largest slot in use
/// takes, and a number of children those that the largest one takes.
///
/// Fails with `OutOfStorage`, and only then, where the keys would take more
/// bytes than the machine can address.
pub fn render<M: Metric<u64>>(tree: &BkInRamTree<U64Key, M>) -> (r: Result<Rendered, BkError>)
    requires
        tree.wf(),
    ensures
        r is Ok <==> tree.shape().len() * 8 <= usize::MAX,
        r is Err ==> r->Err_0 == BkError::OutOfStorage,
        r is Ok ==> renders::<M>(tree.shape(), r->Ok_0.image()),
        r is Ok ==> r->Ok_0.config == (FixedKeysConfig {
            dist: spec_byte_size(tree.shape().max_slot() as u64),
            child_index: spec_byte_size(tree.shape().len() as u64),
            num_children: spec_byte_size(tree.shape().max_count() as u64),
            key: 8,
        }),
{
    let n = tree.len();
    if n > usize::MAX / 8 {
        return Err(BkError::OutOfStorage);
    }
    let ghost s = tree.shape();
    proof {
        tree.lemma_wf();
    }
    let most = widest_node(tree);
    let config = FixedKeysConfig::measure(n as u64, most.0 as u64, most.1 as u64);
    proof {
        s.lemma_max(most.0 as nat, most.1 as nat);
    }
    let mut storage = InFileAllocator::new(config);
    if n == 0 {
        proof {
            let image = storage.image();
            let d = image.shape();
            assert(d.keys =~= Seq::empty());
            assert(d.kids =~= Seq::empty());
            assert(mirrors(s, d, Seq::<int>::empty()));
            lemma_mirror_bk_tree::<u64, M>(s, d, Seq::<int>::empty());
        }
        return Ok(storage.into_rendered());
    }
    let _ = storage.alloc_nodes(1).unwrap();
    let mut stack: Vec<(usize, usize, Dist)> = Vec::new();
    stack.push((0, 0, 0));
    let ghost mut plan = Plan::start();
    proof {
        assert(plan.ok(s));
        assert(stack@[0].0 == 0);
        assert(on_stack(stack@, 0));
    }
    while stack.len() > 0
        invariant
            tree.wf(),
            s == tree.shape(),
            is_bk_tree::<u64, M>(s),
            n == s.len(),
            n * 8 <= usize::MAX,
            storage.wf(),
            storage.image().config == config,
            config.wf(),
            n < pow256(config.child_index as nat),
            most.0 < pow256(config.dist as nat),
            most.1 < pow256(config.num_children as nat),
            forall|a: int, k: int| #[trigger] s.edge(a, k) ==> s.slot(a, k) <= most.0,
            forall|a: int| 0 <= a < s.len() ==> (#[trigger] s.kids[a]).len() <= most.1,
            storage.image().node_count == plan.count(),
            plan.ok(s),
            plan.waiting(stack@),
            plan.written(s, storage.image()),
        decreases n - plan.done.len(),
    {
        let ghost before = stack@;
        let ghost image0 = storage.image();
        let top = stack.pop().unwrap();
        let f = top.0;
        let a = top.1;
        let d = top.2;
        let node = tree.node(a);
        let kids = node.children_vector();
        let c = kids.len();
        let ghost count = plan.count();
        proof {
            assert(before.last() == top);
            lemma_plan_step(plan, s, f as int);
            lemma_room_left(plan.done, count as nat, f as int);
            lemma_at_most(plan.place, s.len());
            if f > 0 {
                let p = plan.owner[f as int];
                assert(s.edge(plan.place[p], plan.rank[f as int]));
            }
        }
        let start = if c == 0 {
            0
        } else {
            storage.alloc_nodes(c).unwrap()
        };
        let ghost image1 = storage.image();
        storage.set_key(f, *node.key());
        let ghost image2 = storage.image();
        storage.set_dist(f, d);
        let ghost image3 = storage.image();
        storage.set_num_children(f, c);
        let ghost image4 = storage.image();
        storage.set_child_index(f, start);
        let ghost rest = stack@;
        let mut j: usize = 0;
        assert(stack@ =~= rest + pushes(s, a as int, count, 0));
        while j < c
            invariant
                j <= c,
                c == kids@.len(),
                0 <= a < s.kids.len(),
                kids@ == s.kids[a as int],
                count + c <= n,
                c > 0 ==> start == count,
                stack@ == rest + pushes(s, a as int, count, j as int),
            decreases c - j,
        {
            stack.push((start + (c - 1 - j), kids[j].1, kids[j].0));
            j += 1;
            assert(stack@ =~= rest + pushes(s, a as int, count, j as int));
        }
        proof {
            let image5 = storage.image();
            assert forall|g: int| 0 <= g < count && g != f implies {
                &&& #[trigger] image5.key(g) == image0.key(g)
                &&& image5.slot(g) == image0.slot(g)
                &&& image5.count(g) == image0.count(g)
                &&& image5.base(g) == image0.base(g)
            } by {
                assert(image1.key(g) == image0.key(g));
                assert(image2.key(g) == image1.key(g));
                assert(image3.slot(g) == image2.slot(g));
                assert(image4.count(g) == image3.count(g));
                assert(image5.base(g) == image4.base(g));
            }
            if c == 0 {
                assert(image1.key(f as int) == image0.key(f as int));
            }
            lemma_written_kept(plan, s, f as int, image0, image5);
            assert(rest == before.drop_last());
            lemma_stack_step(plan, s, before);
            plan = plan.step(s, f as int);
        }
    }
    proof {
        assert(stack@ =~= Seq::empty());
        storage.lemma_sizes();
        lemma_plan_done(plan, s, storage.image());
        lemma_mirror_bk_tree::<u64, M>(s, storage.image().shape(), plan.place);
    }
    Ok(storage.into_rendered())
}

} // verus!
