//! A tree that is queried where it lies: in the four sections of a file,
//! without loading it.
//!
//! What the sections hold may be anything.  Every read is checked, a tree
//! that is not one is reported, and no query runs forever.

use crate::array_storage::{entry_at, field_at, FNode, FixedKeysConfig, InStorageNode};
use crate::bkfile::{section_bytes, FileDescrHeader, FileSection};
use crate::bknode::BkNode;
use crate::bktree::find::{answers, finds_exactly, BkFind};
use crate::bktree::preorder::{entries, BkPreOrder};
use crate::bktree::BkTree;
use crate::error::BkError;
use crate::keys::U64Key;
use crate::metric::Metric;
use crate::shape::{is_bk_tree, Shape};
use crate::Dist;
use vstd::prelude::*;

verus! {

/// What the four sections of a file hold, as far as a tree is concerned.
pub struct TreeImage {
    /// The widths of the entries.
    pub config: FixedKeysConfig,
    /// The number of nodes.
    pub node_count: nat,
    /// The distances of the nodes from their parents.
    pub dist: Seq<u8>,
    /// The indices of the first children of the nodes.
    pub child_index: Seq<u8>,
    /// The numbers of children of the nodes.
    pub num_children: Seq<u8>,
    /// The keys of the nodes.
    pub keys: Seq<u8>,
}

impl TreeImage {
    /// The key of node `i`, if the section holds it.
    pub open spec fn key(self, i: int) -> Option<u64> {
        if 0 <= i <= usize::MAX && self.config.key == 8 {
            match field_at(self.keys, 8, i as nat) {
                Some(v) => Some(v as u64),
                None => None,
            }
        } else {
            None
        }
    }

    /// The slot of node `i` in its parent, if the section holds it.
    pub open spec fn slot(self, i: int) -> Option<usize> {
        if 0 <= i <= usize::MAX {
            entry_at(self.dist, self.config.dist, i as usize)
        } else {
            None
        }
    }

    /// The number of children of node `i`, if the section holds it.
    pub open spec fn count(self, i: int) -> Option<usize> {
        if 0 <= i <= usize::MAX {
            entry_at(self.num_children, self.config.num_children, i as usize)
        } else {
            None
        }
    }

    /// The index of the first child of node `i`, if the section holds it.
    pub open spec fn base(self, i: int) -> Option<usize> {
        if 0 <= i <= usize::MAX {
            entry_at(self.child_index, self.config.child_index, i as usize)
        } else {
            None
        }
    }

    /// Whether node `i` can be read: its fields are there, and its
    /// children, if it has any, are nodes that come after it and that can be
    /// asked for their slots.
    pub open spec fn node_ok(self, i: int) -> bool {
        &&& self.key(i) is Some
        &&& self.slot(i) is Some
        &&& self.count(i) is Some
        &&& self.count(i)->Some_0 > 0 ==> {
            &&& self.base(i) is Some
            &&& i < self.base(i)->Some_0
            &&& self.base(i)->Some_0 + self.count(i)->Some_0 <= self.node_count
        }
    }

    /// The children of node `i`, the one that is stored last first: the
    /// children of a node are stored from the nearest slot to the farthest,
    /// and a search does better when it meets the farthest first.
    pub open spec fn kids(self, i: int) -> Seq<(Dist, usize)> {
        if self.count(i) is Some && self.base(i) is Some {
            Seq::new(
                self.count(i)->Some_0 as nat,
                |k: int|
                    (
                        match self.slot(self.base(i)->Some_0 + self.count(i)->Some_0 - 1 - k) {
                            Some(d) => d,
                            None => 0usize,
                        },
                        (self.base(i)->Some_0 + self.count(i)->Some_0 - 1 - k) as usize,
                    ),
            )
        } else {
            Seq::empty()
        }
    }

    /// What reading the key of node `i` gives: the key, unless there is no
    /// such node or the section for the keys ends before the key does.
    pub open spec fn read_key(self, i: int) -> Result<u64, BkError> {
        if 0 <= i < self.node_count && self.key(i) is Some {
            Ok(self.key(i)->Some_0)
        } else {
            Err(BkError::Truncated)
        }
    }

    /// What reading the children of node `i` gives.  There is nothing to
    /// read, which is reported as `Truncated`, where there is no such node,
    /// or the number of its children or the slot of one of them lies past
    /// the end of its section.  The nodes do not form a tree, which is
    /// reported as `MalformedTree`, where the node has children but they are
    /// not said to come after it, or not all of them are among the nodes.
    pub open spec fn read_kids(self, i: int) -> Result<Seq<(Dist, usize)>, BkError> {
        if !(0 <= i < self.node_count) || self.count(i) is None {
            Err(BkError::Truncated)
        } else if self.count(i)->Some_0 == 0 {
            Ok(Seq::empty())
        } else if self.base(i) is None || self.base(i)->Some_0 <= i || self.base(i)->Some_0
            + self.count(i)->Some_0 > self.node_count {
            Err(BkError::MalformedTree)
        } else if exists|k: int|
            0 <= k < self.count(i)->Some_0 && (#[trigger] self.slot(self.base(i)->Some_0 + k))
                is None {
            Err(BkError::Truncated)
        } else {
            Ok(self.kids(i))
        }
    }

    /// In sections of which every node can be read, reading a node gives
    /// its key and its children.
    pub proof fn lemma_reads(self, i: int)
        requires
            self.readable(),
            0 <= i < self.node_count,
        ensures
            self.read_key(i) == Ok::<u64, BkError>(self.shape().keys[i]),
            self.read_kids(i) == Ok::<Seq<(Dist, usize)>, BkError>(self.shape().kids[i]),
    {
        assert(self.node_ok(i));
        if self.count(i)->Some_0 > 0 {
            assert forall|k: int| 0 <= k < self.count(i)->Some_0 implies (#[trigger] self.slot(
                self.base(i)->Some_0 + k,
            )) is Some by {
                assert(self.node_ok(self.base(i)->Some_0 + k));
            }
        } else {
            assert(self.kids(i) =~= Seq::empty());
        }
    }

    /// Whether every node can be read.
    pub open spec fn readable(self) -> bool {
        &&& self.config.wf()
        &&& self.node_count <= usize::MAX
        &&& forall|i: int| 0 <= i < self.node_count ==> #[trigger] self.node_ok(i)
    }

    /// The tree that the sections hold.
    pub open spec fn shape(self) -> Shape<u64> {
        Shape {
            keys: Seq::new(
                self.node_count,
                |i: int|
                    match self.key(i) {
                        Some(key) => key,
                        None => 0u64,
                    },
            ),
            kids: Seq::new(self.node_count, |i: int| self.kids(i)),
        }
    }
}

/// The width of the entries of `section`, if it has one that this crate
/// reads: `0` stands for one that it does not.
pub open spec fn spec_width(section: FileSection) -> usize {
    match section.item_size {
        Some(size) => if size <= 8 {
            size as usize
        } else {
            0usize
        },
        None => 0usize,
    }
}

/// Whether `section` lies within a file of `len` bytes whose header ends
/// at `header_end`.
pub open spec fn within(len: nat, header_end: nat, section: FileSection) -> bool {
    header_end + section.offset + section.bytes <= len
}

/// The bytes of `section` in `file`.
pub open spec fn cut(file: Seq<u8>, header_end: nat, section: FileSection) -> Seq<u8> {
    file.subrange(header_end + section.offset, header_end + section.offset + section.bytes)
}

/// What a descriptor makes of a file whose header ends at `header_end`:
/// the tree image in the four sections that it names.  A descriptor that
/// lacks a section gives `MissingSection`; one with entries that are not
/// keys of 8 bytes and other entries of 1 to 8 bytes gives
/// `UnsupportedItemSize`; and one with a section that does not lie within
/// the file, or with more nodes than the machine can count, gives
/// `MalformedSection`.
pub open spec fn spec_open(file: Seq<u8>, header_end: nat, descr: FileDescrHeader) -> Result<
    TreeImage,
    BkError,
> {
    let s = descr.section;
    if s.dist is None || s.child_index is None || s.num_children is None || s.key is None {
        Err(BkError::MissingSection)
    } else {
        let config = FixedKeysConfig {
            dist: spec_width(s.dist->Some_0),
            child_index: spec_width(s.child_index->Some_0),
            num_children: spec_width(s.num_children->Some_0),
            key: spec_width(s.key->Some_0),
        };
        if !config.wf() {
            Err(BkError::UnsupportedItemSize)
        } else if !within(file.len(), header_end, s.dist->Some_0) || !within(
            file.len(),
            header_end,
            s.child_index->Some_0,
        ) || !within(file.len(), header_end, s.num_children->Some_0) || !within(
            file.len(),
            header_end,
            s.key->Some_0,
        ) || descr.node_count > usize::MAX {
            Err(BkError::MalformedSection)
        } else {
            Ok(
                TreeImage {
                    config,
                    node_count: descr.node_count as nat,
                    dist: cut(file, header_end, s.dist->Some_0),
                    child_index: cut(file, header_end, s.child_index->Some_0),
                    num_children: cut(file, header_end, s.num_children->Some_0),
                    keys: cut(file, header_end, s.key->Some_0),
                },
            )
        }
    }
}

/// The width of the entries of `section`, if it has one that this crate
/// reads: `0` stands for one that it does not.
fn section_width(section: &FileSection) -> (width: usize)
    ensures
        width == spec_width(*section),
{
    match section.item_size {
        Some(size) => if size <= 8 {
            size as usize
        } else {
            0
        },
        None => 0,
    }
}

/// The four sections of a file, with the widths of their entries.
#[derive(Debug, Clone, Copy)]
pub struct FromFileAllocator<'f> {
    /// The widths of the entries.
    pub config: FixedKeysConfig,
    /// The distances of the nodes from their parents.
    pub dist: &'f [u8],
    /// The indices of the first children of the nodes.
    pub child_index: &'f [u8],
    /// The numbers of children of the nodes.
    pub num_children: &'f [u8],
    /// The keys of the nodes.
    pub keys: &'f [u8],
}

impl<'f> FromFileAllocator<'f> {
    /// What the sections hold, if they are taken for `node_count` nodes.
    pub open spec fn image(&self, node_count: nat) -> TreeImage {
        TreeImage {
            config: self.config,
            node_count,
            dist: self.dist@,
            child_index: self.child_index@,
            num_children: self.num_children@,
            keys: self.keys@,
        }
    }

    /// Reads the key of node `index` of `node_count` nodes.
    pub fn read_key(&self, node_count: usize, index: usize) -> (r: Result<u64, BkError>)
        ensures
            r == self.image(node_count as nat).read_key(index as int),
    {
        if index >= node_count {
            return Err(BkError::Truncated);
        }
        match self.fnode(index).key_u64() {
            Some(key) => Ok(key),
            None => Err(BkError::Truncated),
        }
    }

    /// Reads the children of node `index` of `node_count` nodes, each with
    /// its slot, the child that is stored last first.
    pub fn read_children(&self, node_count: usize, index: usize) -> (r: Result<
        Vec<(Dist, usize)>,
        BkError,
    >)
        ensures
            match self.image(node_count as nat).read_kids(index as int) {
                Ok(kids) => r is Ok && r->Ok_0@ == kids,
                Err(e) => r is Err && r->Err_0 == e,
            },
    {
        if index >= node_count {
            return Err(BkError::Truncated);
        }
        let ghost image = self.image(node_count as nat);
        let node = self.fnode(index);
        let count = match node.child_count() {
            Some(count) => count,
            None => { return Err(BkError::Truncated); },
        };
        let mut out: Vec<(Dist, usize)> = Vec::new();
        if count == 0 {
            assert(out@ =~= Seq::empty());
            return Ok(out);
        }
        let base = match node.children_offset() {
            Some(base) => base,
            None => { return Err(BkError::MalformedTree); },
        };
        if base <= index || base > node_count || count > node_count - base {
            return Err(BkError::MalformedTree);
        }
        let mut k: usize = 0;
        while k < count
            invariant
                0 <= k <= count,
                index < node_count,
                index < base,
                base + count <= node_count,
                image == self.image(node_count as nat),
                image.count(index as int) == Some(count),
                image.base(index as int) == Some(base),
                out@.len() == k,
                forall|j: int| 0 <= j < k ==> #[trigger] out@[j] == image.kids(index as int)[j],
                forall|g: int|
                    base + count - k <= g < base + count ==> (#[trigger] image.slot(g)) is Some,
            decreases count - k,
        {
            let child = base + (count - 1 - k);
            let dist = match self.fnode(child).dist() {
                Some(dist) => dist,
                None => {
                    assert(image.slot(base + (count - 1 - k)) is None);
                    return Err(BkError::Truncated);
                },
            };
            out.push((dist, child));
            k += 1;
        }
        proof {
            assert(out@ =~= image.kids(index as int));
            assert forall|j: int| 0 <= j < count implies (#[trigger] image.slot(base + j))
                is Some by {}
        }
        Ok(out)
    }

    /// A view of node `index`.  Nothing is read yet.
    pub fn fnode(&self, index: usize) -> (node: FNode<'f>)
        ensures
            node.config == self.config,
            node.index == index,
            node.dist@ == self.dist@,
            node.child_index@ == self.child_index@,
            node.num_children@ == self.num_children@,
            node.key@ == self.keys@,
    {
        FNode {
            config: self.config,
            index,
            dist: self.dist,
            child_index: self.child_index,
            num_children: self.num_children,
            key: self.keys,
        }
    }
}

/// A tree of `u64` keys in the sections of a file, ordered by the metric
/// `M`.
#[derive(Debug)]
pub struct BkTreeFromFile<'f, M: Metric<u64>> {
    node_count: usize,
    alloc: FromFileAllocator<'f>,
    metric: M,
}

impl<'f, M: Metric<u64>> BkTreeFromFile<'f, M> {
    /// What the sections hold.
    pub closed spec fn image(&self) -> TreeImage {
        self.alloc.image(self.node_count as nat)
    }

    /// A tree of `node_count` nodes in the four sections.
    ///
    /// Fails with `UnsupportedItemSize` unless keys take 8 bytes and every
    /// other entry takes 1 to 8 bytes, and with `MalformedSection` where
    /// the machine cannot count `node_count` nodes.
    pub fn new(
        config: FixedKeysConfig,
        node_count: u64,
        dist: &'f [u8],
        child_index: &'f [u8],
        num_children: &'f [u8],
        keys: &'f [u8],
        metric: M,
    ) -> (r: Result<Self, BkError>)
        ensures
            !config.wf() ==> r is Err && r->Err_0 == BkError::UnsupportedItemSize,
            config.wf() && node_count > usize::MAX ==> r is Err && r->Err_0
                == BkError::MalformedSection,
            config.wf() && node_count <= usize::MAX ==> r is Ok && r->Ok_0.image() == (TreeImage {
                config,
                node_count: node_count as nat,
                dist: dist@,
                child_index: child_index@,
                num_children: num_children@,
                keys: keys@,
            }),
    {
        if !config.is_valid() {
            return Err(BkError::UnsupportedItemSize);
        }
        if node_count > usize::MAX as u64 {
            return Err(BkError::MalformedSection);
        }
        Ok(
            BkTreeFromFile {
                node_count: node_count as usize,
                alloc: FromFileAllocator { config, dist, child_index, num_children, keys },
                metric,
            },
        )
    }

    /// The tree in the sections that `descr` names of `file`, whose header
    /// ends at `header_end`.  Nothing is copied.
    pub fn start_query(file: &'f [u8], header_end: usize, descr: &FileDescrHeader, metric: M) -> (r:
        Result<Self, BkError>)
        ensures
            match spec_open(file@, header_end as nat, *descr) {
                Ok(image) => r is Ok && r->Ok_0.image() == image,
                Err(e) => r is Err && r->Err_0 == e,
            },
    {
        let dist = match descr.section.dist {
            Some(section) => section,
            None => { return Err(BkError::MissingSection); },
        };
        let child_index = match descr.section.child_index {
            Some(section) => section,
            None => { return Err(BkError::MissingSection); },
        };
        let num_children = match descr.section.num_children {
            Some(section) => section,
            None => { return Err(BkError::MissingSection); },
        };
        let key = match descr.section.key {
            Some(section) => section,
            None => { return Err(BkError::MissingSection); },
        };
        let config = FixedKeysConfig {
            dist: section_width(&dist),
            child_index: section_width(&child_index),
            num_children: section_width(&num_children),
            key: section_width(&key),
        };
        if !config.is_valid() {
            return Err(BkError::UnsupportedItemSize);
        }
        let dist_bytes = section_bytes(file, header_end, &dist)?;
        let child_bytes = section_bytes(file, header_end, &child_index)?;
        let num_bytes = section_bytes(file, header_end, &num_children)?;
        let key_bytes = section_bytes(file, header_end, &key)?;
        Self::new(config, descr.node_count, dist_bytes, child_bytes, num_bytes, key_bytes, metric)
    }

    /// Node `index`, with its key read.
    pub fn node(&self, index: usize) -> (r: Result<QueryNode<'f>, BkError>)
        ensures
            match self.image().read_key(index as int) {
                Ok(key) => r is Ok && r->Ok_0.spec_key() == key && r->Ok_0.spec_index() == index
                    && r->Ok_0.image() == self.image(),
                Err(e) => r is Err && r->Err_0 == e,
            },
    {
        let key = self.alloc.read_key(self.node_count, index)?;
        Ok(QueryNode { key, index, node_count: self.node_count, sections: self.alloc })
    }

    /// A view of node `index`.
    pub fn fnode(&self, index: usize) -> (node: FNode<'f>)
        ensures
            node.config == self.image().config,
            node.index == index,
            node.dist@ == self.image().dist,
            node.child_index@ == self.image().child_index,
            node.num_children@ == self.image().num_children,
            node.key@ == self.image().keys,
    {
        self.alloc.fnode(index)
    }

    /// Finds every key within `tolerance` of `needle`.  Where the sections
    /// hold a tree, returns each such key once, with its distance to
    /// `needle`, and nothing else.  Whatever the sections hold, a key that
    /// is returned was read from a node and is within `tolerance`, and a
    /// failure says that the sections are not in the format.
    pub fn find_each(&self, needle: &u64, tolerance: Dist) -> (r: Result<Vec<(Dist, u64)>, BkError>)
        ensures
            self.wf() ==> r is Ok && finds_exactly::<U64Key, M>(
                r->Ok_0@,
                self.shape().keys.to_set(),
                *needle,
                tolerance,
            ),
            r is Ok ==> answers(self, r->Ok_0@, *needle, tolerance),
            r is Err ==> r->Err_0.spec_is_format_error(),
    {
        BkFind::new(self, tolerance, needle).each()
    }

    /// Walks the tree and returns, for each node, its slot in its parent,
    /// the number of its children, and its key, each node before its
    /// children.
    pub fn preorder_each(&self) -> (r: Result<Vec<(Dist, usize, u64)>, BkError>)
        ensures
            self.wf() ==> r is Ok && entries(r->Ok_0@) == self.shape().preorder(),
            r is Err ==> r->Err_0.spec_is_format_error(),
    {
        BkPreOrder::new(self).each()
    }
}

impl<'f, M: Metric<u64>> BkTree for BkTreeFromFile<'f, M> {
    type KQ = U64Key;

    type Metric = M;

    open spec fn shape(&self) -> Shape<u64> {
        self.image().shape()
    }

    open spec fn wf(&self) -> bool {
        &&& self.image().readable()
        &&& is_bk_tree::<u64, M>(self.image().shape())
    }

    open spec fn key_of(&self, index: int) -> Option<u64> {
        match self.image().read_key(index) {
            Ok(key) => Some(key),
            Err(_) => None,
        }
    }

    proof fn lemma_wf(&self) {
        assert forall|index: int| 0 <= index < self.shape().len() implies #[trigger] self.key_of(
            index,
        ) == Some(self.shape().keys[index]) by {
            self.image().lemma_reads(index);
        }
    }

    fn node_count(&self) -> (n: usize)
        ensures
            n == self.image().node_count,
    {
        self.node_count
    }

    fn root(&self) -> (r: Option<usize>)
        ensures
            r == (if self.image().node_count > 0 {
                Some(0usize)
            } else {
                None
            }),
    {
        if self.node_count > 0 {
            Some(0)
        } else {
            None
        }
    }

    fn max_depth_hint(&self) -> (hint: usize)
        ensures
            hint == 0,
    {
        0
    }

    fn key_at(&self, index: usize) -> (r: Result<u64, BkError>)
        ensures
            r == self.image().read_key(index as int),
    {
        proof {
            if self.wf() && index < self.node_count {
                assert(self.image().node_ok(index as int));
            }
        }
        self.alloc.read_key(self.node_count, index)
    }

    fn distance_at(&self, index: usize, needle: &u64) -> (r: Result<Dist, BkError>)
        ensures
            r == (match self.image().read_key(index as int) {
                Ok(key) => Ok(M::dist(key, *needle) as usize),
                Err(e) => Err(e),
            }),
    {
        match self.key_at(index) {
            Ok(key) => Ok(self.metric.distance(&key, needle)),
            Err(e) => Err(e),
        }
    }

    fn children_vector(&self, index: usize) -> (r: Result<Vec<(Dist, usize)>, BkError>)
        ensures
            match self.image().read_kids(index as int) {
                Ok(kids) => r is Ok && r->Ok_0@ == kids,
                Err(e) => r is Err && r->Err_0 == e,
            },
    {
        proof {
            if self.wf() && index < self.node_count {
                self.image().lemma_reads(index as int);
            }
        }
        self.alloc.read_children(self.node_count, index)
    }
}

/// A node of a tree in the sections of a file, with its key read.
#[derive(Debug, Clone, Copy)]
pub struct QueryNode<'f> {
    key: u64,
    index: usize,
    node_count: usize,
    sections: FromFileAllocator<'f>,
}

impl<'f> QueryNode<'f> {
    /// What the sections hold that the node lies in.
    pub closed spec fn image(&self) -> TreeImage {
        self.sections.image(self.node_count as nat)
    }

    /// The index of the node.
    pub closed spec fn spec_index(&self) -> usize {
        self.index
    }

    /// The index of the node.
    pub fn index(&self) -> (index: usize)
        ensures
            index == self.spec_index(),
    {
        self.index
    }
}

impl<'f> BkNode for QueryNode<'f> {
    type Key = u64;

    /// The children of the node; none where they cannot be read.
    open spec fn kids(&self) -> Seq<(Dist, usize)> {
        match self.image().read_kids(self.spec_index() as int) {
            Ok(kids) => kids,
            Err(_) => Seq::empty(),
        }
    }

    closed spec fn spec_key(&self) -> u64 {
        self.key
    }

    fn key(&self) -> (key: &u64) {
        &self.key
    }

    fn has_child_at(&self, dist: Dist) -> (has: bool) {
        self.child_at(dist).is_some()
    }

    fn child_at(&self, dist: Dist) -> (child: Option<usize>) {
        let children = self.children_vector();
        let mut k: usize = 0;
        while k < children.len()
            invariant
                k <= children.len(),
                children@ == self.kids(),
                forall|j: int| 0 <= j < k ==> (#[trigger] children@[j]).0 != dist,
            decreases children.len() - k,
        {
            if children[k].0 == dist {
                return Some(children[k].1);
            }
            k += 1;
        }
        None
    }

    fn children_vector(&self) -> (children: Vec<(Dist, usize)>) {
        match self.sections.read_children(self.node_count, self.index) {
            Ok(children) => children,
            Err(_) => Vec::new(),
        }
    }
}

} // verus!
