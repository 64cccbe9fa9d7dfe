//! The four sections of a file while a tree is written into them.

use crate::array_storage::{field_at, lemma_with_field, with_field, FixedKeysConfig};
use crate::endian::{le_value, lemma_pow256_values, pow256};
use crate::error::BkError;
use crate::extensible_mmap::ExtensibleBuffer;
use crate::fromfile::TreeImage;
use crate::render::Rendered;
use crate::Dist;
use vstd::prelude::*;

verus! {

/// Entries of zero bytes read as zero.
pub proof fn lemma_zero_field(buf: Seq<u8>, width: nat, index: nat)
    requires
        width > 0,
        (index + 1) * width <= buf.len(),
        forall|i: int| index * width <= i < (index + 1) * width ==> buf[i] == 0,
    ensures
        field_at(buf, width, index) == Some(0nat),
{
    assert((index + 1) * width == index * width + width) by (nonlinear_arith);
    let part = buf.subrange((index * width) as int, ((index + 1) * width) as int);
    lemma_zero_value(part);
}

/// Zero bytes stand for zero.
pub proof fn lemma_zero_value(bytes: Seq<u8>)
    requires
        forall|i: int| 0 <= i < bytes.len() ==> bytes[i] == 0,
    ensures
        le_value(bytes) == 0,
    decreases bytes.len(),
{
    if bytes.len() > 0 {
        lemma_zero_value(bytes.drop_first());
    }
}

/// An entry reads the same in a buffer that was made longer.
pub proof fn lemma_field_kept(buf: Seq<u8>, more: Seq<u8>, width: nat, index: nat)
    requires
        width > 0,
        (index + 1) * width <= buf.len(),
    ensures
        field_at(buf + more, width, index) == field_at(buf, width, index),
{
    assert((index + 1) * width == index * width + width) by (nonlinear_arith);
    assert((buf + more).subrange((index * width) as int, ((index + 1) * width) as int)
        =~= buf.subrange((index * width) as int, ((index + 1) * width) as int));
}

/// The four sections of a file while they are written.  Room for the nodes
/// is handed out in runs, as the children of a node lie next to each other,
/// and a node is written once room for it was handed out.
#[derive(Debug)]
pub struct InFileAllocator {
    config: FixedKeysConfig,
    index: usize,
    dist: ExtensibleBuffer,
    child_index: ExtensibleBuffer,
    num_children: ExtensibleBuffer,
    keys: ExtensibleBuffer,
}

impl InFileAllocator {
    /// What the sections hold.
    pub closed spec fn image(&self) -> TreeImage {
        TreeImage {
            config: self.config,
            node_count: self.index as nat,
            dist: self.dist.used(),
            child_index: self.child_index.used(),
            num_children: self.num_children.used(),
            keys: self.keys.used(),
        }
    }

    /// Each section holds as many entries as nodes were handed out.
    pub closed spec fn wf(&self) -> bool {
        &&& self.config.wf()
        &&& self.dist.wf()
        &&& self.child_index.wf()
        &&& self.num_children.wf()
        &&& self.keys.wf()
        &&& self.dist.allocated() == self.index * self.config.dist
        &&& self.child_index.allocated() == self.index * self.config.child_index
        &&& self.num_children.allocated() == self.index * self.config.num_children
        &&& self.keys.allocated() == self.index * 8
    }

    /// Sections without nodes, for entries of the widths of `config`.
    pub fn new(config: FixedKeysConfig) -> (alloc: Self)
        requires
            config.wf(),
        ensures
            alloc.wf(),
            alloc.image().config == config,
            alloc.image().node_count == 0,
    {
        InFileAllocator {
            config,
            index: 0,
            dist: ExtensibleBuffer::new(),
            child_index: ExtensibleBuffer::new(),
            num_children: ExtensibleBuffer::new(),
            keys: ExtensibleBuffer::new(),
        }
    }

    /// Each section is as long as its entries take.
    pub proof fn lemma_sizes(&self)
        requires
            self.wf(),
        ensures
            self.image().config.wf(),
            self.image().node_count <= usize::MAX,
            self.image().dist.len() == self.image().node_count * self.image().config.dist,
            self.image().child_index.len() == self.image().node_count
                * self.image().config.child_index,
            self.image().num_children.len() == self.image().node_count
                * self.image().config.num_children,
            self.image().keys.len() == self.image().node_count * 8,
    {
        self.dist.lemma_used_len();
        self.child_index.lemma_used_len();
        self.num_children.lemma_used_len();
        self.keys.lemma_used_len();
    }

    /// The number of nodes that room was handed out for.
    pub fn len(&self) -> (n: usize)
        ensures
            n == self.image().node_count,
    {
        self.index
    }

    /// Hands out room for `n` more nodes, which lie next to each other,
    /// and returns the index of the first.  What was written stays, and the
    /// fields of the new nodes are zero.  Fails, and changes nothing, where
    /// the sections would be longer than the machine can address.
    pub fn alloc_nodes(&mut self, n: usize) -> (r: Result<usize, BkError>)
        requires
            old(self).wf(),
        ensures
            final(self).wf(),
            final(self).image().config == old(self).image().config,
            r is Ok <==> (old(self).image().node_count + n) * 8 <= usize::MAX,
            r is Err ==> r->Err_0 == BkError::OutOfStorage && final(self).image() == old(
                self,
            ).image(),
            r is Ok ==> {
                &&& r->Ok_0 == old(self).image().node_count
                &&& final(self).image().node_count == old(self).image().node_count + n
                &&& forall|i: int|
                    0 <= i < old(self).image().node_count ==> {
                        &&& #[trigger] final(self).image().key(i) == old(self).image().key(i)
                        &&& final(self).image().slot(i) == old(self).image().slot(i)
                        &&& final(self).image().count(i) == old(self).image().count(i)
                        &&& final(self).image().base(i) == old(self).image().base(i)
                    }
                &&& forall|i: int|
                    old(self).image().node_count <= i < final(self).image().node_count ==> {
                        &&& #[trigger] final(self).image().key(i) == Some(0u64)
                        &&& final(self).image().slot(i) == Some(0usize)
                        &&& final(self).image().count(i) == Some(0usize)
                        &&& final(self).image().base(i) == Some(0usize)
                    }
            },
    {
        let total = match self.index.checked_add(n) {
            Some(total) => total,
            None => { return Err(BkError::OutOfStorage); },
        };
        if total > usize::MAX / 8 {
            return Err(BkError::OutOfStorage);
        }
        let ghost before = self.image();
        let ghost first = self.index as nat;
        proof {
            self.lemma_sizes();
            lemma_widths(first, n as nat, self.config.dist as nat);
            lemma_widths(first, n as nat, self.config.child_index as nat);
            lemma_widths(first, n as nat, self.config.num_children as nat);
            lemma_widths(first, n as nat, 8);
        }
        let _ = self.dist.alloc_bytes(n * self.config.dist).unwrap();
        let _ = self.child_index.alloc_bytes(n * self.config.child_index).unwrap();
        let _ = self.num_children.alloc_bytes(n * self.config.num_children).unwrap();
        let _ = self.keys.alloc_bytes(n * 8).unwrap();
        let start = self.index;
        self.index = total;
        proof {
            let after = self.image();
            assert forall|i: int| 0 <= i < total implies {
                &&& #[trigger] after.key(i) == (if i < first {
                    before.key(i)
                } else {
                    Some(0u64)
                })
                &&& after.slot(i) == (if i < first {
                    before.slot(i)
                } else {
                    Some(0usize)
                })
                &&& after.count(i) == (if i < first {
                    before.count(i)
                } else {
                    Some(0usize)
                })
                &&& after.base(i) == (if i < first {
                    before.base(i)
                } else {
                    Some(0usize)
                })
            } by {
                lemma_grown_field(before.keys, (n * 8) as nat, 8, first, n as nat, i as nat);
                lemma_grown_field(
                    before.dist,
                    (n * self.config.dist) as nat,
                    self.config.dist as nat,
                    first,
                    n as nat,
                    i as nat,
                );
                lemma_grown_field(
                    before.num_children,
                    (n * self.config.num_children) as nat,
                    self.config.num_children as nat,
                    first,
                    n as nat,
                    i as nat,
                );
                lemma_grown_field(
                    before.child_index,
                    (n * self.config.child_index) as nat,
                    self.config.child_index as nat,
                    first,
                    n as nat,
                    i as nat,
                );
            }
        }
        Ok(start)
    }

    /// Stores `key` as the key of node `index`.
    pub fn set_key(&mut self, index: usize, key: u64)
        requires
            old(self).wf(),
            index < old(self).image().node_count,
        ensures
            final(self).wf(),
            final(self).image() == (TreeImage {
                keys: final(self).image().keys,
                ..old(self).image()
            }),
            final(self).image().key(index as int) == Some(key),
            forall|i: int|
                i != index ==> #[trigger] final(self).image().key(i) == old(self).image().key(i),
    {
        proof {
            self.lemma_sizes();
            lemma_room(self.index as nat, index as nat, 8);
            lemma_pow256_values();
            let before = self.image();
            let after = TreeImage {
                keys: with_field(self.keys.used(), 8, index as nat, key as nat),
                ..before
            };
            assert forall|i: int| i != index implies #[trigger] after.key(i) == before.key(
                i,
            ) by {
                if 0 <= i <= usize::MAX {
                    lemma_with_field(self.keys.used(), 8, index as nat, key as nat, i as nat);
                }
            }
            lemma_with_field(self.keys.used(), 8, index as nat, key as nat, index as nat);
        }
        self.keys.put_field(8, index, key);
    }

    /// Stores `dist` as the distance of node `index` from its parent.
    pub fn set_dist(&mut self, index: usize, dist: Dist)
        requires
            old(self).wf(),
            index < old(self).image().node_count,
            dist < pow256(old(self).image().config.dist as nat),
        ensures
            final(self).wf(),
            final(self).image() == (TreeImage {
                dist: final(self).image().dist,
                ..old(self).image()
            }),
            final(self).image().slot(index as int) == Some(dist),
            forall|i: int|
                i != index ==> #[trigger] final(self).image().slot(i) == old(self).image().slot(i),
    {
        let width = self.config.dist;
        proof {
            self.lemma_sizes();
            lemma_room(self.index as nat, index as nat, width as nat);
            lemma_pow256_values();
            let before = self.image();
            let after = TreeImage {
                dist: with_field(self.dist.used(), width as nat, index as nat, dist as nat),
                ..before
            };
            assert forall|i: int| i != index implies #[trigger] after.slot(i) == before.slot(
                i,
            ) by {
                if 0 <= i <= usize::MAX {
                    lemma_with_field(self.dist.used(), width as nat, index as nat, dist as nat, i as nat);
                }
            }
            lemma_with_field(self.dist.used(), width as nat, index as nat, dist as nat, index as nat);
        }
        self.dist.put_field(width, index, dist as u64);
    }

    /// Stores `n` as the number of children of node `index`.
    pub fn set_num_children(&mut self, index: usize, n: usize)
        requires
            old(self).wf(),
            index < old(self).image().node_count,
            n < pow256(old(self).image().config.num_children as nat),
        ensures
            final(self).wf(),
            final(self).image() == (TreeImage {
                num_children: final(self).image().num_children,
                ..old(self).image()
            }),
            final(self).image().count(index as int) == Some(n),
            forall|i: int|
                i != index ==> #[trigger] final(self).image().count(i) == old(self).image().count(
                    i,
                ),
    {
        let width = self.config.num_children;
        proof {
            self.lemma_sizes();
            lemma_room(self.index as nat, index as nat, width as nat);
            lemma_pow256_values();
            let before = self.image();
            let after = TreeImage {
                num_children: with_field(self.num_children.used(), width as nat, index as nat, n as nat),
                ..before
            };
            assert forall|i: int| i != index implies #[trigger] after.count(i) == before.count(
                i,
            ) by {
                if 0 <= i <= usize::MAX {
                    lemma_with_field(self.num_children.used(), width as nat, index as nat, n as nat, i as nat);
                }
            }
            lemma_with_field(
                self.num_children.used(),
                width as nat,
                index as nat,
                n as nat,
                index as nat,
            );
        }
        self.num_children.put_field(width, index, n as u64);
    }

    /// Stores `first` as the index of the first child of node `index`; `0`
    /// stands for a node without children.
    pub fn set_child_index(&mut self, index: usize, first: usize)
        requires
            old(self).wf(),
            index < old(self).image().node_count,
            first < pow256(old(self).image().config.child_index as nat),
        ensures
            final(self).wf(),
            final(self).image() == (TreeImage {
                child_index: final(self).image().child_index,
                ..old(self).image()
            }),
            final(self).image().base(index as int) == Some(first),
            forall|i: int|
                i != index ==> #[trigger] final(self).image().base(i) == old(self).image().base(i),
    {
        let width = self.config.child_index;
        proof {
            self.lemma_sizes();
            lemma_room(self.index as nat, index as nat, width as nat);
            lemma_pow256_values();
            let before = self.image();
            let after = TreeImage {
                child_index: with_field(self.child_index.used(), width as nat, index as nat, first as nat),
                ..before
            };
            assert forall|i: int| i != index implies #[trigger] after.base(i) == before.base(
                i,
            ) by {
                if 0 <= i <= usize::MAX {
                    lemma_with_field(self.child_index.used(), width as nat, index as nat, first as nat, i as nat);
                }
            }
            lemma_with_field(
                self.child_index.used(),
                width as nat,
                index as nat,
                first as nat,
                index as nat,
            );
        }
        self.child_index.put_field(width, index, first as u64);
    }
}

/// The bytes of `n` more entries follow the bytes of `first` entries.
pub proof fn lemma_widths(first: nat, n: nat, width: nat)
    requires
        (first + n) * 8 <= usize::MAX,
        width <= 8,
    ensures
        first * width + n * width == (first + n) * width,
        (first + n) * width <= usize::MAX,
{
    assert(first * width + n * width == (first + n) * width) by (nonlinear_arith);
    assert((first + n) * width <= (first + n) * 8) by (nonlinear_arith)
        requires
            width <= 8,
    ;
}

/// What a buffer of `first` entries that was made longer by the zero bytes
/// of `n` more entries holds as entry `i`: what it held, for an old entry,
/// and zero, for a new one.
pub proof fn lemma_grown_field(
    buf: Seq<u8>,
    added: nat,
    width: nat,
    first: nat,
    n: nat,
    i: nat,
)
    requires
        width > 0,
        buf.len() == first * width,
        added == n * width,
        i < first + n,
    ensures
        field_at(buf + Seq::new(added, |j: int| 0u8), width, i) == (if i < first {
            field_at(buf, width, i)
        } else {
            Some(0nat)
        }),
{
    let more = Seq::new(added, |j: int| 0u8);
    assert((i + 1) * width == i * width + width) by (nonlinear_arith);
    assert(first * width + n * width == (first + n) * width) by (nonlinear_arith);
    if i < first {
        lemma_room(first, i, width);
        lemma_field_kept(buf, more, width, i);
    } else {
        lemma_room(first + n, i, width);
        assert(first * width <= i * width) by (nonlinear_arith)
            requires
                first <= i,
        ;
        lemma_zero_field(buf + more, width, i);
    }
}

/// The entries before the `n`-th lie within `n` entries.
pub proof fn lemma_room(n: nat, i: nat, width: nat)
    requires
        i < n,
    ensures
        (i + 1) * width <= n * width,
{
    assert((i + 1) * width <= n * width) by (nonlinear_arith)
        requires
            i + 1 <= n,
    ;
}

impl InFileAllocator {
    /// Gives up the sections for the bytes that were written.
    pub fn into_rendered(self) -> (rendered: Rendered)
        requires
            self.wf(),
        ensures
            rendered.image() == self.image(),
    {
        Rendered {
            config: self.config,
            node_count: self.index as u64,
            dist: self.dist.into_bytes(),
            child_index: self.child_index.into_bytes(),
            num_children: self.num_children.into_bytes(),
            keys: self.keys.into_bytes(),
        }
    }
}

} // verus!
