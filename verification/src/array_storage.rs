//! How the fields of a node are laid out in bytes.
//!
//! This is one layer above the file format: it says how to read chunks of
//! bytes as the nodes of a tree and as their keys.  Every integer of more
//! than one byte is stored little endian, and a read that would run past the
//! end of its buffer gives no value.

use crate::endian::{
    le_bytes, le_value, lemma_le_bytes_len, lemma_le_round_trip, lemma_le_value_bound,
    lemma_pow256_values, pow256, read_u64_le, read_uint_le, write_u64_le, write_uint_le,
};
use crate::Dist;
use vstd::prelude::*;
use vstd::slice::slice_subrange;

verus! {

/// The `len` bytes of `buf` that start at `offset1 + offset2`, if the
/// buffer holds them all.
pub fn get_slice<'a>(buf: &'a [u8], offset1: usize, offset2: usize, len: usize) -> (r: Option<
    &'a [u8],
>)
    ensures
        r is Some <==> offset1 + offset2 + len <= buf@.len(),
        r is Some ==> r->Some_0@ == buf@.subrange(offset1 + offset2, offset1 + offset2 + len),
{
    let buf_len: usize = buf.len();
    match offset1.checked_add(offset2) {
        None => None,
        Some(start) => match start.checked_add(len) {
            None => None,
            Some(end) => if end <= buf_len {
                Some(slice_subrange(buf, start, end))
            } else {
                None
            },
        },
    }
}

/// The value of entry `index` in an array of entries of `width` bytes each,
/// if `buf` holds the whole entry.
pub open spec fn field_at(buf: Seq<u8>, width: nat, index: nat) -> Option<nat> {
    if (index + 1) * width <= buf.len() {
        Some(le_value(buf.subrange((index * width) as int, ((index + 1) * width) as int)))
    } else {
        None
    }
}

/// The bytes of `buf` with entry `index` of an array of entries of `width`
/// bytes each set to `value`.
pub open spec fn with_field(buf: Seq<u8>, width: nat, index: nat, value: nat) -> Seq<u8> {
    buf.subrange(0, (index * width) as int) + le_bytes(value, width) + buf.subrange(
        ((index + 1) * width) as int,
        buf.len() as int,
    )
}

/// Setting an entry makes it read as the value that was set, and changes no
/// other entry.
pub proof fn lemma_with_field(buf: Seq<u8>, width: nat, index: nat, value: nat, other: nat)
    requires
        width > 0,
        (index + 1) * width <= buf.len(),
        value < pow256(width),
    ensures
        with_field(buf, width, index, value).len() == buf.len(),
        field_at(with_field(buf, width, index, value), width, index) == Some(value),
        other != index ==> field_at(with_field(buf, width, index, value), width, other)
            == field_at(buf, width, other),
{
    let new = with_field(buf, width, index, value);
    lemma_le_bytes_len(value, width);
    lemma_le_round_trip(value, width);
    assert((index + 1) * width == index * width + width) by (nonlinear_arith);
    assert(new.len() == buf.len());
    assert(new.subrange((index * width) as int, ((index + 1) * width) as int) =~= le_bytes(
        value,
        width,
    ));
    if other != index {
        assert((other + 1) * width == other * width + width) by (nonlinear_arith);
        if other < index {
            assert((other + 1) * width <= index * width) by (nonlinear_arith)
                requires
                    other + 1 <= index,
            ;
        } else {
            assert((index + 1) * width <= other * width) by (nonlinear_arith)
                requires
                    index + 1 <= other,
            ;
        }
        if (other + 1) * width <= buf.len() {
            assert(new.subrange((other * width) as int, ((other + 1) * width) as int)
                =~= buf.subrange((other * width) as int, ((other + 1) * width) as int));
        }
    }
}

/// Reads entry `index` of an array of entries of `width` bytes each.
pub fn read_field(buf: &[u8], width: usize, index: usize) -> (r: Option<u64>)
    requires
        1 <= width <= 8,
    ensures
        r is Some <==> field_at(buf@, width as nat, index as nat) is Some,
        r is Some ==> r->Some_0 == field_at(buf@, width as nat, index as nat)->Some_0,
{
    assert((index + 1) * width == index * width + width) by (nonlinear_arith);
    let buf_len: usize = buf.len();
    match index.checked_mul(width) {
        None => None,
        Some(start) => match start.checked_add(width) {
            None => None,
            Some(end) => if end <= buf_len {
                proof {
                    lemma_le_value_bound(buf@.subrange(start as int, end as int));
                    lemma_pow256_values();
                }
                Some(read_uint_le(buf, start, width))
            } else {
                None
            },
        },
    }
}

/// Writes `value` as entry `index` of an array of entries of `width` bytes
/// each.  The entry has to lie within the buffer, and the value has to fit
/// in the entry.
pub fn write_field(buf: &mut Vec<u8>, width: usize, index: usize, value: u64)
    requires
        1 <= width <= 8,
        (index + 1) * width <= old(buf)@.len(),
        value < pow256(width as nat),
    ensures
        final(buf)@ == with_field(old(buf)@, width as nat, index as nat, value as nat),
{
    assert((index + 1) * width == index * width + width) by (nonlinear_arith);
    let buf_len: usize = buf.len();
    let start = index * width;
    write_uint_le(buf, start, value, width);
}

/// The smallest width, from 1 to 8 bytes, whose entries can hold `i`.
pub open spec fn spec_byte_size(i: u64) -> usize {
    if i < 0x100 {
        1
    } else if i < 0x1_0000 {
        2
    } else if i < 0x100_0000 {
        3
    } else if i < 0x1_0000_0000 {
        4
    } else if i < 0x100_0000_0000 {
        5
    } else if i < 0x1_0000_0000_0000 {
        6
    } else if i < 0x100_0000_0000_0000 {
        7
    } else {
        8
    }
}

/// The number of bytes that it takes to store any value up to `i`: the
/// smallest width, from 1 to 8, whose entries can hold `i`.
pub fn byte_size_for_max_val(i: u64) -> (width: usize)
    ensures
        width == spec_byte_size(i),
        1 <= width <= 8,
        i < pow256(width as nat),
        width > 1 ==> i >= pow256((width - 1) as nat),
{
    proof {
        lemma_pow256_values();
    }
    if i < 0x100 {
        1
    } else if i < 0x1_0000 {
        2
    } else if i < 0x100_0000 {
        3
    } else if i < 0x1_0000_0000 {
        4
    } else if i < 0x100_0000_0000 {
        5
    } else if i < 0x1_0000_0000_0000 {
        6
    } else if i < 0x100_0000_0000_0000 {
        7
    } else {
        8
    }
}

/// A number read from a file as an index or a distance, if it is one on
/// this machine.
pub fn to_index(value: u64) -> (r: Option<usize>)
    ensures
        r is Some <==> value <= usize::MAX,
        r is Some ==> r->Some_0 == value,
{
    if value <= usize::MAX as u64 {
        Some(value as usize)
    } else {
        None
    }
}

/// What can be read of a node that is stored in bytes.  Each field reads as
/// no value where its bytes lie past the end of the buffer.
pub trait InStorageNode {
    /// The distance between the node's key and its parent's.
    spec fn spec_dist(&self) -> Option<Dist>;

    /// The number of children of the node.
    spec fn spec_child_count(&self) -> Option<usize>;

    /// Where the first child of the node is stored; no value for a node
    /// without children.
    spec fn spec_children_offset(&self) -> Option<usize>;

    /// Where the key of the node starts in the key buffer.
    spec fn spec_key_offset(&self) -> Option<usize>;

    /// The number of bytes of the key.
    spec fn spec_key_length(&self) -> Option<usize>;

    /// The number of bytes that the fields of one node take, the key apart.
    fn encoding_size(&self) -> usize;

    /// The distance between the node's key and its parent's.
    fn dist(&self) -> (r: Option<Dist>)
        ensures
            r == self.spec_dist(),
    ;

    /// The number of children of the node.
    fn child_count(&self) -> (r: Option<usize>)
        ensures
            r == self.spec_child_count(),
    ;

    /// Where the first child of the node is stored; no value for a node
    /// without children.
    fn children_offset(&self) -> (r: Option<usize>)
        ensures
            r == self.spec_children_offset(),
    ;

    /// Where the key of the node starts in the key buffer.
    fn key_offset(&self) -> (r: Option<usize>)
        ensures
            r == self.spec_key_offset(),
    ;

    /// The number of bytes of the key.
    fn key_length(&self) -> (r: Option<usize>)
        ensures
            r == self.spec_key_length(),
    ;
}

/// What can be written of a node that is stored in bytes.  A field can be
/// written once room for it was reserved, and only with a value that it can
/// hold.
pub trait InStorageNodeMut: InStorageNode {
    /// What the node holds.
    type Key;

    /// The key of the node, if the buffer holds all of it.
    spec fn spec_key(&self) -> Option<Self::Key>;

    /// Whether the buffers hold the fields of the node.
    spec fn has_room(&self) -> bool;

    /// Whether there is room for the key of the node.
    spec fn has_key_room(&self) -> bool;

    /// Whether `value` fits in the field for the distance.
    spec fn dist_fits(&self, value: Dist) -> bool;

    /// Whether `value` fits in the field for the number of children.
    spec fn count_fits(&self, value: usize) -> bool;

    /// Whether `value` fits in the field for the place of the children.
    spec fn offset_fits(&self, value: usize) -> bool;

    /// Stores `key` as the key of the node.
    fn set_key(&mut self, key: Self::Key)
        requires
            old(self).has_key_room(),
        ensures
            final(self).spec_key() == Some(key),
            final(self).spec_dist() == old(self).spec_dist(),
            final(self).spec_child_count() == old(self).spec_child_count(),
            final(self).spec_children_offset() == old(self).spec_children_offset(),
            final(self).has_room() == old(self).has_room(),
            final(self).has_key_room(),
    ;

    /// Stores `dist` as the distance between the node's key and its
    /// parent's.
    fn set_dist(&mut self, dist: Dist)
        requires
            old(self).has_room(),
            old(self).dist_fits(dist),
        ensures
            final(self).spec_dist() == Some(dist),
            final(self).spec_key() == old(self).spec_key(),
            final(self).spec_child_count() == old(self).spec_child_count(),
            final(self).spec_children_offset() == old(self).spec_children_offset(),
            final(self).has_room(),
            final(self).has_key_room() == old(self).has_key_room(),
    ;

    /// Stores `n` as the number of children of the node.
    fn set_num_children(&mut self, n: usize)
        requires
            old(self).has_room(),
            old(self).count_fits(n),
        ensures
            final(self).spec_child_count() == Some(n),
            final(self).spec_key() == old(self).spec_key(),
            final(self).spec_dist() == old(self).spec_dist(),
            final(self).spec_children_offset() == old(self).spec_children_offset(),
            final(self).has_room(),
            final(self).has_key_room() == old(self).has_key_room(),
    ;

    /// Stores `child_offset` as the place of the node's first child; `0`
    /// says that the node has no children.
    fn set_child_offset(&mut self, child_offset: usize)
        requires
            old(self).has_room(),
            old(self).offset_fits(child_offset),
        ensures
            final(self).spec_children_offset() == (if child_offset > 0 {
                Some(child_offset)
            } else {
                None
            }),
            final(self).spec_key() == old(self).spec_key(),
            final(self).spec_dist() == old(self).spec_dist(),
            final(self).spec_child_count() == old(self).spec_child_count(),
            final(self).has_room(),
            final(self).has_key_room() == old(self).has_key_room(),
    ;
}

/// A node of 8 bytes with a key of 64 bits, in two buffers that it owns.
///
/// The node array holds, for each node: the distance from its parent (1
/// byte), the number of its children (1 byte), 2 bytes of padding that are
/// zero, and the offset of its first child in the node array (4 bytes),
/// where `0` says that there are no children.  The key array holds the keys
/// at fixed offsets: 8 bytes for each node, in the order of the nodes.
///
/// `offset` is where the node starts in the node array.
#[derive(Debug, Clone)]
pub struct F64BNode8 {
    /// The node array.
    pub node_buffer: Vec<u8>,
    /// The key array.
    pub key_buffer: Vec<u8>,
    /// Where this node starts in the node array.
    pub offset: usize,
}

impl F64BNode8 {
    /// Where the key of the node ends in the key buffer, if the buffer
    /// holds all of the key.
    pub open spec fn spec_key_end(&self) -> Option<usize> {
        if self.offset / 8 * 8 + 8 <= self.key_buffer@.len() {
            Some((self.offset / 8 * 8 + 8) as usize)
        } else {
            None
        }
    }

    /// The bytes of the key, if the buffer holds all of them.
    pub open spec fn spec_key_bytes(&self) -> Option<Seq<u8>> {
        if self.spec_key_end() is Some {
            Some(
                self.key_buffer@.subrange(
                    (self.offset / 8 * 8) as int,
                    self.offset / 8 * 8 + 8,
                ),
            )
        } else {
            None
        }
    }

    /// Where the key of the node ends in the key buffer, if the buffer
    /// holds all of the key.
    pub fn key_end(&self) -> (r: Option<usize>)
        ensures
            r == self.spec_key_end(),
    {
        let start = self.offset / 8 * 8;
        let len: usize = self.key_buffer.len();
        match start.checked_add(8) {
            Some(end) => if end <= len {
                Some(end)
            } else {
                None
            },
            None => None,
        }
    }

    /// The bytes of the key, if the buffer holds all of them.
    pub fn key_bytes(&self) -> (r: Option<&[u8]>)
        ensures
            r is Some <==> self.spec_key_bytes() is Some,
            r is Some ==> r->Some_0@ == self.spec_key_bytes()->Some_0,
    {
        let start = self.offset / 8 * 8;
        let len: usize = self.key_buffer.len();
        match self.key_end() {
            Some(end) => Some(slice_subrange(self.key_buffer.as_slice(), start, end)),
            None => None,
        }
    }

    /// The key of the node, if the buffer holds all of it: a key buffer
    /// that was cut short gives no key.
    pub fn key(&self) -> (r: Option<u64>)
        ensures
            r == self.spec_key(),
    {
        let start = self.offset / 8 * 8;
        let len: usize = self.key_buffer.len();
        match self.key_end() {
            Some(end) => {
                proof {
                    lemma_le_value_bound(self.key_buffer@.subrange(start as int, end as int));
                    lemma_pow256_values();
                }
                Some(read_u64_le(self.key_buffer.as_slice(), start))
            },
            None => None,
        }
    }

    /// The node that is stored after this one.
    pub fn next_node(self) -> (next: F64BNode8)
        requires
            self.offset + 8 <= usize::MAX,
        ensures
            next.offset == self.offset + 8,
            next.node_buffer == self.node_buffer,
            next.key_buffer == self.key_buffer,
    {
        F64BNode8 {
            node_buffer: self.node_buffer,
            key_buffer: self.key_buffer,
            offset: self.offset + 8,
        }
    }

    /// The node that is stored before this one.
    pub fn prev_node(self) -> (prev: F64BNode8)
        requires
            self.offset >= 8,
        ensures
            prev.offset == self.offset - 8,
            prev.node_buffer == self.node_buffer,
            prev.key_buffer == self.key_buffer,
    {
        F64BNode8 {
            node_buffer: self.node_buffer,
            key_buffer: self.key_buffer,
            offset: self.offset - 8,
        }
    }

    /// The first child of this node, if it has children.
    pub fn first_child(self) -> (child: Option<F64BNode8>)
        ensures
            child is Some <==> self.spec_children_offset() is Some,
            child is Some ==> child->Some_0.offset == self.spec_children_offset()->Some_0
                && child->Some_0.node_buffer == self.node_buffer && child->Some_0.key_buffer
                == self.key_buffer,
    {
        match self.children_offset() {
            Some(offset) => Some(
                F64BNode8 { node_buffer: self.node_buffer, key_buffer: self.key_buffer, offset },
            ),
            None => None,
        }
    }
}

impl InStorageNode for F64BNode8 {
    open spec fn spec_dist(&self) -> Option<Dist> {
        if self.offset + 1 <= self.node_buffer@.len() {
            Some(self.node_buffer@[self.offset as int] as usize)
        } else {
            None
        }
    }

    open spec fn spec_child_count(&self) -> Option<usize> {
        if self.offset + 2 <= self.node_buffer@.len() {
            Some(self.node_buffer@[self.offset + 1] as usize)
        } else {
            None
        }
    }

    open spec fn spec_children_offset(&self) -> Option<usize> {
        if self.offset + 8 <= self.node_buffer@.len() {
            let v = le_value(self.node_buffer@.subrange(self.offset + 4, self.offset + 8));
            if 0 < v <= usize::MAX {
                Some(v as usize)
            } else {
                None
            }
        } else {
            None
        }
    }

    open spec fn spec_key_offset(&self) -> Option<usize> {
        Some((self.offset / 8 * 8) as usize)
    }

    open spec fn spec_key_length(&self) -> Option<usize> {
        Some(8usize)
    }

    fn encoding_size(&self) -> (size: usize)
        ensures
            size == 8,
    {
        8
    }

    fn dist(&self) -> (r: Option<Dist>) {
        match get_slice(self.node_buffer.as_slice(), self.offset, 0, 1) {
            Some(bytes) => Some(bytes[0] as usize),
            None => None,
        }
    }

    fn child_count(&self) -> (r: Option<usize>) {
        match get_slice(self.node_buffer.as_slice(), self.offset, 1, 1) {
            Some(bytes) => Some(bytes[0] as usize),
            None => None,
        }
    }

    fn children_offset(&self) -> (r: Option<usize>) {
        match get_slice(self.node_buffer.as_slice(), self.offset, 4, 4) {
            Some(bytes) => {
                assert(bytes@.subrange(0, 4) =~= bytes@);
                let offset = read_uint_le(bytes, 0, 4);
                if offset > 0 {
                    to_index(offset)
                } else {
                    None
                }
            },
            None => None,
        }
    }

    fn key_offset(&self) -> (r: Option<usize>) {
        Some(self.offset / 8 * 8)
    }

    fn key_length(&self) -> (r: Option<usize>) {
        Some(8)
    }
}

impl InStorageNodeMut for F64BNode8 {
    type Key = u64;

    open spec fn spec_key(&self) -> Option<u64> {
        match self.spec_key_bytes() {
            Some(bytes) => Some(le_value(bytes) as u64),
            None => None,
        }
    }

    open spec fn has_room(&self) -> bool {
        self.offset + 8 <= self.node_buffer@.len()
    }

    open spec fn has_key_room(&self) -> bool {
        self.spec_key_end() is Some
    }

    open spec fn dist_fits(&self, value: Dist) -> bool {
        value < 0x100
    }

    open spec fn count_fits(&self, value: usize) -> bool {
        value < 0x100
    }

    open spec fn offset_fits(&self, value: usize) -> bool {
        value < 0x1_0000_0000
    }

    fn set_key(&mut self, key: u64) {
        let start = self.offset / 8 * 8;
        let len: usize = self.key_buffer.len();
        proof {
            lemma_pow256_values();
            lemma_le_bytes_len(key as nat, 8);
            lemma_le_round_trip(key as nat, 8);
        }
        write_u64_le(&mut self.key_buffer, start, key);
        assert(self.key_buffer@.subrange(start as int, start + 8) =~= le_bytes(key as nat, 8));
    }

    fn set_dist(&mut self, dist: Dist) {
        let len: usize = self.node_buffer.len();
        let at = self.offset;
        self.node_buffer[at] = dist as u8;
        assert(self.node_buffer@.subrange(at + 4, at + 8) =~= old(self).node_buffer@.subrange(
            at + 4,
            at + 8,
        ));
    }

    fn set_num_children(&mut self, n: usize) {
        let len: usize = self.node_buffer.len();
        let at = self.offset + 1;
        self.node_buffer[at] = n as u8;
        assert(self.node_buffer@.subrange(at + 3, at + 7) =~= old(self).node_buffer@.subrange(
            at + 3,
            at + 7,
        ));
    }

    fn set_child_offset(&mut self, child_offset: usize) {
        let len: usize = self.node_buffer.len();
        let at = self.offset + 4;
        proof {
            lemma_pow256_values();
            lemma_le_bytes_len(child_offset as nat, 4);
            lemma_le_round_trip(child_offset as nat, 4);
        }
        write_uint_le(&mut self.node_buffer, at, child_offset as u64, 4);
        assert(self.node_buffer@.subrange(at as int, at + 4) =~= le_bytes(child_offset as nat, 4));
    }
}

/// The number of bytes that each of the four parallel arrays spends on one
/// node.  The widths are chosen for each file, so that a small tree wastes
/// no bytes and a large one still fits.
#[derive(Debug, Clone, Copy, PartialEq, Eq, Structural)]
pub struct FixedKeysConfig {
    /// The width of a distance.
    pub dist: usize,
    /// The width of the index of a node's first child.
    pub child_index: usize,
    /// The width of a number of children.
    pub num_children: usize,
    /// The width of a key.
    pub key: usize,
}

impl FixedKeysConfig {
    /// Whether the widths can be read and written: the three integers take
    /// 1 to 8 bytes each, and a key takes 8.
    pub open spec fn wf(self) -> bool {
        &&& 1 <= self.dist <= 8
        &&& 1 <= self.child_index <= 8
        &&& 1 <= self.num_children <= 8
        &&& self.key == 8
    }

    /// Whether the widths can be read and written.
    pub fn is_valid(&self) -> (valid: bool)
        ensures
            valid == self.wf(),
    {
        1 <= self.dist && self.dist <= 8 && 1 <= self.child_index && self.child_index <= 8 && 1
            <= self.num_children && self.num_children <= 8 && self.key == 8
    }

    /// The narrowest widths for a tree of `node_count` nodes in which no
    /// distance between a node and its parent exceeds `max_dist` and no
    /// node has more than `max_children` children.
    pub fn measure(node_count: u64, max_dist: u64, max_children: u64) -> (config: Self)
        ensures
            config.wf(),
            node_count < pow256(config.child_index as nat),
            max_dist < pow256(config.dist as nat),
            max_children < pow256(config.num_children as nat),
            config.child_index == spec_byte_size(node_count),
            config.dist == spec_byte_size(max_dist),
            config.num_children == spec_byte_size(max_children),
    {
        FixedKeysConfig {
            dist: byte_size_for_max_val(max_dist),
            child_index: byte_size_for_max_val(node_count),
            num_children: byte_size_for_max_val(max_children),
            key: 8,
        }
    }
}

/// Entry `index` of an array of entries of `width` bytes each, as an index
/// on this machine: no value where the width cannot be read, the entry lies
/// past the end of the buffer, or the number is too large.
pub open spec fn entry_at(buf: Seq<u8>, width: usize, index: usize) -> Option<usize> {
    if 1 <= width <= 8 {
        match field_at(buf, width as nat, index as nat) {
            Some(v) => if v <= usize::MAX {
                Some(v as usize)
            } else {
                None
            },
            None => None,
        }
    } else {
        None
    }
}

/// Reads entry `index` of an array of entries of `width` bytes each as an
/// index on this machine.
pub fn read_entry(buf: &[u8], width: usize, index: usize) -> (r: Option<usize>)
    ensures
        r == entry_at(buf@, width, index),
{
    if 1 <= width && width <= 8 {
        match read_field(buf, width, index) {
            Some(v) => to_index(v),
            None => None,
        }
    } else {
        None
    }
}

/// A view of one node in the four parallel arrays of a file: nothing is
/// copied, the view only says where the fields of node `index` lie.
#[derive(Debug, Clone, Copy)]
pub struct FNode<'a> {
    /// The widths of the entries.
    pub config: FixedKeysConfig,
    /// The number of the node.
    pub index: usize,
    /// The distances of the nodes from their parents.
    pub dist: &'a [u8],
    /// The indices of the first children of the nodes.
    pub child_index: &'a [u8],
    /// The numbers of children of the nodes.
    pub num_children: &'a [u8],
    /// The keys of the nodes.
    pub key: &'a [u8],
}

impl<'a> FNode<'a> {
    /// The bytes of the key, if the buffer holds all of them.
    pub open spec fn spec_key_bytes(&self) -> Option<Seq<u8>> {
        if (self.index + 1) * self.config.key <= self.key@.len() {
            Some(
                self.key@.subrange(
                    self.index * self.config.key,
                    (self.index + 1) * self.config.key,
                ),
            )
        } else {
            None
        }
    }

    /// The key as a number, if keys take 8 bytes and the buffer holds all
    /// of this one.
    pub open spec fn spec_key_u64(&self) -> Option<u64> {
        if self.config.key == 8 {
            match field_at(self.key@, 8, self.index as nat) {
                Some(v) => Some(v as u64),
                None => None,
            }
        } else {
            None
        }
    }

    /// The distance between the node's key and its parent's.
    pub fn distance(&self) -> (r: Option<Dist>)
        ensures
            r == self.spec_dist(),
    {
        self.dist()
    }

    /// The bytes of the key, if the buffer holds all of them.
    pub fn key_bytes(&self) -> (r: Option<&'a [u8]>)
        ensures
            r is Some <==> self.spec_key_bytes() is Some,
            r is Some ==> r->Some_0@ == self.spec_key_bytes()->Some_0,
    {
        let len: usize = self.key.len();
        assert((self.index + 1) * self.config.key == self.index * self.config.key
            + self.config.key) by (nonlinear_arith);
        match self.index.checked_mul(self.config.key) {
            None => None,
            Some(start) => match start.checked_add(self.config.key) {
                None => None,
                Some(end) => if end <= len {
                    Some(slice_subrange(self.key, start, end))
                } else {
                    None
                },
            },
        }
    }

    /// The key as a number, if keys take 8 bytes and the buffer holds all
    /// of this one.
    pub fn key_u64(&self) -> (r: Option<u64>)
        ensures
            r == self.spec_key_u64(),
    {
        if self.config.key == 8 {
            read_field(self.key, 8, self.index)
        } else {
            None
        }
    }
}

impl<'a> InStorageNode for FNode<'a> {
    open spec fn spec_dist(&self) -> Option<Dist> {
        entry_at(self.dist@, self.config.dist, self.index)
    }

    open spec fn spec_child_count(&self) -> Option<usize> {
        entry_at(self.num_children@, self.config.num_children, self.index)
    }

    open spec fn spec_children_offset(&self) -> Option<usize> {
        match entry_at(self.child_index@, self.config.child_index, self.index) {
            Some(v) => if v > 0 {
                Some(v)
            } else {
                None
            },
            None => None,
        }
    }

    open spec fn spec_key_offset(&self) -> Option<usize> {
        if self.index * self.config.key <= usize::MAX {
            Some((self.index * self.config.key) as usize)
        } else {
            None
        }
    }

    open spec fn spec_key_length(&self) -> Option<usize> {
        Some(self.config.key)
    }

    fn encoding_size(&self) -> (size: usize)
        ensures
            size == (if self.config.dist + self.config.child_index + self.config.num_children
                <= usize::MAX {
                (self.config.dist + self.config.child_index + self.config.num_children) as usize
            } else {
                usize::MAX
            }),
    {
        self.config.dist.saturating_add(self.config.child_index).saturating_add(
            self.config.num_children,
        )
    }

    fn dist(&self) -> (r: Option<Dist>) {
        read_entry(self.dist, self.config.dist, self.index)
    }

    fn child_count(&self) -> (r: Option<usize>) {
        read_entry(self.num_children, self.config.num_children, self.index)
    }

    fn children_offset(&self) -> (r: Option<usize>) {
        match read_entry(self.child_index, self.config.child_index, self.index) {
            Some(v) => if v > 0 {
                Some(v)
            } else {
                None
            },
            None => None,
        }
    }

    fn key_offset(&self) -> (r: Option<usize>) {
        self.index.checked_mul(self.config.key)
    }

    fn key_length(&self) -> (r: Option<usize>) {
        Some(self.config.key)
    }
}

} // verus!
