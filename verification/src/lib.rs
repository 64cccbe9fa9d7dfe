//! An approximate-match index over a metric space.
//!
//! Keys are organised in a Burkhard-Keller tree, so that every key within a
//! tolerance of a query is found without visiting the whole set.  The tree
//! lives either in memory, built key by key, or in a byte layout of four
//! parallel sections that can be queried in place.

use vstd::prelude::*;

pub mod array_storage;
pub mod bk;
pub mod bkfile;
pub mod bknode;
pub mod bktree;
pub mod checksum;
pub mod endian;
pub mod error;
pub mod extensible_mmap;
pub mod fromfile;
pub mod keyquery;
pub mod keys;
pub mod metric;
pub mod mirror;
pub mod nodeallocator;
pub mod render;
pub mod shape;

verus! {

/// The distance type shared across this crate: the result of every metric
/// comparison, and the index of a child slot in an in-memory node.
pub type Dist = usize;

} // verus!
