//! A byte region that only grows: room is handed out from a cursor that
//! moves forward, and the region is enlarged when the cursor would pass its
//! end.
//!
//! Enlarging may move the bytes, so nothing here hands out a view that
//! outlives the next allocation: a caller names the bytes it means by their
//! offset, each time.

use crate::array_storage::{with_field, write_field};
use crate::endian::pow256;
use crate::error::BkError;
use vstd::prelude::*;

verus! {

/// Up to this capacity a region grows by doubling; beyond it, by this much
/// at a time.
pub const ONE_GIB: usize = 0x4000_0000;

/// The capacity that a region of `current` bytes grows to when `needed`
/// bytes are asked for: twice the capacity, or a gibibyte more once the
/// capacity is over a gibibyte, but never less than what is asked for.
pub open spec fn grown_capacity(current: nat, needed: nat) -> nat {
    let step: nat = if current > ONE_GIB {
        current + ONE_GIB as nat
    } else {
        current * 2
    };
    if needed >= step {
        needed
    } else {
        step
    }
}

/// The capacity to grow to from `current` bytes when `needed` bytes are
/// asked for and are not there; where the rule asks for more than the
/// machine can address, all that it can address.
pub fn new_capacity(current: usize, needed: usize) -> (capacity: usize)
    requires
        current < needed,
    ensures
        capacity >= needed,
        capacity > current,
        capacity == (if grown_capacity(current as nat, needed as nat) <= usize::MAX {
            grown_capacity(current as nat, needed as nat)
        } else {
            usize::MAX as nat
        }),
{
    let step = if current > ONE_GIB {
        current.saturating_add(ONE_GIB)
    } else {
        current.saturating_add(current)
    };
    if needed >= step {
        needed
    } else {
        step
    }
}

/// A growable region of bytes in memory.  New bytes are zero.
#[derive(Debug)]
pub struct ExtensibleBuffer {
    alloc: usize,
    ram: Vec<u8>,
}

impl ExtensibleBuffer {
    /// The bytes of the region, those that were handed out and those that
    /// were not.
    pub closed spec fn ram(&self) -> Seq<u8> {
        self.ram@
    }

    /// The number of bytes that were handed out.
    pub closed spec fn allocated(&self) -> nat {
        self.alloc as nat
    }

    /// The cursor lies within the region, and the bytes that were not
    /// handed out yet are zero.
    pub closed spec fn wf(&self) -> bool {
        &&& self.alloc <= self.ram@.len()
        &&& forall|i: int| self.alloc <= i < self.ram@.len() ==> #[trigger] self.ram@[i] == 0
    }

    /// The bytes that were handed out.
    pub open spec fn used(&self) -> Seq<u8> {
        self.ram().subrange(0, self.allocated() as int)
    }

    /// As many bytes are in use as were handed out.
    pub proof fn lemma_used_len(&self)
        requires
            self.wf(),
        ensures
            self.used().len() == self.allocated(),
            self.allocated() <= usize::MAX,
    {
    }

    /// An empty region.
    pub fn new() -> (buffer: Self)
        ensures
            buffer.wf(),
            buffer.allocated() == 0,
            buffer.ram().len() == 0,
    {
        ExtensibleBuffer { alloc: 0, ram: Vec::new() }
    }

    /// Where the next allocation will start.
    pub fn next_offset(&self) -> (offset: usize)
        ensures
            offset == self.allocated(),
    {
        self.alloc
    }

    /// The number of bytes that the region can hold before it grows.
    pub fn capacity(&self) -> (capacity: usize)
        ensures
            capacity == self.ram().len(),
    {
        self.ram.len()
    }

    /// The number of bytes that were handed out.
    pub fn len(&self) -> (len: usize)
        ensures
            len == self.allocated(),
    {
        self.alloc
    }

    /// Makes the region at least `len` bytes long.  What it held stays,
    /// and what is new is zero.
    pub fn ensure_capacity(&mut self, len: usize)
        requires
            old(self).wf(),
        ensures
            final(self).wf(),
            final(self).allocated() == old(self).allocated(),
            final(self).ram().len() == (if old(self).ram().len() >= len {
                old(self).ram().len()
            } else if grown_capacity(old(self).ram().len(), len as nat) <= usize::MAX {
                grown_capacity(old(self).ram().len(), len as nat)
            } else {
                usize::MAX as nat
            }),
            final(self).ram().subrange(0, old(self).ram().len() as int) == old(self).ram(),
            forall|i: int|
                old(self).ram().len() <= i < final(self).ram().len() ==> final(self).ram()[i] == 0,
    {
        let cur_size = self.ram.len();
        if cur_size < len {
            let new_size = new_capacity(cur_size, len);
            self.ram.resize(new_size, 0);
            assert forall|i: int| cur_size <= i < self.ram@.len() implies self.ram@[i] == 0 by {
                assert(vstd::pervasive::cloned::<u8>(0u8, self.ram@[i]));
            }
            assert forall|i: int| self.alloc <= i < self.ram@.len() implies #[trigger] self.ram@[i]
                == 0 by {
                if i < cur_size {
                    assert(self.ram@.subrange(0, cur_size as int)[i] == old(self).ram@[i]);
                }
            }
        } else {
            assert(self.ram@.subrange(0, cur_size as int) =~= self.ram@);
        }
    }

    /// Hands out the next `additional` bytes and returns the offset at which
    /// they start.  The region grows if it has to, and what it held stays.
    /// Fails, and changes nothing, where the region would have to be longer
    /// than the machine can address.
    pub fn alloc_bytes(&mut self, additional: usize) -> (r: Result<usize, BkError>)
        requires
            old(self).wf(),
        ensures
            final(self).wf(),
            r is Ok <==> old(self).allocated() + additional <= usize::MAX,
            r is Err ==> r->Err_0 == BkError::OutOfStorage && *final(self) == *old(self),
            r is Ok ==> {
                &&& r->Ok_0 == old(self).allocated()
                &&& final(self).allocated() == old(self).allocated() + additional
                &&& final(self).used() == old(self).used() + Seq::new(
                    additional as nat,
                    |i: int| 0u8,
                )
                &&& final(self).ram().len() == (if old(self).ram().len() >= old(self).allocated()
                    + additional {
                    old(self).ram().len()
                } else if grown_capacity(
                    old(self).ram().len(),
                    (old(self).allocated() + additional) as nat,
                ) <= usize::MAX {
                    grown_capacity(
                        old(self).ram().len(),
                        (old(self).allocated() + additional) as nat,
                    )
                } else {
                    usize::MAX as nat
                })
            },
    {
        let start = self.alloc;
        match start.checked_add(additional) {
            None => Err(BkError::OutOfStorage),
            Some(end) => {
                self.ensure_capacity(end);
                self.alloc = end;
                assert(self.used() =~= old(self).used() + Seq::new(
                    additional as nat,
                    |i: int| 0u8,
                )) by {
                    assert forall|i: int| 0 <= i < start implies self.ram@[i] == old(self).ram@[i] by {
                        assert(self.ram@.subrange(0, old(self).ram@.len() as int)[i] == old(
                            self,
                        ).ram@[i]);
                    }
                    assert forall|i: int| start <= i < end implies self.ram@[i] == 0 by {
                        if i < old(self).ram@.len() {
                            assert(self.ram@.subrange(0, old(self).ram@.len() as int)[i] == old(
                                self,
                            ).ram@[i]);
                        }
                    }
                }
                Ok(start)
            },
        }
    }

    /// Writes `value` as entry `index` of the entries of `width` bytes each
    /// that the region holds.  Room for the entry has to have been handed
    /// out, and the value has to fit in the entry.
    pub fn put_field(&mut self, width: usize, index: usize, value: u64)
        requires
            old(self).wf(),
            1 <= width <= 8,
            (index + 1) * width <= old(self).allocated(),
            value < pow256(width as nat),
        ensures
            final(self).wf(),
            final(self).allocated() == old(self).allocated(),
            final(self).used() == with_field(old(self).used(), width as nat, index as nat, value as nat),
    {
        proof {
            crate::endian::lemma_le_bytes_len(value as nat, width as nat);
            assert((index + 1) * width == index * width + width) by (nonlinear_arith);
        }
        write_field(&mut self.ram, width, index, value);
        assert(self.used() =~= with_field(
            old(self).used(),
            width as nat,
            index as nat,
            value as nat,
        ));
    }

    /// Gives up the region for the bytes that were handed out.
    pub fn into_bytes(self) -> (bytes: Vec<u8>)
        requires
            self.wf(),
        ensures
            bytes@ == self.used(),
    {
        let mut ram = self.ram;
        ram.truncate(self.alloc);
        ram
    }
}

} // verus!
