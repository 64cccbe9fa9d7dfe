//! Little-endian integers of one to eight bytes, as the sections of a file
//! hold them.

use byteorder::{ByteOrder, LittleEndian};
use vstd::prelude::*;

verus! {

/// The number of values that `n` bytes can tell apart.
pub open spec fn pow256(n: nat) -> nat
    decreases n,
{
    if n == 0 {
        1
    } else {
        256 * pow256((n - 1) as nat)
    }
}

/// The number that `bytes` stand for, the first byte counting least.
pub open spec fn le_value(bytes: Seq<u8>) -> nat
    decreases bytes.len(),
{
    if bytes.len() == 0 {
        0
    } else {
        bytes[0] as nat + 256 * le_value(bytes.drop_first())
    }
}

/// The `n` bytes that stand for `value`, the first byte counting least.
pub open spec fn le_bytes(value: nat, n: nat) -> Seq<u8>
    decreases n,
{
    if n == 0 {
        Seq::empty()
    } else {
        seq![(value % 256) as u8] + le_bytes(value / 256, (n - 1) as nat)
    }
}

/// The powers of 256 that fit in 64 bits.
pub proof fn lemma_pow256_values()
    ensures
        pow256(0) == 1,
        pow256(1) == 0x100,
        pow256(2) == 0x1_0000,
        pow256(3) == 0x100_0000,
        pow256(4) == 0x1_0000_0000,
        pow256(5) == 0x100_0000_0000,
        pow256(6) == 0x1_0000_0000_0000,
        pow256(7) == 0x100_0000_0000_0000,
        pow256(8) == 0x1_0000_0000_0000_0000,
{
    reveal_with_fuel(pow256, 9);
}

/// `n` bytes stand for a number below `256^n`.
pub proof fn lemma_le_value_bound(bytes: Seq<u8>)
    ensures
        le_value(bytes) < pow256(bytes.len()),
    decreases bytes.len(),
{
    if bytes.len() > 0 {
        lemma_le_value_bound(bytes.drop_first());
    }
}

/// A number is written in as many bytes as asked for.
pub proof fn lemma_le_bytes_len(value: nat, n: nat)
    ensures
        le_bytes(value, n).len() == n,
    decreases n,
{
    if n > 0 {
        lemma_le_bytes_len(value / 256, (n - 1) as nat);
    }
}

/// Reading back what was written gives the number that was written, if it
/// fits in the bytes.
pub proof fn lemma_le_round_trip(value: nat, n: nat)
    requires
        value < pow256(n),
    ensures
        le_value(le_bytes(value, n)) == value,
    decreases n,
{
    if n > 0 {
        let rest = le_bytes(value / 256, (n - 1) as nat);
        let all = le_bytes(value, n);
        assert(all.drop_first() =~= rest);
        lemma_le_round_trip(value / 256, (n - 1) as nat);
    }
}

/// Calls `LittleEndian::read_uint` of byteorder on the bytes of `buf` from
/// `start` on.  It copies `nbytes` bytes into the low end of eight zero
/// bytes and reads those as a little-endian `u64`: the result is the number
/// that the `nbytes` bytes stand for.  It panics unless `nbytes` is between
/// 1 and 8 and that many bytes are there.
#[verifier::external_body]
pub(crate) fn read_uint_le(buf: &[u8], start: usize, nbytes: usize) -> (value: u64)
    requires
        1 <= nbytes <= 8,
        start + nbytes <= buf@.len(),
    ensures
        value == le_value(buf@.subrange(start as int, start + nbytes)),
{
    LittleEndian::read_uint(&buf[start..], nbytes)
}

/// Calls `LittleEndian::write_uint` of byteorder on the bytes of `buf` from
/// `start` on.  It overwrites `nbytes` bytes with the low bytes of `value`
/// in little-endian order and leaves the others alone.  It panics unless
/// `value` fits in `nbytes` bytes, `nbytes` is at most 8, and that many
/// bytes are there.
#[verifier::external_body]
pub(crate) fn write_uint_le(buf: &mut Vec<u8>, start: usize, value: u64, nbytes: usize)
    requires
        1 <= nbytes <= 8,
        start + nbytes <= old(buf)@.len(),
        value < pow256(nbytes as nat),
    ensures
        final(buf)@ == old(buf)@.subrange(0, start as int) + le_bytes(value as nat, nbytes as nat)
            + old(buf)@.subrange(start + nbytes, old(buf)@.len() as int),
{
    LittleEndian::write_uint(&mut buf[start..], value, nbytes)
}

/// Calls `LittleEndian::read_u64` of byteorder on the bytes of `buf` from
/// `start` on: the number that the first eight of them stand for in
/// little-endian order.  It panics unless eight bytes are there.
#[verifier::external_body]
pub(crate) fn read_u64_le(buf: &[u8], start: usize) -> (value: u64)
    requires
        start + 8 <= buf@.len(),
    ensures
        value == le_value(buf@.subrange(start as int, start + 8)),
{
    LittleEndian::read_u64(&buf[start..])
}

/// Calls `LittleEndian::write_u64` of byteorder on the bytes of `buf` from
/// `start` on.  It overwrites eight bytes with `value` in little-endian
/// order and leaves the others alone.  It panics unless eight bytes are
/// there.
#[verifier::external_body]
pub(crate) fn write_u64_le(buf: &mut Vec<u8>, start: usize, value: u64)
    requires
        start + 8 <= old(buf)@.len(),
    ensures
        final(buf)@ == old(buf)@.subrange(0, start as int) + le_bytes(value as nat, 8)
            + old(buf)@.subrange(start + 8, old(buf)@.len() as int),
{
    LittleEndian::write_u64(&mut buf[start..], value)
}

} // verus!
