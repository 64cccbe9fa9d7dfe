//! Integers compared by the number of bits in which they differ.

use crate::metric::Metric;
use crate::Dist;
use std::marker::PhantomData;
use vstd::prelude::*;

verus! {

/// The number of one bits in the binary representation of `x`.
pub open spec fn popcount(x: u64) -> nat
    decreases x,
{
    if x == 0 {
        0
    } else {
        (x % 2) as nat + popcount(x / 2)
    }
}

/// A number of 64 bits has at most 64 one bits.
pub proof fn lemma_popcount_bounded(x: u64, bits: nat)
    requires
        x < vstd::arithmetic::power2::pow2(bits),
    ensures
        popcount(x) <= bits,
    decreases x,
{
    if x != 0 {
        if bits == 0 {
            vstd::arithmetic::power2::lemma2_to64();
        } else {
            vstd::arithmetic::power2::lemma_pow2_unfold(bits);
            lemma_popcount_bounded(x / 2, (bits - 1) as nat);
        }
    }
}

/// The bits in which `a` and `c` differ are among those in which `a` and `b`
/// differ or `b` and `c` differ.
pub proof fn lemma_popcount_xor_triangle(a: u64, b: u64, c: u64)
    ensures
        popcount(a ^ c) <= popcount(a ^ b) + popcount(b ^ c),
    decreases a + b + c,
{
    if a == 0 && b == 0 && c == 0 {
        assert(0u64 ^ 0u64 == 0u64) by (bit_vector);
    } else {
        lemma_popcount_xor_triangle(a / 2, b / 2, c / 2);
        assert((a ^ c) / 2 == (a / 2) ^ (c / 2)) by (bit_vector);
        assert((a ^ b) / 2 == (a / 2) ^ (b / 2)) by (bit_vector);
        assert((b ^ c) / 2 == (b / 2) ^ (c / 2)) by (bit_vector);
        assert((a ^ c) % 2 <= (a ^ b) % 2 + (b ^ c) % 2) by (bit_vector);
    }
}

/// Calls `u64::count_ones` of std, which returns the number of ones in the
/// binary representation of `x`.
#[verifier::external_body]
fn count_ones_u64(x: u64) -> (r: u32)
    ensures
        r == popcount(x),
{
    x.count_ones()
}

/// Integers whose one bits can be counted.
pub trait CountOnes: Sized {
    /// The number of one bits in `self`.
    spec fn ones(self) -> nat;

    /// Counts the one bits in `self`.
    fn count_ones(self) -> (r: u32)
        ensures
            r == self.ones(),
    ;
}

impl CountOnes for u8 {
    open spec fn ones(self) -> nat {
        popcount(self as u64)
    }

    #[inline]
    fn count_ones(self) -> (r: u32) {
        count_ones_u64(self as u64)
    }
}

impl CountOnes for u16 {
    open spec fn ones(self) -> nat {
        popcount(self as u64)
    }

    #[inline]
    fn count_ones(self) -> (r: u32) {
        count_ones_u64(self as u64)
    }
}

impl CountOnes for u32 {
    open spec fn ones(self) -> nat {
        popcount(self as u64)
    }

    #[inline]
    fn count_ones(self) -> (r: u32) {
        count_ones_u64(self as u64)
    }
}

impl CountOnes for u64 {
    open spec fn ones(self) -> nat {
        popcount(self)
    }

    #[inline]
    fn count_ones(self) -> (r: u32) {
        count_ones_u64(self)
    }
}

impl CountOnes for u128 {
    open spec fn ones(self) -> nat {
        popcount((self / 0x1_0000_0000_0000_0000) as u64) + popcount(
            (self % 0x1_0000_0000_0000_0000) as u64,
        )
    }

    #[inline]
    fn count_ones(self) -> (r: u32) {
        let high: u64 = (self / 0x1_0000_0000_0000_0000) as u64;
        let low: u64 = (self % 0x1_0000_0000_0000_0000) as u64;
        proof {
            vstd::arithmetic::power2::lemma2_to64();
            lemma_popcount_bounded(high, 64);
            lemma_popcount_bounded(low, 64);
        }
        count_ones_u64(high) + count_ones_u64(low)
    }
}

/// The Hamming distance: the number of bits in which two integers differ.
#[derive(Debug)]
pub struct HammingMetric<I>(pub PhantomData<I>);

impl<I> Clone for HammingMetric<I> {
    fn clone(&self) -> (m: Self) {
        HammingMetric(PhantomData)
    }
}

impl<I> Copy for HammingMetric<I> {

}

impl<I> Default for HammingMetric<I> {
    fn default() -> (m: Self) {
        HammingMetric(PhantomData)
    }
}

impl Metric<u64> for HammingMetric<u64> {
    open spec fn dist(a: u64, b: u64) -> nat {
        popcount(a ^ b)
    }

    proof fn lemma_dist_bounded(a: u64, b: u64) {
        vstd::arithmetic::power2::lemma2_to64();
        lemma_popcount_bounded(a ^ b, 64);
    }

    proof fn lemma_dist_self(a: u64) {
        assert(a ^ a == 0u64) by (bit_vector);
    }

    proof fn lemma_dist_symmetric(a: u64, b: u64) {
        assert(a ^ b == b ^ a) by (bit_vector);
    }

    proof fn lemma_dist_triangle(a: u64, b: u64, c: u64) {
        lemma_popcount_xor_triangle(a, b, c);
    }

    #[inline]
    fn distance(&self, k1: &u64, k2: &u64) -> (d: Dist) {
        Self::distance_static(k1, k2)
    }

    #[inline]
    fn distance_static(k1: &u64, k2: &u64) -> (d: Dist) {
        proof {
            Self::lemma_dist_bounded(*k1, *k2);
        }
        count_ones_u64(*k1 ^ *k2) as usize
    }
}

} // verus!
