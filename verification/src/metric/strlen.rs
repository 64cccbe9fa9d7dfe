//! Strings compared by the difference of their lengths.

use crate::metric::Metric;
use crate::Dist;
use vstd::prelude::*;
use vstd::utf8::encode_utf8;

verus! {

/// The absolute difference of the byte lengths of two strings, capped just
/// below `usize::MAX` so that it is always a valid slot index.
#[derive(Default, Clone, Copy, Debug)]
pub struct StrLenMetric;

/// The distance of two strings whose UTF-8 encodings are `la` and `lb`
/// bytes long.
pub open spec fn strlen_dist(la: nat, lb: nat) -> nat {
    let d = if la >= lb {
        la - lb
    } else {
        lb - la
    };
    if d >= usize::MAX {
        (usize::MAX - 1) as nat
    } else {
        d as nat
    }
}

impl Metric<str> for StrLenMetric {
    open spec fn dist(a: Seq<char>, b: Seq<char>) -> nat {
        strlen_dist(encode_utf8(a).len(), encode_utf8(b).len())
    }

    proof fn lemma_dist_bounded(a: Seq<char>, b: Seq<char>) {
    }

    proof fn lemma_dist_self(a: Seq<char>) {
    }

    proof fn lemma_dist_symmetric(a: Seq<char>, b: Seq<char>) {
    }

    proof fn lemma_dist_triangle(a: Seq<char>, b: Seq<char>, c: Seq<char>) {
    }

    #[inline]
    fn distance(&self, k1: &str, k2: &str) -> (d: Dist) {
        Self::distance_static(k1, k2)
    }

    #[inline]
    fn distance_static(k1: &str, k2: &str) -> (d: Dist) {
        let l1: usize = k1.as_bytes().len();
        let l2: usize = k2.as_bytes().len();
        let d: usize = if l1 >= l2 {
            l1 - l2
        } else {
            l2 - l1
        };
        if d == usize::MAX {
            usize::MAX - 1
        } else {
            d
        }
    }
}

} // verus!
