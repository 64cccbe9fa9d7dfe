//! The digest that guards a file against alteration, and its spelling in
//! hexadecimal.

use sha2::{Digest, Sha256};
use vstd::prelude::*;

verus! {

/// The SHA-256 digest of `data`.
pub uninterp spec fn sha256(data: Seq<u8>) -> Seq<u8>;

/// Calls `Sha256::digest` of sha2, which feeds `data` to a fresh hasher and
/// returns what it finalizes to: the SHA-256 digest of `data`, which is 32
/// bytes long.
#[verifier::external_body]
pub(crate) fn sha256_digest(data: &[u8]) -> (digest: Vec<u8>)
    ensures
        digest@ == sha256(data@),
        digest@.len() == 32,
{
    Sha256::digest(data).to_vec()
}

/// The lower-case hexadecimal digit for a number below 16.
pub open spec fn hex_digit(n: u8) -> u8 {
    if n < 10 {
        (0x30 + n) as u8
    } else {
        (0x61 + n - 10) as u8
    }
}

/// The bytes of `data` spelled in lower-case hexadecimal, two digits for
/// each byte and the high digit first.
pub open spec fn hex_lower(data: Seq<u8>) -> Seq<u8> {
    Seq::new(
        2 * data.len(),
        |i: int|
            if i % 2 == 0 {
                hex_digit(data[i / 2] / 16)
            } else {
                hex_digit(data[i / 2] % 16)
            },
    )
}

/// The lower-case hexadecimal digit for a number below 16.
fn to_hex_digit(n: u8) -> (digit: u8)
    requires
        n < 16,
    ensures
        digit == hex_digit(n),
{
    if n < 10 {
        0x30 + n
    } else {
        0x61 + (n - 10)
    }
}

/// Spells `data` in lower-case hexadecimal.
pub fn to_hex(data: &[u8]) -> (text: Vec<u8>)
    ensures
        text@ == hex_lower(data@),
{
    let mut text: Vec<u8> = Vec::new();
    let mut i: usize = 0;
    while i < data.len()
        invariant
            i <= data.len(),
            text@.len() == 2 * i,
            forall|j: int| 0 <= j < text@.len() ==> #[trigger] text@[j] == hex_lower(data@)[j],
        decreases data.len() - i,
    {
        let byte = data[i];
        text.push(to_hex_digit(byte / 16));
        text.push(to_hex_digit(byte % 16));
        i += 1;
    }
    assert(text@ =~= hex_lower(data@));
    text
}

/// The checksum of `payload` as it stands in a file: its SHA-256 digest in
/// 64 lower-case hexadecimal digits.
pub fn checksum_hex(payload: &[u8]) -> (text: Vec<u8>)
    ensures
        text@ == hex_lower(sha256(payload@)),
        text@.len() == 64,
{
    let digest = sha256_digest(payload);
    to_hex(digest.as_slice())
}

} // verus!
