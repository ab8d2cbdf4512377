//! Identifier derivation and the gene-splicing rule.
//!
//! The identifier generator deterministically mixes an externally supplied
//! seed, the calling account and the current nonce.  Uniqueness of identifiers
//! is enforced by the mint-time collision check, never assumed from this
//! derivation.

use crate::types::Hash256;
use vstd::prelude::*;

verus! {

/// The byte of `x` at position `i % 8`, counting from the least significant.
pub open spec fn byte_of_u64(x: u64, i: int) -> u8 {
    (x >> (((i % 8) * 8) as u64)) as u8
}

/// One byte of a derived identifier: the seed byte mixed with the bytes of
/// the caller's account and of the nonce.
pub open spec fn mixed_byte(seed: u8, sender: u64, nonce: u64, i: int) -> u8 {
    seed ^ byte_of_u64(sender, i) ^ byte_of_u64(nonce, i)
}

/// The identifier derived from a seed, the calling account and the nonce.
pub open spec fn derived_id(seed: Seq<u8>, sender: u64, nonce: u64) -> Seq<u8> {
    Seq::new(seed.len(), |i: int| mixed_byte(seed[i], sender, nonce, i))
}

/// Derives a fresh identifier from the given seed, the calling account and
/// the current nonce.  Pure: the result is a function of the three inputs
/// alone, with no side effects.
pub fn generate_id(seed: &Hash256, sender: u64, nonce: u64) -> (r: Hash256)
    requires
        seed.wf(),
    ensures
        r.wf(),
        r@ == derived_id(seed@, sender, nonce),
{
    let n = seed.len();
    let mut bytes: Vec<u8> = Vec::new();
    let mut i: usize = 0;
    while i < n
        invariant
            i <= n,
            n == seed@.len(),
            bytes@.len() == i,
            forall|j: int| 0 <= j < i ==> bytes@[j] == mixed_byte(seed@[j], sender, nonce, j),
        decreases n - i,
    {
        let shift: u64 = ((i % 8) * 8) as u64;
        let b: u8 = seed.byte_at(i) ^ ((sender >> shift) as u8) ^ ((nonce >> shift) as u8);
        proof {
            assert(b == mixed_byte(seed@[i as int], sender, nonce, i as int));
        }
        bytes.push(b);
        i += 1;
    }
    let r = Hash256::from_exact_bytes(bytes);
    proof {
        assert(r@ =~= derived_id(seed@, sender, nonce));
    }
    r
}

/// The offspring's genetic payload: start from `a`; at each byte position
/// where the freshly generated identifier's byte is even, take `b`'s byte
/// instead.
pub open spec fn spliced_dna(a: Seq<u8>, b: Seq<u8>, mask: Seq<u8>) -> Seq<u8> {
    Seq::new(a.len(), |i: int| if mask[i] % 2 == 0 { b[i] } else { a[i] })
}

/// Applies the byte-wise selection rule.  Deterministic: the result is a
/// function of the two parents' payloads and the mask alone.
pub fn splice_dna(a: &Hash256, b: &Hash256, mask: &Hash256) -> (r: Hash256)
    requires
        a.wf(),
        b.wf(),
        mask.wf(),
    ensures
        r.wf(),
        r@ == spliced_dna(a@, b@, mask@),
{
    let n = a.len();
    let mut bytes: Vec<u8> = Vec::new();
    let mut i: usize = 0;
    while i < n
        invariant
            i <= n,
            n == a@.len(),
            a@.len() == b@.len(),
            a@.len() == mask@.len(),
            bytes@.len() == i,
            forall|j: int| 0 <= j < i ==> bytes@[j] == spliced_dna(a@, b@, mask@)[j],
        decreases n - i,
    {
        let byte: u8 = if mask.byte_at(i) % 2 == 0 {
            b.byte_at(i)
        } else {
            a.byte_at(i)
        };
        bytes.push(byte);
        i += 1;
    }
    let r = Hash256::from_exact_bytes(bytes);
    proof {
        assert(r@ =~= spliced_dna(a@, b@, mask@));
    }
    r
}

} // verus!
