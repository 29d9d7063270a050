//! The key hash: multiplicative, over folded bytes, in 32-bit arithmetic.

use crate::fold::{fold, fold_byte, lemma_fold_eq, to_lower};
use vstd::prelude::*;

verus! {

/// The multiplier of the hash, the prime nearest to 2^32 times the golden
/// ratio's fractional part.
pub const HASH_MULTIPLIER: u32 = 0x9e3779b1;

/// One round of the hash: add the folded byte, then multiply, both modulo 2^32.
pub open spec fn hash_step(h: u32, b: u8) -> u32 {
    ((((h + fold_byte(b)) % 0x1_0000_0000) * HASH_MULTIPLIER) % 0x1_0000_0000) as u32
}

/// The hash of a key: the rounds applied to its bytes from first to last,
/// starting from zero.
pub open spec fn spec_hash(key: Seq<u8>) -> u32
    decreases key.len(),
{
    if key.len() == 0 {
        0
    } else {
        hash_step(spec_hash(key.drop_last()), key.last())
    }
}

/// The bucket that a key belongs to in an array of `n` buckets.
pub open spec fn bucket_index(key: Seq<u8>, n: int) -> int {
    spec_hash(key) as int % n
}

/// Computes the hash of a key.
pub fn str_hash(key: &[u8]) -> (h: u32)
    ensures
        h == spec_hash(key@),
{
    let mut h: u32 = 0;
    let mut i: usize = 0;
    while i < key.len()
        invariant
            i <= key@.len(),
            h == spec_hash(key@.take(i as int)),
        decreases key@.len() - i,
    {
        proof {
            assert(key@.take(i + 1).drop_last() =~= key@.take(i as int));
        }
        let c: u32 = to_lower(key[i]) as u32;
        h = h.wrapping_add(c).wrapping_mul(HASH_MULTIPLIER);
        i += 1;
    }
    proof {
        assert(key@.take(i as int) =~= key@);
    }
    h
}

/// The hash sees a key only through its folded form: keys that differ in
/// letter case alone hash alike.
pub proof fn lemma_hash_of_folded(a: Seq<u8>, b: Seq<u8>)
    requires
        fold(a) == fold(b),
    ensures
        spec_hash(a) == spec_hash(b),
    decreases a.len(),
{
    lemma_fold_eq(a, b);
    if a.len() > 0 {
        lemma_fold_eq(a.drop_last(), b.drop_last());
        lemma_hash_of_folded(a.drop_last(), b.drop_last());
    }
}

/// Keys with equal folded forms fall into the same bucket, whatever the
/// number of buckets.
pub proof fn lemma_bucket_of_folded(a: Seq<u8>, b: Seq<u8>, n: int)
    requires
        fold(a) == fold(b),
    ensures
        bucket_index(a, n) == bucket_index(b, n),
{
    lemma_hash_of_folded(a, b);
}

} // verus!
