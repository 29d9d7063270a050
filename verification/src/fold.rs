//! ASCII case folding of key bytes, and key equality under it.

use vstd::prelude::*;

verus! {

/// The lower-case form of one byte: `A`..`Z` move to `a`..`z`, every other
/// byte stays.
pub open spec fn fold_byte(b: u8) -> u8 {
    if 0x41 <= b <= 0x5a {
        (b + 0x20) as u8
    } else {
        b
    }
}

/// A key with every byte folded. Two keys name the same entry exactly when
/// their folded forms are equal.
pub open spec fn fold(s: Seq<u8>) -> Seq<u8> {
    Seq::new(s.len(), |i: int| fold_byte(s[i]))
}

/// Folds one byte.
pub fn to_lower(b: u8) -> (r: u8)
    ensures
        r == fold_byte(b),
{
    if 0x41 <= b && b <= 0x5a {
        b + 0x20
    } else {
        b
    }
}

/// Folding changes nothing in a folded key.
pub proof fn lemma_fold_idempotent(s: Seq<u8>)
    ensures
        fold(fold(s)) == fold(s),
{
    assert(fold(fold(s)) =~= fold(s));
}

/// Keys with equal folded forms have equal length and agree byte by byte
/// after folding, and conversely.
pub proof fn lemma_fold_eq(a: Seq<u8>, b: Seq<u8>)
    ensures
        fold(a) == fold(b) <==> (a.len() == b.len() && forall|i: int|
            0 <= i < a.len() ==> fold_byte(#[trigger] a[i]) == fold_byte(b[i])),
{
    if fold(a) == fold(b) {
        assert(fold(a).len() == a.len());
        assert(fold(b).len() == b.len());
        assert forall|i: int| 0 <= i < a.len() implies fold_byte(#[trigger] a[i]) == fold_byte(
            b[i],
        ) by {
            assert(fold(a)[i] == fold(b)[i]);
        }
    }
    if a.len() == b.len() && forall|i: int|
        0 <= i < a.len() ==> fold_byte(#[trigger] a[i]) == fold_byte(b[i]) {
        assert(fold(a) =~= fold(b));
    }
}

/// Case-insensitive equality of two keys.
pub fn keys_equal(a: &[u8], b: &[u8]) -> (r: bool)
    ensures
        r == (fold(a@) == fold(b@)),
{
    proof {
        lemma_fold_eq(a@, b@);
    }
    if a.len() != b.len() {
        return false;
    }
    let mut i: usize = 0;
    while i < a.len()
        invariant
            a@.len() == b@.len(),
            i <= a@.len(),
            forall|j: int| 0 <= j < i ==> fold_byte(#[trigger] a@[j]) == fold_byte(b@[j]),
        decreases a@.len() - i,
    {
        if to_lower(a[i]) != to_lower(b[i]) {
            proof {
                lemma_fold_eq(a@, b@);
            }
            return false;
        }
        i += 1;
    }
    true
}

} // verus!
