//! The table as mathematics: a chain of entries, the map that the chain
//! stands for, and where a new entry is linked into the chain.

use crate::fold::fold;
use crate::hasher::bucket_index;
use crate::policy::{growth_overflows, growth_target, spec_clamp};
use vstd::prelude::*;

verus! {

/// Whether some entry of the chain has the folded key `k`.
pub open spec fn holds<D>(s: Seq<(Seq<u8>, D)>, k: Seq<u8>) -> bool {
    exists|i: int| 0 <= i < s.len() && fold((#[trigger] s[i]).0) == k
}

/// The place in the chain of an entry with the folded key `k`.
pub open spec fn position<D>(s: Seq<(Seq<u8>, D)>, k: Seq<u8>) -> int {
    choose|i: int| 0 <= i < s.len() && fold((#[trigger] s[i]).0) == k
}

/// The map from folded key to value that a chain stands for.
pub open spec fn entries_map<D>(s: Seq<(Seq<u8>, D)>) -> Map<Seq<u8>, D> {
    Map::new(|k: Seq<u8>| holds(s, k), |k: Seq<u8>| s[position(s, k)].1)
}

/// No two entries of the chain have the same folded key.
pub open spec fn distinct_keys<D>(s: Seq<(Seq<u8>, D)>) -> bool {
    forall|i: int, j: int|
        0 <= i < j < s.len() ==> fold((#[trigger] s[i]).0) != fold((#[trigger] s[j]).0)
}

/// The entries of each bucket stand next to each other in the chain.
pub open spec fn contiguous<D>(s: Seq<(Seq<u8>, D)>, n: int) -> bool {
    forall|i: int, m: int, j: int|
        #![trigger s[i], s[m], s[j]]
        0 <= i < m < j < s.len() && bucket_index(s[i].0, n) == bucket_index(s[j].0, n)
            ==> bucket_index(s[m].0, n) == bucket_index(s[i].0, n)
}

/// `p` is the place of the first entry of bucket `b`.
pub open spec fn bucket_head<D>(s: Seq<(Seq<u8>, D)>, b: int, n: int, p: int) -> bool {
    &&& 0 <= p < s.len()
    &&& bucket_index(s[p].0, n) == b
    &&& forall|i: int| 0 <= i < p ==> bucket_index((#[trigger] s[i]).0, n) != b
}

/// Where an entry with the given key is linked into a chain that is split
/// into `n` buckets. Without buckets it goes to the end of the chain. With
/// buckets it goes in front of the first entry of its bucket, or to the front
/// of the chain when its bucket is empty.
pub open spec fn link_position<D>(s: Seq<(Seq<u8>, D)>, key: Seq<u8>, n: int) -> int {
    if n <= 0 {
        s.len() as int
    } else if exists|p: int| bucket_head(s, bucket_index(key, n), n, p) {
        choose|p: int| bucket_head(s, bucket_index(key, n), n, p)
    } else {
        0
    }
}

/// The chain after an entry has been linked in.
pub open spec fn linked_in<D>(s: Seq<(Seq<u8>, D)>, e: (Seq<u8>, D), n: int) -> Seq<
    (Seq<u8>, D),
> {
    s.insert(link_position(s, e.0, n), e)
}

/// The chain after its entries have been relinked, one by one from the
/// first to the last, into `n` fresh buckets.
pub open spec fn regroup<D>(s: Seq<(Seq<u8>, D)>, n: int) -> Seq<(Seq<u8>, D)>
    decreases s.len(),
{
    if s.len() == 0 {
        s
    } else {
        linked_in(regroup(s.drop_last(), n), s.last(), n)
    }
}

/// Whether a request for `new_size` buckets, cut down to `max_buckets`,
/// asks for another array than the one of `buckets` buckets: the cut
/// request is neither zero nor `buckets`.
pub open spec fn resizes(buckets: int, new_size: int, max_buckets: int) -> bool {
    spec_clamp(new_size, max_buckets) != buckets && spec_clamp(new_size, max_buckets) != 0
}

/// The number of buckets after a request for `new_size` buckets, with or
/// without room from the allocator.
pub open spec fn buckets_after_rehash(
    buckets: int,
    new_size: int,
    max_buckets: int,
    granted: bool,
) -> int {
    if granted && resizes(buckets, new_size, max_buckets) {
        spec_clamp(new_size, max_buckets)
    } else {
        buckets
    }
}

/// The chain after a request for `new_size` buckets, with or without room
/// from the allocator: regrouped when the bucket array changes, else as it
/// was.
pub open spec fn rehashed<D>(
    s: Seq<(Seq<u8>, D)>,
    buckets: int,
    new_size: int,
    max_buckets: int,
    granted: bool,
) -> Seq<(Seq<u8>, D)> {
    if buckets_after_rehash(buckets, new_size, max_buckets, granted) != buckets {
        regroup(s, buckets_after_rehash(buckets, new_size, max_buckets, granted))
    } else {
        s
    }
}

/// Whether inserting a new key into a table of `len` entries needs a size
/// that leaves the machine word: the new entry count, or the bucket request
/// that the growth policy makes of it.
pub open spec fn insert_overflows(len: int, buckets: int, threshold: int) -> bool {
    len + 1 > usize::MAX || growth_overflows(len + 1, buckets, threshold)
}

/// The number of buckets after a new key went into a table of `len`
/// entries, with or without room from the allocator.
pub open spec fn buckets_after_insert(
    len: int,
    buckets: int,
    threshold: int,
    max_buckets: int,
    granted: bool,
) -> int {
    match growth_target(len + 1, buckets, threshold, max_buckets) {
        Some(t) => if granted {
            t
        } else {
            buckets
        },
        None => buckets,
    }
}

/// The chain after `insert(key, value)`, with or without room from the
/// allocator. A key that the chain holds keeps its place and its stored
/// spelling and gets the value. A new key is linked in; then the table
/// grows, if it is due to grow and gets room, and the chain is regrouped.
pub open spec fn entries_after_insert<D>(
    s: Seq<(Seq<u8>, D)>,
    key: Seq<u8>,
    value: D,
    buckets: int,
    threshold: int,
    max_buckets: int,
    granted: bool,
) -> Seq<(Seq<u8>, D)> {
    if holds(s, fold(key)) {
        s.update(position(s, fold(key)), (s[position(s, fold(key))].0, value))
    } else {
        let n = buckets_after_insert(s.len() as int, buckets, threshold, max_buckets, granted);
        if n != buckets {
            regroup(linked_in(s, (key, value), buckets), n)
        } else {
            linked_in(s, (key, value), buckets)
        }
    }
}

/// The chain after `remove(key)`: without the entry that has the key, if
/// there is one.
pub open spec fn entries_after_remove<D>(s: Seq<(Seq<u8>, D)>, key: Seq<u8>) -> Seq<(Seq<u8>, D)> {
    if holds(s, fold(key)) {
        s.remove(position(s, fold(key)))
    } else {
        s
    }
}

/// The number of buckets after `remove(key)`: none once the last entry has
/// left, else as many as before.
pub open spec fn buckets_after_remove<D>(s: Seq<(Seq<u8>, D)>, key: Seq<u8>, buckets: int) -> int {
    if holds(s, fold(key)) && s.len() == 1 {
        0
    } else {
        buckets
    }
}

/// An empty chain stands for the empty map.
pub proof fn lemma_map_empty<D>(s: Seq<(Seq<u8>, D)>)
    requires
        s.len() == 0,
    ensures
        entries_map(s) == Map::<Seq<u8>, D>::empty(),
{
    assert(entries_map(s) =~= Map::<Seq<u8>, D>::empty());
}

/// In a chain of distinct keys the map gives each entry's value under its
/// folded key.
pub proof fn lemma_map_at<D>(s: Seq<(Seq<u8>, D)>, i: int)
    requires
        distinct_keys(s),
        0 <= i < s.len(),
    ensures
        holds(s, fold(s[i].0)),
        position(s, fold(s[i].0)) == i,
        entries_map(s).contains_key(fold(s[i].0)),
        entries_map(s)[fold(s[i].0)] == s[i].1,
{
    let k = fold(s[i].0);
    assert(holds(s, k));
    let p = position(s, k);
    assert(0 <= p < s.len() && fold(s[p].0) == k);
    if p < i {
        assert(fold(s[p].0) != fold(s[i].0));
    } else if i < p {
        assert(fold(s[i].0) != fold(s[p].0));
    }
}

/// Linking a new key in, at any place, adds one pair to the map.
pub proof fn lemma_map_insert<D>(s: Seq<(Seq<u8>, D)>, p: int, e: (Seq<u8>, D))
    requires
        distinct_keys(s),
        0 <= p <= s.len(),
        !holds(s, fold(e.0)),
    ensures
        distinct_keys(s.insert(p, e)),
        entries_map(s.insert(p, e)) == entries_map(s).insert(fold(e.0), e.1),
{
    let t = s.insert(p, e);
    assert forall|i: int, j: int| 0 <= i < j < t.len() implies fold((#[trigger] t[i]).0) != fold(
        (#[trigger] t[j]).0,
    ) by {
        let oi = if i < p { i } else { i - 1 };
        let oj = if j < p { j } else { j - 1 };
        if i == p {
            assert(t[j] == s[oj]);
        } else if j == p {
            assert(t[i] == s[oi]);
        } else {
            assert(t[i] == s[oi]);
            assert(t[j] == s[oj]);
        }
    }
    let m1 = entries_map(t);
    let m2 = entries_map(s).insert(fold(e.0), e.1);
    assert forall|k: Seq<u8>| m1.contains_key(k) <==> m2.contains_key(k) by {
        if holds(t, k) {
            let i = position(t, k);
            if i != p {
                let oi = if i < p { i } else { i - 1 };
                assert(t[i] == s[oi]);
            }
        }
        if holds(s, k) {
            let i = position(s, k);
            let ni = if i < p { i } else { i + 1 };
            assert(t[ni] == s[i]);
        }
        if k == fold(e.0) {
            assert(t[p] == e);
        }
    }
    assert forall|k: Seq<u8>| m1.contains_key(k) implies m1[k] == m2[k] by {
        let i = position(t, k);
        lemma_map_at(t, i);
        if i != p {
            let oi = if i < p { i } else { i - 1 };
            assert(t[i] == s[oi]);
            lemma_map_at(s, oi);
        }
    }
    assert(m1 =~= m2);
}

/// Giving an entry a new value changes the map at that entry's key alone.
pub proof fn lemma_map_update<D>(s: Seq<(Seq<u8>, D)>, i: int, v: D)
    requires
        distinct_keys(s),
        0 <= i < s.len(),
    ensures
        distinct_keys(s.update(i, (s[i].0, v))),
        entries_map(s.update(i, (s[i].0, v))) == entries_map(s).insert(fold(s[i].0), v),
{
    let t = s.update(i, (s[i].0, v));
    assert forall|a: int, b: int| 0 <= a < b < t.len() implies fold((#[trigger] t[a]).0) != fold(
        (#[trigger] t[b]).0,
    ) by {
        assert(t[a].0 == s[a].0);
        assert(t[b].0 == s[b].0);
    }
    let m1 = entries_map(t);
    let m2 = entries_map(s).insert(fold(s[i].0), v);
    assert forall|k: Seq<u8>| m1.contains_key(k) <==> m2.contains_key(k) by {
        if holds(t, k) {
            let a = position(t, k);
            assert(t[a].0 == s[a].0);
        }
        if holds(s, k) {
            let a = position(s, k);
            assert(t[a].0 == s[a].0);
        }
        if k == fold(s[i].0) {
            assert(t[i].0 == s[i].0);
        }
    }
    assert forall|k: Seq<u8>| m1.contains_key(k) implies m1[k] == m2[k] by {
        let a = position(t, k);
        lemma_map_at(t, a);
        assert(t[a].0 == s[a].0);
        lemma_map_at(s, a);
    }
    assert(m1 =~= m2);
}

/// Unlinking an entry takes its key, and nothing else, out of the map.
pub proof fn lemma_map_remove<D>(s: Seq<(Seq<u8>, D)>, i: int)
    requires
        distinct_keys(s),
        0 <= i < s.len(),
    ensures
        distinct_keys(s.remove(i)),
        !holds(s.remove(i), fold(s[i].0)),
        entries_map(s.remove(i)) == entries_map(s).remove(fold(s[i].0)),
{
    let t = s.remove(i);
    assert forall|a: int, b: int| 0 <= a < b < t.len() implies fold((#[trigger] t[a]).0) != fold(
        (#[trigger] t[b]).0,
    ) by {
        let oa = if a < i { a } else { a + 1 };
        let ob = if b < i { b } else { b + 1 };
        assert(t[a] == s[oa]);
        assert(t[b] == s[ob]);
    }
    if holds(t, fold(s[i].0)) {
        let a = position(t, fold(s[i].0));
        let oa = if a < i { a } else { a + 1 };
        assert(t[a] == s[oa]);
        lemma_map_at(s, oa);
        lemma_map_at(s, i);
    }
    let m1 = entries_map(t);
    let m2 = entries_map(s).remove(fold(s[i].0));
    assert forall|k: Seq<u8>| m1.contains_key(k) <==> m2.contains_key(k) by {
        if holds(t, k) {
            let a = position(t, k);
            let oa = if a < i { a } else { a + 1 };
            assert(t[a] == s[oa]);
        }
        if holds(s, k) && k != fold(s[i].0) {
            let a = position(s, k);
            let na = if a < i { a } else { a - 1 };
            assert(t[na] == s[a]);
        }
    }
    assert forall|k: Seq<u8>| m1.contains_key(k) implies m1[k] == m2[k] by {
        let a = position(t, k);
        lemma_map_at(t, a);
        let oa = if a < i { a } else { a + 1 };
        assert(t[a] == s[oa]);
        lemma_map_at(s, oa);
    }
    assert(m1 =~= m2);
}

/// The first entry of a bucket is where a key of that bucket is linked.
pub proof fn lemma_link_position_head<D>(s: Seq<(Seq<u8>, D)>, key: Seq<u8>, n: int, p: int)
    requires
        n > 0,
        bucket_head(s, bucket_index(key, n), n, p),
    ensures
        link_position(s, key, n) == p,
{
    let b = bucket_index(key, n);
    let q = choose|q: int| bucket_head(s, b, n, q);
    assert(bucket_head(s, b, n, q));
    if q < p {
        assert(bucket_index(s[q].0, n) != b);
    } else if p < q {
        assert(bucket_index(s[p].0, n) != b);
    }
}

/// A key whose bucket is empty is linked at the front of the chain.
pub proof fn lemma_link_position_front<D>(s: Seq<(Seq<u8>, D)>, key: Seq<u8>, n: int)
    requires
        n > 0,
        forall|i: int| 0 <= i < s.len() ==> bucket_index((#[trigger] s[i]).0, n) != bucket_index(key, n),
    ensures
        link_position(s, key, n) == 0,
{
    let b = bucket_index(key, n);
    if exists|p: int| bucket_head(s, b, n, p) {
        let q = choose|q: int| bucket_head(s, b, n, q);
        assert(bucket_index(s[q].0, n) != b);
    }
}

/// The link position lies inside the chain or at its end.
pub proof fn lemma_link_position_range<D>(s: Seq<(Seq<u8>, D)>, key: Seq<u8>, n: int)
    ensures
        0 <= link_position(s, key, n) <= s.len(),
{
    if n > 0 {
        let b = bucket_index(key, n);
        if exists|p: int| bucket_head(s, b, n, p) {
            let q = choose|q: int| bucket_head(s, b, n, q);
            assert(bucket_head(s, b, n, q));
        }
    }
}

/// Relinking keeps every entry: the regrouped chain is as long as the
/// chain it came from, has distinct keys, and stands for the same map.
pub proof fn lemma_regroup<D>(s: Seq<(Seq<u8>, D)>, n: int)
    requires
        distinct_keys(s),
    ensures
        regroup(s, n).len() == s.len(),
        distinct_keys(regroup(s, n)),
        entries_map(regroup(s, n)) == entries_map(s),
    decreases s.len(),
{
    if s.len() == 0 {
    } else {
        let t = s.drop_last();
        let e = s.last();
        let k = fold(e.0);
        assert forall|i: int, j: int| 0 <= i < j < t.len() implies fold((#[trigger] t[i]).0)
            != fold((#[trigger] t[j]).0) by {
            assert(t[i] == s[i]);
            assert(t[j] == s[j]);
        }
        lemma_regroup(t, n);
        let r = regroup(t, n);
        if holds(t, k) {
            let i = position(t, k);
            assert(t[i] == s[i]);
            assert(fold(s[i].0) != fold(s[s.len() - 1].0));
        }
        assert(entries_map(r).contains_key(k) == holds(r, k));
        assert(entries_map(t).contains_key(k) == holds(t, k));
        lemma_link_position_range(r, e.0, n);
        lemma_map_insert(r, link_position(r, e.0, n), e);
        lemma_map_insert(t, t.len() as int, e);
        assert(t.insert(t.len() as int, e) =~= s);
    }
}

} // verus!
