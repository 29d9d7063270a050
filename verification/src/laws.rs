//! What holds of the table across calls, stated over the map that a table
//! stands for and over the growth policy.

use crate::fold::fold;
use crate::hasher::bucket_index;
use crate::model::{
    bucket_head, buckets_after_insert, buckets_after_rehash, contiguous, distinct_keys,
    entries_map, lemma_link_position_range, lemma_regroup, link_position, linked_in, regroup,
};
use crate::policy::spec_clamp;
use vstd::prelude::*;
use vstd::seq_lib::to_multiset_insert;

verus! {

/// One change to a table: an insert of a value under a key, or the removal
/// of a key.
pub enum TableOp<D> {
    Insert { key: Seq<u8>, value: D },
    Remove { key: Seq<u8> },
}

impl<D> TableOp<D> {
    /// The key that the change is about.
    pub open spec fn key(self) -> Seq<u8> {
        match self {
            TableOp::Insert { key, .. } => key,
            TableOp::Remove { key } => key,
        }
    }

    /// The map after the change.
    pub open spec fn apply(self, m: Map<Seq<u8>, D>) -> Map<Seq<u8>, D> {
        match self {
            TableOp::Insert { key, value } => m.insert(fold(key), value),
            TableOp::Remove { key } => m.remove(fold(key)),
        }
    }
}

/// The map after a run of changes, made from first to last.
pub open spec fn apply_all<D>(m: Map<Seq<u8>, D>, ops: Seq<TableOp<D>>) -> Map<Seq<u8>, D>
    decreases ops.len(),
{
    if ops.len() == 0 {
        m
    } else {
        ops.last().apply(apply_all(m, ops.drop_last()))
    }
}

/// A value inserted under a key is what a lookup of that key finds, in any
/// letter case, after any run of inserts and removals that touch other keys
/// only.
pub proof fn law_insert_lasts<D>(
    m: Map<Seq<u8>, D>,
    key: Seq<u8>,
    value: D,
    ops: Seq<TableOp<D>>,
    probe: Seq<u8>,
)
    requires
        fold(probe) == fold(key),
        forall|i: int| 0 <= i < ops.len() ==> fold((#[trigger] ops[i]).key()) != fold(key),
    ensures
        apply_all(m.insert(fold(key), value), ops).contains_key(fold(probe)),
        apply_all(m.insert(fold(key), value), ops)[fold(probe)] == value,
    decreases ops.len(),
{
    if ops.len() > 0 {
        let rest = ops.drop_last();
        assert forall|i: int| 0 <= i < rest.len() implies fold((#[trigger] rest[i]).key()) != fold(
            key,
        ) by {
            assert(rest[i] == ops[i]);
        }
        law_insert_lasts(m, key, value, rest, probe);
        assert(fold(ops[ops.len() - 1].key()) != fold(key));
    }
}

/// Of two inserts under one key, in any letter case, the second finds the
/// value of the first, and a lookup then finds the value of the second.
pub proof fn law_insert_twice<D>(m: Map<Seq<u8>, D>, first: Seq<u8>, second: Seq<u8>, v1: D, v2: D)
    requires
        fold(first) == fold(second),
    ensures
        m.insert(fold(first), v1).contains_key(fold(second)),
        m.insert(fold(first), v1)[fold(second)] == v1,
        m.insert(fold(first), v1).insert(fold(second), v2)[fold(first)] == v2,
{
}

/// A removed key is not found afterwards, in any letter case, and a
/// removal changes nothing under any other key.
pub proof fn law_remove<D>(m: Map<Seq<u8>, D>, key: Seq<u8>, probe: Seq<u8>)
    ensures
        fold(probe) == fold(key) ==> !m.remove(fold(key)).contains_key(fold(probe)),
        fold(probe) != fold(key) ==> m.remove(fold(key)).contains_key(fold(probe))
            == m.contains_key(fold(probe)) && m.remove(fold(key))[fold(probe)] == m[fold(
            probe,
        )],
        !m.contains_key(fold(key)) ==> m.remove(fold(key)) == m,
{
    if !m.contains_key(fold(key)) {
        assert(m.remove(fold(key)) =~= m);
    }
}

/// A table that has reached its threshold with a new key, and got room
/// from the allocator when it was due to grow, has buckets afterwards.
pub proof fn law_growth_leaves_linear_scan(len: int, buckets: int, threshold: int, max_buckets: int)
    requires
        0 <= len,
        0 <= buckets,
        len + 1 >= threshold,
        max_buckets >= 1,
    ensures
        buckets_after_insert(len, buckets, threshold, max_buckets, true) > 0,
        buckets == 0 ==> buckets_after_insert(len, buckets, threshold, max_buckets, true)
            == spec_clamp(2 * (len + 1), max_buckets),
{
}

/// The number of buckets never falls through an insert or a rehash, and a
/// table with buckets keeps having buckets through both.
pub proof fn law_buckets_stay(
    len: int,
    buckets: int,
    threshold: int,
    max_buckets: int,
    new_size: int,
    granted: bool,
)
    requires
        0 <= buckets,
        0 <= new_size,
        0 <= max_buckets,
    ensures
        buckets_after_insert(len, buckets, threshold, max_buckets, granted) >= buckets,
        buckets > 0 ==> buckets_after_rehash(buckets, new_size, max_buckets, granted) > 0,
{
}

/// Relinking into fresh buckets keeps the entries as they are, stored
/// spellings and values alike: the regrouped chain holds each entry as often
/// as the chain it came from, and stands for the same map.
pub proof fn law_regroup_keeps_entries<D>(s: Seq<(Seq<u8>, D)>, n: int)
    ensures
        regroup(s, n).to_multiset() == s.to_multiset(),
        regroup(s, n).len() == s.len(),
        distinct_keys(s) ==> entries_map(regroup(s, n)) == entries_map(s),
    decreases s.len(),
{
    if s.len() > 0 {
        let t = s.drop_last();
        let e = s.last();
        law_regroup_keeps_entries(t, n);
        let r = regroup(t, n);
        lemma_link_position_range(r, e.0, n);
        to_multiset_insert(r, link_position(r, e.0, n), e);
        to_multiset_insert(t, t.len() as int, e);
        assert(t.insert(t.len() as int, e) =~= s);
    }
    if distinct_keys(s) {
        lemma_regroup(s, n);
    }
}

/// Linking one more entry into a chain whose buckets each own one run
/// leaves a chain whose buckets each own one run.
pub proof fn law_link_keeps_runs<D>(s: Seq<(Seq<u8>, D)>, e: (Seq<u8>, D), n: int)
    requires
        n > 0,
        contiguous(s, n),
    ensures
        contiguous(linked_in(s, e, n), n),
{
    let b = bucket_index(e.0, n);
    let p = link_position(s, e.0, n);
    let t = linked_in(s, e, n);
    lemma_link_position_range(s, e.0, n);
    let has_head = exists|q: int| bucket_head(s, b, n, q);
    if has_head {
        assert(bucket_head(s, b, n, p));
    } else {
        assert forall|q: int| 0 <= q < s.len() implies bucket_index((#[trigger] s[q]).0, n)
            != b by {
            if bucket_index(s[q].0, n) == b {
                lemma_first_of_bucket(s, b, n, q);
            }
        }
    }
    assert forall|i: int, m: int, j: int|
        #![trigger t[i], t[m], t[j]]
        0 <= i < m < j < t.len() && bucket_index(t[i].0, n) == bucket_index(
            t[j].0,
            n,
        ) implies bucket_index(t[m].0, n) == bucket_index(t[i].0, n) by {
        let oi = if i < p { i } else { i - 1 };
        let om = if m < p { m } else { m - 1 };
        let oj = if j < p { j } else { j - 1 };
        if i != p {
            assert(t[i] == s[oi]);
        }
        if m != p {
            assert(t[m] == s[om]);
        }
        if j != p {
            assert(t[j] == s[oj]);
        }
        if i != p && m != p && j != p {
            assert(bucket_index(s[om].0, n) == bucket_index(s[oi].0, n));
        } else if i == p {
            if has_head && om > p {
                assert(bucket_index(s[om].0, n) == bucket_index(s[p].0, n));
            }
        } else if m == p {
            if has_head && oj > p {
                assert(bucket_index(s[p].0, n) == bucket_index(s[oi].0, n));
            }
        }
    }
}

/// An entry of bucket `b` at place `q` means that the bucket has a first
/// entry, at `q` or before it.
proof fn lemma_first_of_bucket<D>(s: Seq<(Seq<u8>, D)>, b: int, n: int, q: int)
    requires
        0 <= q < s.len(),
        bucket_index(s[q].0, n) == b,
    ensures
        exists|p: int| bucket_head(s, b, n, p),
    decreases q,
{
    if forall|i: int| 0 <= i < q ==> bucket_index((#[trigger] s[i]).0, n) != b {
        assert(bucket_head(s, b, n, q));
    } else {
        let i = choose|i: int| 0 <= i < q && bucket_index((#[trigger] s[i]).0, n) == b;
        lemma_first_of_bucket(s, b, n, i);
    }
}

/// After relinking into fresh buckets the entries of each bucket stand
/// next to each other in the chain.
pub proof fn law_regroup_makes_runs<D>(s: Seq<(Seq<u8>, D)>, n: int)
    requires
        n > 0,
    ensures
        contiguous(regroup(s, n), n),
    decreases s.len(),
{
    if s.len() > 0 {
        law_regroup_makes_runs(s.drop_last(), n);
        law_link_keeps_runs(regroup(s.drop_last(), n), s.last(), n);
    }
}

/// Relinking turns the order inside each bucket around: of two entries of
/// one bucket, the one that came later in the old chain comes first in the
/// new one.
pub proof fn law_regroup_reverses_buckets<D>(s: Seq<(Seq<u8>, D)>, n: int, i: int, j: int)
    requires
        n > 0,
        0 <= i < j < s.len(),
        bucket_index(s[i].0, n) == bucket_index(s[j].0, n),
    ensures
        exists|a: int, b: int|
            0 <= a < b < regroup(s, n).len() && #[trigger] regroup(s, n)[a] == s[j]
                && #[trigger] regroup(s, n)[b] == s[i],
    decreases s.len(),
{
    let t = s.drop_last();
    let e = s.last();
    let r = regroup(t, n);
    let p = link_position(r, e.0, n);
    let g = regroup(s, n);
    lemma_link_position_range(r, e.0, n);
    assert(g == r.insert(p, e));
    if j < s.len() - 1 {
        assert(t[i] == s[i]);
        assert(t[j] == s[j]);
        law_regroup_reverses_buckets(t, n, i, j);
        let (a, b) = choose|a: int, b: int|
            0 <= a < b < r.len() && #[trigger] r[a] == t[j] && #[trigger] r[b] == t[i];
        let a2 = if a < p { a } else { a + 1 };
        let b2 = if b < p { b } else { b + 1 };
        assert(g[a2] == r[a]);
        assert(g[b2] == r[b]);
    } else {
        assert(t[i] == s[i]);
        law_regroup_keeps_entries(t, n);
        t.to_multiset_ensures();
        r.to_multiset_ensures();
        assert(t.contains(t[i]));
        assert(t.to_multiset().count(t[i]) > 0);
        assert(r.contains(t[i]));
        let q = choose|q: int| 0 <= q < r.len() && r[q] == t[i];
        lemma_first_of_bucket(r, bucket_index(e.0, n), n, q);
        assert(bucket_head(r, bucket_index(e.0, n), n, p));
        assert(q >= p);
        assert(g[p] == e);
        assert(g[q + 1] == r[q]);
    }
}

} // verus!
