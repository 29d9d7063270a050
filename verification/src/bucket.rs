//! Buckets, and what it means that each bucket owns one run of the chain.

use crate::hasher::bucket_index;
use crate::model::{
    bucket_head, lemma_link_position_front, lemma_link_position_head, link_position,
};
use vstd::prelude::*;

verus! {

/// One bucket: how many entries it owns and where its run of the chain
/// starts.
pub struct Bucket {
    pub(crate) count: usize,
    pub(crate) chain: Option<usize>,
}

/// Counts one more entry in bucket `h` and makes `idx` the head of its run.
pub(crate) fn bump_bucket(ht: &mut Vec<Bucket>, h: usize, idx: usize)
    requires
        h < old(ht)@.len(),
        old(ht)@[h as int].count < usize::MAX,
    ensures
        final(ht)@.len() == old(ht)@.len(),
        forall|b: int| 0 <= b < old(ht)@.len() && b != h ==> #[trigger] final(ht)@[b] == old(ht)@[b],
        final(ht)@[h as int].count == old(ht)@[h as int].count + 1,
        final(ht)@[h as int].chain == Some(idx),
{
    ht[h].count = ht[h].count + 1;
    ht[h].chain = Some(idx);
}

/// Counts one entry out of bucket `h`. When the entry was the head of the
/// run, the run now starts at `after`.
pub(crate) fn drop_from_bucket(ht: &mut Vec<Bucket>, h: usize, idx: usize, after: Option<usize>)
    requires
        h < old(ht)@.len(),
        old(ht)@[h as int].count > 0,
    ensures
        final(ht)@.len() == old(ht)@.len(),
        forall|b: int| 0 <= b < old(ht)@.len() && b != h ==> #[trigger] final(ht)@[b] == old(ht)@[b],
        final(ht)@[h as int].count == old(ht)@[h as int].count - 1,
        final(ht)@[h as int].chain == (if old(ht)@[h as int].count == 1 {
            None
        } else if old(ht)@[h as int].chain == Some(idx) {
            after
        } else {
            old(ht)@[h as int].chain
        }),
{
    let head = ht[h].chain;
    if head == Some(idx) {
        ht[h].chain = after;
    }
    ht[h].count = ht[h].count - 1;
    if ht[h].count == 0 {
        ht[h].chain = None;
    }
}

/// Tells bucket `h` that the entry at arena place `from` now lives at `to`.
pub(crate) fn retarget_bucket(ht: &mut Vec<Bucket>, h: usize, from: usize, to: usize)
    requires
        h < old(ht)@.len(),
    ensures
        final(ht)@.len() == old(ht)@.len(),
        forall|b: int| 0 <= b < old(ht)@.len() && b != h ==> #[trigger] final(ht)@[b] == old(ht)@[b],
        final(ht)@[h as int].count == old(ht)@[h as int].count,
        final(ht)@[h as int].chain == (if old(ht)@[h as int].chain == Some(from) {
            Some(to)
        } else {
            old(ht)@[h as int].chain
        }),
{
    let head = ht[h].chain;
    if head == Some(from) {
        ht[h].chain = Some(to);
    }
}

/// Place `k` of the chain lies in the run of bucket `b`.
pub(crate) open spec fn run_contains(starts: Seq<int>, ht: Seq<Bucket>, b: int, k: int) -> bool {
    starts[b] <= k < starts[b] + ht[b].count
}

/// Bucket `b` names the first entry of its run, or nothing when it is empty.
pub(crate) open spec fn head_ok(order: Seq<usize>, ht: Seq<Bucket>, starts: Seq<int>, b: int) -> bool {
    ht[b].chain == (if ht[b].count == 0 {
        None
    } else {
        Some(order[starts[b]])
    })
}

/// The chain is split into runs, one for each bucket, and the run of a
/// bucket holds exactly the entries whose keys hash to it.
pub(crate) open spec fn grouped<D>(
    entries: Seq<(Seq<u8>, D)>,
    order: Seq<usize>,
    ht: Seq<Bucket>,
    starts: Seq<int>,
) -> bool {
    let n = ht.len() as int;
    n > 0 ==> {
        &&& starts.len() == n
        &&& forall|b: int, k: int|
            0 <= b < n ==> (#[trigger] run_contains(starts, ht, b, k) <==> (0 <= k < entries.len()
                && bucket_index(entries[k].0, n) == b))
        &&& forall|b: int| 0 <= b < n ==> #[trigger] head_ok(order, ht, starts, b)
    }
}

/// The run starts after an entry was linked in at place `p` as the new
/// head of bucket `h`.
pub(crate) open spec fn shifted_up(starts: Seq<int>, h: int, p: int) -> Seq<int> {
    Seq::new(
        starts.len(),
        |b: int|
            if b == h {
                p
            } else if starts[b] >= p {
                starts[b] + 1
            } else {
                starts[b]
            },
    )
}

/// Linking an entry in front of its bucket's run, or at the front of the
/// chain when its bucket is empty, keeps the chain split into runs.
pub(crate) proof fn lemma_grouped_insert<D>(
    entries: Seq<(Seq<u8>, D)>,
    order: Seq<usize>,
    ht: Seq<Bucket>,
    starts: Seq<int>,
    e: (Seq<u8>, D),
    idx: usize,
    ht2: Seq<Bucket>,
)
    requires
        ht.len() > 0,
        grouped(entries, order, ht, starts),
        entries.len() == order.len(),
        ht2.len() == ht.len(),
        forall|b: int|
            0 <= b < ht.len() && b != bucket_index(e.0, ht.len() as int) ==> #[trigger] ht2[b]
                == ht[b],
        ht2[bucket_index(e.0, ht.len() as int)].count == ht[bucket_index(
            e.0,
            ht.len() as int,
        )].count + 1,
        ht2[bucket_index(e.0, ht.len() as int)].chain == Some(idx),
    ensures
        ({
            let n = ht.len() as int;
            let h = bucket_index(e.0, n);
            let p = if ht[h].count > 0 {
                starts[h]
            } else {
                0
            };
            &&& 0 <= p <= entries.len()
            &&& p == link_position(entries, e.0, n)
            &&& grouped(entries.insert(p, e), order.insert(p, idx), ht2, shifted_up(starts, h, p))
        }),
{
    let n = ht.len() as int;
    let h = bucket_index(e.0, n);
    let p = if ht[h].count > 0 {
        starts[h]
    } else {
        0
    };
    if ht[h].count > 0 {
        assert(run_contains(starts, ht, h, p));
        assert forall|i: int| 0 <= i < p implies bucket_index((#[trigger] entries[i]).0, n)
            != h by {
            assert(!run_contains(starts, ht, h, i));
        }
        assert(bucket_head(entries, h, n, p));
        lemma_link_position_head(entries, e.0, n, p);
    } else {
        assert forall|i: int| 0 <= i < entries.len() implies bucket_index(
            (#[trigger] entries[i]).0,
            n,
        ) != h by {
            assert(!run_contains(starts, ht, h, i));
        }
        lemma_link_position_front(entries, e.0, n);
    }
    let entries2 = entries.insert(p, e);
    let order2 = order.insert(p, idx);
    let starts2 = shifted_up(starts, h, p);
    assert forall|b: int, k: int| 0 <= b < n implies (#[trigger] run_contains(starts2, ht2, b, k)
        <==> (0 <= k < entries2.len() && bucket_index(entries2[k].0, n) == b)) by {
        assert(run_contains(starts, ht, b, k) <==> (0 <= k < entries.len() && bucket_index(
            entries[k].0,
            n,
        ) == b));
        assert(run_contains(starts, ht, b, k - 1) <==> (0 <= k - 1 < entries.len()
            && bucket_index(entries[k - 1].0, n) == b));
        assert(run_contains(starts, ht, b, p) <==> (0 <= p < entries.len() && bucket_index(
            entries[p].0,
            n,
        ) == b));
        assert(run_contains(starts, ht, h, p) <==> (0 <= p < entries.len() && bucket_index(
            entries[p].0,
            n,
        ) == h));
        assert(run_contains(starts, ht, b, starts[b]) <==> (0 <= starts[b] < entries.len()
            && bucket_index(entries[starts[b]].0, n) == b));
        assert(run_contains(starts, ht, h, k) <==> (0 <= k < entries.len() && bucket_index(
            entries[k].0,
            n,
        ) == h));
        assert(run_contains(starts, ht, h, k - 1) <==> (0 <= k - 1 < entries.len()
            && bucket_index(entries[k - 1].0, n) == h));
        if 0 <= k < entries2.len() {
            if k < p {
                assert(entries2[k] == entries[k]);
            } else if k == p {
                assert(entries2[k] == e);
            } else {
                assert(entries2[k] == entries[k - 1]);
            }
        }
    }
    assert forall|b: int| 0 <= b < n implies #[trigger] head_ok(order2, ht2, starts2, b) by {
        assert(head_ok(order, ht, starts, b));
        if b != h && ht[b].count > 0 {
            assert(run_contains(starts, ht, b, starts[b]));
            assert(run_contains(starts, ht, h, starts[b]) <==> (0 <= starts[b] < entries.len()
                && bucket_index(entries[starts[b]].0, n) == h));
        }
    }
}

/// The run starts after the entry at place `k` was unlinked.
pub(crate) open spec fn shifted_down(starts: Seq<int>, k: int) -> Seq<int> {
    Seq::new(
        starts.len(),
        |b: int|
            if starts[b] > k {
                starts[b] - 1
            } else {
                starts[b]
            },
    )
}

/// Unlinking an entry and counting it out of its bucket keeps the chain
/// split into runs.
pub(crate) proof fn lemma_grouped_remove<D>(
    entries: Seq<(Seq<u8>, D)>,
    order: Seq<usize>,
    ht: Seq<Bucket>,
    starts: Seq<int>,
    k: int,
    ht2: Seq<Bucket>,
)
    requires
        ht.len() > 0,
        grouped(entries, order, ht, starts),
        entries.len() == order.len(),
        order.no_duplicates(),
        0 <= k < order.len(),
        ht2.len() == ht.len(),
        forall|b: int|
            0 <= b < ht.len() && b != bucket_index(entries[k].0, ht.len() as int)
                ==> #[trigger] ht2[b] == ht[b],
        ht2[bucket_index(entries[k].0, ht.len() as int)].count == ht[bucket_index(
            entries[k].0,
            ht.len() as int,
        )].count - 1,
        ht2[bucket_index(entries[k].0, ht.len() as int)].chain == (if ht[bucket_index(
            entries[k].0,
            ht.len() as int,
        )].count == 1 {
            None
        } else if ht[bucket_index(entries[k].0, ht.len() as int)].chain == Some(order[k]) {
            if k + 1 < order.len() {
                Some(order[k + 1])
            } else {
                None
            }
        } else {
            ht[bucket_index(entries[k].0, ht.len() as int)].chain
        }),
    ensures
        grouped(entries.remove(k), order.remove(k), ht2, shifted_down(starts, k)),
{
    let n = ht.len() as int;
    let h = bucket_index(entries[k].0, n);
    let entries2 = entries.remove(k);
    let order2 = order.remove(k);
    let starts2 = shifted_down(starts, k);
    assert(run_contains(starts, ht, h, k));
    assert(head_ok(order, ht, starts, h));
    assert(run_contains(starts, ht, h, starts[h]));
    assert(run_contains(starts, ht, h, starts[h] + ht[h].count - 1));
    assert forall|b: int, j: int| 0 <= b < n implies (#[trigger] run_contains(starts2, ht2, b, j)
        <==> (0 <= j < entries2.len() && bucket_index(entries2[j].0, n) == b)) by {
        assert(run_contains(starts, ht, b, j) <==> (0 <= j < entries.len() && bucket_index(
            entries[j].0,
            n,
        ) == b));
        assert(run_contains(starts, ht, b, j + 1) <==> (0 <= j + 1 < entries.len()
            && bucket_index(entries[j + 1].0, n) == b));
        assert(run_contains(starts, ht, b, k) <==> (0 <= k < entries.len() && bucket_index(
            entries[k].0,
            n,
        ) == b));
        assert(run_contains(starts, ht, b, starts[b]) <==> (0 <= starts[b] < entries.len()
            && bucket_index(entries[starts[b]].0, n) == b));
        if 0 <= j < entries2.len() {
            if j < k {
                assert(entries2[j] == entries[j]);
            } else {
                assert(entries2[j] == entries[j + 1]);
            }
        }
    }
    assert forall|b: int| 0 <= b < n implies #[trigger] head_ok(order2, ht2, starts2, b) by {
        assert(head_ok(order, ht, starts, b));
        if ht[b].count > 0 {
            assert(run_contains(starts, ht, b, starts[b]));
            assert(run_contains(starts, ht, b, starts[b] + ht[b].count - 1));
            assert(run_contains(starts, ht, b, k) <==> (0 <= k < entries.len() && bucket_index(
                entries[k].0,
                n,
            ) == b));
        }
        if b == h && ht[h].count > 1 {
            if starts[h] == k {
                assert(run_contains(starts, ht, h, k + 1));
                assert(order2[k] == order[k + 1]);
            } else {
                assert(order[starts[h]] != order[k]);
                assert(order2[starts[h]] == order[starts[h]]);
            }
        }
    }
}

/// Giving the entry at one place of the chain another arena index, and
/// telling the bucket that it heads, keeps the chain split into runs.
pub(crate) proof fn lemma_grouped_rename<D>(
    entries: Seq<(Seq<u8>, D)>,
    order: Seq<usize>,
    order2: Seq<usize>,
    ht: Seq<Bucket>,
    starts: Seq<int>,
    j: int,
    to: usize,
    ht2: Seq<Bucket>,
)
    requires
        ht.len() > 0,
        grouped(entries, order, ht, starts),
        entries.len() == order.len(),
        order.no_duplicates(),
        0 <= j < order.len(),
        order2.len() == order.len(),
        forall|k: int|
            0 <= k < order.len() ==> #[trigger] order2[k] == (if k == j {
                to
            } else {
                order[k]
            }),
        ht2.len() == ht.len(),
        forall|b: int|
            0 <= b < ht.len() && b != bucket_index(entries[j].0, ht.len() as int)
                ==> #[trigger] ht2[b] == ht[b],
        ht2[bucket_index(entries[j].0, ht.len() as int)].count == ht[bucket_index(
            entries[j].0,
            ht.len() as int,
        )].count,
        ht2[bucket_index(entries[j].0, ht.len() as int)].chain == (if ht[bucket_index(
            entries[j].0,
            ht.len() as int,
        )].chain == Some(order[j]) {
            Some(to)
        } else {
            ht[bucket_index(entries[j].0, ht.len() as int)].chain
        }),
    ensures
        grouped(entries, order2, ht2, starts),
{
    let n = ht.len() as int;
    let h = bucket_index(entries[j].0, n);
    assert(run_contains(starts, ht, h, j));
    assert forall|b: int, k: int| 0 <= b < n implies (#[trigger] run_contains(starts, ht2, b, k)
        <==> (0 <= k < entries.len() && bucket_index(entries[k].0, n) == b)) by {
        assert(run_contains(starts, ht, b, k) <==> (0 <= k < entries.len() && bucket_index(
            entries[k].0,
            n,
        ) == b));
    }
    assert forall|b: int| 0 <= b < n implies #[trigger] head_ok(order2, ht2, starts, b) by {
        assert(head_ok(order, ht, starts, b));
        if ht[b].count > 0 {
            assert(run_contains(starts, ht, b, starts[b]));
            assert(run_contains(starts, ht, b, j) <==> (0 <= j < entries.len() && bucket_index(
                entries[j].0,
                n,
            ) == b));
            if starts[b] != j {
                assert(order[starts[b]] != order[j]);
            }
        }
    }
}

} // verus!
