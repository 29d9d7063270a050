//! The hash table: an arena of entries on one doubly-linked chain, and an
//! optional array of buckets that each own a run of the chain.

use crate::bucket::{
    bump_bucket, drop_from_bucket, grouped, head_ok, lemma_grouped_insert, lemma_grouped_remove,
    lemma_grouped_rename, retarget_bucket, run_contains, shifted_down, shifted_up, Bucket,
};
use crate::elem::{
    at_place, before_place, bridge, chain_entries, lemma_chain_covers, lemma_linked_insert,
    lemma_linked_remove, lemma_linked_rename, link_ok, linked, renamed, same_payload, splice,
    HashElem,
};
use crate::fold::{fold, keys_equal};
use crate::hasher::{bucket_index, lemma_bucket_of_folded, str_hash};
use crate::model::{
    buckets_after_insert, buckets_after_rehash, buckets_after_remove, contiguous, distinct_keys,
    entries_after_insert, entries_after_remove, entries_map, holds, insert_overflows,
    resizes,
    lemma_link_position_range, lemma_map_at, lemma_map_empty, lemma_map_insert, lemma_map_remove,
    lemma_map_update, lemma_regroup, link_position, linked_in, position, regroup, rehashed,
};
use crate::policy::{
    bucket_limit, clamp_buckets, growth_request, growth_target, spec_bucket_limit,
    CapacityOverflowError, BUCKET_BYTE_BUDGET, GROWTH_THRESHOLD,
};
use crate::string_type_proxy::{KeyDecodeError, StringType};
use vstd::prelude::*;
use vstd::string::StringSliceAdditionalSpecFns;

verus! {

/// A case-insensitive table from string keys to values of type `D`.
///
/// The table owns its keys and its values. It copies a key when the key is
/// first inserted, in the spelling it has then; a later insert under the
/// same key replaces the value and leaves the stored spelling alone. A value
/// moves into the table on insert and moves out again when it is replaced or
/// removed; `clear` drops the values that are left.
pub struct Hash<D> {
    count: usize,
    first: Option<usize>,
    elems: Vec<HashElem<D>>,
    ht: Vec<Bucket>,
    threshold: usize,
    max_buckets: usize,
    order: Ghost<Seq<usize>>,
    starts: Ghost<Seq<int>>,
}

/// Why an operation that takes a key as it comes failed.
#[derive(Debug, Clone, Copy, PartialEq, Eq)]
pub enum HashError {
    /// The key's bytes are not text.
    KeyDecode(KeyDecodeError),
    /// A size that the table would need does not fit in a machine word.
    CapacityOverflow(CapacityOverflowError),
}

/// Asks the allocator for room for `size` buckets, which comes empty; `None` when it has none.
fn bucket_room(size: usize) -> (room: Option<Vec<Bucket>>)
    ensures
        room matches Some(fresh) ==> fresh@ == Seq::<Bucket>::empty(),
{
    let mut fresh: Vec<Bucket> = Vec::new();
    match fresh.try_reserve(size) {
        Ok(_) => Some(fresh),
        Err(_) => None,
    }
}

/// What a search for a key came to.
struct Found {
    at: Option<usize>,
    bucket: usize,
    tail: Option<usize>,
    place: Ghost<int>,
}

impl<D> Hash<D> {
    /// The entries in chain order, each as its stored key and its value.
    pub closed spec fn entries(&self) -> Seq<(Seq<u8>, D)> {
        chain_entries(self.elems@, self.order@)
    }

    /// The number of buckets; zero while the table scans its chain.
    pub closed spec fn spec_bucket_count(&self) -> nat {
        self.ht@.len()
    }

    /// The number of entries from which this table starts to use buckets.
    pub closed spec fn spec_threshold(&self) -> nat {
        self.threshold as nat
    }

    /// The largest number of buckets that this table will ever use.
    pub closed spec fn spec_max_buckets(&self) -> nat {
        self.max_buckets as nat
    }

    /// The map from folded key to value that the table stands for.
    pub open spec fn view(&self) -> Map<Seq<u8>, D> {
        entries_map(self.entries())
    }

    spec fn structure(&self) -> bool {
        &&& linked(self.elems@, self.first, self.order@)
        &&& grouped(self.entries(), self.order@, self.ht@, self.starts@)
        &&& self.ht@.len() <= self.max_buckets
    }

    /// The table's invariant: the chain reaches every entry exactly once,
    /// the count is the chain's length, no folded key occurs twice, and each
    /// bucket owns one run of the chain.
    pub closed spec fn wf(&self) -> bool {
        &&& self.structure()
        &&& self.order@.len() == self.elems@.len()
        &&& self.count == self.elems@.len()
        &&& distinct_keys(self.entries())
    }

    /// What the invariant gives in terms of the chain: every folded key
    /// occurs once, the entries of each bucket stand next to each other, the
    /// bucket array keeps to its limit, and the entry count fits in a
    /// machine word.
    pub proof fn lemma_invariant(&self)
        requires
            self.wf(),
        ensures
            distinct_keys(self.entries()),
            self.spec_bucket_count() > 0 ==> contiguous(
                self.entries(),
                self.spec_bucket_count() as int,
            ),
            self.spec_bucket_count() <= self.spec_max_buckets(),
            self.entries().len() <= usize::MAX,
    {
        let n = self.ht@.len() as int;
        let s = self.entries();
        if n > 0 {
            assert forall|i: int, m: int, j: int|
                #![trigger s[i], s[m], s[j]]
                0 <= i < m < j < s.len() && bucket_index(s[i].0, n) == bucket_index(
                    s[j].0,
                    n,
                ) implies bucket_index(s[m].0, n) == bucket_index(s[i].0, n) by {
                let b = bucket_index(s[i].0, n);
                assert(run_contains(self.starts@, self.ht@, b, i));
                assert(run_contains(self.starts@, self.ht@, b, j));
                assert(run_contains(self.starts@, self.ht@, b, m));
            }
        }
    }

    /// An empty table with the usual growth policy.
    pub fn new() -> (table: Self)
        ensures
            table.wf(),
            table.entries().len() == 0,
            table@ == Map::<Seq<u8>, D>::empty(),
            table.spec_bucket_count() == 0,
            table.spec_threshold() == GROWTH_THRESHOLD,
            table.spec_max_buckets() == spec_bucket_limit(BUCKET_BYTE_BUDGET as int),
    {
        Self::with_policy(GROWTH_THRESHOLD, BUCKET_BYTE_BUDGET)
    }

    /// An empty table that starts to use buckets at `threshold` entries and
    /// never gives its bucket array more than `byte_budget` bytes.
    pub fn with_policy(threshold: usize, byte_budget: usize) -> (table: Self)
        ensures
            table.wf(),
            table.entries().len() == 0,
            table@ == Map::<Seq<u8>, D>::empty(),
            table.spec_bucket_count() == 0,
            table.spec_threshold() == threshold,
            table.spec_max_buckets() == spec_bucket_limit(byte_budget as int),
    {
        let table = Hash {
            count: 0,
            first: None,
            elems: Vec::new(),
            ht: Vec::new(),
            threshold: threshold,
            max_buckets: bucket_limit(byte_budget),
            order: Ghost(Seq::empty()),
            starts: Ghost(Seq::empty()),
        };
        proof {
            lemma_map_empty(table.entries());
        }
        table
    }

    /// The number of entries.
    pub fn count(&self) -> (n: usize)
        requires
            self.wf(),
        ensures
            n == self.entries().len(),
    {
        self.count
    }

    /// The number of buckets; zero while the table scans its chain.
    pub fn bucket_count(&self) -> (n: usize)
        ensures
            n == self.spec_bucket_count(),
    {
        self.ht.len()
    }

    fn find(&self, key: &[u8]) -> (r: Found)
        requires
            self.structure(),
            self.count == self.order@.len(),
        ensures
            self.ht@.len() > 0 ==> r.bucket == bucket_index(key@, self.ht@.len() as int),
            self.ht@.len() == 0 ==> r.bucket == 0,
            match r.at {
                Some(i) => {
                    &&& 0 <= r.place@ < self.order@.len()
                    &&& self.order@[r.place@] == i
                    &&& fold(self.entries()[r.place@].0) == fold(key@)
                },
                None => {
                    &&& !holds(self.entries(), fold(key@))
                    &&& self.ht@.len() == 0 ==> r.tail == (if self.order@.len() == 0 {
                        None
                    } else {
                        Some(self.order@.last())
                    })
                },
            },
    {
        let n = self.ht.len();
        let mut h: usize = 0;
        let mut elem = self.first;
        let mut left = self.count;
        let ghost start: int = 0;
        if n > 0 {
            h = (str_hash(key) as usize) % n;
            elem = self.ht[h].chain;
            left = self.ht[h].count;
            proof {
                start = self.starts@[h as int];
                assert(head_ok(self.order@, self.ht@, self.starts@, h as int));
                if left > 0 {
                    assert(run_contains(self.starts@, self.ht@, h as int, start));
                    assert(run_contains(self.starts@, self.ht@, h as int, start + left - 1));
                }
            }
        }
        let ghost total: int = left as int;
        let ghost k: int = start;
        let mut tail: Option<usize> = None;
        while left > 0
            invariant
                self.structure(),
                n == self.ht@.len(),
                n > 0 ==> h == bucket_index(key@, n as int) && start == self.starts@[h as int]
                    && total == self.ht@[h as int].count,
                n == 0 ==> h == 0 && start == 0 && total == self.order@.len(),
                k == start + total - left,
                left <= total,
                total > 0 ==> 0 <= start && start + total <= self.order@.len(),
                left > 0 ==> elem == Some(self.order@[k]),
                forall|j: int| start <= j < k ==> fold(#[trigger] self.entries()[j].0) != fold(key@),
                total > 0 ==> tail == (if k == start {
                    None
                } else {
                    Some(self.order@[k - 1])
                }),
                total == 0 ==> tail.is_none(),
            decreases left,
        {
            let i = match elem {
                Some(i) => i,
                None => {
                    proof {
                        assert(false);
                    }
                    return Found { at: None, bucket: h, tail: None, place: Ghost(0) };
                },
            };
            proof {
                assert(link_ok(self.elems@, self.order@, k));
                assert(self.order@[k] < self.elems@.len());
            }
            if keys_equal(self.elems[i].key.as_str().as_bytes(), key) {
                return Found { at: Some(i), bucket: h, tail: tail, place: Ghost(k) };
            }
            tail = elem;
            elem = self.elems[i].next;
            left = left - 1;
            proof {
                k = k + 1;
            }
        }
        proof {
            if holds(self.entries(), fold(key@)) {
                let j = choose|j: int|
                    0 <= j < self.entries().len() && fold((#[trigger] self.entries()[j]).0) == fold(
                        key@,
                    );
                if n > 0 {
                    lemma_bucket_of_folded(self.entries()[j].0, key@, n as int);
                    assert(run_contains(self.starts@, self.ht@, h as int, j));
                }
                assert(fold(self.entries()[j].0) != fold(key@));
            }
        }
        Found { at: None, bucket: h, tail: tail, place: Ghost(0) }
    }

    /// Links an entry that is not on the chain to the chain's end.
    fn link_tail(&mut self, idx: usize, tail: Option<usize>)
        requires
            old(self).structure(),
            old(self).ht@.len() == 0,
            idx < old(self).elems@.len(),
            !old(self).order@.contains(idx),
            tail == before_place(old(self).order@, old(self).order@.len() as int),
        ensures
            final(self).structure(),
            final(self).order@ == old(self).order@.push(idx),
            final(self).entries() == old(self).entries().push(
                (old(self).elems@[idx as int].key_bytes(), old(self).elems@[idx as int].data),
            ),
            same_payload(old(self).elems@, final(self).elems@),
            final(self).ht@ == old(self).ht@,
            final(self).count == old(self).count,
            final(self).threshold == old(self).threshold,
            final(self).max_buckets == old(self).max_buckets,
    {
        let ghost order = self.order@;
        let ghost elems = self.elems@;
        let ghost p = order.len() as int;
        proof {
            if p > 0 {
                assert(order[p - 1] < elems.len());
                assert(order.contains(order[p - 1]));
            }
        }
        splice(&mut self.elems, idx, tail, None);
        if tail.is_none() {
            self.first = Some(idx);
        }
        self.order = Ghost(order.push(idx));
        proof {
            lemma_linked_insert(elems, self.elems@, old(self).first, order, p, idx);
            assert(order.push(idx) =~= order.insert(p, idx));
            assert(old(self).entries().push(
                (elems[idx as int].key_bytes(), elems[idx as int].data),
            ) =~= old(self).entries().insert(
                p,
                (elems[idx as int].key_bytes(), elems[idx as int].data),
            ));
        }
    }

    /// Links an entry that is not on the chain in front of its bucket's run,
    /// or at the front of the chain when its bucket is empty.
    fn link_bucket(&mut self, idx: usize, h: usize)
        requires
            old(self).structure(),
            old(self).ht@.len() > 0,
            idx < old(self).elems@.len(),
            !old(self).order@.contains(idx),
            old(self).order@.len() < old(self).elems@.len(),
            h == bucket_index(
                old(self).elems@[idx as int].key_bytes(),
                old(self).ht@.len() as int,
            ),
        ensures
            final(self).structure(),
            final(self).order@ == old(self).order@.insert(
                link_position(
                    old(self).entries(),
                    old(self).elems@[idx as int].key_bytes(),
                    old(self).ht@.len() as int,
                ),
                idx,
            ),
            final(self).entries() == linked_in(
                old(self).entries(),
                (old(self).elems@[idx as int].key_bytes(), old(self).elems@[idx as int].data),
                old(self).ht@.len() as int,
            ),
            0 <= link_position(
                old(self).entries(),
                old(self).elems@[idx as int].key_bytes(),
                old(self).ht@.len() as int,
            ) <= old(self).order@.len(),
            same_payload(old(self).elems@, final(self).elems@),
            forall|i: int|
                0 <= i < old(self).elems@.len() && i != idx && !old(self).order@.contains(
                    i as usize,
                ) ==> final(self).elems@[i] == old(self).elems@[i],
            final(self).ht@.len() == old(self).ht@.len(),
            final(self).count == old(self).count,
            final(self).threshold == old(self).threshold,
            final(self).max_buckets == old(self).max_buckets,
    {
        let ghost order = self.order@;
        let ghost elems = self.elems@;
        let ghost ht = self.ht@;
        let ghost starts = self.starts@;
        let ghost entries = self.entries();
        let ghost e = (elems[idx as int].key_bytes(), elems[idx as int].data);
        let ghost p: int = if ht[h as int].count > 0 {
            starts[h as int]
        } else {
            0
        };
        proof {
            assert(entries.len() == order.len());
            assert(self.elems@.len() == self.elems.len());
            assert(head_ok(order, ht, starts, h as int));
            if ht[h as int].count > 0 {
                assert(run_contains(starts, ht, h as int, p));
                assert(run_contains(starts, ht, h as int, p + ht[h as int].count - 1));
                assert(0 <= p && p + ht[h as int].count - 1 < order.len());
                assert(link_ok(elems, order, p));
                assert(order[p] < elems.len());
                assert(order.contains(order[p]));
                if p > 0 {
                    assert(order[p - 1] < elems.len());
                    assert(order.contains(order[p - 1]));
                }
            } else if order.len() > 0 {
                assert(order[0] < elems.len());
                assert(order.contains(order[0]));
            }
        }
        let after = if self.ht[h].count > 0 {
            self.ht[h].chain
        } else {
            self.first
        };
        assert(after == at_place(order, p));
        let before = match after {
            Some(a) => self.elems[a].prev,
            None => None,
        };
        assert(before == before_place(order, p)) by {
            if order.len() > 0 {
                assert(link_ok(elems, order, p));
            }
        }
        assert(ht[h as int].count < usize::MAX);
        bump_bucket(&mut self.ht, h, idx);
        splice(&mut self.elems, idx, before, after);
        if before.is_none() {
            self.first = Some(idx);
        }
        self.order = Ghost(order.insert(p, idx));
        self.starts = Ghost(shifted_up(starts, h as int, p));
        proof {
            if order.len() > 0 {
                assert(link_ok(elems, order, 0));
            }
            lemma_linked_insert(elems, self.elems@, old(self).first, order, p, idx);
            lemma_grouped_insert(entries, order, ht, starts, e, idx, self.ht@);
            assert forall|i: int|
                0 <= i < elems.len() && i != idx && !order.contains(i as usize) implies self.elems@[i]
                == elems[i] by {
                if before == Some(i as usize) {
                    assert(order.contains(order[p - 1]));
                }
                if after == Some(i as usize) {
                    assert(order.contains(order[p]));
                }
            }
        }
    }

    /// Takes the entry at place `k` of the chain off the chain and out of
    /// its bucket. The entry stays in the arena.
    fn unlink(&mut self, idx: usize, h: usize, Ghost(k): Ghost<int>)
        requires
            old(self).structure(),
            0 <= k < old(self).order@.len(),
            old(self).order@[k] == idx,
            old(self).ht@.len() > 0 ==> h == bucket_index(
                old(self).entries()[k].0,
                old(self).ht@.len() as int,
            ),
        ensures
            final(self).structure(),
            final(self).order@ == old(self).order@.remove(k),
            !final(self).order@.contains(idx),
            final(self).entries() == old(self).entries().remove(k),
            final(self).elems@.len() == old(self).elems@.len(),
            final(self).elems@[idx as int].key == old(self).elems@[idx as int].key,
            final(self).elems@[idx as int].data == old(self).elems@[idx as int].data,
            final(self).ht@.len() == old(self).ht@.len(),
            final(self).count == old(self).count,
            final(self).threshold == old(self).threshold,
            final(self).max_buckets == old(self).max_buckets,
    {
        let ghost order = self.order@;
        let ghost elems = self.elems@;
        let ghost ht = self.ht@;
        let ghost starts = self.starts@;
        let ghost entries = self.entries();
        proof {
            assert(entries.len() == order.len());
            assert(link_ok(elems, order, k));
            assert(order[k] < elems.len());
            if k > 0 {
                assert(order[k - 1] < elems.len());
            }
            if k + 1 < order.len() {
                assert(order[k + 1] < elems.len());
            }
            if ht.len() > 0 {
                assert(run_contains(starts, ht, h as int, k));
            }
        }
        let before = self.elems[idx].prev;
        let after = self.elems[idx].next;
        assert(before == before_place(order, k));
        assert(after == at_place(order, k + 1));
        bridge(&mut self.elems, before, after);
        if before.is_none() {
            self.first = after;
        }
        if self.ht.len() > 0 {
            drop_from_bucket(&mut self.ht, h, idx, after);
        }
        self.order = Ghost(order.remove(k));
        self.starts = Ghost(shifted_down(starts, k));
        proof {
            lemma_linked_remove(elems, self.elems@, old(self).first, order, k);
            if ht.len() > 0 {
                lemma_grouped_remove(entries, order, ht, starts, k, self.ht@);
            }
        }
    }

    /// Takes an entry that is not on the chain out of the arena. The last
    /// entry of the arena moves into the gap.
    fn take_out(&mut self, idx: usize) -> (e: HashElem<D>)
        requires
            old(self).structure(),
            idx < old(self).elems@.len(),
            !old(self).order@.contains(idx),
            old(self).order@.len() + 1 == old(self).elems@.len(),
        ensures
            final(self).structure(),
            final(self).entries() == old(self).entries(),
            final(self).order@.len() == final(self).elems@.len(),
            final(self).elems@.len() + 1 == old(self).elems@.len(),
            e == old(self).elems@[idx as int],
            final(self).ht@.len() == old(self).ht@.len(),
            final(self).count == old(self).count,
            final(self).threshold == old(self).threshold,
            final(self).max_buckets == old(self).max_buckets,
    {
        let ghost order = self.order@;
        let ghost elems = self.elems@;
        let ghost ht = self.ht@;
        let ghost starts = self.starts@;
        let ghost entries = self.entries();
        let e = self.elems.swap_remove(idx);
        let last = self.elems.len();
        if idx < last {
            let ghost mid = self.elems@;
            let ghost j: int = 0;
            proof {
                assert(entries.len() == order.len());
                lemma_chain_covers(order, elems.len() as int, idx, last);
                j = choose|j: int| 0 <= j < order.len() && order[j] == last;
                assert(link_ok(elems, order, j));
                assert(mid =~= elems.update(idx as int, elems.last()).drop_last());
                if j > 0 {
                    assert(order.contains(order[j - 1]));
                    assert(order[j - 1] < elems.len());
                }
                if j + 1 < order.len() {
                    assert(order.contains(order[j + 1]));
                    assert(order[j + 1] < elems.len());
                }
            }
            let before = self.elems[idx].prev;
            let after = self.elems[idx].next;
            splice(&mut self.elems, idx, before, after);
            if before.is_none() {
                self.first = Some(idx);
            }
            if self.ht.len() > 0 {
                let hb = (str_hash(self.elems[idx].key.as_str().as_bytes()) as usize)
                    % self.ht.len();
                retarget_bucket(&mut self.ht, hb, last, idx);
            }
            self.order = Ghost(renamed(order, last, idx));
            proof {
                lemma_linked_rename(elems, self.elems@, old(self).first, order, idx, last);
                if ht.len() > 0 {
                    assert(mid[idx as int].key == self.elems@[idx as int].key);
                    assert(entries[j].0 == elems[last as int].key_bytes());
                    assert forall|k: int| 0 <= k < order.len() implies #[trigger] self.order@[k] == (
                    if k == j {
                        idx
                    } else {
                        order[k]
                    }) by {}
                    lemma_grouped_rename(
                        entries,
                        order,
                        self.order@,
                        ht,
                        starts,
                        j,
                        idx,
                        self.ht@,
                    );
                }
            }
        } else {
            proof {
                assert(self.elems@ =~= elems.drop_last());
                assert forall|k: int| 0 <= k < order.len() implies (#[trigger] order[k])
                    < self.elems@.len() by {
                    assert(order.contains(order[k]));
                }
                assert forall|k: int| 0 <= k < order.len() implies #[trigger] link_ok(
                    self.elems@,
                    order,
                    k,
                ) by {
                    assert(link_ok(elems, order, k));
                    assert(order.contains(order[k]));
                }
                assert(self.entries() =~= entries) by {
                    assert forall|k: int| 0 <= k < order.len() implies self.entries()[k]
                        == entries[k] by {
                        assert(order.contains(order[k]));
                    }
                }
            }
        }
        e
    }

    /// Builds `size` empty buckets in `room` and relinks every entry, in
    /// chain order, into the bucket that its key hashes to.
    fn redistribute(&mut self, room: Vec<Bucket>, size: usize)
        requires
            old(self).wf(),
            0 < size <= old(self).max_buckets,
            room@.len() == 0,
        ensures
            final(self).wf(),
            final(self).entries() == regroup(old(self).entries(), size as int),
            final(self).ht@.len() == size,
            final(self).count == old(self).count,
            final(self).threshold == old(self).threshold,
            final(self).max_buckets == old(self).max_buckets,
    {
        let ghost old_order = self.order@;
        let ghost old_elems = self.elems@;
        let ghost old_entries = self.entries();
        let mut fresh = room;
        while fresh.len() < size
            invariant
                fresh@.len() <= size,
                forall|b: int|
                    0 <= b < fresh@.len() ==> (#[trigger] fresh@[b]).count == 0
                        && fresh@[b].chain is None,
            decreases size - fresh@.len(),
        {
            fresh.push(Bucket { count: 0, chain: None });
        }
        let mut elem = self.first;
        self.first = None;
        self.ht = fresh;
        self.order = Ghost(Seq::empty());
        self.starts = Ghost(Seq::new(size as nat, |b: int| 0int));
        let ghost j: int = 0;
        proof {
            assert(self.entries().len() == 0);
            assert(self.entries() =~= regroup(old_entries.take(0), size as int));
            assert forall|b: int, k: int| 0 <= b < size implies (#[trigger] run_contains(
                self.starts@,
                self.ht@,
                b,
                k,
            ) <==> (0 <= k < self.entries().len() && bucket_index(
                self.entries()[k].0,
                size as int,
            ) == b)) by {}
            assert forall|b: int| 0 <= b < size implies #[trigger] head_ok(
                self.order@,
                self.ht@,
                self.starts@,
                b,
            ) by {}
            assert forall|k: int| 0 <= k < old_order.len() implies !self.order@.contains(
                #[trigger] old_order[k],
            ) && self.elems@[old_order[k] as int].next == at_place(old_order, k + 1) by {
                assert(link_ok(old_elems, old_order, k));
            }
        }
        while elem.is_some()
            invariant
                self.structure(),
                self.ht@.len() == size,
                size > 0,
                same_payload(old_elems, self.elems@),
                old_order.no_duplicates(),
                forall|k: int| 0 <= k < old_order.len() ==> (#[trigger] old_order[k])
                    < old_elems.len(),
                old_order.len() == old_elems.len(),
                old_entries == chain_entries(old_elems, old_order),
                0 <= j <= old_order.len(),
                self.order@.len() == j,
                elem == at_place(old_order, j),
                forall|k: int|
                    j <= k < old_order.len() ==> !self.order@.contains(#[trigger] old_order[k])
                        && self.elems@[old_order[k] as int].next == at_place(old_order, k + 1),
                self.entries() == regroup(old_entries.take(j), size as int),
                self.count == old(self).count,
                self.threshold == old(self).threshold,
                self.max_buckets == old(self).max_buckets,
            decreases old_order.len() - j,
        {
            let i = elem.unwrap();
            let ghost before_order = self.order@;
            let ghost before_elems = self.elems@;
            proof {
                assert(old_order[j] == i);
                assert(!self.order@.contains(old_order[j]));
            }
            let next = self.elems[i].next;
            let h = (str_hash(self.elems[i].key.as_str().as_bytes()) as usize) % size;
            self.link_bucket(i, h);
            elem = next;
            proof {
                let p = link_position(
                    regroup(old_entries.take(j), size as int),
                    before_elems[i as int].key_bytes(),
                    size as int,
                );
                assert(old_entries.take(j + 1).drop_last() =~= old_entries.take(j));
                assert(old_entries.take(j + 1).last() == old_entries[j]);
                assert(old_elems[i as int].key == before_elems[i as int].key);
                assert(old_elems[i as int].data == before_elems[i as int].data);
                assert forall|k: int| j + 1 <= k < old_order.len() implies !self.order@.contains(
                    #[trigger] old_order[k],
                ) && self.elems@[old_order[k] as int].next == at_place(old_order, k + 1) by {
                    assert(!before_order.contains(old_order[k]));
                    assert(old_order[k] != i);
                    if self.order@.contains(old_order[k]) {
                        let q = choose|q: int|
                            0 <= q < self.order@.len() && self.order@[q] == old_order[k];
                        if q < p {
                            assert(before_order[q] == old_order[k]);
                        } else if q > p {
                            assert(before_order[q - 1] == old_order[k]);
                        }
                    }
                }
                assert forall|x: int| 0 <= x < old_elems.len() implies (
                #[trigger] old_elems[x]).key == self.elems@[x].key && old_elems[x].data
                    == self.elems@[x].data by {
                    assert(before_elems[x].key == self.elems@[x].key);
                }
                j = j + 1;
            }
        }
        proof {
            assert(old_entries.take(j) =~= old_entries);
            lemma_regroup(old_entries, size as int);
        }
    }

    /// Resizes the bucket array into the room given, as [`Hash::rehash`]
    /// does into room that it asks the allocator for. `None` stands for an
    /// allocator that had no room to give.
    ///
    /// The request is first cut down to the table's limit. Nothing happens
    /// when the cut request is the number of buckets that the table has, when
    /// it is zero, or when there is no room.
    pub fn rehash_with(&mut self, new_size: usize, room: Option<Vec<Bucket>>) -> (resized: bool)
        requires
            old(self).wf(),
        ensures
            final(self).wf(),
            resized == (room is Some && resizes(
                old(self).spec_bucket_count() as int,
                new_size as int,
                old(self).spec_max_buckets() as int,
            )),
            final(self).entries() == rehashed(
                old(self).entries(),
                old(self).spec_bucket_count() as int,
                new_size as int,
                old(self).spec_max_buckets() as int,
                room is Some,
            ),
            final(self).spec_bucket_count() == buckets_after_rehash(
                old(self).spec_bucket_count() as int,
                new_size as int,
                old(self).spec_max_buckets() as int,
                room is Some,
            ),
            final(self)@ == old(self)@,
            final(self).entries().len() == old(self).entries().len(),
            final(self).spec_threshold() == old(self).spec_threshold(),
            final(self).spec_max_buckets() == old(self).spec_max_buckets(),
    {
        let size = clamp_buckets(new_size, self.max_buckets);
        if size == self.ht.len() || size == 0 {
            return false;
        }
        match room {
            Some(given) => {
                let mut fresh = given;
                fresh.clear();
                proof {
                    lemma_regroup(self.entries(), size as int);
                }
                self.redistribute(fresh, size);
                true
            },
            None => false,
        }
    }

    /// Resizes the bucket array to `new_size` buckets, cut down to the
    /// table's limit, and relinks every entry into its new bucket.
    ///
    /// The new array needs room from the allocator. When the allocator has
    /// none, the table stays as it is: it holds what it held and answers as
    /// before. Returns whether the array was resized.
    pub fn rehash(&mut self, new_size: usize) -> (resized: bool)
        requires
            old(self).wf(),
        ensures
            final(self).wf(),
            resized ==> resizes(
                old(self).spec_bucket_count() as int,
                new_size as int,
                old(self).spec_max_buckets() as int,
            ),
            final(self).entries() == rehashed(
                old(self).entries(),
                old(self).spec_bucket_count() as int,
                new_size as int,
                old(self).spec_max_buckets() as int,
                resized,
            ),
            final(self).spec_bucket_count() == buckets_after_rehash(
                old(self).spec_bucket_count() as int,
                new_size as int,
                old(self).spec_max_buckets() as int,
                resized,
            ),
            final(self)@ == old(self)@,
            final(self).entries().len() == old(self).entries().len(),
            final(self).spec_threshold() == old(self).spec_threshold(),
            final(self).spec_max_buckets() == old(self).spec_max_buckets(),
    {
        let size = clamp_buckets(new_size, self.max_buckets);
        if size == self.ht.len() || size == 0 {
            return false;
        }
        let room = bucket_room(size);
        self.rehash_with(new_size, room)
    }

    /// Whether `r` is what a search for `key` in this table comes to.
    spec fn found_ok(&self, key: Seq<u8>, r: Found) -> bool {
        &&& self.ht@.len() > 0 ==> r.bucket == bucket_index(key, self.ht@.len() as int)
        &&& match r.at {
            Some(i) => {
                &&& 0 <= r.place@ < self.order@.len()
                &&& self.order@[r.place@] == i
                &&& fold(self.entries()[r.place@].0) == fold(key)
            },
            None => {
                &&& !holds(self.entries(), fold(key))
                &&& self.ht@.len() == 0 ==> r.tail == before_place(
                    self.order@,
                    self.order@.len() as int,
                )
            },
        }
    }

    /// Puts a new entry at the end of the arena, off the chain.
    fn push_elem(&mut self, key: &str, value: D) -> (idx: usize)
        requires
            old(self).structure(),
            old(self).order@.len() == old(self).elems@.len(),
        ensures
            final(self).structure(),
            idx == old(self).elems@.len(),
            final(self).elems@.len() == idx + 1,
            final(self).elems@[idx as int].key_bytes() == key.spec_bytes(),
            final(self).elems@[idx as int].data == value,
            final(self).order@ == old(self).order@,
            !final(self).order@.contains(idx),
            final(self).entries() == old(self).entries(),
            final(self).ht@ == old(self).ht@,
            final(self).count == old(self).count,
            final(self).threshold == old(self).threshold,
            final(self).max_buckets == old(self).max_buckets,
    {
        let ghost elems = self.elems@;
        let ghost order = self.order@;
        let idx = self.elems.len();
        self.elems.push(HashElem { next: None, prev: None, data: value, key: key.to_owned() });
        proof {
            assert forall|k: int| 0 <= k < order.len() implies #[trigger] link_ok(
                self.elems@,
                order,
                k,
            ) by {
                assert(link_ok(elems, order, k));
                assert(order[k] < elems.len());
            }
            if order.contains(idx) {
                let k = choose|k: int| 0 <= k < order.len() && order[k] == idx;
                assert(order[k] < elems.len());
            }
            assert(self.entries() =~= old(self).entries());
        }
        idx
    }

    /// Does the work of an insert once the key has been searched for.
    fn put(&mut self, key: &str, value: D, found: Found, room: Option<Vec<Bucket>>) -> (r: Result<
        Option<D>,
        CapacityOverflowError,
    >)
        requires
            old(self).wf(),
            old(self).found_ok(key.spec_bytes(), found),
            room matches Some(fresh) ==> fresh@.len() == 0,
        ensures
            final(self).wf(),
            final(self).spec_threshold() == old(self).spec_threshold(),
            final(self).spec_max_buckets() == old(self).spec_max_buckets(),
            r is Err <==> !old(self)@.contains_key(fold(key.spec_bytes())) && insert_overflows(
                old(self).entries().len() as int,
                old(self).spec_bucket_count() as int,
                old(self).spec_threshold() as int,
            ),
            r is Err ==> final(self).entries() == old(self).entries()
                && final(self).spec_bucket_count() == old(self).spec_bucket_count(),
            r matches Ok(prev) ==> {
                &&& prev == (if old(self)@.contains_key(fold(key.spec_bytes())) {
                    Some(old(self)@[fold(key.spec_bytes())])
                } else {
                    None
                })
                &&& final(self)@ == old(self)@.insert(fold(key.spec_bytes()), value)
                &&& final(self).entries().len() == old(self).entries().len() + (if old(
                    self,
                )@.contains_key(fold(key.spec_bytes())) {
                    0int
                } else {
                    1int
                })
                &&& final(self).entries() == entries_after_insert(
                    old(self).entries(),
                    key.spec_bytes(),
                    value,
                    old(self).spec_bucket_count() as int,
                    old(self).spec_threshold() as int,
                    old(self).spec_max_buckets() as int,
                    room is Some,
                )
                &&& final(self).spec_bucket_count() == (if old(self)@.contains_key(
                    fold(key.spec_bytes()),
                ) {
                    old(self).spec_bucket_count() as int
                } else {
                    buckets_after_insert(
                        old(self).entries().len() as int,
                        old(self).spec_bucket_count() as int,
                        old(self).spec_threshold() as int,
                        old(self).spec_max_buckets() as int,
                        room is Some,
                    )
                })
            },
    {
        let ghost entries = self.entries();
        let ghost k = fold(key.spec_bytes());
        match found.at {
            Some(i) => {
                let ghost place = found.place@;
                let ghost elems = self.elems@;
                proof {
                    lemma_map_at(entries, place);
                    lemma_map_update(entries, place, value);
                    assert(self.order@[place] < elems.len());
                }
                let ghost given = value;
                let mut value = value;
                core::mem::swap(&mut self.elems[i].data, &mut value);
                proof {
                    let order = self.order@;
                    assert forall|j: int| 0 <= j < order.len() implies #[trigger] link_ok(
                        self.elems@,
                        order,
                        j,
                    ) by {
                        assert(link_ok(elems, order, j));
                    }
                    assert(self.entries() =~= entries.update(place, (entries[place].0, given)));
                    let n = self.ht@.len() as int;
                    if n > 0 {
                        assert forall|b: int, j: int| 0 <= b < n implies (#[trigger] run_contains(
                            self.starts@,
                            self.ht@,
                            b,
                            j,
                        ) <==> (0 <= j < self.entries().len() && bucket_index(
                            self.entries()[j].0,
                            n,
                        ) == b)) by {
                            assert(run_contains(self.starts@, self.ht@, b, j) <==> (0 <= j
                                < entries.len() && bucket_index(entries[j].0, n) == b));
                        }
                    }
                }
                Ok(Some(value))
            },
            None => {
                proof {
                    assert(self@.contains_key(k) == holds(entries, k));
                }
                let n1 = match self.count.checked_add(1) {
                    Some(v) => v,
                    None => {
                        return Err(CapacityOverflowError {});
                    },
                };
                let target = match growth_request(
                    n1,
                    self.ht.len(),
                    self.threshold,
                    self.max_buckets,
                ) {
                    Ok(t) => t,
                    Err(e) => {
                        return Err(e);
                    },
                };
                let idx = self.push_elem(key, value);
                self.count = n1;
                let n = self.ht.len();
                if n > 0 {
                    self.link_bucket(idx, found.bucket);
                } else {
                    self.link_tail(idx, found.tail);
                    proof {
                        assert(entries.push((key.spec_bytes(), value)) =~= linked_in(
                            entries,
                            (key.spec_bytes(), value),
                            0,
                        ));
                    }
                }
                proof {
                    lemma_link_position_range(entries, key.spec_bytes(), n as int);
                    lemma_map_insert(
                        entries,
                        link_position(entries, key.spec_bytes(), n as int),
                        (key.spec_bytes(), value),
                    );
                }
                match target {
                    Some(size) => match room {
                        Some(fresh) => {
                            proof {
                                lemma_regroup(self.entries(), size as int);
                            }
                            self.redistribute(fresh, size);
                        },
                        None => {},
                    },
                    None => {},
                }
                Ok(None)
            },
        }
    }

    /// The number of buckets that the growth policy asks for once one more
    /// entry is in the table.
    fn growth_after_insert(&self) -> (r: Result<Option<usize>, CapacityOverflowError>)
        requires
            self.wf(),
        ensures
            r is Err <==> insert_overflows(
                self.entries().len() as int,
                self.spec_bucket_count() as int,
                self.spec_threshold() as int,
            ),
            r matches Ok(t) ==> match t {
                Some(size) => growth_target(
                    self.entries().len() as int + 1,
                    self.spec_bucket_count() as int,
                    self.spec_threshold() as int,
                    self.spec_max_buckets() as int,
                ) == Some(size as int),
                None => growth_target(
                    self.entries().len() as int + 1,
                    self.spec_bucket_count() as int,
                    self.spec_threshold() as int,
                    self.spec_max_buckets() as int,
                ) is None,
            },
    {
        match self.count.checked_add(1) {
            Some(n1) => growth_request(n1, self.ht.len(), self.threshold, self.max_buckets),
            None => Err(CapacityOverflowError {}),
        }
    }

    /// Inserts a value under a key, into the room given if the table grows,
    /// as [`Hash::insert`] does into room that it asks the allocator for.
    /// `None` stands for an allocator that had no room to give.
    pub fn insert_with(&mut self, key: &str, value: D, room: Option<Vec<Bucket>>) -> (r: Result<
        Option<D>,
        CapacityOverflowError,
    >)
        requires
            old(self).wf(),
        ensures
            final(self).wf(),
            final(self).spec_threshold() == old(self).spec_threshold(),
            final(self).spec_max_buckets() == old(self).spec_max_buckets(),
            r is Err <==> !old(self)@.contains_key(fold(key.spec_bytes())) && insert_overflows(
                old(self).entries().len() as int,
                old(self).spec_bucket_count() as int,
                old(self).spec_threshold() as int,
            ),
            r is Err ==> final(self).entries() == old(self).entries()
                && final(self).spec_bucket_count() == old(self).spec_bucket_count(),
            r matches Ok(prev) ==> {
                &&& prev == (if old(self)@.contains_key(fold(key.spec_bytes())) {
                    Some(old(self)@[fold(key.spec_bytes())])
                } else {
                    None
                })
                &&& final(self)@ == old(self)@.insert(fold(key.spec_bytes()), value)
                &&& final(self).entries().len() == old(self).entries().len() + (if old(
                    self,
                )@.contains_key(fold(key.spec_bytes())) {
                    0int
                } else {
                    1int
                })
                &&& final(self).entries() == entries_after_insert(
                    old(self).entries(),
                    key.spec_bytes(),
                    value,
                    old(self).spec_bucket_count() as int,
                    old(self).spec_threshold() as int,
                    old(self).spec_max_buckets() as int,
                    room is Some,
                )
                &&& final(self).spec_bucket_count() == (if old(self)@.contains_key(
                    fold(key.spec_bytes()),
                ) {
                    old(self).spec_bucket_count() as int
                } else {
                    buckets_after_insert(
                        old(self).entries().len() as int,
                        old(self).spec_bucket_count() as int,
                        old(self).spec_threshold() as int,
                        old(self).spec_max_buckets() as int,
                        room is Some,
                    )
                })
            },
    {
        let found = self.find(key.as_bytes());
        let room = match room {
            Some(given) => {
                let mut fresh = given;
                fresh.clear();
                Some(fresh)
            },
            None => None,
        };
        self.put(key, value, found, room)
    }

    /// Inserts a value under a key.
    ///
    /// When the table holds the key, in any letter case, the value replaces
    /// the one held, which is returned; the stored spelling of the key
    /// stays. When the key is new, an entry is made and linked in: at the
    /// end of the chain while the table has no buckets, else in front of its
    /// bucket's run. Then the table grows if it is due to. Growing needs room
    /// from the allocator; without it the table goes on with the buckets it
    /// has.
    ///
    /// Fails, and leaves the table alone, when the key is new and a size
    /// that the insert needs does not fit in a machine word.
    pub fn insert(&mut self, key: &str, value: D) -> (r: Result<Option<D>, CapacityOverflowError>)
        requires
            old(self).wf(),
        ensures
            final(self).wf(),
            final(self).spec_threshold() == old(self).spec_threshold(),
            final(self).spec_max_buckets() == old(self).spec_max_buckets(),
            r is Err <==> !old(self)@.contains_key(fold(key.spec_bytes())) && insert_overflows(
                old(self).entries().len() as int,
                old(self).spec_bucket_count() as int,
                old(self).spec_threshold() as int,
            ),
            r is Err ==> final(self).entries() == old(self).entries()
                && final(self).spec_bucket_count() == old(self).spec_bucket_count(),
            r matches Ok(prev) ==> {
                &&& prev == (if old(self)@.contains_key(fold(key.spec_bytes())) {
                    Some(old(self)@[fold(key.spec_bytes())])
                } else {
                    None
                })
                &&& final(self)@ == old(self)@.insert(fold(key.spec_bytes()), value)
                &&& final(self).entries().len() == old(self).entries().len() + (if old(
                    self,
                )@.contains_key(fold(key.spec_bytes())) {
                    0int
                } else {
                    1int
                })
                &&& exists|granted: bool|
                    {
                        &&& final(self).entries() == #[trigger] entries_after_insert(
                            old(self).entries(),
                            key.spec_bytes(),
                            value,
                            old(self).spec_bucket_count() as int,
                            old(self).spec_threshold() as int,
                            old(self).spec_max_buckets() as int,
                            granted,
                        )
                        &&& final(self).spec_bucket_count() == (if old(self)@.contains_key(
                            fold(key.spec_bytes()),
                        ) {
                            old(self).spec_bucket_count() as int
                        } else {
                            buckets_after_insert(
                                old(self).entries().len() as int,
                                old(self).spec_bucket_count() as int,
                                old(self).spec_threshold() as int,
                                old(self).spec_max_buckets() as int,
                                granted,
                            )
                        })
                    }
            },
    {
        let found = self.find(key.as_bytes());
        let room = if found.at.is_none() {
            match self.growth_after_insert() {
                Ok(Some(size)) => bucket_room(size),
                _ => None,
            }
        } else {
            None
        };
        let ghost granted = room is Some;
        let r = self.put(key, value, found, room);
        proof {
            if r is Ok {
                let e = entries_after_insert(
                    old(self).entries(),
                    key.spec_bytes(),
                    value,
                    old(self).spec_bucket_count() as int,
                    old(self).spec_threshold() as int,
                    old(self).spec_max_buckets() as int,
                    granted,
                );
                assert(self.entries() == e);
            }
        }
        r
    }

    /// Removes a key, in any letter case, and returns the value it had.
    /// When the last entry leaves, the table drops its buckets and scans
    /// its chain again.
    pub fn remove(&mut self, key: &str) -> (prev: Option<D>)
        requires
            old(self).wf(),
        ensures
            final(self).wf(),
            final(self).spec_threshold() == old(self).spec_threshold(),
            final(self).spec_max_buckets() == old(self).spec_max_buckets(),
            prev == (if old(self)@.contains_key(fold(key.spec_bytes())) {
                Some(old(self)@[fold(key.spec_bytes())])
            } else {
                None
            }),
            final(self)@ == old(self)@.remove(fold(key.spec_bytes())),
            final(self).entries() == entries_after_remove(old(self).entries(), key.spec_bytes()),
            final(self).spec_bucket_count() == buckets_after_remove(
                old(self).entries(),
                key.spec_bytes(),
                old(self).spec_bucket_count() as int,
            ),
    {
        let ghost entries = self.entries();
        let ghost k = fold(key.spec_bytes());
        let found = self.find(key.as_bytes());
        match found.at {
            None => {
                proof {
                    assert(self@.remove(k) =~= self@);
                }
                None
            },
            Some(idx) => {
                proof {
                    lemma_map_at(entries, found.place@);
                    lemma_map_remove(entries, found.place@);
                    assert(self.order@[found.place@] < self.elems@.len());
                    lemma_bucket_of_folded(
                        entries[found.place@].0,
                        key.spec_bytes(),
                        self.ht@.len() as int,
                    );
                }
                self.unlink(idx, found.bucket, found.place);
                let e = self.take_out(idx);
                self.count = self.count - 1;
                if self.count == 0 {
                    self.ht = Vec::new();
                    self.starts = Ghost(Seq::empty());
                }
                Some(e.data)
            },
        }
    }

    /// Removes every entry and drops the bucket array.
    pub fn clear(&mut self)
        ensures
            final(self).wf(),
            final(self).entries().len() == 0,
            final(self)@ == Map::<Seq<u8>, D>::empty(),
            final(self).spec_bucket_count() == 0,
            final(self).spec_threshold() == old(self).spec_threshold(),
            final(self).spec_max_buckets() == old(self).spec_max_buckets(),
    {
        self.elems = Vec::new();
        self.ht = Vec::new();
        self.first = None;
        self.count = 0;
        self.order = Ghost(Seq::empty());
        self.starts = Ghost(Seq::empty());
        proof {
            lemma_map_empty(self.entries());
        }
    }

    /// Removes every entry and drops the bucket array, as [`Hash::clear`]
    /// does.
    #[allow(non_snake_case)]
    pub fn sqlite3HashClear(&mut self)
        ensures
            final(self).wf(),
            final(self).entries().len() == 0,
            final(self)@ == Map::<Seq<u8>, D>::empty(),
            final(self).spec_bucket_count() == 0,
            final(self).spec_threshold() == old(self).spec_threshold(),
            final(self).spec_max_buckets() == old(self).spec_max_buckets(),
    {
        self.clear();
    }

    /// Makes the table an empty table with the usual growth policy,
    /// whatever it was before.
    #[allow(non_snake_case)]
    pub fn sqlite3HashInit(&mut self)
        ensures
            final(self).wf(),
            final(self).entries().len() == 0,
            final(self)@ == Map::<Seq<u8>, D>::empty(),
            final(self).spec_bucket_count() == 0,
            final(self).spec_threshold() == GROWTH_THRESHOLD,
            final(self).spec_max_buckets() == spec_bucket_limit(BUCKET_BYTE_BUDGET as int),
    {
        self.clear();
        self.threshold = GROWTH_THRESHOLD;
        self.max_buckets = bucket_limit(BUCKET_BYTE_BUDGET);
        proof {
            lemma_map_empty(self.entries());
        }
    }

    /// The spelling under which the table stores a key, if it holds the key.
    pub fn stored_key(&self, key: &str) -> (stored: Option<&str>)
        requires
            self.wf(),
        ensures
            stored is Some <==> self@.contains_key(fold(key.spec_bytes())),
            stored matches Some(s) ==> s.spec_bytes() == self.entries()[position(
                self.entries(),
                fold(key.spec_bytes()),
            )].0,
    {
        let found = self.find(key.as_bytes());
        match found.at {
            Some(i) => {
                proof {
                    lemma_map_at(self.entries(), found.place@);
                }
                Some(self.elems[i].key.as_str())
            },
            None => None,
        }
    }

    /// Inserts or removes under a key as it comes: with `Some(value)` it
    /// does what [`Hash::insert`] does, with `None` what [`Hash::remove`]
    /// does. The key is decoded first; when its bytes are not text, nothing
    /// is changed.
    pub fn insert_item(&mut self, key: StringType<'_>, data: Option<D>) -> (r: Result<
        Option<D>,
        HashError,
    >)
        requires
            old(self).wf(),
        ensures
            final(self).wf(),
            final(self).spec_threshold() == old(self).spec_threshold(),
            final(self).spec_max_buckets() == old(self).spec_max_buckets(),
            r is Err <==> !key.decodes() || (data is Some && !old(self)@.contains_key(
                fold(key.spec_bytes()),
            ) && insert_overflows(
                old(self).entries().len() as int,
                old(self).spec_bucket_count() as int,
                old(self).spec_threshold() as int,
            )),
            r matches Err(e) ==> e == (if key.decodes() {
                HashError::CapacityOverflow(CapacityOverflowError {})
            } else {
                HashError::KeyDecode(KeyDecodeError {})
            }),
            r is Err ==> final(self).entries() == old(self).entries()
                && final(self).spec_bucket_count() == old(self).spec_bucket_count(),
            r matches Ok(prev) ==> {
                &&& prev == (if old(self)@.contains_key(fold(key.spec_bytes())) {
                    Some(old(self)@[fold(key.spec_bytes())])
                } else {
                    None
                })
                &&& match data {
                    None => {
                        &&& final(self)@ == old(self)@.remove(fold(key.spec_bytes()))
                        &&& final(self).entries() == entries_after_remove(
                            old(self).entries(),
                            key.spec_bytes(),
                        )
                        &&& final(self).spec_bucket_count() == buckets_after_remove(
                            old(self).entries(),
                            key.spec_bytes(),
                            old(self).spec_bucket_count() as int,
                        )
                    },
                    Some(value) => {
                        &&& final(self)@ == old(self)@.insert(fold(key.spec_bytes()), value)
                        &&& final(self).entries().len() == old(self).entries().len() + (if old(
                            self,
                        )@.contains_key(fold(key.spec_bytes())) {
                            0int
                        } else {
                            1int
                        })
                        &&& exists|granted: bool|
                            {
                                &&& final(self).entries() == #[trigger] entries_after_insert(
                                    old(self).entries(),
                                    key.spec_bytes(),
                                    value,
                                    old(self).spec_bucket_count() as int,
                                    old(self).spec_threshold() as int,
                                    old(self).spec_max_buckets() as int,
                                    granted,
                                )
                                &&& final(self).spec_bucket_count() == (if old(
                                    self,
                                )@.contains_key(fold(key.spec_bytes())) {
                                    old(self).spec_bucket_count() as int
                                } else {
                                    buckets_after_insert(
                                        old(self).entries().len() as int,
                                        old(self).spec_bucket_count() as int,
                                        old(self).spec_threshold() as int,
                                        old(self).spec_max_buckets() as int,
                                        granted,
                                    )
                                })
                            }
                    },
                }
            },
    {
        let text = match key.as_str_ref() {
            Ok(s) => s,
            Err(e) => {
                return Err(HashError::KeyDecode(e));
            },
        };
        match data {
            None => Ok(self.remove(text)),
            Some(value) => match self.insert(text, value) {
                Ok(prev) => Ok(prev),
                Err(e) => Err(HashError::CapacityOverflow(e)),
            },
        }
    }

    /// Looks up a key as it comes. The key is decoded first, as in
    /// [`Hash::insert_item`].
    pub fn get_item(&self, key: StringType<'_>) -> (r: Result<Option<&D>, KeyDecodeError>)
        requires
            self.wf(),
        ensures
            r is Err <==> !key.decodes(),
            r matches Ok(value) ==> value == (if self@.contains_key(fold(key.spec_bytes())) {
                Some(&self@[fold(key.spec_bytes())])
            } else {
                None
            }),
    {
        match key.as_str_ref() {
            Ok(text) => Ok(self.get(text)),
            Err(e) => Err(e),
        }
    }

    /// Looks a key up.
    pub fn get(&self, key: &str) -> (value: Option<&D>)
        requires
            self.wf(),
        ensures
            value == (if self@.contains_key(fold(key.spec_bytes())) {
                Some(&self@[fold(key.spec_bytes())])
            } else {
                None
            }),
    {
        let found = self.find(key.as_bytes());
        match found.at {
            Some(i) => {
                proof {
                    lemma_map_at(self.entries(), found.place@);
                }
                Some(&self.elems[i].data)
            },
            None => None,
        }
    }
}

} // verus!
