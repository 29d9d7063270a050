//! Entries and the chain they are threaded on.
//!
//! The entries live in an arena, a vector, and name their neighbours by
//! arena index. The order in which the chain visits them is a ghost sequence
//! of arena indices.

use vstd::prelude::*;
use vstd::utf8::encode_utf8;

verus! {

/// One entry of the table. It owns its key and its value, and knows its
/// neighbours on the chain by their places in the arena.
pub struct HashElem<D> {
    pub(crate) next: Option<usize>,
    pub(crate) prev: Option<usize>,
    pub(crate) data: D,
    pub(crate) key: String,
}

impl<D> HashElem<D> {
    /// The bytes of the stored key.
    pub(crate) open spec fn key_bytes(self) -> Seq<u8> {
        encode_utf8(self.key@)
    }
}

/// The entry at place `k` of the chain names the right neighbours.
pub(crate) open spec fn link_ok<D>(elems: Seq<HashElem<D>>, order: Seq<usize>, k: int) -> bool {
    &&& elems[order[k] as int].prev == (if k == 0 {
        None
    } else {
        Some(order[k - 1])
    })
    &&& elems[order[k] as int].next == (if k + 1 == order.len() {
        None
    } else {
        Some(order[k + 1])
    })
}

/// The entries named by `order` form a doubly-linked chain in that order,
/// starting at `first`.
pub(crate) open spec fn linked<D>(
    elems: Seq<HashElem<D>>,
    first: Option<usize>,
    order: Seq<usize>,
) -> bool {
    &&& order.no_duplicates()
    &&& forall|k: int| 0 <= k < order.len() ==> (#[trigger] order[k]) < elems.len()
    &&& first == (if order.len() == 0 {
        None
    } else {
        Some(order[0])
    })
    &&& forall|k: int| 0 <= k < order.len() ==> #[trigger] link_ok(elems, order, k)
}

/// The stored keys and values along the chain.
pub(crate) open spec fn chain_entries<D>(elems: Seq<HashElem<D>>, order: Seq<usize>) -> Seq<
    (Seq<u8>, D),
> {
    Seq::new(
        order.len(),
        |k: int| (elems[order[k] as int].key_bytes(), elems[order[k] as int].data),
    )
}

/// Two arenas hold the same keys and values at the same places.
pub(crate) open spec fn same_payload<D>(a: Seq<HashElem<D>>, b: Seq<HashElem<D>>) -> bool {
    &&& a.len() == b.len()
    &&& forall|i: int|
        0 <= i < a.len() ==> (#[trigger] a[i]).key == b[i].key && a[i].data == b[i].data
}

/// `b` is `a` after entry `idx` was tied between `before` and `after`.
pub(crate) open spec fn spliced<D>(
    a: Seq<HashElem<D>>,
    b: Seq<HashElem<D>>,
    idx: usize,
    before: Option<usize>,
    after: Option<usize>,
) -> bool {
    &&& same_payload(a, b)
    &&& b[idx as int].prev == before
    &&& b[idx as int].next == after
    &&& before matches Some(x) ==> b[x as int].next == Some(idx) && b[x as int].prev
        == a[x as int].prev
    &&& after matches Some(y) ==> b[y as int].prev == Some(idx) && b[y as int].next
        == a[y as int].next
    &&& forall|i: int|
        0 <= i < a.len() && i != idx && before != Some(i as usize) && after != Some(i as usize)
            ==> #[trigger] b[i] == a[i]
}

/// `b` is `a` after `before` and `after` were tied to each other.
pub(crate) open spec fn bridged<D>(
    a: Seq<HashElem<D>>,
    b: Seq<HashElem<D>>,
    before: Option<usize>,
    after: Option<usize>,
) -> bool {
    &&& same_payload(a, b)
    &&& before matches Some(x) ==> b[x as int].next == after && b[x as int].prev
        == a[x as int].prev
    &&& after matches Some(y) ==> b[y as int].prev == before && b[y as int].next
        == a[y as int].next
    &&& forall|i: int|
        0 <= i < a.len() && before != Some(i as usize) && after != Some(i as usize)
            ==> #[trigger] b[i] == a[i]
}

/// Ties entry `idx` between `before` and `after`.
pub(crate) fn splice<D>(
    elems: &mut Vec<HashElem<D>>,
    idx: usize,
    before: Option<usize>,
    after: Option<usize>,
)
    requires
        idx < old(elems)@.len(),
        before matches Some(x) ==> x < old(elems)@.len() && x != idx,
        after matches Some(y) ==> y < old(elems)@.len() && y != idx && before != Some(y),
    ensures
        spliced(old(elems)@, final(elems)@, idx, before, after),
{
    elems[idx].prev = before;
    elems[idx].next = after;
    match before {
        Some(x) => {
            elems[x].next = Some(idx);
        },
        None => {},
    }
    match after {
        Some(y) => {
            elems[y].prev = Some(idx);
        },
        None => {},
    }
}

/// Ties `before` and `after` to each other.
pub(crate) fn bridge<D>(elems: &mut Vec<HashElem<D>>, before: Option<usize>, after: Option<usize>)
    requires
        before matches Some(x) ==> x < old(elems)@.len(),
        after matches Some(y) ==> y < old(elems)@.len() && before != Some(y),
    ensures
        bridged(old(elems)@, final(elems)@, before, after),
{
    match before {
        Some(x) => {
            elems[x].next = after;
        },
        None => {},
    }
    match after {
        Some(y) => {
            elems[y].prev = before;
        },
        None => {},
    }
}

/// The neighbour in front of place `p`.
pub(crate) open spec fn before_place(order: Seq<usize>, p: int) -> Option<usize> {
    if p == 0 {
        None
    } else {
        Some(order[p - 1])
    }
}

/// The entry at place `p`, if the chain is that long.
pub(crate) open spec fn at_place(order: Seq<usize>, p: int) -> Option<usize> {
    if p >= order.len() {
        None
    } else {
        Some(order[p])
    }
}

/// Tying a fresh entry in at place `p` gives the chain with that entry
/// inserted at `p`.
pub(crate) proof fn lemma_linked_insert<D>(
    a: Seq<HashElem<D>>,
    b: Seq<HashElem<D>>,
    first: Option<usize>,
    order: Seq<usize>,
    p: int,
    idx: usize,
)
    requires
        linked(a, first, order),
        0 <= p <= order.len(),
        idx < a.len(),
        !order.contains(idx),
        spliced(a, b, idx, before_place(order, p), at_place(order, p)),
    ensures
        linked(
            b,
            if p == 0 {
                Some(idx)
            } else {
                first
            },
            order.insert(p, idx),
        ),
        chain_entries(b, order.insert(p, idx)) == chain_entries(a, order).insert(
            p,
            (a[idx as int].key_bytes(), a[idx as int].data),
        ),
{
    let order2 = order.insert(p, idx);
    assert forall|i: int, j: int|
        0 <= i < order2.len() && 0 <= j < order2.len() && i != j implies order2[i]
        != order2[j] by {
        let oi = if i < p { i } else { i - 1 };
        let oj = if j < p { j } else { j - 1 };
        if i == p {
            assert(order.contains(order[oj]));
        } else if j == p {
            assert(order.contains(order[oi]));
        } else {
            assert(order2[i] == order[oi]);
            assert(order2[j] == order[oj]);
        }
    }
    assert forall|k: int| 0 <= k < order2.len() implies #[trigger] link_ok(b, order2, k) by {
        if k != p {
            let ok = if k < p { k } else { k - 1 };
            assert(order2[k] == order[ok]);
            assert(link_ok(a, order, ok));
            assert(order.contains(order[ok]));
            if p < order.len() {
                assert(order.contains(order[p]));
            }
            if p > 0 {
                assert(order.contains(order[p - 1]));
            }
        }
    }
    assert forall|k: int| 0 <= k < order2.len() implies (#[trigger] order2[k]) < b.len() by {
        if k != p {
            let ok = if k < p { k } else { k - 1 };
            assert(order2[k] == order[ok]);
        }
    }
    assert(chain_entries(b, order2) =~= chain_entries(a, order).insert(
        p,
        (a[idx as int].key_bytes(), a[idx as int].data),
    ));
}

/// Tying the neighbours of the entry at place `k` to each other gives the
/// chain without that entry.
pub(crate) proof fn lemma_linked_remove<D>(
    a: Seq<HashElem<D>>,
    b: Seq<HashElem<D>>,
    first: Option<usize>,
    order: Seq<usize>,
    k: int,
)
    requires
        linked(a, first, order),
        0 <= k < order.len(),
        bridged(a, b, before_place(order, k), at_place(order, k + 1)),
    ensures
        linked(
            b,
            if k == 0 {
                at_place(order, 1)
            } else {
                first
            },
            order.remove(k),
        ),
        !order.remove(k).contains(order[k]),
        chain_entries(b, order.remove(k)) == chain_entries(a, order).remove(k),
{
    let order2 = order.remove(k);
    assert forall|i: int, j: int|
        0 <= i < order2.len() && 0 <= j < order2.len() && i != j implies order2[i]
        != order2[j] by {
        let oi = if i < k { i } else { i + 1 };
        let oj = if j < k { j } else { j + 1 };
        assert(order2[i] == order[oi]);
        assert(order2[j] == order[oj]);
    }
    assert forall|j: int| 0 <= j < order2.len() implies (#[trigger] order2[j]) < b.len() by {
        let oj = if j < k { j } else { j + 1 };
        assert(order2[j] == order[oj]);
    }
    assert forall|j: int| 0 <= j < order2.len() implies #[trigger] link_ok(b, order2, j) by {
        let oj = if j < k { j } else { j + 1 };
        assert(order2[j] == order[oj]);
        assert(link_ok(a, order, oj));
        if k > 0 {
            assert(order[k - 1] < a.len());
        }
        if k + 1 < order.len() {
            assert(order[k + 1] < a.len());
        }
    }
    if order2.contains(order[k]) {
        let j = choose|j: int| 0 <= j < order2.len() && order2[j] == order[k];
        let oj = if j < k { j } else { j + 1 };
        assert(order2[j] == order[oj]);
    }
    assert(chain_entries(b, order2) =~= chain_entries(a, order).remove(k));
}

/// A chain that visits no entry twice and leaves out one entry of the
/// arena, and is one shorter than the arena, visits every other entry.
pub(crate) proof fn lemma_chain_covers(order: Seq<usize>, n: int, skip: usize, want: usize)
    requires
        order.no_duplicates(),
        forall|k: int| 0 <= k < order.len() ==> (#[trigger] order[k]) < n,
        order.len() + 1 == n,
        !order.contains(skip),
        skip < n,
        want < n,
        want != skip,
    ensures
        order.contains(want),
{
    let ints = Seq::new(order.len(), |k: int| order[k] as int);
    assert(ints.no_duplicates());
    ints.unique_seq_to_set();
    let have = ints.to_set().insert(skip as int);
    let all = vstd::set_lib::set_int_range(0, n);
    vstd::set_lib::lemma_int_range(0, n);
    assert(!ints.to_set().contains(skip as int)) by {
        if ints.to_set().contains(skip as int) {
            let k = choose|k: int| 0 <= k < ints.len() && ints[k] == skip as int;
            assert(order[k] == skip);
        }
    }
    assert(have.len() == n);
    assert(have.subset_of(all)) by {
        assert forall|x: int| have.contains(x) implies all.contains(x) by {
            if x != skip as int {
                let k = choose|k: int| 0 <= k < ints.len() && ints[k] == x;
                assert(order[k] < n);
            }
        }
    }
    vstd::set_lib::lemma_subset_equality(have, all);
    assert(all.contains(want as int));
    assert(have.contains(want as int));
    assert(ints.to_set().contains(want as int));
    let k = choose|k: int| 0 <= k < ints.len() && ints[k] == want as int;
    assert(order[k] == want);
}

/// The chain order after the entry at arena place `from` moved to `to`.
pub(crate) open spec fn renamed(order: Seq<usize>, from: usize, to: usize) -> Seq<usize> {
    Seq::new(
        order.len(),
        |k: int|
            if order[k] == from {
                to
            } else {
                order[k]
            },
    )
}

/// Moving the last entry of the arena into a place that the chain does not
/// visit, and telling its neighbours, keeps the chain and what it holds.
pub(crate) proof fn lemma_linked_rename<D>(
    a: Seq<HashElem<D>>,
    b: Seq<HashElem<D>>,
    first: Option<usize>,
    order: Seq<usize>,
    idx: usize,
    last: usize,
)
    requires
        linked(a, first, order),
        a.len() == last + 1,
        idx < last,
        !order.contains(idx),
        order.contains(last),
        spliced(
            a.update(idx as int, a.last()).drop_last(),
            b,
            idx,
            a.last().prev,
            a.last().next,
        ),
    ensures
        linked(
            b,
            if a.last().prev is None {
                Some(idx)
            } else {
                first
            },
            renamed(order, last, idx),
        ),
        chain_entries(b, renamed(order, last, idx)) == chain_entries(a, order),
{
    let order2 = renamed(order, last, idx);
    let j = choose|j: int| 0 <= j < order.len() && order[j] == last;
    assert(link_ok(a, order, j));
    assert forall|x: int, y: int|
        0 <= x < order2.len() && 0 <= y < order2.len() && x != y implies order2[x]
        != order2[y] by {
        assert(order.contains(order[x]));
        assert(order.contains(order[y]));
    }
    assert forall|k: int| 0 <= k < order2.len() implies (#[trigger] order2[k]) < b.len() by {
        assert(order[k] < a.len());
    }
    assert forall|k: int| 0 <= k < order2.len() implies #[trigger] link_ok(b, order2, k) by {
        assert(link_ok(a, order, k));
        assert(order.contains(order[k]));
        if k > 0 {
            assert(order.contains(order[k - 1]));
            assert(link_ok(a, order, k - 1));
        }
        if k + 1 < order.len() {
            assert(order.contains(order[k + 1]));
            assert(link_ok(a, order, k + 1));
        }
    }
    assert(chain_entries(b, order2) =~= chain_entries(a, order)) by {
        assert forall|k: int| 0 <= k < order.len() implies chain_entries(b, order2)[k]
            == chain_entries(a, order)[k] by {
            assert(order[k] < a.len());
            assert(order.contains(order[k]));
            let mid = a.update(idx as int, a.last()).drop_last();
            let v = order2[k] as int;
            assert(mid[v].key == b[v].key && mid[v].data == b[v].data);
            assert(mid[v] == a[order[k] as int]);
        }
    }
}

} // verus!
