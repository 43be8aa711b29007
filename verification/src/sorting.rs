//! Stable sorting of paths: the order in which to take the items of a list so
//! that their paths ascend, items with the same path staying as they came.

use vstd::prelude::*;
use crate::order::total_preorder;
use crate::path::{ArchivePath, path_order};

verus! {

/// `order` with the place `k` put in behind every place whose key comes no
/// later than the key at `k`, seen from the end of `order`.
pub open spec fn insert_slot<K>(le: spec_fn(K, K) -> bool, keys: Seq<K>, order: Seq<usize>, k: usize) -> Seq<usize>
    decreases order.len(),
{
    if order.len() == 0 {
        seq![k]
    } else if le(keys[order.last() as int], keys[k as int]) {
        order.push(k)
    } else {
        insert_slot(le, keys, order.drop_last(), k).push(order.last())
    }
}

/// The places of `keys` in ascending order of the keys: each place is put
/// into the order of those before it, behind all that come no later.
pub open spec fn sorted_order<K>(le: spec_fn(K, K) -> bool, keys: Seq<K>) -> Seq<usize>
    decreases keys.len(),
{
    if keys.len() == 0 {
        Seq::empty()
    } else {
        insert_slot(le, keys, sorted_order(le, keys.drop_last()), (keys.len() - 1) as usize)
    }
}

/// The items of `items` taken in the given order.
pub open spec fn arranged<T>(items: Seq<T>, order: Seq<usize>) -> Seq<T> {
    Seq::new(order.len(), |i: int| items[order[i] as int])
}

/// The views of a list of paths.
pub open spec fn path_views(paths: Seq<ArchivePath>) -> Seq<Seq<Seq<u8>>> {
    paths.map_values(|p: ArchivePath| p@)
}

/// Every place in the sorted order of `keys` is a place of `keys`, and the
/// order is as long as `keys`.
pub proof fn lemma_sorted_order_in_range<K>(le: spec_fn(K, K) -> bool, keys: Seq<K>)
    requires
        keys.len() <= usize::MAX,
    ensures
        sorted_order(le, keys).len() == keys.len(),
        forall|i: int| 0 <= i < keys.len() ==> #[trigger] sorted_order(le, keys)[i] < keys.len(),
    decreases keys.len(),
{
    if keys.len() != 0 {
        let front = sorted_order(le, keys.drop_last());
        lemma_sorted_order_in_range(le, keys.drop_last());
        lemma_insert_slot_shape(le, keys, front, (keys.len() - 1) as usize);
    }
}

/// Putting `k` into `order` leaves the places of `order` in their order and
/// sets `k` at some point among them.
pub proof fn lemma_insert_slot_shape<K>(le: spec_fn(K, K) -> bool, keys: Seq<K>, order: Seq<usize>, k: usize) -> (at: int)
    ensures
        0 <= at <= order.len(),
        insert_slot(le, keys, order, k) == order.insert(at, k),
        at > 0 ==> le(keys[order[at - 1] as int], keys[k as int]),
        forall|j: int| at <= j < order.len() ==> !le(keys[#[trigger] order[j] as int], keys[k as int]),
    decreases order.len(),
{
    if order.len() == 0 {
        assert(seq![k] =~= order.insert(0, k));
        0
    } else if le(keys[order.last() as int], keys[k as int]) {
        assert(order.push(k) =~= order.insert(order.len() as int, k));
        order.len() as int
    } else {
        let front = order.drop_last();
        let at = lemma_insert_slot_shape(le, keys, front, k);
        assert(front.insert(at, k).push(order.last()) =~= order.insert(at, k));
        assert forall|j: int| at <= j < order.len() implies !le(keys[#[trigger] order[j] as int], keys[k as int]) by {
            if j < front.len() {
                assert(front[j] == order[j]);
            }
        }
        at
    }
}

/// Whether `order` takes the places of `keys` so that the keys ascend, and
/// places with keys that count as equal in the order in which they stand.
pub open spec fn ascends<K>(le: spec_fn(K, K) -> bool, keys: Seq<K>, order: Seq<usize>) -> bool {
    forall|i: int, j: int|
        #![trigger order[i], order[j]]
        0 <= i < j < order.len() ==> le(keys[order[i] as int], keys[order[j] as int]) && (le(
            keys[order[j] as int],
            keys[order[i] as int],
        ) ==> order[i] < order[j])
}

/// Whether `order` holds every place of `keys`.
pub open spec fn covers<K>(keys: Seq<K>, order: Seq<usize>) -> bool {
    forall|k: int| 0 <= k < keys.len() ==> #[trigger] order.contains(k as usize)
}

/// Whether `order` holds the places of `keys`, each once.
pub open spec fn arrangement<K>(keys: Seq<K>, order: Seq<usize>) -> bool {
    &&& order.len() == keys.len()
    &&& forall|i: int| 0 <= i < order.len() ==> #[trigger] order[i] < keys.len()
    &&& covers(keys, order)
    &&& order.no_duplicates()
}

/// The sorted order of `keys` is a stable sort: it holds every place of
/// `keys` once, the keys ascend along it, and keys that count as equal stay
/// in the order in which they stand in `keys`.
pub proof fn lemma_sorted_order_sorts<K>(le: spec_fn(K, K) -> bool, keys: Seq<K>)
    requires
        total_preorder(le),
        keys.len() <= usize::MAX,
    ensures
        sorted_order(le, keys).len() == keys.len(),
        forall|i: int| 0 <= i < keys.len() ==> #[trigger] sorted_order(le, keys)[i] < keys.len(),
        covers(keys, sorted_order(le, keys)),
        arrangement(keys, sorted_order(le, keys)),
        ascends(le, keys, sorted_order(le, keys)),
    decreases keys.len(),
{
    lemma_sorted_order_in_range(le, keys);
    if keys.len() != 0 {
        let k = (keys.len() - 1) as usize;
        let pre = keys.drop_last();
        let front = sorted_order(le, pre);
        let order = sorted_order(le, keys);
        lemma_sorted_order_sorts(le, pre);
        let at = lemma_insert_slot_shape(le, keys, front, k);
        assert(order == front.insert(at, k));
        assert forall|x: int| 0 <= x < order.len() implies #[trigger] order[x] == (if x < at {
            front[x]
        } else if x == at {
            k
        } else {
            front[x - 1]
        }) by {}
        assert forall|x: int| 0 <= x < front.len() implies keys[#[trigger] front[x] as int] == pre[front[x] as int] by {}
        assert forall|i: int, j: int| 0 <= i < order.len() && 0 <= j < order.len() && i != j implies order[i] != order[j] by {
            if i != at && j != at {
                let a = if i < at { i } else { i - 1 };
                let b = if j < at { j } else { j - 1 };
                assert(order[i] == front[a] && order[j] == front[b]);
                assert(a != b);
            } else if i == at {
                let b = if j < at { j } else { j - 1 };
                assert(order[j] == front[b] && front[b] < k);
            } else {
                let a = if i < at { i } else { i - 1 };
                assert(order[i] == front[a] && front[a] < k);
            }
        }
        assert forall|c: int| 0 <= c < keys.len() implies #[trigger] order.contains(c as usize) by {
            if c == k {
                assert(order[at] == k);
            } else {
                assert(front.contains(c as usize));
                let x = choose|x: int| 0 <= x < front.len() && front[x] == c as usize;
                if x < at {
                    assert(order[x] == front[x]);
                } else {
                    assert(order[x + 1] == front[x]);
                }
            }
        }
        assert forall|i: int, j: int|
            #![trigger order[i], order[j]]
            0 <= i < j < order.len() implies le(keys[order[i] as int], keys[order[j] as int]) && (le(
            keys[order[j] as int],
            keys[order[i] as int],
        ) ==> order[i] < order[j]) by {
            if i == at {
                assert(order[j] == front[j - 1]);
                assert(!le(keys[front[j - 1] as int], keys[k as int]));
                assert(le(keys[front[j - 1] as int], keys[k as int]) || le(keys[k as int], keys[front[j - 1] as int]));
            } else if j == at {
                assert(order[i] == front[i]);
                assert(le(keys[front[at - 1] as int], keys[k as int]));
                if i < at - 1 {
                    let _ = (front[i], front[at - 1]);
                    assert(le(pre[front[i] as int], pre[front[at - 1] as int]));
                    assert(le(keys[front[i] as int], keys[front[at - 1] as int]) && le(keys[front[at - 1] as int], keys[k as int]));
                }
            } else {
                let a = if i < at { i } else { i - 1 };
                let b = if j < at { j } else { j - 1 };
                let _ = (front[a], front[b]);
                assert(order[i] == front[a] && order[j] == front[b]);
                assert(le(pre[front[a] as int], pre[front[b] as int]));
            }
        }
    }
}

/// Two stable sorts of the same keys agree up to any place.
proof fn lemma_stable_orders_agree<K>(le: spec_fn(K, K) -> bool, keys: Seq<K>, a: Seq<usize>, b: Seq<usize>, p: int)
    requires
        arrangement(keys, a),
        arrangement(keys, b),
        ascends(le, keys, a),
        ascends(le, keys, b),
        0 <= p <= keys.len(),
    ensures
        a.take(p) == b.take(p),
    decreases p,
{
    if p == 0 {
        assert(a.take(0) =~= b.take(0));
    } else {
        lemma_stable_orders_agree(le, keys, a, b, p - 1);
        let at = p - 1;
        let x = a[at];
        let y = b[at];
        assert forall|i: int| 0 <= i < at implies a[i] == b[i] by {
            assert(a.take(at)[i] == b.take(at)[i]);
        }
        if x != y {
            assert(b.contains(x as int as usize));
            let q = choose|q: int| 0 <= q < b.len() && b[q] == x;
            if q < at {
                assert(a[q] == a[at]);
            }
            assert(a.contains(y as int as usize));
            let r = choose|r: int| 0 <= r < a.len() && a[r] == y;
            if r < at {
                assert(b[r] == b[at]);
            }
            let _ = (b[at], b[q]);
            let _ = (a[at], a[r]);
            assert(le(keys[y as int], keys[x as int]) && (le(keys[x as int], keys[y as int]) ==> y < x));
            assert(le(keys[x as int], keys[y as int]) && (le(keys[y as int], keys[x as int]) ==> x < y));
        }
        assert(a.take(p) =~= a.take(at).push(x));
        assert(b.take(p) =~= b.take(at).push(y));
    }
}

/// There is but one stable sort: an order that holds every place of `keys`
/// once, along which the keys ascend and equal keys stay as they stand, is
/// the sorted order of `keys`.
pub proof fn lemma_stable_order_unique<K>(le: spec_fn(K, K) -> bool, keys: Seq<K>, order: Seq<usize>)
    requires
        total_preorder(le),
        keys.len() <= usize::MAX,
        arrangement(keys, order),
        ascends(le, keys, order),
    ensures
        order == sorted_order(le, keys),
{
    lemma_sorted_order_sorts(le, keys);
    let sorted = sorted_order(le, keys);
    lemma_stable_orders_agree(le, keys, order, sorted, keys.len() as int);
    assert(order.take(keys.len() as int) =~= order);
    assert(sorted.take(keys.len() as int) =~= sorted);
}

/// The order in which to take `keys` so that they ascend, equal paths
/// staying in the order in which they stand in `keys`.
pub fn sort_order(keys: &Vec<ArchivePath>) -> (r: Vec<usize>)
    ensures
        r@ == sorted_order(path_order(), path_views(keys@)),
        r@.len() == keys@.len(),
        forall|i: int| 0 <= i < r@.len() ==> #[trigger] r@[i] < keys@.len(),
{
    let ghost le = path_order();
    let ghost kv = path_views(keys@);
    let mut order: Vec<usize> = Vec::new();
    let mut n: usize = 0;
    while n < keys.len()
        invariant
            n <= keys.len(),
            le == path_order(),
            kv == path_views(keys@),
            order@ == sorted_order(le, kv.take(n as int)),
            order@.len() == n,
            forall|i: int| 0 <= i < order@.len() ==> #[trigger] order@[i] < n,
        decreases keys.len() - n,
    {
        let ghost before = order@;
        let ghost upto = kv.take(n + 1);
        let mut at: usize = order.len();
        assert(before.take(at as int) =~= before);
        assert(before.skip(at as int) =~= Seq::<usize>::empty());
        assert(insert_slot(le, upto, before, n) =~= insert_slot(le, upto, before.take(at as int), n) + before.skip(at as int));
        while at > 0 && !keys[order[at - 1]].precedes(&keys[n])
            invariant
                at <= order@.len(),
                order@ == before,
                n < keys.len(),
                le == path_order(),
                kv == path_views(keys@),
                upto == kv.take(n + 1),
                forall|i: int| 0 <= i < order@.len() ==> #[trigger] order@[i] < n,
                insert_slot(le, upto, before, n) == insert_slot(le, upto, before.take(at as int), n) + before.skip(at as int),
            decreases at,
        {
            let ghost head = before.take(at as int);
            assert(head.last() == before[at - 1]);
            assert(upto[before[at - 1] as int] == keys@[before[at - 1] as int]@);
            assert(upto[n as int] == keys@[n as int]@);
            assert(!le(upto[head.last() as int], upto[n as int]));
            assert(head.drop_last() =~= before.take(at - 1));
            assert(insert_slot(le, upto, before.take(at - 1), n).push(head.last()) + before.skip(at as int)
                =~= insert_slot(le, upto, before.take(at - 1), n) + before.skip(at - 1));
            at -= 1;
        }
        proof {
            let head = before.take(at as int);
            if at > 0 {
                assert(head.last() == before[at - 1]);
                assert(upto[before[at - 1] as int] == keys@[before[at - 1] as int]@);
                assert(upto[n as int] == keys@[n as int]@);
                assert(le(upto[head.last() as int], upto[n as int]));
            } else {
                assert(seq![n] =~= head.push(n));
            }
            assert(insert_slot(le, upto, head, n) == head.push(n));
            assert(head.push(n) + before.skip(at as int) =~= before.insert(at as int, n));
            assert(upto.drop_last() =~= kv.take(n as int));
        }
        order.insert(at, n);
        assert forall|i: int| 0 <= i < order@.len() implies #[trigger] order@[i] < n + 1 by {
            if i < at {
                assert(order@[i] == before[i]);
            } else if i > at {
                assert(order@[i] == before[i - 1]);
            }
        }
        n += 1;
    }
    assert(kv.take(n as int) =~= kv);
    order
}

/// Copies of `paths`, taken in the given order.
pub fn arrange_paths(paths: &Vec<ArchivePath>, order: &Vec<usize>) -> (r: Vec<ArchivePath>)
    requires
        forall|i: int| 0 <= i < order@.len() ==> #[trigger] order@[i] < paths@.len(),
    ensures
        path_views(r@) == arranged(path_views(paths@), order@),
{
    let mut out: Vec<ArchivePath> = Vec::new();
    let mut i: usize = 0;
    while i < order.len()
        invariant
            i <= order.len(),
            forall|i: int| 0 <= i < order@.len() ==> #[trigger] order@[i] < paths@.len(),
            path_views(out@) == arranged(path_views(paths@), order@.take(i as int)),
        decreases order.len() - i,
    {
        assert(order@[i as int] < paths@.len());
        let ghost done = path_views(out@);
        let copy = paths[order[i]].duplicate();
        out.push(copy);
        assert(path_views(out@) =~= done.push(copy@));
        assert(arranged(path_views(paths@), order@.take(i + 1))
            =~= arranged(path_views(paths@), order@.take(i as int)).push(copy@));
        i += 1;
    }
    assert(order@.take(i as int) =~= order@);
    out
}

} // verus!
