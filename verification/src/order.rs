//! Orders: byte strings and stable sorting.

use vstd::prelude::*;

verus! {

/// Whether `a` comes before `b` in a dictionary, both read from `i` on.
pub open spec fn before_from(a: Seq<u8>, b: Seq<u8>, i: int) -> bool
    decreases b.len() - i,
{
    if i >= b.len() {
        false
    } else if i >= a.len() {
        true
    } else if a[i] != b[i] {
        a[i] < b[i]
    } else {
        before_from(a, b, i + 1)
    }
}

/// Whether `a` comes before `b` in a dictionary.
pub open spec fn comes_before(a: Seq<u8>, b: Seq<u8>) -> bool {
    before_from(a, b, 0)
}

pub proof fn lemma_before_irreflexive(a: Seq<u8>, i: int)
    requires
        0 <= i,
    ensures
        !before_from(a, a, i),
    decreases a.len() - i,
{
    if i < a.len() {
        lemma_before_irreflexive(a, i + 1);
    }
}

/// Of two byte strings that agree up to `i`, one comes first or they are equal.
pub proof fn lemma_before_total(a: Seq<u8>, b: Seq<u8>, i: int)
    requires
        0 <= i <= a.len(),
        i <= b.len(),
        forall|k: int| 0 <= k < i ==> a[k] == b[k],
    ensures
        before_from(a, b, i) || before_from(b, a, i) || a == b,
        !(before_from(a, b, i) && before_from(b, a, i)),
    decreases b.len() - i,
{
    if i < a.len() && i < b.len() && a[i] == b[i] {
        lemma_before_total(a, b, i + 1);
    } else if i == a.len() && i == b.len() {
        assert(a =~= b);
    }
}

pub proof fn lemma_before_transitive(a: Seq<u8>, b: Seq<u8>, c: Seq<u8>, i: int)
    requires
        0 <= i,
        before_from(a, b, i),
        before_from(b, c, i),
    ensures
        before_from(a, c, i),
    decreases b.len() - i,
{
    if i < a.len() && i < b.len() && i < c.len() && a[i] == b[i] && b[i] == c[i] {
        lemma_before_transitive(a, b, c, i + 1);
    }
}

/// Whether `a` comes before `b` in a dictionary.
pub(crate) fn byte_string_before(a: &Vec<u8>, b: &Vec<u8>) -> (result: bool)
    ensures
        result == comes_before(a@, b@),
{
    let mut i: usize = 0;
    while i < a.len() && i < b.len()
        invariant
            i <= a@.len(),
            i <= b@.len(),
            comes_before(a@, b@) == before_from(a@, b@, i as int),
        decreases a@.len() - i,
    {
        if a[i] != b[i] {
            return a[i] < b[i];
        }
        i += 1;
    }
    i < b.len()
}

/// Whether two byte strings are equal.
pub(crate) fn same_bytes(a: &[u8], b: &[u8]) -> (same: bool)
    ensures
        same == (a@ == b@),
{
    if a.len() != b.len() {
        return false;
    }
    let mut i: usize = 0;
    while i < a.len()
        invariant
            a@.len() == b@.len(),
            i <= a@.len(),
            forall|j: int| 0 <= j < i ==> a@[j] == b@[j],
        decreases a@.len() - i,
    {
        if a[i] != b[i] {
            return false;
        }
        i += 1;
    }
    assert(a@ =~= b@);
    true
}

/// A copy of a byte string.
pub(crate) fn copy_bytes(bytes: &[u8]) -> (copy: Vec<u8>)
    ensures
        copy@ == bytes@,
{
    let mut copy: Vec<u8> = Vec::new();
    let mut i: usize = 0;
    while i < bytes.len()
        invariant
            i <= bytes@.len(),
            copy@ == bytes@.take(i as int),
        decreases bytes@.len() - i,
    {
        copy.push(bytes[i]);
        i += 1;
        assert(copy@ =~= bytes@.take(i as int));
    }
    assert(bytes@.take(i as int) =~= bytes@);
    copy
}

/// `item` put into `order` behind everything whose key is not larger.
pub open spec fn placed(order: Seq<usize>, keys: Seq<i64>, item: usize) -> Seq<usize>
    decreases order.len(),
{
    if order.len() == 0 || keys[order.last() as int] <= keys[item as int] {
        order.push(item)
    } else {
        placed(order.drop_last(), keys, item).push(order.last())
    }
}

/// The first `n` indices, sorted by their keys; equal keys keep their order.
pub open spec fn sorted_indices(keys: Seq<i64>, n: int) -> Seq<usize>
    decreases n,
{
    if n <= 0 {
        Seq::empty()
    } else {
        placed(sorted_indices(keys, n - 1), keys, (n - 1) as usize)
    }
}

/// All indices of `keys`, sorted by their keys; equal keys keep their order.
pub open spec fn stable_order(keys: Seq<i64>) -> Seq<usize> {
    sorted_indices(keys, keys.len() as int)
}

/// Indices that are distinct, below `n`, and in the order of their keys.
pub open spec fn in_order(order: Seq<usize>, keys: Seq<i64>, n: int) -> bool {
    &&& order.len() == n
    &&& forall|i: int| 0 <= i < n ==> (#[trigger] order[i]) < n
    &&& forall|i: int, j: int|
        0 <= i < j < n ==> {
            let a = #[trigger] order[i];
            let b = #[trigger] order[j];
            keys[a as int] < keys[b as int] || (keys[a as int] == keys[b as int] && a < b)
        }
}

proof fn lemma_placed_at(order: Seq<usize>, keys: Seq<i64>, item: usize, at: int)
    requires
        0 <= at <= order.len(),
        forall|i: int| 0 <= i < at ==> keys[#[trigger] order[i] as int] <= keys[item as int],
        forall|i: int|
            at <= i < order.len() ==> keys[#[trigger] order[i] as int] > keys[item as int],
    ensures
        placed(order, keys, item) == order.insert(at, item),
    decreases order.len(),
{
    if at == order.len() {
        if order.len() > 0 {
            assert(order.last() == order[order.len() - 1]);
        }
        assert(order.insert(at, item) =~= order.push(item));
    } else {
        assert(order.last() == order[order.len() - 1]);
        lemma_placed_at(order.drop_last(), keys, item, at);
        assert(order.insert(at, item) =~= order.drop_last().insert(at, item).push(order.last()));
    }
}

/// Where `item` goes in an ordered list.
spec fn place_for(order: Seq<usize>, keys: Seq<i64>, item: usize) -> int
    decreases order.len(),
{
    if order.len() == 0 || keys[order.last() as int] <= keys[item as int] {
        order.len() as int
    } else {
        place_for(order.drop_last(), keys, item)
    }
}

proof fn lemma_place_for(order: Seq<usize>, keys: Seq<i64>, item: usize, n: int)
    requires
        forall|i: int, j: int|
            0 <= i < j < order.len() ==> keys[#[trigger] order[i] as int]
                <= keys[#[trigger] order[j] as int],
    ensures
        ({
            let at = place_for(order, keys, item);
            &&& 0 <= at <= order.len()
            &&& forall|i: int|
                0 <= i < at ==> keys[#[trigger] order[i] as int] <= keys[item as int]
            &&& forall|i: int|
                at <= i < order.len() ==> keys[#[trigger] order[i] as int] > keys[item as int]
        }),
    decreases order.len(),
{
    if order.len() > 0 {
        assert(order.last() == order[order.len() - 1]);
        if keys[order.last() as int] > keys[item as int] {
            let rest = order.drop_last();
            lemma_place_for(rest, keys, item, n);
            let at = place_for(order, keys, item);
            assert forall|i: int| 0 <= i < at implies keys[#[trigger] order[i] as int]
                <= keys[item as int] by {
                assert(rest[i] == order[i]);
            }
            assert forall|i: int| at <= i < order.len() implies keys[#[trigger] order[i] as int]
                > keys[item as int] by {
                if i < rest.len() {
                    assert(rest[i] == order[i]);
                }
            }
        }
    }
}

/// Sorting gives every index once, in the order of the keys, and indices with
/// equal keys in their own order.
pub proof fn sorted_indices_in_order(keys: Seq<i64>, n: int)
    requires
        0 <= n <= keys.len() <= usize::MAX,
    ensures
        in_order(sorted_indices(keys, n), keys, n),
    decreases n,
{
    if n > 0 {
        sorted_indices_in_order(keys, n - 1);
        let order = sorted_indices(keys, n - 1);
        let item = (n - 1) as usize;
        lemma_place_for(order, keys, item, n);
        lemma_placed_at(order, keys, item, place_for(order, keys, item));
        let at = place_for(order, keys, item);
        let next = order.insert(at, item);
        assert forall|i: int| 0 <= i < n implies (#[trigger] next[i]) < n by {
            if i < at {
                assert(next[i] == order[i]);
            } else if i > at {
                assert(next[i] == order[i - 1]);
            }
        }
        assert forall|i: int, j: int| 0 <= i < j < n implies {
            let a = #[trigger] next[i];
            let b = #[trigger] next[j];
            keys[a as int] < keys[b as int] || (keys[a as int] == keys[b as int] && a < b)
        } by {
            let oi = if i < at {
                i
            } else {
                i - 1
            };
            let oj = if j < at {
                j
            } else {
                j - 1
            };
            if i != at {
                assert(next[i] == order[oi]);
            }
            if j != at {
                assert(next[j] == order[oj]);
            }
        }
    }
}

/// Sorts the indices of `keys` by their keys, keeping the order of equal keys.
pub(crate) fn stable_order_of(keys: &Vec<i64>) -> (order: Vec<usize>)
    ensures
        order@ == stable_order(keys@),
        in_order(order@, keys@, keys@.len() as int),
{
    let mut order: Vec<usize> = Vec::new();
    let mut item: usize = 0;
    let count: usize = keys.len();
    while item < count
        invariant
            count == keys@.len(),
            item <= count,
            order@ == sorted_indices(keys@, item as int),
            order@.len() == item,
        decreases count - item,
    {
        proof {
            sorted_indices_in_order(keys@, item as int);
        }
        let mut low: usize = 0;
        let mut high: usize = order.len();
        while low < high
            invariant
                count == keys@.len(),
                item < count,
                in_order(order@, keys@, item as int),
                low <= high <= item,
                forall|i: int|
                    0 <= i < low ==> keys@[#[trigger] order@[i] as int] <= keys@[item as int],
                forall|i: int|
                    high <= i < item ==> keys@[#[trigger] order@[i] as int] > keys@[item as int],
            decreases high - low,
        {
            let middle: usize = low + (high - low) / 2;
            assert(order@[middle as int] < item);
            if keys[order[middle]] <= keys[item] {
                low = middle + 1;
            } else {
                high = middle;
            }
        }
        proof {
            lemma_placed_at(order@, keys@, item, low as int);
        }
        order.insert(low, item);
        item += 1;
    }
    proof {
        sorted_indices_in_order(keys@, count as int);
    }
    order
}

} // verus!
