//! Stable sorting by whole-number keys.

use vstd::prelude::*;

verus! {

/// The index `a` goes before `b`: its key is smaller, or the keys are equal and it came first.
pub open spec fn goes_before(keys: Seq<u64>, a: usize, b: usize) -> bool {
    keys[a as int] < keys[b as int] || (keys[a as int] == keys[b as int] && a < b)
}

/// `order` lists the indices from `lo` up to `hi`, each once, in the order of `goes_before`.
pub open spec fn is_order_of(keys: Seq<u64>, lo: int, hi: int, order: Seq<usize>) -> bool {
    &&& order.len() == hi - lo
    &&& forall|k: int| 0 <= k < order.len() ==> lo <= #[trigger] order[k] < hi
    &&& forall|k: int, l: int|
        0 <= k < l < order.len() ==> goes_before(keys, #[trigger] order[k], #[trigger] order[l])
    &&& forall|i: usize| lo <= i < hi ==> #[trigger] order.contains(i)
}

/// `order` lists all indices of `keys` by ascending key, equal keys in the order they came in.
pub open spec fn is_stable_order(keys: Seq<u64>, order: Seq<usize>) -> bool {
    is_order_of(keys, 0, keys.len() as int, order)
}

/// A stable order lists every index once, by ascending key, equal keys in the order they came in.
pub proof fn stable_orders_are_sorted(keys: Seq<u64>, order: Seq<usize>)
    requires
        is_stable_order(keys, order),
    ensures
        order.len() == keys.len(),
        order.no_duplicates(),
        forall|k: int| 0 <= k < order.len() ==> #[trigger] order[k] < keys.len(),
        forall|k: int, l: int|
            0 <= k < l < order.len() ==> {
                let (a, b) = (#[trigger] order[k], #[trigger] order[l]);
                keys[a as int] < keys[b as int] || (keys[a as int] == keys[b as int] && a < b)
            },
        forall|i: usize| i < keys.len() ==> #[trigger] order.contains(i),
{
    assert forall|k: int, l: int| 0 <= k < order.len() && 0 <= l < order.len() && k != l implies order[k]
        != order[l] by {
        if k < l {
            assert(goes_before(keys, order[k], order[l]));
        } else {
            assert(goes_before(keys, order[l], order[k]));
        }
    }
    assert forall|k: int, l: int| 0 <= k < l < order.len() implies ({
        let (a, b) = (#[trigger] order[k], #[trigger] order[l]);
        keys[a as int] < keys[b as int] || (keys[a as int] == keys[b as int] && a < b)
    }) by {
        assert(goes_before(keys, order[k], order[l]));
    }
}

/// There is only one stable order.
pub proof fn stable_order_unique(keys: Seq<u64>, a: Seq<usize>, b: Seq<usize>)
    requires
        is_stable_order(keys, a),
        is_stable_order(keys, b),
    ensures
        a == b,
{
    assert forall|n: int| 0 <= n <= keys.len() implies a.take(n) == b.take(n) by {
        stable_order_prefix(keys, a, b, n);
    }
    assert(a.take(keys.len() as int) == a);
    assert(b.take(keys.len() as int) == b);
}

proof fn stable_order_prefix(keys: Seq<u64>, a: Seq<usize>, b: Seq<usize>, n: int)
    requires
        is_stable_order(keys, a),
        is_stable_order(keys, b),
        0 <= n <= keys.len(),
    ensures
        a.take(n) == b.take(n),
    decreases n,
{
    if n > 0 {
        let m = n - 1;
        stable_order_prefix(keys, a, b, m);
        assert forall|k: int| 0 <= k < m implies a[k] == b[k] by {
            assert(a.take(m)[k] == b.take(m)[k]);
        }
        // The least index that is left stands next in both.
        assert(b.contains(a[m]));
        assert(a.contains(b[m]));
        let p = choose|p: int| 0 <= p < b.len() && b[p] == a[m];
        let q = choose|q: int| 0 <= q < a.len() && a[q] == b[m];
        if p < m {
            assert(a[p] == a[m]);
            assert(goes_before(keys, a[p], a[m]));
        }
        if q < m {
            assert(b[q] == b[m]);
            assert(goes_before(keys, b[q], b[m]));
        }
        if p > m && q > m {
            assert(goes_before(keys, b[m], b[p]));
            assert(goes_before(keys, a[m], a[q]));
        }
        assert(a[m] == b[m]);
        assert(a.take(n) =~= b.take(n));
    }
}

/// Merges the orders of two neighbouring ranges.
fn merge(
    keys: &Vec<u64>,
    left: &Vec<usize>,
    right: &Vec<usize>,
    Ghost(lo): Ghost<int>,
    Ghost(mid): Ghost<int>,
    Ghost(hi): Ghost<int>,
) -> (out: Vec<usize>)
    requires
        0 <= lo <= mid <= hi <= keys.len(),
        is_order_of(keys@, lo, mid, left@),
        is_order_of(keys@, mid, hi, right@),
    ensures
        is_order_of(keys@, lo, hi, out@),
{
    let mut out: Vec<usize> = Vec::new();
    let mut i: usize = 0;
    let mut j: usize = 0;
    while i < left.len() || j < right.len()
        invariant
            0 <= lo <= mid <= hi <= keys.len(),
            is_order_of(keys@, lo, mid, left@),
            is_order_of(keys@, mid, hi, right@),
            i <= left.len(),
            j <= right.len(),
            out.len() == i + j,
            forall|k: int| 0 <= k < out.len() ==> lo <= #[trigger] out[k] < hi,
            forall|k: int, l: int|
                0 <= k < l < out.len() ==> goes_before(
                    keys@,
                    #[trigger] out[k],
                    #[trigger] out[l],
                ),
            forall|k: int, l: int|
                0 <= k < out.len() && i <= l < left.len() ==> goes_before(
                    keys@,
                    #[trigger] out[k],
                    #[trigger] left[l],
                ),
            forall|k: int, l: int|
                0 <= k < out.len() && j <= l < right.len() ==> goes_before(
                    keys@,
                    #[trigger] out[k],
                    #[trigger] right[l],
                ),
            forall|k: int| 0 <= k < i ==> out@.contains(#[trigger] left[k]),
            forall|k: int| 0 <= k < j ==> out@.contains(#[trigger] right[k]),
        decreases left.len() - i + right.len() - j,
    {
        let ghost before = out@;
        let from_left: bool = j >= right.len() || (i < left.len() && keys[left[i]]
            <= keys[right[j]]);
        if from_left {
            assert(lo <= left[i as int] < mid);
            out.push(left[i]);
            i = i + 1;
        } else {
            assert(mid <= right[j as int] < hi);
            if i < left.len() {
                assert(lo <= left[i as int] < mid);
            }
            out.push(right[j]);
            j = j + 1;
        }
        proof {
            let x = out@.last();
            assert(out@ == before.push(x));
            assert(out@[before.len() as int] == x);
            assert forall|v: usize| before.contains(v) implies #[trigger] out@.contains(v) by {
                let k = before.index_of(v);
                assert(out@[k] == v);
            }
            assert(out@.contains(x));
            assert forall|l: int| i <= l < left.len() implies goes_before(
                keys@,
                x,
                #[trigger] left[l],
            ) by {
                assert(lo <= left[l] < mid);
                if from_left {
                    assert(goes_before(keys@, left[i - 1], left[l]));
                } else {
                    assert(l == i as int || goes_before(keys@, left[i as int], left[l]));
                }
            }
            assert forall|l: int| j <= l < right.len() implies goes_before(
                keys@,
                x,
                #[trigger] right[l],
            ) by {
                assert(mid <= right[l] < hi);
                if from_left {
                    assert(l == j as int || goes_before(keys@, right[j as int], right[l]));
                } else {
                    assert(goes_before(keys@, right[j - 1], right[l]));
                }
            }
        }
    }
    proof {
        assert forall|v: usize| lo <= v < hi implies #[trigger] out@.contains(v) by {
            if v < mid {
                assert(left@.contains(v));
                let k = left@.index_of(v);
                assert(left[k] == v);
            } else {
                assert(right@.contains(v));
                let k = right@.index_of(v);
                assert(right[k] == v);
            }
        }
    }
    out
}

/// The order of the indices from `lo` up to `hi`.
fn sort_range(keys: &Vec<u64>, lo: usize, hi: usize) -> (order: Vec<usize>)
    requires
        lo <= hi <= keys.len(),
    ensures
        is_order_of(keys@, lo as int, hi as int, order@),
    decreases hi - lo,
{
    if hi - lo == 0 {
        Vec::new()
    } else if hi - lo == 1 {
        let mut one: Vec<usize> = Vec::new();
        one.push(lo);
        assert(one@[0] == lo);
        one
    } else {
        let mid: usize = lo + (hi - lo) / 2;
        let left: Vec<usize> = sort_range(keys, lo, mid);
        let right: Vec<usize> = sort_range(keys, mid, hi);
        merge(
            keys,
            &left,
            &right,
            Ghost(lo as int),
            Ghost(mid as int),
            Ghost(hi as int),
        )
    }
}

/// The indices of `keys` by ascending key, equal keys in the order they came in.
pub fn stable_order(keys: &Vec<u64>) -> (order: Vec<usize>)
    ensures
        is_stable_order(keys@, order@),
        order.len() == keys.len(),
        order@.no_duplicates(),
        forall|k: int| 0 <= k < order.len() ==> #[trigger] order[k] < keys.len(),
        forall|k: int, l: int|
            0 <= k < l < order.len() ==> {
                let (a, b) = (#[trigger] order[k], #[trigger] order[l]);
                keys[a as int] < keys[b as int] || (keys[a as int] == keys[b as int] && a < b)
            },
{
    let order: Vec<usize> = sort_range(keys, 0, keys.len());
    proof {
        stable_orders_are_sorted(keys@, order@);
    }
    order
}

} // verus!
