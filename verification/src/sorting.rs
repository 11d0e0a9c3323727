//! A stable ordering of positions by an integer key, used where a store
//! lists its rows by time or by index.
use vstd::prelude::*;

verus! {

/// Position `a` comes before position `b`: by key, ascending or
/// descending, and by position where the keys are equal.
pub open spec fn goes_before(keys: Seq<i64>, descending: bool, a: int, b: int) -> bool {
    if keys[a] == keys[b] {
        a < b
    } else if descending {
        keys[a] > keys[b]
    } else {
        keys[a] < keys[b]
    }
}

/// Position `p` occurs in `order`.
pub open spec fn listed(order: Seq<usize>, p: int) -> bool {
    exists|i: int| 0 <= i < order.len() && #[trigger] order[i] == p
}

/// `order` lists every position of `keys` once, each before the ones it
/// goes before.
pub open spec fn sorted_positions(keys: Seq<i64>, descending: bool, order: Seq<usize>) -> bool {
    &&& order.len() == keys.len()
    &&& forall|i: int| 0 <= i < order.len() ==> #[trigger] order[i] < keys.len()
    &&& forall|p: int| 0 <= p < keys.len() ==> #[trigger] listed(order, p)
    &&& forall|i: int, j: int| 0 <= i < j < order.len() ==> goes_before(keys, descending, order[i] as int, order[j] as int)
}

fn precedes(keys: &Vec<i64>, descending: bool, a: usize, b: usize) -> (r: bool)
    requires
        a < keys@.len(),
        b < keys@.len(),
    ensures
        r == goes_before(keys@, descending, a as int, b as int),
{
    if keys[a] == keys[b] {
        a < b
    } else if descending {
        keys[a] > keys[b]
    } else {
        keys[a] < keys[b]
    }
}

/// The positions of `keys` in order of their keys, ascending or
/// descending; equal keys keep their order.
pub fn order_by_key(keys: &Vec<i64>, descending: bool) -> (r: Vec<usize>)
    ensures
        sorted_positions(keys@, descending, r@),
{
    let n = keys.len();
    let mut r: Vec<usize> = Vec::new();
    let mut k: usize = 0;
    while k < n
        invariant
            n == keys@.len(),
            k <= n,
            r@.len() == k,
            forall|i: int| 0 <= i < r@.len() ==> #[trigger] r@[i] < k,
            forall|p: int| 0 <= p < k ==> #[trigger] listed(r@, p),
            forall|i: int, j: int| 0 <= i < j < r@.len() ==> goes_before(keys@, descending, r@[i] as int, r@[j] as int),
        decreases n - k,
    {
        let mut p: usize = 0;
        while p < r.len() && precedes(keys, descending, r[p], k)
            invariant
                n == keys@.len(),
                k < n,
                p <= r@.len(),
                forall|i: int| 0 <= i < r@.len() ==> #[trigger] r@[i] < k,
                forall|i: int| 0 <= i < p ==> goes_before(keys@, descending, #[trigger] r@[i] as int, k as int),
            decreases r@.len() - p,
        {
            p = p + 1;
        }
        proof {
            if p < r@.len() {
                assert(goes_before(keys@, descending, k as int, r@[p as int] as int));
            }
        }
        let ghost before = r@;
        r.insert(p, k);
        proof {
            assert forall|i: int| 0 <= i < r@.len() implies #[trigger] r@[i] < k + 1 by {
                if i < p {
                    assert(r@[i] == before[i]);
                } else if i > p {
                    assert(r@[i] == before[i - 1]);
                }
            }
            assert forall|q: int| 0 <= q < k + 1 implies #[trigger] listed(r@, q) by {
                if q == k {
                    assert(r@[p as int] == q);
                } else {
                    assert(listed(before, q));
                    let i0 = choose|i: int| 0 <= i < before.len() && #[trigger] before[i] == q;
                    if i0 < p {
                        assert(r@[i0] == q);
                    } else {
                        assert(r@[i0 + 1] == q);
                    }
                }
            }
            assert forall|i: int, j: int| 0 <= i < j < r@.len()
                implies goes_before(keys@, descending, r@[i] as int, r@[j] as int) by {
                if j < p {
                    assert(r@[i] == before[i] && r@[j] == before[j]);
                } else if j == p {
                    assert(r@[i] == before[i]);
                } else if i < p {
                    assert(r@[i] == before[i] && r@[j] == before[j - 1]);
                    if p < before.len() {
                        assert(goes_before(keys@, descending, k as int, before[p as int] as int));
                        if j - 1 > p {
                            assert(goes_before(keys@, descending, before[p as int] as int, before[j - 1] as int));
                        }
                    }
                } else if i == p {
                    assert(r@[j] == before[j - 1]);
                    assert(goes_before(keys@, descending, k as int, before[p as int] as int));
                    if j - 1 > p {
                        assert(goes_before(keys@, descending, before[p as int] as int, before[j - 1] as int));
                    }
                } else {
                    assert(r@[i] == before[i - 1] && r@[j] == before[j - 1]);
                }
            }
        }
        k = k + 1;
    }
    r
}

} // verus!
