//! Top-k selection for search: ordinals ranked by score key, highest first,
//! ties kept in ordinal order.

use vstd::prelude::*;

verus! {

/// Ordinal `a` ranks ahead of ordinal `b`: a higher key, or an equal key and
/// a smaller ordinal.
pub open spec fn ranks_before(keys: Seq<u32>, a: int, b: int) -> bool {
    keys[a] > keys[b] || (keys[a] == keys[b] && a < b)
}

/// `r` lists the best `min(k, keys.len())` ordinals of `keys` in rank order.
pub open spec fn is_top_k(keys: Seq<u32>, k: int, r: Seq<usize>) -> bool {
    &&& r.len() == if k < keys.len() { k } else { keys.len() as int }
    &&& forall|j: int| 0 <= j < r.len() ==> #[trigger] r[j] < keys.len()
    &&& forall|i: int, j: int| 0 <= i < j < r.len() ==> ranks_before(keys, #[trigger] r[i] as int, #[trigger] r[j] as int)
    &&& forall|o: int, j: int|
        0 <= o < keys.len() && 0 <= j < r.len() && !r.contains(o as usize) ==> #[trigger] ranks_before(
            keys,
            r[j] as int,
            o,
        )
}

/// Ordinal `x` appears among the first `n` entries of `order`.
spec fn placed(order: Seq<usize>, n: int, x: int) -> bool {
    exists|p: int| 0 <= p < n && order[p] == x
}

fn ranks_before_exec(keys: &[u32], a: usize, b: usize) -> (r: bool)
    requires
        a < keys@.len(),
        b < keys@.len(),
    ensures
        r == ranks_before(keys@, a as int, b as int),
{
    keys[a] > keys[b] || (keys[a] == keys[b] && a < b)
}

/// The ordinals of the `min(k, keys.len())` highest keys, highest first; equal
/// keys keep ordinal order. `k == 0` gives an empty list.
pub fn rank_top_k(keys: &[u32], k: usize) -> (r: Vec<usize>)
    ensures
        is_top_k(keys@, k as int, r@),
{
    let n = keys.len();
    let m = if k < n { k } else { n };
    let mut order: Vec<usize> = Vec::with_capacity(n);
    let mut o: usize = 0;
    while o < n
        invariant
            n == keys@.len(),
            o <= n,
            order@.len() == o,
            forall|p: int| 0 <= p < o ==> #[trigger] order@[p] == p,
        decreases n - o,
    {
        order.push(o);
        o = o + 1;
    }
    proof {
        assert forall|x: int| 0 <= x < n implies #[trigger] placed(order@, n as int, x) by {
            assert(order@[x] == x);
        }
    }
    let mut t: usize = 0;
    while t < m
        invariant
            n == keys@.len(),
            m <= n,
            t <= m,
            order@.len() == n,
            forall|p: int| 0 <= p < n ==> #[trigger] order@[p] < n,
            forall|x: int| 0 <= x < n ==> #[trigger] placed(order@, n as int, x),
            forall|p: int, q: int| 0 <= p < q < n ==> #[trigger] order@[p] != #[trigger] order@[q],
            forall|i: int, j: int| 0 <= i < j < t ==> ranks_before(keys@, #[trigger] order@[i] as int, #[trigger] order@[j] as int),
            forall|i: int, p: int| 0 <= i < t <= p < n ==> ranks_before(keys@, #[trigger] order@[i] as int, #[trigger] order@[p] as int),
        decreases m - t,
    {
        let mut best: usize = t;
        let mut p: usize = t + 1;
        while p < n
            invariant
                n == keys@.len(),
                order@.len() == n,
                forall|q: int| 0 <= q < n ==> #[trigger] order@[q] < n,
                forall|p1: int, q: int| 0 <= p1 < q < n ==> #[trigger] order@[p1] != #[trigger] order@[q],
                t < n,
                t <= best < n,
                best < p <= n,
                forall|q: int| t <= q < p && q != best ==> ranks_before(keys@, order@[best as int] as int, #[trigger] order@[q] as int),
            decreases n - p,
        {
            if ranks_before_exec(keys, order[p], order[best]) {
                proof {
                    assert forall|q: int| t <= q < p + 1 && q != p implies ranks_before(keys@, order@[p as int] as int, #[trigger] order@[q] as int) by {
                        if q != best {
                            assert(ranks_before(keys@, order@[best as int] as int, order@[q] as int));
                        }
                    }
                }
                best = p;
            } else {
                proof {
                    if best < p {
                        assert(order@[best as int] != order@[p as int]);
                    }
                }
            }
            p = p + 1;
        }
        let ghost prev = order@;
        let chosen = order[best];
        let displaced = order[t];
        order.set(t, chosen);
        order.set(best, displaced);
        proof {
            assert forall|p1: int, q: int| 0 <= p1 < q < n implies #[trigger] order@[p1] != #[trigger] order@[q] by {
                let a = if p1 == t { best as int } else if p1 == best { t as int } else { p1 };
                let b = if q == t { best as int } else if q == best { t as int } else { q };
                assert(order@[p1] == prev[a]);
                assert(order@[q] == prev[b]);
                assert(a != b);
                if a < b {
                    assert(prev[a] != prev[b]);
                } else {
                    assert(prev[b] != prev[a]);
                }
            }
            assert forall|x: int| 0 <= x < n implies #[trigger] placed(order@, n as int, x) by {
                assert(placed(prev, n as int, x));
                let q0 = choose|q: int| 0 <= q < n && prev[q] == x;
                if q0 == t {
                    assert(order@[best as int] == x);
                } else if q0 == best {
                    assert(order@[t as int] == x);
                } else {
                    assert(order@[q0] == x);
                }
            }
            assert forall|i: int, j: int| 0 <= i < j < t + 1 implies ranks_before(keys@, #[trigger] order@[i] as int, #[trigger] order@[j] as int) by {
                if j == t {
                    assert(order@[i] == prev[i]);
                    assert(ranks_before(keys@, prev[i] as int, prev[best as int] as int));
                }
            }
            assert forall|i: int, q: int| 0 <= i < t + 1 <= q < n implies ranks_before(keys@, #[trigger] order@[i] as int, #[trigger] order@[q] as int) by {
                if i == t {
                    if q == best {
                        assert(order@[q] == prev[t as int]);
                        if best != t {
                            assert(ranks_before(keys@, prev[best as int] as int, prev[t as int] as int));
                        }
                    } else {
                        assert(order@[q] == prev[q]);
                        assert(ranks_before(keys@, prev[best as int] as int, prev[q] as int));
                    }
                } else {
                    assert(order@[i] == prev[i]);
                    if q == best {
                        assert(order@[q] == prev[t as int]);
                        assert(ranks_before(keys@, prev[i] as int, prev[t as int] as int));
                    } else {
                        assert(order@[q] == prev[q]);
                        assert(ranks_before(keys@, prev[i] as int, prev[q] as int));
                    }
                }
            }
        }
        t = t + 1;
    }
    let ghost full = order@;
    order.truncate(m);
    proof {
        let r = order@;
        assert(r =~= full.take(m as int));
        assert forall|x: int, j: int|
            0 <= x < n && 0 <= j < r.len() && !r.contains(x as usize) implies #[trigger] ranks_before(
                keys@,
                r[j] as int,
                x,
            ) by {
            assert(placed(full, n as int, x));
            let q = choose|q: int| 0 <= q < n && full[q] == x;
            if q < m {
                assert(r[q] == x);
                assert(r.contains(x as usize));
            }
            assert(ranks_before(keys@, full[j] as int, full[q] as int));
        }
    }
    order
}

/// Search results come highest score first: the ranked ordinals have
/// non-increasing keys, there are `min(k, n)` of them, and none when `k == 0`.
pub proof fn lemma_top_k_order(keys: Seq<u32>, k: int, r: Seq<usize>)
    requires
        0 <= k,
        is_top_k(keys, k, r),
    ensures
        r.len() == if k < keys.len() { k } else { keys.len() as int },
        k == 0 ==> r.len() == 0,
        forall|i: int, j: int| 0 <= i < j < r.len() ==> keys[#[trigger] r[i] as int] >= keys[#[trigger] r[j] as int],
{
    assert forall|i: int, j: int| 0 <= i < j < r.len() implies keys[#[trigger] r[i] as int] >= keys[#[trigger] r[j] as int] by {
        assert(ranks_before(keys, r[i] as int, r[j] as int));
    }
}

} // verus!
