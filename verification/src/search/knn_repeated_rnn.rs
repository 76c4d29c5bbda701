//! k-nearest-neighbour search by range searches of growing radius.
//!
//! The radius starts at a fraction of the tree radius and doubles until at
//! least `k` items fall inside it; the `k` nearest of those are the `k`
//! nearest overall, because a range search misses nothing within its radius.

use vstd::prelude::*;

use super::sized_heap::{pair_lt, SizedHeap};
use super::{contains_index, is_knn, is_rnn, key_lt, knn_linear, lemma_cover_len, rnn};
use crate::cluster::Ball;
use crate::dataset::FlatVec;
use crate::metric::{lemma_dist_bound, wf_item, MAX_DIST};

verus! {

/// Search by repeated range searches: double the radius until `k` items are
/// within it, then keep the `k` nearest.
pub fn search(data: &FlatVec, root: &Ball, query: &Vec<i64>, k: usize) -> (r: Vec<(usize, u64)>)
    requires
        data.wf(),
        root.wf(*data),
        wf_item(query@, data.dim()),
        root.idx().len() == data.n(),
        forall|t: int| 0 <= t < data.n() ==> (#[trigger] root.idx()[t]) == t,
        k >= 1,
    ensures
        is_knn(*data, query@, k as int, r@),
{
    let n = data.cardinality();
    if k >= n {
        return knn_linear::search(data, query, k);
    }
    let mut rho: u64 = root.radius() / (n as u64) + 1;
    let mut hits = rnn::search(data, root, query, rho);
    while hits.len() < k
        invariant
            data.wf(),
            root.wf(*data),
            wf_item(query@, data.dim()),
            root.idx().len() == data.n(),
            forall|t: int| 0 <= t < data.n() ==> (#[trigger] root.idx()[t]) == t,
            1 <= k < n,
            n == data.n(),
            1 <= rho <= 2 * MAX_DIST,
            is_rnn(*data, query@, rho as int, hits@),
        decreases 2 * MAX_DIST - rho,
    {
        proof {
            if rho > MAX_DIST {
                assert forall|i: int| 0 <= i < n implies contains_index(hits@, i) by {
                    lemma_dist_bound(data.metric.kind, query@, data.view_items()[i]);
                    assert(data.dq(query@, i) <= rho as int);
                }
                lemma_cover_len(hits@, n as int);
                assert(false);
            }
        }
        rho = rho * 2;
        hits = rnn::search(data, root, query, rho);
    }
    let mut heap = SizedHeap::new(k);
    let mut w: usize = 0;
    while w < hits.len()
        invariant
            w <= hits@.len(),
            data.wf(),
            wf_item(query@, data.dim()),
            1 <= k < n,
            n == data.n(),
            is_rnn(*data, query@, rho as int, hits@),
            heap.inv(),
            heap.k == k,
            heap.items@.len() == (if w < k {
                w as int
            } else {
                k as int
            }),
            forall|v: int|
                0 <= v < heap.items@.len() ==> (#[trigger] heap.items@[v]).0 < data.n()
                    && heap.items@[v].1 as int == data.dq(query@, heap.items@[v].0 as int)
                    && heap.items@[v].1 <= rho,
            forall|v: int|
                0 <= v < heap.items@.len() ==> exists|w0: int|
                    0 <= w0 < w && (#[trigger] heap.items@[v]).0 == hits@[w0].0,
            forall|w0: int|
                0 <= w0 < w && !contains_index(heap.items@, (#[trigger] hits@[w0]).0 as int)
                    ==> heap.items@.len() == k as int && pair_lt(heap.items@.last(), hits@[w0]),
        decreases hits@.len() - w,
    {
        let p = hits[w];
        let ghost pre = heap;
        proof {
            if contains_index(heap.items@, p.0 as int) {
                let v = choose|v: int|
                    0 <= v < heap.items@.len() && (#[trigger] heap.items@[v]).0 == p.0;
                let w0 = choose|w0: int|
                    0 <= w0 < w && (#[trigger] heap.items@[v]).0 == hits@[w0].0;
                assert(hits@[w0].0 == hits@[w as int].0);
                assert(false);
            }
        }
        heap.push(p.0, p.1);
        proof {
            assert forall|v: int| 0 <= v < heap.items@.len() implies (#[trigger] heap.items@[v]).0
                < data.n() && heap.items@[v].1 as int == data.dq(query@, heap.items@[v].0 as int)
                && heap.items@[v].1 <= rho && exists|w0: int|
                0 <= w0 < w + 1 && (#[trigger] heap.items@[v]).0 == hits@[w0].0 by {
                let q0 = heap.items@[v];
                assert(heap.items@.contains(q0));
                if pre.items@.contains(q0) {
                    let v0 = choose|v0: int|
                        0 <= v0 < pre.items@.len() && pre.items@[v0] == q0;
                    assert(exists|w0: int|
                        0 <= w0 < w && (#[trigger] pre.items@[v0]).0 == hits@[w0].0);
                    let w0 = choose|w0: int|
                        0 <= w0 < w && (#[trigger] pre.items@[v0]).0 == hits@[w0].0;
                    assert(0 <= w0 < w + 1 && q0.0 == hits@[w0].0);
                } else {
                    assert(q0 == p);
                    assert(q0.0 == hits@[w as int].0);
                }
            }
            assert forall|w0: int|
                0 <= w0 < w + 1 && !contains_index(
                    heap.items@,
                    (#[trigger] hits@[w0]).0 as int,
                ) implies heap.items@.len() == k as int && pair_lt(
                heap.items@.last(),
                hits@[w0],
            ) by {
                let q0 = hits@[w0];
                if w0 == w as int {
                    assert(heap.items@.len() == heap.k && pair_lt(heap.items@.last(), (p.0, p.1)));
                } else if contains_index(pre.items@, q0.0 as int) {
                    let v = choose|v: int|
                        0 <= v < pre.items@.len() && (#[trigger] pre.items@[v]).0 == q0.0;
                    assert(pre.items@[v].1 as int == data.dq(query@, q0.0 as int));
                    assert(q0.1 as int == data.dq(query@, q0.0 as int));
                    assert(pre.items@[v] == q0);
                    assert(pre.items@.contains(q0));
                    if heap.items@.contains(q0) {
                        let v2 = choose|v2: int|
                            0 <= v2 < heap.items@.len() && heap.items@[v2] == q0;
                        assert(contains_index(heap.items@, q0.0 as int));
                        assert(false);
                    }
                } else {
                    assert(pre.items@.len() == k as int);
                    assert(pair_lt(pre.items@.last(), q0));
                    assert(!pair_lt(pre.items@.last(), heap.items@.last()));
                }
            }
        }
        w = w + 1;
    }
    let r = heap.extract();
    proof {
        assert(r@.len() == k as int);
        assert forall|i0: int, v: int|
            #![trigger r@[v], data.dq(query@, i0)]
            0 <= i0 < data.n() && !contains_index(r@, i0) && 0 <= v < r@.len() implies key_lt(
            r@[v].1 as int,
            r@[v].0 as int,
            data.dq(query@, i0),
            i0,
        ) by {
            if contains_index(hits@, i0) {
                let w0 = choose|w0: int| 0 <= w0 < hits@.len() && (#[trigger] hits@[w0]).0 == i0;
                assert(pair_lt(r@.last(), hits@[w0]));
                if v < r@.len() - 1 {
                    assert(pair_lt(r@[v], r@[r@.len() - 1]));
                }
                assert(r@.last() == r@[r@.len() - 1]);
                assert(hits@[w0].1 as int == data.dq(query@, i0));
            } else {
                assert(data.dq(query@, i0) > rho as int);
                assert(r@[v].1 <= rho);
            }
        }
    }
    r
}

} // verus!
