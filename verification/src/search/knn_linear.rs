//! Linear k-nearest-neighbour search: the baseline every other strategy
//! agrees with.

use vstd::prelude::*;

use super::sized_heap::{pair_lt, SizedHeap};
use super::{contains_index, is_knn, key_lt};
use crate::dataset::FlatVec;
use crate::metric::wf_item;

verus! {

/// Compute the distance from the query to every item and keep the `k`
/// nearest, ascending, ties broken towards the smaller index.
pub fn search(data: &FlatVec, query: &Vec<i64>, k: usize) -> (r: Vec<(usize, u64)>)
    requires
        data.wf(),
        wf_item(query@, data.dim()),
        k >= 1,
    ensures
        is_knn(*data, query@, k as int, r@),
{
    let n = data.cardinality();
    let mut heap = SizedHeap::new(k);
    let mut i: usize = 0;
    while i < n
        invariant
            i <= n,
            n == data.n(),
            data.wf(),
            wf_item(query@, data.dim()),
            k >= 1,
            heap.inv(),
            heap.k == k,
            heap.items@.len() == (if i < k {
                i as int
            } else {
                k as int
            }),
            forall|w: int|
                0 <= w < heap.items@.len() ==> (#[trigger] heap.items@[w]).0 < i
                    && heap.items@[w].1 as int == data.dq(query@, heap.items@[w].0 as int),
            forall|j: int|
                0 <= j < i && !contains_index(heap.items@, j) ==> heap.items@.len() == k as int
                    && key_lt(
                    heap.items@.last().1 as int,
                    heap.items@.last().0 as int,
                    data.dq(query@, j),
                    j,
                ),
        decreases n - i,
    {
        let d = data.query_to_one(query, i);
        let ghost pre = heap;
        proof {
            if contains_index(heap.items@, i as int) {
                let w = choose|w: int|
                    0 <= w < heap.items@.len() && (#[trigger] heap.items@[w]).0 == i;
                assert(false);
            }
        }
        heap.push(i, d);
        proof {
            assert forall|w: int|
                0 <= w < heap.items@.len() implies (#[trigger] heap.items@[w]).0 < i + 1
                && heap.items@[w].1 as int == data.dq(query@, heap.items@[w].0 as int) by {
                let p = heap.items@[w];
                assert(heap.items@.contains(p));
                if pre.items@.contains(p) {
                    let v = choose|v: int| 0 <= v < pre.items@.len() && pre.items@[v] == p;
                    assert(pre.items@[v].0 < i);
                } else {
                    assert(p == (i, d));
                }
            }
            assert forall|j: int|
                0 <= j < i + 1 && !contains_index(heap.items@, j) implies heap.items@.len()
                == k as int && key_lt(
                heap.items@.last().1 as int,
                heap.items@.last().0 as int,
                data.dq(query@, j),
                j,
            ) by {
                if j == i {
                    assert(heap.items@.len() == k as int && pair_lt(heap.items@.last(), (i, d)));
                } else if contains_index(pre.items@, j) {
                    let w = choose|w: int|
                        0 <= w < pre.items@.len() && (#[trigger] pre.items@[w]).0 == j;
                    let p = pre.items@[w];
                    assert(pre.items@.contains(p));
                    if heap.items@.contains(p) {
                        let v = choose|v: int|
                            0 <= v < heap.items@.len() && heap.items@[v] == p;
                        assert(contains_index(heap.items@, j));
                    } else {
                        assert(heap.items@.len() == heap.k && pair_lt(heap.items@.last(), p));
                    }
                } else {
                    assert(pre.items@.len() == k as int);
                    assert(!pair_lt(pre.items@.last(), heap.items@.last()));
                    assert(key_lt(
                        pre.items@.last().1 as int,
                        pre.items@.last().0 as int,
                        data.dq(query@, j),
                        j,
                    ));
                }
            }
        }
        i = i + 1;
    }
    let r = heap.extract();
    proof {
        assert forall|i0: int, w: int|
            #![trigger r@[w], data.dq(query@, i0)]
            0 <= i0 < data.n() && !contains_index(r@, i0) && 0 <= w < r@.len() implies key_lt(
            r@[w].1 as int,
            r@[w].0 as int,
            data.dq(query@, i0),
            i0,
        ) by {
            assert(r@.len() == k as int);
            if w < r@.len() - 1 {
                assert(pair_lt(r@[w], r@[r@.len() - 1]));
            }
            assert(r@.last() == r@[r@.len() - 1]);
        }
    }
    r
}

} // verus!
