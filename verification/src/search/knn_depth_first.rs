//! Depth-first best-first k-nearest-neighbour search.
//!
//! The tree is descended with a running collection of the `k` best hits.
//! A subtree is pruned when the collection is full and even the nearest
//! possible member of the subtree would lie beyond the current worst hit.

use vstd::prelude::*;

use super::sized_heap::SizedHeap;
use super::{
    contains_index, covered, evolves, heap_valid, is_knn, lemma_covered_persists,
    lemma_evolves_trans, lemma_heap_is_knn,
};
use crate::cluster::Ball;
use crate::dataset::FlatVec;
use crate::metric::wf_item;

verus! {

/// Descend the subtree of `node`, keeping the `k` best hits seen so far.
/// Every member of the node ends up kept or covered.
fn descend(data: &FlatVec, node: &Ball, query: &Vec<i64>, heap: &mut SizedHeap)
    requires
        data.wf(),
        node.wf(*data),
        wf_item(query@, data.dim()),
        old(heap).inv(),
        heap_valid(*data, query@, *old(heap)),
        forall|t: int|
            0 <= t < node.idx().len() ==> !contains_index(
                old(heap).items@,
                (#[trigger] node.idx()[t]) as int,
            ),
    ensures
        final(heap).inv(),
        heap_valid(*data, query@, *final(heap)),
        evolves(*old(heap), *final(heap)),
        forall|p: (usize, u64)|
            final(heap).items@.contains(p) ==> old(heap).items@.contains(p) || node.idx().contains(
                p.0,
            ),
        forall|t: int|
            0 <= t < node.idx().len() ==> covered(
                *data,
                query@,
                *final(heap),
                (#[trigger] node.idx()[t]) as int,
            ),
    decreases *node,
{
    let delta = node.distance_to_center(data, query);
    if heap.len() == heap.k {
        let worst = heap.peek_worst();
        if delta > node.radius() && delta - node.radius() > worst.1 {
            proof {
                assert forall|t: int| 0 <= t < node.idx().len() implies covered(
                    *data,
                    query@,
                    *heap,
                    (#[trigger] node.idx()[t]) as int,
                ) by {
                    node.lemma_member_query_bounds(*data, query@, t);
                }
            }
            return ;
        }
    }
    if node.is_leaf() {
        super::absorb_members(data, node, query, heap);
    } else {
        let nc = node.children.len();
        let ghost h0 = *heap;
        let mut c: usize = 0;
        while c < nc
            invariant
                c <= nc,
                nc == node.children@.len(),
                nc > 0,
                data.wf(),
                node.wf(*data),
                wf_item(query@, data.dim()),
                forall|t0: int|
                    0 <= t0 < node.idx().len() ==> !contains_index(
                        h0.items@,
                        (#[trigger] node.idx()[t0]) as int,
                    ),
                heap.inv(),
                heap_valid(*data, query@, *heap),
                evolves(h0, *heap),
                h0.inv(),
                heap_valid(*data, query@, h0),
                forall|p: (usize, u64)|
                    heap.items@.contains(p) ==> h0.items@.contains(p) || exists|cc: int|
                        0 <= cc < c && (#[trigger] node.children@[cc].2.idx()).contains(p.0),
                forall|cc: int, t0: int|
                    #![trigger node.children@[cc].2.idx()[t0]]
                    0 <= cc < c && 0 <= t0 < node.children@[cc].2.idx().len() ==> covered(
                        *data,
                        query@,
                        *heap,
                        node.children@[cc].2.idx()[t0] as int,
                    ),
            decreases nc - c,
        {
            proof {
                node.lemma_wf_child(*data, c as int);
                assert forall|t0: int|
                    0 <= t0 < node.children@[c as int].2.idx().len() implies !contains_index(
                    heap.items@,
                    (#[trigger] node.children@[c as int].2.idx()[t0]) as int,
                ) by {
                    let x = node.children@[c as int].2.idx()[t0];
                    if contains_index(heap.items@, x as int) {
                        let v = choose|v: int|
                            0 <= v < heap.items@.len() && (#[trigger] heap.items@[v]).0 == x;
                        let p = heap.items@[v];
                        assert(heap.items@.contains(p));
                        if h0.items@.contains(p) {
                            node.lemma_member_in_some_child(*data, x);
                            assert(node.idx().contains(x));
                            let tn = choose|tn: int|
                                0 <= tn < node.idx().len() && (#[trigger] node.idx()[tn]) == x;
                            let v0 = choose|v0: int|
                                0 <= v0 < h0.items@.len() && h0.items@[v0] == p;
                            assert(contains_index(h0.items@, node.idx()[tn] as int));
                            assert(false);
                        } else {
                            let cc = choose|cc: int|
                                0 <= cc < c && (#[trigger] node.children@[cc].2.idx()).contains(
                                    p.0,
                                );
                            node.lemma_children_disjoint(*data, cc, c as int, x);
                            assert(false);
                        }
                    }
                }
            }
            let ghost pre = *heap;
            descend(data, &node.children[c].2, query, heap);
            proof {
                lemma_evolves_trans(h0, pre, *heap);
                assert forall|p: (usize, u64)| heap.items@.contains(p) implies h0.items@.contains(
                    p,
                ) || exists|cc: int|
                    0 <= cc < c + 1 && (#[trigger] node.children@[cc].2.idx()).contains(p.0) by {
                    if pre.items@.contains(p) {
                        if !h0.items@.contains(p) {
                            let cc = choose|cc: int|
                                0 <= cc < c && (#[trigger] node.children@[cc].2.idx()).contains(
                                    p.0,
                                );
                            assert(0 <= cc < c + 1 && node.children@[cc].2.idx().contains(p.0));
                        }
                    } else {
                        assert(node.children@[c as int].2.idx().contains(p.0));
                    }
                }
                assert forall|cc: int, t0: int|
                    #![trigger node.children@[cc].2.idx()[t0]]
                    0 <= cc < c + 1 && 0 <= t0 < node.children@[cc].2.idx().len() implies covered(
                    *data,
                    query@,
                    *heap,
                    node.children@[cc].2.idx()[t0] as int,
                ) by {
                    if cc < c {
                        lemma_covered_persists(
                            *data,
                            query@,
                            pre,
                            *heap,
                            node.children@[cc].2.idx()[t0] as int,
                        );
                    }
                }
            }
            c = c + 1;
        }
        proof {
            assert forall|t0: int| 0 <= t0 < node.idx().len() implies covered(
                *data,
                query@,
                *heap,
                (#[trigger] node.idx()[t0]) as int,
            ) by {
                let x = node.idx()[t0];
                node.lemma_member_in_some_child(*data, x);
                assert(node.idx().contains(x));
                let cc = choose|cc: int|
                    0 <= cc < node.children@.len() && (#[trigger] node.children@[cc].2.idx()).contains(
                        x,
                    );
                let tc = choose|tc: int|
                    0 <= tc < node.children@[cc].2.idx().len() && (
                    #[trigger] node.children@[cc].2.idx()[tc]) == x;
                assert(covered(*data, query@, *heap, node.children@[cc].2.idx()[tc] as int));
            }
            assert forall|p: (usize, u64)| heap.items@.contains(p) implies h0.items@.contains(p)
                || node.idx().contains(p.0) by {
                if !h0.items@.contains(p) {
                    let cc = choose|cc: int|
                        0 <= cc < nc && (#[trigger] node.children@[cc].2.idx()).contains(p.0);
                    node.lemma_member_in_some_child(*data, p.0);
                }
            }
        }
    }
}

/// Depth-first k-nearest-neighbour search over the whole dataset.
pub fn search(data: &FlatVec, root: &Ball, query: &Vec<i64>, k: usize) -> (r: Vec<(usize, u64)>)
    requires
        data.wf(),
        root.wf(*data),
        wf_item(query@, data.dim()),
        root.idx().len() == data.n(),
        forall|t: int| 0 <= t < data.n() ==> (#[trigger] root.idx()[t]) == t,
        k >= 1,
    ensures
        is_knn(*data, query@, k as int, r@),
{
    let mut heap = SizedHeap::new(k);
    descend(data, root, query, &mut heap);
    proof {
        assert forall|i: int| 0 <= i < data.n() implies covered(*data, query@, heap, i) by {
            assert(root.idx()[i] == i as usize);
            assert(covered(*data, query@, heap, root.idx()[i] as int));
        }
        lemma_heap_is_knn(*data, query@, k as int, heap);
    }
    heap.extract()
}

} // verus!
