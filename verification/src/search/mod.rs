//! Range search and k-nearest-neighbour search over a ball tree.
//!
//! All algorithms share two exact result descriptions.  A range search
//! returns, for radius `rho`, exactly the items within `rho` of the query
//! (`is_rnn`).  A k-nearest-neighbour search returns the `k` items of
//! smallest distance, ties broken towards the smaller index, in ascending
//! order (`is_knn`); that description has exactly one satisfying result, so
//! all the k-NN strategies agree with each other.

use vstd::prelude::*;

use crate::cluster::Ball;
use crate::dataset::FlatVec;
use crate::metric::wf_item;

pub mod knn_breadth_first;
pub mod knn_depth_first;
pub mod knn_linear;
pub mod knn_repeated_rnn;
pub mod rnn;
pub mod sized_heap;

verus! {

/// Strict order on (distance, index) keys: nearer first, ties broken towards
/// the smaller index.
pub open spec fn key_lt(d1: int, i1: int, d2: int, i2: int) -> bool {
    d1 < d2 || (d1 == d2 && i1 < i2)
}

/// Whether some hit in `r` carries item index `i`.
pub open spec fn contains_index(r: Seq<(usize, u64)>, i: int) -> bool {
    exists|w: int| 0 <= w < r.len() && (#[trigger] r[w]).0 == i
}

/// An exact range-search result: every hit is a distinct item within `rho`
/// of the query, with its true distance, and every such item is a hit.
pub open spec fn is_rnn(data: FlatVec, q: Seq<i64>, rho: int, r: Seq<(usize, u64)>) -> bool {
    &&& forall|w: int|
        0 <= w < r.len() ==> (#[trigger] r[w]).0 < data.n() && r[w].1 as int == data.dq(
            q,
            r[w].0 as int,
        ) && r[w].1 as int <= rho
    &&& forall|i: int| 0 <= i < data.n() && data.dq(q, i) <= rho ==> contains_index(r, i)
    &&& forall|w1: int, w2: int|
        0 <= w1 < w2 < r.len() ==> (#[trigger] r[w1]).0 != (#[trigger] r[w2]).0
}

/// An exact k-nearest-neighbour result: `min(k, n)` hits carrying true
/// distances, strictly ascending by (distance, index), and every item not
/// among the hits compares at least as far as every hit.
pub open spec fn is_knn(data: FlatVec, q: Seq<i64>, k: int, r: Seq<(usize, u64)>) -> bool {
    &&& r.len() == (if k <= data.n() as int {
        k
    } else {
        data.n() as int
    })
    &&& forall|w: int|
        0 <= w < r.len() ==> (#[trigger] r[w]).0 < data.n() && r[w].1 as int == data.dq(
            q,
            r[w].0 as int,
        )
    &&& forall|w1: int, w2: int|
        0 <= w1 < w2 < r.len() ==> key_lt(
            (#[trigger] r[w1]).1 as int,
            r[w1].0 as int,
            (#[trigger] r[w2]).1 as int,
            r[w2].0 as int,
        )
    &&& forall|i: int, w: int|
        #![trigger r[w], data.dq(q, i)]
        0 <= i < data.n() && !contains_index(r, i) && 0 <= w < r.len() ==> key_lt(
            r[w].1 as int,
            r[w].0 as int,
            data.dq(q, i),
            i,
        )
}

/// The item indices carried by a result.
pub open spec fn hits_idx(r: Seq<(usize, u64)>) -> Seq<usize> {
    r.map_values(|p: (usize, u64)| p.0)
}

/// In a k-nearest-neighbour result the indices are pairwise distinct.
pub proof fn lemma_knn_distinct(data: FlatVec, q: Seq<i64>, k: int, r: Seq<(usize, u64)>)
    requires
        is_knn(data, q, k, r),
    ensures
        hits_idx(r).no_duplicates(),
        r.no_duplicates(),
{
    assert forall|w1: int, w2: int|
        0 <= w1 < w2 < r.len() implies (#[trigger] r[w1]).0 != (#[trigger] r[w2]).0 by {
        assert(key_lt(r[w1].1 as int, r[w1].0 as int, r[w2].1 as int, r[w2].0 as int));
    }
    assert forall|w1: int, w2: int|
        0 <= w1 < w2 < hits_idx(r).len() implies hits_idx(r)[w1] != hits_idx(r)[w2] by {
        assert(hits_idx(r)[w1] == r[w1].0);
        assert(hits_idx(r)[w2] == r[w2].0);
    }
}

/// A k-nearest-neighbour result is unique: any two sequences satisfying
/// `is_knn` for the same dataset, query and `k` are equal.  Since each search
/// strategy ensures `is_knn` of its result, all strategies agree.
pub proof fn lemma_knn_unique(
    data: FlatVec,
    q: Seq<i64>,
    k: int,
    r1: Seq<(usize, u64)>,
    r2: Seq<(usize, u64)>,
)
    requires
        is_knn(data, q, k, r1),
        is_knn(data, q, k, r2),
    ensures
        r1 == r2,
{
    lemma_knn_distinct(data, q, k, r1);
    lemma_knn_distinct(data, q, k, r2);
    assert forall|i: int| contains_index(r1, i) implies contains_index(r2, i) by {
        lemma_knn_one_direction(data, q, k, r1, r2, i);
    }
    assert forall|i: int| contains_index(r2, i) implies contains_index(r1, i) by {
        lemma_knn_one_direction(data, q, k, r2, r1, i);
    }
    r1.lemma_multiset_has_no_duplicates();
    r2.lemma_multiset_has_no_duplicates();
    assert forall|p: (usize, u64)| true implies r1.to_multiset().count(p) == r2.to_multiset().count(
        p,
    ) by {
        broadcast use vstd::seq_lib::group_to_multiset_ensures;

        if r1.contains(p) {
            let w = choose|w: int| 0 <= w < r1.len() && r1[w] == p;
            assert(contains_index(r1, p.0 as int));
            assert(contains_index(r2, p.0 as int));
            let w2 = choose|w2: int| 0 <= w2 < r2.len() && (#[trigger] r2[w2]).0 == p.0;
            assert(r2[w2].1 == p.1);
            assert(r2[w2] == p);
            assert(r2.contains(p));
            assert(r1.to_multiset().count(p) == 1);
            assert(r2.to_multiset().count(p) == 1);
        } else if r2.contains(p) {
            let w = choose|w: int| 0 <= w < r2.len() && r2[w] == p;
            assert(contains_index(r2, p.0 as int));
            assert(contains_index(r1, p.0 as int));
            let w1 = choose|w1: int| 0 <= w1 < r1.len() && (#[trigger] r1[w1]).0 == p.0;
            assert(r1[w1] == p);
            assert(r1.contains(p));
            assert(false);
        } else {
            assert(r1.to_multiset().count(p) == 0);
            assert(r2.to_multiset().count(p) == 0);
        }
    }
    let leq = |a: (usize, u64), b: (usize, u64)|
        key_lt(a.1 as int, a.0 as int, b.1 as int, b.0 as int) || a == b;
    assert(vstd::relations::total_ordering(leq));
    assert(vstd::relations::sorted_by(r1, leq));
    assert(vstd::relations::sorted_by(r2, leq));
    assert(r1.to_multiset() =~= r2.to_multiset());
    vstd::seq_lib::lemma_sorted_unique(r1, r2, leq);
    assert(r1 =~= r2);
}

/// Helper for `lemma_knn_unique`: an index appearing in one exact result
/// appears in the other.
proof fn lemma_knn_one_direction(
    data: FlatVec,
    q: Seq<i64>,
    k: int,
    r1: Seq<(usize, u64)>,
    r2: Seq<(usize, u64)>,
    i: int,
)
    requires
        is_knn(data, q, k, r1),
        is_knn(data, q, k, r2),
        contains_index(r1, i),
    ensures
        contains_index(r2, i),
{
    lemma_knn_distinct(data, q, k, r1);
    lemma_knn_distinct(data, q, k, r2);
    if !contains_index(r2, i) {
        let w1 = choose|w: int| 0 <= w < r1.len() && (#[trigger] r1[w]).0 == i;
        assert(0 <= i < data.n());
        if forall|w: int| 0 <= w < r2.len() ==> contains_index(r1, (#[trigger] r2[w]).0 as int) {
            let s1 = hits_idx(r1).to_set();
            let s2 = hits_idx(r2).to_set();
            hits_idx(r1).unique_seq_to_set();
            hits_idx(r2).unique_seq_to_set();
            assert forall|x: usize| s2.contains(x) implies s1.contains(x) by {
                let w = choose|w: int| 0 <= w < hits_idx(r2).len() && hits_idx(r2)[w] == x;
                assert(r2[w].0 == x);
                assert(contains_index(r1, x as int));
                let v = choose|v: int| 0 <= v < r1.len() && (#[trigger] r1[v]).0 == x;
                assert(hits_idx(r1)[v] == x);
            }
            vstd::set_lib::lemma_subset_equality(s2, s1);
            assert(hits_idx(r1)[w1] == r1[w1].0);
            assert(s1.contains(r1[w1].0));
            assert(s2.contains(r1[w1].0));
            let v = choose|v: int| 0 <= v < hits_idx(r2).len() && hits_idx(r2)[v] == r1[w1].0;
            assert(r2[v].0 == i);
            assert(false);
        } else {
            let w2 = choose|w: int|
                0 <= w < r2.len() && !contains_index(r1, (#[trigger] r2[w]).0 as int);
            let j = r2[w2].0;
            assert(key_lt(r1[w1].1 as int, r1[w1].0 as int, data.dq(q, j as int), j as int));
            assert(key_lt(r2[w2].1 as int, r2[w2].0 as int, data.dq(q, i), i));
            assert(r1[w1].1 as int == data.dq(q, i));
            assert(r2[w2].1 as int == data.dq(q, j as int));
            assert(false);
        }
    }
}

/// Hits in a heap are items with their true distances.
pub open spec fn heap_valid(data: FlatVec, q: Seq<i64>, h: sized_heap::SizedHeap) -> bool {
    forall|v: int|
        0 <= v < h.items@.len() ==> (#[trigger] h.items@[v]).0 < data.n() && h.items@[v].1 as int
            == data.dq(q, h.items@[v].0 as int)
}

/// Item `i` is either among the kept hits, or the heap is full and every
/// kept hit compares nearer than `i`; in the latter case `i` can never enter
/// the result, because the worst kept key only shrinks.
pub open spec fn covered(data: FlatVec, q: Seq<i64>, h: sized_heap::SizedHeap, i: int) -> bool {
    contains_index(h.items@, i) || (h.items@.len() == h.k && key_lt(
        h.items@.last().1 as int,
        h.items@.last().0 as int,
        data.dq(q, i),
        i,
    ))
}

/// How a heap is allowed to change while a search runs: it only fills up,
/// its worst key never grows once full, and hits leave only for the sake of
/// strictly nearer ones.
pub open spec fn evolves(o: sized_heap::SizedHeap, f: sized_heap::SizedHeap) -> bool {
    &&& f.k == o.k
    &&& f.items@.len() >= o.items@.len()
    &&& (o.items@.len() == o.k ==> f.items@.len() == f.k && !sized_heap::pair_lt(
        o.items@.last(),
        f.items@.last(),
    ))
    &&& forall|p: (usize, u64)|
        o.items@.contains(p) ==> f.items@.contains(p) || (f.items@.len() == f.k
            && sized_heap::pair_lt(f.items@.last(), p))
}

/// Heap evolution composes.
pub proof fn lemma_evolves_trans(
    a: sized_heap::SizedHeap,
    b: sized_heap::SizedHeap,
    c: sized_heap::SizedHeap,
)
    requires
        evolves(a, b),
        evolves(b, c),
        b.inv(),
        c.inv(),
    ensures
        evolves(a, c),
{
    assert forall|p: (usize, u64)| a.items@.contains(p) implies c.items@.contains(p) || (
    c.items@.len() == c.k && sized_heap::pair_lt(c.items@.last(), p)) by {
        if b.items@.contains(p) {
        } else {
            assert(b.items@.len() == b.k && sized_heap::pair_lt(b.items@.last(), p));
            assert(!sized_heap::pair_lt(b.items@.last(), c.items@.last()));
        }
    }
}

/// Once an item is covered, it stays covered as the heap evolves.
pub proof fn lemma_covered_persists(
    data: FlatVec,
    q: Seq<i64>,
    a: sized_heap::SizedHeap,
    b: sized_heap::SizedHeap,
    i: int,
)
    requires
        covered(data, q, a, i),
        evolves(a, b),
        heap_valid(data, q, a),
        a.inv(),
        b.inv(),
    ensures
        covered(data, q, b, i),
{
    if contains_index(a.items@, i) {
        let v = choose|v: int| 0 <= v < a.items@.len() && (#[trigger] a.items@[v]).0 == i;
        let p = a.items@[v];
        assert(a.items@.contains(p));
        if b.items@.contains(p) {
            let w = choose|w: int| 0 <= w < b.items@.len() && b.items@[w] == p;
            assert(contains_index(b.items@, i));
        } else {
            assert(b.items@.len() == b.k && sized_heap::pair_lt(b.items@.last(), p));
            assert(p.1 as int == data.dq(q, i));
        }
    } else {
        assert(a.items@.len() == a.k);
        assert(!sized_heap::pair_lt(a.items@.last(), b.items@.last()));
    }
}

/// A list of distinct hits covering `n` item indices holds at least `n`
/// hits.
pub proof fn lemma_cover_len(r: Seq<(usize, u64)>, n: int)
    requires
        forall|w1: int, w2: int|
            0 <= w1 < w2 < r.len() ==> (#[trigger] r[w1]).0 != (#[trigger] r[w2]).0,
        forall|i: int| 0 <= i < n ==> contains_index(r, i),
        n >= 0,
    ensures
        r.len() >= n,
{
    let ids = hits_idx(r);
    assert forall|w1: int, w2: int| 0 <= w1 < w2 < ids.len() implies ids[w1] != ids[w2] by {
        assert(ids[w1] == r[w1].0 && ids[w2] == r[w2].0);
    }
    ids.unique_seq_to_set();
    let s = ids.to_set();
    let s_int = s.map(|x: usize| x as int);
    s.lemma_map_finite(|x: usize| x as int);
    vstd::set_lib::lemma_map_size(s, s_int, |x: usize| x as int);
    vstd::set_lib::lemma_int_range(0, n);
    assert forall|i: int| vstd::set_lib::set_int_range(0, n).contains(i) implies s_int.contains(
        i,
    ) by {
        assert(0 <= i < n);
        assert(contains_index(r, i));
        let w = choose|w: int| 0 <= w < r.len() && (#[trigger] r[w]).0 == i;
        assert(ids.len() == r.len());
        assert(ids[w] == r[w].0);
        assert(ids.contains(r[w].0));
        assert(s.contains(r[w].0));
        assert(s_int == s.map(|x: usize| x as int));
        assert(s_int.contains((r[w].0) as int));
    }
    vstd::set_lib::lemma_len_subset(vstd::set_lib::set_int_range(0, n), s_int);
}

/// A list of hits with distinct indices below `n` holds at most `n` hits.
pub proof fn lemma_bounded_len(r: Seq<(usize, u64)>, n: int)
    requires
        forall|w1: int, w2: int|
            0 <= w1 < w2 < r.len() ==> (#[trigger] r[w1]).0 != (#[trigger] r[w2]).0,
        forall|w: int| 0 <= w < r.len() ==> (#[trigger] r[w]).0 < n,
        n >= 0,
    ensures
        r.len() <= n,
{
    let ids = hits_idx(r);
    assert forall|w1: int, w2: int| 0 <= w1 < w2 < ids.len() implies ids[w1] != ids[w2] by {
        assert(ids[w1] == r[w1].0 && ids[w2] == r[w2].0);
    }
    ids.unique_seq_to_set();
    let s = ids.to_set();
    let s_int = s.map(|x: usize| x as int);
    s.lemma_map_finite(|x: usize| x as int);
    vstd::set_lib::lemma_map_size(s, s_int, |x: usize| x as int);
    vstd::set_lib::lemma_int_range(0, n);
    assert forall|i: int| s_int.contains(i) implies vstd::set_lib::set_int_range(0, n).contains(
        i,
    ) by {
        let x = choose|x: usize| s.contains(x) && x as int == i;
        assert(ids.contains(x));
        let w = choose|w: int| 0 <= w < ids.len() && ids[w] == x;
        assert(r[w].0 == x);
    }
    vstd::set_lib::lemma_len_subset(s_int, vstd::set_lib::set_int_range(0, n));
}

/// A full-coverage heap is exactly the k-nearest-neighbour result.
pub proof fn lemma_heap_is_knn(data: FlatVec, q: Seq<i64>, k: int, h: sized_heap::SizedHeap)
    requires
        h.inv(),
        h.k == k,
        k >= 1,
        heap_valid(data, q, h),
        forall|i: int| 0 <= i < data.n() ==> covered(data, q, h, i),
    ensures
        is_knn(data, q, k, h.items@),
{
    let r = h.items@;
    assert forall|w1: int, w2: int|
        0 <= w1 < w2 < r.len() implies (#[trigger] r[w1]).0 != (#[trigger] r[w2]).0 by {
        assert(sized_heap::pair_lt(r[w1], r[w2]));
        if r[w1].0 == r[w2].0 {
            assert(r[w1].1 as int == data.dq(q, r[w1].0 as int));
            assert(r[w2].1 as int == data.dq(q, r[w2].0 as int));
            assert(false);
        }
    }
    lemma_bounded_len(r, data.n() as int);
    if r.len() < k {
        assert forall|i: int| 0 <= i < data.n() implies contains_index(r, i) by {
            assert(covered(data, q, h, i));
        }
        lemma_cover_len(r, data.n() as int);
        assert(r.len() == data.n());
    } else {
        assert(r.len() == k);
        if k > data.n() as int {
            assert(false);
        }
    }
    assert forall|i: int, w: int|
        #![trigger r[w], data.dq(q, i)]
        0 <= i < data.n() && !contains_index(r, i) && 0 <= w < r.len() implies key_lt(
        r[w].1 as int,
        r[w].0 as int,
        data.dq(q, i),
        i,
    ) by {
        assert(covered(data, q, h, i));
        assert(r.len() == h.k);
        if w < r.len() - 1 {
            assert(sized_heap::pair_lt(r[w], r[r.len() - 1]));
        }
        assert(r.last() == r[r.len() - 1]);
    }
}


/// Push every member of `node` into the heap, with its exact distance.
/// Afterwards each member is kept or covered.
pub(crate) fn absorb_members(
    data: &FlatVec,
    node: &Ball,
    query: &Vec<i64>,
    heap: &mut sized_heap::SizedHeap,
)
    requires
        data.wf(),
        node.wf(*data),
        wf_item(query@, data.dim()),
        old(heap).inv(),
        heap_valid(*data, query@, *old(heap)),
        forall|t: int|
            0 <= t < node.idx().len() ==> !contains_index(
                old(heap).items@,
                (#[trigger] node.idx()[t]) as int,
            ),
    ensures
        final(heap).inv(),
        heap_valid(*data, query@, *final(heap)),
        evolves(*old(heap), *final(heap)),
        forall|p: (usize, u64)|
            final(heap).items@.contains(p) ==> old(heap).items@.contains(p) || node.idx().contains(
                p.0,
            ),
        forall|t: int|
            0 <= t < node.idx().len() ==> covered(
                *data,
                query@,
                *final(heap),
                (#[trigger] node.idx()[t]) as int,
            ),
{

    let dists = data.query_to_many(query, &node.indices);
    let m = node.cardinality();
    let ghost h0 = *heap;
    let mut t: usize = 0;
    while t < m
        invariant
            t <= m,
            m == node.idx().len(),
            data.wf(),
            node.wf(*data),
            wf_item(query@, data.dim()),
            dists@.len() == m,
            forall|w: int|
                0 <= w < m ==> #[trigger] dists@[w] as int == data.dq(
                    query@,
                    node.idx()[w] as int,
                ),
            forall|t0: int|
                0 <= t0 < node.idx().len() ==> !contains_index(
                    h0.items@,
                    (#[trigger] node.idx()[t0]) as int,
                ),
            heap.inv(),
            heap_valid(*data, query@, *heap),
            evolves(h0, *heap),
            h0.inv(),
            heap_valid(*data, query@, h0),
            forall|p: (usize, u64)|
                heap.items@.contains(p) ==> h0.items@.contains(p) || exists|t0: int|
                    0 <= t0 < t && p.0 == (#[trigger] node.idx()[t0]),
            forall|t0: int|
                0 <= t0 < t ==> covered(
                    *data,
                    query@,
                    *heap,
                    (#[trigger] node.idx()[t0]) as int,
                ),
        decreases m - t,
    {
        let ghost pre = *heap;
        proof {
            if contains_index(heap.items@, node.idx()[t as int] as int) {
                let v = choose|v: int|
                    0 <= v < heap.items@.len() && (#[trigger] heap.items@[v]).0 == node.idx()[
                        t as int
                    ];
                let p = heap.items@[v];
                assert(heap.items@.contains(p));
                if h0.items@.contains(p) {
                    let v0 = choose|v0: int|
                        0 <= v0 < h0.items@.len() && h0.items@[v0] == p;
                    assert(contains_index(h0.items@, node.idx()[t as int] as int));
                    assert(false);
                } else {
                    let t0 = choose|t0: int|
                        0 <= t0 < t && p.0 == (#[trigger] node.idx()[t0]);
                    assert(node.idx()[t0] == node.idx()[t as int]);
                    assert(false);
                }
            }
        }
        heap.push(node.indices[t], dists[t]);
        proof {
            assert(evolves(pre, *heap));
            lemma_evolves_trans(h0, pre, *heap);
            assert forall|v: int| 0 <= v < heap.items@.len() implies (
            #[trigger] heap.items@[v]).0 < data.n() && heap.items@[v].1 as int == data.dq(
                query@,
                heap.items@[v].0 as int,
            ) by {
                let p = heap.items@[v];
                assert(heap.items@.contains(p));
                if pre.items@.contains(p) {
                    let v0 = choose|v0: int|
                        0 <= v0 < pre.items@.len() && pre.items@[v0] == p;
                } else {
                    assert(p == (node.idx()[t as int], dists@[t as int]));
                }
            }
            assert forall|p: (usize, u64)| heap.items@.contains(p) implies h0.items@.contains(
                p,
            ) || exists|t0: int| 0 <= t0 < t + 1 && p.0 == (#[trigger] node.idx()[t0]) by {
                if pre.items@.contains(p) {
                    if !h0.items@.contains(p) {
                        let t0 = choose|t0: int|
                            0 <= t0 < t && p.0 == (#[trigger] node.idx()[t0]);
                        assert(0 <= t0 < t + 1 && p.0 == node.idx()[t0]);
                    }
                } else {
                    assert(p == (node.idx()[t as int], dists@[t as int]));
                    assert(0 <= t < t + 1 && p.0 == node.idx()[t as int]);
                }
            }
            assert forall|t0: int| 0 <= t0 < t + 1 implies covered(
                *data,
                query@,
                *heap,
                (#[trigger] node.idx()[t0]) as int,
            ) by {
                if t0 < t {
                    lemma_covered_persists(
                        *data,
                        query@,
                        pre,
                        *heap,
                        node.idx()[t0] as int,
                    );
                } else {
                    if !contains_index(heap.items@, node.idx()[t0] as int) {
                        assert(heap.items@.len() == heap.k && sized_heap::pair_lt(
                            heap.items@.last(),
                            (node.idx()[t as int], dists@[t as int]),
                        ));
                    }
                }
            }
        }
        t = t + 1;
    }
}

/// An index occurs in a concatenation of hit lists exactly when it occurs in
/// one of the parts.
pub proof fn lemma_contains_index_append(a: Seq<(usize, u64)>, b: Seq<(usize, u64)>, i: int)
    ensures
        contains_index(a + b, i) <==> (contains_index(a, i) || contains_index(b, i)),
{
    if contains_index(a, i) {
        let w = choose|w: int| 0 <= w < a.len() && (#[trigger] a[w]).0 == i;
        assert((a + b)[w] == a[w]);
    }
    if contains_index(b, i) {
        let w = choose|w: int| 0 <= w < b.len() && (#[trigger] b[w]).0 == i;
        assert((a + b)[a.len() + w] == b[w]);
    }
    if contains_index(a + b, i) {
        let w = choose|w: int| 0 <= w < (a + b).len() && (#[trigger] (a + b)[w]).0 == i;
        if w < a.len() {
            assert(a[w] == (a + b)[w]);
        } else {
            assert(b[w - a.len()] == (a + b)[w]);
        }
    }
}

/// The strategy to use for k-nearest-neighbour search.
///
/// All strategies return the same result; the default is `RepeatedRnn`.
#[derive(Clone, Copy, Debug, PartialEq, Eq, Structural)]
pub enum KnnAlgorithm {
    /// Compute every distance and keep the k smallest.
    Linear,
    /// Run range searches of growing radius until k hits are found.
    RepeatedRnn,
    /// Sieve the tree level by level, keeping only subtrees that can still
    /// hold one of the k nearest.
    BreadthFirst,
    /// Descend best-first, pruning subtrees that lie beyond the running k-th
    /// nearest distance.
    DepthFirst,
}

impl Default for KnnAlgorithm {
    /// The strategy used when none is picked.
    fn default() -> (r: KnnAlgorithm)
        ensures
            r == KnnAlgorithm::RepeatedRnn,
    {
        KnnAlgorithm::RepeatedRnn
    }
}

impl KnnAlgorithm {
    /// Search for the `k` items nearest to `query` under the chosen
    /// strategy.
    pub fn search(self, data: &FlatVec, root: &Ball, query: &Vec<i64>, k: usize) -> (r: Vec<
        (usize, u64),
    >)
        requires
            data.wf(),
            root.wf(*data),
            wf_item(query@, data.dim()),
            root.idx().len() == data.n(),
            forall|t: int| 0 <= t < data.n() ==> (#[trigger] root.idx()[t]) == t,
            k >= 1,
        ensures
            is_knn(*data, query@, k as int, r@),
    {
        match self {
            KnnAlgorithm::Linear => knn_linear::search(data, query, k),
            KnnAlgorithm::RepeatedRnn => knn_repeated_rnn::search(data, root, query, k),
            KnnAlgorithm::BreadthFirst => knn_breadth_first::search(data, root, query, k),
            KnnAlgorithm::DepthFirst => knn_depth_first::search(data, root, query, k),
        }
    }
}

} // verus!
