//! K-nearest-neighbour search using a breadth-first sieve.
//!
//! The tree is processed one generation of candidate subtrees at a time.
//! Each round splits the candidates three ways: those certainly worth
//! examining (their farthest member may beat the running worst hit), those
//! possibly worth examining, and those whose nearest possible member already
//! lies beyond the running worst hit, which are discarded for good.  Kept
//! leaves contribute their members to the hit collection; kept internal
//! nodes contribute their children to the next generation.

use vstd::prelude::*;

use super::sized_heap::SizedHeap;
use super::{
    absorb_members, contains_index, covered, evolves, heap_valid, is_knn, lemma_covered_persists,
    lemma_evolves_trans, lemma_heap_is_knn,
};
use crate::cluster::Ball;
use crate::dataset::FlatVec;
use crate::metric::{wf_item, MAX_DIST};

verus! {

/// The farthest any member of `c` can lie from the query, given the distance
/// `d` from the query to the center of `c`.
fn d_max(c: &Ball, d: u64) -> (r: u64)
    requires
        c.radius <= MAX_DIST,
        d <= MAX_DIST,
    ensures
        r as int == c.radius as int + d as int,
{
    c.radius() + d
}

/// Every candidate is a well-formed node.
pub open spec fn cands_wf(data: FlatVec, cs: Seq<&Ball>) -> bool {
    forall|c: int| 0 <= c < cs.len() ==> (#[trigger] cs[c]).wf(data)
}

/// No two candidates share a member.
pub open spec fn cands_disjoint(cs: Seq<&Ball>) -> bool {
    forall|c1: int, c2: int, x: usize|
        #![trigger cs[c1].idx().contains(x), cs[c2].idx().contains(x)]
        0 <= c1 < c2 < cs.len() ==> !(cs[c1].idx().contains(x) && cs[c2].idx().contains(x))
}

/// No two candidates drawn from two lists share a member.
pub open spec fn cross_disjoint(a: Seq<&Ball>, b: Seq<&Ball>) -> bool {
    forall|c1: int, c2: int, x: usize|
        #![trigger a[c1].idx().contains(x), b[c2].idx().contains(x)]
        0 <= c1 < a.len() && 0 <= c2 < b.len() ==> !(a[c1].idx().contains(x)
            && b[c2].idx().contains(x))
}

/// No member of any candidate is already a hit.
pub open spec fn cands_heap_disjoint(h: SizedHeap, cs: Seq<&Ball>) -> bool {
    forall|c: int, t: int|
        #![trigger cs[c].idx()[t]]
        0 <= c < cs.len() && 0 <= t < cs[c].idx().len() ==> !contains_index(
            h.items@,
            cs[c].idx()[t] as int,
        )
}

/// Tallest subtree among the candidates.
pub open spec fn max_height(cs: Seq<&Ball>) -> nat
    decreases cs.len(),
{
    if cs.len() == 0 {
        0
    } else {
        let rest = max_height(cs.drop_last());
        let h = cs.last().height();
        if h > rest {
            h
        } else {
            rest
        }
    }
}

/// Each candidate is bounded by the tallest.
proof fn lemma_max_height_elem(cs: Seq<&Ball>, v: int)
    requires
        0 <= v < cs.len(),
    ensures
        cs[v].height() <= max_height(cs),
    decreases cs.len(),
{
    if v < cs.len() - 1 {
        lemma_max_height_elem(cs.drop_last(), v);
        assert(cs.drop_last()[v] == cs[v]);
    }
}

/// A pointwise height bound carries over to the tallest.
proof fn lemma_max_height_bound(cs: Seq<&Ball>, b: nat)
    requires
        forall|v: int| 0 <= v < cs.len() ==> (#[trigger] cs[v]).height() <= b,
    ensures
        max_height(cs) <= b,
    decreases cs.len(),
{
    if cs.len() > 0 {
        assert(forall|v: int|
            0 <= v < cs.drop_last().len() ==> (#[trigger] cs.drop_last()[v]).height() <= b);
        lemma_max_height_bound(cs.drop_last(), b);
        assert(cs.last().height() <= b);
    }
}

/// Split the candidates three ways: `needed` (their farthest member may beat
/// the running worst hit, or the hit collection is not yet full),
/// `maybe_needed` (they straddle the running worst hit), and `not_needed`
/// (even their nearest member lies beyond it, so all their members are
/// covered already).
#[verifier::rlimit(30)]
fn split_candidates<'a>(
    data: &FlatVec,
    query: &Vec<i64>,
    heap: &SizedHeap,
    candidates: Vec<&'a Ball>,
) -> (r: (Vec<&'a Ball>, Vec<&'a Ball>, Vec<&'a Ball>))
    requires
        data.wf(),
        wf_item(query@, data.dim()),
        heap.inv(),
        heap_valid(*data, query@, *heap),
        cands_wf(*data, candidates@),
        cands_disjoint(candidates@),
    ensures
        forall|v: int|
            0 <= v < r.0@.len() ==> candidates@.contains(#[trigger] r.0@[v]),
        forall|v: int|
            0 <= v < r.1@.len() ==> candidates@.contains(#[trigger] r.1@[v]),
        cands_disjoint(r.0@),
        cands_disjoint(r.1@),
        cross_disjoint(r.0@, r.1@),
        forall|c: int, t: int|
            #![trigger candidates@[c].idx()[t]]
            0 <= c < candidates@.len() && 0 <= t < candidates@[c].idx().len() ==> {
                ||| exists|v: int|
                    0 <= v < r.0@.len() && (#[trigger] r.0@[v]).idx().contains(
                        candidates@[c].idx()[t],
                    )
                ||| exists|v: int|
                    0 <= v < r.1@.len() && (#[trigger] r.1@[v]).idx().contains(
                        candidates@[c].idx()[t],
                    )
                ||| covered(*data, query@, *heap, candidates@[c].idx()[t] as int)
            },
{
    let len = candidates.len();
    let mut needed: Vec<&Ball> = Vec::new();
    let mut maybe_needed: Vec<&Ball> = Vec::new();
    let mut not_needed: Vec<&Ball> = Vec::new();
    let mut i: usize = 0;
    while i < len
        invariant
            i <= len,
            len == candidates@.len(),
            data.wf(),
            wf_item(query@, data.dim()),
            heap.inv(),
            heap_valid(*data, query@, *heap),
            cands_wf(*data, candidates@),
            cands_disjoint(candidates@),
            forall|v: int|
                0 <= v < needed@.len() ==> exists|c: int|
                    0 <= c < i && #[trigger] needed@[v] == candidates@[c],
            forall|v: int|
                0 <= v < maybe_needed@.len() ==> exists|c: int|
                    0 <= c < i && #[trigger] maybe_needed@[v] == candidates@[c],
            cands_disjoint(needed@),
            cands_disjoint(maybe_needed@),
            cross_disjoint(needed@, maybe_needed@),
            forall|c: int, t: int|
                #![trigger candidates@[c].idx()[t]]
                0 <= c < i && 0 <= t < candidates@[c].idx().len() ==> {
                    ||| exists|v: int|
                        0 <= v < needed@.len() && (#[trigger] needed@[v]).idx().contains(
                            candidates@[c].idx()[t],
                        )
                    ||| exists|v: int|
                        0 <= v < maybe_needed@.len() && (#[trigger] maybe_needed@[v]).idx().contains(
                            candidates@[c].idx()[t],
                        )
                    ||| covered(*data, query@, *heap, candidates@[c].idx()[t] as int)
                },
        decreases len - i,
    {
        let b = candidates[i];
        proof {
            assert(b.wf(*data));
        }
        let delta = b.distance_to_center(data, query);
        let ghost pre_needed = needed@;
        let ghost pre_maybe = maybe_needed@;
        if heap.len() == heap.k {
            let worst = heap.peek_worst();
            if delta > b.radius() && delta - b.radius() > worst.1 {
                not_needed.push(b);
                proof {
                    assert(heap.items@.contains(heap.items@.last()));
                    assert forall|t: int| 0 <= t < b.idx().len() implies covered(
                        *data,
                        query@,
                        *heap,
                        (#[trigger] b.idx()[t]) as int,
                    ) by {
                        b.lemma_member_query_bounds(*data, query@, t);
                    }
                }
            } else if d_max(b, delta) <= worst.1 {
                needed.push(b);
            } else {
                maybe_needed.push(b);
            }
        } else {
            needed.push(b);
        }
        proof {
            assert(candidates@[i as int] == b);
            assert forall|v: int| 0 <= v < needed@.len() implies exists|c: int|
                0 <= c < i + 1 && #[trigger] needed@[v] == candidates@[c] by {
                if v < pre_needed.len() {
                    assert(needed@[v] == pre_needed[v]);
                    let c = choose|c: int| 0 <= c < i && pre_needed[v] == candidates@[c];
                    assert(0 <= c < i + 1 && needed@[v] == candidates@[c]);
                } else {
                    assert(needed@[v] == b);
                    assert(0 <= i < i + 1 && needed@[v] == candidates@[i as int]);
                }
            }
            assert forall|v: int| 0 <= v < maybe_needed@.len() implies exists|c: int|
                0 <= c < i + 1 && #[trigger] maybe_needed@[v] == candidates@[c] by {
                if v < pre_maybe.len() {
                    assert(maybe_needed@[v] == pre_maybe[v]);
                    let c = choose|c: int| 0 <= c < i && pre_maybe[v] == candidates@[c];
                    assert(0 <= c < i + 1 && maybe_needed@[v] == candidates@[c]);
                } else {
                    assert(maybe_needed@[v] == b);
                    assert(0 <= i < i + 1 && maybe_needed@[v] == candidates@[i as int]);
                }
            }
            assert forall|c1: int, c2: int, x: usize|
                #![trigger needed@[c1].idx().contains(x), needed@[c2].idx().contains(x)]
                0 <= c1 < c2 < needed@.len() implies !(needed@[c1].idx().contains(x)
                && needed@[c2].idx().contains(x)) by {
                if c2 < pre_needed.len() {
                    assert(needed@[c1] == pre_needed[c1]);
                    assert(needed@[c2] == pre_needed[c2]);
                    lemma_two_sources(pre_needed, candidates@, i as int, c1, c2, x);
                } else {
                    assert(needed@[c2] == b);
                    assert(needed@[c1] == pre_needed[c1]);
                    let c0 = choose|c: int| 0 <= c < i && pre_needed[c1] == candidates@[c];
                    if needed@[c1].idx().contains(x) && needed@[c2].idx().contains(x) {
                        assert(candidates@[c0].idx().contains(x));
                        assert(candidates@[i as int].idx().contains(x));
                        assert(false);
                    }
                }
            }
            assert forall|c1: int, c2: int, x: usize|
                #![trigger maybe_needed@[c1].idx().contains(x), maybe_needed@[c2].idx().contains(x)]
                0 <= c1 < c2 < maybe_needed@.len() implies !(maybe_needed@[c1].idx().contains(x)
                && maybe_needed@[c2].idx().contains(x)) by {
                if c2 < pre_maybe.len() {
                    assert(maybe_needed@[c1] == pre_maybe[c1]);
                    assert(maybe_needed@[c2] == pre_maybe[c2]);
                    lemma_two_sources(pre_maybe, candidates@, i as int, c1, c2, x);
                } else {
                    assert(maybe_needed@[c2] == b);
                    assert(maybe_needed@[c1] == pre_maybe[c1]);
                    let c0 = choose|c: int| 0 <= c < i && pre_maybe[c1] == candidates@[c];
                    if maybe_needed@[c1].idx().contains(x) && maybe_needed@[c2].idx().contains(x) {
                        assert(candidates@[c0].idx().contains(x));
                        assert(candidates@[i as int].idx().contains(x));
                        assert(false);
                    }
                }
            }
            assert forall|c1: int, c2: int, x: usize|
                #![trigger needed@[c1].idx().contains(x), maybe_needed@[c2].idx().contains(x)]
                0 <= c1 < needed@.len() && 0 <= c2 < maybe_needed@.len() implies !(
                needed@[c1].idx().contains(x) && maybe_needed@[c2].idx().contains(x)) by {
                if needed@[c1].idx().contains(x) && maybe_needed@[c2].idx().contains(x) {
                    if c1 < pre_needed.len() && c2 < pre_maybe.len() {
                        assert(needed@[c1] == pre_needed[c1]);
                        assert(maybe_needed@[c2] == pre_maybe[c2]);
                        assert(!(pre_needed[c1].idx().contains(x) && pre_maybe[c2].idx().contains(
                            x,
                        )));
                    } else if c1 >= pre_needed.len() {
                        assert(needed@[c1] == b);
                        assert(c2 < pre_maybe.len());
                        assert(maybe_needed@[c2] == pre_maybe[c2]);
                        let c0 = choose|c: int| 0 <= c < i && pre_maybe[c2] == candidates@[c];
                        assert(candidates@[c0].idx().contains(x));
                        assert(candidates@[i as int].idx().contains(x));
                        assert(false);
                    } else {
                        assert(maybe_needed@[c2] == b);
                        assert(c1 < pre_needed.len());
                        assert(needed@[c1] == pre_needed[c1]);
                        let c0 = choose|c: int| 0 <= c < i && pre_needed[c1] == candidates@[c];
                        assert(candidates@[c0].idx().contains(x));
                        assert(candidates@[i as int].idx().contains(x));
                        assert(false);
                    }
                }
            }
            assert forall|c: int, t: int|
                #![trigger candidates@[c].idx()[t]]
                0 <= c < i + 1 && 0 <= t < candidates@[c].idx().len() implies {
                ||| exists|v: int|
                    0 <= v < needed@.len() && (#[trigger] needed@[v]).idx().contains(
                        candidates@[c].idx()[t],
                    )
                ||| exists|v: int|
                    0 <= v < maybe_needed@.len() && (#[trigger] maybe_needed@[v]).idx().contains(
                        candidates@[c].idx()[t],
                    )
                ||| covered(*data, query@, *heap, candidates@[c].idx()[t] as int)
            } by {
                let x = candidates@[c].idx()[t];
                if c < i {
                    if exists|v: int|
                        0 <= v < pre_needed.len() && (#[trigger] pre_needed[v]).idx().contains(x) {
                        let v = choose|v: int|
                            0 <= v < pre_needed.len() && (#[trigger] pre_needed[v]).idx().contains(
                                x,
                            );
                        assert(needed@[v].idx().contains(x));
                    } else if exists|v: int|
                        0 <= v < pre_maybe.len() && (#[trigger] pre_maybe[v]).idx().contains(x) {
                        let v = choose|v: int|
                            0 <= v < pre_maybe.len() && (#[trigger] pre_maybe[v]).idx().contains(
                                x,
                            );
                        assert(maybe_needed@[v].idx().contains(x));
                    }
                } else {
                    assert(c == i);
                    assert(b.idx().contains(x));
                    if needed@.len() > pre_needed.len() {
                        assert(needed@[needed@.len() - 1] == b);
                        assert(needed@[needed@.len() - 1].idx().contains(x));
                    } else if maybe_needed@.len() > pre_maybe.len() {
                        assert(maybe_needed@[maybe_needed@.len() - 1] == b);
                        assert(maybe_needed@[maybe_needed@.len() - 1].idx().contains(x));
                    } else {
                        assert(covered(*data, query@, *heap, x as int));
                    }
                }
            }
        }
        i = i + 1;
    }
    proof {
        assert forall|v: int| 0 <= v < needed@.len() implies candidates@.contains(
            #[trigger] needed@[v],
        ) by {
            let c = choose|c: int| 0 <= c < len && needed@[v] == candidates@[c];
        }
        assert forall|v: int| 0 <= v < maybe_needed@.len() implies candidates@.contains(
            #[trigger] maybe_needed@[v],
        ) by {
            let c = choose|c: int| 0 <= c < len && maybe_needed@[v] == candidates@[c];
        }
    }
    (needed, maybe_needed, not_needed)
}

/// Two distinct positions in a kept list trace back to distinct source
/// candidates, which cannot share a member.
proof fn lemma_two_sources(
    kept: Seq<&Ball>,
    cands: Seq<&Ball>,
    i: int,
    c1: int,
    c2: int,
    x: usize,
)
    requires
        cands_disjoint(kept),
        0 <= c1 < c2 < kept.len(),
    ensures
        !(kept[c1].idx().contains(x) && kept[c2].idx().contains(x)),
{
}


/// Process one batch of kept candidates: leaves pour their members into the
/// hit collection; internal nodes place their children into the next
/// generation.
#[verifier::rlimit(40)]
fn process_batch<'a>(
    data: &FlatVec,
    query: &Vec<i64>,
    heap: &mut SizedHeap,
    work: &Vec<&'a Ball>,
    next: &mut Vec<&'a Ball>,
    Ghost(hb): Ghost<nat>,
)
    requires
        data.wf(),
        wf_item(query@, data.dim()),
        old(heap).inv(),
        heap_valid(*data, query@, *old(heap)),
        cands_wf(*data, work@),
        cands_disjoint(work@),
        cands_heap_disjoint(*old(heap), work@),
        forall|v: int| 0 <= v < work@.len() ==> (#[trigger] work@[v]).height() <= hb,
        cands_wf(*data, old(next)@),
        cands_disjoint(old(next)@),
        cross_disjoint(old(next)@, work@),
        cands_heap_disjoint(*old(heap), old(next)@),
        forall|u: int| 0 <= u < old(next)@.len() ==> (#[trigger] old(next)@[u]).height() < hb,
    ensures
        final(heap).inv(),
        heap_valid(*data, query@, *final(heap)),
        evolves(*old(heap), *final(heap)),
        final(next)@.len() >= old(next)@.len(),
        forall|u: int| 0 <= u < old(next)@.len() ==> final(next)@[u] == old(next)@[u],
        cands_wf(*data, final(next)@),
        cands_disjoint(final(next)@),
        cands_heap_disjoint(*final(heap), final(next)@),
        forall|u: int| 0 <= u < final(next)@.len() ==> (#[trigger] final(next)@[u]).height() < hb,
        forall|u: int, t: int|
            #![trigger final(next)@[u].idx()[t]]
            old(next)@.len() <= u < final(next)@.len() && 0 <= t < final(next)@[u].idx().len()
                ==> exists|v: int|
                0 <= v < work@.len() && (#[trigger] work@[v]).idx().contains(
                    final(next)@[u].idx()[t],
                ),
        forall|p: (usize, u64)|
            final(heap).items@.contains(p) ==> old(heap).items@.contains(p) || exists|v: int|
                0 <= v < work@.len() && (#[trigger] work@[v]).idx().contains(p.0),
        forall|v: int, t: int|
            #![trigger work@[v].idx()[t]]
            0 <= v < work@.len() && 0 <= t < work@[v].idx().len() ==> covered(
                *data,
                query@,
                *final(heap),
                work@[v].idx()[t] as int,
            ) || exists|u: int|
                0 <= u < final(next)@.len() && (#[trigger] final(next)@[u]).idx().contains(
                    work@[v].idx()[t],
                ),
{
    let ghost h0 = *heap;
    let ghost n0 = next@;
    let m = work.len();
    let mut v: usize = 0;
    while v < m
        invariant
            v <= m,
            m == work@.len(),
            data.wf(),
            wf_item(query@, data.dim()),
            cands_wf(*data, work@),
            cands_disjoint(work@),
            cands_heap_disjoint(h0, work@),
            forall|v0: int| 0 <= v0 < work@.len() ==> (#[trigger] work@[v0]).height() <= hb,
            h0.inv(),
            heap_valid(*data, query@, h0),
            cands_wf(*data, n0),
            cands_disjoint(n0),
            cross_disjoint(n0, work@),
            cands_heap_disjoint(h0, n0),
            forall|u: int| 0 <= u < n0.len() ==> (#[trigger] n0[u]).height() < hb,
            heap.inv(),
            heap_valid(*data, query@, *heap),
            evolves(h0, *heap),
            next@.len() >= n0.len(),
            forall|u: int| 0 <= u < n0.len() ==> next@[u] == n0[u],
            cands_wf(*data, next@),
            cands_disjoint(next@),
            cands_heap_disjoint(*heap, next@),
            forall|u: int| 0 <= u < next@.len() ==> (#[trigger] next@[u]).height() < hb,
            forall|u: int, t: int|
                #![trigger next@[u].idx()[t]]
                n0.len() <= u < next@.len() && 0 <= t < next@[u].idx().len() ==> exists|v0: int|
                    0 <= v0 < v && (#[trigger] work@[v0]).idx().contains(next@[u].idx()[t]),
            forall|p: (usize, u64)|
                heap.items@.contains(p) ==> h0.items@.contains(p) || exists|v0: int|
                    0 <= v0 < v && (#[trigger] work@[v0]).idx().contains(p.0),
            forall|v0: int, t: int|
                #![trigger work@[v0].idx()[t]]
                0 <= v0 < v && 0 <= t < work@[v0].idx().len() ==> covered(
                    *data,
                    query@,
                    *heap,
                    work@[v0].idx()[t] as int,
                ) || exists|u: int|
                    0 <= u < next@.len() && (#[trigger] next@[u]).idx().contains(
                        work@[v0].idx()[t],
                    ),
        decreases m - v,
    {
        let b = work[v];
        proof {
            assert(b.wf(*data));
            assert(b == work@[v as int]);
            // no member of b is in the heap yet
            assert forall|t: int| 0 <= t < b.idx().len() implies !contains_index(
                heap.items@,
                (#[trigger] b.idx()[t]) as int,
            ) by {
                let x = b.idx()[t];
                if contains_index(heap.items@, x as int) {
                    let w = choose|w: int|
                        0 <= w < heap.items@.len() && (#[trigger] heap.items@[w]).0 == x;
                    let p = heap.items@[w];
                    assert(heap.items@.contains(p));
                    if h0.items@.contains(p) {
                        let w0 = choose|w0: int| 0 <= w0 < h0.items@.len() && h0.items@[w0] == p;
                        assert(contains_index(h0.items@, work@[v as int].idx()[t] as int));
                        assert(false);
                    } else {
                        let v0 = choose|v0: int|
                            0 <= v0 < v && (#[trigger] work@[v0]).idx().contains(p.0);
                        assert(work@[v0].idx().contains(x) && work@[v as int].idx().contains(x));
                        assert(false);
                    }
                }
            }
        }
        let ghost pre_heap = *heap;
        let ghost pre_next = next@;
        if b.is_leaf() {
            absorb_members(data, b, query, heap);
            proof {
                lemma_evolves_trans(h0, pre_heap, *heap);
                assert forall|p: (usize, u64)| heap.items@.contains(p) implies h0.items@.contains(
                    p,
                ) || exists|v0: int|
                    0 <= v0 < v + 1 && (#[trigger] work@[v0]).idx().contains(p.0) by {
                    if pre_heap.items@.contains(p) {
                        if !h0.items@.contains(p) {
                            let v0 = choose|v0: int|
                                0 <= v0 < v && (#[trigger] work@[v0]).idx().contains(p.0);
                            assert(0 <= v0 < v + 1 && work@[v0].idx().contains(p.0));
                        }
                    } else {
                        assert(b.idx().contains(p.0));
                        assert(work@[v as int].idx().contains(p.0));
                    }
                }
                assert forall|v0: int, t: int|
                    #![trigger work@[v0].idx()[t]]
                    0 <= v0 < v + 1 && 0 <= t < work@[v0].idx().len() implies covered(
                    *data,
                    query@,
                    *heap,
                    work@[v0].idx()[t] as int,
                ) || exists|u: int|
                    0 <= u < next@.len() && (#[trigger] next@[u]).idx().contains(
                        work@[v0].idx()[t],
                    ) by {
                    if v0 < v {
                        if covered(*data, query@, pre_heap, work@[v0].idx()[t] as int) {
                            lemma_covered_persists(
                                *data,
                                query@,
                                pre_heap,
                                *heap,
                                work@[v0].idx()[t] as int,
                            );
                        }
                    } else {
                        assert(covered(*data, query@, *heap, b.idx()[t] as int));
                    }
                }
                // the heap gained only members of b, which no next entry holds
                assert forall|c: int, t: int|
                    #![trigger next@[c].idx()[t]]
                    0 <= c < next@.len() && 0 <= t < next@[c].idx().len() implies !contains_index(
                    heap.items@,
                    next@[c].idx()[t] as int,
                ) by {
                    let x = next@[c].idx()[t];
                    if contains_index(heap.items@, x as int) {
                        let w = choose|w: int|
                            0 <= w < heap.items@.len() && (#[trigger] heap.items@[w]).0 == x;
                        let p = heap.items@[w];
                        assert(heap.items@.contains(p));
                        if pre_heap.items@.contains(p) {
                            let w0 = choose|w0: int|
                                0 <= w0 < pre_heap.items@.len() && pre_heap.items@[w0] == p;
                            assert(contains_index(pre_heap.items@, next@[c].idx()[t] as int));
                            assert(false);
                        } else {
                            assert(b.idx().contains(x));
                            if c < n0.len() {
                                assert(next@[c] == n0[c]);
                                assert(n0[c].idx().contains(x) && work@[v as int].idx().contains(
                                    x,
                                ));
                                assert(false);
                            } else {
                                let v0 = choose|v0: int|
                                    0 <= v0 < v && (#[trigger] work@[v0]).idx().contains(
                                        next@[c].idx()[t],
                                    );
                                assert(work@[v0].idx().contains(x) && work@[
                                    v as int
                                ].idx().contains(x));
                                assert(false);
                            }
                        }
                    }
                }
            }
        } else {
            let nc = b.children.len();
            let mut c: usize = 0;
            while c < nc
                invariant
                    c <= nc,
                    nc == b.children@.len(),
                    nc > 0,
                    data.wf(),
                    b.wf(*data),
                    wf_item(query@, data.dim()),
                    b == work@[v as int],
                    v < work@.len(),
                    m == work@.len(),
                    cands_wf(*data, work@),
                    cands_disjoint(work@),
                    forall|v0: int|
                        0 <= v0 < work@.len() ==> (#[trigger] work@[v0]).height() <= hb,
                    heap.inv(),
                    heap_valid(*data, query@, *heap),
                    *heap == pre_heap,
                    cands_heap_disjoint(*heap, work@) || true,
                    next@.len() >= pre_next.len(),
                    forall|u: int| 0 <= u < pre_next.len() ==> next@[u] == pre_next[u],
                    next@.len() >= n0.len(),
                    forall|u: int| 0 <= u < n0.len() ==> next@[u] == n0[u],
                    n0.len() <= pre_next.len(),
                    cands_wf(*data, next@),
                    cands_disjoint(next@),
                    cands_heap_disjoint(*heap, next@),
                    forall|u: int| 0 <= u < next@.len() ==> (#[trigger] next@[u]).height() < hb,
                    cands_heap_disjoint(h0, work@),
                    h0.inv(),
                    heap_valid(*data, query@, h0),
                    evolves(h0, *heap),
                    cands_wf(*data, n0),
                    cands_disjoint(n0),
                    cross_disjoint(n0, work@),
                    forall|p: (usize, u64)|
                        heap.items@.contains(p) ==> h0.items@.contains(p) || exists|v0: int|
                            0 <= v0 < v && (#[trigger] work@[v0]).idx().contains(p.0),
                    forall|u: int, t: int|
                        #![trigger next@[u].idx()[t]]
                        n0.len() <= u < next@.len() && u < pre_next.len() && 0 <= t < next@[u].idx().len()
                            ==> exists|v0: int|
                            0 <= v0 < v && (#[trigger] work@[v0]).idx().contains(
                                next@[u].idx()[t],
                            ),
                    forall|u: int, t: int|
                        #![trigger next@[u].idx()[t]]
                        pre_next.len() <= u < next@.len() && 0 <= t < next@[u].idx().len() ==> (
                        #[trigger] next@[u].idx()[t]) < data.n() && b.idx().contains(
                            next@[u].idx()[t],
                        ),
                    next@.len() == pre_next.len() + c,
                    forall|u: int|
                        pre_next.len() <= u < next@.len() ==> (#[trigger] next@[u]).idx()
                            == b.children@[u - pre_next.len() as int].2.idx(),
                    forall|v0: int, t: int|
                        #![trigger work@[v0].idx()[t]]
                        0 <= v0 < v && 0 <= t < work@[v0].idx().len() ==> covered(
                            *data,
                            query@,
                            *heap,
                            work@[v0].idx()[t] as int,
                        ) || exists|u: int|
                            0 <= u < next@.len() && (#[trigger] next@[u]).idx().contains(
                                work@[v0].idx()[t],
                            ),
                    forall|cc: int, t: int|
                        #![trigger b.children@[cc].2.idx()[t]]
                        0 <= cc < c && 0 <= t < b.children@[cc].2.idx().len() ==> exists|u: int|
                            0 <= u < next@.len() && (#[trigger] next@[u]).idx().contains(
                                b.children@[cc].2.idx()[t],
                            ),
                decreases nc - c,
            {
                proof {
                    b.lemma_wf_child(*data, c as int);
                    b.lemma_height_child(c as int);
                }
                let child: &Ball = &b.children[c].2;
                let ghost before = next@;
                next.push(child);
                proof {
                    assert(next@ == before.push(child));
                    assert(next@[next@.len() - 1] == child);
                    assert(child.idx() == b.children@[c as int].2.idx());
                    assert forall|u: int| 0 <= u < next@.len() implies (
                    #[trigger] next@[u]).height() < hb by {
                        if u < before.len() {
                            assert(next@[u] == before[u]);
                        } else {
                            assert(next@[u] == child);
                            assert(child.height() < b.height());
                            assert(b.height() <= hb);
                        }
                    }
                    assert forall|u: int| 0 <= u < next@.len() implies (#[trigger] next@[u]).wf(
                        *data,
                    ) by {
                        if u < before.len() {
                            assert(next@[u] == before[u]);
                        }
                    }
                    // members of the new child are members of b
                    assert forall|t: int|
                        0 <= t < child.idx().len() implies b.idx().contains(
                        #[trigger] child.idx()[t],
                    ) && child.idx()[t] < data.n() by {
                        b.lemma_member_in_some_child(*data, child.idx()[t]);
                        assert(b.children@[c as int].2.idx().contains(child.idx()[t]));
                    }
                    // disjointness of the new entry from the previous ones
                    assert forall|c1: int, c2: int, x: usize|
                        #![trigger next@[c1].idx().contains(x), next@[c2].idx().contains(x)]
                        0 <= c1 < c2 < next@.len() implies !(next@[c1].idx().contains(x)
                        && next@[c2].idx().contains(x)) by {
                        if c2 == next@.len() - 1 {
                            if next@[c1].idx().contains(x) && next@[c2].idx().contains(x) {
                                let tc = choose|t: int|
                                    0 <= t < child.idx().len() && (#[trigger] child.idx()[t])
                                        == x;
                                assert(b.idx().contains(x));
                                if c1 < n0.len() {
                                    assert(next@[c1] == n0[c1]);
                                    assert(n0[c1].idx().contains(x) && work@[
                                        v as int
                                    ].idx().contains(x));
                                    assert(false);
                                } else if c1 < pre_next.len() {
                                    let tv = choose|t: int|
                                        0 <= t < next@[c1].idx().len() && (
                                        #[trigger] next@[c1].idx()[t]) == x;
                                    let v0 = choose|v0: int|
                                        0 <= v0 < v && (#[trigger] work@[v0]).idx().contains(
                                            next@[c1].idx()[tv],
                                        );
                                    assert(work@[v0].idx().contains(x) && work@[
                                        v as int
                                    ].idx().contains(x));
                                    assert(false);
                                } else {
                                    // both are children of b pushed this round
                                    assert(next@[c1].idx() == b.children@[
                                        c1 - pre_next.len() as int
                                    ].2.idx());
                                    assert(next@[c2].idx() == b.children@[c as int].2.idx());
                                    b.lemma_children_disjoint(
                                        *data,
                                        c1 - pre_next.len() as int,
                                        c as int,
                                        x,
                                    );
                                    assert(false);
                                }
                            }
                        } else {
                            assert(next@[c1] == before[c1]);
                            assert(next@[c2] == before[c2]);
                        }
                    }
                    // heap disjointness for the new entry
                    assert forall|cx: int, t: int|
                        #![trigger next@[cx].idx()[t]]
                        0 <= cx < next@.len() && 0 <= t < next@[cx].idx().len() implies
                        !contains_index(heap.items@, next@[cx].idx()[t] as int) by {
                        if cx < before.len() {
                            assert(next@[cx] == before[cx]);
                            assert(before[cx].idx()[t] == next@[cx].idx()[t]);
                        } else {
                            let x = next@[cx].idx()[t];
                            assert(b.idx().contains(x));
                            let tb = choose|tb: int|
                                0 <= tb < b.idx().len() && (#[trigger] b.idx()[tb]) == x;
                            if contains_index(heap.items@, x as int) {
                                let w = choose|w: int|
                                    0 <= w < heap.items@.len() && (#[trigger] heap.items@[w]).0
                                        == x;
                                let p = heap.items@[w];
                                assert(heap.items@.contains(p));
                                if h0.items@.contains(p) {
                                    let w0 = choose|w0: int|
                                        0 <= w0 < h0.items@.len() && h0.items@[w0] == p;
                                    assert(contains_index(
                                        h0.items@,
                                        work@[v as int].idx()[tb] as int,
                                    ));
                                    assert(false);
                                } else {
                                    let v0 = choose|v0: int|
                                        0 <= v0 < v && (#[trigger] work@[v0]).idx().contains(p.0);
                                    assert(work@[v0].idx().contains(x) && work@[
                                        v as int
                                    ].idx().contains(x));
                                    assert(false);
                                }
                            }
                        }
                    }
                    // earlier coverage witnesses persist across the push
                    assert forall|v0: int, t: int|
                        #![trigger work@[v0].idx()[t]]
                        0 <= v0 < v && 0 <= t < work@[v0].idx().len() implies covered(
                        *data,
                        query@,
                        *heap,
                        work@[v0].idx()[t] as int,
                    ) || exists|u: int|
                        0 <= u < next@.len() && (#[trigger] next@[u]).idx().contains(
                            work@[v0].idx()[t],
                        ) by {
                        if !covered(*data, query@, *heap, work@[v0].idx()[t] as int) {
                            let u = choose|u: int|
                                0 <= u < before.len() && (#[trigger] before[u]).idx().contains(
                                    work@[v0].idx()[t],
                                );
                            assert(next@[u] == before[u]);
                            assert(next@[u].idx().contains(work@[v0].idx()[t]));
                        }
                    }
                    assert forall|cc: int, t: int|
                        #![trigger b.children@[cc].2.idx()[t]]
                        0 <= cc < c + 1 && 0 <= t < b.children@[cc].2.idx().len() implies exists|
                        u: int,
                    |
                        0 <= u < next@.len() && (#[trigger] next@[u]).idx().contains(
                            b.children@[cc].2.idx()[t],
                        ) by {
                        if cc < c {
                            let u = choose|u: int|
                                0 <= u < before.len() && (#[trigger] before[u]).idx().contains(
                                    b.children@[cc].2.idx()[t],
                                );
                            assert(next@[u] == before[u]);
                            assert(next@[u].idx().contains(b.children@[cc].2.idx()[t]));
                        } else {
                            assert(next@[next@.len() - 1].idx() == b.children@[c as int].2.idx());
                            assert(next@[next@.len() - 1].idx()[t] == b.children@[cc].2.idx()[t]);
                            assert(next@[next@.len() - 1].idx().contains(
                                b.children@[cc].2.idx()[t],
                            ));
                        }
                    }
                }
                c = c + 1;
            }
            proof {
                // every member of b now sits in some next entry
                assert forall|t: int|
                    #![trigger b.idx()[t]]
                    0 <= t < b.idx().len() implies exists|u: int|
                    0 <= u < next@.len() && (#[trigger] next@[u]).idx().contains(b.idx()[t]) by {
                    let x = b.idx()[t];
                    b.lemma_member_in_some_child(*data, x);
                    assert(b.idx().contains(x));
                    let cc = choose|cc: int|
                        0 <= cc < b.children@.len() && (#[trigger] b.children@[cc].2.idx()).contains(
                            x,
                        );
                    let tc = choose|tc: int|
                        0 <= tc < b.children@[cc].2.idx().len() && (
                        #[trigger] b.children@[cc].2.idx()[tc]) == x;
                    let u = choose|u: int|
                        0 <= u < next@.len() && (#[trigger] next@[u]).idx().contains(
                            b.children@[cc].2.idx()[tc],
                        );
                }
                assert forall|v0: int, t: int|
                    #![trigger work@[v0].idx()[t]]
                    0 <= v0 < v + 1 && 0 <= t < work@[v0].idx().len() implies covered(
                    *data,
                    query@,
                    *heap,
                    work@[v0].idx()[t] as int,
                ) || exists|u: int|
                    0 <= u < next@.len() && (#[trigger] next@[u]).idx().contains(
                        work@[v0].idx()[t],
                    ) by {
                    if v0 < v {
                        if !covered(*data, query@, *heap, work@[v0].idx()[t] as int) {
                            let u = choose|u: int|
                                0 <= u < pre_next.len() && (#[trigger] pre_next[u]).idx().contains(
                                    work@[v0].idx()[t],
                                );
                            assert(next@[u] == pre_next[u]);
                        }
                    } else {
                        assert(b.idx()[t] == work@[v0].idx()[t]);
                    }
                }
                assert forall|u: int, t: int|
                    #![trigger next@[u].idx()[t]]
                    n0.len() <= u < next@.len() && 0 <= t < next@[u].idx().len() implies exists|
                    v0: int,
                |
                    0 <= v0 < v + 1 && (#[trigger] work@[v0]).idx().contains(
                        next@[u].idx()[t],
                    ) by {
                    if u < pre_next.len() {
                        let v0 = choose|v0: int|
                            0 <= v0 < v && (#[trigger] work@[v0]).idx().contains(
                                next@[u].idx()[t],
                            );
                        assert(0 <= v0 < v + 1 && work@[v0].idx().contains(next@[u].idx()[t]));
                    } else {
                        assert(b.idx().contains(next@[u].idx()[t]));
                        assert(work@[v as int].idx().contains(next@[u].idx()[t]));
                    }
                }
            }
        }
        proof {
            // the coverage invariant for members covered before this step
            assert forall|v0: int, t: int|
                #![trigger work@[v0].idx()[t]]
                0 <= v0 < v + 1 && 0 <= t < work@[v0].idx().len() implies covered(
                *data,
                query@,
                *heap,
                work@[v0].idx()[t] as int,
            ) || exists|u: int|
                0 <= u < next@.len() && (#[trigger] next@[u]).idx().contains(
                    work@[v0].idx()[t],
                ) by {}
        }
        v = v + 1;
    }
}


/// One round of the sieve keeps every item accounted for: it stays covered
/// by the hit collection or lives in some next-generation candidate.
proof fn lemma_round_coverage(
    data: FlatVec,
    q: Seq<i64>,
    old_heap: SizedHeap,
    h2: SizedHeap,
    hf: SizedHeap,
    old_cands: Seq<&Ball>,
    needed: Seq<&Ball>,
    maybe_needed: Seq<&Ball>,
    next1: Seq<&Ball>,
    candsf: Seq<&Ball>,
    i: int,
)
    requires
        old_heap.inv(),
        h2.inv(),
        hf.inv(),
        heap_valid(data, q, old_heap),
        heap_valid(data, q, h2),
        evolves(old_heap, h2),
        evolves(h2, hf),
        0 <= i < data.n(),
        data.n() <= usize::MAX,
        covered(data, q, old_heap, i) || exists|c: int|
            0 <= c < old_cands.len() && (#[trigger] old_cands[c]).idx().contains(i as usize),
        forall|c: int, t: int|
            #![trigger old_cands[c].idx()[t]]
            0 <= c < old_cands.len() && 0 <= t < old_cands[c].idx().len() ==> {
                ||| exists|v: int|
                    0 <= v < needed.len() && (#[trigger] needed[v]).idx().contains(
                        old_cands[c].idx()[t],
                    )
                ||| exists|v: int|
                    0 <= v < maybe_needed.len() && (#[trigger] maybe_needed[v]).idx().contains(
                        old_cands[c].idx()[t],
                    )
                ||| covered(data, q, old_heap, old_cands[c].idx()[t] as int)
            },
        forall|v: int, t: int|
            #![trigger needed[v].idx()[t]]
            0 <= v < needed.len() && 0 <= t < needed[v].idx().len() ==> covered(
                data,
                q,
                h2,
                needed[v].idx()[t] as int,
            ) || exists|u: int|
                0 <= u < next1.len() && (#[trigger] next1[u]).idx().contains(needed[v].idx()[t]),
        forall|v: int, t: int|
            #![trigger maybe_needed[v].idx()[t]]
            0 <= v < maybe_needed.len() && 0 <= t < maybe_needed[v].idx().len() ==> covered(
                data,
                q,
                hf,
                maybe_needed[v].idx()[t] as int,
            ) || exists|u: int|
                0 <= u < candsf.len() && (#[trigger] candsf[u]).idx().contains(
                    maybe_needed[v].idx()[t],
                ),
        next1.len() <= candsf.len(),
        forall|u: int| 0 <= u < next1.len() ==> candsf[u] == next1[u],
    ensures
        covered(data, q, hf, i) || exists|c: int|
            0 <= c < candsf.len() && (#[trigger] candsf[c]).idx().contains(i as usize),
{
    assert(i == (i as usize) as int);
    if covered(data, q, old_heap, i) {
        lemma_covered_persists(data, q, old_heap, h2, i);
        lemma_covered_persists(data, q, h2, hf, i);
    } else {
        let c = choose|c: int|
            0 <= c < old_cands.len() && (#[trigger] old_cands[c]).idx().contains(i as usize);
        let t = choose|t: int|
            0 <= t < old_cands[c].idx().len() && (#[trigger] old_cands[c].idx()[t]) == i as usize;
        if exists|v: int|
            0 <= v < needed.len() && (#[trigger] needed[v]).idx().contains(old_cands[c].idx()[t]) {
            let v = choose|v: int|
                0 <= v < needed.len() && (#[trigger] needed[v]).idx().contains(
                    old_cands[c].idx()[t],
                );
            let tv = choose|tv: int|
                0 <= tv < needed[v].idx().len() && (#[trigger] needed[v].idx()[tv]) == i as usize;
            if covered(data, q, h2, i) {
                lemma_covered_persists(data, q, h2, hf, i);
            } else {
                assert(covered(data, q, h2, needed[v].idx()[tv] as int) || exists|u: int|
                    0 <= u < next1.len() && (#[trigger] next1[u]).idx().contains(
                        needed[v].idx()[tv],
                    ));
                let u = choose|u: int|
                    0 <= u < next1.len() && (#[trigger] next1[u]).idx().contains(
                        needed[v].idx()[tv],
                    );
                assert(next1[u].idx().contains(i as usize));
                assert(candsf[u] == next1[u]);
                assert(candsf[u].idx().contains(i as usize));
            }
        } else if exists|v: int|
            0 <= v < maybe_needed.len() && (#[trigger] maybe_needed[v]).idx().contains(
                old_cands[c].idx()[t],
            ) {
            let v = choose|v: int|
                0 <= v < maybe_needed.len() && (#[trigger] maybe_needed[v]).idx().contains(
                    old_cands[c].idx()[t],
                );
            let tv = choose|tv: int|
                0 <= tv < maybe_needed[v].idx().len() && (#[trigger] maybe_needed[v].idx()[tv])
                    == i as usize;
            assert(covered(data, q, hf, maybe_needed[v].idx()[tv] as int) || exists|u: int|
                0 <= u < candsf.len() && (#[trigger] candsf[u]).idx().contains(
                    maybe_needed[v].idx()[tv],
                ));
        } else {
            assert(covered(data, q, old_heap, old_cands[c].idx()[t] as int));
            lemma_covered_persists(data, q, old_heap, h2, i);
            lemma_covered_persists(data, q, h2, hf, i);
        }
    }
}

/// Breadth-first sieve k-nearest-neighbour search over the whole dataset.
#[verifier::rlimit(100)]
pub fn search(data: &FlatVec, root: &Ball, query: &Vec<i64>, k: usize) -> (r: Vec<(usize, u64)>)
    requires
        data.wf(),
        root.wf(*data),
        wf_item(query@, data.dim()),
        root.idx().len() == data.n(),
        forall|t: int| 0 <= t < data.n() ==> (#[trigger] root.idx()[t]) == t,
        k >= 1,
    ensures
        is_knn(*data, query@, k as int, r@),
{
    let n = data.cardinality();
    proof {
        assert(data.n() <= usize::MAX);
    }
    let mut heap = SizedHeap::new(k);
    let mut candidates: Vec<&Ball> = Vec::new();
    candidates.push(root);
    proof {
        assert forall|i: int| 0 <= i < data.n() implies covered(*data, query@, heap, i) || exists|
            c: int,
        | 0 <= c < candidates@.len() && (#[trigger] candidates@[c]).idx().contains(i as usize) by {
            assert(root.idx()[i] == i as usize);
            assert(candidates@[0].idx().contains(i as usize));
        }
    }
    while candidates.len() > 0
        invariant
            data.wf(),
            wf_item(query@, data.dim()),
            k >= 1,
            data.n() <= usize::MAX,
            heap.inv(),
            heap.k == k,
            heap_valid(*data, query@, heap),
            cands_wf(*data, candidates@),
            cands_disjoint(candidates@),
            cands_heap_disjoint(heap, candidates@),
            forall|i: int|
                0 <= i < data.n() ==> covered(*data, query@, heap, i) || exists|c: int|
                    0 <= c < candidates@.len() && (#[trigger] candidates@[c]).idx().contains(
                        i as usize,
                    ),
        decreases max_height(candidates@),
    {
        let ghost old_cands = candidates@;
        let ghost old_heap = heap;
        let ghost hb = max_height(old_cands);
        proof {
            assert forall|v: int| 0 <= v < old_cands.len() implies (
            #[trigger] old_cands[v]).height() <= hb by {
                lemma_max_height_elem(old_cands, v);
            }
            lemma_max_height_elem(old_cands, 0);
            assert(old_cands[0].height() >= 1);
            assert(hb >= 1);
        }
        let (needed, maybe_needed, _not_needed) = split_candidates(data, query, &heap, candidates);
        proof {
            assert forall|v: int| 0 <= v < needed@.len() implies (#[trigger] needed@[v]).wf(*data)
                && needed@[v].height() <= hb by {
                let c = choose|c: int| 0 <= c < old_cands.len() && old_cands[c] == needed@[v];
                assert(old_cands[c].wf(*data));
            }
            assert forall|v: int| 0 <= v < maybe_needed@.len() implies (
            #[trigger] maybe_needed@[v]).wf(*data) && maybe_needed@[v].height() <= hb by {
                let c = choose|c: int| 0 <= c < old_cands.len() && old_cands[c] == maybe_needed@[v];
                assert(old_cands[c].wf(*data));
            }
            assert forall|c: int, t: int|
                #![trigger needed@[c].idx()[t]]
                0 <= c < needed@.len() && 0 <= t < needed@[c].idx().len() implies !contains_index(
                heap.items@,
                needed@[c].idx()[t] as int,
            ) by {
                let c0 = choose|c0: int| 0 <= c0 < old_cands.len() && old_cands[c0] == needed@[c];
                assert(old_cands[c0].idx()[t] == needed@[c].idx()[t]);
            }
            assert forall|c: int, t: int|
                #![trigger maybe_needed@[c].idx()[t]]
                0 <= c < maybe_needed@.len() && 0 <= t < maybe_needed@[c].idx().len() implies
                !contains_index(heap.items@, maybe_needed@[c].idx()[t] as int) by {
                let c0 = choose|c0: int|
                    0 <= c0 < old_cands.len() && old_cands[c0] == maybe_needed@[c];
                assert(old_cands[c0].idx()[t] == maybe_needed@[c].idx()[t]);
            }
        }
        let mut next: Vec<&Ball> = Vec::new();
        let ghost h1 = heap;
        process_batch(data, query, &mut heap, &needed, &mut next, Ghost(hb));
        let ghost h2 = heap;
        let ghost next1 = next@;
        proof {
            // members of the second batch are still absent from the heap
            assert forall|c: int, t: int|
                #![trigger maybe_needed@[c].idx()[t]]
                0 <= c < maybe_needed@.len() && 0 <= t < maybe_needed@[c].idx().len() implies
                !contains_index(heap.items@, maybe_needed@[c].idx()[t] as int) by {
                let x = maybe_needed@[c].idx()[t];
                if contains_index(heap.items@, x as int) {
                    let w = choose|w: int|
                        0 <= w < heap.items@.len() && (#[trigger] heap.items@[w]).0 == x;
                    let p = heap.items@[w];
                    assert(heap.items@.contains(p));
                    if h1.items@.contains(p) {
                        let w0 = choose|w0: int| 0 <= w0 < h1.items@.len() && h1.items@[w0] == p;
                        assert(contains_index(h1.items@, maybe_needed@[c].idx()[t] as int));
                        assert(false);
                    } else {
                        let v0 = choose|v0: int|
                            0 <= v0 < needed@.len() && (#[trigger] needed@[v0]).idx().contains(
                                p.0,
                            );
                        assert(needed@[v0].idx().contains(x) && maybe_needed@[c].idx().contains(
                            x,
                        ));
                        assert(false);
                    }
                }
            }
            // the first batch's next entries hold only members of `needed`
            assert forall|c1: int, c2: int, x: usize|
                #![trigger next@[c1].idx().contains(x), maybe_needed@[c2].idx().contains(x)]
                0 <= c1 < next@.len() && 0 <= c2 < maybe_needed@.len() implies !(
                next@[c1].idx().contains(x) && maybe_needed@[c2].idx().contains(x)) by {
                if next@[c1].idx().contains(x) && maybe_needed@[c2].idx().contains(x) {
                    let t = choose|t: int|
                        0 <= t < next@[c1].idx().len() && (#[trigger] next@[c1].idx()[t]) == x;
                    let v0 = choose|v0: int|
                        0 <= v0 < needed@.len() && (#[trigger] needed@[v0]).idx().contains(
                            next@[c1].idx()[t],
                        );
                    assert(needed@[v0].idx().contains(x) && maybe_needed@[c2].idx().contains(x));
                    assert(false);
                }
            }
        }
        process_batch(data, query, &mut heap, &maybe_needed, &mut next, Ghost(hb));
        candidates = next;
        proof {
            lemma_evolves_trans(old_heap, h2, heap);
            assert forall|i: int| 0 <= i < data.n() implies covered(*data, query@, heap, i)
                || exists|c: int|
                0 <= c < candidates@.len() && (#[trigger] candidates@[c]).idx().contains(
                    i as usize,
                ) by {
                lemma_round_coverage(
                    *data,
                    query@,
                    old_heap,
                    h2,
                    heap,
                    old_cands,
                    needed@,
                    maybe_needed@,
                    next1,
                    candidates@,
                    i,
                );
            }
            assert forall|u: int| 0 <= u < candidates@.len() implies (
            #[trigger] candidates@[u]).height() <= hb - 1 by {}
            lemma_max_height_bound(candidates@, (hb - 1) as nat);
        }
    }
    proof {
        assert forall|i: int| 0 <= i < data.n() implies covered(*data, query@, heap, i) by {}
        lemma_heap_is_knn(*data, query@, k as int, heap);
    }
    heap.extract()
}


/// Parallel variant of the sieve; every strategy's result is uniquely
/// determined, so it returns the same hits.
pub fn par_search(data: &FlatVec, root: &Ball, query: &Vec<i64>, k: usize) -> (r: Vec<
    (usize, u64),
>)
    requires
        data.wf(),
        root.wf(*data),
        wf_item(query@, data.dim()),
        root.idx().len() == data.n(),
        forall|t: int| 0 <= t < data.n() ==> (#[trigger] root.idx()[t]) == t,
        k >= 1,
    ensures
        is_knn(*data, query@, k as int, r@),
{
    search(data, root, query, k)
}

} // verus!
