//! Range search: all items within a given radius of the query.
//!
//! The descent classifies every visited node against the query ball.  A node
//! entirely inside it is *confirmed*: all its members are hits.  A node
//! entirely outside it is *pruned*: none are.  A node straddling the boundary
//! has its members tested directly when it is a leaf, and is otherwise
//! descended into.

use vstd::prelude::*;

use super::{contains_index, is_rnn, lemma_contains_index_append};
use crate::cluster::Ball;
use crate::dataset::FlatVec;
use crate::metric::wf_item;

verus! {

/// Whether the hit `p` was drawn from one of the first `c` children of
/// `node`.
pub open spec fn from_children(node: Ball, c: int, p: (usize, u64)) -> bool {
    exists|cc: int| 0 <= cc < c && (#[trigger] node.children@[cc].2.idx()).contains(p.0)
}

/// Append the elements of `sub` to `acc`.
fn append_hits(acc: &mut Vec<(usize, u64)>, sub: &Vec<(usize, u64)>)
    ensures
        final(acc)@ == old(acc)@ + sub@,
{
    let mut t: usize = 0;
    while t < sub.len()
        invariant
            t <= sub@.len(),
            acc@ == old(acc)@ + sub@.take(t as int),
        decreases sub@.len() - t,
    {
        acc.push(sub[t]);
        proof {
            assert(sub@.take(t as int).push(sub@[t as int]) =~= sub@.take(t as int + 1));
            assert(acc@ =~= old(acc)@ + sub@.take(t as int + 1));
        }
        t = t + 1;
    }
    proof {
        assert(sub@.take(sub@.len() as int) =~= sub@);
    }
}

/// Collect the members of `node` that lie within `radius` of the query,
/// each with its exact distance.
pub fn tree_search(data: &FlatVec, node: &Ball, query: &Vec<i64>, radius: u64) -> (r: Vec<
    (usize, u64),
>)
    requires
        data.wf(),
        node.wf(*data),
        wf_item(query@, data.dim()),
    ensures
        forall|w: int|
            0 <= w < r@.len() ==> node.idx().contains((#[trigger] r@[w]).0) && r@[w].0 < data.n()
                && r@[w].1 as int == data.dq(query@, r@[w].0 as int) && r@[w].1 <= radius,
        forall|t: int|
            0 <= t < node.idx().len() && data.dq(query@, (#[trigger] node.idx()[t]) as int)
                <= radius as int ==> contains_index(r@, node.idx()[t] as int),
        forall|w1: int, w2: int|
            0 <= w1 < w2 < r@.len() ==> (#[trigger] r@[w1]).0 != (#[trigger] r@[w2]).0,
    decreases *node,
{
    let mut hits: Vec<(usize, u64)> = Vec::new();
    let delta = node.distance_to_center(data, query);
    if delta <= radius && radius - delta >= node.radius() {
        // Confirmed: every member is within the query ball.
        if node.is_singleton() {
            let m = node.cardinality();
            let mut t: usize = 0;
            while t < m
                invariant
                    t <= m,
                    m == node.idx().len(),
                    data.wf(),
                    node.wf(*data),
                    wf_item(query@, data.dim()),
                    node.card() == 1 || node.radius == 0,
                    delta as int == data.dq(query@, node.arg_center as int),
                    delta <= radius,
                    hits@.len() == t,
                    forall|w: int| 0 <= w < t ==> #[trigger] hits@[w] == (node.idx()[w], delta),
                decreases m - t,
            {
                proof {
                    node.lemma_singleton_distances(*data, query@, t as int);
                }
                hits.push((node.indices[t], delta));
                t = t + 1;
            }
            proof {
                assert forall|t0: int|
                    0 <= t0 < node.idx().len() && data.dq(
                        query@,
                        (#[trigger] node.idx()[t0]) as int,
                    ) <= radius as int implies contains_index(hits@, node.idx()[t0] as int) by {
                    assert(hits@[t0].0 == node.idx()[t0]);
                }
                assert forall|w: int| 0 <= w < hits@.len() implies node.idx().contains(
                    (#[trigger] hits@[w]).0,
                ) && hits@[w].0 < data.n() && hits@[w].1 as int == data.dq(
                    query@,
                    hits@[w].0 as int,
                ) && hits@[w].1 <= radius by {
                    assert(hits@[w].0 == node.idx()[w]);
                    node.lemma_singleton_distances(*data, query@, w);
                }
                assert forall|w1: int, w2: int|
                    0 <= w1 < w2 < hits@.len() implies (#[trigger] hits@[w1]).0 != (
                #[trigger] hits@[w2]).0 by {
                    assert(hits@[w1].0 == node.idx()[w1]);
                    assert(hits@[w2].0 == node.idx()[w2]);
                }
            }
        } else {
            let dists = data.query_to_many(query, &node.indices);
            let m = node.cardinality();
            let mut t: usize = 0;
            while t < m
                invariant
                    t <= m,
                    m == node.idx().len(),
                    data.wf(),
                    node.wf(*data),
                    wf_item(query@, data.dim()),
                    delta as int == data.dq(query@, node.arg_center as int),
                    delta <= radius,
                    radius - delta >= node.radius,
                    dists@.len() == m,
                    forall|w: int|
                        0 <= w < m ==> #[trigger] dists@[w] as int == data.dq(
                            query@,
                            node.idx()[w] as int,
                        ),
                    hits@.len() == t,
                    forall|w: int|
                        0 <= w < t ==> #[trigger] hits@[w] == (node.idx()[w], dists@[w]),
                decreases m - t,
            {
                proof {
                    node.lemma_member_query_bounds(*data, query@, t as int);
                }
                hits.push((node.indices[t], dists[t]));
                t = t + 1;
            }
            proof {
                assert forall|t0: int|
                    0 <= t0 < node.idx().len() && data.dq(
                        query@,
                        (#[trigger] node.idx()[t0]) as int,
                    ) <= radius as int implies contains_index(hits@, node.idx()[t0] as int) by {
                    assert(hits@[t0].0 == node.idx()[t0]);
                }
                assert forall|w: int| 0 <= w < hits@.len() implies node.idx().contains(
                    (#[trigger] hits@[w]).0,
                ) && hits@[w].0 < data.n() && hits@[w].1 as int == data.dq(
                    query@,
                    hits@[w].0 as int,
                ) && hits@[w].1 <= radius by {
                    assert(hits@[w].0 == node.idx()[w]);
                    assert(hits@[w].1 == dists@[w]);
                    node.lemma_member_query_bounds(*data, query@, w);
                }
                assert forall|w1: int, w2: int|
                    0 <= w1 < w2 < hits@.len() implies (#[trigger] hits@[w1]).0 != (
                #[trigger] hits@[w2]).0 by {
                    assert(hits@[w1].0 == node.idx()[w1]);
                    assert(hits@[w2].0 == node.idx()[w2]);
                }
            }
        }
    } else if delta > node.radius() && delta - node.radius() > radius {
        // Pruned: no member can be within the query ball.
        proof {
            assert forall|t0: int|
                0 <= t0 < node.idx().len() implies data.dq(
                query@,
                (#[trigger] node.idx()[t0]) as int,
            ) > radius as int by {
                node.lemma_member_query_bounds(*data, query@, t0);
            }
        }
    } else if node.is_leaf() {
        // Straddler leaf: test each member directly.
        let dists = data.query_to_many(query, &node.indices);
        let m = node.cardinality();
        let mut t: usize = 0;
        while t < m
            invariant
                t <= m,
                m == node.idx().len(),
                data.wf(),
                node.wf(*data),
                wf_item(query@, data.dim()),
                dists@.len() == m,
                forall|w: int|
                    0 <= w < m ==> #[trigger] dists@[w] as int == data.dq(
                        query@,
                        node.idx()[w] as int,
                    ),
                forall|w: int|
                    0 <= w < hits@.len() ==> node.idx().contains((#[trigger] hits@[w]).0)
                        && hits@[w].0 < data.n() && hits@[w].1 as int == data.dq(
                        query@,
                        hits@[w].0 as int,
                    ) && hits@[w].1 <= radius,
                forall|t0: int|
                    0 <= t0 < t && data.dq(query@, (#[trigger] node.idx()[t0]) as int)
                        <= radius as int ==> contains_index(hits@, node.idx()[t0] as int),
                forall|w1: int, w2: int|
                    0 <= w1 < w2 < hits@.len() ==> (#[trigger] hits@[w1]).0 != (
                    #[trigger] hits@[w2]).0,
                forall|w: int|
                    0 <= w < hits@.len() ==> exists|t0: int|
                        0 <= t0 < t && (#[trigger] hits@[w]).0 == node.idx()[t0],
            decreases m - t,
        {
            let ghost pre = hits@;
            if dists[t] <= radius {
                proof {
                    if contains_index(hits@, node.idx()[t as int] as int) {
                        let w = choose|w: int|
                            0 <= w < hits@.len() && (#[trigger] hits@[w]).0 == node.idx()[t as int];
                        let t0 = choose|t0: int|
                            0 <= t0 < t && (#[trigger] hits@[w]).0 == node.idx()[t0];
                        assert(node.idx()[t0] == node.idx()[t as int]);
                        assert(false);
                    }
                }
                hits.push((node.indices[t], dists[t]));
                proof {
                    assert(hits@ == pre.push((node.idx()[t as int], dists@[t as int])));
                    assert(hits@.last().0 == node.idx()[t as int]);
                    assert forall|w: int| 0 <= w < hits@.len() implies exists|t0: int|
                        0 <= t0 < t + 1 && (#[trigger] hits@[w]).0 == node.idx()[t0] by {
                        if w < pre.len() {
                            assert(hits@[w] == pre[w]);
                            let t0 = choose|t0: int|
                                0 <= t0 < t && (#[trigger] pre[w]).0 == node.idx()[t0];
                            assert(0 <= t0 < t + 1 && hits@[w].0 == node.idx()[t0]);
                        } else {
                            assert(hits@[w].0 == node.idx()[t as int]);
                        }
                    }
                    assert forall|t0: int|
                        0 <= t0 < t + 1 && data.dq(query@, (#[trigger] node.idx()[t0]) as int)
                            <= radius as int implies contains_index(
                        hits@,
                        node.idx()[t0] as int,
                    ) by {
                        if t0 < t {
                            let w = choose|w: int|
                                0 <= w < pre.len() && (#[trigger] pre[w]).0 == node.idx()[t0];
                            assert(hits@[w] == pre[w]);
                        } else {
                            assert(hits@[hits@.len() - 1].0 == node.idx()[t0]);
                        }
                    }
                }
            } else {
                proof {
                    assert forall|t0: int|
                        0 <= t0 < t + 1 && data.dq(query@, (#[trigger] node.idx()[t0]) as int)
                            <= radius as int implies contains_index(
                        hits@,
                        node.idx()[t0] as int,
                    ) by {
                        if t0 == t {
                            assert(data.dq(query@, node.idx()[t0] as int) == dists@[t as int]);
                            assert(false);
                        }
                    }
                }
            }
            t = t + 1;
        }
    } else {
        // Straddler internal node: descend into the children.
        let nc = node.children.len();
        let mut c: usize = 0;
        while c < nc
            invariant
                c <= nc,
                nc == node.children@.len(),
                nc > 0,
                data.wf(),
                node.wf(*data),
                wf_item(query@, data.dim()),
                forall|w: int|
                    0 <= w < hits@.len() ==> (#[trigger] hits@[w]).0 < data.n() && hits@[w].1 as int
                        == data.dq(query@, hits@[w].0 as int) && hits@[w].1 <= radius,
                forall|w: int|
                    0 <= w < hits@.len() ==> from_children(*node, c as int, #[trigger] hits@[w]),
                forall|cc: int, t0: int|
                    #![trigger node.children@[cc].2.idx()[t0]]
                    0 <= cc < c && 0 <= t0 < node.children@[cc].2.idx().len() && data.dq(
                        query@,
                        node.children@[cc].2.idx()[t0] as int,
                    ) <= radius as int ==> contains_index(
                        hits@,
                        node.children@[cc].2.idx()[t0] as int,
                    ),
                forall|w1: int, w2: int|
                    0 <= w1 < w2 < hits@.len() ==> (#[trigger] hits@[w1]).0 != (
                    #[trigger] hits@[w2]).0,
            decreases nc - c,
        {
            proof {
                node.lemma_wf_child(*data, c as int);
            }
            let sub = tree_search(data, &node.children[c].2, query, radius);
            let ghost pre = hits@;
            append_hits(&mut hits, &sub);
            proof {
                assert(hits@ == pre + sub@);
                assert forall|w: int| 0 <= w < hits@.len() implies (#[trigger] hits@[w]).0
                    < data.n() && hits@[w].1 as int == data.dq(query@, hits@[w].0 as int)
                    && hits@[w].1 <= radius && from_children(*node, c as int + 1, hits@[w]) by {
                    if w < pre.len() {
                        assert(hits@[w] == pre[w]);
                        let cc = choose|cc: int|
                            0 <= cc < c && (#[trigger] node.children@[cc].2.idx()).contains(
                                pre[w].0,
                            );
                        assert(0 <= cc < c as int + 1 && node.children@[cc].2.idx().contains(
                            hits@[w].0,
                        ));
                    } else {
                        assert(hits@[w] == sub@[w - pre.len()]);
                        assert(node.children@[c as int].2.idx().contains(hits@[w].0));
                        let t0 = choose|t0: int|
                            0 <= t0 < node.children@[c as int].2.idx().len() && (
                            #[trigger] node.children@[c as int].2.idx()[t0]) == hits@[w].0;
                        node.lemma_member_in_some_child(*data, hits@[w].0);
                        let tn = choose|tn: int|
                            0 <= tn < node.idx().len() && (#[trigger] node.idx()[tn]) == hits@[w].0;
                        assert(hits@[w].0 < data.n());
                    }
                }
                assert forall|cc: int, t0: int|
                    #![trigger node.children@[cc].2.idx()[t0]]
                    0 <= cc < c as int + 1 && 0 <= t0 < node.children@[cc].2.idx().len() && data.dq(
                        query@,
                        node.children@[cc].2.idx()[t0] as int,
                    ) <= radius as int implies contains_index(
                    hits@,
                    node.children@[cc].2.idx()[t0] as int,
                ) by {
                    lemma_contains_index_append(
                        pre,
                        sub@,
                        node.children@[cc].2.idx()[t0] as int,
                    );
                }
                assert forall|w1: int, w2: int|
                    0 <= w1 < w2 < hits@.len() implies (#[trigger] hits@[w1]).0 != (
                #[trigger] hits@[w2]).0 by {
                    if w1 < pre.len() && w2 >= pre.len() {
                        let cc = choose|cc: int|
                            0 <= cc < c && (#[trigger] node.children@[cc].2.idx()).contains(
                                pre[w1].0,
                            );
                        assert(node.children@[c as int].2.idx().contains(sub@[w2 - pre.len()].0));
                        node.lemma_children_disjoint(*data, cc, c as int, hits@[w1].0);
                        if hits@[w1].0 == hits@[w2].0 {
                            assert(false);
                        }
                    } else if w1 >= pre.len() {
                        assert(sub@[w1 - pre.len()].0 != sub@[w2 - pre.len()].0);
                    } else {
                        assert(pre[w1].0 != pre[w2].0);
                    }
                }
            }
            c = c + 1;
        }
        proof {
            assert forall|t0: int|
                0 <= t0 < node.idx().len() && data.dq(query@, (#[trigger] node.idx()[t0]) as int)
                    <= radius as int implies contains_index(hits@, node.idx()[t0] as int) by {
                let x = node.idx()[t0];
                node.lemma_member_in_some_child(*data, x);
                assert(node.idx().contains(x));
                let cc = choose|cc: int|
                    0 <= cc < node.children@.len() && (#[trigger] node.children@[cc].2.idx()).contains(
                        x,
                    );
                let tc = choose|tc: int|
                    0 <= tc < node.children@[cc].2.idx().len() && (
                    #[trigger] node.children@[cc].2.idx()[tc]) == x;
                assert(contains_index(hits@, node.children@[cc].2.idx()[tc] as int));
            }
            assert forall|w: int| 0 <= w < hits@.len() implies node.idx().contains(
                (#[trigger] hits@[w]).0,
            ) by {
                node.lemma_member_in_some_child(*data, hits@[w].0);
            }
        }
    }
    hits
}

/// Range search over the whole dataset: exactly the items within `radius` of
/// the query, with their distances.
pub fn search(data: &FlatVec, root: &Ball, query: &Vec<i64>, radius: u64) -> (r: Vec<(usize, u64)>)
    requires
        data.wf(),
        root.wf(*data),
        wf_item(query@, data.dim()),
        root.idx().len() == data.n(),
        forall|t: int| 0 <= t < data.n() ==> (#[trigger] root.idx()[t]) == t,
    ensures
        is_rnn(*data, query@, radius as int, r@),
{
    let r = tree_search(data, root, query, radius);
    proof {
        assert forall|i: int|
            0 <= i < data.n() && data.dq(query@, i) <= radius as int implies contains_index(
            r@,
            i,
        ) by {
            assert(root.idx()[i] == i as usize);
        }
    }
    r
}

} // verus!
