//! A built tree bundled with its dataset, and the model around it.

use vstd::prelude::*;

use crate::cluster::{Ball, PartitionCriteria};
use crate::dataset::FlatVec;
use crate::metric::wf_item;
use crate::search::{is_knn, is_rnn, rnn, KnnAlgorithm};

verus! {

/// A ball tree over the whole of a dataset, kept together with it.
pub struct Tree {
    /// The dataset the tree was built over.
    pub data: FlatVec,
    /// The root of the hierarchy.
    pub root: Ball,
}

impl Tree {
    /// Well-formedness: the dataset is sound and the root covers exactly its
    /// items, in order.
    pub open spec fn wf(&self) -> bool {
        &&& self.data.wf()
        &&& self.root.wf(self.data)
        &&& self.root.idx().len() == self.data.n()
        &&& forall|t: int| 0 <= t < self.data.n() ==> (#[trigger] self.root.idx()[t]) == t
    }

    /// Build the tree over a dataset.
    pub fn new(data: FlatVec, criteria: &PartitionCriteria, seed: Option<u64>) -> (r: Tree)
        requires
            data.wf(),
        ensures
            r.wf(),
            r.data == data,
    {
        let root = Ball::new_tree(&data, criteria, seed);
        Tree { data, root }
    }

    /// The dataset of the tree.
    pub fn data(&self) -> (r: &FlatVec)
        ensures
            r == self.data,
    {
        &self.data
    }

    /// The root of the tree.
    pub fn root(&self) -> (r: &Ball)
        ensures
            r == self.root,
    {
        &self.root
    }

    /// The radius of the root.
    pub fn radius(&self) -> (r: u64)
        ensures
            r == self.root.radius,
    {
        self.root.radius()
    }

    /// The number of items the tree covers.
    pub fn cardinality(&self) -> (r: usize)
        ensures
            r == self.root.card(),
    {
        self.root.cardinality()
    }

    /// The item indices the tree covers.
    pub fn indices(&self) -> (r: Vec<usize>)
        ensures
            r@ == self.root.idx(),
    {
        self.root.indices()
    }
}

/// The search model: a dataset and the tree built over it.
pub struct Cakes {
    /// The tree and its dataset.
    pub tree: Tree,
}

impl Cakes {
    /// Build the model over a dataset.
    pub fn new(data: FlatVec, seed: Option<u64>, criteria: PartitionCriteria) -> (r: Cakes)
        requires
            data.wf(),
        ensures
            r.tree.wf(),
            r.tree.data == data,
    {
        Cakes { tree: Tree::new(data, &criteria, seed) }
    }

    /// The tree of the model.
    pub fn tree(&self) -> (r: &Tree)
        ensures
            r == self.tree,
    {
        &self.tree
    }

    /// The k items nearest the query, under the chosen strategy.
    pub fn knn_search(&self, query: &Vec<i64>, k: usize, algorithm: KnnAlgorithm) -> (r: Vec<
        (usize, u64),
    >)
        requires
            self.tree.wf(),
            wf_item(query@, self.tree.data.dim()),
            k >= 1,
        ensures
            is_knn(self.tree.data, query@, k as int, r@),
    {
        algorithm.search(&self.tree.data, &self.tree.root, query, k)
    }

    /// Exactly the items within `radius` of the query.
    pub fn rnn_search(&self, query: &Vec<i64>, radius: u64) -> (r: Vec<(usize, u64)>)
        requires
            self.tree.wf(),
            wf_item(query@, self.tree.data.dim()),
        ensures
            is_rnn(self.tree.data, query@, radius as int, r@),
    {
        rnn::search(&self.tree.data, &self.tree.root, query, radius)
    }

    /// One k-nearest-neighbour search per query, in order.
    pub fn batch_knn_search(
        &self,
        queries: &Vec<Vec<i64>>,
        k: usize,
        algorithm: KnnAlgorithm,
    ) -> (r: Vec<Vec<(usize, u64)>>)
        requires
            self.tree.wf(),
            forall|q: int|
                0 <= q < queries@.len() ==> wf_item(
                    (#[trigger] queries@[q])@,
                    self.tree.data.dim(),
                ),
            k >= 1,
        ensures
            r@.len() == queries@.len(),
            forall|q: int|
                0 <= q < queries@.len() ==> is_knn(
                    self.tree.data,
                    queries@[q]@,
                    k as int,
                    (#[trigger] r@[q])@,
                ),
    {
        let mut out: Vec<Vec<(usize, u64)>> = Vec::new();
        let mut q: usize = 0;
        while q < queries.len()
            invariant
                q <= queries@.len(),
                self.tree.wf(),
                forall|w: int|
                    0 <= w < queries@.len() ==> wf_item(
                        (#[trigger] queries@[w])@,
                        self.tree.data.dim(),
                    ),
                k >= 1,
                out@.len() == q,
                forall|w: int|
                    0 <= w < q ==> is_knn(
                        self.tree.data,
                        queries@[w]@,
                        k as int,
                        (#[trigger] out@[w])@,
                    ),
            decreases queries@.len() - q,
        {
            out.push(self.knn_search(&queries[q], k, algorithm));
            q = q + 1;
        }
        out
    }

    /// Parallel variant of `batch_knn_search`: the same results, query by
    /// query, since every strategy's result is uniquely determined.
    pub fn par_batch_knn_search(
        &self,
        queries: &Vec<Vec<i64>>,
        k: usize,
        algorithm: KnnAlgorithm,
    ) -> (r: Vec<Vec<(usize, u64)>>)
        requires
            self.tree.wf(),
            forall|q: int|
                0 <= q < queries@.len() ==> wf_item(
                    (#[trigger] queries@[q])@,
                    self.tree.data.dim(),
                ),
            k >= 1,
        ensures
            r@.len() == queries@.len(),
            forall|q: int|
                0 <= q < queries@.len() ==> is_knn(
                    self.tree.data,
                    queries@[q]@,
                    k as int,
                    (#[trigger] r@[q])@,
                ),
    {
        self.batch_knn_search(queries, k, algorithm)
    }
}

/// Some position of `r` holds the ball `b`.
pub open spec fn appears(r: Seq<&Ball>, b: Ball) -> bool {
    exists|v: int| 0 <= v < r.len() && *(#[trigger] r[v]) == b
}

/// A ball appearing in `r` also appears after a push.
proof fn lemma_appears_push(r: Seq<&Ball>, x: &Ball, b: Ball)
    requires
        appears(r, b),
    ensures
        appears(r.push(x), b),
{
    let v = choose|v: int| 0 <= v < r.len() && *(#[trigger] r[v]) == b;
    assert(*(r.push(x)[v]) == b);
}

impl Ball {
    /// Whether a child's ball overlaps the query ball.
    pub open spec fn child_overlaps(&self, data: FlatVec, q: Seq<i64>, radius: u64, c: int) -> bool {
        data.dq(q, self.children@[c].2.arg_center as int) <= self.children@[c].2.radius as int
            + radius as int
    }

    /// `b` is one of the children numbered in `[lo, hi)` whose ball overlaps
    /// the query ball.
    pub open spec fn overlapping_in(
        &self,
        data: FlatVec,
        q: Seq<i64>,
        radius: u64,
        lo: int,
        hi: int,
        b: Ball,
    ) -> bool {
        exists|c: int|
            lo <= c < hi && *(#[trigger] self.children@[c].2) == b && self.child_overlaps(
                data,
                q,
                radius,
                c,
            )
    }

    /// Widening the range keeps an overlapping child overlapping.
    proof fn lemma_overlapping_widen(
        &self,
        data: FlatVec,
        q: Seq<i64>,
        radius: u64,
        lo: int,
        hi: int,
        lo2: int,
        hi2: int,
        b: Ball,
    )
        requires
            self.overlapping_in(data, q, radius, lo, hi, b),
            lo2 <= lo,
            hi <= hi2,
        ensures
            self.overlapping_in(data, q, radius, lo2, hi2, b),
    {
        let c = choose|c: int|
            lo <= c < hi && *(#[trigger] self.children@[c].2) == b && self.child_overlaps(
                data,
                q,
                radius,
                c,
            );
        assert(lo2 <= c < hi2 && *(self.children@[c].2) == b);
    }

    /// The children whose balls overlap the query ball: starting from the
    /// first overlapping child, the later overlapping children first and the
    /// first one last.
    pub fn overlapping_clusters(&self, data: &FlatVec, query: &Vec<i64>, radius: u64) -> (r: Vec<
        &Ball,
    >)
        requires
            data.wf(),
            self.wf(*data),
            wf_item(query@, data.dim()),
        ensures
            forall|v: int|
                0 <= v < r@.len() ==> self.overlapping_in(
                    *data,
                    query@,
                    radius,
                    0,
                    self.children@.len() as int,
                    *(#[trigger] r@[v]),
                ),
            forall|c: int|
                0 <= c < self.children@.len() && self.child_overlaps(
                    *data,
                    query@,
                    radius,
                    c,
                ) ==> appears(r@, *(#[trigger] self.children@[c]).2),
    {
        let nc = self.children.len();
        let mut anchor: usize = 0;
        let mut found = false;
        while anchor < nc && !found
            invariant
                anchor <= nc,
                nc == self.children@.len(),
                data.wf(),
                self.wf(*data),
                wf_item(query@, data.dim()),
                !found ==> forall|w: int|
                    0 <= w < anchor ==> !self.child_overlaps(*data, query@, radius, w),
                found ==> anchor < nc && self.child_overlaps(*data, query@, radius, anchor as int)
                    && forall|w: int|
                    0 <= w < anchor ==> !self.child_overlaps(*data, query@, radius, w),
            decreases nc - anchor, (if found { 0int } else { 1int }),
        {
            proof {
                self.lemma_wf_child(*data, anchor as int);
            }
            let child = &self.children[anchor].2;
            let d = child.distance_to_center(data, query);
            if d <= child.radius() || d - child.radius() <= radius {
                found = true;
            } else {
                anchor = anchor + 1;
            }
        }
        let mut out: Vec<&Ball> = Vec::new();
        if !found {
            proof {
                assert(forall|w: int|
                    0 <= w < nc ==> !self.child_overlaps(*data, query@, radius, w));
            }
            return out;
        }
        let mut w = anchor + 1;
        while w < nc
            invariant
                anchor < w <= nc,
                nc == self.children@.len(),
                data.wf(),
                self.wf(*data),
                wf_item(query@, data.dim()),
                self.child_overlaps(*data, query@, radius, anchor as int),
                forall|v: int|
                    0 <= v < out@.len() ==> self.overlapping_in(
                        *data,
                        query@,
                        radius,
                        anchor as int + 1,
                        w as int,
                        *(#[trigger] out@[v]),
                    ),
                forall|cc: int|
                    (anchor as int) < cc < w && self.child_overlaps(
                        *data,
                        query@,
                        radius,
                        cc,
                    ) ==> appears(out@, *(#[trigger] self.children@[cc]).2),
            decreases nc - w,
        {
            proof {
                self.lemma_wf_child(*data, w as int);
            }
            let child = &self.children[w].2;
            let d = child.distance_to_center(data, query);
            let ghost pre = out@;
            if d <= child.radius() || d - child.radius() <= radius {
                out.push(child);
                proof {
                    assert(out@ == pre.push(child));
                    assert(self.child_overlaps(*data, query@, radius, w as int));
                    assert(*(self.children@[w as int].2) == *child);
                    assert forall|v: int| 0 <= v < out@.len() implies self.overlapping_in(
                        *data,
                        query@,
                        radius,
                        anchor as int + 1,
                        w as int + 1,
                        *(#[trigger] out@[v]),
                    ) by {
                        if v < pre.len() {
                            assert(out@[v] == pre[v]);
                            self.lemma_overlapping_widen(
                                *data,
                                query@,
                                radius,
                                anchor as int + 1,
                                w as int,
                                anchor as int + 1,
                                w as int + 1,
                                *pre[v],
                            );
                        } else {
                            assert(*out@[v] == *child);
                        }
                    }
                    assert forall|cc: int|
                        (anchor as int) < cc < w + 1 && self.child_overlaps(
                            *data,
                            query@,
                            radius,
                            cc,
                        ) implies appears(out@, *(#[trigger] self.children@[cc]).2) by {
                        if cc < w {
                            lemma_appears_push(pre, child, *self.children@[cc].2);
                        } else {
                            assert(*(out@[out@.len() - 1]) == *self.children@[cc].2);
                        }
                    }
                }
            } else {
                proof {
                    assert(!self.child_overlaps(*data, query@, radius, w as int));
                    assert forall|v: int| 0 <= v < out@.len() implies self.overlapping_in(
                        *data,
                        query@,
                        radius,
                        anchor as int + 1,
                        w as int + 1,
                        *(#[trigger] out@[v]),
                    ) by {
                        self.lemma_overlapping_widen(
                            *data,
                            query@,
                            radius,
                            anchor as int + 1,
                            w as int,
                            anchor as int + 1,
                            w as int + 1,
                            *out@[v],
                        );
                    }
                }
            }
            w = w + 1;
        }
        let ghost pre = out@;
        let anchor_child = &self.children[anchor].2;
        out.push(anchor_child);
        proof {
            assert(out@ == pre.push(anchor_child));
            assert(*(self.children@[anchor as int].2) == *anchor_child);
            assert forall|v: int| 0 <= v < out@.len() implies self.overlapping_in(
                *data,
                query@,
                radius,
                0,
                nc as int,
                *(#[trigger] out@[v]),
            ) by {
                if v < pre.len() {
                    assert(out@[v] == pre[v]);
                    self.lemma_overlapping_widen(
                        *data,
                        query@,
                        radius,
                        anchor as int + 1,
                        nc as int,
                        0,
                        nc as int,
                        *pre[v],
                    );
                } else {
                    assert(*out@[v] == *anchor_child);
                }
            }
            assert forall|cc: int|
                0 <= cc < nc && self.child_overlaps(*data, query@, radius, cc) implies appears(
                out@,
                *(#[trigger] self.children@[cc]).2,
            ) by {
                if cc < anchor {
                } else if cc == anchor {
                    assert(*(out@[out@.len() - 1]) == *self.children@[cc].2);
                } else {
                    lemma_appears_push(pre, anchor_child, *self.children@[cc].2);
                }
            }
        }
        out
    }

    /// Parallel variant of `overlapping_clusters`: the same children.
    pub fn par_overlapping_clusters(&self, data: &FlatVec, query: &Vec<i64>, radius: u64) -> (r:
        Vec<&Ball>)
        requires
            data.wf(),
            self.wf(*data),
            wf_item(query@, data.dim()),
        ensures
            forall|v: int|
                0 <= v < r@.len() ==> self.overlapping_in(
                    *data,
                    query@,
                    radius,
                    0,
                    self.children@.len() as int,
                    *(#[trigger] r@[v]),
                ),
            forall|c: int|
                0 <= c < self.children@.len() && self.child_overlaps(
                    *data,
                    query@,
                    radius,
                    c,
                ) ==> appears(r@, *(#[trigger] self.children@[c]).2),
    {
        self.overlapping_clusters(data, query, radius)
    }
}

} // verus!
