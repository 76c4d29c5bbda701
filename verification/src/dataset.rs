//! An in-memory dataset: an ordered collection of items with a metric.
//!
//! The dataset supports the distance helpers used by tree construction and
//! search, and a permutation hook that reorders the underlying storage while
//! recording the composition of all permutations applied so far.

use rayon::iter::{IntoParallelRefIterator, ParallelIterator};
use vstd::prelude::*;

use crate::metric::{
    abs_val, dist_of, eval_metric, lemma_dist_bound, lemma_dist_nonneg, wf_item, Metric,
    MetricKind, MAX_COORD, MAX_DIM, MAX_DIST,
};

verus! {

/// `p` is a permutation of `{0, .., n-1}`.
pub open spec fn is_permutation(p: Seq<usize>, n: nat) -> bool {
    &&& p.len() == n
    &&& forall|i: int| 0 <= i < n ==> #[trigger] p[i] < n
    &&& forall|i: int, j: int| 0 <= i < j < n ==> p[i] != p[j]
}

/// A flat vector of items, each a bounded integer vector, with a metric and a
/// record of how the storage has been reordered since construction.
#[derive(Clone)]
pub struct FlatVec {
    /// The items, all of one dimensionality.
    pub items: Vec<Vec<i64>>,
    /// The metric used to compare items.
    pub metric: Metric,
    /// Composition of all permutations applied: item `p` of the current
    /// storage is item `permutation[p]` of the original storage.
    pub permutation: Vec<usize>,
    /// One piece of metadata per item, permuted along with the items.
    pub metadata: Vec<usize>,
}

impl FlatVec {
    /// The items as a sequence of coordinate sequences.
    pub open spec fn view_items(&self) -> Seq<Seq<i64>> {
        self.items@.map_values(|v: Vec<i64>| v@)
    }

    /// Number of items.
    pub open spec fn n(&self) -> nat {
        self.items@.len()
    }

    /// Dimensionality shared by all items.
    pub open spec fn dim(&self) -> nat {
        self.view_items()[0].len()
    }

    /// Well-formedness: at least one item, uniform bounded dimensionality,
    /// bounded coordinates, and bookkeeping vectors of matching length.
    pub open spec fn wf(&self) -> bool {
        &&& self.n() >= 1
        &&& self.dim() <= MAX_DIM as nat
        &&& forall|i: int| 0 <= i < self.n() ==> wf_item(#[trigger] self.view_items()[i], self.dim())
        &&& is_permutation(self.permutation@, self.n())
        &&& self.metadata@.len() == self.n()
    }

    /// The distance between items `i` and `j`.
    pub open spec fn d(&self, i: int, j: int) -> int {
        dist_of(self.metric.kind, self.view_items()[i], self.view_items()[j])
    }

    /// The distance between a query and item `i`.
    pub open spec fn dq(&self, q: Seq<i64>, i: int) -> int {
        dist_of(self.metric.kind, q, self.view_items()[i])
    }

    /// Build a dataset, rejecting inputs that are empty, of uneven or
    /// oversized dimensionality, or with out-of-range coordinates.
    pub fn new(items: Vec<Vec<i64>>, metric: Metric) -> (r: Result<FlatVec, String>)
        ensures
            r matches Ok(d) ==> {
                &&& d.wf()
                &&& d.view_items() == items@.map_values(|v: Vec<i64>| v@)
                &&& d.metric == metric
                &&& forall|p: int| 0 <= p < d.n() ==> #[trigger] d.permutation@[p] == p
                &&& forall|p: int| 0 <= p < d.n() ==> #[trigger] d.metadata@[p] == p
            },
            ({
                &&& items@.len() >= 1
                &&& items@[0]@.len() <= MAX_DIM as nat
                &&& forall|i: int|
                    0 <= i < items@.len() ==> wf_item(
                        #[trigger] items@[i]@,
                        items@[0]@.len() as nat,
                    )
            }) <==> r is Ok,
    {
        if items.len() == 0 {
            return Err(String::from_str("empty dataset"));
        }
        let dim = items[0].len();
        if dim > MAX_DIM {
            return Err(String::from_str("item dimensionality too large"));
        }
        let n = items.len();
        let mut i: usize = 0;
        while i < n
            invariant
                i <= n,
                n == items@.len(),
                dim == items@[0]@.len(),
                forall|t: int| 0 <= t < i ==> wf_item(#[trigger] items@[t]@, dim as nat),
            decreases n - i,
        {
            if items[i].len() != dim {
                return Err(String::from_str("items of unequal dimensionality"));
            }
            let row = &items[i];
            let mut j: usize = 0;
            while j < dim
                invariant
                    j <= dim,
                    dim == row@.len(),
                    i < items@.len(),
                    row@ == items@[i as int]@,
                    dim == items@[0]@.len(),
                    forall|t: int| 0 <= t < j ==> abs_val(#[trigger] row@[t] as int) <= MAX_COORD as int,
                decreases dim - j,
            {
                let v = row[j];
                if v < -MAX_COORD || v > MAX_COORD {
                    proof {
                        assert(!wf_item(items@[i as int]@, items@[0]@.len() as nat));
                    }
                    return Err(String::from_str("coordinate out of range"));
                }
                j = j + 1;
            }
            i = i + 1;
        }
        let mut permutation: Vec<usize> = Vec::new();
        let mut metadata: Vec<usize> = Vec::new();
        let mut p: usize = 0;
        while p < n
            invariant
                p <= n,
                permutation@.len() == p,
                metadata@.len() == p,
                forall|t: int| 0 <= t < p ==> #[trigger] permutation@[t] == t,
                forall|t: int| 0 <= t < p ==> #[trigger] metadata@[t] == t,
            decreases n - p,
        {
            permutation.push(p);
            metadata.push(p);
            p = p + 1;
        }
        let d = FlatVec { items, metric, permutation, metadata };
        proof {
            assert(forall|i: int|
                0 <= i < d.n() ==> wf_item(#[trigger] d.view_items()[i], d.dim()));
        }
        Ok(d)
    }

    /// Number of items in the dataset.
    pub fn cardinality(&self) -> (r: usize)
        ensures
            r == self.n(),
    {
        self.items.len()
    }

    /// Borrow item `index`.
    pub fn get(&self, index: usize) -> (r: &Vec<i64>)
        requires
            index < self.n(),
        ensures
            r@ == self.view_items()[index as int],
    {
        &self.items[index]
    }

    /// The metric of the dataset.
    pub fn metric(&self) -> (r: &Metric)
        ensures
            r == self.metric,
    {
        &self.metric
    }

    /// The metadata associated with the items.
    pub fn metadata(&self) -> (r: &Vec<usize>)
        ensures
            r@ == self.metadata@,
    {
        &self.metadata
    }

    /// Replace the metadata, rejecting a vector of the wrong length.
    pub fn with_metadata(self, metadata: Vec<usize>) -> (r: Result<FlatVec, String>)
        ensures
            metadata@.len() == self.n() <==> r is Ok,
            r matches Ok(d) ==> {
                &&& d.items == self.items
                &&& d.metric == self.metric
                &&& d.permutation == self.permutation
                &&& d.metadata == metadata
            },
    {
        if metadata.len() != self.items.len() {
            return Err(String::from_str("metadata length does not match cardinality"));
        }
        let FlatVec { items, metric, permutation, metadata: _discarded } = self;
        Ok(FlatVec { items, metric, permutation, metadata })
    }

    /// The composition of all permutations applied to the dataset.
    pub fn permutation(&self) -> (r: &Vec<usize>)
        ensures
            r@ == self.permutation@,
    {
        &self.permutation
    }

    /// Distance between items `i` and `j`.
    pub fn one_to_one(&self, i: usize, j: usize) -> (r: u64)
        requires
            self.wf(),
            i < self.n(),
            j < self.n(),
        ensures
            r as int == self.d(i as int, j as int),
            r <= MAX_DIST,
    {
        proof {
            assert(wf_item(self.view_items()[i as int], self.dim()));
            assert(wf_item(self.view_items()[j as int], self.dim()));
        }
        eval_metric(self.metric.kind, &self.items[i], &self.items[j])
    }

    /// Distance from a query to item `i`.
    pub fn query_to_one(&self, query: &Vec<i64>, i: usize) -> (r: u64)
        requires
            self.wf(),
            wf_item(query@, self.dim()),
            i < self.n(),
        ensures
            r as int == self.dq(query@, i as int),
            r <= MAX_DIST,
    {
        proof {
            assert(wf_item(self.view_items()[i as int], self.dim()));
        }
        eval_metric(self.metric.kind, query, &self.items[i])
    }

    /// Distances from item `i` to each item of `js`, in order.
    pub fn one_to_many(&self, i: usize, js: &Vec<usize>) -> (r: Vec<u64>)
        requires
            self.wf(),
            i < self.n(),
            forall|t: int| 0 <= t < js@.len() ==> #[trigger] js@[t] < self.n(),
        ensures
            r@.len() == js@.len(),
            forall|t: int|
                0 <= t < js@.len() ==> #[trigger] r@[t] as int == self.d(i as int, js@[t] as int),
            forall|t: int| 0 <= t < js@.len() ==> #[trigger] r@[t] <= MAX_DIST,
    {
        let mut out: Vec<u64> = Vec::new();
        let mut t: usize = 0;
        while t < js.len()
            invariant
                t <= js@.len(),
                self.wf(),
                i < self.n(),
                forall|w: int| 0 <= w < js@.len() ==> #[trigger] js@[w] < self.n(),
                out@.len() == t,
                forall|w: int|
                    0 <= w < t ==> #[trigger] out@[w] as int == self.d(i as int, js@[w] as int),
                forall|w: int| 0 <= w < t ==> #[trigger] out@[w] <= MAX_DIST,
            decreases js@.len() - t,
        {
            out.push(self.one_to_one(i, js[t]));
            t = t + 1;
        }
        out
    }

    /// Distances from a query to each item of `js`, in order.
    pub fn query_to_many(&self, query: &Vec<i64>, js: &Vec<usize>) -> (r: Vec<u64>)
        requires
            self.wf(),
            wf_item(query@, self.dim()),
            forall|t: int| 0 <= t < js@.len() ==> #[trigger] js@[t] < self.n(),
        ensures
            r@.len() == js@.len(),
            forall|t: int|
                0 <= t < js@.len() ==> #[trigger] r@[t] as int == self.dq(query@, js@[t] as int),
            forall|t: int| 0 <= t < js@.len() ==> #[trigger] r@[t] <= MAX_DIST,
    {
        let mut out: Vec<u64> = Vec::new();
        let mut t: usize = 0;
        while t < js.len()
            invariant
                t <= js@.len(),
                self.wf(),
                wf_item(query@, self.dim()),
                forall|w: int| 0 <= w < js@.len() ==> #[trigger] js@[w] < self.n(),
                out@.len() == t,
                forall|w: int|
                    0 <= w < t ==> #[trigger] out@[w] as int == self.dq(query@, js@[w] as int),
                forall|w: int| 0 <= w < t ==> #[trigger] out@[w] <= MAX_DIST,
            decreases js@.len() - t,
        {
            out.push(self.query_to_one(query, js[t]));
            t = t + 1;
        }
        out
    }

    /// Parallel variant of `query_to_many`; returns the same distances in the
    /// same order.
    pub fn par_query_to_many(&self, query: &Vec<i64>, js: &Vec<usize>) -> (r: Vec<u64>)
        requires
            self.wf(),
            wf_item(query@, self.dim()),
            forall|t: int| 0 <= t < js@.len() ==> #[trigger] js@[t] < self.n(),
        ensures
            r@.len() == js@.len(),
            forall|t: int|
                0 <= t < js@.len() ==> #[trigger] r@[t] as int == self.dq(query@, js@[t] as int),
            forall|t: int| 0 <= t < js@.len() ==> #[trigger] r@[t] <= MAX_DIST,
    {
        if self.metric.expensive {
            let r = par_query_distances(self, query, js);
            proof {
                assert forall|t: int| 0 <= t < js@.len() implies #[trigger] r@[t] <= MAX_DIST by {
                    lemma_dist_nonneg(self.metric.kind, query@, self.view_items()[js@[t] as int]);
                    lemma_dist_bound(self.metric.kind, query@, self.view_items()[js@[t] as int]);
                }
            }
            r
        } else {
            self.query_to_many(query, js)
        }
    }

    /// Swap items `i` and `j`, together with their metadata and their entries
    /// in the recorded permutation.
    pub fn swap_two(&mut self, i: usize, j: usize)
        requires
            old(self).wf(),
            i < old(self).n(),
            j < old(self).n(),
        ensures
            final(self).wf(),
            final(self).metric == old(self).metric,
            final(self).n() == old(self).n(),
            final(self).dim() == old(self).dim(),
            final(self).view_items() == old(self).view_items().update(
                i as int,
                old(self).view_items()[j as int],
            ).update(j as int, old(self).view_items()[i as int]),
            final(self).permutation@ == old(self).permutation@.update(
                i as int,
                old(self).permutation@[j as int],
            ).update(j as int, old(self).permutation@[i as int]),
            final(self).metadata@ == old(self).metadata@.update(
                i as int,
                old(self).metadata@[j as int],
            ).update(j as int, old(self).metadata@[i as int]),
    {
        let ghost pre = *self;
        let item_i = clone_item(&self.items[i]);
        let item_j = clone_item(&self.items[j]);
        self.items.set(i, item_j);
        self.items.set(j, item_i);
        let perm_i = self.permutation[i];
        let perm_j = self.permutation[j];
        self.permutation.set(i, perm_j);
        self.permutation.set(j, perm_i);
        let meta_i = self.metadata[i];
        let meta_j = self.metadata[j];
        self.metadata.set(i, meta_j);
        self.metadata.set(j, meta_i);
        proof {
            assert(self.view_items() =~= pre.view_items().update(
                i as int,
                pre.view_items()[j as int],
            ).update(j as int, pre.view_items()[i as int]));
            if i != j {
                assert forall|a: int, b: int|
                    0 <= a < b < self.n() implies self.permutation@[a] != self.permutation@[b] by {
                    assert(pre.permutation@[i as int] != pre.permutation@[j as int]);
                }
            }
            assert(self.dim() == pre.dim());
        }
    }

    /// Reorder the storage by `perm`: item `p` of the result is item
    /// `perm[p]` of the current storage.  The recorded permutation is updated
    /// so that it keeps mapping current positions to original positions.
    pub fn permute(&mut self, perm: &Vec<usize>)
        requires
            old(self).wf(),
            is_permutation(perm@, old(self).n()),
        ensures
            final(self).wf(),
            final(self).metric == old(self).metric,
            final(self).n() == old(self).n(),
            final(self).dim() == old(self).dim(),
            forall|p: int|
                0 <= p < final(self).n() ==> #[trigger] final(self).view_items()[p] == old(self).view_items()[
                    perm@[p] as int
                ],
            forall|p: int|
                0 <= p < final(self).n() ==> #[trigger] final(self).permutation@[p] == old(self).permutation@[
                    perm@[p] as int
                ],
            forall|p: int|
                0 <= p < final(self).n() ==> #[trigger] final(self).metadata@[p] == old(self).metadata@[
                    perm@[p] as int
                ],
    {
        let ghost pre = *self;
        let n = self.items.len();
        let mut new_items: Vec<Vec<i64>> = Vec::new();
        let mut new_permutation: Vec<usize> = Vec::new();
        let mut new_metadata: Vec<usize> = Vec::new();
        let mut p: usize = 0;
        while p < n
            invariant
                p <= n,
                *self == pre,
                pre.wf(),
                n == pre.n(),
                is_permutation(perm@, pre.n()),
                new_items@.len() == p,
                new_permutation@.len() == p,
                new_metadata@.len() == p,
                forall|t: int|
                    0 <= t < p ==> #[trigger] new_items@[t]@ == pre.view_items()[perm@[t] as int],
                forall|t: int|
                    0 <= t < p ==> #[trigger] new_permutation@[t] == pre.permutation@[
                        perm@[t] as int
                    ],
                forall|t: int|
                    0 <= t < p ==> #[trigger] new_metadata@[t] == pre.metadata@[perm@[t] as int],
            decreases n - p,
        {
            let src = perm[p];
            new_items.push(clone_item(&self.items[src]));
            new_permutation.push(self.permutation[src]);
            new_metadata.push(self.metadata[src]);
            p = p + 1;
        }
        self.items = new_items;
        self.permutation = new_permutation;
        self.metadata = new_metadata;
        proof {
            assert(self.view_items()[0] == pre.view_items()[perm@[0] as int]);
            assert(self.dim() == pre.dim());
            assert forall|i: int|
                0 <= i < self.n() implies wf_item(#[trigger] self.view_items()[i], self.dim()) by {
                assert(self.view_items()[i] == pre.view_items()[perm@[i] as int]);
            }
            assert forall|a: int, b: int|
                0 <= a < b < self.n() implies self.permutation@[a] != self.permutation@[b] by {
                assert(perm@[a] != perm@[b]);
                assert(self.permutation@[a] == pre.permutation@[perm@[a] as int]);
                assert(self.permutation@[b] == pre.permutation@[perm@[b] as int]);
                if perm@[a] < perm@[b] {
                    assert(pre.permutation@[perm@[a] as int] != pre.permutation@[perm@[b] as int]);
                } else {
                    assert(pre.permutation@[perm@[b] as int] != pre.permutation@[perm@[a] as int]);
                }
            }
        }
    }
}

/// Copy one item.
pub fn clone_item(v: &Vec<i64>) -> (r: Vec<i64>)
    ensures
        r@ == v@,
{
    let mut out: Vec<i64> = Vec::new();
    let mut t: usize = 0;
    while t < v.len()
        invariant
            t <= v@.len(),
            out@.len() == t,
            forall|w: int| 0 <= w < t ==> #[trigger] out@[w] == v@[w],
        decreases v@.len() - t,
    {
        out.push(v[t]);
        t = t + 1;
    }
    proof {
        assert(out@ =~= v@);
    }
    out
}


/// Copy a vector of indices.
pub fn clone_indices(v: &Vec<usize>) -> (r: Vec<usize>)
    ensures
        r@ == v@,
{
    let mut out: Vec<usize> = Vec::new();
    let mut t: usize = 0;
    while t < v.len()
        invariant
            t <= v@.len(),
            out@.len() == t,
            forall|w: int| 0 <= w < t ==> #[trigger] out@[w] == v@[w],
        decreases v@.len() - t,
    {
        out.push(v[t]);
        t = t + 1;
    }
    proof {
        assert(out@ =~= v@);
    }
    out
}

/// Copy a vector of masses.
pub fn clone_masses(v: &Vec<u64>) -> (r: Vec<u64>)
    ensures
        r@ == v@,
{
    let mut out: Vec<u64> = Vec::new();
    let mut t: usize = 0;
    while t < v.len()
        invariant
            t <= v@.len(),
            out@.len() == t,
            forall|w: int| 0 <= w < t ==> #[trigger] out@[w] == v@[w],
        decreases v@.len() - t,
    {
        out.push(v[t]);
        t = t + 1;
    }
    proof {
        assert(out@ =~= v@);
    }
    out
}

/// Relies on rayon's parallel iterators: a parallel indexed map collects the
/// same values, in the same order, as the sequential map of the same closure;
/// the closure only calls the verified `query_to_one`.
#[verifier::external_body]
fn par_query_distances(data: &FlatVec, query: &Vec<i64>, js: &Vec<usize>) -> (r: Vec<u64>)
    requires
        data.wf(),
        wf_item(query@, data.dim()),
        forall|t: int| 0 <= t < js@.len() ==> #[trigger] js@[t] < data.n(),
    ensures
        r@.len() == js@.len(),
        forall|t: int|
            0 <= t < js@.len() ==> #[trigger] r@[t] as int == data.dq(query@, js@[t] as int),
{
    js.par_iter().map(|&i| data.query_to_one(query, i)).collect()
}

} // verus!
