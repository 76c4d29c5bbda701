//! The ball tree: a hierarchy of clusters over a dataset.
//!
//! Every node records the indices of its members, an approximate geometric
//! median (`arg_center`), the member farthest from it (`arg_radial`), the
//! distance between those two (`radius`), and the data for the local fractal
//! dimension.  An internal node carries, for each child, the extremal point
//! used to seed the child and the farthest distance from that point to a
//! member of the child (the `extent`).
//!
//! The well-formedness predicate `Ball::wf` packages the invariants that the
//! search algorithms rely on: every member lies within `radius` of the
//! center, and the children of a node partition its members.

use vstd::multiset::Multiset;
use vstd::prelude::*;

use crate::dataset::FlatVec;
use crate::metric::{
    dist_of, lemma_dist_self, lemma_dist_symm, lemma_dist_triangle, wf_item, MAX_DIST,
};

verus! {

/// One node of the hierarchy.
pub struct Ball {
    /// Depth of the node; the root is at depth 0.
    pub depth: usize,
    /// Indices of the members of this node.
    pub indices: Vec<usize>,
    /// Index of the member approximately minimising the sum of distances to
    /// the other members.
    pub arg_center: usize,
    /// Index of the member farthest from the center.
    pub arg_radial: usize,
    /// Distance from the center to the radial member.
    pub radius: u64,
    /// Number of members within half the radius of the center; together with
    /// the cardinality this determines the local fractal dimension.
    pub half_count: usize,
    /// Child edges: the extremal point seeding the child, the extent of the
    /// child around it, and the child itself.
    pub children: Vec<(usize, u64, Box<Ball>)>,
}

/// Number of members of `ids` whose doubled distance to item `center` is at
/// most `r`.
pub open spec fn count_within_half(data: FlatVec, center: int, r: int, ids: Seq<usize>) -> int
    decreases ids.len(),
{
    if ids.len() == 0 {
        0
    } else {
        count_within_half(data, center, r, ids.drop_last()) + (if 2 * data.d(center, ids.last() as int)
            <= r {
            1int
        } else {
            0int
        })
    }
}

impl Ball {
    /// The member indices of this node.
    pub open spec fn idx(&self) -> Seq<usize> {
        self.indices@
    }

    /// Number of members.
    pub open spec fn card(&self) -> nat {
        self.idx().len()
    }

    /// Invariants local to one node.
    pub open spec fn wf_node(&self, data: FlatVec) -> bool {
        &&& 1 <= self.idx().len() <= data.n()
        &&& forall|t: int| 0 <= t < self.idx().len() ==> (#[trigger] self.idx()[t]) < data.n()
        &&& self.idx().no_duplicates()
        &&& self.idx().contains(self.arg_center)
        &&& self.idx().contains(self.arg_radial)
        &&& self.arg_center < data.n()
        &&& self.arg_radial < data.n()
        &&& self.radius as int == data.d(self.arg_center as int, self.arg_radial as int)
        &&& self.radius <= MAX_DIST
        &&& forall|t: int|
            0 <= t < self.idx().len() ==> data.d(
                self.arg_center as int,
                (#[trigger] self.idx()[t]) as int,
            ) <= self.radius as int
        &&& self.half_count as int == count_within_half(
            data,
            self.arg_center as int,
            self.radius as int,
            self.idx(),
        )
    }

    /// Invariants of the child edges numbered below `upto`.
    pub open spec fn wf_children(&self, data: FlatVec, upto: int) -> bool
        decreases *self, upto,
        when 0 <= upto <= self.children@.len()
    {
        if upto == 0 {
            true
        } else {
            &&& self.wf_children(data, upto - 1)
            &&& self.children@[upto - 1].2.wf(data)
            &&& self.children@[upto - 1].2.depth == self.depth + 1
            &&& self.children@[upto - 1].2.idx().len() < self.idx().len()
            &&& self.children@[upto - 1].2.idx().contains(self.children@[upto - 1].0)
            &&& self.children@[upto - 1].0 < data.n()
            &&& self.children@[upto - 1].1 <= MAX_DIST
            &&& forall|t: int|
                0 <= t < self.children@[upto - 1].2.idx().len() ==> data.d(
                    self.children@[upto - 1].0 as int,
                    (#[trigger] self.children@[upto - 1].2.idx()[t]) as int,
                ) <= self.children@[upto - 1].1 as int
        }
    }

    /// Concatenation of the member indices of the children numbered below
    /// `upto`.
    pub open spec fn children_idx(&self, upto: int) -> Seq<usize>
        decreases *self, upto,
        when 0 <= upto <= self.children@.len()
    {
        if upto <= 0 {
            Seq::empty()
        } else {
            self.children_idx(upto - 1) + self.children@[upto - 1].2.idx()
        }
    }

    /// Well-formedness of the subtree rooted here.
    pub open spec fn wf(&self, data: FlatVec) -> bool
        decreases *self, self.children@.len() as int + 1,
    {
        &&& self.wf_node(data)
        &&& self.children@.len() != 1
        &&& self.wf_children(data, self.children@.len() as int)
        &&& self.children@.len() > 0 ==> self.children_idx(
            self.children@.len() as int,
        ).to_multiset() == self.idx().to_multiset()
    }

    /// Concatenation of the member indices of all leaves of the subtree, in
    /// depth-first order.
    pub open spec fn leaf_idx(&self) -> Seq<usize>
        decreases *self, self.children@.len() as int + 1,
    {
        if self.children@.len() == 0 {
            self.idx()
        } else {
            self.leaf_idx_children(self.children@.len() as int)
        }
    }

    /// Concatenation of `leaf_idx` over the children numbered below `upto`.
    pub open spec fn leaf_idx_children(&self, upto: int) -> Seq<usize>
        decreases *self, upto,
        when 0 <= upto <= self.children@.len()
    {
        if upto <= 0 {
            Seq::empty()
        } else {
            self.leaf_idx_children(upto - 1) + self.children@[upto - 1].2.leaf_idx()
        }
    }

    /// Height of the subtree rooted here: one more than the tallest child.
    pub open spec fn height(&self) -> nat
        decreases *self, self.children@.len() as int + 1,
    {
        1 + self.height_children(self.children@.len() as int)
    }

    /// Tallest height among the children numbered below `upto`.
    pub open spec fn height_children(&self, upto: int) -> nat
        decreases *self, upto,
        when 0 <= upto <= self.children@.len()
    {
        if upto <= 0 {
            0
        } else {
            let rest = self.height_children(upto - 1);
            let h = self.children@[upto - 1].2.height();
            if h > rest {
                h
            } else {
                rest
            }
        }
    }

    /// Every child is strictly shorter than its parent.
    pub proof fn lemma_height_child(&self, c: int)
        requires
            0 <= c < self.children@.len(),
        ensures
            self.children@[c].2.height() < self.height(),
    {
        self.lemma_height_children_le(self.children@.len() as int, c);
    }

    /// Helper for `lemma_height_child`.
    proof fn lemma_height_children_le(&self, upto: int, c: int)
        requires
            0 <= c < upto <= self.children@.len(),
        ensures
            self.children@[c].2.height() <= self.height_children(upto),
        decreases upto,
    {
        if c < upto - 1 {
            self.lemma_height_children_le(upto - 1, c);
        }
    }

    /// From the well-formedness of a node, the well-formedness of each of its
    /// child edges.
    pub proof fn lemma_wf_child(&self, data: FlatVec, i: int)
        requires
            self.wf(data),
            0 <= i < self.children@.len(),
        ensures
            self.children@[i].2.wf(data),
            self.children@[i].2.depth == self.depth + 1,
            self.children@[i].2.idx().len() < self.idx().len(),
            self.children@[i].2.idx().contains(self.children@[i].0),
            self.children@[i].0 < data.n(),
            self.children@[i].1 <= MAX_DIST,
            forall|t: int|
                0 <= t < self.children@[i].2.idx().len() ==> data.d(
                    self.children@[i].0 as int,
                    (#[trigger] self.children@[i].2.idx()[t]) as int,
                ) <= self.children@[i].1 as int,
    {
        self.lemma_wf_children_index(data, self.children@.len() as int, i);
    }

    /// Helper for `lemma_wf_child`: walk `wf_children` down to edge `i`.
    proof fn lemma_wf_children_index(&self, data: FlatVec, upto: int, i: int)
        requires
            self.wf_children(data, upto),
            0 <= i < upto,
            upto <= self.children@.len(),
        ensures
            self.children@[i].2.wf(data),
            self.children@[i].2.depth == self.depth + 1,
            self.children@[i].2.idx().len() < self.idx().len(),
            self.children@[i].2.idx().contains(self.children@[i].0),
            self.children@[i].0 < data.n(),
            self.children@[i].1 <= MAX_DIST,
            forall|t: int|
                0 <= t < self.children@[i].2.idx().len() ==> data.d(
                    self.children@[i].0 as int,
                    (#[trigger] self.children@[i].2.idx()[t]) as int,
                ) <= self.children@[i].1 as int,
        decreases upto,
    {
        if i < upto - 1 {
            self.lemma_wf_children_index(data, upto - 1, i);
        }
    }

    /// Every member of a well-formed node lies within its radius of its
    /// center.
    pub proof fn lemma_radius_bound(&self, data: FlatVec)
        requires
            self.wf(data),
        ensures
            forall|t: int|
                0 <= t < self.idx().len() ==> data.d(
                    self.arg_center as int,
                    (#[trigger] self.idx()[t]) as int,
                ) <= self.radius as int,
    {
    }

    /// The members of the leaves of a well-formed subtree are exactly the
    /// members of its root, each exactly once.
    pub proof fn lemma_leaf_partition(&self, data: FlatVec)
        requires
            self.wf(data),
        ensures
            self.leaf_idx().to_multiset() == self.idx().to_multiset(),
        decreases *self, self.children@.len() as int + 1,
    {
        if self.children@.len() > 0 {
            self.lemma_leaf_partition_children(data, self.children@.len() as int);
        }
    }

    /// The leaves of the first `upto` children carry the same members as
    /// those children.
    pub proof fn lemma_leaf_partition_children(&self, data: FlatVec, upto: int)
        requires
            self.wf(data),
            0 <= upto <= self.children@.len(),
        ensures
            self.leaf_idx_children(upto).to_multiset() == self.children_idx(upto).to_multiset(),
        decreases *self, upto,
    {
        if upto > 0 {
            self.lemma_leaf_partition_children(data, upto - 1);
            self.lemma_wf_child(data, upto - 1);
            self.children@[upto - 1].2.lemma_leaf_partition(data);
            vstd::seq_lib::lemma_multiset_commutative(
                self.leaf_idx_children(upto - 1),
                self.children@[upto - 1].2.leaf_idx(),
            );
            vstd::seq_lib::lemma_multiset_commutative(
                self.children_idx(upto - 1),
                self.children@[upto - 1].2.idx(),
            );
            assert(self.leaf_idx_children(upto).to_multiset() =~= self.children_idx(
                upto,
            ).to_multiset());
        }
    }

    /// Count of `x` in the members of the children numbered below `upto`.
    pub proof fn lemma_children_idx_split(&self, upto: int, x: usize)
        requires
            1 <= upto <= self.children@.len(),
        ensures
            self.children_idx(upto).to_multiset().count(x) == self.children_idx(
                upto - 1,
            ).to_multiset().count(x) + self.children@[upto - 1].2.idx().to_multiset().count(x),
    {
        broadcast use vstd::multiset::group_multiset_axioms;

        vstd::seq_lib::lemma_multiset_commutative(
            self.children_idx(upto - 1),
            self.children@[upto - 1].2.idx(),
        );
    }

    /// An element occurs among the members of the first `upto` children
    /// exactly when some one of those children holds it.
    pub proof fn lemma_children_idx_contains(&self, upto: int, x: usize)
        requires
            0 <= upto <= self.children@.len(),
        ensures
            self.children_idx(upto).contains(x) <==> exists|c: int|
                0 <= c < upto && (#[trigger] self.children@[c].2.idx()).contains(x),
        decreases upto,
    {
        broadcast use vstd::seq_lib::group_seq_properties;

        if upto > 0 {
            self.lemma_children_idx_contains(upto - 1, x);
        }
    }

    /// Counts of an element never drop as more children are taken in.
    pub proof fn lemma_children_idx_count_mono(&self, upto1: int, upto2: int, x: usize)
        requires
            0 <= upto1 <= upto2 <= self.children@.len(),
        ensures
            self.children_idx(upto1).to_multiset().count(x) <= self.children_idx(
                upto2,
            ).to_multiset().count(x),
        decreases upto2 - upto1,
    {
        broadcast use vstd::multiset::group_multiset_axioms;

        if upto1 < upto2 {
            self.lemma_children_idx_count_mono(upto1, upto2 - 1, x);
            self.lemma_children_idx_split(upto2, x);
        }
    }

    /// Taking in more children never shortens the concatenated member list.
    pub proof fn lemma_children_idx_len_mono(&self, upto1: int, upto2: int)
        requires
            0 <= upto1 <= upto2 <= self.children@.len(),
        ensures
            self.children_idx(upto1).len() <= self.children_idx(upto2).len(),
        decreases upto2 - upto1,
    {
        if upto1 < upto2 {
            self.lemma_children_idx_len_mono(upto1, upto2 - 1);
        }
    }

    /// The members of the first `upto` children are no more numerous than the
    /// members of the node.
    pub proof fn lemma_children_idx_len(&self, data: FlatVec, upto: int)
        requires
            self.wf(data),
            self.children@.len() > 0,
            0 <= upto <= self.children@.len(),
        ensures
            self.children_idx(upto).len() <= self.idx().len(),
    {
        broadcast use vstd::seq_lib::group_to_multiset_ensures;

        self.lemma_children_idx_len_mono(upto, self.children@.len() as int);
        assert(self.children_idx(self.children@.len() as int).to_multiset().len()
            == self.idx().to_multiset().len());
    }

    /// A member of a well-formed node lies in one of its children (and any
    /// member of a child is a member of the node).
    pub proof fn lemma_member_in_some_child(&self, data: FlatVec, x: usize)
        requires
            self.wf(data),
            self.children@.len() > 0,
        ensures
            self.idx().contains(x) <==> exists|c: int|
                0 <= c < self.children@.len() && (#[trigger] self.children@[c].2.idx()).contains(
                    x,
                ),
    {
        broadcast use vstd::seq_lib::group_to_multiset_ensures;

        let n = self.children@.len() as int;
        self.lemma_children_idx_contains(n, x);
        assert(self.children_idx(n).contains(x) <==> self.children_idx(n).to_multiset().count(x)
            > 0);
        assert(self.idx().contains(x) <==> self.idx().to_multiset().count(x) > 0);
    }

    /// Two distinct children of a well-formed node share no member.
    pub proof fn lemma_children_disjoint(&self, data: FlatVec, c1: int, c2: int, x: usize)
        requires
            self.wf(data),
            0 <= c1 < c2 < self.children@.len(),
        ensures
            !(self.children@[c1].2.idx().contains(x) && self.children@[c2].2.idx().contains(x)),
    {
        broadcast use vstd::seq_lib::group_to_multiset_ensures;
        broadcast use vstd::multiset::group_multiset_axioms;

        let n = self.children@.len() as int;
        if self.children@[c1].2.idx().contains(x) && self.children@[c2].2.idx().contains(x) {
            self.lemma_children_idx_split(c1 + 1, x);
            self.lemma_children_idx_split(c2 + 1, x);
            self.lemma_children_idx_count_mono(c1 + 1, c2, x);
            self.lemma_children_idx_count_mono(c2 + 1, n, x);
            assert(self.children_idx(n).to_multiset().count(x) >= 2);
            self.idx().lemma_multiset_has_no_duplicates();
            assert(self.idx().to_multiset().count(x) <= 1);
            assert(false);
        }
    }

    /// The triangle bounds a search relies on: the distance from a query to a
    /// member of a well-formed node differs from the distance to the node's
    /// center by at most the radius.
    pub proof fn lemma_member_query_bounds(&self, data: FlatVec, q: Seq<i64>, t: int)
        requires
            self.wf(data),
            data.wf(),
            wf_item(q, data.dim()),
            0 <= t < self.idx().len(),
        ensures
            data.dq(q, self.idx()[t] as int) <= data.dq(q, self.arg_center as int)
                + self.radius as int,
            data.dq(q, self.idx()[t] as int) >= data.dq(q, self.arg_center as int)
                - self.radius as int,
    {
        let i = self.idx()[t] as int;
        let c = self.arg_center as int;
        let qi = data.view_items()[i];
        let ci = data.view_items()[c];
        lemma_dist_triangle(data.metric.kind, q, ci, qi);
        lemma_dist_triangle(data.metric.kind, q, qi, ci);
        lemma_dist_symm(data.metric.kind, qi, ci);
        assert(data.d(c, i) <= self.radius as int);
    }

    /// In a node of radius zero, every member is at the same distance from a
    /// query as the center.
    pub proof fn lemma_singleton_distances(&self, data: FlatVec, q: Seq<i64>, t: int)
        requires
            self.wf(data),
            data.wf(),
            wf_item(q, data.dim()),
            self.card() == 1 || self.radius == 0,
            0 <= t < self.idx().len(),
        ensures
            data.dq(q, self.idx()[t] as int) == data.dq(q, self.arg_center as int),
    {
        if self.card() == 1 {
            let c = choose|w: int| 0 <= w < self.idx().len() && self.idx()[w] == self.arg_center;
            assert(t == c);
        } else {
            self.lemma_member_query_bounds(data, q, t);
        }
    }

    /// Depth of the node in the tree.
    pub fn depth(&self) -> (r: usize)
        ensures
            r == self.depth,
    {
        self.depth
    }

    /// Number of members of the node.
    pub fn cardinality(&self) -> (r: usize)
        ensures
            r == self.card(),
    {
        self.indices.len()
    }

    /// Index of the center member.
    pub fn arg_center(&self) -> (r: usize)
        ensures
            r == self.arg_center,
    {
        self.arg_center
    }

    /// Index of the member farthest from the center.
    pub fn arg_radial(&self) -> (r: usize)
        ensures
            r == self.arg_radial,
    {
        self.arg_radial
    }

    /// Distance from the center to the farthest member.
    pub fn radius(&self) -> (r: u64)
        ensures
            r == self.radius,
    {
        self.radius
    }

    /// The two counts that determine the local fractal dimension: the
    /// cardinality of the node and the number of members within half its
    /// radius of its center.
    pub fn lfd(&self) -> (r: (usize, usize))
        ensures
            r.0 == self.card(),
            r.1 == self.half_count,
    {
        (self.indices.len(), self.half_count)
    }

    /// The member indices, as a fresh vector.
    pub fn indices(&self) -> (r: Vec<usize>)
        ensures
            r@ == self.idx(),
    {
        let mut out: Vec<usize> = Vec::new();
        let mut t: usize = 0;
        while t < self.indices.len()
            invariant
                t <= self.idx().len(),
                out@.len() == t,
                forall|w: int| 0 <= w < t ==> #[trigger] out@[w] == self.idx()[w],
            decreases self.idx().len() - t,
        {
            out.push(self.indices[t]);
            t = t + 1;
        }
        proof {
            assert(out@ =~= self.idx());
        }
        out
    }

    /// The child edges of the node.
    pub fn children(&self) -> (r: &Vec<(usize, u64, Box<Ball>)>)
        ensures
            r == self.children,
    {
        &self.children
    }

    /// Whether the node has no children.
    pub fn is_leaf(&self) -> (r: bool)
        ensures
            r == (self.children@.len() == 0),
    {
        self.children.len() == 0
    }

    /// Whether the node holds one member, or several members all at distance
    /// zero from the center.
    pub fn is_singleton(&self) -> (r: bool)
        ensures
            r == (self.card() == 1 || self.radius == 0),
    {
        self.indices.len() == 1 || self.radius == 0
    }

    /// Distance from the node's center to a query.
    pub fn distance_to_center(&self, data: &FlatVec, query: &Vec<i64>) -> (r: u64)
        requires
            data.wf(),
            wf_item(query@, data.dim()),
            self.arg_center < data.n(),
        ensures
            r as int == data.dq(query@, self.arg_center as int),
            r <= MAX_DIST,
    {
        data.query_to_one(query, self.arg_center)
    }

    /// Distance from the node's center to another node's center.
    pub fn distance_to_other(&self, data: &FlatVec, other: &Ball) -> (r: u64)
        requires
            data.wf(),
            self.arg_center < data.n(),
            other.arg_center < data.n(),
        ensures
            r as int == data.d(self.arg_center as int, other.arg_center as int),
    {
        data.one_to_one(self.arg_center, other.arg_center)
    }
}

/// The member indices of a list of nodes, concatenated.
pub open spec fn concat_idx(cs: Seq<&Ball>) -> Seq<usize>
    decreases cs.len(),
{
    if cs.len() == 0 {
        Seq::empty()
    } else {
        concat_idx(cs.drop_last()) + cs.last().idx()
    }
}

/// Concatenated indices split over a split list.
proof fn lemma_concat_idx_append(a: Seq<&Ball>, b: Seq<&Ball>)
    ensures
        concat_idx(a + b) == concat_idx(a) + concat_idx(b),
    decreases b.len(),
{
    if b.len() == 0 {
        assert(a + b =~= a);
        assert(concat_idx(a) + concat_idx(b) =~= concat_idx(a));
    } else {
        lemma_concat_idx_append(a, b.drop_last());
        assert((a + b).drop_last() =~= a + b.drop_last());
        assert((a + b).last() == b.last());
        assert(concat_idx(a) + concat_idx(b.drop_last()) + b.last().idx() =~= concat_idx(a) + (
        concat_idx(b.drop_last()) + b.last().idx()));
    }
}

impl Ball {
    /// All leaves of the subtree, in depth-first order: together they carry
    /// exactly the leaf flattening of the subtree.
    pub fn leaves(&self) -> (r: Vec<&Ball>)
        ensures
            concat_idx(r@) == self.leaf_idx(),
            forall|v: int| 0 <= v < r@.len() ==> (#[trigger] r@[v]).children@.len() == 0,
        decreases *self,
    {
        let mut out: Vec<&Ball> = Vec::new();
        if self.children.len() == 0 {
            out.push(self);
            proof {
                assert(out@.drop_last() =~= Seq::<&Ball>::empty());
                assert(concat_idx(out@.drop_last()) == Seq::<usize>::empty());
                assert(out@.last() == self);
                assert(Seq::<usize>::empty() + self.idx() =~= self.idx());
                assert(concat_idx(out@) =~= self.idx());
                assert(forall|v: int|
                    0 <= v < out@.len() ==> (#[trigger] out@[v]).children@.len() == 0);
            }
        } else {
            let nc = self.children.len();
            let mut c: usize = 0;
            while c < nc
                invariant
                    c <= nc,
                    nc == self.children@.len(),
                    concat_idx(out@) == self.leaf_idx_children(c as int),
                    forall|v: int| 0 <= v < out@.len() ==> (#[trigger] r_is_leaf(out@[v])),
                decreases nc - c,
            {
                let sub = self.children[c].2.leaves();
                let ghost pre = out@;
                let mut t: usize = 0;
                while t < sub.len()
                    invariant
                        t <= sub@.len(),
                        out@ == pre + sub@.take(t as int),
                    decreases sub@.len() - t,
                {
                    out.push(sub[t]);
                    proof {
                        assert(sub@.take(t as int).push(sub@[t as int]) =~= sub@.take(
                            t as int + 1,
                        ));
                        assert(out@ =~= pre + sub@.take(t as int + 1));
                    }
                    t = t + 1;
                }
                proof {
                    assert(sub@.take(sub@.len() as int) =~= sub@);
                    assert(out@ =~= pre + sub@);
                    lemma_concat_idx_append(pre, sub@);
                    assert(concat_idx(out@) =~= self.leaf_idx_children(c as int + 1));
                    assert forall|v: int| 0 <= v < out@.len() implies #[trigger] r_is_leaf(
                        out@[v],
                    ) by {
                        if v < pre.len() {
                            assert(out@[v] == pre[v]);
                        } else {
                            assert(out@[v] == sub@[v - pre.len()]);
                        }
                    }
                }
                c = c + 1;
            }
            proof {
                assert forall|v: int| 0 <= v < out@.len() implies (
                #[trigger] out@[v]).children@.len() == 0 by {
                    assert(r_is_leaf(out@[v]));
                }
            }
        }
        out
    }
}

/// Whether a node is a leaf.
pub open spec fn r_is_leaf(b: &Ball) -> bool {
    b.children@.len() == 0
}

/// When to keep partitioning a node.
#[derive(Clone, Copy, Debug)]
pub struct PartitionCriteria {
    /// Partition only nodes with more members than this.
    pub min_cardinality: usize,
    /// Partition only nodes above this depth.
    pub max_depth: usize,
}

impl PartitionCriteria {
    /// The loosest criteria: partition everything down to single members.
    pub fn new() -> (r: PartitionCriteria)
        ensures
            r.min_cardinality == 1,
            r.max_depth == usize::MAX,
    {
        PartitionCriteria { min_cardinality: 1, max_depth: usize::MAX }
    }

    /// Stop partitioning nodes of at most this many members.
    pub fn with_min_cardinality(self, min_cardinality: usize) -> (r: PartitionCriteria)
        ensures
            r.min_cardinality == min_cardinality,
            r.max_depth == self.max_depth,
    {
        PartitionCriteria { min_cardinality, max_depth: self.max_depth }
    }

    /// Stop partitioning nodes at this depth.
    pub fn with_max_depth(self, max_depth: usize) -> (r: PartitionCriteria)
        ensures
            r.min_cardinality == self.min_cardinality,
            r.max_depth == max_depth,
    {
        PartitionCriteria { min_cardinality: self.min_cardinality, max_depth }
    }

    /// Whether a node should be partitioned further.
    pub fn should_partition(&self, ball: &Ball) -> (r: bool)
        ensures
            r == (ball.card() > self.min_cardinality && ball.depth < self.max_depth),
    {
        ball.cardinality() > self.min_cardinality && ball.depth() < self.max_depth
    }
}

impl Default for PartitionCriteria {
    /// The loosest criteria.
    fn default() -> (r: PartitionCriteria)
        ensures
            r.min_cardinality == 1,
            r.max_depth == usize::MAX,
    {
        PartitionCriteria::new()
    }
}

/// `arg_min` for a vector known to be non-empty.
fn arg_min_nonempty(values: &Vec<u64>) -> (r: (usize, u64))
    requires
        values@.len() > 0,
    ensures
        r.0 < values@.len(),
        values@[r.0 as int] == r.1,
        forall|j: int| 0 <= j < values@.len() ==> r.1 <= values@[j],
{
    match crate::utils::arg_min(values) {
        Some(p) => p,
        None => (0, 0),
    }
}

/// First position holding the maximum of a non-empty vector.
fn first_arg_max(values: &Vec<u64>) -> (r: (usize, u64))
    requires
        values@.len() > 0,
    ensures
        r.0 < values@.len(),
        values@[r.0 as int] == r.1,
        forall|j: int| 0 <= j < values@.len() ==> values@[j] <= r.1,
        forall|j: int| 0 <= j < r.0 ==> values@[j] < r.1,
{
    let mut best_i: usize = 0;
    let mut best_v: u64 = values[0];
    let mut j: usize = 1;
    while j < values.len()
        invariant
            0 < j <= values@.len(),
            best_i < j,
            values@[best_i as int] == best_v,
            forall|t: int| 0 <= t < j ==> values@[t] <= best_v,
            forall|t: int| 0 <= t < best_i ==> values@[t] < best_v,
        decreases values@.len() - j,
    {
        if values[j] > best_v {
            best_i = j;
            best_v = values[j];
        }
        j = j + 1;
    }
    (best_i, best_v)
}

/// A vector holding `head` followed by the elements of `tail`.
fn prepend(head: usize, tail: &Vec<usize>) -> (r: Vec<usize>)
    ensures
        r@ == seq![head] + tail@,
{
    let mut out: Vec<usize> = Vec::new();
    out.push(head);
    let mut t: usize = 0;
    while t < tail.len()
        invariant
            t <= tail@.len(),
            out@.len() == t + 1,
            out@[0] == head,
            forall|w: int| 0 <= w < t ==> #[trigger] out@[w + 1] == tail@[w],
        decreases tail@.len() - t,
    {
        out.push(tail[t]);
        t = t + 1;
    }
    proof {
        assert forall|i: int| 0 <= i < out@.len() implies out@[i] == (seq![head] + tail@)[i] by {
            if i > 0 {
                assert(out@[(i - 1) + 1] == tail@[i - 1]);
            }
        }
        assert(out@ =~= seq![head] + tail@);
    }
    out
}

impl Ball {
    /// Build one node over the given members: pick an approximate geometric
    /// median from a bounded sample as the center, find the member farthest
    /// from it, and record the radius and the half-radius member count.  The
    /// node has no children; the second component of the result is the index
    /// of the radial member.
    pub fn new(data: &FlatVec, indices: Vec<usize>, depth: usize, seed: Option<u64>) -> (r: (
        Ball,
        usize,
    ))
        requires
            data.wf(),
            1 <= indices@.len() <= data.n(),
            indices@.no_duplicates(),
            forall|t: int| 0 <= t < indices@.len() ==> (#[trigger] indices@[t]) < data.n(),
        ensures
            r.0.wf(*data),
            r.0.idx() == indices@,
            r.0.depth == depth,
            r.0.children@.len() == 0,
            r.1 == r.0.arg_radial,
    {
        let m = indices.len();
        let mut sample: Vec<usize> = Vec::new();
        if m <= 100 {
            let mut t: usize = 0;
            while t < m
                invariant
                    t <= m,
                    m == indices@.len(),
                    sample@.len() == t,
                    forall|w: int| 0 <= w < t ==> (#[trigger] sample@[w]) < m,
                decreases m - t,
            {
                sample.push(t);
                t = t + 1;
            }
        } else {
            let stride = m / 100;
            let mut pos: usize = 0;
            let mut t: usize = 0;
            while t < 100
                invariant
                    t <= 100,
                    m == indices@.len(),
                    m > 100,
                    pos < m,
                    stride == m / 100,
                    sample@.len() == t,
                    forall|w: int| 0 <= w < t ==> (#[trigger] sample@[w]) < m,
                decreases 100 - t,
            {
                sample.push(pos);
                pos = if pos < m - stride {
                    pos + stride
                } else {
                    m - 1
                };
                t = t + 1;
            }
        }
        let s_len = sample.len();
        let mut sums: Vec<u64> = Vec::new();
        let mut s: usize = 0;
        while s < s_len
            invariant
                s <= s_len,
                s_len == sample@.len(),
                s_len <= 100,
                m == indices@.len(),
                data.wf(),
                1 <= indices@.len() <= data.n(),
                forall|t: int| 0 <= t < indices@.len() ==> (#[trigger] indices@[t]) < data.n(),
                forall|w: int| 0 <= w < s_len ==> (#[trigger] sample@[w]) < m,
                sums@.len() == s,
            decreases s_len - s,
        {
            let mut sum: u64 = 0;
            let mut w: usize = 0;
            while w < s_len
                invariant
                    w <= s_len,
                    s < s_len,
                    s_len == sample@.len(),
                    s_len <= 100,
                    m == indices@.len(),
                    data.wf(),
                    1 <= indices@.len() <= data.n(),
                    forall|t: int| 0 <= t < indices@.len() ==> (#[trigger] indices@[t]) < data.n(),
                    forall|t: int| 0 <= t < s_len ==> (#[trigger] sample@[t]) < m,
                    sum <= (w as int) * (MAX_DIST as int),
                decreases s_len - w,
            {
                let d = data.one_to_one(indices[sample[s]], indices[sample[w]]);
                proof {
                    assert((w as int) * (MAX_DIST as int) + MAX_DIST as int == ((w + 1) as int)
                        * (MAX_DIST as int)) by (nonlinear_arith);
                    assert(sum + d <= 100 * (MAX_DIST as int)) by (nonlinear_arith)
                        requires
                            sum <= (w as int) * (MAX_DIST as int),
                            d <= MAX_DIST as int,
                            w < 100,
                    ;
                }
                sum = sum + d;
                w = w + 1;
            }
            sums.push(sum);
            s = s + 1;
        }
        let (cpos, _csum) = arg_min_nonempty(&sums);
        let arg_center = indices[sample[cpos]];
        proof {
            assert(indices@.contains(indices@[sample@[cpos as int] as int]));
        }
        let center_dists = data.one_to_many(arg_center, &indices);
        let (rpos, radius) = first_arg_max(&center_dists);
        let arg_radial = indices[rpos];
        proof {
            assert(indices@.contains(indices@[rpos as int]));
        }
        let mut half_count: usize = 0;
        let mut t: usize = 0;
        while t < m
            invariant
                t <= m,
                m == indices@.len(),
                data.wf(),
                arg_center < data.n(),
                forall|w: int| 0 <= w < indices@.len() ==> (#[trigger] indices@[w]) < data.n(),
                center_dists@.len() == m,
                forall|w: int|
                    0 <= w < m ==> #[trigger] center_dists@[w] as int == data.d(
                        arg_center as int,
                        indices@[w] as int,
                    ),
                half_count <= t,
                half_count as int == count_within_half(
                    *data,
                    arg_center as int,
                    radius as int,
                    indices@.take(t as int),
                ),
            decreases m - t,
        {
            proof {
                assert(indices@.take(t as int + 1).drop_last() =~= indices@.take(t as int));
                assert(indices@.take(t as int + 1).last() == indices@[t as int]);
            }
            if center_dists[t] <= radius / 2 {
                half_count = half_count + 1;
            } else {
                proof {
                    assert(2 * center_dists@[t as int] > radius);
                }
            }
            t = t + 1;
        }
        proof {
            assert(indices@.take(m as int) =~= indices@);
        }
        let ball = Ball {
            depth,
            indices,
            arg_center,
            arg_radial,
            radius,
            half_count,
            children: Vec::new(),
        };
        proof {
            assert forall|t: int| 0 <= t < ball.idx().len() implies data.d(
                ball.arg_center as int,
                (#[trigger] ball.idx()[t]) as int,
            ) <= ball.radius as int by {
                assert(center_dists@[t] as int == data.d(arg_center as int, ball.idx()[t] as int));
                assert(center_dists@[t] <= radius);
            }
            assert(ball.wf_children(*data, 0));
        }
        (ball, arg_radial)
    }
}

/// The multiset holding `e` once if `s` contains it, and nothing otherwise.
spec fn seen_mask(s: Seq<usize>, e: usize) -> Multiset<usize> {
    if s.contains(e) {
        Multiset::empty().insert(e)
    } else {
        Multiset::empty()
    }
}

/// Taking one more element of `s` adds exactly `s[t]` to the prefix.
proof fn lemma_take_push_contains(s: Seq<usize>, t: int, e: usize)
    requires
        0 <= t < s.len(),
    ensures
        s.take(t + 1).contains(e) <==> (s.take(t).contains(e) || s[t] == e),
{
    if s.take(t + 1).contains(e) {
        let w = choose|w: int| 0 <= w < s.take(t + 1).len() && #[trigger] s.take(t + 1)[w] == e;
        if w < t {
            assert(s.take(t)[w] == e);
        }
    }
    if s.take(t).contains(e) {
        let w = choose|w: int| 0 <= w < s.take(t).len() && #[trigger] s.take(t)[w] == e;
        assert(s.take(t + 1)[w] == e);
    }
    if s[t] == e {
        assert(s.take(t + 1)[t] == e);
    }
}

/// Assign every member other than the two extrema to the extremum nearer to
/// it (ties go to the first extremum), and record how far each extremum's
/// farthest assigned member is.
fn assign_to_extrema(data: &FlatVec, indices: &Vec<usize>, e1: usize, e2: usize) -> (r: (
    Vec<usize>,
    Vec<usize>,
    u64,
    u64,
))
    requires
        data.wf(),
        indices@.no_duplicates(),
        forall|t: int| 0 <= t < indices@.len() ==> (#[trigger] indices@[t]) < data.n(),
        indices@.contains(e1),
        indices@.contains(e2),
        e1 != e2,
    ensures
        indices@.to_multiset() == r.0@.to_multiset().add(r.1@.to_multiset()).insert(e1).insert(
            e2,
        ),
        r.0@.no_duplicates(),
        r.1@.no_duplicates(),
        !r.0@.contains(e1) && !r.0@.contains(e2) && !r.1@.contains(e1) && !r.1@.contains(e2),
        forall|w: int| 0 <= w < r.0@.len() ==> (#[trigger] r.0@[w]) < data.n(),
        forall|w: int| 0 <= w < r.1@.len() ==> (#[trigger] r.1@[w]) < data.n(),
        forall|w: int|
            0 <= w < r.0@.len() ==> data.d(e1 as int, (#[trigger] r.0@[w]) as int) <= r.2 as int,
        forall|w: int|
            0 <= w < r.1@.len() ==> data.d(e2 as int, (#[trigger] r.1@[w]) as int) <= r.3 as int,
        r.2 <= MAX_DIST,
        r.3 <= MAX_DIST,
{
    broadcast use vstd::seq_lib::group_to_multiset_ensures;
    broadcast use vstd::multiset::group_multiset_axioms;

    proof {
        let w1 = choose|w: int| 0 <= w < indices@.len() && indices@[w] == e1;
        let w2 = choose|w: int| 0 <= w < indices@.len() && indices@[w] == e2;
        assert(indices@[w1] < data.n());
        assert(indices@[w2] < data.n());
    }
    let mut bucket1: Vec<usize> = Vec::new();
    let mut bucket2: Vec<usize> = Vec::new();
    let mut ext1: u64 = 0;
    let mut ext2: u64 = 0;
    let len = indices.len();
    let mut t: usize = 0;
    while t < len
        invariant
            t <= len,
            len == indices@.len(),
            data.wf(),
            e1 < data.n(),
            e2 < data.n(),
            e1 != e2,
            indices@.no_duplicates(),
            forall|w: int| 0 <= w < indices@.len() ==> (#[trigger] indices@[w]) < data.n(),
            indices@.take(t as int).to_multiset() == bucket1@.to_multiset().add(
                bucket2@.to_multiset(),
            ).add(seen_mask(indices@.take(t as int), e1)).add(
                seen_mask(indices@.take(t as int), e2),
            ),
            forall|w: int|
                0 <= w < bucket1@.len() ==> (#[trigger] bucket1@[w]) != e1 && bucket1@[w] != e2
                    && bucket1@[w] < data.n(),
            forall|w: int|
                0 <= w < bucket2@.len() ==> (#[trigger] bucket2@[w]) != e1 && bucket2@[w] != e2
                    && bucket2@[w] < data.n(),
            forall|w: int|
                0 <= w < bucket1@.len() ==> data.d(e1 as int, (#[trigger] bucket1@[w]) as int)
                    <= ext1 as int,
            forall|w: int|
                0 <= w < bucket2@.len() ==> data.d(e2 as int, (#[trigger] bucket2@[w]) as int)
                    <= ext2 as int,
            ext1 <= MAX_DIST,
            ext2 <= MAX_DIST,
        decreases len - t,
    {
        let j = indices[t];
        proof {
            broadcast use vstd::seq_lib::group_to_multiset_ensures;
            broadcast use vstd::multiset::group_multiset_axioms;

            assert(indices@.take(t as int + 1) =~= indices@.take(t as int).push(indices@[t as int]));
            assert(indices@.take(t as int).push(j).to_multiset() == indices@.take(
                t as int,
            ).to_multiset().insert(j));
            if indices@.take(t as int).contains(j) {
                let w = choose|w: int|
                    0 <= w < indices@.take(t as int).len() && indices@.take(t as int)[w] == j;
                assert(indices@[w] == indices@[t as int]);
                assert(false);
            }
            lemma_take_push_contains(indices@, t as int, e1);
            lemma_take_push_contains(indices@, t as int, e2);
        }
        if j == e1 {
            proof {
                broadcast use vstd::seq_lib::group_to_multiset_ensures;
                broadcast use vstd::multiset::group_multiset_axioms;

                assert(seen_mask(indices@.take(t as int), e1) == Multiset::<usize>::empty());
                assert(seen_mask(indices@.take(t as int + 1), e1) == Multiset::empty().insert(e1));
                assert(seen_mask(indices@.take(t as int + 1), e2) == seen_mask(
                    indices@.take(t as int),
                    e2,
                ));
                assert(indices@.take(t as int + 1).to_multiset() =~= bucket1@.to_multiset().add(
                    bucket2@.to_multiset(),
                ).add(seen_mask(indices@.take(t as int + 1), e1)).add(
                    seen_mask(indices@.take(t as int + 1), e2),
                ));
            }
        } else if j == e2 {
            proof {
                broadcast use vstd::seq_lib::group_to_multiset_ensures;
                broadcast use vstd::multiset::group_multiset_axioms;

                assert(seen_mask(indices@.take(t as int), e2) == Multiset::<usize>::empty());
                assert(seen_mask(indices@.take(t as int + 1), e2) == Multiset::empty().insert(e2));
                assert(seen_mask(indices@.take(t as int + 1), e1) == seen_mask(
                    indices@.take(t as int),
                    e1,
                ));
                assert(indices@.take(t as int + 1).to_multiset() =~= bucket1@.to_multiset().add(
                    bucket2@.to_multiset(),
                ).add(seen_mask(indices@.take(t as int + 1), e1)).add(
                    seen_mask(indices@.take(t as int + 1), e2),
                ));
            }
        } else {
            let d1 = data.one_to_one(e1, j);
            let d2 = data.one_to_one(e2, j);
            proof {
                broadcast use vstd::seq_lib::group_to_multiset_ensures;
                broadcast use vstd::multiset::group_multiset_axioms;

                assert(seen_mask(indices@.take(t as int + 1), e1) == seen_mask(
                    indices@.take(t as int),
                    e1,
                ));
                assert(seen_mask(indices@.take(t as int + 1), e2) == seen_mask(
                    indices@.take(t as int),
                    e2,
                ));
            }
            if d1 <= d2 {
                bucket1.push(j);
                if d1 > ext1 {
                    ext1 = d1;
                }
                proof {
                    broadcast use vstd::seq_lib::group_to_multiset_ensures;
                    broadcast use vstd::multiset::group_multiset_axioms;

                    assert(indices@.take(t as int + 1).to_multiset() =~= bucket1@.to_multiset().add(
                        bucket2@.to_multiset(),
                    ).add(seen_mask(indices@.take(t as int + 1), e1)).add(
                        seen_mask(indices@.take(t as int + 1), e2),
                    ));
                }
            } else {
                bucket2.push(j);
                if d2 > ext2 {
                    ext2 = d2;
                }
                proof {
                    broadcast use vstd::seq_lib::group_to_multiset_ensures;
                    broadcast use vstd::multiset::group_multiset_axioms;

                    assert(indices@.take(t as int + 1).to_multiset() =~= bucket1@.to_multiset().add(
                        bucket2@.to_multiset(),
                    ).add(seen_mask(indices@.take(t as int + 1), e1)).add(
                        seen_mask(indices@.take(t as int + 1), e2),
                    ));
                }
            }
        }
        t = t + 1;
    }
    proof {
        assert(indices@.take(len as int) =~= indices@);
        assert(seen_mask(indices@, e1) == Multiset::empty().insert(e1));
        assert(seen_mask(indices@, e2) == Multiset::empty().insert(e2));
        assert(indices@.to_multiset() =~= bucket1@.to_multiset().add(bucket2@.to_multiset()).insert(
            e1,
        ).insert(e2));
        indices@.lemma_multiset_has_no_duplicates();
        assert forall|x: usize|
            bucket1@.to_multiset().contains(x) implies bucket1@.to_multiset().count(x) == 1 by {
            assert(indices@.to_multiset().count(x) >= bucket1@.to_multiset().count(x));
            assert(indices@.to_multiset().contains(x));
        }
        bucket1@.lemma_multiset_has_no_duplicates_conv();
        assert forall|x: usize|
            bucket2@.to_multiset().contains(x) implies bucket2@.to_multiset().count(x) == 1 by {
            assert(indices@.to_multiset().count(x) >= bucket2@.to_multiset().count(x));
            assert(indices@.to_multiset().contains(x));
        }
        bucket2@.lemma_multiset_has_no_duplicates_conv();
        assert(indices@.to_multiset().count(e1) == 1);
        assert(indices@.to_multiset().count(e2) == 1);
        assert(bucket1@.to_multiset().count(e1) == 0);
        assert(bucket1@.to_multiset().count(e2) == 0);
        assert(bucket2@.to_multiset().count(e1) == 0);
        assert(bucket2@.to_multiset().count(e2) == 0);
        if bucket1@.contains(e1) {
            assert(bucket1@.to_multiset().count(e1) > 0);
        }
        if bucket1@.contains(e2) {
            assert(bucket1@.to_multiset().count(e2) > 0);
        }
        if bucket2@.contains(e1) {
            assert(bucket2@.to_multiset().count(e1) > 0);
        }
        if bucket2@.contains(e2) {
            assert(bucket2@.to_multiset().count(e2) > 0);
        }
    }
    (bucket1, bucket2, ext1, ext2)
}

impl Ball {
    /// Recursively build the subtree over the given members: make the node,
    /// and while the criteria ask for it, pick two well-separated extrema,
    /// assign every member to the nearer one, and build one child per
    /// extremum.
    pub fn build_tree(
        data: &FlatVec,
        indices: Vec<usize>,
        depth: usize,
        criteria: &PartitionCriteria,
        seed: Option<u64>,
    ) -> (b: Ball)
        requires
            data.wf(),
            1 <= indices@.len() <= data.n(),
            indices@.no_duplicates(),
            forall|t: int| 0 <= t < indices@.len() ==> (#[trigger] indices@[t]) < data.n(),
            depth + indices@.len() <= usize::MAX,
        ensures
            b.wf(*data),
            b.idx() == indices@,
            b.depth == depth,
        decreases indices@.len(),
    {
        broadcast use vstd::seq_lib::group_to_multiset_ensures;

        let (mut ball, _arg_radial) = Ball::new(data, indices, depth, seed);
        if !criteria.should_partition(&ball) || ball.is_singleton() {
            return ball;
        }
        let e1 = ball.arg_radial;
        let dists = data.one_to_many(e1, &ball.indices);
        let (p2, dmax) = first_arg_max(&dists);
        let e2 = ball.indices[p2];
        proof {
            assert(ball.idx().contains(ball.arg_center));
            let pc = choose|w: int|
                0 <= w < ball.idx().len() && ball.idx()[w] == ball.arg_center;
            assert(dists@[pc] as int == data.d(e1 as int, ball.arg_center as int));
            lemma_dist_symm(
                data.metric.kind,
                data.view_items()[e1 as int],
                data.view_items()[ball.arg_center as int],
            );
            assert(data.d(ball.arg_center as int, e1 as int) == ball.radius as int);
            assert(dists@[pc] > 0);
            assert(dmax > 0);
            lemma_dist_self(data.metric.kind, data.view_items()[e1 as int]);
            if e2 == e1 {
                assert(dists@[p2 as int] as int == data.d(e1 as int, e1 as int));
                assert(false);
            }
        }
        let (bucket1, bucket2, ext1, ext2) = assign_to_extrema(data, &ball.indices, e1, e2);
        let c1 = prepend(e1, &bucket1);
        let c2 = prepend(e2, &bucket2);
        proof {
            let ghost ms = ball.idx().to_multiset();
            assert(ms.len() == ball.idx().len());
            assert(bucket1@.to_multiset().len() == bucket1@.len());
            assert(bucket2@.to_multiset().len() == bucket2@.len());
            assert(ms.len() == bucket1@.len() + bucket2@.len() + 2);
            assert(c1@.to_multiset() =~= bucket1@.to_multiset().insert(e1)) by {
                vstd::seq_lib::lemma_multiset_commutative(seq![e1], bucket1@);
                assert(seq![e1].to_multiset() =~= Multiset::empty().insert(e1));
            }
            assert(c2@.to_multiset() =~= bucket2@.to_multiset().insert(e2)) by {
                vstd::seq_lib::lemma_multiset_commutative(seq![e2], bucket2@);
                assert(seq![e2].to_multiset() =~= Multiset::empty().insert(e2));
            }
            ball.idx().lemma_multiset_has_no_duplicates();
            assert forall|x: usize|
                c1@.to_multiset().contains(x) implies c1@.to_multiset().count(x) == 1 by {
                assert(ball.idx().to_multiset().count(x) >= c1@.to_multiset().count(x));
                assert(ball.idx().to_multiset().contains(x));
            }
            c1@.lemma_multiset_has_no_duplicates_conv();
            assert forall|x: usize|
                c2@.to_multiset().contains(x) implies c2@.to_multiset().count(x) == 1 by {
                assert(ball.idx().to_multiset().count(x) >= c2@.to_multiset().count(x));
                assert(ball.idx().to_multiset().contains(x));
            }
            c2@.lemma_multiset_has_no_duplicates_conv();
            assert(forall|w: int| 0 <= w < c1@.len() ==> (#[trigger] c1@[w]) < data.n());
            assert(forall|w: int| 0 <= w < c2@.len() ==> (#[trigger] c2@[w]) < data.n());
        }
        let ghost gc1 = c1@;
        let ghost gc2 = c2@;
        let child1 = Ball::build_tree(data, c1, depth + 1, criteria, seed);
        let child2 = Ball::build_tree(data, c2, depth + 1, criteria, seed);
        let ghost gchild1 = child1;
        let ghost gchild2 = child2;
        let mut children: Vec<(usize, u64, Box<Ball>)> = Vec::new();
        children.push((e1, ext1, Box::new(child1)));
        children.push((e2, ext2, Box::new(child2)));
        ball.children = children;
        proof {
            assert(ball.children@.len() == 2);
            assert(ball.children@[0].0 == e1 && ball.children@[0].1 == ext1);
            assert(ball.children@[1].0 == e2 && ball.children@[1].1 == ext2);
            assert(*ball.children@[0].2 == gchild1);
            assert(*ball.children@[1].2 == gchild2);
            assert(ball.children@[0].2.idx() == gc1);
            assert(ball.children@[1].2.idx() == gc2);
            assert(ball.children@[0].2.wf(*data));
            assert(ball.children@[1].2.wf(*data));
            assert(ball.children@[0].2.idx().len() < ball.idx().len());
            assert(ball.children@[1].2.idx().len() < ball.idx().len());
            assert(ball.wf_node(*data));
            assert(ball.wf_children(*data, 0));
            lemma_dist_self(data.metric.kind, data.view_items()[e1 as int]);
            lemma_dist_self(data.metric.kind, data.view_items()[e2 as int]);
            assert forall|t: int|
                0 <= t < ball.children@[0].2.idx().len() implies data.d(
                e1 as int,
                (#[trigger] ball.children@[0].2.idx()[t]) as int,
            ) <= ext1 as int by {
                if t > 0 {
                    assert(ball.children@[0].2.idx()[t] == bucket1@[t - 1]);
                }
            }
            assert forall|t: int|
                0 <= t < ball.children@[1].2.idx().len() implies data.d(
                e2 as int,
                (#[trigger] ball.children@[1].2.idx()[t]) as int,
            ) <= ext2 as int by {
                if t > 0 {
                    assert(ball.children@[1].2.idx()[t] == bucket2@[t - 1]);
                }
            }
            assert(ball.children@[0].2.idx().contains(e1)) by {
                assert(ball.children@[0].2.idx()[0] == e1);
            }
            assert(ball.children@[1].2.idx().contains(e2)) by {
                assert(ball.children@[1].2.idx()[0] == e2);
            }
            assert(ball.wf_children(*data, 1));
            assert(ball.wf_children(*data, 2));
            assert(ball.children_idx(0) =~= Seq::<usize>::empty());
            assert(ball.children_idx(1) =~= Seq::<usize>::empty() + ball.children@[0].2.idx());
            assert(ball.children_idx(2) =~= ball.children_idx(1) + ball.children@[1].2.idx());
            vstd::seq_lib::lemma_multiset_commutative(
                Seq::<usize>::empty() + ball.children@[0].2.idx(),
                ball.children@[1].2.idx(),
            );
            vstd::seq_lib::lemma_multiset_commutative(
                Seq::<usize>::empty(),
                ball.children@[0].2.idx(),
            );
            assert(ball.children_idx(2).to_multiset() =~= ball.idx().to_multiset());
        }
        ball
    }

    /// Build the tree over the whole dataset.
    pub fn new_tree(data: &FlatVec, criteria: &PartitionCriteria, seed: Option<u64>) -> (root: Ball)
        requires
            data.wf(),
        ensures
            root.wf(*data),
            root.depth == 0,
            root.idx().len() == data.n(),
            forall|t: int| 0 <= t < data.n() ==> (#[trigger] root.idx()[t]) == t,
    {
        let n = data.cardinality();
        let mut indices: Vec<usize> = Vec::new();
        let mut p: usize = 0;
        while p < n
            invariant
                p <= n,
                indices@.len() == p,
                forall|t: int| 0 <= t < p ==> (#[trigger] indices@[t]) == t,
            decreases n - p,
        {
            indices.push(p);
            p = p + 1;
        }
        proof {
            assert forall|a: int, b: int|
                0 <= a < b < indices@.len() implies indices@[a] != indices@[b] by {}
            assert(indices@.no_duplicates());
        }
        Ball::build_tree(data, indices, 0, criteria, seed)
    }

    /// Parallel variant of `new_tree`; produces the same tree.
    pub fn par_new_tree(data: &FlatVec, criteria: &PartitionCriteria, seed: Option<u64>) -> (root:
        Ball)
        requires
            data.wf(),
        ensures
            root.wf(*data),
            root.depth == 0,
            root.idx().len() == data.n(),
            forall|t: int| 0 <= t < data.n() ==> (#[trigger] root.idx()[t]) == t,
    {
        Ball::new_tree(data, criteria, seed)
    }
}

} // verus!
