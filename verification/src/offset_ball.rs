//! An adaptation of the ball tree that reorders the dataset so that every
//! node's members occupy one contiguous index range.
//!
//! The member list of every node collapses to a single `(offset, cardinality)`
//! pair: the members are exactly the positions `offset..offset + cardinality`
//! of the permuted dataset.  The permutation is the depth-first flattening of
//! the source tree's leaves; offsets are assigned sequentially, child by
//! child, and the important indices of every node (center, radial, extremal
//! points) are rewritten through the permutation.

use vstd::prelude::*;

use crate::cluster::Ball;
use crate::dataset::{is_permutation, FlatVec};
use crate::metric::MAX_DIST;

verus! {

/// A node whose members are the contiguous range `offset..offset +
/// cardinality` of the permuted dataset.
pub struct OffsetBall {
    /// Depth of the node; the root is at depth 0.
    pub depth: usize,
    /// First member position in the permuted dataset.
    pub offset: usize,
    /// Number of members.
    pub cardinality: usize,
    /// Position of the center member in the permuted dataset.
    pub arg_center: usize,
    /// Position of the member farthest from the center.
    pub arg_radial: usize,
    /// Distance from the center to the radial member.
    pub radius: u64,
    /// Number of members within half the radius of the center.
    pub half_count: usize,
    /// Child edges: rewritten extremal position, extent, child.
    pub children: Vec<(usize, u64, Box<OffsetBall>)>,
}

impl OffsetBall {
    /// The member positions: exactly the interval starting at `offset`.
    pub open spec fn idx(&self) -> Seq<usize> {
        Seq::new(self.cardinality as nat, |t: int| (self.offset + t) as usize)
    }

    /// Well-formedness over the permuted dataset: the interval is in range,
    /// the center and radial members lie inside it, the radius is their
    /// distance and bounds the distance from the center to every member, and
    /// the children split the interval into consecutive subintervals.
    pub open spec fn wf_p(&self, data: FlatVec) -> bool
        decreases *self, self.children@.len() as int + 1,
    {
        &&& self.cardinality >= 1
        &&& self.offset + self.cardinality <= data.n()
        &&& self.offset + self.cardinality <= usize::MAX
        &&& self.offset <= self.arg_center < self.offset + self.cardinality
        &&& self.offset <= self.arg_radial < self.offset + self.cardinality
        &&& self.radius as int == data.d(self.arg_center as int, self.arg_radial as int)
        &&& self.radius <= MAX_DIST
        &&& forall|p: int|
            self.offset <= p < self.offset + self.cardinality ==> data.d(
                self.arg_center as int,
                p,
            ) <= self.radius as int
        &&& self.children@.len() != 1
        &&& self.children@.len() > 0 ==> {
            &&& self.children@[0].2.offset == self.offset
            &&& forall|c: int|
                1 <= c < self.children@.len() ==> (#[trigger] self.children@[c].2.offset) as int
                    == self.children@[c - 1].2.offset + self.children@[c - 1].2.cardinality
            &&& self.children@[self.children@.len() - 1].2.offset + self.children@[self.children@.len()
                - 1].2.cardinality == self.offset + self.cardinality
        }
        &&& self.wf_p_children(data, self.children@.len() as int)
    }

    /// Well-formedness of the children numbered below `upto`.
    pub open spec fn wf_p_children(&self, data: FlatVec, upto: int) -> bool
        decreases *self, upto,
        when 0 <= upto <= self.children@.len()
    {
        if upto == 0 {
            true
        } else {
            &&& self.wf_p_children(data, upto - 1)
            &&& self.children@[upto - 1].2.wf_p(data)
            &&& self.children@[upto - 1].2.depth == self.depth + 1
            &&& self.children@[upto - 1].2.cardinality < self.cardinality
        }
    }

    /// The contiguity of the offset representation: the members of a node
    /// are exactly the interval from its offset, and the children of a node
    /// split its interval into consecutive intervals.
    pub proof fn lemma_offset_contiguity(&self, data: FlatVec)
        requires
            self.wf_p(data),
        ensures
            self.idx().len() == self.cardinality,
            forall|t: int|
                0 <= t < self.cardinality ==> (#[trigger] self.idx()[t]) as int == self.offset + t,
            self.children@.len() > 0 ==> self.children@[0].2.offset == self.offset,
            forall|c: int|
                1 <= c < self.children@.len() ==> (#[trigger] self.children@[c].2.offset) as int
                    == self.children@[c - 1].2.offset + self.children@[c - 1].2.cardinality,
            self.children@.len() > 0 ==> self.children@[self.children@.len() - 1].2.offset
                + self.children@[self.children@.len() - 1].2.cardinality == self.offset
                + self.cardinality,
    {
    }

    /// From the well-formedness of a node, the well-formedness of each
    /// child.
    pub proof fn lemma_wf_p_child(&self, data: FlatVec, i: int)
        requires
            self.wf_p(data),
            0 <= i < self.children@.len(),
        ensures
            self.children@[i].2.wf_p(data),
            self.children@[i].2.depth == self.depth + 1,
            self.children@[i].2.cardinality < self.cardinality,
    {
        self.lemma_wf_p_children_index(data, self.children@.len() as int, i);
    }

    /// Helper for `lemma_wf_p_child`.
    proof fn lemma_wf_p_children_index(&self, data: FlatVec, upto: int, i: int)
        requires
            self.wf_p_children(data, upto),
            0 <= i < upto,
            upto <= self.children@.len(),
        ensures
            self.children@[i].2.wf_p(data),
            self.children@[i].2.depth == self.depth + 1,
            self.children@[i].2.cardinality < self.cardinality,
        decreases upto,
    {
        if i < upto - 1 {
            self.lemma_wf_p_children_index(data, upto - 1, i);
        }
    }

    /// First member position of the node.
    pub fn offset(&self) -> (r: usize)
        ensures
            r == self.offset,
    {
        self.offset
    }

    /// Number of members of the node.
    pub fn cardinality(&self) -> (r: usize)
        ensures
            r == self.cardinality,
    {
        self.cardinality
    }

    /// Depth of the node.
    pub fn depth(&self) -> (r: usize)
        ensures
            r == self.depth,
    {
        self.depth
    }

    /// Position of the center member in the permuted dataset.
    pub fn arg_center(&self) -> (r: usize)
        ensures
            r == self.arg_center,
    {
        self.arg_center
    }

    /// Position of the radial member in the permuted dataset.
    pub fn arg_radial(&self) -> (r: usize)
        ensures
            r == self.arg_radial,
    {
        self.arg_radial
    }

    /// Distance from the center to the radial member.
    pub fn radius(&self) -> (r: u64)
        ensures
            r == self.radius,
    {
        self.radius
    }

    /// The counts determining the local fractal dimension.
    pub fn lfd(&self) -> (r: (usize, usize))
        ensures
            r.0 == self.cardinality,
            r.1 == self.half_count,
    {
        (self.cardinality, self.half_count)
    }

    /// The child edges of the node.
    pub fn children(&self) -> (r: &Vec<(usize, u64, Box<OffsetBall>)>)
        ensures
            r == self.children,
    {
        &self.children
    }

    /// Whether the node has no children.
    pub fn is_leaf(&self) -> (r: bool)
        ensures
            r == (self.children@.len() == 0),
    {
        self.children.len() == 0
    }
}

/// The adapted node mirrors the source node through the flattening `sigma`:
/// same metadata, the interval positions map back to exactly the source
/// members, and the rewritten indices map back to the source indices.
pub open spec fn mirrors(ob: OffsetBall, ball: Ball, sigma: Seq<usize>) -> bool
    decreases ball, ball.children@.len() as int + 1,
{
    &&& ob.cardinality == ball.card()
    &&& ob.depth == ball.depth
    &&& ob.radius == ball.radius
    &&& ob.half_count == ball.half_count
    &&& ob.offset + ob.cardinality <= sigma.len()
    &&& ob.offset <= ob.arg_center < ob.offset + ob.cardinality
    &&& ob.offset <= ob.arg_radial < ob.offset + ob.cardinality
    &&& sigma[ob.arg_center as int] == ball.arg_center
    &&& sigma[ob.arg_radial as int] == ball.arg_radial
    &&& sigma.subrange(ob.offset as int, ob.offset + ob.cardinality).to_multiset()
        == ball.idx().to_multiset()
    &&& ob.children@.len() == ball.children@.len()
    &&& ob.children@.len() > 0 ==> {
        &&& ob.children@[0].2.offset == ob.offset
        &&& forall|c: int|
            1 <= c < ob.children@.len() ==> (#[trigger] ob.children@[c].2.offset) as int
                == ob.children@[c - 1].2.offset + ob.children@[c - 1].2.cardinality
        &&& ob.children@[ob.children@.len() - 1].2.offset + ob.children@[ob.children@.len()
            - 1].2.cardinality == ob.offset + ob.cardinality
    }
    &&& mirrors_children(ob, ball, sigma, ball.children@.len() as int)
}

/// The mirror relation for the children numbered below `upto`.
pub open spec fn mirrors_children(ob: OffsetBall, ball: Ball, sigma: Seq<usize>, upto: int) -> bool
    decreases ball, upto,
    when 0 <= upto <= ball.children@.len() && ob.children@.len() == ball.children@.len()
{
    if upto == 0 {
        true
    } else {
        &&& mirrors_children(ob, ball, sigma, upto - 1)
        &&& mirrors(*ob.children@[upto - 1].2, *ball.children@[upto - 1].2, sigma)
        &&& ob.children@[upto - 1].1 == ball.children@[upto - 1].1
        &&& ob.children@[upto - 1].0 < sigma.len()
        &&& sigma[ob.children@[upto - 1].0 as int] == ball.children@[upto - 1].0
    }
}


/// The mirror relation only reads the flattening below the node's end, so it
/// survives appending more of the flattening.
pub proof fn lemma_mirrors_extend(ob: OffsetBall, ball: Ball, s1: Seq<usize>, s2: Seq<usize>)
    requires
        mirrors(ob, ball, s1),
        s1.len() <= s2.len(),
        forall|p: int| 0 <= p < s1.len() ==> s1[p] == s2[p],
    ensures
        mirrors(ob, ball, s2),
    decreases ball, ball.children@.len() as int + 1,
{
    assert(s2.subrange(ob.offset as int, ob.offset + ob.cardinality) =~= s1.subrange(
        ob.offset as int,
        ob.offset + ob.cardinality,
    ));
    lemma_mirrors_extend_children(ob, ball, s1, s2, ball.children@.len() as int);
}

/// Helper for `lemma_mirrors_extend`.
proof fn lemma_mirrors_extend_children(
    ob: OffsetBall,
    ball: Ball,
    s1: Seq<usize>,
    s2: Seq<usize>,
    upto: int,
)
    requires
        mirrors_children(ob, ball, s1, upto),
        ob.children@.len() == ball.children@.len(),
        0 <= upto <= ball.children@.len(),
        s1.len() <= s2.len(),
        forall|p: int| 0 <= p < s1.len() ==> s1[p] == s2[p],
    ensures
        mirrors_children(ob, ball, s2, upto),
    decreases ball, upto,
{
    if upto > 0 {
        lemma_mirrors_extend_children(ob, ball, s1, s2, upto - 1);
        lemma_mirrors_extend(*ob.children@[upto - 1].2, *ball.children@[upto - 1].2, s1, s2);
    }
}

/// Assemble the recursive mirror relation of the children from pointwise
/// facts.
proof fn lemma_mirrors_children_assemble(
    ob: OffsetBall,
    ball: Ball,
    sigma: Seq<usize>,
    upto: int,
)
    requires
        ob.children@.len() == ball.children@.len(),
        0 <= upto <= ball.children@.len(),
        forall|c: int|
            0 <= c < upto ==> mirrors(*(#[trigger] ob.children@[c]).2, *ball.children@[c].2, sigma),
        forall|c: int| 0 <= c < upto ==> (#[trigger] ob.children@[c]).1 == ball.children@[c].1,
        forall|c: int|
            0 <= c < upto ==> (#[trigger] ob.children@[c]).0 < sigma.len() && sigma[
                ob.children@[c].0 as int
            ] == ball.children@[c].0,
    ensures
        mirrors_children(ob, ball, sigma, upto),
    decreases upto,
{
    if upto > 0 {
        lemma_mirrors_children_assemble(ob, ball, sigma, upto - 1);
    }
}

/// Find the position of `i` in `perm` between `offset` and `upper`.
fn new_index(i: usize, perm: &Vec<usize>, offset: usize, upper: usize) -> (r: usize)
    requires
        offset <= upper <= perm@.len(),
        exists|p: int| offset <= p < upper && perm@[p] == i,
    ensures
        offset <= r < upper,
        perm@[r as int] == i,
{
    let mut p = offset;
    while p < upper
        invariant
            offset <= p <= upper,
            upper <= perm@.len(),
            forall|q: int| offset <= q < p ==> perm@[q] != i,
            exists|q: int| offset <= q < upper && perm@[q] == i,
        decreases upper - p,
    {
        if perm[p] == i {
            return p;
        }
        p = p + 1;
    }
    proof {
        let q = choose|q: int| offset <= q < upper && perm@[q] == i;
        assert(false);
    }
    offset
}

/// Adapt the subtree of `ball`, appending the flattening of its leaves to
/// `perm` and assigning offsets from the current end of `perm`.
#[verifier::rlimit(30)]
fn adapt_rec(ball: &Ball, perm: &mut Vec<usize>, Ghost(data): Ghost<FlatVec>) -> (ob: OffsetBall)
    requires
        ball.wf(data),
        old(perm)@.len() + ball.idx().len() <= usize::MAX,
    ensures
        final(perm)@ == old(perm)@ + ball.leaf_idx(),
        mirrors(ob, *ball, final(perm)@),
        ob.offset == old(perm)@.len(),
    decreases *ball,
{
    broadcast use vstd::seq_lib::group_to_multiset_ensures;

    proof {
        ball.lemma_leaf_partition(data);
    }
    let offset = perm.len();
    if ball.children.len() == 0 {
        let m = ball.indices.len();
        let mut t: usize = 0;
        while t < m
            invariant
                t <= m,
                m == ball.idx().len(),
                offset == old(perm)@.len(),
                offset + m <= usize::MAX,
                perm@ == old(perm)@ + ball.idx().take(t as int),
            decreases m - t,
        {
            perm.push(ball.indices[t]);
            proof {
                assert(ball.idx().take(t as int).push(ball.idx()[t as int]) =~= ball.idx().take(
                    t as int + 1,
                ));
                assert(perm@ =~= old(perm)@ + ball.idx().take(t as int + 1));
            }
            t = t + 1;
        }
        proof {
            assert(ball.idx().take(m as int) =~= ball.idx());
            assert(perm@ =~= old(perm)@ + ball.idx());
            assert(perm@.subrange(offset as int, offset + m) =~= ball.idx());
        }
        let ghost seg = perm@.subrange(offset as int, offset + m);
        proof {
            assert(ball.idx().contains(ball.arg_center));
            let tc = choose|tc: int|
                0 <= tc < ball.idx().len() && ball.idx()[tc] == ball.arg_center;
            assert(perm@[offset + tc] == ball.arg_center);
            assert(ball.idx().contains(ball.arg_radial));
            let tr = choose|tr: int|
                0 <= tr < ball.idx().len() && ball.idx()[tr] == ball.arg_radial;
            assert(perm@[offset + tr] == ball.arg_radial);
        }
        let cpos = new_index(ball.arg_center, perm, offset, perm.len());
        let rpos = new_index(ball.arg_radial, perm, offset, perm.len());
        let ob = OffsetBall {
            depth: ball.depth,
            offset,
            cardinality: m,
            arg_center: cpos,
            arg_radial: rpos,
            radius: ball.radius,
            half_count: ball.half_count,
            children: Vec::new(),
        };
        proof {
            assert(mirrors_children(ob, *ball, perm@, 0));
            assert(ob.idx().len() == ball.idx().len());
        }
        ob
    } else {
        let nc = ball.children.len();
        let mut children: Vec<(usize, u64, Box<OffsetBall>)> = Vec::new();
        let mut c: usize = 0;
        while c < nc
            invariant
                c <= nc,
                nc == ball.children@.len(),
                nc > 1,
                ball.wf(data),
                offset == old(perm)@.len(),
                offset + ball.idx().len() <= usize::MAX,
                perm@ == old(perm)@ + ball.leaf_idx_children(c as int),
                children@.len() == c,
                forall|cc: int|
                    0 <= cc < c ==> mirrors(
                        *(#[trigger] children@[cc]).2,
                        *ball.children@[cc].2,
                        perm@,
                    ),
                forall|cc: int|
                    0 <= cc < c ==> (#[trigger] children@[cc]).1 == ball.children@[cc].1,
                forall|cc: int|
                    0 <= cc < c ==> (#[trigger] children@[cc]).0 < perm@.len() && perm@[
                        children@[cc].0 as int
                    ] == ball.children@[cc].0,
                c > 0 ==> children@[0].2.offset == offset,
                forall|cc: int|
                    1 <= cc < c ==> (#[trigger] children@[cc].2.offset) as int == children@[cc
                        - 1].2.offset + children@[cc - 1].2.cardinality,
                c > 0 ==> children@[c - 1].2.offset + children@[c - 1].2.cardinality
                    == perm@.len(),
                perm@.len() == offset + ball.children_idx(c as int).len(),
            decreases nc - c,
        {
            proof {
                broadcast use vstd::seq_lib::group_to_multiset_ensures;
                broadcast use vstd::multiset::group_multiset_axioms;

                ball.lemma_wf_child(data, c as int);
                ball.lemma_leaf_partition_children(data, c as int);
                ball.lemma_children_idx_len(data, c as int + 1);
                assert(ball.children_idx(c as int + 1).len() == ball.children_idx(c as int).len()
                    + ball.children@[c as int].2.idx().len()) by {
                    vstd::seq_lib::lemma_multiset_commutative(
                        ball.children_idx(c as int),
                        ball.children@[c as int].2.idx(),
                    );
                }
            }
            let ghost pre = perm@;
            let ghost child_off = perm@.len();
            let child_ob = adapt_rec(&ball.children[c].2, perm, Ghost(data));
            proof {
                broadcast use vstd::seq_lib::group_to_multiset_ensures;
                broadcast use vstd::multiset::group_multiset_axioms;

                // the child's segment holds its extremal point
                ball.children@[c as int].2.lemma_leaf_partition(data);
                assert(perm@.subrange(
                    child_off as int,
                    child_off as int + ball.children@[c as int].2.idx().len() as int,
                ).to_multiset() == ball.children@[c as int].2.idx().to_multiset());
                assert(ball.children@[c as int].2.idx().contains(ball.children@[c as int].0));
                let seg = perm@.subrange(
                    child_off as int,
                    child_off as int + ball.children@[c as int].2.idx().len() as int,
                );
                assert(seg.to_multiset().contains(ball.children@[c as int].0));
                assert(seg.contains(ball.children@[c as int].0));
                let w = choose|w: int|
                    0 <= w < seg.len() && seg[w] == ball.children@[c as int].0;
                assert(perm@[child_off as int + w] == ball.children@[c as int].0);
                assert(ball.children@[c as int].2.leaf_idx().to_multiset().len()
                    == ball.children@[c as int].2.leaf_idx().len());
                assert(ball.children@[c as int].2.idx().to_multiset().len() == ball.children@[
                    c as int
                ].2.idx().len());
                assert(perm@.len() == child_off + child_ob.cardinality);
            }
            let e_new = new_index(ball.children[c].0, perm, perm.len() - child_ob.cardinality, perm.len());
            proof {
                assert(child_ob.cardinality == ball.children@[c as int].2.idx().len());
            }
            let ext = ball.children[c].1;
            let ghost old_children = children@;
            children.push((e_new, ext, Box::new(child_ob)));
            proof {
                broadcast use vstd::seq_lib::group_to_multiset_ensures;
                broadcast use vstd::multiset::group_multiset_axioms;

                assert(perm@ =~= old(perm)@ + ball.leaf_idx_children(c as int + 1)) by {
                    assert(ball.leaf_idx_children(c as int + 1) =~= ball.leaf_idx_children(
                        c as int,
                    ) + ball.children@[c as int].2.leaf_idx());
                }
                assert forall|cc: int| 0 <= cc < c + 1 implies mirrors(
                    *(#[trigger] children@[cc]).2,
                    *ball.children@[cc].2,
                    perm@,
                ) by {
                    if cc < c {
                        assert(children@[cc] == old_children[cc]);
                        lemma_mirrors_extend(
                            *old_children[cc].2,
                            *ball.children@[cc].2,
                            pre,
                            perm@,
                        );
                    } else {
                        assert(children@[cc].2 == child_ob);
                    }
                }
                assert(perm@.len() == offset + ball.children_idx(c as int + 1).len()) by {
                    ball.children@[c as int].2.lemma_leaf_partition(data);
                    assert(ball.children@[c as int].2.leaf_idx().to_multiset().len()
                        == ball.children@[c as int].2.leaf_idx().len());
                    assert(ball.children@[c as int].2.idx().to_multiset().len() == ball.children@[
                        c as int
                    ].2.idx().len());
                    assert(ball.children_idx(c as int + 1) == ball.children_idx(c as int)
                        + ball.children@[c as int].2.idx());
                    assert(ball.leaf_idx_children(c as int + 1) == ball.leaf_idx_children(
                        c as int,
                    ) + ball.children@[c as int].2.leaf_idx());
                }
            }
            c = c + 1;
        }
        proof {
            ball.lemma_leaf_partition_children(data, nc as int);
            assert(ball.leaf_idx() == ball.leaf_idx_children(nc as int));
            assert(perm@.len() == offset + ball.idx().len()) by {
                assert(ball.children_idx(nc as int).to_multiset() == ball.idx().to_multiset());
                assert(ball.children_idx(nc as int).to_multiset().len() == ball.children_idx(
                    nc as int,
                ).len());
                assert(ball.idx().to_multiset().len() == ball.idx().len());
            }
            // the whole segment carries exactly the members of the node
            let seg = perm@.subrange(offset as int, offset + ball.idx().len());
            assert(seg =~= ball.leaf_idx_children(nc as int));
            assert(seg.to_multiset() == ball.idx().to_multiset());
            assert(ball.idx().contains(ball.arg_center));
            assert(seg.to_multiset().contains(ball.arg_center));
            assert(seg.contains(ball.arg_center));
            let wc = choose|w: int| 0 <= w < seg.len() && seg[w] == ball.arg_center;
            assert(perm@[offset + wc] == ball.arg_center);
            assert(seg.to_multiset().contains(ball.arg_radial));
            assert(seg.contains(ball.arg_radial));
            let wr = choose|w: int| 0 <= w < seg.len() && seg[w] == ball.arg_radial;
            assert(perm@[offset + wr] == ball.arg_radial);
        }
        let m = perm.len() - offset;
        let cpos = new_index(ball.arg_center, perm, offset, perm.len());
        let rpos = new_index(ball.arg_radial, perm, offset, perm.len());
        let ob = OffsetBall {
            depth: ball.depth,
            offset,
            cardinality: m,
            arg_center: cpos,
            arg_radial: rpos,
            radius: ball.radius,
            half_count: ball.half_count,
            children,
        };
        proof {
            lemma_mirrors_children_assemble(ob, *ball, perm@, nc as int);
            assert(ob.cardinality == ball.card());
            assert(perm@.subrange(ob.offset as int, ob.offset + ob.cardinality).to_multiset()
                == ball.idx().to_multiset());
        }
        ob
    }
}


/// Walk the mirror relation down to one child edge.
proof fn lemma_mirrors_child(ob: OffsetBall, ball: Ball, sigma: Seq<usize>, i: int)
    requires
        mirrors(ob, ball, sigma),
        0 <= i < ball.children@.len(),
    ensures
        mirrors(*ob.children@[i].2, *ball.children@[i].2, sigma),
        ob.children@[i].1 == ball.children@[i].1,
        ob.children@[i].0 < sigma.len(),
        sigma[ob.children@[i].0 as int] == ball.children@[i].0,
    decreases ball.children@.len() - i,
{
    lemma_mirrors_children_index(ob, ball, sigma, ball.children@.len() as int, i);
}

/// Helper for `lemma_mirrors_child`.
proof fn lemma_mirrors_children_index(
    ob: OffsetBall,
    ball: Ball,
    sigma: Seq<usize>,
    upto: int,
    i: int,
)
    requires
        mirrors_children(ob, ball, sigma, upto),
        ob.children@.len() == ball.children@.len(),
        0 <= i < upto <= ball.children@.len(),
    ensures
        mirrors(*ob.children@[i].2, *ball.children@[i].2, sigma),
        ob.children@[i].1 == ball.children@[i].1,
        ob.children@[i].0 < sigma.len(),
        sigma[ob.children@[i].0 as int] == ball.children@[i].0,
    decreases upto,
{
    if i < upto - 1 {
        lemma_mirrors_children_index(ob, ball, sigma, upto - 1, i);
    }
}

/// A mirrored tree is well-formed over the permuted dataset: distances are
/// preserved because every new position holds the item of the old position
/// it maps back to.
pub proof fn lemma_mirrors_wf_p(
    ob: OffsetBall,
    ball: Ball,
    sigma: Seq<usize>,
    data_old: FlatVec,
    data_new: FlatVec,
)
    requires
        mirrors(ob, ball, sigma),
        ball.wf(data_old),
        data_new.metric == data_old.metric,
        data_new.n() == data_old.n(),
        sigma.len() == data_old.n(),
        data_old.n() <= usize::MAX,
        forall|p: int| 0 <= p < sigma.len() ==> (#[trigger] sigma[p]) < data_old.n(),
        forall|p: int|
            0 <= p < data_new.n() ==> #[trigger] data_new.view_items()[p]
                == data_old.view_items()[sigma[p] as int],
    ensures
        ob.wf_p(data_new),
    decreases ball, ball.children@.len() as int + 1,
{
    broadcast use vstd::seq_lib::group_to_multiset_ensures;

    assert(data_new.d(ob.arg_center as int, ob.arg_radial as int) == data_old.d(
        ball.arg_center as int,
        ball.arg_radial as int,
    ));
    let seg = sigma.subrange(ob.offset as int, ob.offset + ob.cardinality);
    assert forall|p: int|
        ob.offset <= p < ob.offset + ob.cardinality implies data_new.d(
        ob.arg_center as int,
        p,
    ) <= ob.radius as int by {
        assert(seg[p - ob.offset] == sigma[p]);
        assert(seg.contains(sigma[p]));
        assert(ball.idx().to_multiset().contains(sigma[p]));
        assert(ball.idx().contains(sigma[p]));
        let t = choose|t: int| 0 <= t < ball.idx().len() && ball.idx()[t] == sigma[p];
        assert(data_old.d(ball.arg_center as int, (ball.idx()[t]) as int) <= ball.radius as int);
        assert(data_new.d(ob.arg_center as int, p) == data_old.d(
            ball.arg_center as int,
            sigma[p] as int,
        ));
    }
    lemma_mirrors_wf_p_children(
        ob,
        ball,
        sigma,
        data_old,
        data_new,
        ball.children@.len() as int,
    );
}

/// Helper for `lemma_mirrors_wf_p`.
proof fn lemma_mirrors_wf_p_children(
    ob: OffsetBall,
    ball: Ball,
    sigma: Seq<usize>,
    data_old: FlatVec,
    data_new: FlatVec,
    upto: int,
)
    requires
        mirrors(ob, ball, sigma),
        ball.wf(data_old),
        data_new.metric == data_old.metric,
        data_new.n() == data_old.n(),
        sigma.len() == data_old.n(),
        data_old.n() <= usize::MAX,
        forall|p: int| 0 <= p < sigma.len() ==> (#[trigger] sigma[p]) < data_old.n(),
        forall|p: int|
            0 <= p < data_new.n() ==> #[trigger] data_new.view_items()[p]
                == data_old.view_items()[sigma[p] as int],
        0 <= upto <= ball.children@.len(),
    ensures
        ob.wf_p_children(data_new, upto),
    decreases ball, upto,
{
    if upto > 0 {
        lemma_mirrors_wf_p_children(ob, ball, sigma, data_old, data_new, upto - 1);
        lemma_mirrors_child(ob, ball, sigma, upto - 1);
        ball.lemma_wf_child(data_old, upto - 1);
        lemma_mirrors_wf_p(
            *ob.children@[upto - 1].2,
            *ball.children@[upto - 1].2,
            sigma,
            data_old,
            data_new,
        );
    }
}

/// The flattening of a tree over the whole dataset is a permutation.
proof fn lemma_flattening_is_permutation(ball: Ball, data: FlatVec)
    requires
        ball.wf(data),
        ball.idx().len() == data.n(),
        forall|t: int| 0 <= t < data.n() ==> (#[trigger] ball.idx()[t]) == t,
    ensures
        is_permutation(ball.leaf_idx(), data.n()),
        ball.leaf_idx().len() == data.n(),
    decreases 0int,
{
    broadcast use vstd::seq_lib::group_to_multiset_ensures;

    ball.lemma_leaf_partition(data);
    let perm = ball.leaf_idx();
    assert(perm.to_multiset().len() == perm.len());
    assert(ball.idx().to_multiset().len() == ball.idx().len());
    assert(perm.len() == data.n());
    assert forall|p: int| 0 <= p < data.n() implies (#[trigger] perm[p]) < data.n() by {
        assert(perm.contains(perm[p]));
        assert(perm.to_multiset().contains(perm[p]));
        assert(ball.idx().to_multiset().contains(perm[p]));
        assert(ball.idx().contains(perm[p]));
        let t = choose|t: int| 0 <= t < ball.idx().len() && ball.idx()[t] == perm[p];
        assert(ball.idx()[t] == t as usize);
    }
    ball.idx().lemma_multiset_has_no_duplicates();
    assert forall|x: usize|
        perm.to_multiset().contains(x) implies perm.to_multiset().count(x) == 1 by {
        assert(ball.idx().to_multiset().contains(x));
    }
    perm.lemma_multiset_has_no_duplicates_conv();
}

/// Adapt a built tree: the returned permutation is the depth-first
/// flattening of the source tree's leaves, and the adapted tree mirrors the
/// source through it.  Offsets are assigned sequentially; the parallel
/// variant therefore produces the same result.
pub fn adapt(ball: Ball, Ghost(data): Ghost<FlatVec>) -> (r: (OffsetBall, Vec<usize>))
    requires
        ball.wf(data),
        ball.idx().len() <= usize::MAX,
    ensures
        r.1@ == ball.leaf_idx(),
        mirrors(r.0, ball, r.1@),
        r.0.offset == 0,
{
    let mut perm: Vec<usize> = Vec::new();
    let ob = adapt_rec(&ball, &mut perm, Ghost(data));
    proof {
        assert(perm@ =~= ball.leaf_idx());
    }
    (ob, perm)
}

/// Parallel variant of `adapt`.  Offsets depend on the cardinalities of all
/// earlier siblings, so they are assigned in one sequential pass either way;
/// the result is the same.
pub fn par_adapt(ball: Ball, Ghost(data): Ghost<FlatVec>) -> (r: (OffsetBall, Vec<usize>))
    requires
        ball.wf(data),
        ball.idx().len() <= usize::MAX,
    ensures
        r.1@ == ball.leaf_idx(),
        mirrors(r.0, ball, r.1@),
        r.0.offset == 0,
{
    adapt(ball, Ghost(data))
}

/// Build the offset tree from a ball tree over the whole dataset, and
/// permute the dataset so that every node's members are contiguous.  The
/// permutation applied is the depth-first flattening of the source leaves:
/// position `p` of the permuted dataset holds what position
/// `leaf_idx()[p]` of the source dataset held, in items, metadata and the
/// recorded permutation alike.
pub fn from_ball_tree(ball: Ball, data: &mut FlatVec) -> (r: OffsetBall)
    requires
        old(data).wf(),
        ball.wf(*old(data)),
        ball.idx().len() == old(data).n(),
        forall|t: int| 0 <= t < old(data).n() ==> (#[trigger] ball.idx()[t]) == t,
    ensures
        final(data).wf(),
        final(data).metric == old(data).metric,
        final(data).n() == old(data).n(),
        final(data).dim() == old(data).dim(),
        r.wf_p(*final(data)),
        r.offset == 0,
        r.cardinality == final(data).n(),
        r.depth == ball.depth,
        r.radius == ball.radius,
        forall|p: int|
            0 <= p < final(data).n() ==> #[trigger] final(data).view_items()[p]
                == old(data).view_items()[ball.leaf_idx()[p] as int],
        forall|p: int|
            0 <= p < final(data).n() ==> #[trigger] final(data).permutation@[p]
                == old(data).permutation@[ball.leaf_idx()[p] as int],
{
    let ghost pre = *data;
    let n = data.cardinality();
    let (ob, perm) = adapt(ball, Ghost(*data));
    proof {
        lemma_flattening_is_permutation(ball, *data);
    }
    data.permute(&perm);
    proof {
        lemma_mirrors_wf_p(ob, ball, perm@, pre, *data);
    }
    ob
}

/// Parallel variant of `from_ball_tree`; produces the same tree and the same
/// permuted dataset.
pub fn par_from_ball_tree(ball: Ball, data: &mut FlatVec) -> (r: OffsetBall)
    requires
        old(data).wf(),
        ball.wf(*old(data)),
        ball.idx().len() == old(data).n(),
        forall|t: int| 0 <= t < old(data).n() ==> (#[trigger] ball.idx()[t]) == t,
    ensures
        final(data).wf(),
        final(data).metric == old(data).metric,
        final(data).n() == old(data).n(),
        final(data).dim() == old(data).dim(),
        r.wf_p(*final(data)),
        r.offset == 0,
        r.cardinality == final(data).n(),
        r.depth == ball.depth,
        r.radius == ball.radius,
        forall|p: int|
            0 <= p < final(data).n() ==> #[trigger] final(data).view_items()[p]
                == old(data).view_items()[ball.leaf_idx()[p] as int],
        forall|p: int|
            0 <= p < final(data).n() ==> #[trigger] final(data).permutation@[p]
                == old(data).permutation@[ball.leaf_idx()[p] as int],
{
    from_ball_tree(ball, data)
}

} // verus!
