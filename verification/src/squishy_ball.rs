//! The cost-carrying tree over a compressed dataset.
//!
//! Each node records two costs under the leaf-delta byte layout: what its
//! subtree costs stored as one single leaf (`unitary_cost`), and what it
//! costs under the current shape, leaf by leaf (`recursive_cost`).  Trimming
//! merges every subtree whose recursive cost has reached its unitary cost
//! into one leaf, so that descending (and decompressing) is only kept where
//! it pays.

use vstd::prelude::*;

use crate::dataset::FlatVec;
use crate::offset_ball::OffsetBall;

verus! {

/// A node of the cost-carrying tree.
pub struct SquishyBall {
    /// Depth of the node; the root is at depth 0.
    pub depth: usize,
    /// First member position in the permuted dataset.
    pub offset: usize,
    /// Number of members.
    pub cardinality: usize,
    /// Position of the center member in the permuted dataset.
    pub arg_center: usize,
    /// Position of the member farthest from the center.
    pub arg_radial: usize,
    /// Distance from the center to the radial member.
    pub radius: u64,
    /// Bytes its subtree would take stored as one single leaf.
    pub unitary_cost: u128,
    /// Bytes its subtree takes under the current shape.
    pub recursive_cost: u128,
    /// Child edges: extremal position, extent, child.
    pub children: Vec<(usize, u64, Box<SquishyBall>)>,
}

/// The payload cost of one leaf of `card` members of dimensionality `dim`:
/// the two header words, and one length-prefixed encoding per member.
pub open spec fn unitary_cost_spec(card: nat, dim: nat) -> int {
    16 + (card as int) * (8 + 8 * (dim as int))
}

impl SquishyBall {
    /// The costs are consistent with the byte layout: the unitary cost is
    /// the one-leaf payload cost, a leaf's recursive cost is its unitary
    /// cost, and an internal node's recursive cost is the sum of its
    /// children's.
    pub open spec fn costs_wf(&self, dim: nat) -> bool
        decreases *self, self.children@.len() as int + 1,
    {
        &&& self.unitary_cost as int == unitary_cost_spec(self.cardinality as nat, dim)
        &&& (self.children@.len() == 0 ==> self.recursive_cost == self.unitary_cost)
        &&& (self.children@.len() > 0 ==> self.recursive_cost as int == self.children_cost(
            self.children@.len() as int,
        ))
        &&& self.costs_wf_children(dim, self.children@.len() as int)
    }

    /// The recursive costs of the children numbered below `upto`, summed.
    pub open spec fn children_cost(&self, upto: int) -> int
        decreases *self, upto,
        when 0 <= upto <= self.children@.len()
    {
        if upto <= 0 {
            0
        } else {
            self.children_cost(upto - 1) + self.children@[upto - 1].2.recursive_cost
        }
    }

    /// Cost consistency of the children numbered below `upto`.
    pub open spec fn costs_wf_children(&self, dim: nat, upto: int) -> bool
        decreases *self, upto,
        when 0 <= upto <= self.children@.len()
    {
        if upto <= 0 {
            true
        } else {
            &&& self.costs_wf_children(dim, upto - 1)
            &&& self.children@[upto - 1].2.costs_wf(dim)
        }
    }

    /// The node and its subtree carry the same members and metadata as the
    /// source subtree.
    pub open spec fn same_shape(&self, ob: OffsetBall) -> bool
        decreases ob, ob.children@.len() as int + 1,
    {
        &&& self.depth == ob.depth
        &&& self.offset == ob.offset
        &&& self.cardinality == ob.cardinality
        &&& self.arg_center == ob.arg_center
        &&& self.arg_radial == ob.arg_radial
        &&& self.radius == ob.radius
        &&& self.children@.len() == ob.children@.len()
        &&& self.same_shape_children(ob, ob.children@.len() as int)
    }

    /// The shape relation for the children numbered below `upto`.
    pub open spec fn same_shape_children(&self, ob: OffsetBall, upto: int) -> bool
        decreases ob, upto,
        when 0 <= upto <= ob.children@.len() && self.children@.len() == ob.children@.len()
    {
        if upto <= 0 {
            true
        } else {
            &&& self.same_shape_children(ob, upto - 1)
            &&& self.children@[upto - 1].2.same_shape(*ob.children@[upto - 1].2)
            &&& self.children@[upto - 1].0 == ob.children@[upto - 1].0
            &&& self.children@[upto - 1].1 == ob.children@[upto - 1].1
        }
    }

    /// Every subtree kept as an internal node still costs less recursively
    /// than it would as one leaf.
    pub open spec fn trimmed(&self) -> bool
        decreases *self, self.children@.len() as int + 1,
    {
        ||| self.children@.len() == 0
        ||| (self.recursive_cost < self.unitary_cost && self.trimmed_children(
            self.children@.len() as int,
        ))
    }

    /// The trimmed property of the children numbered below `upto`.
    pub open spec fn trimmed_children(&self, upto: int) -> bool
        decreases *self, upto,
        when 0 <= upto <= self.children@.len()
    {
        if upto <= 0 {
            true
        } else {
            &&& self.trimmed_children(upto - 1)
            &&& self.children@[upto - 1].2.trimmed()
        }
    }

    /// Build the cost-carrying tree over an adapted tree, computing the two
    /// costs of every node bottom-up.
    #[verifier::rlimit(30)]
    pub fn set_costs(node: &OffsetBall, dim: usize, Ghost(data): Ghost<FlatVec>) -> (r:
        SquishyBall)
        requires
            node.wf_p(data),
            dim <= crate::metric::MAX_DIM,
        ensures
            r.same_shape(*node),
            r.costs_wf(dim as nat),
            r.recursive_cost as int <= 24 * (node.cardinality as int) * (1 + dim as int),
        decreases *node,
    {
        proof {
            assert((node.cardinality as int) * (8 + 8 * (dim as int))
                < 0x1_0000_0000_0000_0000_0000_0000) by (nonlinear_arith)
                requires
                    0 <= node.cardinality as int <= 0xFFFF_FFFF_FFFF_FFFF,
                    0 <= dim as int <= 0x100_0000,
            ;
        }
        let unitary_cost: u128 = 16 + (node.cardinality() as u128) * (8 + 8 * (dim as u128));
        proof {
            assert(unitary_cost as int <= 24 * (node.cardinality as int) * (1 + dim as int)) by (
            nonlinear_arith)
                requires
                    unitary_cost as int == 16 + (node.cardinality as int) * (8 + 8 * (
                    dim as int)),
                    node.cardinality >= 1,
                    dim >= 0,
            ;
        }
        let nc = node.children().len();
        if nc == 0 {
            SquishyBall {
                depth: node.depth(),
                offset: node.offset(),
                cardinality: node.cardinality(),
                arg_center: node.arg_center(),
                arg_radial: node.arg_radial(),
                radius: node.radius(),
                unitary_cost,
                recursive_cost: unitary_cost,
                children: Vec::new(),
            }
        } else {
            let mut children: Vec<(usize, u64, Box<SquishyBall>)> = Vec::new();
            let mut recursive_cost: u128 = 0;
            let mut c: usize = 0;
            while c < nc
                invariant
                    c <= nc,
                    nc == node.children@.len(),
                    nc > 0,
                    node.wf_p(data),
                    dim <= crate::metric::MAX_DIM,
                    children@.len() == c,
                    forall|cc: int|
                        0 <= cc < c ==> (#[trigger] children@[cc]).2.same_shape(
                            *node.children@[cc].2,
                        ) && children@[cc].2.costs_wf(dim as nat) && children@[cc].0
                            == node.children@[cc].0 && children@[cc].1 == node.children@[cc].1,
                    sum_children_cost(children@, c as int) == recursive_cost as int,
                    recursive_cost as int <= 24 * (processed_cards(*node, c as int)) * (1
                        + dim as int),
                decreases nc - c,
            {
                proof {
                    node.lemma_wf_p_child(data, c as int);
                    lemma_processed_cards_fwd(*node, data, c as int);
                }
                let child = SquishyBall::set_costs(&node.children()[c].2, dim, Ghost(data));
                proof {
                    lemma_processed_cards_fwd(*node, data, c as int);
                    lemma_processed_cards_le(*node, data, c as int + 1);
                    assert(recursive_cost as int + child.recursive_cost as int <= 24
                        * processed_cards(*node, c as int + 1) * (1 + dim as int)) by (
                    nonlinear_arith)
                        requires
                            recursive_cost as int <= 24 * processed_cards(*node, c as int) * (1
                                + dim as int),
                            child.recursive_cost as int <= 24 * (node.children@[
                                c as int
                            ].2.cardinality as int) * (1 + dim as int),
                            processed_cards(*node, c as int + 1) == processed_cards(
                                *node,
                                c as int,
                            ) + node.children@[c as int].2.cardinality as int,
                            processed_cards(*node, c as int) >= 0,
                    ;
                    assert(24 * processed_cards(*node, c as int + 1) * (1 + dim as int)
                        < 0x1_0000_0000_0000_0000_0000_0000) by (nonlinear_arith)
                        requires
                            0 <= processed_cards(*node, c as int + 1)
                                <= 0x1_0000_0000_0000_0000,
                            0 <= dim as int <= 0x100_0000,
                    ;
                }
                recursive_cost = recursive_cost + child.recursive_cost;
                let e = node.children()[c].0;
                let ext = node.children()[c].1;
                let ghost pre_children = children@;
                children.push((e, ext, Box::new(child)));
                proof {
                    lemma_sum_children_prefix(pre_children, children@, c as int);
                    assert(sum_children_cost(children@, c as int + 1) == sum_children_cost(
                        children@,
                        c as int,
                    ) + children@[c as int].2.recursive_cost);
                }
                c = c + 1;
            }
            let squishy = SquishyBall {
                depth: node.depth(),
                offset: node.offset(),
                cardinality: node.cardinality(),
                arg_center: node.arg_center(),
                arg_radial: node.arg_radial(),
                radius: node.radius(),
                unitary_cost,
                recursive_cost,
                children,
            };
            proof {
                lemma_same_shape_children_assemble(&squishy, *node, nc as int);
                lemma_costs_wf_children_assemble(&squishy, dim as nat, nc as int);
                lemma_children_cost_from_sum(&squishy, nc as int);
                lemma_processed_cards_fwd(*node, data, nc as int);
                assert(processed_cards(*node, nc as int) == node.cardinality as int);
            }
            squishy
        }
    }

    /// Build the cost-carrying tree over an adapted tree and its permuted
    /// dataset.
    pub fn from_offset_tree(node: &OffsetBall, data: &FlatVec) -> (r: SquishyBall)
        requires
            data.wf(),
            node.wf_p(*data),
        ensures
            r.same_shape(*node),
            r.costs_wf(data.dim()),
    {
        let dim = data.get(0).len();
        SquishyBall::set_costs(node, dim, Ghost(*data))
    }

    /// Merge every subtree whose recursive cost has reached its unitary
    /// cost into one leaf; the metadata and costs of every kept node stay
    /// as computed.
    pub fn trim(&self) -> (r: SquishyBall)
        ensures
            r.trimmed(),
            r.depth == self.depth,
            r.offset == self.offset,
            r.cardinality == self.cardinality,
            r.arg_center == self.arg_center,
            r.arg_radial == self.arg_radial,
            r.radius == self.radius,
            r.unitary_cost == self.unitary_cost,
            r.recursive_cost == self.recursive_cost,
        decreases *self,
    {
        if self.children.len() == 0 || self.recursive_cost >= self.unitary_cost {
            SquishyBall {
                depth: self.depth,
                offset: self.offset,
                cardinality: self.cardinality,
                arg_center: self.arg_center,
                arg_radial: self.arg_radial,
                radius: self.radius,
                unitary_cost: self.unitary_cost,
                recursive_cost: self.recursive_cost,
                children: Vec::new(),
            }
        } else {
            let nc = self.children.len();
            let mut trimmed: Vec<(usize, u64, Box<SquishyBall>)> = Vec::new();
            let mut c: usize = 0;
            while c < nc
                invariant
                    c <= nc,
                    nc == self.children@.len(),
                    trimmed@.len() == c,
                    forall|cc: int|
                        0 <= cc < c ==> (#[trigger] trimmed@[cc]).2.trimmed(),
                decreases nc - c,
            {
                let child = self.children[c].2.trim();
                trimmed.push((self.children[c].0, self.children[c].1, Box::new(child)));
                c = c + 1;
            }
            let out = SquishyBall {
                depth: self.depth,
                offset: self.offset,
                cardinality: self.cardinality,
                arg_center: self.arg_center,
                arg_radial: self.arg_radial,
                radius: self.radius,
                unitary_cost: self.unitary_cost,
                recursive_cost: self.recursive_cost,
                children: trimmed,
            };
            proof {
                lemma_trimmed_children_assemble(&out, out.children@.len() as int);
            }
            out
        }
    }
}

/// The recursive costs of the first `upto` entries of a child list, summed.
pub open spec fn sum_children_cost(cs: Seq<(usize, u64, Box<SquishyBall>)>, upto: int) -> int
    decreases upto,
    when 0 <= upto <= cs.len()
{
    if upto <= 0 {
        0
    } else {
        sum_children_cost(cs, upto - 1) + cs[upto - 1].2.recursive_cost
    }
}

/// Two child lists that agree below `upto` have the same cost sum there.
proof fn lemma_sum_children_prefix(
    cs1: Seq<(usize, u64, Box<SquishyBall>)>,
    cs2: Seq<(usize, u64, Box<SquishyBall>)>,
    upto: int,
)
    requires
        0 <= upto <= cs1.len(),
        upto <= cs2.len(),
        forall|i: int| 0 <= i < upto ==> cs1[i] == cs2[i],
    ensures
        sum_children_cost(cs1, upto) == sum_children_cost(cs2, upto),
    decreases upto,
{
    if upto > 0 {
        lemma_sum_children_prefix(cs1, cs2, upto - 1);
    }
}

/// The members covered by the first `upto` children of an adapted node:
/// zero at the start, and up to the end of the last child taken in.
pub open spec fn processed_cards(ob: OffsetBall, upto: int) -> int {
    if upto <= 0 {
        0
    } else {
        ob.children@[upto - 1].2.offset + ob.children@[upto - 1].2.cardinality - ob.offset
    }
}

/// Taking in children in order walks the covered members forward: they
/// start at zero, grow by each child's cardinality, and end at the node's
/// own cardinality.
#[verifier::rlimit(50)]
proof fn lemma_processed_cards_fwd(ob: OffsetBall, data: FlatVec, c: int)
    requires
        ob.wf_p(data),
        ob.children@.len() > 0,
        0 <= c <= ob.children@.len(),
    ensures
        processed_cards(ob, c) >= 0,
        c < ob.children@.len() ==> ob.children@[c].2.offset as int == ob.offset
            + processed_cards(ob, c),
        c == ob.children@.len() ==> processed_cards(ob, c) == ob.cardinality as int,
        c < ob.children@.len() ==> processed_cards(ob, c + 1) == processed_cards(ob, c)
            + ob.children@[c].2.cardinality as int,
    decreases c,
{
    if c > 0 {
        lemma_processed_cards_fwd(ob, data, c - 1);
    }
}

/// The covered members never exceed the node's cardinality.
#[verifier::rlimit(50)]
proof fn lemma_processed_cards_le(ob: OffsetBall, data: FlatVec, c: int)
    requires
        ob.wf_p(data),
        ob.children@.len() > 0,
        0 <= c <= ob.children@.len(),
    ensures
        processed_cards(ob, c) <= ob.cardinality as int,
    decreases ob.children@.len() - c,
{
    if c < ob.children@.len() {
        lemma_processed_cards_le(ob, data, c + 1);
        lemma_processed_cards_fwd(ob, data, c);
        ob.lemma_wf_p_child(data, c);
    }
}


/// The pointwise shape facts of the children assemble into the recursive
/// relation.
proof fn lemma_same_shape_children_assemble(sq: &SquishyBall, ob: OffsetBall, upto: int)
    requires
        sq.children@.len() == ob.children@.len(),
        0 <= upto <= ob.children@.len(),
        forall|cc: int|
            0 <= cc < upto ==> (#[trigger] sq.children@[cc]).2.same_shape(*ob.children@[cc].2)
                && sq.children@[cc].0 == ob.children@[cc].0 && sq.children@[cc].1
                == ob.children@[cc].1,
    ensures
        sq.same_shape_children(ob, upto),
    decreases upto,
{
    if upto > 0 {
        lemma_same_shape_children_assemble(sq, ob, upto - 1);
    }
}

/// The pointwise cost facts of the children assemble into the recursive
/// relation.
proof fn lemma_costs_wf_children_assemble(sq: &SquishyBall, dim: nat, upto: int)
    requires
        0 <= upto <= sq.children@.len(),
        forall|cc: int| 0 <= cc < upto ==> (#[trigger] sq.children@[cc]).2.costs_wf(dim),
    ensures
        sq.costs_wf_children(dim, upto),
    decreases upto,
{
    if upto > 0 {
        lemma_costs_wf_children_assemble(sq, dim, upto - 1);
    }
}

/// The running sum over the child list is the node's own children cost.
proof fn lemma_children_cost_from_sum(sq: &SquishyBall, upto: int)
    requires
        0 <= upto <= sq.children@.len(),
    ensures
        sq.children_cost(upto) == sum_children_cost(sq.children@, upto),
    decreases upto,
{
    if upto > 0 {
        lemma_children_cost_from_sum(sq, upto - 1);
    }
}

/// The pointwise trimmed facts of the children assemble into the recursive
/// relation.
proof fn lemma_trimmed_children_assemble(sq: &SquishyBall, upto: int)
    requires
        0 <= upto <= sq.children@.len(),
        forall|cc: int| 0 <= cc < upto ==> (#[trigger] sq.children@[cc]).2.trimmed(),
    ensures
        sq.trimmed_children(upto),
    decreases upto,
{
    if upto > 0 {
        lemma_trimmed_children_assemble(sq, upto - 1);
    }
}

} // verus!
