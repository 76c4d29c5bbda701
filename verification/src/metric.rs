//! Distance functions over integer vectors, with the metric axioms proved.
//!
//! Every item of a dataset is a vector of bounded integer coordinates, so all
//! distances fit comfortably in `u64` and sums of a few distances cannot
//! overflow.  The actual distance evaluations are delegated to the
//! `distances` crate; their values are pinned to the spec functions below,
//! from which symmetry, identity and the triangle inequality are proved.

use vstd::prelude::*;

verus! {

/// Largest absolute value a coordinate may have.
pub const MAX_COORD: i64 = 1_000_000;

/// Largest number of coordinates an item may have.
pub const MAX_DIM: usize = 1_000_000;

/// Upper bound on any distance between two well-formed items, whatever the
/// metric: the Manhattan distance is at most `2 * MAX_COORD * MAX_DIM` and the
/// Hamming distance is at most `MAX_DIM`.
pub const MAX_DIST: u64 = 2_000_000_000_000;

/// The distance functions offered for datasets.
#[derive(Clone, Copy, Debug, PartialEq, Eq, Structural)]
pub enum MetricKind {
    /// Sum of absolute coordinate differences (the L1 norm).
    Manhattan,
    /// Number of positions at which the coordinates differ.
    Hamming,
}

/// A metric paired with a hint about how costly one evaluation is.
#[derive(Clone, Copy, Debug)]
pub struct Metric {
    /// Which distance function to evaluate.
    pub kind: MetricKind,
    /// Whether one evaluation is expensive enough for parallelism to pay off.
    pub expensive: bool,
}

impl Metric {
    /// Build a metric from its kind and cost hint.
    pub fn new(kind: MetricKind, expensive: bool) -> (m: Metric)
        ensures
            m.kind == kind,
            m.expensive == expensive,
    {
        Metric { kind, expensive }
    }

    /// All offered distance functions satisfy the identity axiom.
    pub fn identity(&self) -> (r: bool)
        ensures
            r,
    {
        true
    }

    /// All offered distance functions are symmetric.
    pub fn symmetry(&self) -> (r: bool)
        ensures
            r,
    {
        true
    }

    /// All offered distance functions satisfy the triangle inequality.
    pub fn triangle_inequality(&self) -> (r: bool)
        ensures
            r,
    {
        true
    }

    /// Whether one evaluation is expensive enough for parallelism to pay off.
    pub fn expensive(&self) -> (r: bool)
        ensures
            r == self.expensive,
    {
        self.expensive
    }
}

/// Absolute value of a mathematical integer.
pub open spec fn abs_val(a: int) -> int {
    if a < 0 {
        -a
    } else {
        a
    }
}

/// Manhattan distance of two integer vectors, over the zipped prefix of the
/// two (they are expected to have equal lengths).
pub open spec fn manhattan_of(x: Seq<i64>, y: Seq<i64>) -> int
    decreases x.len(),
{
    if x.len() == 0 || y.len() == 0 {
        0
    } else {
        abs_val(x[0] - y[0]) + manhattan_of(x.drop_first(), y.drop_first())
    }
}

/// Hamming distance of two integer vectors, over the zipped prefix of the
/// two.
pub open spec fn hamming_of(x: Seq<i64>, y: Seq<i64>) -> int
    decreases x.len(),
{
    if x.len() == 0 || y.len() == 0 {
        0
    } else {
        (if x[0] == y[0] {
            0int
        } else {
            1int
        }) + hamming_of(x.drop_first(), y.drop_first())
    }
}

/// The distance between two items under the chosen metric.
pub open spec fn dist_of(kind: MetricKind, x: Seq<i64>, y: Seq<i64>) -> int {
    match kind {
        MetricKind::Manhattan => manhattan_of(x, y),
        MetricKind::Hamming => hamming_of(x, y),
    }
}

/// A well-formed item: `dim` coordinates, each bounded by `MAX_COORD`.
pub open spec fn wf_item(x: Seq<i64>, dim: nat) -> bool {
    &&& x.len() == dim
    &&& forall|i: int| 0 <= i < x.len() ==> abs_val(#[trigger] x[i] as int) <= MAX_COORD as int
}

/// Distances are never negative.
pub proof fn lemma_dist_nonneg(kind: MetricKind, x: Seq<i64>, y: Seq<i64>)
    ensures
        0 <= dist_of(kind, x, y),
    decreases x.len(),
{
    if x.len() != 0 && y.len() != 0 {
        lemma_dist_nonneg(kind, x.drop_first(), y.drop_first());
    }
}

/// Distances between items of bounded coordinates are bounded by `MAX_DIST`.
pub proof fn lemma_dist_bound(kind: MetricKind, x: Seq<i64>, y: Seq<i64>)
    requires
        x.len() <= MAX_DIM as int,
        forall|i: int| 0 <= i < x.len() ==> abs_val(#[trigger] x[i] as int) <= MAX_COORD as int,
        forall|i: int| 0 <= i < y.len() ==> abs_val(#[trigger] y[i] as int) <= MAX_COORD as int,
    ensures
        dist_of(kind, x, y) <= 2_000_000 * x.len(),
        dist_of(kind, x, y) <= MAX_DIST as int,
    decreases x.len(),
{
    if x.len() != 0 && y.len() != 0 {
        lemma_dist_bound(kind, x.drop_first(), y.drop_first());
    }
}

/// The distance from an item to itself is zero.
pub proof fn lemma_dist_self(kind: MetricKind, x: Seq<i64>)
    ensures
        dist_of(kind, x, x) == 0,
    decreases x.len(),
{
    if x.len() != 0 {
        lemma_dist_self(kind, x.drop_first());
    }
}

/// Distances are symmetric.
pub proof fn lemma_dist_symm(kind: MetricKind, x: Seq<i64>, y: Seq<i64>)
    ensures
        dist_of(kind, x, y) == dist_of(kind, y, x),
    decreases x.len(),
{
    if x.len() != 0 && y.len() != 0 {
        lemma_dist_symm(kind, x.drop_first(), y.drop_first());
    }
}

/// The triangle inequality, for items of one common length.
pub proof fn lemma_dist_triangle(kind: MetricKind, x: Seq<i64>, y: Seq<i64>, z: Seq<i64>)
    requires
        x.len() == y.len(),
        y.len() == z.len(),
    ensures
        dist_of(kind, x, z) <= dist_of(kind, x, y) + dist_of(kind, y, z),
    decreases x.len(),
{
    if x.len() != 0 {
        lemma_dist_triangle(kind, x.drop_first(), y.drop_first(), z.drop_first());
    }
}

/// Relies on `distances::vectors::manhattan`: the sum, over positions present
/// in both slices, of the absolute differences of the coordinates.  The
/// coordinate bounds keep every partial sum within `i64`.
#[verifier::external_body]
fn manhattan_raw(x: &Vec<i64>, y: &Vec<i64>) -> (r: i64)
    requires
        x@.len() <= MAX_DIM as int,
        y@.len() <= MAX_DIM as int,
        forall|i: int| 0 <= i < x@.len() ==> abs_val(#[trigger] x@[i] as int) <= MAX_COORD as int,
        forall|i: int| 0 <= i < y@.len() ==> abs_val(#[trigger] y@[i] as int) <= MAX_COORD as int,
    ensures
        r as int == manhattan_of(x@, y@),
{
    distances::vectors::manhattan(x.as_slice(), y.as_slice())
}

/// Relies on `distances::vectors::hamming`: the number of positions present
/// in both slices at which the coordinates differ.
#[verifier::external_body]
fn hamming_raw(x: &Vec<i64>, y: &Vec<i64>) -> (r: u64)
    ensures
        r as int == hamming_of(x@, y@),
{
    distances::vectors::hamming(x.as_slice(), y.as_slice())
}

/// Evaluate the metric on two well-formed items.
pub fn eval_metric(kind: MetricKind, x: &Vec<i64>, y: &Vec<i64>) -> (r: u64)
    requires
        x@.len() <= MAX_DIM as int,
        y@.len() <= MAX_DIM as int,
        forall|i: int| 0 <= i < x@.len() ==> abs_val(#[trigger] x@[i] as int) <= MAX_COORD as int,
        forall|i: int| 0 <= i < y@.len() ==> abs_val(#[trigger] y@[i] as int) <= MAX_COORD as int,
    ensures
        r as int == dist_of(kind, x@, y@),
        r <= MAX_DIST,
{
    proof {
        lemma_dist_nonneg(kind, x@, y@);
        lemma_dist_bound(kind, x@, y@);
    }
    match kind {
        MetricKind::Manhattan => {
            let d = manhattan_raw(x, y);
            d as u64
        },
        MetricKind::Hamming => hamming_raw(x, y),
    }
}

} // verus!
