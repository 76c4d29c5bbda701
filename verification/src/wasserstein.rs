//! Earth-mover distances between one-dimensional distributions.
//!
//! A distribution is a vector of non-negative masses, one per location.
//! `wasserstein` moves mass greedily between the two distributions, from the
//! last locations towards the first, paying the location distance for every
//! unit moved.  `direct_flow` is the cheaper variant that only pays for the
//! mass difference at each location.

use vstd::prelude::*;

use crate::metric::abs_val;

verus! {

/// Largest mass a single location may carry.
pub const MAX_MASS: u64 = 1_000_000_000;

/// Largest number of locations a distribution may have.
pub const MAX_LOCATIONS: usize = 1_000_000;

/// Sum of the absolute mass differences at corresponding locations.
pub open spec fn sum_abs_diff(x: Seq<u64>, y: Seq<u64>) -> int
    decreases x.len(),
{
    if x.len() == 0 || y.len() == 0 {
        0
    } else {
        abs_val(x.last() - y.last()) + sum_abs_diff(x.drop_last(), y.drop_last())
    }
}

/// The distance from a distribution to itself is zero.
pub proof fn lemma_direct_flow_self(x: Seq<u64>)
    ensures
        sum_abs_diff(x, x) == 0,
    decreases x.len(),
{
    if x.len() > 0 {
        lemma_direct_flow_self(x.drop_last());
    }
}

/// The direct-flow distance is symmetric.
pub proof fn lemma_direct_flow_symm(x: Seq<u64>, y: Seq<u64>)
    ensures
        sum_abs_diff(x, y) == sum_abs_diff(y, x),
    decreases x.len(),
{
    if x.len() > 0 && y.len() > 0 {
        lemma_direct_flow_symm(x.drop_last(), y.drop_last());
    }
}

/// The direct-flow distance obeys the triangle inequality.
pub proof fn lemma_direct_flow_triangle(x: Seq<u64>, y: Seq<u64>, z: Seq<u64>)
    requires
        x.len() == y.len(),
        y.len() == z.len(),
    ensures
        sum_abs_diff(x, z) <= sum_abs_diff(x, y) + sum_abs_diff(y, z),
    decreases x.len(),
{
    if x.len() > 0 {
        lemma_direct_flow_triangle(x.drop_last(), y.drop_last(), z.drop_last());
    }
}

/// Pay the mass difference at each location, location by location.
pub fn direct_flow(x: &Vec<u64>, y: &Vec<u64>) -> (r: u128)
    requires
        x@.len() == y@.len(),
    ensures
        r as int == sum_abs_diff(x@, y@),
{
    let mut work: u128 = 0;
    let mut t: usize = 0;
    while t < x.len()
        invariant
            t <= x@.len(),
            x@.len() == y@.len(),
            work as int == sum_abs_diff(x@.take(t as int), y@.take(t as int)),
            work as int <= (t as int) * 0x1_0000_0000_0000_0000,
        decreases x@.len() - t,
    {
        let d = if x[t] >= y[t] {
            x[t] - y[t]
        } else {
            y[t] - x[t]
        };
        proof {
            assert(x@.take(t as int + 1).drop_last() =~= x@.take(t as int));
            assert(y@.take(t as int + 1).drop_last() =~= y@.take(t as int));
            assert(x@.take(t as int + 1).last() == x@[t as int]);
            assert(y@.take(t as int + 1).last() == y@[t as int]);
            assert((t as int) * 0x1_0000_0000_0000_0000 + 0x1_0000_0000_0000_0000 == (t as int + 1)
                * 0x1_0000_0000_0000_0000) by (nonlinear_arith);
        }
        work = work + (d as u128);
        t = t + 1;
    }
    proof {
        assert(x@.take(x@.len() as int) =~= x@);
        assert(y@.take(y@.len() as int) =~= y@);
    }
    work
}

/// The work done by the greedy mover on a pair of partly consumed
/// distributions.  The current location of each side is its last position;
/// mass flows between the two current locations, the smaller of the two
/// masses at a time, and costs the distance between the locations.
pub open spec fn wasserstein_spec(left: Seq<u64>, right: Seq<u64>) -> int
    decreases left.len(), (if left.len() > 0 { left.last() } else { 0 }), right.len(),
{
    if left.len() == 0 {
        0
    } else if left.last() == 0 {
        wasserstein_spec(left.drop_last(), right)
    } else if right.len() == 0 {
        0
    } else {
        let l = left.last();
        let r = right.last();
        let dist = abs_val(left.len() - right.len());
        if l <= r {
            let flow = l as int;
            if r > l {
                flow * dist + wasserstein_spec(
                    left.drop_last(),
                    right.update(right.len() - 1, (r - l) as u64),
                )
            } else {
                flow * dist + wasserstein_spec(left.drop_last(), right.drop_last())
            }
        } else {
            let flow = r as int;
            flow * dist + wasserstein_spec(
                left.update(left.len() - 1, (l - r) as u64),
                right.drop_last(),
            )
        }
    }
}

/// Once one side is exhausted, no more work is done.
proof fn lemma_wasserstein_spec_empty_right(left: Seq<u64>)
    ensures
        wasserstein_spec(left, Seq::empty()) == 0,
    decreases left.len(),
{
    if left.len() > 0 && left.last() == 0 {
        lemma_wasserstein_spec_empty_right(left.drop_last());
    }
}

/// Total mass of a distribution.
pub open spec fn mass_sum(s: Seq<u64>) -> int
    decreases s.len(),
{
    if s.len() == 0 {
        0
    } else {
        mass_sum(s.drop_last()) + s.last()
    }
}

/// Total mass is bounded by the number of locations times the largest mass.
proof fn lemma_mass_sum_bound(s: Seq<u64>)
    requires
        forall|t: int| 0 <= t < s.len() ==> (#[trigger] s[t]) <= MAX_MASS,
    ensures
        0 <= mass_sum(s) <= s.len() * (MAX_MASS as int),
    decreases s.len(),
{
    if s.len() > 0 {
        lemma_mass_sum_bound(s.drop_last());
        assert((s.len() - 1) * (MAX_MASS as int) + MAX_MASS as int == s.len() * (
        MAX_MASS as int)) by (nonlinear_arith);
    }
}

/// The greedy mover's work is bounded: every unit of mass moves at most the
/// largest location distance, and every step consumes mass.
proof fn lemma_wasserstein_bound(left: Seq<u64>, right: Seq<u64>)
    requires
        left.len() <= MAX_LOCATIONS,
        right.len() <= MAX_LOCATIONS,
        forall|t: int| 0 <= t < left.len() ==> (#[trigger] left[t]) <= MAX_MASS,
        forall|t: int| 0 <= t < right.len() ==> (#[trigger] right[t]) <= MAX_MASS,
    ensures
        wasserstein_spec(left, right) <= (mass_sum(left) + mass_sum(right)) * (
        MAX_LOCATIONS as int),
    decreases left.len(), (if left.len() > 0 { left.last() } else { 0 }), right.len(),
{
    lemma_mass_sum_bound(left);
    lemma_mass_sum_bound(right);
    if left.len() == 0 {
    } else if left.last() == 0 {
        lemma_wasserstein_bound(left.drop_last(), right);
        assert(mass_sum(left) == mass_sum(left.drop_last()));
    } else if right.len() == 0 {
    } else {
        let l = left.last();
        let r = right.last();
        let dist = abs_val(left.len() - right.len());
        assert(dist <= MAX_LOCATIONS as int);
        if l <= r {
            if r > l {
                let right2 = right.update(right.len() - 1, (r - l) as u64);
                assert(right2.drop_last() =~= right.drop_last());
                assert(mass_sum(right2) == mass_sum(right) - l);
                lemma_wasserstein_bound(left.drop_last(), right2);
                assert(mass_sum(left) == mass_sum(left.drop_last()) + l);
                assert(wasserstein_spec(left, right) == (l as int) * dist + wasserstein_spec(
                    left.drop_last(),
                    right2,
                ));
                assert(wasserstein_spec(left, right) <= (mass_sum(left) + mass_sum(right)) * (
                MAX_LOCATIONS as int)) by (nonlinear_arith)
                    requires
                        wasserstein_spec(left, right) == (l as int) * dist + wasserstein_spec(
                            left.drop_last(),
                            right2,
                        ),
                        wasserstein_spec(left.drop_last(), right2) <= (mass_sum(left.drop_last())
                            + mass_sum(right2)) * (MAX_LOCATIONS as int),
                        mass_sum(right2) == mass_sum(right) - l,
                        mass_sum(left) == mass_sum(left.drop_last()) + l,
                        0 <= dist <= MAX_LOCATIONS as int,
                        0 <= l,
                ;
            } else {
                lemma_wasserstein_bound(left.drop_last(), right.drop_last());
                assert(mass_sum(left) == mass_sum(left.drop_last()) + l);
                assert(mass_sum(right) == mass_sum(right.drop_last()) + r);
                assert(wasserstein_spec(left, right) == (l as int) * dist + wasserstein_spec(
                    left.drop_last(),
                    right.drop_last(),
                ));
                assert(wasserstein_spec(left, right) <= (mass_sum(left) + mass_sum(right)) * (
                MAX_LOCATIONS as int)) by (nonlinear_arith)
                    requires
                        wasserstein_spec(left, right) == (l as int) * dist + wasserstein_spec(
                            left.drop_last(),
                            right.drop_last(),
                        ),
                        wasserstein_spec(left.drop_last(), right.drop_last()) <= (mass_sum(
                            left.drop_last(),
                        ) + mass_sum(right.drop_last())) * (MAX_LOCATIONS as int),
                        mass_sum(left) == mass_sum(left.drop_last()) + l,
                        mass_sum(right) == mass_sum(right.drop_last()) + r,
                        0 <= dist <= MAX_LOCATIONS as int,
                        0 <= l <= r,
                ;
            }
        } else {
            let left2 = left.update(left.len() - 1, (l - r) as u64);
            assert(left2.drop_last() =~= left.drop_last());
            assert(mass_sum(left2) == mass_sum(left) - r);
            lemma_wasserstein_bound(left2, right.drop_last());
            assert(mass_sum(right) == mass_sum(right.drop_last()) + r);
            assert(wasserstein_spec(left, right) == (r as int) * dist + wasserstein_spec(
                left2,
                right.drop_last(),
            ));
            assert(wasserstein_spec(left, right) <= (mass_sum(left) + mass_sum(right)) * (
            MAX_LOCATIONS as int)) by (nonlinear_arith)
                requires
                    wasserstein_spec(left, right) == (r as int) * dist + wasserstein_spec(
                        left2,
                        right.drop_last(),
                    ),
                    wasserstein_spec(left2, right.drop_last()) <= (mass_sum(left2) + mass_sum(
                        right.drop_last(),
                    )) * (MAX_LOCATIONS as int),
                    mass_sum(left2) == mass_sum(left) - r,
                    mass_sum(right) == mass_sum(right.drop_last()) + r,
                    0 <= dist <= MAX_LOCATIONS as int,
                    0 <= r,
            ;
        }
    }
}

/// Move mass greedily between the two distributions, from the last locations
/// towards the first, paying the location distance for every unit moved.
pub fn wasserstein(x: &Vec<u64>, y: &Vec<u64>) -> (r: u128)
    requires
        x@.len() <= MAX_LOCATIONS,
        y@.len() <= MAX_LOCATIONS,
        forall|t: int| 0 <= t < x@.len() ==> (#[trigger] x@[t]) <= MAX_MASS,
        forall|t: int| 0 <= t < y@.len() ==> (#[trigger] y@[t]) <= MAX_MASS,
    ensures
        r as int == wasserstein_spec(x@, y@),
{
    let mut left = crate::dataset::clone_masses(x);
    let mut right = crate::dataset::clone_masses(y);
    let mut work: u128 = 0;
    let ghost total = wasserstein_spec(x@, y@);
    proof {
        lemma_wasserstein_bound(x@, y@);
        lemma_mass_sum_bound(x@);
        lemma_mass_sum_bound(y@);
        lemma_wasserstein_nonneg(x@, y@);
        assert(total <= 2_000_000_000_000_000_000_000) by (nonlinear_arith)
            requires
                total <= (mass_sum(x@) + mass_sum(y@)) * (MAX_LOCATIONS as int),
                mass_sum(x@) <= (MAX_LOCATIONS as int) * (MAX_MASS as int),
                mass_sum(y@) <= (MAX_LOCATIONS as int) * (MAX_MASS as int),
        ;
    }
    while left.len() > 0 && right.len() > 0
        invariant
            left@.len() <= MAX_LOCATIONS,
            right@.len() <= MAX_LOCATIONS,
            forall|t: int| 0 <= t < left@.len() ==> (#[trigger] left@[t]) <= MAX_MASS,
            forall|t: int| 0 <= t < right@.len() ==> (#[trigger] right@[t]) <= MAX_MASS,
            work as int + wasserstein_spec(left@, right@) == total,
            total <= 2_000_000_000_000_000_000_000,
            wasserstein_spec(left@, right@) >= 0,
        decreases left@.len(), (if left@.len() > 0 { left@.last() } else { 0 }), right@.len(),
    {
        let llen = left.len();
        let rlen = right.len();
        let l = left[llen - 1];
        let ghost pre_left = left@;
        let ghost pre_right = right@;
        if l == 0 {
            left.pop();
            proof {
                assert(left@ =~= pre_left.drop_last());
                lemma_wasserstein_nonneg(left@, right@);
            }
        } else {
            let r = right[rlen - 1];
            let dist = if llen >= rlen {
                (llen - rlen) as u64
            } else {
                (rlen - llen) as u64
            };
            proof {
                lemma_wasserstein_nonneg(pre_left, pre_right);
            }
            if l <= r {
                let flow = l;
                left.pop();
                if r > l {
                    let last = right.len() - 1;
                    right.set(last, r - l);
                    proof {
                        assert(right@ =~= pre_right.update(pre_right.len() - 1, (r - l) as u64));
                        assert(left@ =~= pre_left.drop_last());
                        lemma_wasserstein_nonneg(left@, right@);
                    }
                } else {
                    right.pop();
                    proof {
                        assert(left@ =~= pre_left.drop_last());
                        assert(right@ =~= pre_right.drop_last());
                        lemma_wasserstein_nonneg(left@, right@);
                    }
                }
                proof {
                    assert((flow as int) * (dist as int) <= 1_000_000_000_000_000) by (
                    nonlinear_arith)
                        requires
                            flow <= MAX_MASS,
                            dist <= MAX_LOCATIONS,
                    ;
                }
                work = work + (flow as u128) * (dist as u128);
            } else {
                let flow = r;
                right.pop();
                let last = left.len() - 1;
                left.set(last, l - r);
                proof {
                    assert(right@ =~= pre_right.drop_last());
                    assert(left@ =~= pre_left.update(pre_left.len() - 1, (l - r) as u64));
                    lemma_wasserstein_nonneg(left@, right@);
                    assert((flow as int) * (dist as int) <= 1_000_000_000_000_000) by (
                    nonlinear_arith)
                        requires
                            flow <= MAX_MASS,
                            dist <= MAX_LOCATIONS,
                    ;
                }
                work = work + (flow as u128) * (dist as u128);
            }
        }
    }
    proof {
        if left.len() == 0 {
            assert(wasserstein_spec(left@, right@) == 0);
        } else {
            assert(right@ =~= Seq::<u64>::empty());
            lemma_wasserstein_spec_empty_right(left@);
        }
    }
    work
}

/// The greedy mover never does negative work.
proof fn lemma_wasserstein_nonneg(left: Seq<u64>, right: Seq<u64>)
    ensures
        wasserstein_spec(left, right) >= 0,
    decreases left.len(), (if left.len() > 0 { left.last() } else { 0 }), right.len(),
{
    if left.len() == 0 {
    } else if left.last() == 0 {
        lemma_wasserstein_nonneg(left.drop_last(), right);
    } else if right.len() == 0 {
    } else {
        let l = left.last();
        let r = right.last();
        if l <= r {
            if r > l {
                lemma_wasserstein_nonneg(
                    left.drop_last(),
                    right.update(right.len() - 1, (r - l) as u64),
                );
            } else {
                lemma_wasserstein_nonneg(left.drop_last(), right.drop_last());
            }
        } else {
            lemma_wasserstein_nonneg(
                left.update(left.len() - 1, (l - r) as u64),
                right.drop_last(),
            );
        }
    }
}

} // verus!
