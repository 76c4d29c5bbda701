//! A bounded collection of the best hits seen so far.
//!
//! Hits are kept sorted ascending by (distance, index).  Once the capacity
//! `k` is reached, pushing a better hit evicts the current worst; the worst
//! key never increases after that, which is what lets the search algorithms
//! discard items and whole subtrees for good.

use vstd::prelude::*;

use super::{contains_index, key_lt};

verus! {

/// A capacity-bounded, sorted collection of (index, distance) hits.
pub struct SizedHeap {
    /// The capacity: how many hits are kept.
    pub k: usize,
    /// The hits, sorted ascending by (distance, index).
    pub items: Vec<(usize, u64)>,
}

/// Strict (distance, index) order on hit pairs.
pub open spec fn pair_lt(a: (usize, u64), b: (usize, u64)) -> bool {
    key_lt(a.1 as int, a.0 as int, b.1 as int, b.0 as int)
}

impl SizedHeap {
    /// Well-formedness: capacity at least one, within capacity, and strictly
    /// sorted.
    pub open spec fn inv(&self) -> bool {
        &&& self.k >= 1
        &&& self.items@.len() <= self.k
        &&& forall|w1: int, w2: int|
            0 <= w1 < w2 < self.items@.len() ==> pair_lt(
                #[trigger] self.items@[w1],
                #[trigger] self.items@[w2],
            )
    }

    /// An empty collection of capacity `k`.
    pub fn new(k: usize) -> (r: SizedHeap)
        requires
            k >= 1,
        ensures
            r.inv(),
            r.k == k,
            r.items@.len() == 0,
    {
        SizedHeap { k, items: Vec::new() }
    }

    /// Number of hits currently kept.
    pub fn len(&self) -> (r: usize)
        ensures
            r == self.items@.len(),
    {
        self.items.len()
    }

    /// The current worst kept hit.
    pub fn peek_worst(&self) -> (r: (usize, u64))
        requires
            self.items@.len() > 0,
        ensures
            r == self.items@.last(),
    {
        self.items[self.items.len() - 1]
    }

    /// Insert a hit while the collection is below capacity.
    fn insert_sorted(&mut self, i: usize, d: u64)
        requires
            old(self).inv(),
            old(self).items@.len() < old(self).k,
            !contains_index(old(self).items@, i as int),
        ensures
            final(self).inv(),
            final(self).k == old(self).k,
            final(self).items@.len() == old(self).items@.len() + 1,
            forall|p: (usize, u64)|
                final(self).items@.contains(p) <==> (old(self).items@.contains(p) || p == (i, d)),
    {
        let ghost pre = self.items@;
        let mut pos: usize = 0;
        while pos < self.items.len()
            invariant
                pos <= self.items@.len(),
                self.items@ == pre,
                old(self).inv(),
                self.k == old(self).k,
                self.items == old(self).items,
                !contains_index(self.items@, i as int),
                forall|w: int| 0 <= w < pos ==> pair_lt(#[trigger] self.items@[w], (i, d)),
            ensures
                pos <= self.items@.len(),
                self.items@ == pre,
                self.k == old(self).k,
                self.items == old(self).items,
                forall|w: int| 0 <= w < pos ==> pair_lt(#[trigger] self.items@[w], (i, d)),
                forall|w: int|
                    pos <= w < self.items@.len() ==> pair_lt((i, d), #[trigger] self.items@[w]),
            decreases self.items@.len() - pos,
        {
            let p = self.items[pos];
            if d < p.1 || (d == p.1 && i < p.0) {
                proof {
                    assert(pair_lt((i, d), self.items@[pos as int]));
                    assert forall|w: int|
                        pos <= w < self.items@.len() implies pair_lt(
                        (i, d),
                        #[trigger] self.items@[w],
                    ) by {
                        if w > pos {
                            assert(pair_lt(self.items@[pos as int], self.items@[w]));
                        }
                    }
                }
                break ;
            }
            proof {
                assert(self.items@[pos as int].0 != i);
                assert(pair_lt(self.items@[pos as int], (i, d)));
            }
            pos = pos + 1;
        }
        self.items.insert(pos, (i, d));
        proof {
            assert(self.items@ == pre.insert(pos as int, (i, d)));
            assert forall|w1: int, w2: int|
                0 <= w1 < w2 < self.items@.len() implies pair_lt(
                #[trigger] self.items@[w1],
                #[trigger] self.items@[w2],
            ) by {
                if w1 < pos && w2 < pos {
                    assert(self.items@[w1] == pre[w1]);
                    assert(self.items@[w2] == pre[w2]);
                } else if w1 < pos && w2 == pos {
                    assert(self.items@[w1] == pre[w1]);
                } else if w1 < pos && w2 > pos {
                    assert(self.items@[w1] == pre[w1]);
                    assert(self.items@[w2] == pre[w2 - 1]);
                } else if w1 == pos && w2 > pos {
                    assert(self.items@[w2] == pre[w2 - 1]);
                } else if w1 > pos && w2 > pos {
                    assert(self.items@[w1] == pre[w1 - 1]);
                    assert(self.items@[w2] == pre[w2 - 1]);
                }
            }
            assert(pre == old(self).items@);
            assert forall|p: (usize, u64)|
                self.items@.contains(p) <==> (pre.contains(p) || p == (i, d)) by {
                if self.items@.contains(p) {
                    let w = choose|w: int| 0 <= w < self.items@.len() && self.items@[w] == p;
                    if w < pos {
                        assert(pre[w] == p);
                    } else if w > pos {
                        assert(pre[w - 1] == p);
                    }
                }
                if pre.contains(p) {
                    let w = choose|w: int| 0 <= w < pre.len() && pre[w] == p;
                    if w < pos {
                        assert(self.items@[w] == p);
                    } else {
                        assert(self.items@[w + 1] == p);
                    }
                }
                if p == (i, d) {
                    assert(self.items@[pos as int] == p);
                }
            }
        }
    }

    /// Push a hit.  Below capacity it is kept; at capacity it replaces the
    /// current worst hit if it compares smaller, and is dropped otherwise.
    /// Whatever is dropped compares greater than everything kept, and the
    /// worst kept key never grows at capacity.
    pub fn push(&mut self, i: usize, d: u64)
        requires
            old(self).inv(),
            !contains_index(old(self).items@, i as int),
        ensures
            final(self).inv(),
            final(self).k == old(self).k,
            final(self).items@.len() == (if old(self).items@.len() < old(self).k {
                old(self).items@.len() as int + 1
            } else {
                old(self).k as int
            }),
            forall|p: (usize, u64)|
                final(self).items@.contains(p) ==> (old(self).items@.contains(p) || p == (i, d)),
            forall|p: (usize, u64)|
                old(self).items@.contains(p) ==> (final(self).items@.contains(p)
                    || (final(self).items@.len() == final(self).k
                        && pair_lt(final(self).items@.last(), p))),
            !contains_index(final(self).items@, i as int)
                ==> (final(self).items@.len() == final(self).k
                    && pair_lt(final(self).items@.last(), (i, d))),
            contains_index(final(self).items@, i as int) ==> final(self).items@.contains((i, d)),
            old(self).items@.len() == old(self).k ==> !pair_lt(
                old(self).items@.last(),
                final(self).items@.last(),
            ),
    {
        broadcast use vstd::seq_lib::group_seq_properties;

        let ghost pre = self.items@;
        if self.items.len() < self.k {
            self.insert_sorted(i, d);
            proof {
                assert(self.items@.contains((i, d)));
                let w = choose|w: int| 0 <= w < self.items@.len() && self.items@[w] == (i, d);
                assert(contains_index(self.items@, i as int));
                if pre.len() == self.k {
                    assert(false);
                }
            }
        } else {
            let last = self.items[self.items.len() - 1];
            proof {
                assert(pre.contains(pre.last()));
            }
            if d < last.1 || (d == last.1 && i < last.0) {
                self.items.pop();
                let ghost mid = self.items@;
                proof {
                    assert(mid == pre.drop_last());
                    assert forall|p: (usize, u64)| mid.contains(p) implies pre.contains(p) by {
                        let w = choose|w: int| 0 <= w < mid.len() && mid[w] == p;
                        assert(pre[w] == p);
                    }
                    if contains_index(mid, i as int) {
                        let w = choose|w: int| 0 <= w < mid.len() && (#[trigger] mid[w]).0 == i;
                        assert(pre[w].0 == i);
                        assert(false);
                    }
                }
                self.insert_sorted(i, d);
                proof {
                    assert(self.items@.contains((i, d)));
                    let wnew = choose|w: int|
                        0 <= w < self.items@.len() && self.items@[w] == (i, d);
                    assert(contains_index(self.items@, i as int));
                    // everything kept compares below the evicted worst
                    assert forall|p: (usize, u64)| self.items@.contains(p) implies pair_lt(
                        p,
                        pre.last(),
                    ) by {
                        if mid.contains(p) {
                            let w = choose|w: int| 0 <= w < mid.len() && mid[w] == p;
                            assert(pre[w] == p);
                            assert(pair_lt(pre[w], pre.last()));
                        } else {
                            assert(p == (i, d));
                        }
                    }
                    assert(self.items@.contains(self.items@.last()));
                    assert(pair_lt(self.items@.last(), pre.last()));
                    assert forall|p: (usize, u64)| pre.contains(p) implies (self.items@.contains(p)
                        || (self.items@.len() == self.k && pair_lt(
                        self.items@.last(),
                        p,
                    ))) by {
                        let w = choose|w: int| 0 <= w < pre.len() && pre[w] == p;
                        if w < pre.len() - 1 {
                            assert(mid[w] == p);
                            assert(mid.contains(p));
                        } else {
                            assert(p == pre.last());
                        }
                    }
                }
            } else {
                proof {
                    assert(!pair_lt((i, d), pre.last()));
                    if contains_index(self.items@, i as int) {
                        let w = choose|w: int|
                            0 <= w < self.items@.len() && (#[trigger] self.items@[w]).0 == i;
                        assert(false);
                    }
                    assert forall|w: int| 0 <= w < pre.len() implies !pair_lt(
                        pre.last(),
                        #[trigger] pre[w],
                    ) by {
                        if w < pre.len() - 1 {
                            assert(pair_lt(pre[w], pre.last()));
                        }
                    }
                    assert(pair_lt(self.items@.last(), (i, d))) by {
                        assert(pre.last().0 != i);
                    }
                }
            }
        }
    }

    /// Hand out the kept hits, ascending by (distance, index).
    pub fn extract(self) -> (r: Vec<(usize, u64)>)
        ensures
            r == self.items,
    {
        self.items
    }
}

} // verus!
