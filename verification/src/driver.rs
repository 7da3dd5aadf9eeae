//! Exploring a whole lattice.

use vstd::prelude::*;
use crate::point::Point;
use crate::basins::Basins;
use crate::registry::Attractors;
use crate::walker::{lemma_settle, lemma_settle_coherent, lemma_trail_exists, settle, trail, walk};

verus! {

/// The registry when the exploration of the lattice of side `size` comes to
/// the point `(r, c)`: walks have been made, in this order, from the points
/// `(i, j)` with `i <= j < size` of the rows before `r`, and from the points
/// `(r, j)` with `r <= j < c`.
pub open spec fn explored(size: nat, budget: nat, r: nat, c: nat) -> Basins
    decreases r, c,
{
    if c > r {
        let b = explored(size, budget, r, (c - 1) as nat);
        settle(b, trail(b, Point(r as u32, (c - 1) as u32), budget), budget)
    } else if r == 0 {
        Basins::initial()
    } else {
        explored(size, budget, (r - 1) as nat, size)
    }
}

/// Every point of `b` that is a member of a basin is one in `a`, where no
/// basin of `b` has lost a member in `a`.
pub proof fn lemma_within_classified(b: Basins, a: Basins, p: Point)
    requires
        b.within(a),
        b.classified(p),
    ensures
        a.classified(p),
{
}

/// Partition: at every point of an exploration the registry is coherent, so
/// that no point is a member of two basins other than basin 0, and the
/// points walked from so far are members of some basin.
pub proof fn lemma_explored(size: nat, budget: nat, r: nat, c: nat)
    requires
        r <= c <= size,
    ensures
        explored(size, budget, r, c).coherent(),
        forall|i: u32, j: u32|
            i <= j < size && (i < r || (i == r && j < c)) ==> #[trigger] explored(
                size,
                budget,
                r,
                c,
            ).classified(Point(i, j)),
    decreases r, c,
{
    let now = explored(size, budget, r, c);
    if c > r {
        let before = explored(size, budget, r, (c - 1) as nat);
        let start = Point(r as u32, (c - 1) as u32);
        lemma_explored(size, budget, r, (c - 1) as nat);
        lemma_trail_exists(before, start, budget);
        lemma_settle(before, start, budget, trail(before, start, budget));
        lemma_settle_coherent(before, start, budget, trail(before, start, budget));
        assert forall|i: u32, j: u32|
            i <= j < size && (i < r || (i == r && j < c)) implies #[trigger] now.classified(
            Point(i, j),
        ) by {
            if Point(i, j) != start {
                lemma_within_classified(before, now, Point(i, j));
            }
        }
    } else if r > 0 {
        lemma_explored(size, budget, (r - 1) as nat, size);
    }
}

/// Walks once from every point `(r, c)` with `r <= c < size`, row by row,
/// each walk with the given budget, in a registry that starts out new.
///
/// Afterwards every one of these points is a member of some basin, and of at
/// most one basin other than basin 0.
pub fn explore(size: u32, budget: usize) -> (registry: Attractors)
    ensures
        registry.wf(),
        registry@ == explored(size as nat, budget as nat, size as nat, size as nat),
        registry@.coherent(),
        forall|r: u32, c: u32| r <= c < size ==> #[trigger] registry@.classified(Point(r, c)),
{
    let mut attrs: Attractors = Attractors::new();
    let mut idx1: u32 = 0;
    while idx1 < size
        invariant
            idx1 <= size,
            attrs.wf(),
            attrs@ == explored(size as nat, budget as nat, idx1 as nat, idx1 as nat),
        decreases size - idx1,
    {
        let mut idx2: u32 = idx1;
        while idx2 < size
            invariant
                idx1 <= idx2 <= size,
                idx1 < size,
                attrs.wf(),
                attrs@ == explored(size as nat, budget as nat, idx1 as nat, idx2 as nat),
            decreases size - idx2,
        {
            walk(&mut attrs, Point(idx1, idx2), budget);
            idx2 += 1;
        }
        idx1 += 1;
    }
    proof {
        lemma_explored(size as nat, budget as nat, size as nat, size as nat);
    }
    attrs
}

} // verus!
