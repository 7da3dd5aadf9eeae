//! What walks keep true of a registry: basins that belong to cycles.
//!
//! Basin 0 is left out throughout. A point that one walk gave up on may
//! settle in a later walk, so a member of basin 0 can be a member of one
//! more basin.

use vstd::prelude::*;
use crate::point::Point;
use crate::stepper::{
    is_cycle, is_path, iterate, lemma_closed_path_is_cycle, lemma_cycle_of_fixed_point,
    lemma_iterate_add, lemma_iterate_fixed, lemma_path_iterate, reaches, step,
};
use crate::cycle::{first_index, lemma_first_index};
use crate::basins::{closes, cycle_of, lemma_matching, Basins};

verus! {

impl Basins {
    /// The cycle of every basin but basin 0 is a cycle of the map.
    pub open spec fn cycles_genuine(self) -> bool {
        forall|k: int| 1 <= k < self.types.len() ==> is_cycle(#[trigger] self.types[k])
    }

    /// Every basin but basin 0 holds the successor of each of its members.
    pub open spec fn closed_under_step(self) -> bool {
        forall|k: int, p: Point|
            1 <= k && #[trigger] self.holds(k, p) ==> self.elements[k].contains(step(p))
    }

    /// The trajectory of every member of a basin other than 0 comes to that
    /// basin's cycle.
    pub open spec fn settled(self) -> bool {
        forall|k: int, p: Point| 1 <= k && #[trigger] self.holds(k, p) ==> reaches(p, self.types[k])
    }

    /// No point is a member of two basins other than 0.
    pub open spec fn apart(self) -> bool {
        forall|j: int, k: int, p: Point|
            1 <= j && 1 <= k && #[trigger] self.holds(j, p) && #[trigger] self.holds(k, p) ==> j
                == k
    }

    /// The registry is valid, and each basin but basin 0 is a set of points
    /// whose trajectories stay in it and come to its cycle, which is a cycle
    /// of the map; no two of these basins share a point.
    pub open spec fn coherent(self) -> bool {
        &&& self.well_formed()
        &&& self.cycles_genuine()
        &&& self.closed_under_step()
        &&& self.settled()
        &&& self.apart()
    }
}

/// The chain of a walk, as far as the basins other than 0 are concerned: a
/// path of which only the first point may be a member of a basin.
pub open spec fn is_tributary(b: Basins, chain: Seq<Point>) -> bool {
    &&& chain.len() >= 1
    &&& is_path(chain)
    &&& forall|m: int| 1 <= m < chain.len() ==> !b.classified(#[trigger] chain[m])
}

/// A new registry is coherent.
pub proof fn lemma_initial_coherent()
    ensures
        Basins::initial().coherent(),
{
}

/// Partition: in a coherent registry a point is a member of at most one basin
/// other than basin 0.
pub proof fn lemma_partition(b: Basins, p: Point, j: int, k: int)
    requires
        b.coherent(),
        b.holds(j, p),
        b.holds(k, p),
        j != k,
    ensures
        j == 0 || k == 0,
{
}

/// Partition, where nothing was given up on: with basin 0 empty, a
/// classified point is a member of exactly one basin.
pub proof fn lemma_partition_exact(b: Basins, p: Point, j: int, k: int)
    requires
        b.coherent(),
        b.elements[0].is_empty(),
        b.holds(j, p),
        b.holds(k, p),
    ensures
        j == k,
{
}

/// A tributary chain whose first point is a member of a basin other than 0
/// has no second point: that point would be a member of the same basin.
proof fn lemma_tributary_head(b: Basins, chain: Seq<Point>, i: int)
    requires
        b.closed_under_step(),
        is_tributary(b, chain),
        1 <= i,
        b.holds(i, chain[0]),
    ensures
        chain.len() == 1,
{
    if chain.len() > 1 {
        assert(chain[0int + 1] == step(chain[0]));
        assert(b.holds(i, chain[1]));
    }
}

/// Adding a chain to basin 0 keeps a registry coherent.
pub proof fn lemma_give_up_coherent(b: Basins, chain: Seq<Point>)
    requires
        b.coherent(),
    ensures
        b.add_to(chain, 0).coherent(),
{
    let a = b.add_to(chain, 0);
    assert forall|k: int, p: Point| 1 <= k && #[trigger] a.holds(k, p) implies b.holds(k, p) by {}
}

/// Merge: a tributary chain whose next point is a member of basin `k`, and
/// of no earlier basin, can be added to basin `k`; the registry stays
/// coherent.
pub proof fn lemma_merge_coherent(b: Basins, chain: Seq<Point>, k: int)
    requires
        b.coherent(),
        is_tributary(b, chain),
        b.is_lookup(step(chain.last()), k),
    ensures
        b.add_to(chain, k).coherent(),
{
    if k == 0 {
        lemma_give_up_coherent(b, chain);
    } else {
        let a = b.add_to(chain, k);
        let n = chain.len() as int;
        let next = step(chain.last());
        // a point of the chain steps to the next one, the last to `next`
        assert forall|j: int, p: Point| 1 <= j && #[trigger] a.holds(j, p) implies a.elements[j].contains(
        step(p)) by {
            if !b.holds(j, p) {
                let m = choose|m: int| 0 <= m < n && chain[m] == p;
                if m < n - 1 {
                    assert(chain[m + 1] == step(chain[m]));
                }
            }
        }
        // a point of the chain comes to `next`, and from there to the cycle
        assert forall|j: int, p: Point| 1 <= j && #[trigger] a.holds(j, p) implies reaches(
            p,
            a.types[j],
        ) by {
            if !b.holds(j, p) {
                let m = choose|m: int| 0 <= m < n && chain[m] == p;
                let more = choose|more: nat| b.types[k].contains(#[trigger] iterate(next, more));
                lemma_path_iterate(chain, m, n - 1);
                lemma_iterate_add(p, (n - m) as nat, more);
            }
        }
        assert forall|i: int, j: int, p: Point|
            1 <= i && 1 <= j && #[trigger] a.holds(i, p) && #[trigger] a.holds(j, p) implies i
            == j by {
            if b.holds(i, p) && !b.holds(j, p) {
                lemma_merge_apart(b, chain, k, i, p);
            } else if b.holds(j, p) && !b.holds(i, p) {
                lemma_merge_apart(b, chain, k, j, p);
            }
        }
    }
}

/// A point of the chain that is a member of basin `i` already is the chain's
/// only point, and basin `i` is the basin that the chain is added to.
proof fn lemma_merge_apart(b: Basins, chain: Seq<Point>, k: int, i: int, p: Point)
    requires
        b.coherent(),
        is_tributary(b, chain),
        1 <= k,
        b.holds(k, step(chain.last())),
        1 <= i,
        b.holds(i, p),
        chain.contains(p),
    ensures
        i == k,
{
    lemma_tributary_head(b, chain, i);
    assert(b.holds(i, step(chain.last())));
}

/// Convergence: a tributary chain of distinct points that closes on itself
/// can be added as converged; the registry stays coherent.
pub proof fn lemma_converged_coherent(b: Basins, chain: Seq<Point>)
    requires
        b.coherent(),
        is_tributary(b, chain),
        chain.no_duplicates(),
        closes(chain),
    ensures
        b.add_converged(chain).coherent(),
{
    let a = b.add_converged(chain);
    let n = chain.len() as int;
    let next = step(chain.last());
    let cycle = cycle_of(chain);
    let at = first_index(chain, next);
    lemma_first_index(chain, next);
    lemma_closed_path_is_cycle(chain, at);
    if b.known(cycle) {
        lemma_matching(b, cycle);
    }
    // a point of the chain steps to the next one, the last to the one at `at`
    assert forall|j: int, p: Point| 1 <= j && #[trigger] a.holds(j, p) implies a.elements[j].contains(
    step(p)) by {
        if !b.holds(j, p) {
            let m = choose|m: int| 0 <= m < n && chain[m] == p;
            if m < n - 1 {
                assert(chain[m + 1] == step(chain[m]));
            }
        }
    }
    // a point of the chain before `at` comes to the one at `at`; the others
    // are points of the cycle
    assert forall|j: int, p: Point| 1 <= j && #[trigger] a.holds(j, p) implies reaches(
        p,
        a.types[j],
    ) by {
        if !b.holds(j, p) {
            let m = choose|m: int| 0 <= m < n && chain[m] == p;
            let to = if m < at { at } else { m };
            lemma_path_iterate(chain, m, to);
            assert(chain[to] == cycle[to - at]);
        }
    }
    assert forall|i: int, j: int, p: Point|
        1 <= i && 1 <= j && #[trigger] a.holds(i, p) && #[trigger] a.holds(j, p) implies i
        == j by {
        if b.holds(i, p) && !b.holds(j, p) {
            lemma_converged_apart(b, chain, i, p);
        } else if b.holds(j, p) && !b.holds(i, p) {
            lemma_converged_apart(b, chain, j, p);
        }
    }
}

/// A point of the chain that is a member of basin `i` already is the chain's
/// only point and its own successor; the cycle of basin `i` is then that
/// point alone, and basin `i` is the basin that the chain is added to.
proof fn lemma_converged_apart(b: Basins, chain: Seq<Point>, i: int, p: Point)
    requires
        b.coherent(),
        is_tributary(b, chain),
        closes(chain),
        1 <= i,
        b.holds(i, p),
        chain.contains(p),
    ensures
        i == b.converged_index(chain),
{
    let cycle = cycle_of(chain);
    lemma_tributary_head(b, chain, i);
    lemma_first_index(chain, step(chain.last()));
    let far = choose|far: nat| b.types[i].contains(#[trigger] iterate(p, far));
    lemma_iterate_fixed(p, far);
    lemma_cycle_of_fixed_point(b.types[i], p);
    lemma_matching(b, cycle);
    assert(b.holds(b.matching(cycle), p));
}

} // verus!
