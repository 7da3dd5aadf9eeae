//! Following one trajectory until it settles.

use vstd::prelude::*;
use crate::point::Point;
use crate::stepper::{collatz_step, is_path, iterate, lemma_path_iterate, step};
use crate::cycle::position;
use crate::basins::{
    closes, lemma_add_converged_well_formed, lemma_add_to_well_formed, lemma_lookup, Basins,
};
use crate::coherence::{
    is_tributary, lemma_converged_coherent, lemma_give_up_coherent, lemma_merge_coherent,
};
use crate::registry::Attractors;

verus! {

/// How the walk from one starting point ended.
#[derive(Debug, Clone, Copy, PartialEq, Eq, Structural)]
pub enum Outcome {
    /// The trajectory stepped onto one of its own points; its chain went to
    /// the basin with the given index.
    ConvergedToSelf(usize),
    /// The trajectory stepped onto a member of the basin with the given index.
    MergedIntoKnown(usize),
    /// The budget was used up; the chain went to basin 0.
    BudgetExceeded,
}

/// The point at position `m` of `chain` was new when the walk came to it:
/// not among the points before it, and a member of no basin.
pub open spec fn fresh(b: Basins, chain: Seq<Point>, m: int) -> bool {
    &&& !chain.take(m).contains(chain[m])
    &&& !b.classified(chain[m])
}

/// A walk that has come to the end of `chain` stops there: the next point
/// is one of the chain's or a member of some basin.
pub open spec fn halts(b: Basins, chain: Seq<Point>) -> bool {
    closes(chain) || b.classified(step(chain.last()))
}

/// `chain` is what a walk from `start` with the given budget collects in a
/// registry in state `b`: the trajectory of `start`, each point after the
/// first new when the walk came to it, up to the point where the walk stops
/// or the budget is used up.
pub open spec fn is_trail(b: Basins, start: Point, budget: nat, chain: Seq<Point>) -> bool {
    &&& 1 <= chain.len() <= budget + 1
    &&& chain[0] == start
    &&& is_path(chain)
    &&& forall|m: int| 1 <= m < chain.len() ==> #[trigger] fresh(b, chain, m)
    &&& chain.len() == budget + 1 || halts(b, chain)
}

/// The chain of the walk from `start` (see [`lemma_trail_unique`]).
pub open spec fn trail(b: Basins, start: Point, budget: nat) -> Seq<Point> {
    choose|chain: Seq<Point>| is_trail(b, start, budget, chain)
}

/// The registry after a walk that collected `chain`.
///
/// With the budget used up the chain goes to basin 0. A chain that closes on
/// itself is added as converged. Otherwise the next point is a member of some
/// basin, and the chain goes to the first such basin.
pub open spec fn settle(b: Basins, chain: Seq<Point>, budget: nat) -> Basins {
    if chain.len() == budget + 1 {
        b.add_to(chain, 0)
    } else if closes(chain) {
        b.add_converged(chain)
    } else {
        b.add_to(chain, b.lookup(step(chain.last())).unwrap())
    }
}

/// How a walk that collected `chain` ended.
pub open spec fn outcome_of(b: Basins, chain: Seq<Point>, budget: nat) -> Outcome {
    if chain.len() == budget + 1 {
        Outcome::BudgetExceeded
    } else if closes(chain) {
        Outcome::ConvergedToSelf(b.converged_index(chain) as usize)
    } else {
        Outcome::MergedIntoKnown(b.lookup(step(chain.last())).unwrap() as usize)
    }
}

/// A walk collects one chain only.
pub proof fn lemma_trail_unique(b: Basins, start: Point, budget: nat, c1: Seq<Point>, c2: Seq<Point>)
    requires
        is_trail(b, start, budget, c1),
        is_trail(b, start, budget, c2),
    ensures
        c1 == c2,
{
    assert forall|i: int| 0 <= i < c1.len() && i < c2.len() implies c1[i] == c2[i] by {
        lemma_path_iterate(c1, 0, i);
        lemma_path_iterate(c2, 0, i);
    }
    lemma_trail_not_longer(b, budget, c1, c2);
    lemma_trail_not_longer(b, budget, c2, c1);
}

/// Of two chains that agree where both have points, the second being a
/// walk's chain as far as it goes, the second is no longer than the first if
/// a walk stops at the end of the first.
proof fn lemma_trail_not_longer(b: Basins, budget: nat, c1: Seq<Point>, c2: Seq<Point>)
    requires
        1 <= c1.len(),
        c2.len() <= budget + 1,
        forall|i: int| 0 <= i < c1.len() && i < c2.len() ==> c1[i] == c2[i],
        is_path(c2),
        c1.len() == budget + 1 || halts(b, c1),
        forall|m: int| 1 <= m < c2.len() ==> #[trigger] fresh(b, c2, m),
    ensures
        c2.len() <= c1.len(),
{
    if c1.len() < c2.len() {
        let m = c1.len() as int;
        assert(c2[(m - 1) + 1] == step(c2[m - 1]));
        assert(fresh(b, c2, m));
        assert(c2.take(m) =~= c1);
    }
}

/// A chain that a walk may have collected so far is the beginning of a
/// walk's chain.
proof fn lemma_trail_extends(b: Basins, start: Point, budget: nat, chain: Seq<Point>)
    requires
        1 <= chain.len() <= budget + 1,
        chain[0] == start,
        is_path(chain),
        forall|m: int| 1 <= m < chain.len() ==> #[trigger] fresh(b, chain, m),
    ensures
        exists|full: Seq<Point>| is_trail(b, start, budget, full),
    decreases budget + 1 - chain.len(),
{
    if chain.len() == budget + 1 || halts(b, chain) {
        assert(is_trail(b, start, budget, chain));
    } else {
        let longer = chain.push(step(chain.last()));
        assert forall|m: int| 1 <= m < longer.len() implies #[trigger] fresh(b, longer, m) by {
            if m < chain.len() {
                assert(fresh(b, chain, m));
                assert(longer.take(m) =~= chain.take(m));
            }
        }
        lemma_trail_extends(b, start, budget, longer);
    }
}

/// Every walk collects a chain: [`trail`] is one.
pub proof fn lemma_trail_exists(b: Basins, start: Point, budget: nat)
    ensures
        is_trail(b, start, budget, trail(b, start, budget)),
{
    lemma_trail_extends(b, start, budget, seq![start]);
}

/// The chain of a walk, whatever came back from it, is [`trail`].
pub proof fn lemma_trail(b: Basins, start: Point, budget: nat, chain: Seq<Point>)
    requires
        is_trail(b, start, budget, chain),
    ensures
        trail(b, start, budget) == chain,
{
    lemma_trail_unique(b, start, budget, trail(b, start, budget), chain);
}

/// What a walk leaves behind: a valid registry in which no basin has lost a
/// member, at most one basin is new, and every point of the chain, the
/// starting point among them, is a member of some basin.
pub proof fn lemma_settle(b: Basins, start: Point, budget: nat, chain: Seq<Point>)
    requires
        b.well_formed(),
        is_trail(b, start, budget, chain),
    ensures
        settle(b, chain, budget).well_formed(),
        b.within(settle(b, chain, budget)),
        settle(b, chain, budget).len() <= b.len() + 1,
        forall|i: int| 0 <= i < chain.len() ==> settle(b, chain, budget).classified(#[trigger] chain[i]),
        settle(b, chain, budget).classified(start),
{
    if chain.len() == budget + 1 {
        lemma_add_to_well_formed(b, chain, 0);
    } else if closes(chain) {
        lemma_add_converged_well_formed(b, chain);
    } else {
        lemma_lookup(b, step(chain.last()));
        lemma_add_to_well_formed(b, chain, b.lookup(step(chain.last())).unwrap());
    }
}

/// Merge: a walk whose next point is a member of some basin, and not one of
/// the chain's, ends there. The chain goes to the first basin that has that
/// point as a member; no basin is new and no cycle changes.
pub proof fn lemma_merge(b: Basins, start: Point, budget: nat, chain: Seq<Point>, k: int)
    requires
        b.well_formed(),
        is_trail(b, start, budget, chain),
        chain.len() <= budget,
        !chain.contains(step(chain.last())),
        b.lookup(step(chain.last())) == Some(k),
    ensures
        0 <= k < b.len(),
        settle(b, chain, budget) == b.add_to(chain, k),
        outcome_of(b, chain, budget) == Outcome::MergedIntoKnown(k as usize),
        settle(b, chain, budget).len() == b.len(),
        settle(b, chain, budget).types == b.types,
        forall|i: int| 0 <= i < chain.len() ==> settle(b, chain, budget).holds(k, #[trigger] chain[i]),
{
    lemma_lookup(b, step(chain.last()));
}

/// The first `n` points of the trajectory of `start`.
pub open spec fn trajectory(start: Point, n: nat) -> Seq<Point> {
    Seq::new(n, |i: int| iterate(start, i as nat))
}

/// Budget exhaustion: where none of the first `budget` successors on the
/// trajectory of `start` is a member of a basin or repeats an earlier point,
/// the walk uses up its budget, and the whole trajectory up to there goes to
/// basin 0.
pub proof fn lemma_budget_exhausted(b: Basins, start: Point, budget: nat)
    requires
        b.well_formed(),
        forall|m: int| 1 <= m <= budget ==> !b.classified(#[trigger] iterate(start, m as nat)),
        forall|j: int, m: int|
            0 <= j < m <= budget ==> #[trigger] iterate(start, j as nat) != #[trigger] iterate(
                start,
                m as nat,
            ),
    ensures
        trail(b, start, budget) == trajectory(start, budget + 1),
        outcome_of(b, trail(b, start, budget), budget) == Outcome::BudgetExceeded,
        settle(b, trail(b, start, budget), budget) == b.add_to(trajectory(start, budget + 1), 0),
        forall|m: int|
            0 <= m <= budget ==> settle(b, trail(b, start, budget), budget).holds(
                0,
                #[trigger] iterate(start, m as nat),
            ),
{
    let chain = trajectory(start, budget + 1);
    lemma_trail(b, start, budget, chain);
    assert forall|m: int| 0 <= m <= budget implies b.add_to(chain, 0).holds(
        0,
        #[trigger] iterate(start, m as nat),
    ) by {
        assert(chain[m] == iterate(start, m as nat));
    }
}

/// The chain of a walk is a path of distinct points of which only the first
/// may be a member of a basin.
pub proof fn lemma_trail_tributary(b: Basins, start: Point, budget: nat, chain: Seq<Point>)
    requires
        is_trail(b, start, budget, chain),
    ensures
        is_tributary(b, chain),
        chain.no_duplicates(),
{
    assert forall|m: int| 1 <= m < chain.len() implies !b.classified(#[trigger] chain[m]) by {
        assert(fresh(b, chain, m));
    }
    assert forall|i: int, j: int| 0 <= i < j < chain.len() implies chain[i] != chain[j] by {
        assert(fresh(b, chain, j));
        if chain[i] == chain[j] {
            assert(chain.take(j)[i] == chain[j]);
        }
    }
}

/// A walk keeps a coherent registry coherent.
pub proof fn lemma_settle_coherent(b: Basins, start: Point, budget: nat, chain: Seq<Point>)
    requires
        b.coherent(),
        is_trail(b, start, budget, chain),
    ensures
        settle(b, chain, budget).coherent(),
{
    lemma_trail_tributary(b, start, budget, chain);
    if chain.len() == budget + 1 {
        lemma_give_up_coherent(b, chain);
    } else if closes(chain) {
        lemma_converged_coherent(b, chain);
    } else {
        lemma_lookup(b, step(chain.last()));
        lemma_merge_coherent(b, chain, b.lookup(step(chain.last())).unwrap());
    }
}

/// What [`walk`] states besides the registry and the outcome.
proof fn lemma_walked(b: Basins, start: Point, budget: nat, chain: Seq<Point>)
    requires
        b.well_formed(),
        is_trail(b, start, budget, chain),
    ensures
        b.within(settle(b, chain, budget)),
        settle(b, chain, budget).classified(start),
        b.coherent() ==> settle(b, chain, budget).coherent(),
{
    lemma_settle(b, start, budget, chain);
    if b.coherent() {
        lemma_settle_coherent(b, start, budget, chain);
    }
}

/// Walks from `start` until the trajectory settles or `budget` steps are made.
///
/// The walk collects the trajectory point by point. It ends when the next
/// point is one of those collected (the chain is added as converged), or a
/// member of some basin (the chain goes to the first such basin; the point
/// itself is not collected), or when `budget` points have been appended
/// (the chain goes to basin 0).
pub fn walk(registry: &mut Attractors, start: Point, budget: usize) -> (outcome: Outcome)
    requires
        old(registry).wf(),
    ensures
        final(registry).wf(),
        final(registry)@ == settle(
            old(registry)@,
            trail(old(registry)@, start, budget as nat),
            budget as nat,
        ),
        outcome == outcome_of(
            old(registry)@,
            trail(old(registry)@, start, budget as nat),
            budget as nat,
        ),
        old(registry)@.within(final(registry)@),
        final(registry)@.classified(start),
        old(registry)@.coherent() ==> final(registry)@.coherent(),
{
    let ghost before = registry@;
    let mut points_traversed: Vec<Point> = Vec::new();
    points_traversed.push(start);
    let mut iteration: usize = 0;
    while iteration < budget
        invariant
            iteration <= budget,
            registry@ == before,
            before == old(registry)@,
            before.well_formed(),
            points_traversed@.len() == iteration + 1,
            points_traversed@[0] == start,
            is_path(points_traversed@),
            forall|m: int| 1 <= m < points_traversed@.len() ==> #[trigger] fresh(before, points_traversed@, m),
        decreases budget - iteration,
    {
        let ghost chain = points_traversed@;
        let new_point: Point = collatz_step(&points_traversed[points_traversed.len() - 1]);
        if position(&points_traversed, &new_point).is_some() {
            proof {
                lemma_trail(before, start, budget as nat, chain);
                lemma_walked(before, start, budget as nat, chain);
            }
            let attr_idx: usize = registry.add_converged_chain(points_traversed);
            return Outcome::ConvergedToSelf(attr_idx);
        }
        match registry.find(&new_point) {
            Some(attr_idx) => {
                proof {
                    lemma_lookup(before, new_point);
                    lemma_trail(before, start, budget as nat, chain);
                    lemma_walked(before, start, budget as nat, chain);
                }
                registry.add_chain_to_attr(points_traversed, attr_idx);
                return Outcome::MergedIntoKnown(attr_idx);
            },
            None => {
                points_traversed.push(new_point);
                proof {
                    let longer = points_traversed@;
                    assert forall|m: int| 1 <= m < longer.len() implies #[trigger] fresh(
                        before,
                        longer,
                        m,
                    ) by {
                        if m < chain.len() {
                            assert(fresh(before, chain, m));
                            assert(longer.take(m) =~= chain.take(m));
                        }
                    }
                }
            },
        }
        iteration += 1;
    }
    proof {
        let chain = points_traversed@;
        lemma_trail(before, start, budget as nat, chain);
        lemma_walked(before, start, budget as nat, chain);
    }
    registry.add_chain_to_attr(points_traversed, 0);
    Outcome::BudgetExceeded
}

} // verus!
