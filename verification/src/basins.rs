//! The abstract state of a registry of basins, and its transitions.

use vstd::prelude::*;
use crate::point::Point;
use crate::stepper::step;
use crate::cycle::{cyclic_eq_spec, first_index, lemma_first_index};

verus! {

/// What a registry holds: for each basin its cycle and its member points.
///
/// Basin 0 is the basin of the points that did not settle; it has no cycle.
#[verifier::ext_equal]
pub struct Basins {
    /// The cycle of each basin, from an arbitrary one of its points onwards.
    pub types: Seq<Seq<Point>>,
    /// The member points of each basin.
    pub elements: Seq<Set<Point>>,
}

impl Basins {
    /// The state of a new registry: basin 0 alone, without members.
    pub open spec fn initial() -> Basins {
        Basins { types: seq![Seq::<Point>::empty()], elements: seq![Set::<Point>::empty()] }
    }

    /// The number of basins.
    pub open spec fn len(self) -> nat {
        self.elements.len()
    }

    /// Validity of a registry: basin 0 exists and has the empty cycle, every
    /// other basin has a non-empty cycle whose points are among its members,
    /// and every basin has finitely many members.
    pub open spec fn well_formed(self) -> bool {
        &&& self.types.len() == self.elements.len()
        &&& self.types.len() >= 1
        &&& self.types[0].len() == 0
        &&& forall|k: int| 0 <= k < self.elements.len() ==> (#[trigger] self.elements[k]).finite()
        &&& forall|k: int| 1 <= k < self.types.len() ==> (#[trigger] self.types[k]).len() >= 1
        &&& forall|k: int, i: int|
            1 <= k < self.types.len() && 0 <= i < self.types[k].len()
                ==> self.elements[k].contains(#[trigger] self.types[k][i])
    }

    /// Basin `k` exists and `p` is one of its members.
    pub open spec fn holds(self, k: int, p: Point) -> bool {
        0 <= k < self.elements.len() && self.elements[k].contains(p)
    }

    /// `p` is a member of some basin.
    pub open spec fn classified(self, p: Point) -> bool {
        exists|k: int| self.holds(k, p)
    }

    /// `k` is the first basin that has `p` as a member.
    pub open spec fn is_lookup(self, p: Point, k: int) -> bool {
        &&& self.holds(k, p)
        &&& forall|j: int| 0 <= j < k ==> !self.elements[j].contains(p)
    }

    /// The first basin that has `p` as a member, if there is one.
    pub open spec fn lookup(self, p: Point) -> Option<int> {
        if self.classified(p) {
            Some(choose|k: int| self.is_lookup(p, k))
        } else {
            None
        }
    }

    /// `k` is the first basin whose cycle equals `cycle` up to rotation.
    pub open spec fn is_match(self, cycle: Seq<Point>, k: int) -> bool {
        &&& 0 <= k < self.types.len()
        &&& cyclic_eq_spec(cycle, self.types[k])
        &&& forall|j: int| 0 <= j < k ==> !cyclic_eq_spec(cycle, #[trigger] self.types[j])
    }

    /// Some basin has a cycle equal to `cycle` up to rotation.
    pub open spec fn known(self, cycle: Seq<Point>) -> bool {
        exists|k: int| 0 <= k < self.types.len() && cyclic_eq_spec(cycle, #[trigger] self.types[k])
    }

    /// The first basin whose cycle equals `cycle` up to rotation.
    pub open spec fn matching(self, cycle: Seq<Point>) -> int {
        choose|k: int| self.is_match(cycle, k)
    }

    /// The registry after every point of `chain` has become a member of basin `k`.
    pub open spec fn add_to(self, chain: Seq<Point>, k: int) -> Basins {
        Basins {
            types: self.types,
            elements: self.elements.update(k, self.elements[k].union(chain.to_set())),
        }
    }

    /// The registry after a new basin with the given cycle and the points of
    /// `chain` as members has been appended.
    pub open spec fn append(self, cycle: Seq<Point>, chain: Seq<Point>) -> Basins {
        Basins { types: self.types.push(cycle), elements: self.elements.push(chain.to_set()) }
    }

    /// The basin that a chain which closed on itself goes to: the first one
    /// whose cycle equals the chain's up to rotation, else a new one.
    pub open spec fn converged_index(self, chain: Seq<Point>) -> int {
        if self.known(cycle_of(chain)) {
            self.matching(cycle_of(chain))
        } else {
            self.elements.len() as int
        }
    }

    /// The registry after a chain that closed on itself has been added.
    pub open spec fn add_converged(self, chain: Seq<Point>) -> Basins {
        if self.known(cycle_of(chain)) {
            self.add_to(chain, self.matching(cycle_of(chain)))
        } else {
            self.append(cycle_of(chain), chain)
        }
    }

    /// Every member of a basin of `self` is a member of the same basin of `other`.
    pub open spec fn within(self, other: Basins) -> bool {
        &&& self.elements.len() <= other.elements.len()
        &&& forall|k: int, p: Point| self.holds(k, p) ==> other.holds(k, p)
    }
}

/// A chain closes on itself when the successor of its last point is one of
/// its points.
pub open spec fn closes(chain: Seq<Point>) -> bool {
    chain.len() >= 1 && chain.contains(step(chain.last()))
}

/// The cycle of a chain that closes on itself: the chain from the first
/// occurrence of the successor of its last point onwards.
pub open spec fn cycle_of(chain: Seq<Point>) -> Seq<Point> {
    chain.subrange(first_index(chain, step(chain.last())), chain.len() as int)
}

/// A classified point has a first basin, which [`Basins::lookup`] gives.
pub proof fn lemma_lookup(b: Basins, p: Point)
    ensures
        match b.lookup(p) {
            Some(k) => b.is_lookup(p, k),
            None => forall|k: int| !b.holds(k, p),
        },
{
    if b.classified(p) {
        let k = choose|k: int| b.holds(k, p);
        lemma_lookup_exists(b, p, k);
    }
}

proof fn lemma_lookup_exists(b: Basins, p: Point, k: int)
    requires
        b.holds(k, p),
    ensures
        exists|j: int| b.is_lookup(p, j),
    decreases k,
{
    if exists|j: int| 0 <= j < k && b.elements[j].contains(p) {
        let j = choose|j: int| 0 <= j < k && b.elements[j].contains(p);
        lemma_lookup_exists(b, p, j);
    } else {
        assert(b.is_lookup(p, k));
    }
}

/// The first basin of a point is unique.
pub proof fn lemma_lookup_unique(b: Basins, p: Point, k: int)
    requires
        b.is_lookup(p, k),
    ensures
        b.lookup(p) == Some(k),
{
}

proof fn lemma_match_exists(b: Basins, cycle: Seq<Point>, k: int)
    requires
        0 <= k < b.types.len(),
        cyclic_eq_spec(cycle, b.types[k]),
    ensures
        exists|j: int| b.is_match(cycle, j),
    decreases k,
{
    if exists|j: int| 0 <= j < k && cyclic_eq_spec(cycle, #[trigger] b.types[j]) {
        let j = choose|j: int| 0 <= j < k && cyclic_eq_spec(cycle, #[trigger] b.types[j]);
        lemma_match_exists(b, cycle, j);
    } else {
        assert(b.is_match(cycle, k));
    }
}

/// A known cycle has a first basin that matches it, which
/// [`Basins::matching`] gives.
pub proof fn lemma_matching(b: Basins, cycle: Seq<Point>)
    requires
        b.known(cycle),
    ensures
        b.is_match(cycle, b.matching(cycle)),
{
    let k = choose|k: int| 0 <= k < b.types.len() && cyclic_eq_spec(cycle, #[trigger] b.types[k]);
    lemma_match_exists(b, cycle, k);
}

/// The first matching basin is unique.
pub proof fn lemma_matching_unique(b: Basins, cycle: Seq<Point>, k: int)
    requires
        b.is_match(cycle, k),
    ensures
        b.known(cycle),
        b.matching(cycle) == k,
{
}

/// What a lookup may answer for `p`: the first basin that has `p` as a
/// member, or nothing where there is none.
pub open spec fn is_found(b: Basins, p: Point, found: Option<usize>) -> bool {
    match found {
        Some(idx) => b.lookup(p) == Some(idx as int),
        None => b.lookup(p) is None,
    }
}

/// Lookup is stable: as long as the registry does not change, two lookups of
/// one point give the same answer.
pub proof fn lemma_lookup_stable(b: Basins, p: Point, first: Option<usize>, second: Option<usize>)
    requires
        is_found(b, p, first),
        is_found(b, p, second),
    ensures
        first == second,
{
}

/// Basin 0 has no cycle, in every valid registry.
pub proof fn lemma_basin_zero(b: Basins)
    requires
        b.well_formed(),
    ensures
        b.types[0] == Seq::<Point>::empty(),
{
}

/// A new registry is valid, and basin 0 is its only basin.
pub proof fn lemma_initial_well_formed()
    ensures
        Basins::initial().well_formed(),
        Basins::initial().len() == 1,
        forall|p: Point| !Basins::initial().classified(p),
{
}

/// Adding a chain to a basin keeps the registry valid, changes no cycle and
/// takes no member away.
pub proof fn lemma_add_to_well_formed(b: Basins, chain: Seq<Point>, k: int)
    requires
        b.well_formed(),
        0 <= k < b.len(),
    ensures
        b.add_to(chain, k).well_formed(),
        b.add_to(chain, k).types == b.types,
        b.within(b.add_to(chain, k)),
        forall|i: int| 0 <= i < chain.len() ==> b.add_to(chain, k).holds(k, #[trigger] chain[i]),
{
}

/// The cycle of a chain that closes on itself is a non-empty part of it.
pub proof fn lemma_cycle_of(chain: Seq<Point>)
    requires
        closes(chain),
    ensures
        cycle_of(chain).len() >= 1,
        cycle_of(chain).len() <= chain.len(),
        forall|i: int|
            0 <= i < cycle_of(chain).len() ==> chain.contains(#[trigger] cycle_of(chain)[i]),
{
    lemma_first_index(chain, step(chain.last()));
}

/// Adding a chain that closed on itself keeps the registry valid and takes no
/// member away; the chain's points are then members of the basin it went to,
/// and at most one basin is new.
pub proof fn lemma_add_converged_well_formed(b: Basins, chain: Seq<Point>)
    requires
        b.well_formed(),
        closes(chain),
    ensures
        b.add_converged(chain).well_formed(),
        b.within(b.add_converged(chain)),
        1 <= b.converged_index(chain) < b.add_converged(chain).len(),
        b.add_converged(chain).len() <= b.len() + 1,
        forall|i: int|
            0 <= i < chain.len() ==> b.add_converged(chain).holds(
                b.converged_index(chain),
                #[trigger] chain[i],
            ),
{
    lemma_cycle_of(chain);
    if b.known(cycle_of(chain)) {
        lemma_matching(b, cycle_of(chain));
    }
}

} // verus!
