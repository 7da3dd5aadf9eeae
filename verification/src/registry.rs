//! The registry of basins.

use vstd::prelude::*;
use std::collections::HashSet;
use crate::point::Point;
use crate::stepper::{collatz_step, COORD_RANGE};
use crate::cycle::{cyclic_eq, cyclic_eq_spec, position};
use crate::basins::{closes, cycle_of, is_found, lemma_add_converged_well_formed, Basins};

verus! {

broadcast use vstd::std_specs::hash::group_hash_axioms;

/// The basins found so far: for each one its cycle and its member points.
///
/// Basins are numbered in the order in which they were found and are never
/// removed or renumbered. Basin 0 exists from the start, has no cycle and
/// takes the points whose trajectory did not settle within its budget.
#[derive(Debug)]
pub struct Attractors {
    types: Vec<Vec<Point>>,
    elements: Vec<HashSet<u64>>,
}

/// The number under which a point is kept in a basin's member set.
spec fn key_of(p: Point) -> u64 {
    (p.0 * (COORD_RANGE as int) + p.1) as u64
}

/// The points kept under the numbers in `keys`.
spec fn points_of(keys: Set<u64>) -> Set<Point> {
    Set::new(|p: Point| keys.contains(key_of(p)))
}

proof fn lemma_points_of_empty()
    ensures
        points_of(Set::<u64>::empty()) == Set::<Point>::empty(),
{
}

proof fn lemma_points_of_len(keys: Set<u64>)
    requires
        points_of(keys).finite(),
    ensures
        points_of(keys).len() == keys.len(),
{
    let points = points_of(keys);
    let f = |p: Point| key_of(p);
    assert forall|k: u64| keys.contains(k) implies points.map(f).contains(k) by {
        let p = Point((k / COORD_RANGE) as u32, (k % COORD_RANGE) as u32);
        assert(points.contains(p));
    }
    assert(points.map(f) =~= keys);
    vstd::set_lib::lemma_map_size(points, keys, f);
}

fn key(p: &Point) -> (k: u64)
    ensures
        k == key_of(*p),
{
    (p.0 as u64) * COORD_RANGE + (p.1 as u64)
}

impl View for Attractors {
    type V = Basins;

    closed spec fn view(&self) -> Basins {
        Basins {
            types: Seq::new(self.types@.len(), |i: int| self.types@[i]@),
            elements: Seq::new(self.elements@.len(), |i: int| points_of(self.elements@[i]@)),
        }
    }
}

impl Attractors {
    /// Validity of the registry: that of its abstract state.
    pub open spec fn wf(&self) -> bool {
        self@.well_formed()
    }

    /// A registry with basin 0 alone, without members.
    pub fn new() -> (instance: Self)
        ensures
            instance@ == Basins::initial(),
            instance.wf(),
    {
        let mut instance = Self { types: Vec::new(), elements: Vec::new() };
        instance.types.push(Vec::new());
        instance.elements.push(HashSet::new());
        proof {
            lemma_points_of_empty();
        }
        instance
    }

    fn insert_chain(&mut self, chain: &Vec<Point>, k: usize)
        requires
            k < old(self)@.elements.len(),
        ensures
            final(self)@ == old(self)@.add_to(chain@, k as int),
    {
        let ghost before = self@;
        let mut i: usize = 0;
        proof {
            assert(chain@.take(0).to_set() =~= Set::<Point>::empty());
            assert(before.elements[k as int].union(Set::<Point>::empty())
                =~= before.elements[k as int]);
        }
        while i < chain.len()
            invariant
                i <= chain.len(),
                k < before.elements.len(),
                k < self.elements@.len(),
                self@ == before.add_to(chain@.take(i as int), k as int),
            decreases chain.len() - i,
        {
            let ghost mid = self@;
            let ghost p = chain@[i as int];
            let ghost sets = self.elements@;
            let number: u64 = key(&chain[i]);
            self.elements[k].insert(number);
            proof {
                let goal = before.add_to(chain@.take(i + 1), k as int);
                assert(chain@.take(i + 1) =~= chain@.take(i as int).push(p));
                chain@.take(i as int).lemma_push_to_set_commute(p);
                assert(goal.elements[k as int] =~= mid.elements[k as int].insert(p));
                assert(mid.elements.len() == sets.len());
                assert forall|j: int| 0 <= j < goal.elements.len() implies self@.elements[j]
                    == goal.elements[j] by {
                    if j != k {
                        assert(mid.elements[j] == points_of(sets[j]@));
                    }
                }
            }
            i += 1;
        }
        proof {
            assert(chain@.take(chain@.len() as int) =~= chain@);
        }
    }

    /// Makes every point of `point_chain` a member of basin `type_idx`.
    pub fn add_chain_to_attr(&mut self, point_chain: Vec<Point>, type_idx: usize)
        requires
            old(self).wf(),
            type_idx < old(self)@.len(),
        ensures
            final(self)@ == old(self)@.add_to(point_chain@, type_idx as int),
            final(self).wf(),
    {
        self.insert_chain(&point_chain, type_idx);
    }

    /// Adds a chain whose last point steps onto one of the chain's points.
    ///
    /// The chain from the first occurrence of that point onwards is the cycle
    /// it ran into. The chain's points become members of the first basin
    /// whose cycle equals that cycle up to rotation; where there is none, of
    /// a new basin with that cycle. The basin's index is returned.
    pub fn add_converged_chain(&mut self, point_chain: Vec<Point>) -> (idx: usize)
        requires
            old(self).wf(),
            closes(point_chain@),
        ensures
            final(self)@ == old(self)@.add_converged(point_chain@),
            idx == old(self)@.converged_index(point_chain@),
            final(self).wf(),
    {
        let ghost before = self@;
        proof {
            lemma_add_converged_well_formed(before, point_chain@);
        }
        let len: usize = point_chain.len();
        let new_last_point: Point = collatz_step(&point_chain[len - 1]);
        let point_idx: usize = match position(&point_chain, &new_last_point) {
            Some(at) => at,
            None => vstd::pervasive::unreached(),
        };
        let mut attr_type: Vec<Point> = Vec::new();
        let mut i: usize = point_idx;
        while i < len
            invariant
                point_idx <= i <= len,
                len == point_chain.len(),
                attr_type@ == point_chain@.subrange(point_idx as int, i as int),
            decreases len - i,
        {
            attr_type.push(point_chain[i]);
            proof {
                assert(attr_type@ =~= point_chain@.subrange(point_idx as int, i + 1));
            }
            i += 1;
        }
        let mut attr_idx: usize = 0;
        while attr_idx < self.types.len()
            invariant
                attr_idx <= self.types.len(),
                self@ == before,
                before == old(self)@,
                before.well_formed(),
                before.types.len() == self.types.len(),
                attr_type@ == cycle_of(point_chain@),
                forall|j: int| 0 <= j < attr_idx ==> !cyclic_eq_spec(attr_type@, #[trigger] before.types[j]),
            decreases self.types.len() - attr_idx,
        {
            if cyclic_eq(&attr_type, &self.types[attr_idx]) {
                proof {
                    assert(before.is_match(attr_type@, attr_idx as int));
                }
                self.insert_chain(&point_chain, attr_idx);
                return attr_idx;
            }
            attr_idx += 1;
        }
        self.types.push(attr_type);
        self.elements.push(HashSet::new());
        let last_idx: usize = self.elements.len() - 1;
        proof {
            lemma_points_of_empty();
        }
        self.insert_chain(&point_chain, last_idx);
        proof {
            assert(Set::<Point>::empty().union(point_chain@.to_set()) =~= point_chain@.to_set());
        }
        last_idx
    }

    /// The first basin that has `point` as a member, if there is one.
    pub fn find(&self, point: &Point) -> (found: Option<usize>)
        ensures
            is_found(self@, *point, found),
    {
        let number: u64 = key(point);
        let mut idx: usize = 0;
        while idx < self.elements.len()
            invariant
                idx <= self.elements.len(),
                number == key_of(*point),
                forall|j: int| 0 <= j < idx ==> !self@.elements[j].contains(*point),
            decreases self.elements.len() - idx,
        {
            if self.elements[idx].contains(&number) {
                proof {
                    assert(self@.is_lookup(*point, idx as int));
                }
                return Some(idx);
            }
            idx += 1;
        }
        None
    }

    /// Whether `point` is a member of basin `idx`; no point is a member of a
    /// basin that does not exist.
    pub fn is_member(&self, idx: usize, point: &Point) -> (member: bool)
        ensures
            member == self@.holds(idx as int, *point),
    {
        if idx < self.elements.len() {
            let number: u64 = key(point);
            self.elements[idx].contains(&number)
        } else {
            false
        }
    }

    /// The number of basins, basin 0 included.
    pub fn basin_count(&self) -> (count: usize)
        ensures
            count == self@.len(),
    {
        self.elements.len()
    }

    /// The cycle of basin `idx`; empty for basin 0.
    pub fn cycle_type(&self, idx: usize) -> (cycle: &Vec<Point>)
        requires
            self.wf(),
            idx < self@.len(),
        ensures
            cycle@ == self@.types[idx as int],
    {
        &self.types[idx]
    }

    /// The number of members of basin `idx`.
    pub fn basin_size(&self, idx: usize) -> (size: usize)
        requires
            self.wf(),
            idx < self@.len(),
        ensures
            size == self@.elements[idx as int].len(),
    {
        proof {
            assert(self@.elements[idx as int].finite());
            lemma_points_of_len(self.elements@[idx as int]@);
        }
        self.elements[idx].len()
    }
}

} // verus!
