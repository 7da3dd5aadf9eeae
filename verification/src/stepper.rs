//! The step function of the map, and what it means to follow it.

use vstd::prelude::*;
use crate::point::Point;

verus! {

/// Number of values a coordinate can take.
pub const COORD_RANGE: u64 = 0x1_0000_0000;

/// `n` reduced to the width of a coordinate.
pub open spec fn wrap(n: int) -> u32 {
    (n % (COORD_RANGE as int)) as u32
}

/// The successor of `p` under the map.
///
/// Two even coordinates are halved. Two odd coordinates are each tripled and
/// increased by one. Of two coordinates of different parity the larger one is
/// increased by one (they cannot be equal); the other one stays.
/// A coordinate that would leave the 32-bit range wraps around.
pub open spec fn step(p: Point) -> Point {
    if p.0 % 2 == 0 && p.1 % 2 == 0 {
        Point((p.0 / 2) as u32, (p.1 / 2) as u32)
    } else if p.0 % 2 == 1 && p.1 % 2 == 1 {
        Point(wrap(3 * p.0 + 1), wrap(3 * p.1 + 1))
    } else if p.0 > p.1 {
        Point(wrap(p.0 + 1), p.1)
    } else {
        Point(p.0, wrap(p.1 + 1))
    }
}

/// Whether the successor of `p` is reached without any coordinate wrapping.
pub open spec fn step_in_range(p: Point) -> bool {
    if p.0 % 2 == 1 && p.1 % 2 == 1 {
        3 * p.0 + 1 <= u32::MAX && 3 * p.1 + 1 <= u32::MAX
    } else if p.0 % 2 != p.1 % 2 && p.0 > p.1 {
        p.0 + 1 <= u32::MAX
    } else if p.0 % 2 != p.1 % 2 {
        p.1 + 1 <= u32::MAX
    } else {
        true
    }
}

/// Advances one point by one step of the map.
pub fn collatz_step(start_point: &Point) -> (next: Point)
    ensures
        next == step(*start_point),
{
    let x: u32 = start_point.0;
    let y: u32 = start_point.1;
    if x % 2 == 0 && y % 2 == 0 {
        Point(x / 2, y / 2)
    } else if x % 2 == 1 && y % 2 == 1 {
        Point(wrapping_triple_plus_one(x), wrapping_triple_plus_one(y))
    } else if x > y {
        Point(wrapping_increment(x), y)
    } else {
        Point(x, wrapping_increment(y))
    }
}

fn wrapping_triple_plus_one(x: u32) -> (r: u32)
    ensures
        r == wrap(3 * x + 1),
{
    let wide: u64 = 3 * (x as u64) + 1;
    (wide % COORD_RANGE) as u32
}

fn wrapping_increment(x: u32) -> (r: u32)
    ensures
        r == wrap(x + 1),
{
    let wide: u64 = (x as u64) + 1;
    (wide % COORD_RANGE) as u32
}

/// While no coordinate wraps, a step is the rule on the integers: halve both,
/// or triple both and add one, or add one to the larger.
pub proof fn lemma_step_in_range(p: Point)
    requires
        step_in_range(p),
    ensures
        p.0 % 2 == 0 && p.1 % 2 == 0 ==> 2 * step(p).0 == p.0 && 2 * step(p).1 == p.1,
        p.0 % 2 == 1 && p.1 % 2 == 1 ==> step(p).0 == 3 * p.0 + 1 && step(p).1 == 3 * p.1 + 1,
        p.0 % 2 != p.1 % 2 && p.0 > p.1 ==> step(p).0 == p.0 + 1 && step(p).1 == p.1,
        p.0 % 2 != p.1 % 2 && p.0 <= p.1 ==> step(p).0 == p.0 && step(p).1 == p.1 + 1,
        p.0 % 2 != p.1 % 2 ==> p.0 != p.1,
{
}

/// The point reached from `p` after `n` steps.
pub open spec fn iterate(p: Point, n: nat) -> Point
    decreases n,
{
    if n == 0 {
        p
    } else {
        step(iterate(p, (n - 1) as nat))
    }
}

/// Each point of `chain` but the first is the successor of the one before it.
pub open spec fn is_path(chain: Seq<Point>) -> bool {
    forall|i: int| 0 <= i < chain.len() - 1 ==> #[trigger] chain[i + 1] == step(chain[i])
}

/// `c` is a cycle of the map: a path of distinct points whose last point
/// steps back to the first.
pub open spec fn is_cycle(c: Seq<Point>) -> bool {
    &&& c.len() >= 1
    &&& is_path(c)
    &&& step(c.last()) == c[0]
    &&& c.no_duplicates()
}

/// Some point of `c` lies on the trajectory of `p`.
pub open spec fn reaches(p: Point, c: Seq<Point>) -> bool {
    exists|n: nat| c.contains(#[trigger] iterate(p, n))
}

/// Steps add up: `a + b` steps are `a` steps followed by `b` steps.
pub proof fn lemma_iterate_add(p: Point, a: nat, b: nat)
    ensures
        iterate(p, a + b) == iterate(iterate(p, a), b),
    decreases b,
{
    if b > 0 {
        lemma_iterate_add(p, a, (b - 1) as nat);
    }
}

/// A point that is its own successor never moves.
pub proof fn lemma_iterate_fixed(p: Point, n: nat)
    requires
        step(p) == p,
    ensures
        iterate(p, n) == p,
    decreases n,
{
    if n > 0 {
        lemma_iterate_fixed(p, (n - 1) as nat);
    }
}

/// Along a path, a later point is reached from an earlier one in as many
/// steps as lie between them.
pub proof fn lemma_path_iterate(chain: Seq<Point>, i: int, j: int)
    requires
        is_path(chain),
        0 <= i <= j < chain.len(),
    ensures
        chain[j] == iterate(chain[i], (j - i) as nat),
    decreases j - i,
{
    if i < j {
        lemma_path_iterate(chain, i, j - 1);
        assert(chain[(j - 1) + 1] == step(chain[j - 1]));
    }
}

/// A cycle through a point that is its own successor consists of that point.
pub proof fn lemma_cycle_of_fixed_point(c: Seq<Point>, p: Point)
    requires
        is_cycle(c),
        c.contains(p),
        step(p) == p,
    ensures
        c == seq![p],
{
    // the point after `p` in the cycle is `p` again, so there is no other
    let q = choose|q: int| 0 <= q < c.len() && c[q] == p;
    if q < c.len() - 1 {
        assert(c[q + 1] == step(c[q]));
    }
    assert(c.len() == 1);
}

/// A path of distinct points whose last point steps onto its `i`-th point
/// closes a cycle from there on.
pub proof fn lemma_closed_path_is_cycle(chain: Seq<Point>, i: int)
    requires
        is_path(chain),
        chain.no_duplicates(),
        0 <= i < chain.len(),
        step(chain.last()) == chain[i],
    ensures
        is_cycle(chain.subrange(i, chain.len() as int)),
{
    let c = chain.subrange(i, chain.len() as int);
    assert forall|j: int| 0 <= j < c.len() - 1 implies #[trigger] c[j + 1] == step(c[j]) by {
        assert(chain[(i + j) + 1] == step(chain[i + j]));
    }
}

} // verus!
