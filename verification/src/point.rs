//! Lattice points.

use vstd::prelude::*;

verus! {

/// A lattice point: an ordered pair of coordinates `(x, y)`.
///
/// Two points are equal when both coordinates are.
#[derive(Debug, Clone, Copy, PartialEq, Eq, Hash, Structural)]
pub struct Point(pub u32, pub u32);

} // verus!
