//! Attractor basins of a two-dimensional Collatz map on a bounded lattice.
//!
//! Every lattice point is followed under [`stepper::step`] until its
//! trajectory closes on itself, runs into a point that is already classified,
//! or uses up its iteration budget. The [`Attractors`] registry keeps one
//! basin per cycle, cycles being identified up to rotation, and one basin for
//! the points that did not settle.
//!
//! [`collatz_step`] and [`cyclic_eq`] are the two building blocks, [`walk`]
//! follows one trajectory, [`explore`] walks from every point of a lattice,
//! and [`render_matrix`] writes the classification down as text.

pub mod point;
pub mod stepper;
pub mod cycle;
pub mod basins;
pub mod registry;
pub mod coherence;
pub mod walker;
pub mod driver;
pub mod export;

pub use point::Point;
pub use stepper::collatz_step;
pub use cycle::cyclic_eq;
pub use registry::Attractors;
pub use walker::{walk, Outcome};
pub use driver::explore;
pub use export::{push_decimal, render_matrix};
