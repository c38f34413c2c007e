//! A verified 2D electrostatics simulation kernel.
//!
//! Point charges live in a plane; every tick the kernel accumulates pairwise
//! Coulomb forces, resolves collisions (including annihilation of colliding
//! opposite charges into a neutral body), integrates motion with friction,
//! and samples a scalar potential field on a grid.
//!
//! All quantities are fixed-point integers: a value `v` stands for the real
//! number `v / SCALE`. This keeps every computation exact enough to state
//! and prove contracts about, while the (unverified) presentation layer
//! converts to and from floating point at the boundary.

use vstd::prelude::*;

pub mod charges;
pub mod config;
pub mod fixed;
pub mod geometry;
pub mod potential;
pub mod simulation;
pub mod voltmeter;

verus! {

/// Anything the presentation layer knows how to render. The kernel itself
/// never draws; renderers outside the crate implement this for their own
/// display types.
pub trait Drawable {
    fn draw(&self);
}

} // verus!
