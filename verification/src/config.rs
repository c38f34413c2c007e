//! Simulation tuning constants, threaded explicitly through every physics
//! function so that alternate tunings can be tested deterministically.
//!
//! The values are tuning parameters picked for numerically stable, visually
//! plausible motion, not physical law; the well-formedness predicate gives
//! the ranges every computation in the crate is proved safe for.

use crate::fixed::{ACCUM_LIMIT, CHARGE_LIMIT, K_LIMIT, MASS_LIMIT, RADIUS_LIMIT, SCALE};
use vstd::prelude::*;

verus! {

/// Default force-law constant (the raw Coulomb constant folded together
/// with the display scaling factor).
pub const DEFAULT_K_FORCE: i64 = 8388608;

/// Default potential-law constant.
pub const DEFAULT_K_POTENTIAL: i64 = 8388608;

/// Default friction factor, about 0.95 of a unit.
pub const DEFAULT_FRICTION: i64 = 973;

/// Default rest threshold, about 0.005 of a unit of speed.
pub const DEFAULT_REST_EPSILON: i64 = 5;

/// Default restitution (bounciness), half a unit.
pub const DEFAULT_RESTITUTION: i64 = 512;

/// Default positional-correction strength, 1.5 units, compensating for
/// discrete-timestep tunneling at low frame rates.
pub const DEFAULT_CORRECTION: i64 = 1536;

/// Default body radius, 16 spatial units.
pub const DEFAULT_RADIUS: i64 = 16384;

/// Default charge quantity, 2 units.
pub const DEFAULT_CHARGE: i64 = 2048;

/// Default body mass, about 0.017 of a unit.
pub const DEFAULT_MASS: i64 = 17;

/// Default mass of a merged neutral body: twice the default mass.
pub const DEFAULT_MERGED_MASS: i64 = 34;

/// Default clearance below which a field probe hides, 24 spatial units.
pub const DEFAULT_PROBE_CLEARANCE: i64 = 24576;

/// Potential magnitude below which the absolute tolerance regime applies.
pub const DEFAULT_NEAR_ZERO: i64 = 10240;

/// Absolute equipotential tolerance, about 0.1 of a unit.
pub const DEFAULT_ABS_TOL: i64 = 102;

/// Relative equipotential tolerance numerator (1 of 100: one percent).
pub const DEFAULT_REL_NUM: i64 = 1;

/// Relative equipotential tolerance denominator.
pub const DEFAULT_REL_DEN: i64 = 100;

/// Immutable tuning parameters for one simulation.
#[derive(Clone, Copy, PartialEq, Eq, Structural, Debug)]
pub struct SimConfig {
    /// Force-law constant: pairwise force magnitude is
    /// `k_force * q_a * q_b / distance^2`.
    pub k_force: i64,
    /// Potential-law constant: a charge contributes
    /// `k_potential * q / distance` to the potential.
    pub k_potential: i64,
    /// Per-tick velocity damping factor, in `[0, SCALE)`.
    pub friction: i64,
    /// Speeds at or below this snap to exactly zero.
    pub rest_epsilon: i64,
    /// Bounciness of a two-movable-body collision, in `[0, SCALE]`.
    pub restitution: i64,
    /// Positional-correction strength for overlapping bodies.
    pub correction: i64,
    /// Collision radius given to newly placed bodies.
    pub default_radius: i64,
    /// Charge quantity given to newly placed bodies.
    pub default_charge: i64,
    /// Mass given to newly placed bodies.
    pub default_mass: i64,
    /// Mass given to the neutral body produced by a merge.
    pub merged_mass: i64,
    /// A field probe within this distance of any body is hidden.
    pub probe_clearance: i64,
    /// Potential magnitude below which equipotential matching uses the
    /// absolute tolerance instead of the relative one.
    pub near_zero: i64,
    /// Absolute equipotential tolerance.
    pub abs_tol: i64,
    /// Relative equipotential tolerance numerator.
    pub rel_num: i64,
    /// Relative equipotential tolerance denominator.
    pub rel_den: i64,
}

impl SimConfig {
    /// The ranges under which every computation in the crate is proved
    /// free of overflow.
    pub open spec fn wf(self) -> bool {
        &&& 1 <= self.k_force <= K_LIMIT
        &&& 1 <= self.k_potential <= K_LIMIT
        &&& 0 <= self.friction < SCALE
        &&& 0 <= self.rest_epsilon <= SCALE
        &&& 0 <= self.restitution <= SCALE
        &&& 0 <= self.correction <= 4 * SCALE
        &&& 1 <= self.default_radius <= RADIUS_LIMIT
        &&& 1 <= self.default_charge <= CHARGE_LIMIT
        &&& 1 <= self.default_mass <= MASS_LIMIT
        &&& 1 <= self.merged_mass <= MASS_LIMIT
        &&& 0 <= self.probe_clearance <= 4 * RADIUS_LIMIT
        &&& 0 <= self.near_zero <= ACCUM_LIMIT
        &&& 0 <= self.abs_tol <= ACCUM_LIMIT
        &&& 0 <= self.rel_num <= 1000000
        &&& 1 <= self.rel_den <= 1000000
    }

    /// The default tuning.
    pub open spec fn default_spec() -> SimConfig {
        SimConfig {
            k_force: DEFAULT_K_FORCE,
            k_potential: DEFAULT_K_POTENTIAL,
            friction: DEFAULT_FRICTION,
            rest_epsilon: DEFAULT_REST_EPSILON,
            restitution: DEFAULT_RESTITUTION,
            correction: DEFAULT_CORRECTION,
            default_radius: DEFAULT_RADIUS,
            default_charge: DEFAULT_CHARGE,
            default_mass: DEFAULT_MASS,
            merged_mass: DEFAULT_MERGED_MASS,
            probe_clearance: DEFAULT_PROBE_CLEARANCE,
            near_zero: DEFAULT_NEAR_ZERO,
            abs_tol: DEFAULT_ABS_TOL,
            rel_num: DEFAULT_REL_NUM,
            rel_den: DEFAULT_REL_DEN,
        }
    }

    /// Build the default tuning.
    pub fn new_default() -> (c: SimConfig)
        ensures
            c == Self::default_spec(),
            c.wf(),
    {
        SimConfig {
            k_force: DEFAULT_K_FORCE,
            k_potential: DEFAULT_K_POTENTIAL,
            friction: DEFAULT_FRICTION,
            rest_epsilon: DEFAULT_REST_EPSILON,
            restitution: DEFAULT_RESTITUTION,
            correction: DEFAULT_CORRECTION,
            default_radius: DEFAULT_RADIUS,
            default_charge: DEFAULT_CHARGE,
            default_mass: DEFAULT_MASS,
            merged_mass: DEFAULT_MERGED_MASS,
            probe_clearance: DEFAULT_PROBE_CLEARANCE,
            near_zero: DEFAULT_NEAR_ZERO,
            abs_tol: DEFAULT_ABS_TOL,
            rel_num: DEFAULT_REL_NUM,
            rel_den: DEFAULT_REL_DEN,
        }
    }
}

} // verus!
