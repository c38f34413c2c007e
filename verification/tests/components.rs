//! Unit tests for the individual components: charges, probes, the
//! potential grid, the voltmeter, and the numeric helpers.

use point_charge_simulation::charges::{calculate_potential, PointCharge, Sign, TestCharge};
use point_charge_simulation::config::SimConfig;
use point_charge_simulation::fixed::{clip_i128, isqrt_u128, tdiv_i64, SCALE};
use point_charge_simulation::geometry::Vec2;
use point_charge_simulation::potential::PotentialGrid;
use point_charge_simulation::voltmeter::{is_on_equipotential, Voltmeter};

const PX: i64 = 1024;

fn at(x_px: i64, y_px: i64) -> Vec2 {
    Vec2::new(x_px * PX, y_px * PX)
}

#[test]
fn truncating_division_is_symmetric() {
    assert_eq!(tdiv_i64(7, 2), 3);
    assert_eq!(tdiv_i64(-7, 2), -3);
    assert_eq!(tdiv_i64(0, 5), 0);
    assert_eq!(tdiv_i64(-1, 5), 0);
}

#[test]
fn integer_square_root_brackets_its_argument() {
    assert_eq!(isqrt_u128(0), 0);
    assert_eq!(isqrt_u128(1), 1);
    assert_eq!(isqrt_u128(3), 1);
    assert_eq!(isqrt_u128(4), 2);
    assert_eq!(isqrt_u128(10_000_000_000), 100_000);
    assert_eq!(isqrt_u128(10_485_760_000), 102_400);
}

#[test]
fn clipping_saturates_symmetrically() {
    assert_eq!(clip_i128(5, 10), 5);
    assert_eq!(clip_i128(15, 10), 10);
    assert_eq!(clip_i128(-15, 10), -10);
}

#[test]
fn constructors_establish_the_documented_state() {
    let cfg = SimConfig::new_default();
    let p = PointCharge::new_positive_charge(3, at(10, 20), true, &cfg);
    assert_eq!(p.sign, Sign::Positive);
    assert_eq!(p.q, cfg.default_charge);
    assert_eq!(p.m, cfg.default_mass);
    assert_eq!(p.radius, cfg.default_radius);
    assert!(p.is_fixed);
    assert!(!p.is_colliding);
    assert_eq!(p.velocity, Vec2::zero());
    let n = PointCharge::new_negative_charge(4, at(10, 20), false, &cfg);
    assert_eq!(n.sign, Sign::Negative);
    assert_eq!(n.q, -cfg.default_charge);
    let z = PointCharge::new_neutral_charge_from_merge(5, at(1, 1), false, &cfg);
    assert_eq!(z.sign, Sign::Neutral);
    assert_eq!(z.q, 0);
    assert_eq!(z.m, cfg.merged_mass);
}

#[test]
fn force_accumulation_and_net_reduction() {
    let cfg = SimConfig::new_default();
    let mut a = PointCharge::new_positive_charge(1, at(0, 0), false, &cfg);
    let b = PointCharge::new_positive_charge(2, at(100, 0), false, &cfg);
    let c = PointCharge::new_positive_charge(3, at(-100, 0), false, &cfg);
    let f1 = a.force_with(&b, &cfg);
    let f2 = a.force_with(&c, &cfg);
    assert_eq!(a.forces.len(), 2);
    // Symmetric neighbors: the two forces cancel exactly.
    assert_eq!(f1.x, -f2.x);
    a.calculate_net_force();
    assert_eq!(a.net_force, Vec2::zero());
    a.calculate_max_force();
    assert_eq!(a.max_force_magnitude, f1.x.abs());
    a.clear_forces();
    assert_eq!(a.forces.len(), 0);
    assert_eq!(a.net_force, Vec2::zero());
}

#[test]
fn should_merge_requires_strictly_opposite_signs() {
    let cfg = SimConfig::new_default();
    let p = PointCharge::new_positive_charge(1, at(0, 0), false, &cfg);
    let n = PointCharge::new_negative_charge(2, at(1, 0), false, &cfg);
    let z = PointCharge::new_neutral_charge_from_merge(3, at(2, 0), false, &cfg);
    assert!(p.should_merge_with(&n));
    assert!(n.should_merge_with(&p));
    assert!(!p.should_merge_with(&p));
    assert!(!p.should_merge_with(&z));
    assert!(!z.should_merge_with(&n));
}

#[test]
fn collision_flags_and_correction_between_two_bodies() {
    let cfg = SimConfig::new_default();
    let mut a = PointCharge::new_positive_charge(1, at(100, 100), false, &cfg);
    let mut b = PointCharge::new_positive_charge(2, at(120, 100), false, &cfg);
    a.check_collision_with(&mut b, &cfg);
    assert!(a.is_colliding);
    assert!(b.is_colliding);
    assert!(a.center.x < 100 * PX);
    assert!(b.center.x > 120 * PX);
    // Distant bodies do not collide.
    let mut c = PointCharge::new_positive_charge(3, at(500, 100), false, &cfg);
    a.check_collision_with(&mut c, &cfg);
    assert!(!a.is_colliding);
    assert!(!c.is_colliding);
}

#[test]
fn fixed_body_absorbs_no_correction() {
    let cfg = SimConfig::new_default();
    let mut a = PointCharge::new_positive_charge(1, at(100, 100), true, &cfg);
    let mut b = PointCharge::new_positive_charge(2, at(118, 100), false, &cfg);
    a.check_collision_with(&mut b, &cfg);
    assert!(a.is_colliding);
    assert!(b.is_colliding);
    assert_eq!(a.center, at(100, 100));
    assert_eq!(a.velocity, Vec2::zero());
    assert!(b.center.x > 118 * PX);
}

#[test]
fn probe_accumulates_and_clears() {
    let cfg = SimConfig::new_default();
    let charge = PointCharge::new_positive_charge(1, at(0, 0), false, &cfg);
    let mut t = TestCharge::new(at(100, 0));
    let f = t.force_with(&charge, &cfg);
    // The probe's unit charge is pushed away from the positive body.
    assert!(f.x > 0);
    t.calculate_net_force();
    assert_eq!(t.net_force.x, f.x);
    t.set_max_force(12345);
    assert_eq!(t.max_force_magnitude, 12345);
    t.clear_forces();
    assert_eq!(t.forces.len(), 0);
    assert_eq!(t.net_force, Vec2::zero());
    assert_eq!(t.max_force_magnitude, 0);
}

#[test]
fn grid_samples_match_the_scalar_field() {
    let cfg = SimConfig::new_default();
    let charges = vec![PointCharge::new_positive_charge(1, at(37, 12), false, &cfg)];
    let mut grid = PotentialGrid::new(5, 4, 25 * PX);
    grid.update_potential(&charges, &cfg);
    for ix in 0..5usize {
        for iy in 0..4usize {
            let p = Vec2::new(ix as i64 * 25 * PX, iy as i64 * 25 * PX);
            assert_eq!(grid.value_at(ix, iy), calculate_potential(&p, &charges, &cfg));
        }
    }
    grid.clear_potential();
    assert_eq!(grid.value_at(3, 2), 0);
}

#[test]
fn grid_reports_largest_absolute_sample() {
    let cfg = SimConfig::new_default();
    let charges = vec![PointCharge::new_negative_charge(1, at(10, 10), false, &cfg)];
    let mut grid = PotentialGrid::new(3, 3, 10 * PX);
    let m = grid.update_potential_and_return_max(&charges, &cfg);
    assert!(m > 0);
    let mut best: i64 = 0;
    for ix in 0..3usize {
        for iy in 0..3usize {
            best = best.max(grid.value_at(ix, iy).abs());
        }
    }
    assert_eq!(m, best);
}

#[test]
fn voltmeter_measures_pins_and_clears() {
    let cfg = SimConfig::new_default();
    let charges = vec![PointCharge::new_positive_charge(1, at(0, 0), false, &cfg)];
    let mut v = Voltmeter::new();
    assert!(!v.is_active);
    v.update(at(100, 0), &charges, &cfg);
    let measured = v.measured_potential;
    assert_eq!(measured, calculate_potential(&at(100, 0), &charges, &cfg));
    // k * q / d = 8388608 * 2048 / 102400, truncated.
    assert_eq!(measured, 167772);
    v.add_equipotential();
    assert_eq!(v.equipotentials.len(), 1);
    assert_eq!(v.equipotentials[0], measured);
    assert!(v.classifies(measured, &cfg));
    v.clear_equipotentials();
    assert_eq!(v.equipotentials.len(), 0);
    assert!(!v.classifies(measured, &cfg));
}

#[test]
fn equipotential_classification_two_regimes() {
    let cfg = SimConfig::new_default();
    // Far from zero: a one-percent relative tolerance applies.
    let levels = vec![50 * PX];
    assert!(is_on_equipotential(50 * PX, &levels, &cfg));
    assert!(is_on_equipotential(50 * PX + 400, &levels, &cfg));
    assert!(!is_on_equipotential(60 * PX, &levels, &cfg));
    // Near zero: the absolute tolerance applies instead.
    let near = vec![5000];
    assert!(is_on_equipotential(5000, &near, &cfg));
    assert!(is_on_equipotential(5000 + cfg.abs_tol, &near, &cfg));
    assert!(!is_on_equipotential(5000 + cfg.abs_tol + 1, &near, &cfg));
}

#[test]
fn sign_symbols_match_the_display_convention() {
    assert_eq!(Sign::Positive.symbol(), "+");
    assert_eq!(Sign::Negative.symbol(), "-");
    assert_eq!(Sign::Neutral.symbol(), "/");
    let d = Voltmeter::default();
    assert_eq!(d.measured_potential, 0);
}

#[test]
fn movement_respects_friction_and_rest_threshold() {
    let cfg = SimConfig::new_default();
    let mut c = PointCharge::new_positive_charge(1, at(100, 100), false, &cfg);
    c.velocity = Vec2::new(10 * SCALE, 0);
    c.calculate_acceleration();
    c.calculate_velocity(&cfg);
    // No net force: friction alone damps the speed.
    assert!(c.velocity.x < 10 * SCALE);
    assert!(c.velocity.x > 9 * SCALE);
    c.movement(16);
    assert!(c.center.x > 100 * PX);
    // A crawling speed snaps to exactly zero.
    let mut s = PointCharge::new_positive_charge(2, at(0, 0), false, &cfg);
    s.velocity = Vec2::new(cfg.rest_epsilon, 0);
    s.calculate_acceleration();
    s.calculate_velocity(&cfg);
    assert_eq!(s.velocity, Vec2::zero());
}
