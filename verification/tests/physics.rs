//! Scenario tests for the simulation kernel: force law, integrator,
//! collisions, merges, potential sampling and equipotential tracking.

use point_charge_simulation::charges::{
    calculate_potential, force_components, PointCharge, Sign, TestCharge,
};
use point_charge_simulation::config::SimConfig;
use point_charge_simulation::geometry::Vec2;
use point_charge_simulation::simulation::{update_charges, update_field};

const PX: i64 = 1024;

fn at(x_px: i64, y_px: i64) -> Vec2 {
    Vec2::new(x_px * PX, y_px * PX)
}

#[test]
fn like_charges_repel_opposite_attract() {
    let cfg = SimConfig::new_default();
    let a = at(0, 0);
    let b = at(100, 0);
    // Like signs: the force on the body at `a` points away from `b`.
    let f_rep = force_components(a, b, cfg.k_force, cfg.default_charge, cfg.default_charge);
    assert!(f_rep.x < 0);
    assert_eq!(f_rep.y, 0);
    // Opposite signs: the force on the body at `a` points toward `b`.
    let f_att = force_components(a, b, cfg.k_force, cfg.default_charge, -cfg.default_charge);
    assert!(f_att.x > 0);
    assert_eq!(f_att.y, 0);
    // The off-axis component follows the separation vector too.
    let c = at(0, 100);
    let f_diag = force_components(a, c, cfg.k_force, cfg.default_charge, cfg.default_charge);
    assert_eq!(f_diag.x, 0);
    assert!(f_diag.y < 0);
}

#[test]
fn force_magnitude_scales_inverse_square() {
    let cfg = SimConfig::new_default();
    let a = at(0, 0);
    let near = force_components(a, at(100, 0), cfg.k_force, cfg.default_charge,
        cfg.default_charge);
    let far = force_components(a, at(200, 0), cfg.k_force, cfg.default_charge,
        cfg.default_charge);
    let m_near = near.x.abs();
    let m_far = far.x.abs();
    assert_eq!(m_near, 3355);
    assert_eq!(m_far, 838);
    // Doubling the distance cuts the magnitude to a quarter, up to the
    // sub-unit rounding of integer division.
    assert!(4 * m_far <= m_near && m_near <= 4 * m_far + 3);
}

#[test]
fn isolated_charge_at_rest_stays_at_rest() {
    let cfg = SimConfig::new_default();
    let mut charges = vec![PointCharge::new_positive_charge(1, at(50, 50), false, &cfg)];
    update_charges(&mut charges, 16, &cfg);
    assert_eq!(charges.len(), 1);
    assert_eq!(charges[0].net_force, Vec2::zero());
    assert_eq!(charges[0].acceleration, Vec2::zero());
    assert_eq!(charges[0].velocity, Vec2::zero());
    assert_eq!(charges[0].center, at(50, 50));
}

#[test]
fn fixed_charge_never_moves() {
    let cfg = SimConfig::new_default();
    let mut charges = vec![
        PointCharge::new_positive_charge(1, at(100, 100), true, &cfg),
        PointCharge::new_negative_charge(2, at(200, 100), false, &cfg),
    ];
    for _ in 0..5 {
        update_charges(&mut charges, 16, &cfg);
        let fixed = charges.iter().find(|c| c.id == 1).expect("fixed charge vanished");
        assert_eq!(fixed.center, at(100, 100));
        assert_eq!(fixed.velocity, Vec2::zero());
        assert_eq!(fixed.acceleration, Vec2::zero());
    }
}

#[test]
fn opposite_colliding_charges_merge_neutral() {
    let cfg = SimConfig::new_default();
    let mut a = PointCharge::new_positive_charge(1, at(100, 100), false, &cfg);
    let mut b = PointCharge::new_negative_charge(2, at(120, 100), false, &cfg);
    a.velocity = Vec2::new(1024, 0);
    b.velocity = Vec2::new(-512, 0);
    let momentum_before = a.velocity.x * a.m + b.velocity.x * b.m;
    let mut charges = vec![a, b];
    update_charges(&mut charges, 16, &cfg);
    assert_eq!(charges.len(), 1);
    let n = &charges[0];
    assert_eq!(n.sign, Sign::Neutral);
    assert_eq!(n.q, 0);
    assert_eq!(n.m, cfg.merged_mass);
    assert_eq!(n.id, 1);
    assert!(!n.is_fixed);
    // Located at the parents' midpoint, within a unit of integration drift.
    assert!((n.center.x - 110 * PX).abs() < PX);
    assert_eq!(n.center.y, 100 * PX);
    // Momentum is conserved by the merge; the same tick then applies one
    // round of friction and rounding to the product's velocity.
    let momentum_after = n.velocity.x * n.m;
    assert!(momentum_after <= momentum_before);
    assert!(momentum_after * 100 >= momentum_before * 90);
}

#[test]
fn same_sign_colliding_charges_never_merge() {
    let cfg = SimConfig::new_default();
    let mut charges = vec![
        PointCharge::new_positive_charge(1, at(100, 100), false, &cfg),
        PointCharge::new_positive_charge(2, at(120, 100), false, &cfg),
    ];
    update_charges(&mut charges, 16, &cfg);
    assert_eq!(charges.len(), 2);
    assert!(charges[0].is_colliding);
    assert!(charges[1].is_colliding);
    assert_eq!(charges[0].sign, Sign::Positive);
    assert_eq!(charges[1].sign, Sign::Positive);
    // The positional correction separated them past contact distance.
    let separation = (charges[1].center.x - charges[0].center.x).abs();
    assert!(separation >= charges[0].radius + charges[1].radius);
    // Still both present on the next tick.
    update_charges(&mut charges, 16, &cfg);
    assert_eq!(charges.len(), 2);
}

#[test]
fn potential_cancels_at_equidistant_point() {
    let cfg = SimConfig::new_default();
    let charges = vec![
        PointCharge::new_positive_charge(1, at(0, 0), false, &cfg),
        PointCharge::new_negative_charge(2, at(200, 0), false, &cfg),
    ];
    let v = calculate_potential(&at(100, 0), &charges, &cfg);
    assert_eq!(v, 0);
    // Off the axis of symmetry the potential is nonzero.
    let v_off = calculate_potential(&at(50, 0), &charges, &cfg);
    assert!(v_off > 0);
}

#[test]
fn neutral_charge_contributes_no_potential() {
    let cfg = SimConfig::new_default();
    let n = PointCharge::new_neutral_charge_from_merge(7, at(100, 100), false, &cfg);
    assert_eq!(n.potential_contribution_at(&at(100, 100), &cfg), 0);
    assert_eq!(n.potential_contribution_at(&at(500, 300), &cfg), 0);
    let charges = vec![n];
    assert_eq!(calculate_potential(&at(170, 40), &charges, &cfg), 0);
}

#[test]
fn end_to_end_attraction_and_midpoint_potential() {
    let cfg = SimConfig::new_default();
    let mut charges = vec![
        PointCharge::new_positive_charge(1, at(100, 100), false, &cfg),
        PointCharge::new_negative_charge(2, at(300, 100), false, &cfg),
    ];
    update_charges(&mut charges, 16, &cfg);
    assert_eq!(charges.len(), 2);
    // Each net force points toward the other charge: attraction.
    assert!(charges[0].net_force.x > 0);
    assert!(charges[1].net_force.x < 0);
    assert_eq!(charges[0].net_force.y, 0);
    assert_eq!(charges[1].net_force.y, 0);
    // Equal magnitudes: the potential midway is exactly zero.
    let v = calculate_potential(&at(200, 100), &charges, &cfg);
    assert_eq!(v, 0);
    // Unequal magnitudes: the sign midway follows the dominant charge.
    let mut big = PointCharge::new_positive_charge(3, at(100, 100), false, &cfg);
    big.q = 2 * cfg.default_charge;
    let skewed = vec![big, PointCharge::new_negative_charge(4, at(300, 100), false, &cfg)];
    assert!(calculate_potential(&at(200, 100), &skewed, &cfg) > 0);
}

#[test]
fn fixed_opposite_pair_merges_into_fixed_neutral() {
    let cfg = SimConfig::new_default();
    let mut charges = vec![
        PointCharge::new_positive_charge(1, at(100, 100), true, &cfg),
        PointCharge::new_negative_charge(2, at(120, 100), true, &cfg),
    ];
    update_charges(&mut charges, 16, &cfg);
    assert_eq!(charges.len(), 1);
    let n = &charges[0];
    assert_eq!(n.sign, Sign::Neutral);
    assert!(n.is_fixed);
    assert_eq!(n.velocity, Vec2::zero());
    assert_eq!(n.center, at(110, 100));
}

#[test]
fn probe_field_points_away_from_positive_charge() {
    let cfg = SimConfig::new_default();
    let charges = vec![PointCharge::new_positive_charge(1, at(100, 100), false, &cfg)];
    let mut probes = vec![
        TestCharge::new(at(200, 100)),
        TestCharge::new(at(0, 100)),
        TestCharge::new(at(105, 100)),
    ];
    update_field(&mut probes, &charges, &cfg);
    // Probes to the right and left are pushed outward.
    assert!(probes[0].net_force.x > 0);
    assert!(probes[1].net_force.x < 0);
    assert!(!probes[0].is_hidden);
    assert!(!probes[1].is_hidden);
    // A probe within the clearance of a body hides and reports no net force.
    assert!(probes[2].is_hidden);
    assert_eq!(probes[2].net_force, Vec2::zero());
    // Every probe carries the same field-wide display maximum.
    assert_eq!(probes[0].max_force_magnitude, probes[1].max_force_magnitude);
    assert!(probes[0].max_force_magnitude >= probes[0].net_force.x.abs());
}

#[test]
fn movable_charge_accelerates_toward_opposite() {
    let cfg = SimConfig::new_default();
    let mut charges = vec![
        PointCharge::new_positive_charge(1, at(100, 100), false, &cfg),
        PointCharge::new_negative_charge(2, at(300, 100), false, &cfg),
    ];
    update_charges(&mut charges, 16, &cfg);
    // The movable positive charge gains velocity toward the negative one
    // and translates that way.
    assert!(charges[0].velocity.x > 0);
    assert!(charges[0].center.x > 100 * PX);
    assert!(charges[1].velocity.x < 0);
    assert!(charges[1].center.x < 300 * PX);
}
