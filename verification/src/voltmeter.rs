//! The voltmeter: a mobile probe reporting the live potential at its
//! reticle, a set of pinned equipotential levels, and the two-regime
//! tolerance rule that classifies samples as lying on a pinned level.

use crate::charges::{all_wf, calculate_potential, models, pot_total, PointCharge};
use crate::config::SimConfig;
use crate::fixed::{ACCUM_LIMIT, POS_LIMIT};
use crate::geometry::{v2_in_bounds, v2_zero, Vec2};
use vstd::prelude::*;

verus! {

/// Absolute value of a mathematical integer.
pub open spec fn abs_int(x: int) -> int {
    if x >= 0 {
        x
    } else {
        -x
    }
}

/// Whether the potential `v` counts as lying on the pinned level `e`.
/// Near zero (below `near_zero` in magnitude) an absolute tolerance
/// applies — a relative comparison is unstable there; otherwise the
/// relative tolerance `rel_num / rel_den` is applied against the average
/// magnitude of the two values.
pub open spec fn close_to_level(v: int, e: int, cfg: SimConfig) -> bool {
    if abs_int(v) < cfg.near_zero {
        abs_int(v - e) <= cfg.abs_tol
    } else {
        2 * cfg.rel_den * abs_int(v - e) <= cfg.rel_num * (abs_int(v) + abs_int(e))
    }
}

/// Whether `v` lies on any pinned level.
pub open spec fn on_equipotential(v: int, levels: Seq<i64>, cfg: SimConfig) -> bool {
    exists|i: int| 0 <= i < levels.len() && close_to_level(v, #[trigger] levels[i] as int, cfg)
}

/// A sample whose potential exactly equals a pinned level always
/// classifies as on that equipotential, in either tolerance regime.
pub proof fn lemma_exact_level_matches(v: int, levels: Seq<i64>, i: int, cfg: SimConfig)
    requires
        cfg.wf(),
        0 <= i < levels.len(),
        v == levels[i] as int,
    ensures
        on_equipotential(v, levels, cfg),
{
    assert(abs_int(v - levels[i] as int) == 0);
    if abs_int(v) < cfg.near_zero {
    } else {
        assert(2 * cfg.rel_den * 0 == 0) by (nonlinear_arith);
        assert(cfg.rel_num * (abs_int(v) + abs_int(levels[i] as int)) >= 0) by (nonlinear_arith)
            requires
                cfg.rel_num >= 0,
                abs_int(v) >= 0,
                abs_int(levels[i] as int) >= 0,
        ;
    }
    assert(close_to_level(v, levels[i] as int, cfg));
}

/// Decide `on_equipotential(v, levels@, cfg)` executably.
pub fn is_on_equipotential(v: i64, levels: &Vec<i64>, cfg: &SimConfig) -> (r: bool)
    requires
        cfg.wf(),
        -ACCUM_LIMIT <= v <= ACCUM_LIMIT,
        forall|i: int|
            0 <= i < levels@.len() ==> -ACCUM_LIMIT <= #[trigger] levels@[i] <= ACCUM_LIMIT,
    ensures
        r == on_equipotential(v as int, levels@, *cfg),
{
    let av: i64 = if v >= 0 {
        v
    } else {
        -v
    };
    let n = levels.len();
    let mut found = false;
    let mut i: usize = 0;
    while i < n
        invariant
            cfg.wf(),
            -ACCUM_LIMIT <= v <= ACCUM_LIMIT,
            av as int == abs_int(v as int),
            forall|k: int|
                0 <= k < levels@.len() ==> -ACCUM_LIMIT <= #[trigger] levels@[k] <= ACCUM_LIMIT,
            n == levels@.len(),
            0 <= i <= n,
            found == exists|k: int|
                0 <= k < i && close_to_level(v as int, #[trigger] levels@[k] as int, *cfg),
        decreases n - i,
    {
        let e = levels[i];
        let ae: i64 = if e >= 0 {
            e
        } else {
            -e
        };
        let diff: i64 = if v >= e {
            v - e
        } else {
            e - v
        };
        proof {
            assert(0 <= 2 * (cfg.rel_den as int) * (diff as int) <= 0x100000000000000000000
                && 0 <= (cfg.rel_num as int) * ((av as int) + (ae as int))
                <= 0x100000000000000000000) by (nonlinear_arith)
                requires
                    0 <= cfg.rel_den as int <= 1000000,
                    0 <= cfg.rel_num as int <= 1000000,
                    0 <= diff as int <= 2 * (ACCUM_LIMIT as int),
                    0 <= av as int <= ACCUM_LIMIT as int,
                    0 <= ae as int <= ACCUM_LIMIT as int,
            ;
        }
        let hit: bool = if av < cfg.near_zero {
            diff <= cfg.abs_tol
        } else {
            2 * (cfg.rel_den as i128) * (diff as i128) <= (cfg.rel_num as i128) * ((av as i128)
                + (ae as i128))
        };
        proof {
            assert(diff as int == abs_int(v as int - e as int));
            assert(ae as int == abs_int(e as int));
            if !(av < cfg.near_zero) {
                assert((2 * (cfg.rel_den as i128) * (diff as i128)) as int == 2 * (
                cfg.rel_den as int) * (diff as int) && ((cfg.rel_num as i128) * ((av as i128) + (
                ae as i128))) as int == (cfg.rel_num as int) * ((av as int) + (ae as int)))
                    by (nonlinear_arith)
                    requires
                        0 <= cfg.rel_den as int <= 1000000,
                        0 <= cfg.rel_num as int <= 1000000,
                        0 <= diff as int <= 2 * (ACCUM_LIMIT as int),
                        0 <= av as int <= ACCUM_LIMIT as int,
                        0 <= ae as int <= ACCUM_LIMIT as int,
                ;
            }
            assert(hit == close_to_level(v as int, levels@[i as int] as int, *cfg));
        }
        found = found || hit;
        i = i + 1;
    }
    found
}

/// The stateful probe: a mobile reticle, the live measured potential at
/// it, an activation flag, and the pinned equipotential levels.
pub struct Voltmeter {
    pub reticle_center: Vec2,
    pub measured_potential: i64,
    pub is_active: bool,
    pub equipotentials: Vec<i64>,
}

impl Voltmeter {
    /// Well-formedness: the reticle is in bounds and every stored
    /// potential is a clamped sample.
    pub open spec fn wf(self) -> bool {
        &&& v2_in_bounds(self.reticle_center@, POS_LIMIT as int)
        &&& -ACCUM_LIMIT <= self.measured_potential <= ACCUM_LIMIT
        &&& (forall|i: int|
            0 <= i < self.equipotentials@.len() ==> -ACCUM_LIMIT
                <= #[trigger] self.equipotentials@[i] <= ACCUM_LIMIT)
    }

    /// A fresh, inactive voltmeter at the origin with no pinned levels.
    pub fn new() -> (v: Voltmeter)
        ensures
            v.reticle_center@ == v2_zero(),
            v.measured_potential == 0,
            !v.is_active,
            v.equipotentials@ == Seq::<i64>::empty(),
            v.wf(),
    {
        let v = Voltmeter {
            reticle_center: Vec2::zero(),
            measured_potential: 0,
            is_active: false,
            equipotentials: Vec::new(),
        };
        proof {
            assert(v.equipotentials@ =~= Seq::<i64>::empty());
        }
        v
    }

    /// Move the reticle to the tracked input position and re-measure the
    /// potential there, with the same field law the grid sampler uses.
    pub fn update(&mut self, new_position: Vec2, charges: &Vec<PointCharge>, cfg: &SimConfig)
        requires
            old(self).wf(),
            v2_in_bounds(new_position@, POS_LIMIT as int),
            all_wf(models(charges@)),
            cfg.wf(),
        ensures
            final(self).wf(),
            final(self).reticle_center == new_position,
            final(self).measured_potential == pot_total(
                cfg.k_potential as int,
                models(charges@),
                new_position@,
            ),
            final(self).is_active == old(self).is_active,
            final(self).equipotentials == old(self).equipotentials,
    {
        self.reticle_center = new_position;
        self.measured_potential = calculate_potential(&self.reticle_center, charges, cfg);
    }

    /// Pin the currently measured potential as an equipotential level.
    pub fn add_equipotential(&mut self)
        requires
            old(self).wf(),
        ensures
            final(self).wf(),
            final(self).equipotentials@ == old(self).equipotentials@.push(
                old(self).measured_potential,
            ),
            final(self).reticle_center == old(self).reticle_center,
            final(self).measured_potential == old(self).measured_potential,
            final(self).is_active == old(self).is_active,
    {
        let m = self.measured_potential;
        self.equipotentials.push(m);
    }

    /// Drop every pinned level.
    pub fn clear_equipotentials(&mut self)
        requires
            old(self).wf(),
        ensures
            final(self).wf(),
            final(self).equipotentials@ == Seq::<i64>::empty(),
            final(self).reticle_center == old(self).reticle_center,
            final(self).measured_potential == old(self).measured_potential,
            final(self).is_active == old(self).is_active,
    {
        self.equipotentials.clear();
        proof {
            assert(self.equipotentials@ =~= Seq::<i64>::empty());
        }
    }

    /// Whether a sample of potential `v` lies on any pinned level.
    pub fn classifies(&self, v: i64, cfg: &SimConfig) -> (r: bool)
        requires
            self.wf(),
            cfg.wf(),
            -ACCUM_LIMIT <= v <= ACCUM_LIMIT,
        ensures
            r == on_equipotential(v as int, self.equipotentials@, *cfg),
    {
        is_on_equipotential(v, &self.equipotentials, cfg)
    }
}

impl Default for Voltmeter {
    /// The default voltmeter is the fresh one.
    fn default() -> (v: Voltmeter)
        ensures
            v.reticle_center@ == v2_zero(),
            v.measured_potential == 0,
            !v.is_active,
            v.equipotentials@ == Seq::<i64>::empty(),
            v.wf(),
    {
        Voltmeter::new()
    }
}

} // verus!
