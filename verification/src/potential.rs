//! The potential grid: a regular lattice of scalar potential samples,
//! fully recomputed every tick from the live charges.

use crate::charges::{all_wf, calculate_potential, models, pot_total, PointCharge};
use crate::config::SimConfig;
use crate::fixed::{ACCUM_LIMIT, POS_LIMIT};
use crate::geometry::{Vec2, V2};
use vstd::prelude::*;

verus! {

/// The largest sample count along one axis.
pub const GRID_AXIS_LIMIT: usize = 32768;

/// The largest lattice spacing, in fixed-point length units.
pub const GRID_STEP_LIMIT: i64 = 1048576;

/// The largest absolute value in a sequence of samples.
pub open spec fn max_abs(vs: Seq<i64>) -> int
    decreases vs.len(),
{
    if vs.len() == 0 {
        0
    } else {
        let tail = max_abs(vs.drop_last());
        let a = if vs.last() >= 0 {
            vs.last() as int
        } else {
            -(vs.last() as int)
        };
        if a >= tail {
            a
        } else {
            tail
        }
    }
}

/// The plane point of lattice coordinates `(ix, iy)` at spacing `step`.
pub open spec fn lattice_point(step: int, ix: int, iy: int) -> V2 {
    V2 { x: ix * step, y: iy * step }
}

/// The flat index of lattice coordinates `(ix, iy)` in a column of
/// height `h`.
pub open spec fn cell(h: int, ix: int, iy: int) -> int {
    ix * h + iy
}

/// A regular lattice of potential samples over the viewport. Sample
/// `(ix, iy)` sits at the plane point `(ix * step, iy * step)` and is
/// stored at index `ix * height + iy`.
pub struct PotentialGrid {
    pub width: usize,
    pub height: usize,
    pub step: i64,
    pub values: Vec<i64>,
}

impl PotentialGrid {
    /// Well-formedness: the flat store holds exactly one sample per
    /// lattice point, the lattice covers only in-bounds plane points, and
    /// every sample is a clamped potential.
    pub open spec fn wf(self) -> bool {
        &&& self.values@.len() == self.width * self.height
        &&& 1 <= self.width <= GRID_AXIS_LIMIT
        &&& 1 <= self.height <= GRID_AXIS_LIMIT
        &&& 1 <= self.step <= GRID_STEP_LIMIT
        &&& self.width * self.step <= POS_LIMIT
        &&& self.height * self.step <= POS_LIMIT
        &&& (forall|i: int|
            0 <= i < self.values@.len() ==> -ACCUM_LIMIT <= #[trigger] self.values@[i]
                <= ACCUM_LIMIT)
    }

    /// The plane point sampled by lattice coordinates `(ix, iy)`.
    pub open spec fn point_at(self, ix: int, iy: int) -> V2 {
        lattice_point(self.step as int, ix, iy)
    }

    /// The flat index of lattice coordinates `(ix, iy)`.
    pub open spec fn flat(self, ix: int, iy: int) -> int {
        cell(self.height as int, ix, iy)
    }

    /// Build a grid of `width * height` samples spaced `step` apart, all
    /// initially zero.
    pub fn new(width: usize, height: usize, step: i64) -> (g: PotentialGrid)
        requires
            1 <= width <= GRID_AXIS_LIMIT,
            1 <= height <= GRID_AXIS_LIMIT,
            1 <= step <= GRID_STEP_LIMIT,
            width * step <= POS_LIMIT,
            height * step <= POS_LIMIT,
        ensures
            g.wf(),
            g.width == width,
            g.height == height,
            g.step == step,
            forall|i: int| 0 <= i < g.values@.len() ==> #[trigger] g.values@[i] == 0,
    {
        proof {
            assert((width as int) * (height as int) <= 0x40000000) by (nonlinear_arith)
                requires
                    width as int <= GRID_AXIS_LIMIT as int,
                    height as int <= GRID_AXIS_LIMIT as int,
            ;
        }
        let total = width * height;
        let mut values: Vec<i64> = Vec::new();
        let mut i: usize = 0;
        while i < total
            invariant
                0 <= i <= total,
                values@.len() == i,
                forall|k: int| 0 <= k < i ==> #[trigger] values@[k] == 0,
            decreases total - i,
        {
            values.push(0);
            i = i + 1;
        }
        PotentialGrid { width, height, step, values }
    }

    /// Reset every sample to zero.
    pub fn clear_potential(&mut self)
        requires
            old(self).wf(),
        ensures
            final(self).wf(),
            final(self).width == old(self).width,
            final(self).height == old(self).height,
            final(self).step == old(self).step,
            final(self).values@.len() == old(self).values@.len(),
            forall|i: int|
                0 <= i < final(self).values@.len() ==> #[trigger] final(self).values@[i] == 0,
    {
        let total = self.values.len();
        let mut i: usize = 0;
        while i < total
            invariant
                total == self.values@.len(),
                self.width == old(self).width,
                self.height == old(self).height,
                self.step == old(self).step,
                old(self).wf(),
                self.values@.len() == old(self).values@.len(),
                0 <= i <= total,
                forall|k: int| 0 <= k < i ==> #[trigger] self.values@[k] == 0,
                forall|k: int|
                    i <= k < total ==> #[trigger] self.values@[k] == old(self).values@[k],
            decreases total - i,
        {
            self.values.set(i, 0);
            i = i + 1;
        }
    }

    /// Recompute every sample: the potential at each lattice point over
    /// all live charges, with a neutral charge contributing exactly zero.
    pub fn update_potential(&mut self, charges: &Vec<PointCharge>, cfg: &SimConfig)
        requires
            old(self).wf(),
            all_wf(models(charges@)),
            cfg.wf(),
        ensures
            final(self).wf(),
            final(self).width == old(self).width,
            final(self).height == old(self).height,
            final(self).step == old(self).step,
            forall|ix: int, iy: int|
                0 <= ix < final(self).width && 0 <= iy < final(self).height
                    ==> final(self).values@[final(self).flat(ix, iy)] == pot_total(
                    cfg.k_potential as int,
                    models(charges@),
                    #[trigger] final(self).point_at(ix, iy),
                ),
    {
        let w = self.width;
        let h = self.height;
        let step = self.step;
        let ghost cs = models(charges@);
        let mut ix: usize = 0;
        while ix < w
            invariant
                old(self).wf(),
                all_wf(cs),
                cfg.wf(),
                cs == models(charges@),
                self.width == w,
                self.height == h,
                self.step == step,
                self.width == old(self).width,
                self.height == old(self).height,
                self.step == old(self).step,
                self.values@.len() == old(self).values@.len(),
                self.wf(),
                0 <= ix <= w,
                forall|x: int, y: int|
                    0 <= x < ix && 0 <= y < h ==> self.values@[cell(h as int, x, y)] == pot_total(
                        cfg.k_potential as int,
                        cs,
                        #[trigger] lattice_point(step as int, x, y),
                    ),
            decreases w - ix,
        {
            let mut iy: usize = 0;
            while iy < h
                invariant
                    old(self).wf(),
                    all_wf(cs),
                    cfg.wf(),
                    cs == models(charges@),
                    self.width == w,
                    self.height == h,
                    self.step == step,
                    self.width == old(self).width,
                    self.height == old(self).height,
                    self.step == old(self).step,
                    self.values@.len() == old(self).values@.len(),
                    self.wf(),
                    0 <= ix < w,
                    0 <= iy <= h,
                    forall|x: int, y: int|
                        0 <= x < ix && 0 <= y < h ==> self.values@[cell(h as int, x, y)]
                            == pot_total(
                            cfg.k_potential as int,
                            cs,
                            #[trigger] lattice_point(step as int, x, y),
                        ),
                    forall|y: int|
                        0 <= y < iy ==> self.values@[cell(h as int, ix as int, y)] == pot_total(
                            cfg.k_potential as int,
                            cs,
                            #[trigger] lattice_point(step as int, ix as int, y),
                        ),
                decreases h - iy,
            {
                proof {
                    assert((ix as int) * (step as int) < (w as int) * (step as int) && 0 <= (
                    ix as int) * (step as int) && (iy as int) * (step as int) < (h as int) * (
                    step as int) && 0 <= (iy as int) * (step as int)) by (nonlinear_arith)
                        requires
                            0 <= (ix as int) < (w as int),
                            0 <= (iy as int) < (h as int),
                            1 <= step as int,
                    ;
                    assert(0 <= (ix as int) * (h as int) + (iy as int) < (w as int) * (h as int))
                        by (nonlinear_arith)
                        requires
                            0 <= (ix as int) < (w as int),
                            0 <= (iy as int) < (h as int),
                    ;
                    assert((w as int) * (h as int) <= 0x40000000) by (nonlinear_arith)
                        requires
                            w as int <= GRID_AXIS_LIMIT as int,
                            h as int <= GRID_AXIS_LIMIT as int,
                    ;
                }
                let p = Vec2 { x: (ix as i64) * step, y: (iy as i64) * step };
                let v = calculate_potential(&p, charges, cfg);
                let idx = ix * h + iy;
                let ghost before = self.values@;
                self.values.set(idx, v);
                proof {
                    assert(p@ == lattice_point(step as int, ix as int, iy as int));
                    assert(self.values@[cell(h as int, ix as int, iy as int)] == pot_total(
                        cfg.k_potential as int,
                        cs,
                        lattice_point(step as int, ix as int, iy as int),
                    ));
                    assert forall|x: int, y: int|
                        0 <= x < ix && 0 <= y < h implies self.values@[cell(h as int, x, y)]
                        == pot_total(cfg.k_potential as int, cs, #[trigger] lattice_point(
                        step as int,
                        x,
                        y,
                    )) by {
                        assert(0 <= x * (h as int) + y && x * (h as int) + y < (ix as int) * (
                        h as int) + iy) by (nonlinear_arith)
                            requires
                                0 <= x < ix as int,
                                0 <= y < h as int,
                                0 <= iy,
                        ;
                        assert(self.values@[cell(h as int, x, y)] == before[cell(h as int, x,
                            y)]);
                    }
                    assert forall|y: int|
                        0 <= y < iy + 1 implies self.values@[cell(h as int, ix as int, y)]
                        == pot_total(cfg.k_potential as int, cs, #[trigger] lattice_point(
                        step as int,
                        ix as int,
                        y,
                    )) by {
                        if y < iy {
                            assert(self.values@[cell(h as int, ix as int, y)] == before[cell(
                                h as int,
                                ix as int,
                                y,
                            )]);
                        }
                    }
                }
                iy = iy + 1;
            }
            ix = ix + 1;
        }
        proof {
            assert forall|ix: int, iy: int|
                0 <= ix < self.width && 0 <= iy < self.height implies self.values@[self.flat(
                ix,
                iy,
            )] == pot_total(cfg.k_potential as int, models(charges@), #[trigger] self.point_at(
                ix,
                iy,
            )) by {
                assert(self.point_at(ix, iy) == lattice_point(step as int, ix, iy));
                assert(self.flat(ix, iy) == cell(h as int, ix, iy));
            }
        }
    }

    /// Recompute every sample and report the largest absolute potential
    /// seen, for color-map normalization.
    pub fn update_potential_and_return_max(&mut self, charges: &Vec<PointCharge>, cfg: &SimConfig)
        -> (r: i64)
        requires
            old(self).wf(),
            all_wf(models(charges@)),
            cfg.wf(),
        ensures
            final(self).wf(),
            final(self).width == old(self).width,
            final(self).height == old(self).height,
            final(self).step == old(self).step,
            forall|ix: int, iy: int|
                0 <= ix < final(self).width && 0 <= iy < final(self).height
                    ==> final(self).values@[final(self).flat(ix, iy)] == pot_total(
                    cfg.k_potential as int,
                    models(charges@),
                    #[trigger] final(self).point_at(ix, iy),
                ),
            r == max_abs(final(self).values@),
            0 <= r <= ACCUM_LIMIT,
    {
        self.update_potential(charges, cfg);
        let total = self.values.len();
        let mut best: i64 = 0;
        let mut i: usize = 0;
        while i < total
            invariant
                self.wf(),
                total == self.values@.len(),
                0 <= i <= total,
                best == max_abs(self.values@.take(i as int)),
                0 <= best <= ACCUM_LIMIT,
            decreases total - i,
        {
            proof {
                assert(self.values@.take(i + 1).drop_last() =~= self.values@.take(i as int));
                assert(self.values@.take(i + 1).last() == self.values@[i as int]);
            }
            let v = self.values[i];
            let a = if v >= 0 {
                v
            } else {
                -v
            };
            if a > best {
                best = a;
            }
            i = i + 1;
        }
        proof {
            assert(self.values@.take(total as int) =~= self.values@);
        }
        best
    }

    /// Read one sample.
    pub fn value_at(&self, ix: usize, iy: usize) -> (r: i64)
        requires
            self.wf(),
            ix < self.width,
            iy < self.height,
        ensures
            r == self.values@[self.flat(ix as int, iy as int)],
    {
        proof {
            assert(0 <= (ix as int) * (self.height as int) + (iy as int) < (self.width as int) * (
            self.height as int)) by (nonlinear_arith)
                requires
                    0 <= (ix as int) < (self.width as int),
                    0 <= (iy as int) < (self.height as int),
            ;
            assert((self.width as int) * (self.height as int) <= 0x40000000) by (nonlinear_arith)
                requires
                    self.width as int <= GRID_AXIS_LIMIT as int,
                    self.height as int <= GRID_AXIS_LIMIT as int,
            ;
        }
        self.values[ix * self.height + iy]
    }
}

} // verus!
