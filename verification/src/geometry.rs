//! Plane vectors in fixed-point coordinates, with their mathematical model.

use crate::fixed::{is_sqrt, isqrt_u128, lemma_sqrt_dominates_component,
    lemma_sqrt_floor_exists, lemma_sqrt_unique, sqrt_floor, ACCUM_LIMIT};
use vstd::prelude::*;

verus! {

/// A plane vector; each component is a fixed-point scalar.
#[derive(Clone, Copy, PartialEq, Eq, Structural, Debug)]
pub struct Vec2 {
    pub x: i64,
    pub y: i64,
}

/// The mathematical model of a vector: unbounded integer components.
pub ghost struct V2 {
    pub x: int,
    pub y: int,
}

impl View for Vec2 {
    type V = V2;

    open spec fn view(&self) -> V2 {
        V2 { x: self.x as int, y: self.y as int }
    }
}

/// Both components lie in `[-lim, lim]`.
pub open spec fn v2_in_bounds(v: V2, lim: int) -> bool {
    &&& -lim <= v.x <= lim
    &&& -lim <= v.y <= lim
}

/// The zero vector model.
pub open spec fn v2_zero() -> V2 {
    V2 { x: 0, y: 0 }
}

/// Euclidean length, rounded down to an integer.
pub open spec fn v2_norm(v: V2) -> int {
    sqrt_floor(v.x * v.x + v.y * v.y)
}

/// Squares are nonnegative; the sum of two squares is nonnegative.
pub proof fn lemma_sq_sum_nonneg(x: int, y: int)
    ensures
        x * x >= 0,
        y * y >= 0,
        x * x + y * y >= 0,
{
    assert(x * x >= 0 && y * y >= 0) by (nonlinear_arith);
}

/// The norm is a genuine integer square root of the squared length, and it
/// dominates the absolute value of each component.
pub proof fn lemma_norm_props(v: V2)
    ensures
        is_sqrt(v.x * v.x + v.y * v.y, v2_norm(v)),
        v2_norm(v) >= 0,
        -v2_norm(v) <= v.x <= v2_norm(v),
        -v2_norm(v) <= v.y <= v2_norm(v),
        v != v2_zero() ==> v2_norm(v) >= 1,
{
    lemma_sq_sum_nonneg(v.x, v.y);
    lemma_sqrt_floor_exists(v.x * v.x + v.y * v.y);
    let r = v2_norm(v);
    lemma_sqrt_dominates_component(v.x * v.x + v.y * v.y, r, v.x);
    lemma_sqrt_dominates_component(v.x * v.x + v.y * v.y, r, v.y);
    if v != v2_zero() && r == 0 {
        assert(v.x == 0 && v.y == 0);
    }
}

/// If both components fit under `lim`, the norm stays under twice `lim`.
pub proof fn lemma_norm_bound(v: V2, lim: int)
    requires
        lim >= 0,
        v2_in_bounds(v, lim),
    ensures
        0 <= v2_norm(v) <= 2 * lim,
{
    lemma_norm_props(v);
    assert(v.x * v.x + v.y * v.y <= 2 * lim * lim) by (nonlinear_arith)
        requires
            -lim <= v.x <= lim,
            -lim <= v.y <= lim,
    ;
    assert((2 * lim + 1) * (2 * lim + 1) > 2 * lim * lim) by (nonlinear_arith)
        requires
            lim >= 0,
    ;
    let r = v2_norm(v);
    if r > 2 * lim {
        assert((r + 1) * (r + 1) > r * r) by (nonlinear_arith)
            requires
                r >= 0,
        ;
        assert(r * r >= (2 * lim + 1) * (2 * lim + 1)) by (nonlinear_arith)
            requires
                r >= 2 * lim + 1,
                lim >= 0,
        ;
    }
}

impl Vec2 {
    /// Build a vector from its components.
    pub fn new(x: i64, y: i64) -> (v: Vec2)
        ensures
            v@ == (V2 { x: x as int, y: y as int }),
    {
        Vec2 { x, y }
    }

    /// The zero vector.
    pub fn zero() -> (v: Vec2)
        ensures
            v@ == v2_zero(),
    {
        Vec2 { x: 0, y: 0 }
    }

    /// Euclidean length rounded down, exact per `v2_norm`.
    pub fn norm(&self) -> (r: i64)
        requires
            v2_in_bounds(self@, ACCUM_LIMIT as int),
        ensures
            r == v2_norm(self@),
            0 <= r <= 2 * ACCUM_LIMIT,
    {
        proof {
            lemma_sq_sum_nonneg(self@.x, self@.y);
            lemma_norm_bound(self@, ACCUM_LIMIT as int);
            assert(self@.x * self@.x <= (ACCUM_LIMIT as int) * (ACCUM_LIMIT as int)
                && self@.y * self@.y <= (ACCUM_LIMIT as int) * (ACCUM_LIMIT as int))
                by (nonlinear_arith)
                requires
                    v2_in_bounds(self@, ACCUM_LIMIT as int),
            ;
        }
        let sx = (self.x as i128) * (self.x as i128);
        let sy = (self.y as i128) * (self.y as i128);
        let n = (sx + sy) as u128;
        let r = isqrt_u128(n);
        proof {
            lemma_sqrt_floor_exists(n as int);
            lemma_sqrt_unique(n as int, r as int, v2_norm(self@));
        }
        r as i64
    }
}

} // verus!
