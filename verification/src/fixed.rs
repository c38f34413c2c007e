//! Fixed-point scalar arithmetic: the numeric ground the simulation stands on.
//!
//! A scalar is an `i64` holding `SCALE` times its real value. Division
//! truncates toward zero (as Rust's `/` does), which keeps negation exact:
//! `tdiv(-a, b) == -tdiv(a, b)`. Quantities that could grow without bound
//! are clamped into documented symmetric ranges instead of overflowing;
//! this is the integer analogue of guarding against non-finite floats.

use vstd::arithmetic::div_mod::{
    lemma_div_is_ordered, lemma_div_is_ordered_by_denominator, lemma_div_multiples_vanish,
    lemma_div_nonincreasing, lemma_div_of0, lemma_div_pos_is_pos,
};
use vstd::prelude::*;

verus! {

/// Fixed-point unit: an `i64` value `v` represents the real number `v / SCALE`.
pub const SCALE: i64 = 1024;

/// Largest position coordinate the simulation admits (about two million
/// spatial units either way).
pub const POS_LIMIT: i64 = 2147483648;

/// Largest velocity component; doubles as the simulation's speed cap.
pub const VEL_LIMIT: i64 = 2147483648;

/// Largest charge quantity a body may carry.
pub const CHARGE_LIMIT: i64 = 1048576;

/// Largest mass a body may have (masses are at least 1 raw unit).
pub const MASS_LIMIT: i64 = 2147483648;

/// Largest force-law constant a configuration may choose.
pub const K_LIMIT: i64 = 1073741824;

/// Largest collision radius a configuration may choose.
pub const RADIUS_LIMIT: i64 = 1048576;

/// A single pairwise force component or magnitude is clamped to this bound.
pub const FORCE_LIMIT: i64 = 1125899906842624;

/// Net forces, potentials and per-tick position/velocity adjustments are
/// clamped to this bound when summed.
pub const ACCUM_LIMIT: i64 = 72057594037927936;

/// Acceleration components are clamped to this bound.
pub const ACC_LIMIT: i64 = 1099511627776;

/// Largest frame duration a tick accepts (eight seconds).
pub const DT_LIMIT: i64 = 8192;

/// Truncating division (toward zero), the semantics of Rust's `/` on
/// signed integers, lifted to mathematical integers. Meaningful for `b > 0`.
pub open spec fn tdiv(a: int, b: int) -> int {
    if a >= 0 {
        a / b
    } else {
        -((-a) / b)
    }
}

/// Clamp `x` into the symmetric interval `[-lim, lim]`.
pub open spec fn clip(x: int, lim: int) -> int {
    if x > lim {
        lim
    } else if x < -lim {
        -lim
    } else {
        x
    }
}

/// `r` is the integer square root of `n`: the largest integer whose square
/// does not exceed `n`.
pub open spec fn is_sqrt(n: int, r: int) -> bool {
    &&& r >= 0
    &&& r * r <= n
    &&& n < (r + 1) * (r + 1)
}

/// The integer square root of `n`, for `n >= 0`; pinned down by
/// `lemma_sqrt_floor_exists` and `lemma_sqrt_unique`.
pub open spec fn sqrt_floor(n: int) -> int {
    choose|r: int| is_sqrt(n, r)
}

/// Squaring is monotone on the nonnegative integers.
pub proof fn lemma_sq_le(a: int, b: int)
    requires
        0 <= a <= b,
    ensures
        a * a <= b * b,
{
    assert(a * a <= b * b) by (nonlinear_arith)
        requires
            0 <= a <= b,
    ;
}

/// Strict square comparison bounds the base: `x*x < y*y` forces `|x| < y`.
pub proof fn lemma_sq_lt_base(x: int, y: int)
    requires
        y >= 0,
        x * x < y * y,
    ensures
        -y < x < y,
{
    assert(-y < x < y) by (nonlinear_arith)
        requires
            y >= 0,
            x * x < y * y,
    ;
}

/// Every nonnegative integer has an integer square root.
pub proof fn lemma_sqrt_floor_exists(n: int)
    requires
        n >= 0,
    ensures
        is_sqrt(n, sqrt_floor(n)),
    decreases n,
{
    if n == 0 {
        assert(is_sqrt(0, 0));
    } else {
        lemma_sqrt_floor_exists(n - 1);
        let r = sqrt_floor(n - 1);
        if n < (r + 1) * (r + 1) {
            assert(is_sqrt(n, r));
        } else {
            assert(n == (r + 1) * (r + 1));
            assert((r + 1 + 1) * (r + 1 + 1) > n) by (nonlinear_arith)
                requires
                    r >= 0,
                    n == (r + 1) * (r + 1),
            ;
            assert(is_sqrt(n, r + 1));
        }
    }
}

/// The integer square root is unique.
pub proof fn lemma_sqrt_unique(n: int, r1: int, r2: int)
    requires
        is_sqrt(n, r1),
        is_sqrt(n, r2),
    ensures
        r1 == r2,
{
    if r1 < r2 {
        lemma_sq_le(r1 + 1, r2);
        assert(false);
    }
    if r2 < r1 {
        lemma_sq_le(r2 + 1, r1);
        assert(false);
    }
}

/// A component is never longer than the whole vector: if `x*x <= n` then
/// `|x|` is at most the integer square root of `n`.
pub proof fn lemma_sqrt_dominates_component(n: int, r: int, x: int)
    requires
        is_sqrt(n, r),
        x * x <= n,
    ensures
        -r <= x <= r,
{
    lemma_sq_lt_base(x, r + 1);
}

/// Dividing zero gives zero.
pub proof fn lemma_tdiv_zero(b: int)
    requires
        b >= 1,
    ensures
        tdiv(0, b) == 0,
{
    lemma_div_of0(b);
}

/// Truncating division commutes with negation of the dividend.
pub proof fn lemma_tdiv_neg(a: int, b: int)
    requires
        b >= 1,
    ensures
        tdiv(-a, b) == -tdiv(a, b),
{
    if a == 0 {
        lemma_div_of0(b);
    }
}

/// Truncating division keeps the sign of the dividend.
pub proof fn lemma_tdiv_sign(a: int, b: int)
    requires
        b >= 1,
    ensures
        a >= 0 ==> tdiv(a, b) >= 0,
        a <= 0 ==> tdiv(a, b) <= 0,
        a == 0 ==> tdiv(a, b) == 0,
{
    lemma_div_of0(b);
    if a > 0 {
        lemma_div_pos_is_pos(a, b);
    } else if a < 0 {
        lemma_div_pos_is_pos(-a, b);
    }
}

/// If `|a| <= c * b` then `|tdiv(a, b)| <= c`.
pub proof fn lemma_tdiv_bound(a: int, b: int, c: int)
    requires
        b >= 1,
        c >= 0,
        -c * b <= a <= c * b,
    ensures
        -c <= tdiv(a, b) <= c,
{
    lemma_div_multiples_vanish(c, b);
    assert(c * b >= 0 && (-c) * b == -(c * b)) by (nonlinear_arith)
        requires
            c >= 0,
            b >= 1,
    ;
    if a >= 0 {
        lemma_div_is_ordered(a, c * b, b);
        lemma_div_pos_is_pos(a, b);
    } else {
        lemma_div_is_ordered(-a, c * b, b);
        lemma_div_pos_is_pos(-a, b);
    }
}

/// Truncating division never grows a nonnegative dividend, and is monotone
/// in the dividend on nonnegative inputs.
pub proof fn lemma_tdiv_ordered(a1: int, a2: int, b: int)
    requires
        b >= 1,
        0 <= a1 <= a2,
    ensures
        0 <= tdiv(a1, b) <= tdiv(a2, b) <= a2,
{
    lemma_div_is_ordered(a1, a2, b);
    lemma_div_pos_is_pos(a1, b);
    lemma_div_of0(b);
    if a1 > 0 {
        lemma_div_pos_is_pos(a1, b);
    }
    lemma_div_nonincreasing(a2, b);
}

/// A product is bounded by the product of the bounds.
pub proof fn lemma_mul_abs_bound(x: int, y: int, bx: int, by: int)
    requires
        bx >= 0,
        by >= 0,
        -bx <= x <= bx,
        -by <= y <= by,
    ensures
        -(bx * by) <= x * y <= bx * by,
{
    assert(-(bx * by) <= x * y <= bx * by) by (nonlinear_arith)
        requires
            bx >= 0,
            by >= 0,
            -bx <= x <= bx,
            -by <= y <= by,
    ;
}

/// Truncating division on `i64`, proved to match `tdiv`.
pub fn tdiv_i64(a: i64, b: i64) -> (r: i64)
    requires
        b >= 1,
    ensures
        r == tdiv(a as int, b as int),
{
    a / b
}

/// Truncating division on `i128`, proved to match `tdiv`.
pub fn tdiv_i128(a: i128, b: i128) -> (r: i128)
    requires
        b >= 1,
    ensures
        r == tdiv(a as int, b as int),
{
    a / b
}

/// Clamp a wide intermediate into `[-lim, lim]`, landing in `i64`.
pub fn clip_i128(x: i128, lim: i64) -> (r: i64)
    requires
        0 <= lim,
    ensures
        r == clip(x as int, lim as int),
{
    if x > lim as i128 {
        lim
    } else if x < -(lim as i128) {
        -lim
    } else {
        x as i64
    }
}

/// Integer square root by binary search over the answer.
pub fn isqrt_u128(n: u128) -> (r: u64)
    requires
        (n as int) < 0x40000000000000000000000000000000,
    ensures
        is_sqrt(n as int, r as int),
        r as int == sqrt_floor(n as int),
{
    let mut lo: u64 = 0;
    let mut hi: u64 = 0x8000000000000000;
    assert((n as int) < (hi as int + 1) * (hi as int + 1)) by (nonlinear_arith)
        requires
            (n as int) < 0x40000000000000000000000000000000,
            hi == 0x8000000000000000u64,
    ;
    while lo < hi
        invariant
            lo <= hi <= 0x8000000000000000,
            (lo as int) * (lo as int) <= n as int,
            (n as int) < (hi as int + 1) * (hi as int + 1),
        decreases hi - lo,
    {
        let mid = lo + (hi - lo + 1) / 2;
        assert(lo < mid <= hi);
        assert((mid as u128) * (mid as u128) <= 0x40000000000000000000000000000000) by (nonlinear_arith)
            requires
                0 < mid <= 0x8000000000000000u64,
        ;
        let sq = (mid as u128) * (mid as u128);
        if sq <= n {
            lo = mid;
        } else {
            hi = mid - 1;
        }
    }
    proof {
        lemma_sqrt_floor_exists(n as int);
        lemma_sqrt_unique(n as int, lo as int, sqrt_floor(n as int));
    }
    lo
}

} // verus!
