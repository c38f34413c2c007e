//! Point charges: the simulated bodies, their force law, their motion, and
//! their pairwise collision response.
//!
//! Every executable function is specified against `ChargeM`, the
//! mathematical model of a charge (unbounded integers), so callers reason
//! about exact values rather than about the fixed-point encoding.

use crate::config::SimConfig;
use crate::fixed::{
    clip, clip_i128, is_sqrt, isqrt_u128, lemma_mul_abs_bound, lemma_sqrt_dominates_component,
    lemma_sqrt_floor_exists, lemma_sqrt_unique, lemma_tdiv_bound, lemma_tdiv_neg,
    lemma_tdiv_ordered, lemma_tdiv_sign, lemma_tdiv_zero, sqrt_floor, tdiv, tdiv_i128, tdiv_i64,
    ACCUM_LIMIT, ACC_LIMIT, CHARGE_LIMIT, DT_LIMIT, FORCE_LIMIT, K_LIMIT, MASS_LIMIT, POS_LIMIT,
    RADIUS_LIMIT, SCALE, VEL_LIMIT,
};
use crate::geometry::{
    lemma_norm_bound, lemma_norm_props, lemma_sq_sum_nonneg, v2_in_bounds, v2_norm, v2_zero, Vec2,
    V2,
};
use vstd::prelude::*;

verus! {

/// Polarity of a charge.
#[derive(Clone, Copy, PartialEq, Eq, Structural, Debug)]
pub enum Sign {
    Neutral,
    Positive,
    Negative,
}

/// The stored charge quantity must agree with the declared polarity.
pub open spec fn sign_matches(s: Sign, q: int) -> bool {
    match s {
        Sign::Positive => q > 0,
        Sign::Negative => q < 0,
        Sign::Neutral => q == 0,
    }
}

/// Exactly one of the two charges is positive and the other negative.
pub open spec fn opposite_signs(a: Sign, b: Sign) -> bool {
    ||| (a == Sign::Positive && b == Sign::Negative)
    ||| (a == Sign::Negative && b == Sign::Positive)
}

impl Sign {
    /// The one-character label the display layer prints for this polarity.
    pub fn symbol(&self) -> (s: &'static str)
        ensures
            *self == Sign::Positive ==> s@ == "+"@,
            *self == Sign::Negative ==> s@ == "-"@,
            *self == Sign::Neutral ==> s@ == "/"@,
    {
        match self {
            Sign::Positive => "+",
            Sign::Negative => "-",
            Sign::Neutral => "/",
        }
    }
}

/// Mathematical model of a point charge.
pub ghost struct ChargeM {
    pub id: int,
    pub center: V2,
    pub sign: Sign,
    pub is_fixed: bool,
    pub is_colliding: bool,
    pub m: int,
    pub q: int,
    pub radius: int,
    pub forces: Seq<V2>,
    pub net_force: V2,
    pub max_force_magnitude: int,
    pub acceleration: V2,
    pub velocity: V2,
}

impl ChargeM {
    /// Well-formedness: every field lies in the range the arithmetic of the
    /// crate is proved safe for, the polarity agrees with the charge
    /// quantity, and a fixed body is at rest.
    pub open spec fn wf(self) -> bool {
        &&& v2_in_bounds(self.center, POS_LIMIT as int)
        &&& v2_in_bounds(self.velocity, VEL_LIMIT as int)
        &&& -(CHARGE_LIMIT as int) <= self.q <= CHARGE_LIMIT as int
        &&& 1 <= self.m <= MASS_LIMIT as int
        &&& 1 <= self.radius <= RADIUS_LIMIT as int
        &&& sign_matches(self.sign, self.q)
        &&& (self.is_fixed ==> self.velocity == v2_zero())
        &&& (forall|i: int|
            0 <= i < self.forces.len() ==> v2_in_bounds(
                #[trigger] self.forces[i],
                FORCE_LIMIT as int,
            ))
        &&& v2_in_bounds(self.net_force, ACCUM_LIMIT as int)
        &&& v2_in_bounds(self.acceleration, ACC_LIMIT as int)
        &&& 0 <= self.max_force_magnitude <= 2 * (ACCUM_LIMIT as int)
    }
}

/// A simulated point body carrying a signed charge quantity.
#[derive(Debug)]
pub struct PointCharge {
    pub id: usize,
    pub center: Vec2,
    pub sign: Sign,
    pub is_fixed: bool,
    pub is_colliding: bool,
    pub m: i64,
    pub q: i64,
    pub radius: i64,
    pub forces: Vec<Vec2>,
    pub net_force: Vec2,
    pub max_force_magnitude: i64,
    pub acceleration: Vec2,
    pub velocity: Vec2,
}

impl View for PointCharge {
    type V = ChargeM;

    open spec fn view(&self) -> ChargeM {
        ChargeM {
            id: self.id as int,
            center: self.center@,
            sign: self.sign,
            is_fixed: self.is_fixed,
            is_colliding: self.is_colliding,
            m: self.m as int,
            q: self.q as int,
            radius: self.radius as int,
            forces: self.forces@.map_values(|f: Vec2| f@),
            net_force: self.net_force@,
            max_force_magnitude: self.max_force_magnitude as int,
            acceleration: self.acceleration@,
            velocity: self.velocity@,
        }
    }
}

/// The models of a sequence of charges.
pub open spec fn models(s: Seq<PointCharge>) -> Seq<ChargeM> {
    s.map_values(|c: PointCharge| c@)
}

/// A freshly created charge: at rest, no accumulated forces, not colliding.
pub open spec fn new_charge_model(
    id: int,
    center: V2,
    sign: Sign,
    q: int,
    m: int,
    radius: int,
    is_fixed: bool,
) -> ChargeM {
    ChargeM {
        id,
        center,
        sign,
        is_fixed,
        is_colliding: false,
        m,
        q,
        radius,
        forces: Seq::empty(),
        net_force: v2_zero(),
        max_force_magnitude: 0,
        acceleration: v2_zero(),
        velocity: v2_zero(),
    }
}

/// Squared distance between two points.
pub open spec fn dist2(a: V2, b: V2) -> int {
    (a.x - b.x) * (a.x - b.x) + (a.y - b.y) * (a.y - b.y)
}

/// Squared distance, clamped away from zero so that coincident centers
/// never divide by zero (the singular-distance guard).
pub open spec fn dist2_clamped(a: V2, b: V2) -> int {
    if dist2(a, b) < 1 {
        1
    } else {
        dist2(a, b)
    }
}

/// Magnitude of the pairwise force: `k * qa * qb / d2`, truncated and
/// clamped into `[-FORCE_LIMIT, FORCE_LIMIT]`. Positive for like signs
/// (repulsion), negative for opposite signs (attraction).
pub open spec fn force_mag(k: int, qa: int, qb: int, d2: int) -> int {
    clip(tdiv(k * qa * qb, d2), FORCE_LIMIT as int)
}

/// The force exerted on the charge at `pa` (with quantity `qa`) by the
/// charge at `pb` (with quantity `qb`): the magnitude directed along the
/// separation vector from `pb` to `pa`.
pub open spec fn force_on(k: int, qa: int, qb: int, pa: V2, pb: V2) -> V2 {
    let d2 = dist2_clamped(pa, pb);
    let d = sqrt_floor(d2);
    let m = force_mag(k, qa, qb, d2);
    V2 { x: tdiv(m * (pa.x - pb.x), d), y: tdiv(m * (pa.y - pb.y), d) }
}

/// Facts the force computation relies on: the clamped squared distance is
/// positive, its square root is at least one, and the root dominates each
/// component of the separation vector.
pub proof fn lemma_force_geometry(pa: V2, pb: V2)
    ensures
        dist2_clamped(pa, pb) >= 1,
        dist2(pa, pb) >= 0,
        is_sqrt(dist2_clamped(pa, pb), sqrt_floor(dist2_clamped(pa, pb))),
        sqrt_floor(dist2_clamped(pa, pb)) >= 1,
        -sqrt_floor(dist2_clamped(pa, pb)) <= pa.x - pb.x <= sqrt_floor(dist2_clamped(pa, pb)),
        -sqrt_floor(dist2_clamped(pa, pb)) <= pa.y - pb.y <= sqrt_floor(dist2_clamped(pa, pb)),
{
    lemma_sq_sum_nonneg(pa.x - pb.x, pa.y - pb.y);
    let d2 = dist2_clamped(pa, pb);
    lemma_sqrt_floor_exists(d2);
    let d = sqrt_floor(d2);
    assert(d >= 1) by (nonlinear_arith)
        requires
            is_sqrt(d2, d),
            d2 >= 1,
    ;
    assert((pa.x - pb.x) * (pa.x - pb.x) <= d2);
    assert((pa.y - pb.y) * (pa.y - pb.y) <= d2);
    lemma_sqrt_dominates_component(d2, d, pa.x - pb.x);
    lemma_sqrt_dominates_component(d2, d, pa.y - pb.y);
}

/// The computed force is bounded by `FORCE_LIMIT` in each component.
pub proof fn lemma_force_on_bounds(k: int, qa: int, qb: int, pa: V2, pb: V2)
    ensures
        v2_in_bounds(force_on(k, qa, qb, pa, pb), FORCE_LIMIT as int),
{
    lemma_force_geometry(pa, pb);
    let d2 = dist2_clamped(pa, pb);
    let d = sqrt_floor(d2);
    let m = force_mag(k, qa, qb, d2);
    let fl = FORCE_LIMIT as int;
    assert(-fl <= m <= fl);
    let dx = pa.x - pb.x;
    let dy = pa.y - pb.y;
    assert(-fl * d <= m * dx <= fl * d && -fl * d <= m * dy <= fl * d) by (nonlinear_arith)
        requires
            -fl <= m <= fl,
            -d <= dx <= d,
            -d <= dy <= d,
            d >= 1,
            fl >= 0,
    ;
    lemma_tdiv_bound(m * dx, d, fl);
    lemma_tdiv_bound(m * dy, d, fl);
}

/// Compute the pairwise force exactly as `force_on` describes.
pub fn force_components(pa: Vec2, pb: Vec2, k: i64, qa: i64, qb: i64) -> (f: Vec2)
    requires
        v2_in_bounds(pa@, POS_LIMIT as int),
        v2_in_bounds(pb@, POS_LIMIT as int),
        1 <= k <= K_LIMIT,
        -CHARGE_LIMIT <= qa <= CHARGE_LIMIT,
        -CHARGE_LIMIT <= qb <= CHARGE_LIMIT,
    ensures
        f@ == force_on(k as int, qa as int, qb as int, pa@, pb@),
        v2_in_bounds(f@, FORCE_LIMIT as int),
{
    proof {
        lemma_force_geometry(pa@, pb@);
    }
    let dx = pa.x - pb.x;
    let dy = pa.y - pb.y;
    proof {
        assert((dx as int) * (dx as int) <= 0x10000000000000000
            && (dy as int) * (dy as int) <= 0x10000000000000000) by (nonlinear_arith)
            requires
                -0x100000000 <= dx as int <= 0x100000000,
                -0x100000000 <= dy as int <= 0x100000000,
        ;
        lemma_sq_sum_nonneg(dx as int, dy as int);
    }
    let d2_raw: i128 = (dx as i128) * (dx as i128) + (dy as i128) * (dy as i128);
    let d2c: i128 = if d2_raw < 1 {
        1
    } else {
        d2_raw
    };
    assert(d2c as int == dist2_clamped(pa@, pb@));
    let d_u = isqrt_u128(d2c as u128);
    proof {
        lemma_sqrt_unique(d2c as int, d_u as int, sqrt_floor(dist2_clamped(pa@, pb@)));
        let d = d_u as int;
        assert(d <= 0x200000000) by (nonlinear_arith)
            requires
                is_sqrt(d2c as int, d),
                d2c as int <= 0x20000000000000001,
        ;
    }
    let d: i64 = d_u as i64;
    proof {
        assert(-0x4000000000000 <= (k as int) * (qa as int) <= 0x4000000000000)
            by (nonlinear_arith)
            requires
                1 <= k as int <= K_LIMIT as int,
                -(CHARGE_LIMIT as int) <= qa as int <= CHARGE_LIMIT as int,
        ;
        assert((k as int) * (qa as int) * (qb as int) <= 0x400000000000000000
            && (k as int) * (qa as int) * (qb as int) >= -0x400000000000000000)
            by (nonlinear_arith)
            requires
                -0x4000000000000 <= (k as int) * (qa as int) <= 0x4000000000000,
                -(CHARGE_LIMIT as int) <= qb as int <= CHARGE_LIMIT as int,
        ;
    }
    let raw: i128 = (k as i128) * (qa as i128) * (qb as i128);
    let mag128 = tdiv_i128(raw, d2c);
    let mag = clip_i128(mag128, FORCE_LIMIT);
    proof {
        let fl = FORCE_LIMIT as int;
        assert(-fl * (d as int) <= (mag as int) * (dx as int) <= fl * (d as int)
            && -fl * (d as int) <= (mag as int) * (dy as int) <= fl * (d as int))
            by (nonlinear_arith)
            requires
                -fl <= mag as int <= fl,
                -(d as int) <= dx as int <= d as int,
                -(d as int) <= dy as int <= d as int,
                d as int >= 1,
                fl >= 0,
        ;
        lemma_tdiv_bound((mag as int) * (dx as int), d as int, fl);
        lemma_tdiv_bound((mag as int) * (dy as int), d as int, fl);
    }
    let fx = tdiv_i128((mag as i128) * (dx as i128), d as i128) as i64;
    let fy = tdiv_i128((mag as i128) * (dy as i128), d as i128) as i64;
    Vec2 { x: fx, y: fy }
}

/// Scaling a weight `w` dominated by `n` keeps the quotient under `s`.
pub proof fn lemma_dir_scale_bound(s: int, w: int, n: int)
    requires
        s >= 0,
        n >= 1,
        -n <= w <= n,
    ensures
        -s <= tdiv(s * w, n) <= s,
{
    assert(-s * n <= s * w <= s * n) by (nonlinear_arith)
        requires
            s >= 0,
            -n <= w <= n,
            n >= 1,
    ;
    lemma_tdiv_bound(s * w, n, s);
}

/// Componentwise sums of a force list.
pub open spec fn sum_x(fs: Seq<V2>) -> int
    decreases fs.len(),
{
    if fs.len() == 0 {
        0
    } else {
        sum_x(fs.drop_last()) + fs.last().x
    }
}

/// Componentwise sums of a force list.
pub open spec fn sum_y(fs: Seq<V2>) -> int
    decreases fs.len(),
{
    if fs.len() == 0 {
        0
    } else {
        sum_y(fs.drop_last()) + fs.last().y
    }
}

/// Net force: the componentwise sum of the accumulated forces, clamped.
pub open spec fn net_from(fs: Seq<V2>) -> V2 {
    V2 { x: clip(sum_x(fs), ACCUM_LIMIT as int), y: clip(sum_y(fs), ACCUM_LIMIT as int) }
}

/// The larger of two integers.
pub open spec fn spec_max(a: int, b: int) -> int {
    if a >= b {
        a
    } else {
        b
    }
}

/// The largest norm among the accumulated forces (zero when there are none).
pub open spec fn max_norm(fs: Seq<V2>) -> int
    decreases fs.len(),
{
    if fs.len() == 0 {
        0
    } else {
        spec_max(max_norm(fs.drop_last()), v2_norm(fs.last()))
    }
}

/// Acceleration: net force over mass, componentwise, clamped; zero for a
/// fixed body.
pub open spec fn accel_of(c: ChargeM) -> V2 {
    if c.is_fixed {
        v2_zero()
    } else {
        V2 {
            x: clip(tdiv(c.net_force.x * SCALE, c.m), ACC_LIMIT as int),
            y: clip(tdiv(c.net_force.y * SCALE, c.m), ACC_LIMIT as int),
        }
    }
}

/// The new velocity of a charge: the new speed is the acceleration's
/// magnitude plus the damped previous speed; it snaps to zero at or below
/// the rest threshold or while colliding; its direction is the net force's
/// direction, or the previous velocity's direction when there is no net
/// force. A fixed body is always at rest.
pub open spec fn velocity_of(c: ChargeM, cfg: SimConfig) -> V2 {
    if c.is_fixed {
        v2_zero()
    } else {
        let amag = v2_norm(c.acceleration);
        let sp = v2_norm(c.velocity);
        let raw = amag + tdiv(sp * cfg.friction, SCALE as int);
        let ns = if raw > VEL_LIMIT as int {
            VEL_LIMIT as int
        } else {
            raw
        };
        if ns <= cfg.rest_epsilon || c.is_colliding {
            v2_zero()
        } else if c.net_force != v2_zero() {
            let nf = v2_norm(c.net_force);
            V2 { x: tdiv(ns * c.net_force.x, nf), y: tdiv(ns * c.net_force.y, nf) }
        } else if c.velocity != v2_zero() {
            V2 { x: tdiv(ns * c.velocity.x, sp), y: tdiv(ns * c.velocity.y, sp) }
        } else {
            v2_zero()
        }
    }
}

/// Where a charge's center lands after one tick: unchanged while colliding,
/// otherwise advanced by `velocity * dt` and clamped into the world bounds.
pub open spec fn moved_center(c: ChargeM, dt: int) -> V2 {
    if c.is_colliding {
        c.center
    } else {
        V2 {
            x: clip(c.center.x + tdiv(c.velocity.x * dt, SCALE as int), POS_LIMIT as int),
            y: clip(c.center.y + tdiv(c.velocity.y * dt, SCALE as int), POS_LIMIT as int),
        }
    }
}

/// One charge's contribution to the potential at `p`: `k * q / distance`,
/// with the distance guarded away from zero.
pub open spec fn pot_contrib(k: int, q: int, pa: V2, p: V2) -> int {
    tdiv(k * q, sqrt_floor(dist2_clamped(pa, p)))
}

/// Sum of the contributions of a sequence of charges.
pub open spec fn pot_sum(k: int, cs: Seq<ChargeM>, p: V2) -> int
    decreases cs.len(),
{
    if cs.len() == 0 {
        0
    } else {
        pot_sum(k, cs.drop_last(), p) + pot_contrib(k, cs.last().q, cs.last().center, p)
    }
}

/// The potential at `p`: the clamped sum over every charge.
pub open spec fn pot_total(k: int, cs: Seq<ChargeM>, p: V2) -> int {
    clip(pot_sum(k, cs, p), ACCUM_LIMIT as int)
}

/// Every charge in the sequence is well-formed.
pub open spec fn all_wf(cs: Seq<ChargeM>) -> bool {
    forall|i: int| 0 <= i < cs.len() ==> (#[trigger] cs[i]).wf()
}

/// What one evaluated collision does to the pair: whether they overlap,
/// and the position corrections and velocity impulses for each side.
pub ghost struct PairResponse {
    pub overlap: bool,
    pub da: V2,
    pub db: V2,
    pub dva: V2,
    pub dvb: V2,
}

/// A response that only reports whether the pair overlaps.
pub open spec fn no_response(overlap: bool) -> PairResponse {
    PairResponse { overlap, da: v2_zero(), db: v2_zero(), dva: v2_zero(), dvb: v2_zero() }
}

/// The collision law. Two bodies overlap when their squared distance is
/// below the square of the sum of their radii. An overlapping pair with at
/// least one movable body and distinct centers receives a positional
/// correction proportional to the overlap, split between the bodies in
/// proportion to their movable weights (a fixed body absorbs none). Two
/// movable bodies that are closing additionally exchange an inverse-mass
/// weighted impulse along the collision normal.
pub open spec fn collision_response(a: ChargeM, b: ChargeM, cfg: SimConfig) -> PairResponse {
    let d2 = dist2(a.center, b.center);
    let md = a.radius + b.radius;
    if d2 >= md * md {
        no_response(false)
    } else if (a.is_fixed && b.is_fixed) || d2 == 0 {
        no_response(true)
    } else {
        let d = sqrt_floor(d2);
        let ov = md - d;
        let nx = tdiv((a.center.x - b.center.x) * (SCALE as int), d);
        let ny = tdiv((a.center.y - b.center.y) * (SCALE as int), d);
        let sa: int = if a.is_fixed {
            0
        } else if b.is_fixed {
            SCALE as int
        } else {
            512
        };
        let sb: int = if b.is_fixed {
            0
        } else if a.is_fixed {
            SCALE as int
        } else {
            512
        };
        let corr = tdiv(ov * cfg.correction, SCALE as int);
        let ca = tdiv(corr * sa, SCALE as int);
        let cb = tdiv(corr * sb, SCALE as int);
        let da = V2 { x: tdiv(nx * ca, SCALE as int), y: tdiv(ny * ca, SCALE as int) };
        let db = V2 { x: -tdiv(nx * cb, SCALE as int), y: -tdiv(ny * cb, SCALE as int) };
        if a.is_fixed || b.is_fixed {
            PairResponse { overlap: true, da, db, dva: v2_zero(), dvb: v2_zero() }
        } else {
            let vn = tdiv(
                (a.velocity.x - b.velocity.x) * nx + (a.velocity.y - b.velocity.y) * ny,
                SCALE as int,
            );
            let inv_ma = tdiv((SCALE as int) * (SCALE as int), a.m);
            let inv_mb = tdiv((SCALE as int) * (SCALE as int), b.m);
            let den = inv_ma + inv_mb;
            if vn >= 0 || den < 1 {
                PairResponse { overlap: true, da, db, dva: v2_zero(), dvb: v2_zero() }
            } else {
                let j = tdiv(-((SCALE as int) + cfg.restitution) * vn, den);
                let dva = V2 { x: tdiv(nx * j, a.m), y: tdiv(ny * j, a.m) };
                let dvb = V2 { x: -tdiv(nx * j, b.m), y: -tdiv(ny * j, b.m) };
                PairResponse { overlap: true, da, db, dva, dvb }
            }
        }
    }
}

/// Add a delta to a vector, clamping each component.
pub open spec fn v2_add_clip(a: V2, d: V2, lim: int) -> V2 {
    V2 { x: clip(a.x + d.x, lim), y: clip(a.y + d.y, lim) }
}

/// The first body of an evaluated pair after the collision: its colliding
/// flag is exactly the overlap verdict (it is re-derived every evaluation).
pub open spec fn after_collision_a(a: ChargeM, r: PairResponse) -> ChargeM {
    ChargeM {
        is_colliding: r.overlap,
        center: v2_add_clip(a.center, r.da, POS_LIMIT as int),
        velocity: v2_add_clip(a.velocity, r.dva, VEL_LIMIT as int),
        ..a
    }
}

/// The second body of an evaluated pair after the collision: its colliding
/// flag is only ever raised, never cleared, by being the second party.
pub open spec fn after_collision_b(b: ChargeM, r: PairResponse) -> ChargeM {
    ChargeM {
        is_colliding: b.is_colliding || r.overlap,
        center: v2_add_clip(b.center, r.db, POS_LIMIT as int),
        velocity: v2_add_clip(b.velocity, r.dvb, VEL_LIMIT as int),
        ..b
    }
}

/// The response moves a fixed body by nothing: its correction share and
/// its impulse are both zero.
pub proof fn lemma_response_spares_fixed(a: ChargeM, b: ChargeM, cfg: SimConfig)
    requires
        a.wf(),
        b.wf(),
        cfg.wf(),
    ensures
        a.is_fixed ==> collision_response(a, b, cfg).da == v2_zero()
            && collision_response(a, b, cfg).dva == v2_zero(),
        b.is_fixed ==> collision_response(a, b, cfg).db == v2_zero()
            && collision_response(a, b, cfg).dvb == v2_zero(),
{
    let d2 = dist2(a.center, b.center);
    let md = a.radius + b.radius;
    lemma_sq_sum_nonneg(a.center.x - b.center.x, a.center.y - b.center.y);
    if d2 >= md * md || (a.is_fixed && b.is_fixed) || d2 == 0 {
    } else {
        let d = sqrt_floor(d2);
        lemma_collision_geometry(a, b);
        let ov = md - d;
        let corr = tdiv(ov * cfg.correction, SCALE as int);
        let nx = tdiv((a.center.x - b.center.x) * (SCALE as int), d);
        let ny = tdiv((a.center.y - b.center.y) * (SCALE as int), d);
        if a.is_fixed {
            assert(corr * 0 == 0) by (nonlinear_arith);
            lemma_tdiv_zero(SCALE as int);
            assert(nx * 0 == 0 && ny * 0 == 0) by (nonlinear_arith);
        }
        if b.is_fixed {
            assert(corr * 0 == 0) by (nonlinear_arith);
            lemma_tdiv_zero(SCALE as int);
            assert(nx * 0 == 0 && ny * 0 == 0) by (nonlinear_arith);
        }
    }
}

/// Geometric facts about an overlapping pair with distinct centers: the
/// distance root is positive, shorter than the contact distance, and
/// dominates the separation components.
pub proof fn lemma_collision_geometry(a: ChargeM, b: ChargeM)
    requires
        a.wf(),
        b.wf(),
        dist2(a.center, b.center) >= 1,
        dist2(a.center, b.center) < (a.radius + b.radius) * (a.radius + b.radius),
    ensures
        is_sqrt(dist2(a.center, b.center), sqrt_floor(dist2(a.center, b.center))),
        1 <= sqrt_floor(dist2(a.center, b.center)) < a.radius + b.radius,
        -sqrt_floor(dist2(a.center, b.center)) <= a.center.x - b.center.x <= sqrt_floor(
            dist2(a.center, b.center),
        ),
        -sqrt_floor(dist2(a.center, b.center)) <= a.center.y - b.center.y <= sqrt_floor(
            dist2(a.center, b.center),
        ),
{
    let d2 = dist2(a.center, b.center);
    let md = a.radius + b.radius;
    lemma_sqrt_floor_exists(d2);
    let d = sqrt_floor(d2);
    assert(d >= 1) by (nonlinear_arith)
        requires
            is_sqrt(d2, d),
            d2 >= 1,
    ;
    assert(d < md) by (nonlinear_arith)
        requires
            is_sqrt(d2, d),
            d2 < md * md,
            md >= 1,
    ;
    lemma_sq_sum_nonneg(a.center.x - b.center.x, a.center.y - b.center.y);
    lemma_sqrt_dominates_component(d2, d, a.center.x - b.center.x);
    lemma_sqrt_dominates_component(d2, d, a.center.y - b.center.y);
}

/// The executable collision response: what one evaluated collision would
/// do to each side of the pair.
pub struct PairDelta {
    pub overlap: bool,
    pub da: Vec2,
    pub db: Vec2,
    pub dva: Vec2,
    pub dvb: Vec2,
}

impl View for PairDelta {
    type V = PairResponse;

    open spec fn view(&self) -> PairResponse {
        PairResponse {
            overlap: self.overlap,
            da: self.da@,
            db: self.db@,
            dva: self.dva@,
            dvb: self.dvb@,
        }
    }
}

/// Add a delta to a vector, clamping each component into `[-lim, lim]`.
pub fn v2_add_clip_exec(a: Vec2, d: Vec2, lim: i64) -> (r: Vec2)
    requires
        lim >= 0,
    ensures
        r@ == v2_add_clip(a@, d@, lim as int),
{
    Vec2 {
        x: clip_i128((a.x as i128) + (d.x as i128), lim),
        y: clip_i128((a.y as i128) + (d.y as i128), lim),
    }
}

/// Evaluate the collision law for one pair without touching either body,
/// exactly as `collision_response` describes.
pub fn response_between(a: &PointCharge, b: &PointCharge, cfg: &SimConfig) -> (r: PairDelta)
    requires
        a@.wf(),
        b@.wf(),
        cfg.wf(),
    ensures
        r@ == collision_response(a@, b@, *cfg),
{
    let ghost am = a@;
    let ghost bm = b@;
    let ghost resp = collision_response(am, bm, *cfg);
    let dx = a.center.x - b.center.x;
    let dy = a.center.y - b.center.y;
    proof {
        lemma_mul_abs_bound(dx as int, dx as int, 0x100000000, 0x100000000);
        lemma_mul_abs_bound(dy as int, dy as int, 0x100000000, 0x100000000);
    }
    let d2: i128 = (dx as i128) * (dx as i128) + (dy as i128) * (dy as i128);
    let md = a.radius + b.radius;
    proof {
        lemma_mul_abs_bound(md as int, md as int, 0x200000, 0x200000);
        lemma_sq_sum_nonneg(dx as int, dy as int);
    }
    if d2 >= (md as i128) * (md as i128) {
        return PairDelta {
            overlap: false,
            da: Vec2::zero(),
            db: Vec2::zero(),
            dva: Vec2::zero(),
            dvb: Vec2::zero(),
        };
    }
    if (a.is_fixed && b.is_fixed) || d2 == 0 {
        return PairDelta {
            overlap: true,
            da: Vec2::zero(),
            db: Vec2::zero(),
            dva: Vec2::zero(),
            dvb: Vec2::zero(),
        };
    }
    proof {
        lemma_collision_geometry(am, bm);
    }
    let d_u = isqrt_u128(d2 as u128);
    proof {
        lemma_sqrt_unique(d2 as int, d_u as int, sqrt_floor(dist2(am.center, bm.center)));
    }
    let d = d_u as i64;
    let ov = md - d;
    proof {
        lemma_dir_scale_bound(SCALE as int, dx as int, d as int);
        lemma_dir_scale_bound(SCALE as int, dy as int, d as int);
        assert((dx as int) * (SCALE as int) == (SCALE as int) * (dx as int) && (dy as int) * (
        SCALE as int) == (SCALE as int) * (dy as int)) by (nonlinear_arith);
    }
    let nx = tdiv_i64(dx * SCALE, d);
    let ny = tdiv_i64(dy * SCALE, d);
    let sa: i64 = if a.is_fixed {
        0
    } else if b.is_fixed {
        SCALE
    } else {
        512
    };
    let sb: i64 = if b.is_fixed {
        0
    } else if a.is_fixed {
        SCALE
    } else {
        512
    };
    proof {
        lemma_mul_abs_bound(ov as int, cfg.correction as int, 0x200000, 4096);
        lemma_tdiv_bound(ov * cfg.correction, SCALE as int, 0x800000);
        assert(ov * cfg.correction >= 0) by (nonlinear_arith)
            requires
                ov as int >= 0,
                cfg.correction as int >= 0,
        ;
        lemma_tdiv_sign(ov * cfg.correction, SCALE as int);
    }
    let corr = tdiv_i64(ov * cfg.correction, SCALE);
    proof {
        lemma_dir_scale_bound(corr as int, sa as int, SCALE as int);
        lemma_dir_scale_bound(corr as int, sb as int, SCALE as int);
        assert((corr as int) * (sa as int) >= 0 && (corr as int) * (sb as int) >= 0)
            by (nonlinear_arith)
            requires
                corr as int >= 0,
                sa as int >= 0,
                sb as int >= 0,
        ;
        lemma_tdiv_sign(corr * sa, SCALE as int);
        lemma_tdiv_sign(corr * sb, SCALE as int);
    }
    let ca = tdiv_i64(corr * sa, SCALE);
    let cb = tdiv_i64(corr * sb, SCALE);
    proof {
        lemma_dir_scale_bound(ca as int, nx as int, SCALE as int);
        lemma_dir_scale_bound(ca as int, ny as int, SCALE as int);
        lemma_dir_scale_bound(cb as int, nx as int, SCALE as int);
        lemma_dir_scale_bound(cb as int, ny as int, SCALE as int);
        assert((nx as int) * (ca as int) == (ca as int) * (nx as int) && (ny as int) * (
        ca as int) == (ca as int) * (ny as int) && (nx as int) * (cb as int) == (cb as int) * (
        nx as int) && (ny as int) * (cb as int) == (cb as int) * (ny as int))
            by (nonlinear_arith);
    }
    let dax = tdiv_i64(nx * ca, SCALE);
    let day = tdiv_i64(ny * ca, SCALE);
    let dbx = tdiv_i64(nx * cb, SCALE);
    let dby = tdiv_i64(ny * cb, SCALE);
    let da = Vec2 { x: dax, y: day };
    let db = Vec2 { x: -dbx, y: -dby };
    if a.is_fixed || b.is_fixed {
        return PairDelta { overlap: true, da, db, dva: Vec2::zero(), dvb: Vec2::zero() };
    }
    let rvx = a.velocity.x - b.velocity.x;
    let rvy = a.velocity.y - b.velocity.y;
    proof {
        lemma_mul_abs_bound(rvx as int, nx as int, 0x100000000, SCALE as int);
        lemma_mul_abs_bound(rvy as int, ny as int, 0x100000000, SCALE as int);
        lemma_tdiv_bound(rvx * nx + rvy * ny, SCALE as int, 0x200000000);
    }
    let vn = tdiv_i64(rvx * nx + rvy * ny, SCALE);
    if vn >= 0 {
        return PairDelta { overlap: true, da, db, dva: Vec2::zero(), dvb: Vec2::zero() };
    }
    proof {
        lemma_tdiv_ordered(0, (SCALE as int) * (SCALE as int), am.m);
        lemma_tdiv_ordered(0, (SCALE as int) * (SCALE as int), bm.m);
    }
    let inv_ma = tdiv_i64(SCALE * SCALE, a.m);
    let inv_mb = tdiv_i64(SCALE * SCALE, b.m);
    let den = inv_ma + inv_mb;
    if den < 1 {
        return PairDelta { overlap: true, da, db, dva: Vec2::zero(), dvb: Vec2::zero() };
    }
    proof {
        lemma_mul_abs_bound((SCALE + cfg.restitution) as int, vn as int, 2048, 0x200000000);
        assert((-((SCALE + cfg.restitution) as int)) * (vn as int) == -(((SCALE
            + cfg.restitution) as int) * (vn as int))) by (nonlinear_arith);
        assert(-(0x100000000000 * (den as int)) <= (-((SCALE + cfg.restitution) as int)) * (
        vn as int) <= 0x100000000000 * (den as int)) by (nonlinear_arith)
            requires
                den as int >= 1,
                -0x100000000000 <= (-((SCALE + cfg.restitution) as int)) * (vn as int)
                    <= 0x100000000000,
        ;
        lemma_tdiv_bound(
            (-((SCALE + cfg.restitution) as int)) * (vn as int),
            den as int,
            0x100000000000,
        );
    }
    let j = tdiv_i64(-(SCALE + cfg.restitution) * vn, den);
    proof {
        lemma_mul_abs_bound(nx as int, j as int, SCALE as int, 0x100000000000);
        lemma_mul_abs_bound(ny as int, j as int, SCALE as int, 0x100000000000);
        assert(-(0x40000000000000 * am.m) <= (nx as int) * (j as int) <= (0x40000000000000 * am.m)
            && -(0x40000000000000 * am.m) <= (ny as int) * (j as int) <= (0x40000000000000
            * am.m)) by (nonlinear_arith)
            requires
                am.m >= 1,
                -0x40000000000000 <= (nx as int) * (j as int) <= 0x40000000000000,
                -0x40000000000000 <= (ny as int) * (j as int) <= 0x40000000000000,
        ;
        assert(-(0x40000000000000 * bm.m) <= (nx as int) * (j as int) <= (0x40000000000000 * bm.m)
            && -(0x40000000000000 * bm.m) <= (ny as int) * (j as int) <= (0x40000000000000
            * bm.m)) by (nonlinear_arith)
            requires
                bm.m >= 1,
                -0x40000000000000 <= (nx as int) * (j as int) <= 0x40000000000000,
                -0x40000000000000 <= (ny as int) * (j as int) <= 0x40000000000000,
        ;
        lemma_tdiv_bound((nx as int) * (j as int), am.m, 0x40000000000000);
        lemma_tdiv_bound((ny as int) * (j as int), am.m, 0x40000000000000);
        lemma_tdiv_bound((nx as int) * (j as int), bm.m, 0x40000000000000);
        lemma_tdiv_bound((ny as int) * (j as int), bm.m, 0x40000000000000);
    }
    let dvax = tdiv_i128((nx as i128) * (j as i128), a.m as i128) as i64;
    let dvay = tdiv_i128((ny as i128) * (j as i128), a.m as i128) as i64;
    let dvbx = tdiv_i128((nx as i128) * (j as i128), b.m as i128) as i64;
    let dvby = tdiv_i128((ny as i128) * (j as i128), b.m as i128) as i64;
    PairDelta {
        overlap: true,
        da,
        db,
        dva: Vec2 { x: dvax, y: dvay },
        dvb: Vec2 { x: -dvbx, y: -dvby },
    }
}

impl PointCharge {
    /// Place a new positive charge at `center`.
    pub fn new_positive_charge(id: usize, center: Vec2, is_fixed: bool, cfg: &SimConfig) -> (c:
        Self)
        requires
            cfg.wf(),
            v2_in_bounds(center@, POS_LIMIT as int),
        ensures
            c@ == new_charge_model(
                id as int,
                center@,
                Sign::Positive,
                cfg.default_charge as int,
                cfg.default_mass as int,
                cfg.default_radius as int,
                is_fixed,
            ),
            c@.wf(),
    {
        let c = PointCharge {
            id,
            center,
            sign: Sign::Positive,
            is_fixed,
            is_colliding: false,
            m: cfg.default_mass,
            q: cfg.default_charge,
            radius: cfg.default_radius,
            forces: Vec::new(),
            net_force: Vec2::zero(),
            max_force_magnitude: 0,
            acceleration: Vec2::zero(),
            velocity: Vec2::zero(),
        };
        proof {
            assert(c@.forces =~= Seq::<V2>::empty());
        }
        c
    }

    /// Place a new negative charge at `center`.
    pub fn new_negative_charge(id: usize, center: Vec2, is_fixed: bool, cfg: &SimConfig) -> (c:
        Self)
        requires
            cfg.wf(),
            v2_in_bounds(center@, POS_LIMIT as int),
        ensures
            c@ == new_charge_model(
                id as int,
                center@,
                Sign::Negative,
                -cfg.default_charge as int,
                cfg.default_mass as int,
                cfg.default_radius as int,
                is_fixed,
            ),
            c@.wf(),
    {
        let c = PointCharge {
            id,
            center,
            sign: Sign::Negative,
            is_fixed,
            is_colliding: false,
            m: cfg.default_mass,
            q: -cfg.default_charge,
            radius: cfg.default_radius,
            forces: Vec::new(),
            net_force: Vec2::zero(),
            max_force_magnitude: 0,
            acceleration: Vec2::zero(),
            velocity: Vec2::zero(),
        };
        proof {
            assert(c@.forces =~= Seq::<V2>::empty());
        }
        c
    }

    /// The neutral charge produced when two opposite charges annihilate:
    /// zero quantity, the configured merged mass, at rest until the caller
    /// installs the momentum-conserving velocity.
    pub fn new_neutral_charge_from_merge(id: usize, center: Vec2, is_fixed: bool, cfg: &SimConfig)
        -> (c: Self)
        requires
            cfg.wf(),
            v2_in_bounds(center@, POS_LIMIT as int),
        ensures
            c@ == new_charge_model(
                id as int,
                center@,
                Sign::Neutral,
                0,
                cfg.merged_mass as int,
                cfg.default_radius as int,
                is_fixed,
            ),
            c@.wf(),
    {
        let c = PointCharge {
            id,
            center,
            sign: Sign::Neutral,
            is_fixed,
            is_colliding: false,
            m: cfg.merged_mass,
            q: 0,
            radius: cfg.default_radius,
            forces: Vec::new(),
            net_force: Vec2::zero(),
            max_force_magnitude: 0,
            acceleration: Vec2::zero(),
            velocity: Vec2::zero(),
        };
        proof {
            assert(c@.forces =~= Seq::<V2>::empty());
        }
        c
    }

    /// Accumulate the force this charge receives from `point_charge` and
    /// return it.
    pub fn force_with(&mut self, point_charge: &PointCharge, cfg: &SimConfig) -> (f: Vec2)
        requires
            old(self)@.wf(),
            point_charge@.wf(),
            cfg.wf(),
        ensures
            f@ == force_on(
                cfg.k_force as int,
                old(self)@.q,
                point_charge@.q,
                old(self)@.center,
                point_charge@.center,
            ),
            final(self)@ == (ChargeM { forces: old(self)@.forces.push(f@), ..old(self)@ }),
            final(self)@.wf(),
    {
        let f = force_components(self.center, point_charge.center, cfg.k_force, self.q,
            point_charge.q);
        self.forces.push(f);
        proof {
            assert(self@.forces =~= old(self)@.forces.push(f@));
        }
        f
    }

    /// Reduce the accumulated forces to the stored net force.
    pub fn calculate_net_force(&mut self)
        requires
            old(self)@.wf(),
        ensures
            final(self)@ == (ChargeM { net_force: net_from(old(self)@.forces), ..old(self)@ }),
            final(self)@.wf(),
    {
        let ghost fs = self@.forces;
        let n = self.forces.len();
        let mut ax: i128 = 0;
        let mut ay: i128 = 0;
        let mut i: usize = 0;
        while i < n
            invariant
                old(self)@.wf(),
                *self == *old(self),
                fs == self@.forces,
                n == self.forces.len(),
                0 <= i <= n,
                ax == sum_x(fs.take(i as int)),
                ay == sum_y(fs.take(i as int)),
                -(i as int) * (FORCE_LIMIT as int) <= ax <= (i as int) * (FORCE_LIMIT as int),
                -(i as int) * (FORCE_LIMIT as int) <= ay <= (i as int) * (FORCE_LIMIT as int),
            decreases n - i,
        {
            let f = self.forces[i];
            proof {
                assert(fs[i as int] == f@);
                assert(fs.take(i + 1).drop_last() =~= fs.take(i as int));
                assert(fs.take(i + 1).last() == fs[i as int]);
            }
            ax = ax + f.x as i128;
            ay = ay + f.y as i128;
            i = i + 1;
        }
        proof {
            assert(fs.take(n as int) =~= fs);
        }
        self.net_force = Vec2 { x: clip_i128(ax, ACCUM_LIMIT), y: clip_i128(ay, ACCUM_LIMIT) };
    }

    /// Record the largest force magnitude seen this tick (display scaling
    /// only; not part of the physics).
    pub fn calculate_max_force(&mut self)
        requires
            old(self)@.wf(),
        ensures
            final(self)@ == (ChargeM {
                max_force_magnitude: spec_max(
                    max_norm(old(self)@.forces),
                    v2_norm(old(self)@.net_force),
                ),
                ..old(self)@
            }),
            final(self)@.wf(),
    {
        let ghost fs = self@.forces;
        let n = self.forces.len();
        let mut mf: i64 = 0;
        let mut i: usize = 0;
        while i < n
            invariant
                old(self)@.wf(),
                *self == *old(self),
                fs == self@.forces,
                n == self.forces.len(),
                0 <= i <= n,
                mf == max_norm(fs.take(i as int)),
                0 <= mf <= 2 * ACCUM_LIMIT,
            decreases n - i,
        {
            let f = self.forces[i];
            proof {
                assert(fs[i as int] == f@);
                assert(fs.take(i + 1).drop_last() =~= fs.take(i as int));
                assert(fs.take(i + 1).last() == fs[i as int]);
                lemma_norm_bound(f@, ACCUM_LIMIT as int);
            }
            let fn_norm = f.norm();
            if fn_norm > mf {
                mf = fn_norm;
            }
            i = i + 1;
        }
        proof {
            assert(fs.take(n as int) =~= fs);
            lemma_norm_bound(self@.net_force, ACCUM_LIMIT as int);
        }
        let nn = self.net_force.norm();
        if nn > mf {
            mf = nn;
        }
        self.max_force_magnitude = mf;
    }

    /// Drop the per-tick force accumulator and the stored net force.
    pub fn clear_forces(&mut self)
        requires
            old(self)@.wf(),
        ensures
            final(self)@ == (ChargeM {
                forces: Seq::empty(),
                net_force: v2_zero(),
                ..old(self)@
            }),
            final(self)@.wf(),
    {
        self.forces = Vec::new();
        self.net_force = Vec2::zero();
        proof {
            assert(self@.forces =~= Seq::<V2>::empty());
        }
    }

    /// Derive acceleration from the net force; a fixed body never
    /// accelerates, however large the forces on it are.
    pub fn calculate_acceleration(&mut self)
        requires
            old(self)@.wf(),
        ensures
            final(self)@ == (ChargeM { acceleration: accel_of(old(self)@), ..old(self)@ }),
            final(self)@.wf(),
    {
        if self.is_fixed {
            self.acceleration = Vec2::zero();
        } else {
            let px = (self.net_force.x as i128) * (SCALE as i128);
            let py = (self.net_force.y as i128) * (SCALE as i128);
            let qx = tdiv_i128(px, self.m as i128);
            let qy = tdiv_i128(py, self.m as i128);
            self.acceleration = Vec2 { x: clip_i128(qx, ACC_LIMIT), y: clip_i128(qy, ACC_LIMIT) };
        }
    }

    /// Update the velocity per the integrator's law (see `velocity_of`).
    pub fn calculate_velocity(&mut self, cfg: &SimConfig)
        requires
            old(self)@.wf(),
            cfg.wf(),
        ensures
            final(self)@ == (ChargeM { velocity: velocity_of(old(self)@, *cfg), ..old(self)@ }),
            final(self)@.wf(),
    {
        if self.is_fixed {
            self.velocity = Vec2::zero();
            return ;
        }
        proof {
            lemma_norm_bound(self@.acceleration, ACC_LIMIT as int);
            lemma_norm_bound(self@.velocity, VEL_LIMIT as int);
        }
        let amag = self.acceleration.norm();
        let sp = self.velocity.norm();
        proof {
            lemma_tdiv_ordered(0, sp * cfg.friction, SCALE as int);
            lemma_tdiv_sign(sp * cfg.friction, SCALE as int);
            assert(sp * cfg.friction <= 4 * (VEL_LIMIT as int) * (SCALE as int))
                by (nonlinear_arith)
                requires
                    0 <= sp <= 2 * (VEL_LIMIT as int),
                    0 <= cfg.friction < SCALE as int,
            ;
            lemma_tdiv_bound(sp * cfg.friction, SCALE as int, 4 * (VEL_LIMIT as int));
        }
        let raw = amag + tdiv_i64(sp * cfg.friction, SCALE);
        let ns = if raw > VEL_LIMIT {
            VEL_LIMIT
        } else {
            raw
        };
        if ns <= cfg.rest_epsilon || self.is_colliding {
            self.velocity = Vec2::zero();
        } else if self.net_force.x != 0 || self.net_force.y != 0 {
            proof {
                lemma_norm_props(self@.net_force);
                lemma_dir_scale_bound(ns as int, self@.net_force.x, v2_norm(self@.net_force));
                lemma_dir_scale_bound(ns as int, self@.net_force.y, v2_norm(self@.net_force));
                lemma_norm_bound(self@.net_force, ACCUM_LIMIT as int);
                assert(-0x100000000000000000000000 <= (ns as int) * self@.net_force.x
                    <= 0x100000000000000000000000
                    && -0x100000000000000000000000 <= (ns as int) * self@.net_force.y
                    <= 0x100000000000000000000000) by (nonlinear_arith)
                    requires
                        0 <= ns as int <= VEL_LIMIT as int,
                        v2_in_bounds(self@.net_force, ACCUM_LIMIT as int),
                ;
            }
            let nf = self.net_force.norm();
            let vx = tdiv_i128((ns as i128) * (self.net_force.x as i128), nf as i128) as i64;
            let vy = tdiv_i128((ns as i128) * (self.net_force.y as i128), nf as i128) as i64;
            self.velocity = Vec2 { x: vx, y: vy };
        } else if self.velocity.x != 0 || self.velocity.y != 0 {
            proof {
                lemma_norm_props(self@.velocity);
                lemma_dir_scale_bound(ns as int, self@.velocity.x, v2_norm(self@.velocity));
                lemma_dir_scale_bound(ns as int, self@.velocity.y, v2_norm(self@.velocity));
                assert(-0x100000000000000000000000 <= (ns as int) * self@.velocity.x
                    <= 0x100000000000000000000000
                    && -0x100000000000000000000000 <= (ns as int) * self@.velocity.y
                    <= 0x100000000000000000000000) by (nonlinear_arith)
                    requires
                        0 <= ns as int <= VEL_LIMIT as int,
                        v2_in_bounds(self@.velocity, VEL_LIMIT as int),
                ;
            }
            let vx = tdiv_i128((ns as i128) * (self.velocity.x as i128), sp as i128) as i64;
            let vy = tdiv_i128((ns as i128) * (self.velocity.y as i128), sp as i128) as i64;
            self.velocity = Vec2 { x: vx, y: vy };
        } else {
            self.velocity = Vec2::zero();
        }
    }

    /// Advance the center by `velocity * delta`; a colliding body does not
    /// translate this tick (only the collision response moves it).
    pub fn movement(&mut self, delta: i64)
        requires
            old(self)@.wf(),
            0 <= delta <= DT_LIMIT,
        ensures
            final(self)@ == (ChargeM {
                center: moved_center(old(self)@, delta as int),
                ..old(self)@
            }),
            final(self)@.wf(),
    {
        if self.is_colliding {
            return ;
        }
        proof {
            assert(-0x200000000000 <= self@.velocity.x * (delta as int) <= 0x200000000000
                && -0x200000000000 <= self@.velocity.y * (delta as int) <= 0x200000000000)
                by (nonlinear_arith)
                requires
                    v2_in_bounds(self@.velocity, VEL_LIMIT as int),
                    0 <= delta as int <= DT_LIMIT as int,
            ;
        }
        let sx = (self.center.x as i128) + (tdiv_i64(self.velocity.x * delta, SCALE) as i128);
        let sy = (self.center.y as i128) + (tdiv_i64(self.velocity.y * delta, SCALE) as i128);
        self.center = Vec2 { x: clip_i128(sx, POS_LIMIT), y: clip_i128(sy, POS_LIMIT) };
    }

    /// Detect and resolve a collision with `point_charge`, per
    /// `collision_response`: re-derive this body's colliding flag, raise
    /// the other's on overlap, and apply the positional corrections and
    /// impulses of the response.
    pub fn check_collision_with(&mut self, point_charge: &mut PointCharge, cfg: &SimConfig)
        requires
            old(self)@.wf(),
            old(point_charge)@.wf(),
            cfg.wf(),
        ensures
            final(self)@ == after_collision_a(
                old(self)@,
                collision_response(old(self)@, old(point_charge)@, *cfg),
            ),
            final(point_charge)@ == after_collision_b(
                old(point_charge)@,
                collision_response(old(self)@, old(point_charge)@, *cfg),
            ),
            final(self)@.wf(),
            final(point_charge)@.wf(),
    {
        proof {
            lemma_response_spares_fixed(old(self)@, old(point_charge)@, *cfg);
        }
        let r = response_between(self, point_charge, cfg);
        self.is_colliding = r.overlap;
        point_charge.is_colliding = point_charge.is_colliding || r.overlap;
        self.center = v2_add_clip_exec(self.center, r.da, POS_LIMIT);
        self.velocity = v2_add_clip_exec(self.velocity, r.dva, VEL_LIMIT);
        point_charge.center = v2_add_clip_exec(point_charge.center, r.db, POS_LIMIT);
        point_charge.velocity = v2_add_clip_exec(point_charge.velocity, r.dvb, VEL_LIMIT);
    }

    /// Whether a collision between this charge and `other` annihilates the
    /// pair: exactly when their polarities are strictly opposite.
    pub fn should_merge_with(&self, other: &PointCharge) -> (r: bool)
        ensures
            r == opposite_signs(self@.sign, other@.sign),
    {
        (self.sign == Sign::Positive && other.sign == Sign::Negative) || (self.sign
            == Sign::Negative && other.sign == Sign::Positive)
    }

    /// This charge's contribution to the potential at `point`.
    pub fn potential_contribution_at(&self, point: &Vec2, cfg: &SimConfig) -> (r: i64)
        requires
            self@.wf(),
            cfg.wf(),
            v2_in_bounds(point@, POS_LIMIT as int),
        ensures
            r == pot_contrib(cfg.k_potential as int, self@.q, self@.center, point@),
            -FORCE_LIMIT <= r <= FORCE_LIMIT,
    {
        proof {
            lemma_force_geometry(self@.center, point@);
            assert((self.center.x as int - point@.x) * (self.center.x as int - point@.x)
                <= 0x10000000000000000
                && (self.center.y as int - point@.y) * (self.center.y as int - point@.y)
                <= 0x10000000000000000) by (nonlinear_arith)
                requires
                    -0x100000000 <= self.center.x as int - point@.x <= 0x100000000,
                    -0x100000000 <= self.center.y as int - point@.y <= 0x100000000,
            ;
            lemma_sq_sum_nonneg(self.center.x as int - point@.x, self.center.y as int - point@.y);
        }
        let dx = self.center.x - point.x;
        let dy = self.center.y - point.y;
        let d2_raw: i128 = (dx as i128) * (dx as i128) + (dy as i128) * (dy as i128);
        let d2c: i128 = if d2_raw < 1 {
            1
        } else {
            d2_raw
        };
        let d_u = isqrt_u128(d2c as u128);
        proof {
            lemma_sqrt_unique(d2c as int, d_u as int, sqrt_floor(dist2_clamped(self@.center,
                point@)));
            let d = d_u as int;
            assert(d <= 0x200000000) by (nonlinear_arith)
                requires
                    is_sqrt(d2c as int, d),
                    d2c as int <= 0x20000000000000001,
            ;
            assert(-(FORCE_LIMIT as int) <= (cfg.k_potential as int) * (self.q as int)
                <= FORCE_LIMIT as int) by (nonlinear_arith)
                requires
                    1 <= cfg.k_potential as int <= K_LIMIT as int,
                    -(CHARGE_LIMIT as int) <= self.q as int <= CHARGE_LIMIT as int,
            ;
            assert(-(FORCE_LIMIT as int) * d <= (cfg.k_potential as int) * (self.q as int)
                <= (FORCE_LIMIT as int) * d) by (nonlinear_arith)
                requires
                    d >= 1,
                    -(FORCE_LIMIT as int) <= (cfg.k_potential as int) * (self.q as int)
                        <= FORCE_LIMIT as int,
            ;
            lemma_tdiv_bound((cfg.k_potential as int) * (self.q as int), d, FORCE_LIMIT as int);
        }
        let d: i64 = d_u as i64;
        let kq = cfg.k_potential * self.q;
        tdiv_i64(kq, d)
    }
}

/// Like charges repel and opposite charges attract. For a positive charge
/// product the force on `a` agrees in sign, componentwise, with the
/// separation vector from `b` to `a` (it points away from `b`), and its
/// magnitude scalar is nonnegative; for a negative product both are
/// reversed; a neutral party feels nothing.
pub proof fn lemma_force_direction(k: int, qa: int, qb: int, pa: V2, pb: V2)
    requires
        1 <= k,
    ensures
        qa * qb >= 0 ==> force_mag(k, qa, qb, dist2_clamped(pa, pb)) >= 0,
        qa * qb <= 0 ==> force_mag(k, qa, qb, dist2_clamped(pa, pb)) <= 0,
        qa * qb >= 0 ==> force_on(k, qa, qb, pa, pb).x * (pa.x - pb.x) >= 0 && force_on(
            k,
            qa,
            qb,
            pa,
            pb,
        ).y * (pa.y - pb.y) >= 0,
        qa * qb <= 0 ==> force_on(k, qa, qb, pa, pb).x * (pa.x - pb.x) <= 0 && force_on(
            k,
            qa,
            qb,
            pa,
            pb,
        ).y * (pa.y - pb.y) <= 0,
        qa == 0 || qb == 0 ==> force_on(k, qa, qb, pa, pb) == v2_zero(),
        qa * qb > 0 && k * qa * qb >= dist2_clamped(pa, pb) ==> force_mag(
            k,
            qa,
            qb,
            dist2_clamped(pa, pb),
        ) >= 1,
{
    lemma_force_geometry(pa, pb);
    let d2 = dist2_clamped(pa, pb);
    let d = sqrt_floor(d2);
    let n = k * qa * qb;
    if qa * qb > 0 && n >= d2 {
        vstd::arithmetic::div_mod::lemma_div_by_self(d2);
        vstd::arithmetic::div_mod::lemma_div_is_ordered(d2, n, d2);
    }
    assert(qa * qb >= 0 ==> n >= 0) by (nonlinear_arith)
        requires
            k >= 1,
            n == k * qa * qb,
    ;
    assert(qa * qb <= 0 ==> n <= 0) by (nonlinear_arith)
        requires
            k >= 1,
            n == k * qa * qb,
    ;
    assert(qa == 0 || qb == 0 ==> n == 0) by (nonlinear_arith)
        requires
            n == k * qa * qb,
    ;
    lemma_tdiv_sign(n, d2);
    let m = force_mag(k, qa, qb, d2);
    lemma_product_sign(m, pa.x - pb.x, d);
    lemma_product_sign(m, pa.y - pb.y, d);
    if qa == 0 || qb == 0 {
        lemma_tdiv_zero(d2);
        assert(m == 0);
        assert(m * (pa.x - pb.x) == 0 && m * (pa.y - pb.y) == 0) by (nonlinear_arith)
            requires
                m == 0,
        ;
        lemma_tdiv_zero(d);
    }
}

/// The quotient `tdiv(m * w, d)` times `w` is nonnegative when `m` is
/// nonnegative, and nonpositive when `m` is nonpositive.
pub proof fn lemma_product_sign(m: int, w: int, d: int)
    requires
        d >= 1,
    ensures
        m >= 0 ==> tdiv(m * w, d) * w >= 0,
        m <= 0 ==> tdiv(m * w, d) * w <= 0,
{
    if w >= 0 {
        assert(m >= 0 ==> m * w >= 0) by (nonlinear_arith)
            requires
                w >= 0,
        ;
        assert(m <= 0 ==> m * w <= 0) by (nonlinear_arith)
            requires
                w >= 0,
        ;
        lemma_tdiv_sign(m * w, d);
        assert(tdiv(m * w, d) >= 0 ==> tdiv(m * w, d) * w >= 0) by (nonlinear_arith)
            requires
                w >= 0,
        ;
        assert(tdiv(m * w, d) <= 0 ==> tdiv(m * w, d) * w <= 0) by (nonlinear_arith)
            requires
                w >= 0,
        ;
    } else {
        assert(m >= 0 ==> m * w <= 0) by (nonlinear_arith)
            requires
                w < 0,
        ;
        assert(m <= 0 ==> m * w >= 0) by (nonlinear_arith)
            requires
                w < 0,
        ;
        lemma_tdiv_sign(m * w, d);
        assert(tdiv(m * w, d) <= 0 ==> tdiv(m * w, d) * w >= 0) by (nonlinear_arith)
            requires
                w < 0,
        ;
        assert(tdiv(m * w, d) >= 0 ==> tdiv(m * w, d) * w <= 0) by (nonlinear_arith)
            requires
                w < 0,
        ;
    }
}

/// The inverse-square law, exact up to the rounding of integer division:
/// quadrupling the squared distance cuts the magnitude to a quarter, as
/// long as the raw magnitude is within the clamping bound.
pub proof fn lemma_force_inverse_square(k: int, qa: int, qb: int, d2: int)
    requires
        1 <= k,
        1 <= d2,
        qa * qb >= 0,
        k * qa * qb <= FORCE_LIMIT as int,
    ensures
        4 * force_mag(k, qa, qb, 4 * d2) <= force_mag(k, qa, qb, d2) <= 4 * force_mag(
            k,
            qa,
            qb,
            4 * d2,
        ) + 3,
{
    let n = k * qa * qb;
    assert(n >= 0) by (nonlinear_arith)
        requires
            k >= 1,
            qa * qb >= 0,
            n == k * qa * qb,
    ;
    vstd::arithmetic::div_mod::lemma_div_pos_is_pos(n, d2);
    vstd::arithmetic::div_mod::lemma_div_of0(d2);
    if n > 0 {
        vstd::arithmetic::div_mod::lemma_div_pos_is_pos(n, d2);
    }
    vstd::arithmetic::div_mod::lemma_div_nonincreasing(n, d2);
    assert(force_mag(k, qa, qb, d2) == n / d2);
    vstd::arithmetic::div_mod::lemma_div_denominator(n, d2, 4);
    vstd::arithmetic::div_mod::lemma_div_is_ordered_by_denominator(n, d2, 4 * d2);
    vstd::arithmetic::div_mod::lemma_div_pos_is_pos(n, 4 * d2);
    vstd::arithmetic::div_mod::lemma_div_nonincreasing(n, 4 * d2);
    assert(tdiv(n, 4 * d2) == n / (4 * d2));
    assert(n / (d2 * 4) == n / (4 * d2));
    assert(force_mag(k, qa, qb, 4 * d2) == (n / d2) / 4);
    let q = n / d2;
    vstd::arithmetic::div_mod::lemma_fundamental_div_mod(q, 4);
    vstd::arithmetic::div_mod::lemma_mod_division_less_than_divisor(q, 4);
}

/// A point equidistant from two charges of equal magnitude and opposite
/// quantity measures exactly zero net potential from the pair: truncating
/// division is symmetric under negation, so the contributions cancel.
pub proof fn lemma_potential_cancels(k: int, q: int, pa: V2, pb: V2, p: V2)
    requires
        1 <= k,
        dist2(pa, p) == dist2(pb, p),
    ensures
        pot_contrib(k, q, pa, p) + pot_contrib(k, -q, pb, p) == 0,
{
    lemma_force_geometry(pa, p);
    let d = sqrt_floor(dist2_clamped(pa, p));
    assert(dist2_clamped(pb, p) == dist2_clamped(pa, p));
    assert(k * (-q) == -(k * q)) by (nonlinear_arith);
    lemma_tdiv_neg(k * q, d);
}

/// The total potential of a pair of charges with opposite quantities of
/// equal magnitude, measured at a point equidistant from both, is exactly
/// zero.
pub proof fn lemma_potential_pair_zero(k: int, cs: Seq<ChargeM>, p: V2)
    requires
        1 <= k,
        cs.len() == 2,
        cs[1].q == -cs[0].q,
        dist2(cs[0].center, p) == dist2(cs[1].center, p),
    ensures
        pot_total(k, cs, p) == 0,
{
    lemma_potential_cancels(k, cs[0].q, cs[0].center, cs[1].center, p);
    let one = cs.drop_last();
    assert(one.len() == 1 && one[0] == cs[0]);
    assert(one.drop_last() =~= Seq::<ChargeM>::empty());
    assert(pot_sum(k, one.drop_last(), p) == 0);
    assert(one.last() == cs[0]);
    assert(pot_sum(k, one, p) == pot_contrib(k, cs[0].q, cs[0].center, p));
    assert(cs.last() == cs[1]);
    assert(pot_sum(k, cs, p) == 0);
}

/// A neutral charge contributes exactly zero to the potential at every
/// sample point.
pub proof fn lemma_neutral_contributes_nothing(k: int, q: int, pa: V2, p: V2)
    requires
        1 <= k,
        q == 0,
    ensures
        pot_contrib(k, q, pa, p) == 0,
{
    lemma_force_geometry(pa, p);
    assert(k * q == 0) by (nonlinear_arith)
        requires
            q == 0,
    ;
    lemma_tdiv_zero(sqrt_floor(dist2_clamped(pa, p)));
}

/// The pairwise force is exactly antisymmetric: the force `b` receives
/// from `a` is the negation of the force `a` receives from `b`, so
/// evaluating each unordered pair once and mirroring the result loses
/// nothing.
pub proof fn lemma_force_antisymmetric(k: int, qa: int, qb: int, pa: V2, pb: V2)
    requires
        1 <= k,
    ensures
        force_on(k, qb, qa, pb, pa) == (V2 {
            x: -force_on(k, qa, qb, pa, pb).x,
            y: -force_on(k, qa, qb, pa, pb).y,
        }),
{
    lemma_force_geometry(pa, pb);
    assert((pb.x - pa.x) * (pb.x - pa.x) == (pa.x - pb.x) * (pa.x - pb.x) && (pb.y - pa.y) * (pb.y
        - pa.y) == (pa.y - pb.y) * (pa.y - pb.y)) by (nonlinear_arith);
    assert(dist2(pb, pa) == dist2(pa, pb));
    let d2 = dist2_clamped(pa, pb);
    let d = sqrt_floor(d2);
    assert(k * qb * qa == k * qa * qb) by (nonlinear_arith);
    let m = force_mag(k, qa, qb, d2);
    assert(m * (pb.x - pa.x) == -(m * (pa.x - pb.x)) && m * (pb.y - pa.y) == -(m * (pa.y
        - pb.y))) by (nonlinear_arith);
    lemma_tdiv_neg(m * (pa.x - pb.x), d);
    lemma_tdiv_neg(m * (pa.y - pb.y), d);
}

/// The potential at `point` over a whole charge collection: the clamped
/// sum of every charge's contribution. Well-defined (zero) for an empty
/// collection.
pub fn calculate_potential(point: &Vec2, charges: &Vec<PointCharge>, cfg: &SimConfig) -> (r: i64)
    requires
        cfg.wf(),
        v2_in_bounds(point@, POS_LIMIT as int),
        all_wf(models(charges@)),
    ensures
        r == pot_total(cfg.k_potential as int, models(charges@), point@),
{
    let ghost cs = models(charges@);
    let n = charges.len();
    let mut acc: i128 = 0;
    let mut i: usize = 0;
    while i < n
        invariant
            cfg.wf(),
            v2_in_bounds(point@, POS_LIMIT as int),
            all_wf(cs),
            cs == models(charges@),
            n == charges.len(),
            0 <= i <= n,
            acc == pot_sum(cfg.k_potential as int, cs.take(i as int), point@),
            -(i as int) * (FORCE_LIMIT as int) <= acc <= (i as int) * (FORCE_LIMIT as int),
        decreases n - i,
    {
        proof {
            assert(cs[i as int] == charges@[i as int]@);
            assert(cs[i as int].wf());
        }
        let c = charges[i].potential_contribution_at(point, cfg);
        proof {
            assert(cs.take(i + 1).drop_last() =~= cs.take(i as int));
            assert(cs.take(i + 1).last() == cs[i as int]);
        }
        acc = acc + c as i128;
        i = i + 1;
    }
    proof {
        assert(cs.take(n as int) =~= cs);
    }
    clip_i128(acc, ACCUM_LIMIT)
}

/// Mathematical model of a field probe.
pub ghost struct TestM {
    pub center: V2,
    pub is_hidden: bool,
    pub q: int,
    pub forces: Seq<V2>,
    pub net_force: V2,
    pub max_force_magnitude: int,
    pub potential: int,
}

impl TestM {
    /// Well-formedness of a probe: in-bounds fields and the unit sampling
    /// charge.
    pub open spec fn wf(self) -> bool {
        &&& v2_in_bounds(self.center, POS_LIMIT as int)
        &&& self.q == SCALE as int
        &&& (forall|i: int|
            0 <= i < self.forces.len() ==> v2_in_bounds(
                #[trigger] self.forces[i],
                FORCE_LIMIT as int,
            ))
        &&& v2_in_bounds(self.net_force, ACCUM_LIMIT as int)
        &&& 0 <= self.max_force_magnitude <= 2 * (ACCUM_LIMIT as int)
        &&& -(ACCUM_LIMIT as int) <= self.potential <= ACCUM_LIMIT as int
    }
}

/// A massless, immobile probe carrying a unit sampling charge: it samples
/// the field at its lattice point but exerts no force on real charges.
pub struct TestCharge {
    pub center: Vec2,
    pub is_hidden: bool,
    pub q: i64,
    pub forces: Vec<Vec2>,
    pub net_force: Vec2,
    pub max_force_magnitude: i64,
    pub potential: i64,
}

impl View for TestCharge {
    type V = TestM;

    open spec fn view(&self) -> TestM {
        TestM {
            center: self.center@,
            is_hidden: self.is_hidden,
            q: self.q as int,
            forces: self.forces@.map_values(|f: Vec2| f@),
            net_force: self.net_force@,
            max_force_magnitude: self.max_force_magnitude as int,
            potential: self.potential as int,
        }
    }
}

impl TestCharge {
    /// Place a probe at a lattice point.
    pub fn new(center: Vec2) -> (t: Self)
        requires
            v2_in_bounds(center@, POS_LIMIT as int),
        ensures
            t@ == (TestM {
                center: center@,
                is_hidden: false,
                q: SCALE as int,
                forces: Seq::empty(),
                net_force: v2_zero(),
                max_force_magnitude: 0,
                potential: 0,
            }),
            t@.wf(),
    {
        let t = TestCharge {
            center,
            is_hidden: false,
            q: SCALE,
            forces: Vec::new(),
            net_force: Vec2::zero(),
            max_force_magnitude: 0,
            potential: 0,
        };
        proof {
            assert(t@.forces =~= Seq::<V2>::empty());
        }
        t
    }

    /// Accumulate the force this probe's unit charge receives from
    /// `point_charge` and return it.
    pub fn force_with(&mut self, point_charge: &PointCharge, cfg: &SimConfig) -> (f: Vec2)
        requires
            old(self)@.wf(),
            point_charge@.wf(),
            cfg.wf(),
        ensures
            f@ == force_on(
                cfg.k_force as int,
                old(self)@.q,
                point_charge@.q,
                old(self)@.center,
                point_charge@.center,
            ),
            final(self)@ == (TestM { forces: old(self)@.forces.push(f@), ..old(self)@ }),
            final(self)@.wf(),
    {
        let f = force_components(self.center, point_charge.center, cfg.k_force, self.q,
            point_charge.q);
        self.forces.push(f);
        proof {
            assert(self@.forces =~= old(self)@.forces.push(f@));
        }
        f
    }

    /// Reduce the accumulated forces to the stored net force.
    pub fn calculate_net_force(&mut self)
        requires
            old(self)@.wf(),
        ensures
            final(self)@ == (TestM { net_force: net_from(old(self)@.forces), ..old(self)@ }),
            final(self)@.wf(),
    {
        let ghost fs = self@.forces;
        let n = self.forces.len();
        let mut ax: i128 = 0;
        let mut ay: i128 = 0;
        let mut i: usize = 0;
        while i < n
            invariant
                old(self)@.wf(),
                *self == *old(self),
                fs == self@.forces,
                n == self.forces.len(),
                0 <= i <= n,
                ax == sum_x(fs.take(i as int)),
                ay == sum_y(fs.take(i as int)),
                -(i as int) * (FORCE_LIMIT as int) <= ax <= (i as int) * (FORCE_LIMIT as int),
                -(i as int) * (FORCE_LIMIT as int) <= ay <= (i as int) * (FORCE_LIMIT as int),
            decreases n - i,
        {
            let f = self.forces[i];
            proof {
                assert(fs[i as int] == f@);
                assert(fs.take(i + 1).drop_last() =~= fs.take(i as int));
                assert(fs.take(i + 1).last() == fs[i as int]);
            }
            ax = ax + f.x as i128;
            ay = ay + f.y as i128;
            i = i + 1;
        }
        proof {
            assert(fs.take(n as int) =~= fs);
        }
        self.net_force = Vec2 { x: clip_i128(ax, ACCUM_LIMIT), y: clip_i128(ay, ACCUM_LIMIT) };
    }

    /// Install the field-wide maximum force magnitude used to normalize
    /// the drawn arrows.
    pub fn set_max_force(&mut self, max_magnitude: i64)
        requires
            old(self)@.wf(),
            0 <= max_magnitude <= 2 * ACCUM_LIMIT,
        ensures
            final(self)@ == (TestM {
                max_force_magnitude: max_magnitude as int,
                ..old(self)@
            }),
            final(self)@.wf(),
    {
        self.max_force_magnitude = max_magnitude;
    }

    /// Drop every per-tick accumulator of the probe.
    pub fn clear_forces(&mut self)
        requires
            old(self)@.wf(),
        ensures
            final(self)@ == (TestM {
                forces: Seq::empty(),
                net_force: v2_zero(),
                max_force_magnitude: 0,
                potential: 0,
                ..old(self)@
            }),
            final(self)@.wf(),
    {
        self.forces = Vec::new();
        self.net_force = Vec2::zero();
        self.max_force_magnitude = 0;
        self.potential = 0;
        proof {
            assert(self@.forces =~= Seq::<V2>::empty());
        }
    }
}

} // verus!
