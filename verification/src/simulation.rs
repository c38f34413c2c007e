//! The per-tick driver: clear accumulators, evaluate every unordered pair
//! once (force, collision, merge decision), compact away annihilated
//! charges, append their neutral products, and integrate motion.
//!
//! The pairwise pass is staged: every pair is evaluated against the
//! tick-start snapshot and its effects are accumulated beside the charges,
//! then applied at once. This avoids mutable aliasing during the pass and
//! gives every merge a consistent snapshot of its parents.

use crate::charges::{
    accel_of, all_wf, collision_response, dist2, force_components, force_on,
    lemma_force_on_bounds, lemma_response_spares_fixed, max_norm, models, moved_center, net_from,
    new_charge_model, opposite_signs, response_between, spec_max, sum_x, sum_y, v2_add_clip,
    v2_add_clip_exec, velocity_of, ChargeM, PointCharge, Sign, TestCharge, TestM,
};
use crate::config::SimConfig;
use crate::fixed::{
    is_sqrt, lemma_mul_abs_bound, lemma_sqrt_floor_exists, lemma_sqrt_unique, lemma_tdiv_bound,
    lemma_tdiv_ordered, lemma_tdiv_zero, sqrt_floor, tdiv, tdiv_i128, tdiv_i64, ACCUM_LIMIT,
    DT_LIMIT, FORCE_LIMIT, MASS_LIMIT, POS_LIMIT, SCALE, VEL_LIMIT,
};
use crate::geometry::{lemma_norm_bound, v2_in_bounds, v2_norm, v2_zero, Vec2, V2};
use vstd::prelude::*;

verus! {

/// Per-charge accumulator of the staged pairwise pass.
pub ghost struct PairAcc {
    pub forces: Seq<V2>,
    pub colliding: bool,
    pub dpos: V2,
    pub dvel: V2,
    pub removed: bool,
}

/// State of the pairwise pass: one accumulator per charge, plus the merged
/// pairs in discovery order.
pub ghost struct PairState {
    pub accs: Seq<PairAcc>,
    pub merges: Seq<(int, int)>,
}

/// A fresh accumulator.
pub open spec fn init_acc() -> PairAcc {
    PairAcc {
        forces: Seq::empty(),
        colliding: false,
        dpos: v2_zero(),
        dvel: v2_zero(),
        removed: false,
    }
}

/// The pass starts with fresh accumulators and no merges.
pub open spec fn init_state(n: int) -> PairState {
    PairState { accs: Seq::new(n as nat, |i: int| init_acc()), merges: Seq::empty() }
}

/// Evaluate one unordered pair `(i, j)` against the snapshot `cs`. A pair
/// with a party already scheduled for removal is skipped. Otherwise the
/// pair contributes one force entry to each side (the second the mirror of
/// the first), the collision response, and — when the pair overlaps with
/// strictly opposite polarities — a merge that removes both.
pub open spec fn pair_step(
    cs: Seq<ChargeM>,
    cfg: SimConfig,
    i: int,
    j: int,
    st: PairState,
) -> PairState {
    let a = cs[i];
    let b = cs[j];
    let ai = st.accs[i];
    let aj = st.accs[j];
    if ai.removed || aj.removed {
        st
    } else {
        let f = force_on(cfg.k_force as int, a.q, b.q, a.center, b.center);
        let r = collision_response(a, b, cfg);
        let merge = r.overlap && opposite_signs(a.sign, b.sign);
        let ai2 = PairAcc {
            forces: ai.forces.push(f),
            colliding: ai.colliding || r.overlap,
            dpos: v2_add_clip(ai.dpos, r.da, ACCUM_LIMIT as int),
            dvel: v2_add_clip(ai.dvel, r.dva, ACCUM_LIMIT as int),
            removed: merge,
        };
        let aj2 = PairAcc {
            forces: aj.forces.push(V2 { x: -f.x, y: -f.y }),
            colliding: aj.colliding || r.overlap,
            dpos: v2_add_clip(aj.dpos, r.db, ACCUM_LIMIT as int),
            dvel: v2_add_clip(aj.dvel, r.dvb, ACCUM_LIMIT as int),
            removed: merge,
        };
        PairState {
            accs: st.accs.update(i, ai2).update(j, aj2),
            merges: if merge {
                st.merges.push((i, j))
            } else {
                st.merges
            },
        }
    }
}

/// Evaluate the pairs `(i, j), (i, j+1), ...` for one fixed `i`.
pub open spec fn pair_inner(
    cs: Seq<ChargeM>,
    cfg: SimConfig,
    i: int,
    j: int,
    st: PairState,
) -> PairState
    decreases cs.len() - j,
{
    if j < 0 || cs.len() <= j {
        st
    } else {
        pair_inner(cs, cfg, i, j + 1, pair_step(cs, cfg, i, j, st))
    }
}

/// Evaluate every unordered pair, in lexicographic order, starting at the
/// first party `i`.
pub open spec fn pair_outer(cs: Seq<ChargeM>, cfg: SimConfig, i: int, st: PairState) -> PairState
    decreases cs.len() - i,
{
    if i < 0 || cs.len() <= i {
        st
    } else {
        pair_outer(cs, cfg, i + 1, pair_inner(cs, cfg, i, i + 1, st))
    }
}

/// The whole pairwise pass.
pub open spec fn pair_phase(cs: Seq<ChargeM>, cfg: SimConfig) -> PairState {
    pair_outer(cs, cfg, 0, init_state(cs.len() as int))
}

/// A charge at the start of a tick: accumulators dropped, collision flag
/// lowered.
pub open spec fn clear_m(c: ChargeM) -> ChargeM {
    ChargeM { forces: Seq::empty(), net_force: v2_zero(), is_colliding: false, ..c }
}

/// The cleared snapshot the pass works on.
pub open spec fn cleared(cs: Seq<ChargeM>) -> Seq<ChargeM> {
    cs.map_values(|c: ChargeM| clear_m(c))
}

/// Apply an accumulator to its charge: install the force list and the
/// collision flag, and shift position and velocity by the accumulated
/// corrections and impulses.
pub open spec fn apply_acc(c: ChargeM, a: PairAcc) -> ChargeM {
    ChargeM {
        forces: a.forces,
        is_colliding: a.colliding,
        center: v2_add_clip(c.center, a.dpos, POS_LIMIT as int),
        velocity: v2_add_clip(c.velocity, a.dvel, VEL_LIMIT as int),
        ..c
    }
}

/// The surviving charges among the first `k`, in their original order,
/// with their accumulators applied.
pub open spec fn kept_upto(cs: Seq<ChargeM>, accs: Seq<PairAcc>, k: int) -> Seq<ChargeM>
    decreases k,
{
    if k <= 0 {
        Seq::empty()
    } else if accs[k - 1].removed {
        kept_upto(cs, accs, k - 1)
    } else {
        kept_upto(cs, accs, k - 1).push(apply_acc(cs[k - 1], accs[k - 1]))
    }
}

/// The neutral charge replacing the merged pair `pr`: it reuses the first
/// parent's identifier, sits at the parents' midpoint, carries the
/// momentum-conserving mass-weighted average velocity (zero if the
/// combined mass were zero), is fixed only if both parents were, and has
/// the configured merged mass.
pub open spec fn merge_product(cs: Seq<ChargeM>, pr: (int, int), cfg: SimConfig) -> ChargeM {
    let a = cs[pr.0];
    let b = cs[pr.1];
    let total = a.m + b.m;
    let vel = if total >= 1 {
        V2 {
            x: tdiv(a.velocity.x * a.m + b.velocity.x * b.m, total),
            y: tdiv(a.velocity.y * a.m + b.velocity.y * b.m, total),
        }
    } else {
        v2_zero()
    };
    let center = V2 { x: tdiv(a.center.x + b.center.x, 2), y: tdiv(a.center.y + b.center.y, 2) };
    ChargeM {
        velocity: vel,
        ..new_charge_model(
            a.id,
            center,
            Sign::Neutral,
            0,
            cfg.merged_mass as int,
            cfg.default_radius as int,
            a.is_fixed && b.is_fixed,
        )
    }
}

/// One charge's integration, matching the five per-charge steps of the
/// tick in order: net force, display maximum, acceleration, velocity,
/// position.
pub open spec fn integrate_m(c: ChargeM, dt: int, cfg: SimConfig) -> ChargeM {
    let c1 = ChargeM { net_force: net_from(c.forces), ..c };
    let c2 = ChargeM {
        max_force_magnitude: spec_max(max_norm(c1.forces), v2_norm(c1.net_force)),
        ..c1
    };
    let c3 = ChargeM { acceleration: accel_of(c2), ..c2 };
    let c4 = ChargeM { velocity: velocity_of(c3, cfg), ..c3 };
    ChargeM { center: moved_center(c4, dt), ..c4 }
}

/// The whole tick as a function of the incoming charges: clear, run the
/// pairwise pass, keep the survivors with their accumulators applied,
/// append the merge products, and integrate every resulting charge.
pub open spec fn tick_spec(cs0: Seq<ChargeM>, dt: int, cfg: SimConfig) -> Seq<ChargeM> {
    let cs = cleared(cs0);
    let st = pair_phase(cs, cfg);
    let kept = kept_upto(cs, st.accs, cs.len() as int);
    let merged = Seq::new(st.merges.len(), |k: int| merge_product(cs, st.merges[k], cfg));
    (kept + merged).map_values(|c: ChargeM| integrate_m(c, dt, cfg))
}

/// Invariants of one accumulator: bounded entries and, for a fixed charge,
/// no accumulated motion at all.
pub open spec fn acc_ok(c: ChargeM, a: PairAcc) -> bool {
    &&& (forall|t: int|
        0 <= t < a.forces.len() ==> v2_in_bounds(#[trigger] a.forces[t], FORCE_LIMIT as int))
    &&& v2_in_bounds(a.dpos, ACCUM_LIMIT as int)
    &&& v2_in_bounds(a.dvel, ACCUM_LIMIT as int)
    &&& (c.is_fixed ==> a.dpos == v2_zero() && a.dvel == v2_zero())
}

/// Invariants of the pass state over the snapshot.
pub open spec fn st_ok(cs: Seq<ChargeM>, st: PairState) -> bool {
    &&& st.accs.len() == cs.len()
    &&& (forall|i: int| 0 <= i < cs.len() ==> acc_ok(cs[i], #[trigger] st.accs[i]))
    &&& (forall|k: int|
        0 <= k < st.merges.len() ==> 0 <= (#[trigger] st.merges[k]).0 < st.merges[k].1 < cs.len())
}

/// One pair step preserves the pass invariants.
pub proof fn lemma_pair_step_ok(cs: Seq<ChargeM>, cfg: SimConfig, i: int, j: int, st: PairState)
    requires
        all_wf(cs),
        cfg.wf(),
        st_ok(cs, st),
        0 <= i < j < cs.len(),
    ensures
        st_ok(cs, pair_step(cs, cfg, i, j, st)),
{
    let a = cs[i];
    let b = cs[j];
    let ai = st.accs[i];
    let aj = st.accs[j];
    if !(ai.removed || aj.removed) {
        let f = force_on(cfg.k_force as int, a.q, b.q, a.center, b.center);
        lemma_force_on_bounds(cfg.k_force as int, a.q, b.q, a.center, b.center);
        lemma_response_spares_fixed(a, b, cfg);
        let st2 = pair_step(cs, cfg, i, j, st);
        assert forall|t: int| 0 <= t < cs.len() implies acc_ok(cs[t], #[trigger] st2.accs[t]) by {
            if t == i {
                let ai2 = st2.accs[i];
                assert forall|u: int|
                    0 <= u < ai2.forces.len() implies v2_in_bounds(
                    #[trigger] ai2.forces[u],
                    FORCE_LIMIT as int,
                ) by {
                    if u < ai.forces.len() {
                        assert(ai2.forces[u] == ai.forces[u]);
                    }
                }
            } else if t == j {
                let aj2 = st2.accs[j];
                assert forall|u: int|
                    0 <= u < aj2.forces.len() implies v2_in_bounds(
                    #[trigger] aj2.forces[u],
                    FORCE_LIMIT as int,
                ) by {
                    if u < aj.forces.len() {
                        assert(aj2.forces[u] == aj.forces[u]);
                    }
                }
            } else {
                assert(st2.accs[t] == st.accs[t]);
            }
        }
    }
}

/// The inner recursion preserves the pass invariants.
pub proof fn lemma_pair_inner_ok(cs: Seq<ChargeM>, cfg: SimConfig, i: int, j: int, st: PairState)
    requires
        all_wf(cs),
        cfg.wf(),
        st_ok(cs, st),
        0 <= i < cs.len(),
        i < j,
    ensures
        st_ok(cs, pair_inner(cs, cfg, i, j, st)),
    decreases cs.len() - j,
{
    if j < 0 || cs.len() <= j {
    } else {
        lemma_pair_step_ok(cs, cfg, i, j, st);
        lemma_pair_inner_ok(cs, cfg, i, j + 1, pair_step(cs, cfg, i, j, st));
    }
}

/// The outer recursion preserves the pass invariants.
pub proof fn lemma_pair_outer_ok(cs: Seq<ChargeM>, cfg: SimConfig, i: int, st: PairState)
    requires
        all_wf(cs),
        cfg.wf(),
        st_ok(cs, st),
        0 <= i,
    ensures
        st_ok(cs, pair_outer(cs, cfg, i, st)),
    decreases cs.len() - i,
{
    if i < 0 || cs.len() <= i {
    } else {
        lemma_pair_inner_ok(cs, cfg, i, i + 1, st);
        lemma_pair_outer_ok(cs, cfg, i + 1, pair_inner(cs, cfg, i, i + 1, st));
    }
}

/// The whole pass, from the initial state, satisfies the invariants: in
/// particular a fixed charge accumulates no motion, whatever happens
/// around it.
pub proof fn lemma_pair_phase_ok(cs: Seq<ChargeM>, cfg: SimConfig)
    requires
        all_wf(cs),
        cfg.wf(),
    ensures
        st_ok(cs, pair_phase(cs, cfg)),
{
    lemma_pair_outer_ok(cs, cfg, 0, init_state(cs.len() as int));
}

/// A mass-weighted average of two bounded velocities is bounded by the
/// same limit.
pub proof fn lemma_weighted_avg_bound(v1: int, m1: int, v2: int, m2: int, lim: int)
    requires
        m1 >= 1,
        m2 >= 1,
        lim >= 0,
        -lim <= v1 <= lim,
        -lim <= v2 <= lim,
    ensures
        -lim <= tdiv(v1 * m1 + v2 * m2, m1 + m2) <= lim,
{
    assert(-(lim * (m1 + m2)) <= v1 * m1 + v2 * m2 <= lim * (m1 + m2) && (-lim) * (m1 + m2) == -(
    lim * (m1 + m2))) by (nonlinear_arith)
        requires
            m1 >= 1,
            m2 >= 1,
            lim >= 0,
            -lim <= v1 <= lim,
            -lim <= v2 <= lim,
    ;
    lemma_tdiv_bound(v1 * m1 + v2 * m2, m1 + m2, lim);
}

/// The merge product of two well-formed parents is well-formed; if both
/// parents are fixed it is fixed and at rest.
pub proof fn lemma_merge_product_wf(cs: Seq<ChargeM>, pr: (int, int), cfg: SimConfig)
    requires
        all_wf(cs),
        cfg.wf(),
        0 <= pr.0 < cs.len(),
        0 <= pr.1 < cs.len(),
    ensures
        merge_product(cs, pr, cfg).wf(),
        cs[pr.0].is_fixed && cs[pr.1].is_fixed ==> merge_product(cs, pr, cfg).velocity
            == v2_zero(),
{
    let a = cs[pr.0];
    let b = cs[pr.1];
    let total = a.m + b.m;
    lemma_weighted_avg_bound(a.velocity.x, a.m, b.velocity.x, b.m, VEL_LIMIT as int);
    lemma_weighted_avg_bound(a.velocity.y, a.m, b.velocity.y, b.m, VEL_LIMIT as int);
    if a.is_fixed && b.is_fixed {
        assert(a.velocity == v2_zero() && b.velocity == v2_zero());
        assert(a.velocity.x * a.m == 0 && b.velocity.x * b.m == 0 && a.velocity.y * a.m == 0
            && b.velocity.y * b.m == 0) by (nonlinear_arith)
            requires
                a.velocity.x == 0,
                a.velocity.y == 0,
                b.velocity.x == 0,
                b.velocity.y == 0,
        ;
        lemma_tdiv_zero(total);
    }
    lemma_tdiv_bound(a.center.x + b.center.x, 2, POS_LIMIT as int);
    lemma_tdiv_bound(a.center.y + b.center.y, 2, POS_LIMIT as int);
}

/// Applying a well-formed accumulator to a well-formed charge gives a
/// well-formed charge; a fixed charge keeps its center and stays at rest.
pub proof fn lemma_apply_acc_wf(c: ChargeM, a: PairAcc)
    requires
        c.wf(),
        acc_ok(c, a),
    ensures
        apply_acc(c, a).wf(),
        c.is_fixed ==> apply_acc(c, a).center == c.center && apply_acc(c, a).velocity
            == v2_zero(),
{
}

/// Clearing preserves well-formedness.
pub proof fn lemma_cleared_wf(cs: Seq<ChargeM>)
    requires
        all_wf(cs),
    ensures
        all_wf(cleared(cs)),
        cleared(cs).len() == cs.len(),
{
    assert forall|i: int| 0 <= i < cleared(cs).len() implies (#[trigger] cleared(cs)[i]).wf() by {
        assert(cs[i].wf());
        assert(cleared(cs)[i] == clear_m(cs[i]));
    }
}

/// The number of survivors among the first `i` charges: where the `i`-th
/// charge, if it survives, lands after compaction.
pub open spec fn kept_count(accs: Seq<PairAcc>, i: int) -> int
    decreases i,
{
    if i <= 0 {
        0
    } else if accs[i - 1].removed {
        kept_count(accs, i - 1)
    } else {
        kept_count(accs, i - 1) + 1
    }
}

/// The compacted sequence has exactly one slot per survivor.
pub proof fn lemma_kept_len(cs: Seq<ChargeM>, accs: Seq<PairAcc>, k: int)
    ensures
        kept_upto(cs, accs, k).len() == kept_count(accs, k),
        kept_count(accs, k) >= 0,
    decreases k,
{
    if k > 0 {
        lemma_kept_len(cs, accs, k - 1);
    }
}

/// A survivor lands at slot `kept_count(accs, i)`, carrying its applied
/// accumulator.
pub proof fn lemma_kept_index(cs: Seq<ChargeM>, accs: Seq<PairAcc>, k: int, i: int)
    requires
        0 <= i < k,
        !accs[i].removed,
    ensures
        0 <= kept_count(accs, i) < kept_upto(cs, accs, k).len(),
        kept_upto(cs, accs, k)[kept_count(accs, i)] == apply_acc(cs[i], accs[i]),
    decreases k,
{
    lemma_kept_len(cs, accs, k);
    lemma_kept_len(cs, accs, i);
    if k - 1 == i {
        lemma_kept_len(cs, accs, k - 1);
    } else {
        lemma_kept_index(cs, accs, k - 1, i);
    }
}

/// Integration does not move a fixed body: its acceleration and velocity
/// are pinned at zero and its center stays put.
pub proof fn lemma_integrate_fixed(c: ChargeM, dt: int, cfg: SimConfig)
    requires
        cfg.wf(),
        c.is_fixed,
        v2_in_bounds(c.center, POS_LIMIT as int),
    ensures
        integrate_m(c, dt, cfg).center == c.center,
        integrate_m(c, dt, cfg).velocity == v2_zero(),
        integrate_m(c, dt, cfg).acceleration == v2_zero(),
        integrate_m(c, dt, cfg).is_fixed,
        integrate_m(c, dt, cfg).sign == c.sign,
{
    let c4 = ChargeM {
        velocity: v2_zero(),
        ..ChargeM {
            acceleration: accel_of(c),
            ..ChargeM {
                max_force_magnitude: integrate_m(c, dt, cfg).max_force_magnitude,
                ..ChargeM { net_force: net_from(c.forces), ..c }
            }
        }
    };
    if !c4.is_colliding {
        assert(c4.velocity.x * dt == 0 && c4.velocity.y * dt == 0) by (nonlinear_arith)
            requires
                c4.velocity == v2_zero(),
        ;
        lemma_tdiv_zero(SCALE as int);
    }
}

/// Integration never changes a charge's identity, polarity, quantity,
/// mass, radius, fixedness, or collision flag.
pub proof fn lemma_integrate_keeps_identity(c: ChargeM, dt: int, cfg: SimConfig)
    ensures
        integrate_m(c, dt, cfg).id == c.id,
        integrate_m(c, dt, cfg).sign == c.sign,
        integrate_m(c, dt, cfg).q == c.q,
        integrate_m(c, dt, cfg).m == c.m,
        integrate_m(c, dt, cfg).radius == c.radius,
        integrate_m(c, dt, cfg).is_fixed == c.is_fixed,
        integrate_m(c, dt, cfg).is_colliding == c.is_colliding,
        integrate_m(c, dt, cfg).forces == c.forces,
{
}

/// A fixed charge that survives the tick neither moves nor gains
/// velocity, however many forces acted on it: the pass gives it no
/// correction and no impulse, and the integrator pins it in place.
pub proof fn lemma_fixed_charge_immobile(cs: Seq<ChargeM>, dt: int, cfg: SimConfig, i: int)
    requires
        all_wf(cs),
        cfg.wf(),
        0 <= i < cs.len(),
        cs[i].is_fixed,
        !pair_phase(cleared(cs), cfg).accs[i].removed,
    ensures
        ({
            let out = tick_spec(cs, dt, cfg);
            let pos = kept_count(pair_phase(cleared(cs), cfg).accs, i);
            &&& 0 <= pos < out.len()
            &&& out[pos].center == cs[i].center
            &&& out[pos].velocity == v2_zero()
            &&& out[pos].is_fixed
            &&& out[pos].id == cs[i].id
        }),
{
    let csc = cleared(cs);
    lemma_cleared_wf(cs);
    let st = pair_phase(csc, cfg);
    lemma_pair_phase_ok(csc, cfg);
    let n = csc.len() as int;
    assert(csc[i] == clear_m(cs[i]));
    assert(acc_ok(csc[i], st.accs[i]));
    lemma_kept_index(csc, st.accs, n, i);
    lemma_kept_len(csc, st.accs, n);
    let kept = kept_upto(csc, st.accs, n);
    let pos = kept_count(st.accs, i);
    let merged = Seq::new(st.merges.len(), |k: int| merge_product(csc, st.merges[k], cfg));
    assert((kept + merged)[pos] == kept[pos]);
    lemma_apply_acc_wf(csc[i], st.accs[i]);
    let c_app = apply_acc(csc[i], st.accs[i]);
    assert(c_app.center == csc[i].center && c_app.velocity == v2_zero());
    lemma_integrate_fixed(c_app, dt, cfg);
    assert(tick_spec(cs, dt, cfg)[pos] == integrate_m(c_app, dt, cfg));
}

/// The integer square root of zero is zero.
pub proof fn lemma_sqrt_zero()
    ensures
        sqrt_floor(0) == 0,
{
    assert(is_sqrt(0, 0));
    lemma_sqrt_floor_exists(0);
    lemma_sqrt_unique(0, 0, sqrt_floor(0));
}

/// With a single charge the pairwise pass does nothing.
pub proof fn lemma_single_charge_pass(cs: Seq<ChargeM>, cfg: SimConfig)
    requires
        cs.len() == 1,
    ensures
        pair_phase(cs, cfg) == init_state(1),
{
    let st0 = init_state(1);
    assert(pair_inner(cs, cfg, 0, 1, st0) == st0);
    assert(pair_outer(cs, cfg, 1, st0) == st0);
    assert(pair_outer(cs, cfg, 0, st0) == pair_outer(cs, cfg, 1, pair_inner(cs, cfg, 0, 1, st0)));
}

/// A single isolated charge ends the tick with no accumulated forces,
/// zero net force, zero acceleration — and, if it started at rest, it
/// stays exactly at rest, wherever it stood.
pub proof fn lemma_isolated_charge_rests(cs: Seq<ChargeM>, dt: int, cfg: SimConfig)
    requires
        all_wf(cs),
        cfg.wf(),
        cs.len() == 1,
        cs[0].velocity == v2_zero(),
    ensures
        tick_spec(cs, dt, cfg).len() == 1,
        tick_spec(cs, dt, cfg)[0].forces == Seq::<V2>::empty(),
        tick_spec(cs, dt, cfg)[0].net_force == v2_zero(),
        tick_spec(cs, dt, cfg)[0].acceleration == v2_zero(),
        tick_spec(cs, dt, cfg)[0].velocity == v2_zero(),
        tick_spec(cs, dt, cfg)[0].center == cs[0].center,
{
    let csc = cleared(cs);
    lemma_cleared_wf(cs);
    assert(csc[0] == clear_m(cs[0]));
    lemma_single_charge_pass(csc, cfg);
    let st = pair_phase(csc, cfg);
    assert(st.accs[0] == init_acc());
    let kept = kept_upto(csc, st.accs, 1);
    assert(kept_upto(csc, st.accs, 0) == Seq::<ChargeM>::empty());
    assert(kept == Seq::<ChargeM>::empty().push(apply_acc(csc[0], init_acc())));
    let c_app = apply_acc(csc[0], init_acc());
    assert(c_app.forces =~= Seq::<V2>::empty());
    assert(c_app.center == csc[0].center && c_app.velocity == v2_zero());
    let merged = Seq::new(st.merges.len(), |k: int| merge_product(csc, st.merges[k], cfg));
    assert(merged =~= Seq::<ChargeM>::empty());
    assert((kept + merged) =~= kept);
    assert(tick_spec(cs, dt, cfg)[0] == integrate_m(c_app, dt, cfg));
    // Unfold the integration of a loose charge at rest.
    assert(sum_x(c_app.forces) == 0 && sum_y(c_app.forces) == 0);
    let c1 = ChargeM { net_force: net_from(c_app.forces), ..c_app };
    assert(c1.net_force == v2_zero());
    lemma_sqrt_zero();
    lemma_tdiv_zero(c_app.m);
    lemma_tdiv_zero(SCALE as int);
    assert(c1.net_force.x * SCALE == 0 && c1.net_force.y * SCALE == 0) by (nonlinear_arith)
        requires
            c1.net_force == v2_zero(),
    ;
    let c3acc = accel_of(ChargeM { max_force_magnitude: spec_max(max_norm(c1.forces),
        v2_norm(c1.net_force)), ..c1 });
    assert(c3acc == v2_zero());
    let c3 = ChargeM {
        acceleration: c3acc,
        ..ChargeM {
            max_force_magnitude: spec_max(max_norm(c1.forces), v2_norm(c1.net_force)),
            ..c1
        }
    };
    assert(v2_norm(c3.acceleration) == 0 && v2_norm(c3.velocity)
        == 0) by {
        assert(c3.acceleration.x * c3.acceleration.x == 0 && c3.velocity.x * c3.velocity.x == 0
            && c3.acceleration.y * c3.acceleration.y == 0 && c3.velocity.y * c3.velocity.y == 0)
            by (nonlinear_arith)
            requires
                c3.acceleration == v2_zero(),
                c3.velocity == v2_zero(),
        ;
        lemma_sqrt_zero();
    }
    assert(0 * cfg.friction == 0) by (nonlinear_arith);
    assert(velocity_of(c3, cfg) == v2_zero());
    let c4 = ChargeM { velocity: velocity_of(c3, cfg), ..c3 };
    assert(c4.velocity.x * dt == 0 && c4.velocity.y * dt == 0) by (nonlinear_arith)
        requires
            c4.velocity == v2_zero(),
    ;
    assert(moved_center(c4, dt) == c4.center);
}

/// With exactly two charges the pass evaluates exactly one pair.
pub proof fn lemma_two_charge_pass(cs: Seq<ChargeM>, cfg: SimConfig)
    requires
        cs.len() == 2,
    ensures
        pair_phase(cs, cfg) == pair_step(cs, cfg, 0, 1, init_state(2)),
{
    let st0 = init_state(2);
    let st1 = pair_step(cs, cfg, 0, 1, st0);
    assert(pair_inner(cs, cfg, 0, 2, st1) == st1);
    assert(pair_inner(cs, cfg, 0, 1, st0) == pair_inner(cs, cfg, 0, 2, pair_step(cs, cfg, 0, 1,
        st0)));
    assert(pair_inner(cs, cfg, 1, 2, st1) == st1);
    assert(pair_outer(cs, cfg, 2, st1) == st1);
    assert(pair_outer(cs, cfg, 1, st1) == pair_outer(cs, cfg, 2, pair_inner(cs, cfg, 1, 2, st1)));
    assert(pair_outer(cs, cfg, 0, st0) == pair_outer(cs, cfg, 1, pair_inner(cs, cfg, 0, 1, st0)));
}

/// Two colliding charges of strictly opposite polarity are replaced by
/// exactly one Neutral charge: it reuses the first parent's identifier,
/// sits at the parents' midpoint, carries the momentum-conserving
/// mass-weighted velocity, is fixed only if both parents were, and then
/// goes through ordinary integration.
pub proof fn lemma_opposite_merge(cs: Seq<ChargeM>, dt: int, cfg: SimConfig)
    requires
        all_wf(cs),
        cfg.wf(),
        cs.len() == 2,
        dist2(cs[0].center, cs[1].center) < (cs[0].radius + cs[1].radius) * (cs[0].radius
            + cs[1].radius),
        opposite_signs(cs[0].sign, cs[1].sign),
    ensures
        tick_spec(cs, dt, cfg).len() == 1,
        tick_spec(cs, dt, cfg)[0] == integrate_m(merge_product(cleared(cs), (0, 1), cfg), dt,
            cfg),
        tick_spec(cs, dt, cfg)[0].sign == Sign::Neutral,
        tick_spec(cs, dt, cfg)[0].q == 0,
        tick_spec(cs, dt, cfg)[0].m == cfg.merged_mass,
        tick_spec(cs, dt, cfg)[0].is_fixed == (cs[0].is_fixed && cs[1].is_fixed),
        tick_spec(cs, dt, cfg)[0].id == cs[0].id,
        merge_product(cleared(cs), (0, 1), cfg).center == (V2 {
            x: tdiv(cs[0].center.x + cs[1].center.x, 2),
            y: tdiv(cs[0].center.y + cs[1].center.y, 2),
        }),
        merge_product(cleared(cs), (0, 1), cfg).velocity == (V2 {
            x: tdiv(cs[0].velocity.x * cs[0].m + cs[1].velocity.x * cs[1].m, cs[0].m + cs[1].m),
            y: tdiv(cs[0].velocity.y * cs[0].m + cs[1].velocity.y * cs[1].m, cs[0].m + cs[1].m),
        }),
{
    let csc = cleared(cs);
    lemma_cleared_wf(cs);
    assert(csc[0] == clear_m(cs[0]) && csc[1] == clear_m(cs[1]));
    lemma_two_charge_pass(csc, cfg);
    let st0 = init_state(2);
    let st = pair_step(csc, cfg, 0, 1, st0);
    let r = collision_response(csc[0], csc[1], cfg);
    assert(r.overlap);
    assert(st.accs[0].removed && st.accs[1].removed);
    assert(st.merges =~= Seq::<(int, int)>::empty().push((0int, 1int)));
    let kept = kept_upto(csc, st.accs, 2);
    assert(kept_upto(csc, st.accs, 0) == Seq::<ChargeM>::empty());
    assert(kept_upto(csc, st.accs, 1) == Seq::<ChargeM>::empty());
    assert(kept == Seq::<ChargeM>::empty());
    let merged = Seq::new(st.merges.len(), |k: int| merge_product(csc, st.merges[k], cfg));
    assert(merged.len() == 1 && merged[0] == merge_product(csc, (0int, 1int), cfg));
    assert((kept + merged) =~= merged);
    let mp = merge_product(csc, (0, 1), cfg);
    assert(tick_spec(cs, dt, cfg)[0] == integrate_m(mp, dt, cfg));
    lemma_integrate_keeps_identity(mp, dt, cfg);
    assert(csc[0].m + csc[1].m >= 2);
}

/// Two colliding fixed charges of opposite polarity merge into a single
/// Neutral, fixed charge standing exactly at their midpoint with zero
/// velocity; the live count drops from two to one.
pub proof fn lemma_fixed_pair_merge(cs: Seq<ChargeM>, dt: int, cfg: SimConfig)
    requires
        all_wf(cs),
        cfg.wf(),
        cs.len() == 2,
        dist2(cs[0].center, cs[1].center) < (cs[0].radius + cs[1].radius) * (cs[0].radius
            + cs[1].radius),
        opposite_signs(cs[0].sign, cs[1].sign),
        cs[0].is_fixed,
        cs[1].is_fixed,
    ensures
        tick_spec(cs, dt, cfg).len() == 1,
        tick_spec(cs, dt, cfg)[0].sign == Sign::Neutral,
        tick_spec(cs, dt, cfg)[0].is_fixed,
        tick_spec(cs, dt, cfg)[0].velocity == v2_zero(),
        tick_spec(cs, dt, cfg)[0].center == (V2 {
            x: tdiv(cs[0].center.x + cs[1].center.x, 2),
            y: tdiv(cs[0].center.y + cs[1].center.y, 2),
        }),
{
    lemma_opposite_merge(cs, dt, cfg);
    let csc = cleared(cs);
    lemma_cleared_wf(cs);
    let mp = merge_product(csc, (0, 1), cfg);
    lemma_merge_product_wf(csc, (0, 1), cfg);
    lemma_integrate_fixed(mp, dt, cfg);
}

/// Two colliding charges that are not of strictly opposite polarity never
/// merge: both remain present, both flagged as colliding, with their
/// identities and polarities intact.
pub proof fn lemma_same_sign_no_merge(cs: Seq<ChargeM>, dt: int, cfg: SimConfig)
    requires
        all_wf(cs),
        cfg.wf(),
        cs.len() == 2,
        dist2(cs[0].center, cs[1].center) < (cs[0].radius + cs[1].radius) * (cs[0].radius
            + cs[1].radius),
        !opposite_signs(cs[0].sign, cs[1].sign),
    ensures
        tick_spec(cs, dt, cfg).len() == 2,
        tick_spec(cs, dt, cfg)[0].is_colliding,
        tick_spec(cs, dt, cfg)[1].is_colliding,
        tick_spec(cs, dt, cfg)[0].sign == cs[0].sign,
        tick_spec(cs, dt, cfg)[1].sign == cs[1].sign,
        tick_spec(cs, dt, cfg)[0].q == cs[0].q,
        tick_spec(cs, dt, cfg)[1].q == cs[1].q,
        tick_spec(cs, dt, cfg)[0].id == cs[0].id,
        tick_spec(cs, dt, cfg)[1].id == cs[1].id,
{
    let csc = cleared(cs);
    lemma_cleared_wf(cs);
    assert(csc[0] == clear_m(cs[0]) && csc[1] == clear_m(cs[1]));
    lemma_two_charge_pass(csc, cfg);
    let st0 = init_state(2);
    let st = pair_step(csc, cfg, 0, 1, st0);
    let r = collision_response(csc[0], csc[1], cfg);
    assert(r.overlap);
    assert(!st.accs[0].removed && !st.accs[1].removed);
    assert(st.accs[0].colliding && st.accs[1].colliding);
    let kept = kept_upto(csc, st.accs, 2);
    assert(kept_upto(csc, st.accs, 0) == Seq::<ChargeM>::empty());
    assert(kept_upto(csc, st.accs, 1) == Seq::<ChargeM>::empty().push(apply_acc(csc[0],
        st.accs[0])));
    assert(kept == kept_upto(csc, st.accs, 1).push(apply_acc(csc[1], st.accs[1])));
    assert(kept.len() == 2);
    assert(kept[0] == apply_acc(csc[0], st.accs[0]) && kept[1] == apply_acc(csc[1], st.accs[1]));
    let merged = Seq::new(st.merges.len(), |k: int| merge_product(csc, st.merges[k], cfg));
    assert(merged =~= Seq::<ChargeM>::empty());
    assert((kept + merged) =~= kept);
    assert(tick_spec(cs, dt, cfg)[0] == integrate_m(kept[0], dt, cfg));
    assert(tick_spec(cs, dt, cfg)[1] == integrate_m(kept[1], dt, cfg));
    lemma_integrate_keeps_identity(kept[0], dt, cfg);
    lemma_integrate_keeps_identity(kept[1], dt, cfg);
}

/// Truncating division lands within one divisor of the dividend:
/// `|b * tdiv(a, b) - a| < b`.
pub proof fn lemma_tdiv_close_signed(a: int, b: int)
    requires
        b >= 1,
    ensures
        a - b < b * tdiv(a, b) <= a || a <= b * tdiv(a, b) < a + b,
{
    if a >= 0 {
        vstd::arithmetic::div_mod::lemma_fundamental_div_mod(a, b);
        vstd::arithmetic::div_mod::lemma_mod_division_less_than_divisor(a, b);
    } else {
        vstd::arithmetic::div_mod::lemma_fundamental_div_mod(-a, b);
        vstd::arithmetic::div_mod::lemma_mod_division_less_than_divisor(-a, b);
        assert(b * (-((-a) / b)) == -(b * ((-a) / b))) by (nonlinear_arith);
    }
}

/// When the configured merged mass equals the parents' combined mass (as
/// in the default tuning), the merge conserves momentum exactly, up to
/// less than one combined-mass unit of rounding per component:
/// `m_new * v_new` is within `m1 + m2` of `m1 * v1 + m2 * v2`.
pub proof fn lemma_merge_conserves_momentum(cs: Seq<ChargeM>, pr: (int, int), cfg: SimConfig)
    requires
        all_wf(cs),
        cfg.wf(),
        0 <= pr.0 < cs.len(),
        0 <= pr.1 < cs.len(),
        cfg.merged_mass == cs[pr.0].m + cs[pr.1].m,
    ensures
        ({
            let a = cs[pr.0];
            let b = cs[pr.1];
            let mp = merge_product(cs, pr, cfg);
            let px = a.velocity.x * a.m + b.velocity.x * b.m;
            let py = a.velocity.y * a.m + b.velocity.y * b.m;
            &&& mp.m == a.m + b.m
            &&& px - mp.m < mp.m * mp.velocity.x <= px || px <= mp.m * mp.velocity.x < px + mp.m
            &&& py - mp.m < mp.m * mp.velocity.y <= py || py <= mp.m * mp.velocity.y < py + mp.m
        }),
{
    let a = cs[pr.0];
    let b = cs[pr.1];
    let total = a.m + b.m;
    lemma_tdiv_close_signed(a.velocity.x * a.m + b.velocity.x * b.m, total);
    lemma_tdiv_close_signed(a.velocity.y * a.m + b.velocity.y * b.m, total);
}

/// The integer square root of a perfect square.
pub proof fn lemma_sqrt_perfect(x: int)
    requires
        x >= 0,
    ensures
        sqrt_floor(x * x) == x,
{
    assert(is_sqrt(x * x, x)) by (nonlinear_arith)
        requires
            x >= 0,
    ;
    lemma_sqrt_floor_exists(x * x);
    lemma_sqrt_unique(x * x, x, sqrt_floor(x * x));
}

/// Dividing an exact multiple is exact: `tdiv(w * n, n) == w`.
pub proof fn lemma_tdiv_exact(w: int, n: int)
    requires
        n >= 1,
    ensures
        tdiv(w * n, n) == w,
{
    vstd::arithmetic::div_mod::lemma_div_multiples_vanish(w, n);
    assert(n * w == w * n) by (nonlinear_arith);
    if w < 0 {
        assert((-w) * n == -(w * n)) by (nonlinear_arith);
        vstd::arithmetic::div_mod::lemma_div_multiples_vanish(-w, n);
        assert(n * (-w) == (-w) * n) by (nonlinear_arith);
    }
}

/// The flooring of a division is within one step of the exact quotient:
/// `b * tdiv(a, b) > a - b` for `a >= 0`.
pub proof fn lemma_tdiv_close(a: int, b: int)
    requires
        a >= 0,
        b >= 1,
    ensures
        b * tdiv(a, b) > a - b,
        b * tdiv(a, b) <= a,
{
    vstd::arithmetic::div_mod::lemma_fundamental_div_mod(a, b);
    vstd::arithmetic::div_mod::lemma_mod_division_less_than_divisor(a, b);
}

/// Two movable same-sign charges that collide along one axis with a
/// meaningful overlap are pushed back out of contact within the tick,
/// as long as the correction strength is at least one and a half: the
/// corrected centers are again at least the contact distance apart.
pub proof fn lemma_axis_collision_separates(cs: Seq<ChargeM>, dt: int, cfg: SimConfig)
    requires
        all_wf(cs),
        cfg.wf(),
        cs.len() == 2,
        !opposite_signs(cs[0].sign, cs[1].sign),
        !cs[0].is_fixed,
        !cs[1].is_fixed,
        cs[0].center.y == cs[1].center.y,
        cs[1].center.x - cs[0].center.x >= 1,
        cs[1].center.x - cs[0].center.x < cs[0].radius + cs[1].radius,
        cs[0].radius + cs[1].radius - (cs[1].center.x - cs[0].center.x) >= 4,
        cfg.correction >= 1536,
        v2_in_bounds(cs[0].center, (POS_LIMIT / 2) as int),
        v2_in_bounds(cs[1].center, (POS_LIMIT / 2) as int),
    ensures
        tick_spec(cs, dt, cfg).len() == 2,
        tick_spec(cs, dt, cfg)[1].center.x - tick_spec(cs, dt, cfg)[0].center.x >= cs[0].radius
            + cs[1].radius,
        tick_spec(cs, dt, cfg)[0].center.y == cs[0].center.y,
        tick_spec(cs, dt, cfg)[1].center.y == cs[1].center.y,
{
    let csc = cleared(cs);
    lemma_cleared_wf(cs);
    assert(csc[0] == clear_m(cs[0]) && csc[1] == clear_m(cs[1]));
    lemma_two_charge_pass(csc, cfg);
    let st0 = init_state(2);
    let st = pair_step(csc, cfg, 0, 1, st0);
    let a = csc[0];
    let b = csc[1];
    let dx0 = b.center.x - a.center.x;
    let md = a.radius + b.radius;
    let ov = md - dx0;
    // The collision geometry is exact on one axis.
    assert(dist2(a.center, b.center) == dx0 * dx0) by (nonlinear_arith)
        requires
            a.center.y == b.center.y,
            dx0 == b.center.x - a.center.x,
            dist2(a.center, b.center) == (a.center.x - b.center.x) * (a.center.x - b.center.x) + (
            a.center.y - b.center.y) * (a.center.y - b.center.y),
    ;
    assert(dx0 * dx0 < md * md) by (nonlinear_arith)
        requires
            1 <= dx0 < md,
    ;
    assert(dx0 * dx0 >= 1) by (nonlinear_arith)
        requires
            dx0 >= 1,
    ;
    let r = collision_response(a, b, cfg);
    assert(r.overlap);
    lemma_sqrt_perfect(dx0);
    let d = sqrt_floor(dist2(a.center, b.center));
    assert(d == dx0);
    // The collision normal is exactly one unit, pointing from b to a.
    assert((a.center.x - b.center.x) * (SCALE as int) == (-(SCALE as int)) * dx0)
        by (nonlinear_arith)
        requires
            a.center.x - b.center.x == -dx0,
    ;
    lemma_tdiv_exact(-(SCALE as int), dx0);
    let nx = tdiv((a.center.x - b.center.x) * (SCALE as int), d);
    assert(nx == -(SCALE as int));
    assert((a.center.y - b.center.y) * (SCALE as int) == 0 * dx0) by (nonlinear_arith)
        requires
            a.center.y == b.center.y,
    ;
    lemma_tdiv_exact(0, dx0);
    let ny = tdiv((a.center.y - b.center.y) * (SCALE as int), d);
    assert(ny == 0);
    // The correction is at least the overlap plus one...
    let corr = tdiv(ov * cfg.correction, SCALE as int);
    assert(ov * cfg.correction >= ov * 1536 && ov * 1536 >= 0 && ov * cfg.correction <= 0x200000
        * 4096) by (nonlinear_arith)
        requires
            4 <= ov <= 0x200000,
            1536 <= cfg.correction <= 4096,
    ;
    lemma_tdiv_ordered(ov * 1536, ov * cfg.correction, SCALE as int);
    lemma_tdiv_close(ov * 1536, SCALE as int);
    assert(corr >= ov + 1) by {
        let q = tdiv(ov * 1536, SCALE as int);
        assert((SCALE as int) * q > ov * 1536 - SCALE);
        assert(1024 * q > 1536 * ov - 1024 ==> q >= ov + 1) by (nonlinear_arith)
            requires
                ov >= 4,
        ;
        assert(ov * 1536 == 1536 * ov) by (nonlinear_arith);
    }
    lemma_tdiv_bound(ov * cfg.correction, SCALE as int, 0x800000);
    // ... and each body's half-share is at least half of it.
    let ca = tdiv(corr * 512, SCALE as int);
    assert(corr * 512 >= 0 && corr * 512 <= 0x800000 * 512) by (nonlinear_arith)
        requires
            0 <= corr <= 0x800000,
    ;
    lemma_tdiv_close(corr * 512, SCALE as int);
    assert(2 * ca >= corr - 1) by {
        assert((SCALE as int) * ca > corr * 512 - SCALE);
        assert(1024 * ca > 512 * corr - 1024 ==> 2 * ca >= corr - 1) by (nonlinear_arith);
        assert(corr * 512 == 512 * corr) by (nonlinear_arith);
    }
    lemma_tdiv_bound(corr * 512, SCALE as int, 0x800000);
    // The per-body shifts are exactly the shares, along the axis.
    assert(nx * ca == (-ca) * (SCALE as int) && ny * ca == 0 * (SCALE as int) && nx * ca == nx
        * ca) by (nonlinear_arith)
        requires
            nx == -(SCALE as int),
            ny == 0,
    ;
    lemma_tdiv_exact(-ca, SCALE as int);
    lemma_tdiv_exact(0, SCALE as int);
    assert(r.da == (V2 { x: -ca, y: 0 }));
    assert(r.db == (V2 { x: ca, y: 0 }));
    // Thread the shifts through the accumulator and the application.
    assert(!st.accs[0].removed && !st.accs[1].removed);
    assert(st.accs[0].dpos == (V2 { x: -ca, y: 0 }));
    assert(st.accs[1].dpos == (V2 { x: ca, y: 0 }));
    let kept = kept_upto(csc, st.accs, 2);
    assert(kept_upto(csc, st.accs, 0) == Seq::<ChargeM>::empty());
    assert(kept_upto(csc, st.accs, 1) == Seq::<ChargeM>::empty().push(apply_acc(csc[0],
        st.accs[0])));
    assert(kept == kept_upto(csc, st.accs, 1).push(apply_acc(csc[1], st.accs[1])));
    let merged = Seq::new(st.merges.len(), |k: int| merge_product(csc, st.merges[k], cfg));
    assert(merged =~= Seq::<ChargeM>::empty());
    assert((kept + merged) =~= kept);
    let a2 = apply_acc(csc[0], st.accs[0]);
    let b2 = apply_acc(csc[1], st.accs[1]);
    assert(a2.center.x == a.center.x - ca && a2.center.y == a.center.y);
    assert(b2.center.x == b.center.x + ca && b2.center.y == b.center.y);
    assert(a2.is_colliding && b2.is_colliding);
    // Colliding bodies do not translate during integration.
    assert(tick_spec(cs, dt, cfg)[0] == integrate_m(a2, dt, cfg));
    assert(tick_spec(cs, dt, cfg)[1] == integrate_m(b2, dt, cfg));
    assert(integrate_m(a2, dt, cfg).center == a2.center);
    assert(integrate_m(b2, dt, cfg).center == b2.center);
    // New separation: the old one plus both shares, past contact again.
    assert(b2.center.x - a2.center.x == dx0 + 2 * ca);
    assert(dx0 + 2 * ca >= md);
}

/// The executable twin of `PairAcc`.
pub struct PairAccE {
    pub forces: Vec<Vec2>,
    pub colliding: bool,
    pub dpos: Vec2,
    pub dvel: Vec2,
    pub removed: bool,
}

impl View for PairAccE {
    type V = PairAcc;

    open spec fn view(&self) -> PairAcc {
        PairAcc {
            forces: self.forces@.map_values(|f: Vec2| f@),
            colliding: self.colliding,
            dpos: self.dpos@,
            dvel: self.dvel@,
            removed: self.removed,
        }
    }
}

/// The models of a sequence of accumulators.
pub open spec fn accs_view(s: Seq<PairAccE>) -> Seq<PairAcc> {
    s.map_values(|a: PairAccE| a@)
}

/// The pass state held by the executable loops.
pub open spec fn cur_state(s: Seq<PairAccE>, ms: Seq<(int, int)>) -> PairState {
    PairState { accs: accs_view(s), merges: ms }
}

impl PairAccE {
    /// A fresh accumulator.
    pub fn new_init() -> (a: PairAccE)
        ensures
            a@ == init_acc(),
    {
        let a = PairAccE {
            forces: Vec::new(),
            colliding: false,
            dpos: Vec2::zero(),
            dvel: Vec2::zero(),
            removed: false,
        };
        proof {
            assert(a@.forces =~= Seq::<V2>::empty());
        }
        a
    }
}

/// Advance the whole simulation by one tick of duration `delta`: clear
/// the per-charge accumulators, evaluate every unordered pair of live
/// charges exactly once (force, collision, merge decision), remove merged
/// pairs and append their neutral products, then integrate every
/// surviving and newly created charge. The result is exactly `tick_spec`
/// of the incoming charges.
pub fn update_charges(charges: &mut Vec<PointCharge>, delta: i64, cfg: &SimConfig)
    requires
        all_wf(models(old(charges)@)),
        cfg.wf(),
        0 <= delta <= DT_LIMIT,
    ensures
        models(final(charges)@) == tick_spec(models(old(charges)@), delta as int, *cfg),
        all_wf(models(final(charges)@)),
        final(charges)@.len() == tick_spec(models(old(charges)@), delta as int, *cfg).len(),
{
    let ghost orig = models(charges@);
    let n = charges.len();
    // Clear the accumulators and the collision flags.
    let mut i: usize = 0;
    while i < n
        invariant
            all_wf(orig),
            orig == models(old(charges)@),
            cfg.wf(),
            n == charges.len(),
            n == old(charges)@.len(),
            0 <= i <= n,
            forall|k: int| 0 <= k < i ==> models(charges@)[k] == clear_m(orig[k]),
            forall|k: int| i <= k < n ==> charges@[k] == #[trigger] old(charges)@[k],
        decreases n - i,
    {
        proof {
            assert(charges@[i as int] == old(charges)@[i as int]);
            assert(orig[i as int] == charges@[i as int]@);
            assert(orig[i as int].wf());
        }
        let ghost before = charges@;
        let c = &mut charges[i];
        c.clear_forces();
        c.is_colliding = false;
        proof {
            assert(charges@ == before.update(i as int, charges@[i as int]));
            assert(charges@[i as int]@ == clear_m(orig[i as int]));
            assert forall|k: int| 0 <= k < i + 1 implies models(charges@)[k] == clear_m(
                orig[k],
            ) by {
                assert(models(charges@)[k] == charges@[k]@);
                if k < i {
                    assert(charges@[k] == before[k]);
                    assert(models(before)[k] == before[k]@);
                    assert(models(before)[k] == clear_m(orig[k]));
                }
            }
        }
        i = i + 1;
    }
    let ghost cs = models(charges@);
    proof {
        assert(cs =~= cleared(orig));
        lemma_cleared_wf(orig);
        assert(all_wf(cs));
    }
    // One fresh accumulator per charge.
    let mut accs: Vec<PairAccE> = Vec::new();
    let mut i: usize = 0;
    while i < n
        invariant
            0 <= i <= n,
            accs@.len() == i,
            forall|k: int| 0 <= k < i ==> (#[trigger] accs@[k])@ == init_acc(),
        decreases n - i,
    {
        accs.push(PairAccE::new_init());
        i = i + 1;
    }
    proof {
        assert(accs_view(accs@) =~= init_state(n as int).accs);
        assert(cur_state(accs@, Seq::empty()) == init_state(n as int));
        assert(st_ok(cs, init_state(n as int)));
    }
    // The pairwise pass, each unordered pair once in lexicographic order.
    let mut new_charges: Vec<PointCharge> = Vec::new();
    let ghost mut ms: Seq<(int, int)> = Seq::empty();
    let mut i: usize = 0;
    while i < n
        invariant
            all_wf(cs),
            cfg.wf(),
            cs.len() == n,
            n == charges.len(),
            models(charges@) == cs,
            accs@.len() == n,
            0 <= i <= n,
            pair_outer(cs, *cfg, i as int, cur_state(accs@, ms)) == pair_phase(cs, *cfg),
            st_ok(cs, cur_state(accs@, ms)),
            models(new_charges@) == Seq::new(ms.len(), |k: int| merge_product(cs, ms[k], *cfg)),
        decreases n - i,
    {
        let mut j: usize = i + 1;
        proof {
            assert(pair_outer(cs, *cfg, i as int, cur_state(accs@, ms)) == pair_outer(
                cs,
                *cfg,
                i as int + 1,
                pair_inner(cs, *cfg, i as int, i as int + 1, cur_state(accs@, ms)),
            ));
        }
        while j < n
            invariant
                all_wf(cs),
                cfg.wf(),
                cs.len() == n,
                n == charges.len(),
                models(charges@) == cs,
                accs@.len() == n,
                0 <= i < n,
                i < j <= n,
                pair_outer(
                    cs,
                    *cfg,
                    i as int + 1,
                    pair_inner(cs, *cfg, i as int, j as int, cur_state(accs@, ms)),
                ) == pair_phase(cs, *cfg),
                st_ok(cs, cur_state(accs@, ms)),
                models(new_charges@) == Seq::new(
                    ms.len(),
                    |k: int| merge_product(cs, ms[k], *cfg),
                ),
            decreases n - j,
        {
            let ghost prev = cur_state(accs@, ms);
            proof {
                assert(pair_inner(cs, *cfg, i as int, j as int, prev) == pair_inner(
                    cs,
                    *cfg,
                    i as int,
                    j as int + 1,
                    pair_step(cs, *cfg, i as int, j as int, prev),
                ));
                lemma_pair_step_ok(cs, *cfg, i as int, j as int, prev);
            }
            if !accs[i].removed && !accs[j].removed {
                proof {
                    assert(cs[i as int] == charges@[i as int]@ && cs[j as int] == charges@[
                        j as int]@);
                    assert(cs[i as int].wf() && cs[j as int].wf());
                }
                let f = force_components(
                    charges[i].center,
                    charges[j].center,
                    cfg.k_force,
                    charges[i].q,
                    charges[j].q,
                );
                let r = response_between(&charges[i], &charges[j], cfg);
                let mg = r.overlap && charges[i].should_merge_with(&charges[j]);
                let mirror = Vec2 { x: -f.x, y: -f.y };
                let ai = &mut accs[i];
                ai.forces.push(f);
                ai.colliding = ai.colliding || r.overlap;
                ai.dpos = v2_add_clip_exec(ai.dpos, r.da, ACCUM_LIMIT);
                ai.dvel = v2_add_clip_exec(ai.dvel, r.dva, ACCUM_LIMIT);
                ai.removed = mg;
                let aj = &mut accs[j];
                aj.forces.push(mirror);
                aj.colliding = aj.colliding || r.overlap;
                aj.dpos = v2_add_clip_exec(aj.dpos, r.db, ACCUM_LIMIT);
                aj.dvel = v2_add_clip_exec(aj.dvel, r.dvb, ACCUM_LIMIT);
                aj.removed = mg;
                proof {
                    let st2 = pair_step(cs, *cfg, i as int, j as int, prev);
                    assert(accs@[i as int]@.forces =~= prev.accs[i as int].forces.push(f@));
                    assert(accs@[j as int]@.forces =~= prev.accs[j as int].forces.push(
                        V2 { x: -f@.x, y: -f@.y },
                    ));
                    assert(accs_view(accs@) =~= st2.accs);
                }
                if mg {
                    proof {
                        assert(cs[i as int].m >= 1 && cs[j as int].m >= 1);
                        lemma_weighted_avg_bound(
                            cs[i as int].velocity.x,
                            cs[i as int].m,
                            cs[j as int].velocity.x,
                            cs[j as int].m,
                            VEL_LIMIT as int,
                        );
                        lemma_weighted_avg_bound(
                            cs[i as int].velocity.y,
                            cs[i as int].m,
                            cs[j as int].velocity.y,
                            cs[j as int].m,
                            VEL_LIMIT as int,
                        );
                        lemma_mul_abs_bound(
                            cs[i as int].velocity.x,
                            cs[i as int].m,
                            VEL_LIMIT as int,
                            MASS_LIMIT as int,
                        );
                        lemma_mul_abs_bound(
                            cs[i as int].velocity.y,
                            cs[i as int].m,
                            VEL_LIMIT as int,
                            MASS_LIMIT as int,
                        );
                        lemma_mul_abs_bound(
                            cs[j as int].velocity.x,
                            cs[j as int].m,
                            VEL_LIMIT as int,
                            MASS_LIMIT as int,
                        );
                        lemma_mul_abs_bound(
                            cs[j as int].velocity.y,
                            cs[j as int].m,
                            VEL_LIMIT as int,
                            MASS_LIMIT as int,
                        );
                        lemma_tdiv_bound(
                            cs[i as int].center.x + cs[j as int].center.x,
                            2,
                            POS_LIMIT as int,
                        );
                        lemma_tdiv_bound(
                            cs[i as int].center.y + cs[j as int].center.y,
                            2,
                            POS_LIMIT as int,
                        );
                    }
                    let total_mass = charges[i].m + charges[j].m;
                    let vel = if total_mass >= 1 {
                        let vx = tdiv_i128(
                            (charges[i].velocity.x as i128) * (charges[i].m as i128) + (
                            charges[j].velocity.x as i128) * (charges[j].m as i128),
                            total_mass as i128,
                        ) as i64;
                        let vy = tdiv_i128(
                            (charges[i].velocity.y as i128) * (charges[i].m as i128) + (
                            charges[j].velocity.y as i128) * (charges[j].m as i128),
                            total_mass as i128,
                        ) as i64;
                        Vec2 { x: vx, y: vy }
                    } else {
                        Vec2::zero()
                    };
                    let cx = tdiv_i64(charges[i].center.x + charges[j].center.x, 2);
                    let cy = tdiv_i64(charges[i].center.y + charges[j].center.y, 2);
                    let both_fixed = charges[i].is_fixed && charges[j].is_fixed;
                    let mut neutral = PointCharge::new_neutral_charge_from_merge(
                        charges[i].id,
                        Vec2 { x: cx, y: cy },
                        both_fixed,
                        cfg,
                    );
                    neutral.velocity = vel;
                    let ghost old_ms = ms;
                    let ghost old_new = new_charges@;
                    proof {
                        assert(neutral@ == merge_product(cs, (i as int, j as int), *cfg));
                        ms = ms.push((i as int, j as int));
                    }
                    new_charges.push(neutral);
                    proof {
                        assert(models(old_new).len() == old_new.len());
                        assert(old_new.len() == old_ms.len());
                        assert(new_charges@ == old_new.push(neutral));
                        assert forall|k: int|
                            0 <= k < ms.len() implies models(new_charges@)[k] == merge_product(
                            cs,
                            #[trigger] ms[k],
                            *cfg,
                        ) by {
                            if k < old_ms.len() {
                                assert(new_charges@[k] == old_new[k]);
                                assert(ms[k] == old_ms[k]);
                                assert(models(old_new)[k] == merge_product(cs, old_ms[k], *cfg));
                            } else {
                                assert(ms[k] == (i as int, j as int));
                                assert(new_charges@[k] == neutral);
                            }
                        }
                        assert(models(new_charges@) =~= Seq::new(
                            ms.len(),
                            |k: int| merge_product(cs, ms[k], *cfg),
                        ));
                    }
                }
            } else {
                proof {
                    assert(pair_step(cs, *cfg, i as int, j as int, prev) == prev);
                }
            }
            j = j + 1;
        }
        proof {
            assert(pair_inner(cs, *cfg, i as int, n as int, cur_state(accs@, ms)) == cur_state(
                accs@,
                ms,
            ));
        }
        i = i + 1;
    }
    let ghost st_final = cur_state(accs@, ms);
    proof {
        assert(pair_outer(cs, *cfg, n as int, st_final) == st_final);
        assert(st_final == pair_phase(cs, *cfg));
    }
    // Compact: keep the survivors in order, with their accumulators applied.
    proof {
        assert(models(charges@) =~= cs.subrange(0, n as int));
        assert(accs_view(accs@) =~= st_final.accs.subrange(0, n as int));
    }
    let mut out: Vec<PointCharge> = Vec::new();
    let mut k: usize = 0;
    while k < n
        invariant
            all_wf(cs),
            cfg.wf(),
            cs.len() == n,
            0 <= k <= n,
            charges@.len() == n - k,
            accs@.len() == n - k,
            models(charges@) == cs.subrange(k as int, n as int),
            accs_view(accs@) == st_final.accs.subrange(k as int, n as int),
            st_ok(cs, st_final),
            models(out@) == kept_upto(cs, st_final.accs, k as int),
            all_wf(models(out@)),
        decreases n - k,
    {
        let ghost charges_prev = charges@;
        let ghost accs_prev = accs@;
        let acc = accs.remove(0);
        let mut c = charges.remove(0);
        proof {
            assert(models(charges_prev)[0] == cs.subrange(k as int, n as int)[0]);
            assert(accs_view(accs_prev)[0] == st_final.accs.subrange(k as int, n as int)[0]);
            assert(c@ == cs[k as int]);
            assert(acc@ == st_final.accs[k as int]);
            assert(cs[k as int].wf());
            charges_prev.remove_ensures(0);
            accs_prev.remove_ensures(0);
            assert forall|t: int|
                0 <= t < n - (k + 1) implies models(charges@)[t] == cs.subrange(
                k as int + 1,
                n as int,
            )[t] by {
                assert(charges@[t] == charges_prev.remove(0)[t]);
                assert(charges@[t] == charges_prev[t + 1]);
                assert(models(charges@)[t] == charges@[t]@);
                assert(models(charges_prev)[t + 1] == charges_prev[t + 1]@);
                assert(models(charges_prev)[t + 1] == cs.subrange(k as int, n as int)[t + 1]);
            }
            assert(models(charges@) =~= cs.subrange(k as int + 1, n as int));
            assert forall|t: int|
                0 <= t < n - (k + 1) implies accs_view(accs@)[t] == st_final.accs.subrange(
                k as int + 1,
                n as int,
            )[t] by {
                assert(accs@[t] == accs_prev.remove(0)[t]);
                assert(accs@[t] == accs_prev[t + 1]);
                assert(accs_view(accs@)[t] == accs@[t]@);
                assert(accs_view(accs_prev)[t + 1] == accs_prev[t + 1]@);
                assert(accs_view(accs_prev)[t + 1] == st_final.accs.subrange(k as int, n as int)[t
                    + 1]);
            }
            assert(accs_view(accs@) =~= st_final.accs.subrange(k as int + 1, n as int));
        }
        let PairAccE { forces: af, colliding: ac, dpos: adp, dvel: adv, removed: ar } = acc;
        if !ar {
            c.forces = af;
            c.is_colliding = ac;
            c.center = v2_add_clip_exec(c.center, adp, POS_LIMIT);
            c.velocity = v2_add_clip_exec(c.velocity, adv, VEL_LIMIT);
            proof {
                lemma_apply_acc_wf(cs[k as int], st_final.accs[k as int]);
                assert(c@ == apply_acc(cs[k as int], st_final.accs[k as int]));
            }
            out.push(c);
        }
        proof {
            assert(models(out@) =~= kept_upto(cs, st_final.accs, k as int + 1));
        }
        k = k + 1;
    }
    // Append the neutral merge products.
    let ghost kept = kept_upto(cs, st_final.accs, n as int);
    let ghost merged = Seq::new(st_final.merges.len(), |k: int| merge_product(cs,
        st_final.merges[k], *cfg));
    proof {
        assert forall|t: int| 0 <= t < merged.len() implies (#[trigger] merged[t]).wf() by {
            lemma_merge_product_wf(cs, st_final.merges[t], *cfg);
        }
    }
    out.append(&mut new_charges);
    proof {
        assert(models(out@) =~= kept + merged);
        assert(all_wf(models(out@)));
    }
    // Integrate every surviving and newly created charge.
    let ghost pre = models(out@);
    let m_total = out.len();
    let mut t: usize = 0;
    while t < m_total
        invariant
            cfg.wf(),
            0 <= delta <= DT_LIMIT,
            m_total == out.len(),
            0 <= t <= m_total,
            pre.len() == m_total,
            all_wf(pre),
            forall|u: int|
                0 <= u < t ==> models(out@)[u] == integrate_m(pre[u], delta as int, *cfg) && (
                #[trigger] models(out@)[u]).wf(),
            forall|u: int| t <= u < m_total ==> models(out@)[u] == #[trigger] pre[u],
        decreases m_total - t,
    {
        proof {
            assert(models(out@)[t as int] == pre[t as int]);
            assert(pre[t as int].wf());
        }
        let ghost out_prev = out@;
        let c = &mut out[t];
        c.calculate_net_force();
        c.calculate_max_force();
        c.calculate_acceleration();
        c.calculate_velocity(cfg);
        c.movement(delta);
        proof {
            assert(out@ == out_prev.update(t as int, out@[t as int]));
            assert(models(out@)[t as int] == integrate_m(pre[t as int], delta as int, *cfg));
            assert forall|u: int|
                0 <= u < t + 1 implies models(out@)[u] == integrate_m(pre[u], delta as int, *cfg)
                    && (#[trigger] models(out@)[u]).wf() by {
                if u < t {
                    assert(out@[u] == out_prev[u]);
                    assert(models(out_prev)[u] == integrate_m(pre[u], delta as int, *cfg));
                    assert(models(out_prev)[u].wf());
                }
            }
            assert forall|u: int| t + 1 <= u < m_total implies out@[u]@ == #[trigger] pre[u] by {
                assert(out@[u] == out_prev[u]);
                assert(models(out_prev)[u] == pre[u]);
            }
        }
        t = t + 1;
    }
    *charges = out;
    proof {
        assert(models(charges@) =~= pre.map_values(|c: ChargeM| integrate_m(c, delta as int,
            *cfg)));
        assert(models(charges@) =~= tick_spec(orig, delta as int, *cfg));
        assert(all_wf(models(charges@)));
    }
}

/// The models of a sequence of probes.
pub open spec fn probe_models(s: Seq<TestCharge>) -> Seq<TestM> {
    s.map_values(|t: TestCharge| t@)
}

/// Every probe in the sequence is well-formed.
pub open spec fn all_probes_wf(ts: Seq<TestM>) -> bool {
    forall|i: int| 0 <= i < ts.len() ==> (#[trigger] ts[i]).wf()
}

/// The forces a probe's unit charge receives, one per live charge.
pub open spec fn probe_forces(t: TestM, cs: Seq<ChargeM>, cfg: SimConfig) -> Seq<V2> {
    Seq::new(
        cs.len(),
        |j: int| force_on(cfg.k_force as int, t.q, cs[j].q, t.center, cs[j].center),
    )
}

/// A probe hides when any real charge comes within the configured
/// clearance, to avoid drawing singular arrows over a body.
pub open spec fn probe_hidden(t: TestM, cs: Seq<ChargeM>, cfg: SimConfig) -> bool {
    exists|j: int|
        0 <= j < cs.len() && dist2(t.center, (#[trigger] cs[j]).center) < cfg.probe_clearance
            * cfg.probe_clearance
}

/// One probe after the per-probe phases of the field update: cleared,
/// refilled with one force per charge, hidden flag re-derived, and the
/// net force reduced only for a visible probe.
pub open spec fn probe_mid(t: TestM, cs: Seq<ChargeM>, cfg: SimConfig) -> TestM {
    let fs = probe_forces(t, cs, cfg);
    TestM {
        center: t.center,
        is_hidden: probe_hidden(t, cs, cfg),
        q: t.q,
        forces: fs,
        net_force: if probe_hidden(t, cs, cfg) {
            v2_zero()
        } else {
            net_from(fs)
        },
        max_force_magnitude: 0,
        potential: 0,
    }
}

/// The largest net-force magnitude over the field (zero when there are no
/// probes), used to normalize the drawn arrows.
pub open spec fn field_max(ts: Seq<TestM>) -> int
    decreases ts.len(),
{
    if ts.len() == 0 {
        0
    } else {
        spec_max(field_max(ts.drop_last()), v2_norm(ts.last().net_force))
    }
}

/// The whole field update as a function of the probes and the charges.
pub open spec fn update_field_spec(
    ts: Seq<TestM>,
    cs: Seq<ChargeM>,
    cfg: SimConfig,
) -> Seq<TestM> {
    let mids = ts.map_values(|t: TestM| probe_mid(t, cs, cfg));
    mids.map_values(|t: TestM| TestM { max_force_magnitude: field_max(mids), ..t })
}

/// Whether two points lie strictly closer than `lim`.
pub fn within_distance(a: Vec2, b: Vec2, lim: i64) -> (r: bool)
    requires
        v2_in_bounds(a@, POS_LIMIT as int),
        v2_in_bounds(b@, POS_LIMIT as int),
        0 <= lim,
    ensures
        r == (dist2(a@, b@) < (lim as int) * (lim as int)),
{
    let dx = a.x - b.x;
    let dy = a.y - b.y;
    proof {
        lemma_mul_abs_bound(dx as int, dx as int, 0x100000000, 0x100000000);
        lemma_mul_abs_bound(dy as int, dy as int, 0x100000000, 0x100000000);
        lemma_mul_abs_bound(lim as int, lim as int, 0x8000000000000000, 0x8000000000000000);
    }
    let d2: i128 = (dx as i128) * (dx as i128) + (dy as i128) * (dy as i128);
    d2 < (lim as i128) * (lim as i128)
}

/// Rebuild one probe against the current charges: clear it, accumulate
/// one force per charge, re-derive the hidden flag, and reduce the net
/// force if the probe is visible.
fn refresh_probe(t: &mut TestCharge, charges: &Vec<PointCharge>, cfg: &SimConfig)
    requires
        old(t)@.wf(),
        all_wf(models(charges@)),
        cfg.wf(),
    ensures
        final(t)@ == probe_mid(old(t)@, models(charges@), *cfg),
        final(t)@.wf(),
{
    let ghost cs = models(charges@);
    let ghost t0 = t@;
    t.clear_forces();
    let n = charges.len();
    let mut j: usize = 0;
    while j < n
        invariant
            t0.wf(),
            all_wf(cs),
            cfg.wf(),
            cs == models(charges@),
            n == charges.len(),
            0 <= j <= n,
            t@.wf(),
            t@.center == t0.center,
            t@.q == t0.q,
            t@.is_hidden == t0.is_hidden,
            t@.net_force == v2_zero(),
            t@.max_force_magnitude == 0,
            t@.potential == 0,
            t@.forces == Seq::new(
                j as nat,
                |u: int| force_on(cfg.k_force as int, t0.q, cs[u].q, t0.center, cs[u].center),
            ),
        decreases n - j,
    {
        proof {
            assert(cs[j as int] == charges@[j as int]@);
            assert(cs[j as int].wf());
        }
        let ghost fs_before = t@.forces;
        t.force_with(&charges[j], cfg);
        proof {
            assert(t@.forces =~= Seq::new(
                (j + 1) as nat,
                |u: int| force_on(cfg.k_force as int, t0.q, cs[u].q, t0.center, cs[u].center),
            ));
        }
        j = j + 1;
    }
    let mut hid = false;
    let mut j: usize = 0;
    while j < n
        invariant
            t0.wf(),
            all_wf(cs),
            cfg.wf(),
            cs == models(charges@),
            n == charges.len(),
            0 <= j <= n,
            t@.wf(),
            t@.center == t0.center,
            hid == exists|u: int|
                0 <= u < j && dist2(t0.center, (#[trigger] cs[u]).center) < cfg.probe_clearance
                    * cfg.probe_clearance,
        decreases n - j,
    {
        proof {
            assert(cs[j as int] == charges@[j as int]@);
            assert(cs[j as int].wf());
        }
        let close = within_distance(t.center, charges[j].center, cfg.probe_clearance);
        proof {
            if close {
                assert(dist2(t0.center, cs[j as int].center) < cfg.probe_clearance
                    * cfg.probe_clearance);
            }
        }
        hid = hid || close;
        j = j + 1;
    }
    t.is_hidden = hid;
    proof {
        assert(hid == probe_hidden(t0, cs, *cfg));
    }
    if !hid {
        t.calculate_net_force();
    }
    proof {
        assert(t@.forces =~= probe_forces(t0, cs, *cfg));
        assert(t@ == probe_mid(t0, cs, *cfg));
    }
}

/// Recompute the sampled field: rebuild every probe against the live
/// charges, then install the field-wide maximum net-force magnitude on
/// every probe for display normalization.
pub fn update_field(test_charges: &mut Vec<TestCharge>, charges: &Vec<PointCharge>, cfg: &SimConfig)
    requires
        all_probes_wf(probe_models(old(test_charges)@)),
        all_wf(models(charges@)),
        cfg.wf(),
    ensures
        probe_models(final(test_charges)@) == update_field_spec(
            probe_models(old(test_charges)@),
            models(charges@),
            *cfg,
        ),
        all_probes_wf(probe_models(final(test_charges)@)),
{
    let ghost ts0 = probe_models(test_charges@);
    let ghost cs = models(charges@);
    let ghost mids = ts0.map_values(|t: TestM| probe_mid(t, cs, *cfg));
    let n = test_charges.len();
    let mut i: usize = 0;
    while i < n
        invariant
            all_probes_wf(ts0),
            all_wf(cs),
            cfg.wf(),
            cs == models(charges@),
            n == test_charges.len(),
            ts0.len() == n,
            mids == ts0.map_values(|t: TestM| probe_mid(t, cs, *cfg)),
            0 <= i <= n,
            forall|k: int|
                0 <= k < i ==> probe_models(test_charges@)[k] == mids[k] && (
                #[trigger] probe_models(test_charges@)[k]).wf(),
            forall|k: int| i <= k < n ==> test_charges@[k]@ == #[trigger] ts0[k],
        decreases n - i,
    {
        proof {
            assert(test_charges@[i as int]@ == ts0[i as int]);
            assert(ts0[i as int].wf());
        }
        let ghost before = test_charges@;
        let p = &mut test_charges[i];
        refresh_probe(p, charges, cfg);
        proof {
            assert(test_charges@ == before.update(i as int, test_charges@[i as int]));
            assert(mids[i as int] == probe_mid(ts0[i as int], cs, *cfg));
            assert forall|k: int|
                0 <= k < i + 1 implies probe_models(test_charges@)[k] == mids[k] && (
            #[trigger] probe_models(test_charges@)[k]).wf() by {
                assert(probe_models(test_charges@)[k] == test_charges@[k]@);
                if k < i {
                    assert(test_charges@[k] == before[k]);
                    assert(probe_models(before)[k] == before[k]@);
                    assert(probe_models(before)[k] == mids[k]);
                    assert(probe_models(before)[k].wf());
                }
            }
            assert forall|k: int| i + 1 <= k < n implies test_charges@[k]@ == #[trigger] ts0[k] by {
                assert(test_charges@[k] == before[k]);
            }
        }
        i = i + 1;
    }
    proof {
        assert(probe_models(test_charges@) =~= mids);
    }
    // The field-wide maximum net-force magnitude.
    let mut mf: i64 = 0;
    let mut i: usize = 0;
    while i < n
        invariant
            all_probes_wf(mids),
            cfg.wf(),
            n == test_charges.len(),
            mids.len() == n,
            probe_models(test_charges@) == mids,
            0 <= i <= n,
            mf == field_max(mids.take(i as int)),
            0 <= mf <= 2 * ACCUM_LIMIT,
        decreases n - i,
    {
        proof {
            assert(mids[i as int] == test_charges@[i as int]@);
            assert(mids[i as int].wf());
            lemma_norm_bound(mids[i as int].net_force, ACCUM_LIMIT as int);
            assert(mids.take(i + 1).drop_last() =~= mids.take(i as int));
            assert(mids.take(i + 1).last() == mids[i as int]);
        }
        let nn = test_charges[i].net_force.norm();
        if nn > mf {
            mf = nn;
        }
        i = i + 1;
    }
    proof {
        assert(mids.take(n as int) =~= mids);
    }
    // Install it on every probe.
    let mut i: usize = 0;
    while i < n
        invariant
            all_probes_wf(mids),
            cfg.wf(),
            n == test_charges.len(),
            mids.len() == n,
            0 <= i <= n,
            0 <= mf <= 2 * ACCUM_LIMIT,
            mf == field_max(mids),
            forall|k: int|
                0 <= k < i ==> probe_models(test_charges@)[k] == (TestM {
                    max_force_magnitude: mf as int,
                    ..mids[k]
                }) && (#[trigger] probe_models(test_charges@)[k]).wf(),
            forall|k: int| i <= k < n ==> test_charges@[k]@ == #[trigger] mids[k],
        decreases n - i,
    {
        proof {
            assert(test_charges@[i as int]@ == mids[i as int]);
            assert(mids[i as int].wf());
        }
        let ghost before = test_charges@;
        let p = &mut test_charges[i];
        p.set_max_force(mf);
        proof {
            assert(test_charges@ == before.update(i as int, test_charges@[i as int]));
            assert forall|k: int|
                0 <= k < i + 1 implies probe_models(test_charges@)[k] == (TestM {
                max_force_magnitude: mf as int,
                ..mids[k]
            }) && (#[trigger] probe_models(test_charges@)[k]).wf() by {
                assert(probe_models(test_charges@)[k] == test_charges@[k]@);
                if k < i {
                    assert(test_charges@[k] == before[k]);
                    assert(probe_models(before)[k] == before[k]@);
                }
            }
            assert forall|k: int| i + 1 <= k < n implies test_charges@[k]@ == #[trigger] mids[k] by {
                assert(test_charges@[k] == before[k]);
            }
        }
        i = i + 1;
    }
    proof {
        assert(probe_models(test_charges@) =~= update_field_spec(ts0, cs, *cfg));
    }
}

} // verus!
