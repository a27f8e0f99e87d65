//! When the extra impulse fires, and what it is.
use crate::math::Vec3A;
use crate::sim::ball_hit::config::{BallHitConfig, HitCadence};
use crate::sim::ball_hit::state::BallHitState;
use crate::sim::types::GameMode;
use crate::single::{Single, ONE_BITS};
use crate::single_laws::{law_nan_spreads, law_nothing_left, law_product_commutes, law_product_grows, law_product_sign, law_sum_commutes, law_sum_grows, law_sums_grow, law_zero_stays_zero};
use vstd::prelude::*;

verus! {

/// What the impulse needs to know about one contact of a car and the ball.
#[derive(Clone, Copy, Debug)]
pub struct HitContext {
    pub ball_pos: Vec3A,
    pub ball_vel: Vec3A,
    pub car_pos: Vec3A,
    pub car_vel: Vec3A,
    pub car_forward: Vec3A,
    pub game_mode: GameMode,
    pub car_is_on_ground: bool,
    /// The upward part of the car's up direction; 1 is perfectly upright.
    pub car_up_z: Single,
}

/// A tick lies between `last`, if there is one, and `tick_count`.
pub open spec fn spaced(last: Option<u64>, tick_count: u64) -> bool {
    match last {
        Some(t) => t + 1 < tick_count,
        None => true,
    }
}

/// Whether the impulse may fire on a tick.
pub open spec fn may_fire(state: BallHitState, cadence: HitCadence, tick_count: u64) -> bool {
    match cadence {
        HitCadence::EveryTick => true,
        HitCadence::EveryOtherTick => spaced(state.last_impulse_tick, tick_count),
        HitCadence::OncePerEpisode => spaced(state.last_impulse_tick, tick_count) && spaced(
            state.last_contact_tick,
            tick_count,
        ),
    }
}

/// Whether the impulse may fire on this tick.
pub fn can_fire(state: &BallHitState, config: &BallHitConfig, tick_count: u64) -> (r: bool)
    requires
        state.last_impulse_tick != Some(u64::MAX),
        config.cadence is OncePerEpisode && spaced(state.last_impulse_tick, tick_count)
            ==> state.last_contact_tick != Some(u64::MAX),
    ensures
        r == may_fire(*state, config.cadence, tick_count),
{
    let spacing_ok: bool = match state.last_impulse_tick {
        Some(last) => last + 1 < tick_count,
        None => true,
    };
    match config.cadence {
        HitCadence::EveryTick => true,
        HitCadence::EveryOtherTick => spacing_ok,
        HitCadence::OncePerEpisode => {
            spacing_ok && match state.last_contact_tick {
                Some(last) => last + 1 < tick_count,
                None => true,
            }
        },
    }
}

/// The relative speed that counts.
pub open spec fn relative_speed(ctx: HitContext, config: BallHitConfig) -> Single {
    ctx.ball_vel.minus(ctx.car_vel).length().smaller_of(config.max_delta_vel_uu)
}

/// The scale of the upward part of the hit direction.
pub open spec fn upward_scale(ctx: HitContext, config: BallHitConfig) -> Single {
    if ctx.game_mode is Hoops && ctx.car_is_on_ground && config.z_scale_hoops_normal_z_thresh.less(ctx.car_up_z) {
        config.z_scale_hoops_ground
    } else {
        config.z_scale
    }
}

/// The direction from the car to the ball, flattened.
pub open spec fn straight_direction(ctx: HitContext, config: BallHitConfig) -> Vec3A {
    let one = Single { bits: ONE_BITS };
    ctx.ball_pos.minus(ctx.car_pos).times(
        Vec3A { x: one, y: one, z: upward_scale(ctx, config) },
    ).normalize_or_zero()
}

/// That direction, nudged toward the car's forward axis: its part along the axis grows by what
/// the forward scale leaves of 1.
pub open spec fn nudged_direction(ctx: HitContext, config: BallHitConfig) -> Vec3A {
    let straight = straight_direction(ctx, config);
    let forward = ctx.car_forward.scale(straight.dot(ctx.car_forward)).scale(
        (Single { bits: ONE_BITS }).minus(config.forward_scale),
    );
    straight.plus(forward)
}

/// The direction of the hit.
pub open spec fn hit_direction(ctx: HitContext, config: BallHitConfig) -> Vec3A {
    nudged_direction(ctx, config).normalize_or_zero()
}

/// The change of the ball's velocity by the extra impulse.
pub open spec fn hit_impulse(ctx: HitContext, config: BallHitConfig) -> Vec3A {
    let speed = relative_speed(ctx, config);
    if speed.at_most(Single { bits: 0 }) {
        Vec3A::zero()
    } else {
        hit_direction(ctx, config).scale(speed).scale(config.factor_curve.output(speed))
    }
}

/// The change of the ball's velocity by the extra impulse for one contact; zero when the ball
/// does not move relative to the car.
pub fn compute_impulse(ctx: &HitContext, config: &BallHitConfig) -> (r: Vec3A)
    ensures
        r == hit_impulse(*ctx, *config),
{
    let rel_pos = ctx.ball_pos.minus(ctx.car_pos);
    let rel_vel = ctx.ball_vel.minus(ctx.car_vel);
    let rel_speed = rel_vel.length().min(config.max_delta_vel_uu);
    if rel_speed.le(Single::zero()) {
        return Vec3A::zero();
    }
    let extra_z_scale: bool = ctx.game_mode == GameMode::Hoops && ctx.car_is_on_ground && ctx.car_up_z.gt(
        config.z_scale_hoops_normal_z_thresh,
    );
    let z_scale = if extra_z_scale { config.z_scale_hoops_ground } else { config.z_scale };
    let one = Single::one();
    let straight = rel_pos.times(Vec3A::new(one, one, z_scale)).normalize_or_zero();
    let forward = ctx.car_forward.scale(straight.dot(ctx.car_forward)).scale(one.minus(config.forward_scale));
    let hit_dir = straight.plus(forward).normalize_or_zero();
    hit_dir.scale(rel_speed).scale(config.factor_curve.get_output(rel_speed))
}

/// On every tick of contact the impulse fires, whatever happened before.
pub proof fn law_every_tick_fires(state: BallHitState, tick_count: u64)
    ensures
        may_fire(state, HitCadence::EveryTick, tick_count),
{
}

/// On every other tick at most: after an impulse the next tick is blocked, and every later one is
/// free.
pub proof fn law_every_other_tick_blocks_the_next(state: BallHitState, last: u64, tick_count: u64)
    requires
        state.last_impulse_tick == Some(last),
        last < tick_count,
    ensures
        may_fire(state, HitCadence::EveryOtherTick, tick_count) <==> tick_count > last + 1,
{
}

/// Once per contact: as long as the ball touched a car on this tick or the one before, the impulse
/// does not fire again; after a tick without contact, and without an impulse, it does.
pub proof fn law_once_per_episode(state: BallHitState, touched: u64, tick_count: u64)
    requires
        state.last_contact_tick == Some(touched),
        touched <= tick_count,
    ensures
        tick_count <= touched + 1 ==> !may_fire(state, HitCadence::OncePerEpisode, tick_count),
        tick_count > touched + 1 && spaced(state.last_impulse_tick, tick_count) ==> may_fire(
            state,
            HitCadence::OncePerEpisode,
            tick_count,
        ),
{
}

/// A cadence that fires less often fires only when the others do.
pub proof fn law_cadences_nest(state: BallHitState, tick_count: u64)
    ensures
        may_fire(state, HitCadence::OncePerEpisode, tick_count) ==> may_fire(
            state,
            HitCadence::EveryOtherTick,
            tick_count,
        ),
        may_fire(state, HitCadence::EveryOtherTick, tick_count) ==> may_fire(state, HitCadence::EveryTick, tick_count),
{
}

/// A ball that has never been hit nor touched may be hit, at every cadence.
pub proof fn law_untouched_ball_may_be_hit(state: BallHitState, cadence: HitCadence, tick_count: u64)
    requires
        state.last_impulse_tick is None,
        state.last_contact_tick is None,
    ensures
        may_fire(state, cadence, tick_count),
{
}

/// No relative speed, no impulse.
pub proof fn law_no_speed_no_impulse(ctx: HitContext, config: BallHitConfig)
    requires
        ctx.ball_vel.minus(ctx.car_vel).length().equals(Single { bits: 0 }),
    ensures
        hit_impulse(ctx, config) == Vec3A::zero(),
{
}

/// A ball that moves along with the car gets no impulse.
pub proof fn law_moving_along_gives_no_impulse(ctx: HitContext, config: BallHitConfig)
    requires
        ctx.ball_vel == ctx.car_vel,
        ctx.car_vel.finite(),
    ensures
        hit_impulse(ctx, config) == Vec3A::zero(),
{
    law_nothing_left(ctx.car_vel.x);
    law_nothing_left(ctx.car_vel.y);
    law_nothing_left(ctx.car_vel.z);
    law_zero_stays_zero();
}

/// However fast the ball and the car are, no more than the greatest relative speed counts.
pub proof fn law_relative_speed_is_capped(ctx: HitContext, config: BallHitConfig)
    requires
        !config.max_delta_vel_uu.is_a_nan(),
    ensures
        relative_speed(ctx, config).at_most(config.max_delta_vel_uu),
{
}

/// One component of the nudged direction, `straight + axis * part * weight`, times that of the
/// forward axis does not shrink when the weight grows.
proof fn lemma_component_grows(straight: Single, axis: Single, part: Single, less: Single, more: Single)
    requires
        (Single { bits: 0 }).less(part),
        less.at_most(more),
        !straight.plus(axis.times(part).times(less)).times(axis).is_a_nan(),
        !straight.plus(axis.times(part).times(more)).times(axis).is_a_nan(),
    ensures
        straight.plus(axis.times(part).times(less)).times(axis).at_most(
            straight.plus(axis.times(part).times(more)).times(axis),
        ),
{
    let along = axis.times(part);
    let (small, large) = (along.times(less), along.times(more));
    lemma_no_nan_before(straight, small, axis);
    lemma_no_nan_before(straight, large, axis);
    if along.is_a_nan() {
        law_nan_spreads(along, less);
    }
    if axis.is_a_nan() {
        law_nan_spreads(axis, part);
    }
    law_product_sign(axis, part);
    law_product_commutes(less, along);
    law_product_commutes(more, along);
    law_product_grows(less, more, along);
    law_sum_commutes(straight, small);
    law_sum_commutes(straight, large);
    if along.negative() {
        law_sum_grows(large, small, straight);
        law_product_grows(large.plus(straight), small.plus(straight), axis);
    } else {
        law_sum_grows(small, large, straight);
        law_product_grows(small.plus(straight), large.plus(straight), axis);
    }
}

/// A sum times a factor that is no NaN comes of numbers that are none.
proof fn lemma_no_nan_before(a: Single, b: Single, factor: Single)
    requires
        !a.plus(b).times(factor).is_a_nan(),
    ensures
        !a.is_a_nan(),
        !b.is_a_nan(),
        !a.plus(b).is_a_nan(),
        !factor.is_a_nan(),
{
    if a.plus(b).is_a_nan() {
        law_nan_spreads(a.plus(b), factor);
    }
    if factor.is_a_nan() {
        law_nan_spreads(factor, a.plus(b));
    }
    if a.is_a_nan() {
        law_nan_spreads(a, b);
    }
    if b.is_a_nan() {
        law_nan_spreads(b, a);
    }
}

/// A sum that is no NaN comes of numbers that are none.
proof fn lemma_no_nan_in_sum(a: Single, b: Single)
    requires
        !a.plus(b).is_a_nan(),
    ensures
        !a.is_a_nan(),
        !b.is_a_nan(),
{
    if a.is_a_nan() {
        law_nan_spreads(a, b);
    }
    if b.is_a_nan() {
        law_nan_spreads(b, a);
    }
}

/// A smaller forward scale biases the hit forward: where the ball is ahead of the car, the part
/// of the nudged direction along the car's forward axis is never less with the smaller scale.
pub proof fn law_smaller_forward_scale_hits_more_forward(ctx: HitContext, low: BallHitConfig, high: BallHitConfig)
    requires
        low == (BallHitConfig { forward_scale: low.forward_scale, ..high }),
        low.forward_scale.at_most(high.forward_scale),
        (Single { bits: 0 }).less(straight_direction(ctx, high).dot(ctx.car_forward)),
    ensures
        !nudged_direction(ctx, low).dot(ctx.car_forward).less(nudged_direction(ctx, high).dot(ctx.car_forward)),
{
    let axis = ctx.car_forward;
    let straight = straight_direction(ctx, high);
    assert(straight_direction(ctx, low) == straight);
    let part = straight.dot(axis);
    let one = Single { bits: ONE_BITS };
    let more = one.minus(low.forward_scale);
    let less = one.minus(high.forward_scale);
    let a = nudged_direction(ctx, high);
    let b = nudged_direction(ctx, low);
    if !a.dot(axis).is_a_nan() && !b.dot(axis).is_a_nan() {
        law_sum_commutes(one, low.forward_scale.opposite());
        law_sum_commutes(one, high.forward_scale.opposite());
        lemma_no_nan_in_sum(a.x.times(axis.x).plus(a.y.times(axis.y)), a.z.times(axis.z));
        lemma_no_nan_in_sum(b.x.times(axis.x).plus(b.y.times(axis.y)), b.z.times(axis.z));
        lemma_no_nan_in_sum(a.x.times(axis.x), a.y.times(axis.y));
        lemma_no_nan_in_sum(b.x.times(axis.x), b.y.times(axis.y));
        lemma_no_nan_before(straight.x, axis.x.times(part).times(more), axis.x);
        lemma_no_nan_before(straight.x, axis.x.times(part).times(less), axis.x);
        if more.is_a_nan() {
            law_nan_spreads(more, axis.x.times(part));
        }
        if less.is_a_nan() {
            law_nan_spreads(less, axis.x.times(part));
        }
        law_sum_grows(high.forward_scale.opposite(), low.forward_scale.opposite(), one);
        lemma_component_grows(straight.x, axis.x, part, less, more);
        lemma_component_grows(straight.y, axis.y, part, less, more);
        lemma_component_grows(straight.z, axis.z, part, less, more);
        law_sums_grow(a.x.times(axis.x), b.x.times(axis.x), a.y.times(axis.y), b.y.times(axis.y));
        law_sums_grow(
            a.x.times(axis.x).plus(a.y.times(axis.y)),
            b.x.times(axis.x).plus(b.y.times(axis.y)),
            a.z.times(axis.z),
            b.z.times(axis.z),
        );
    }
}

} // verus!
