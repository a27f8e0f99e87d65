//! What the extra impulse depends on, and where it points.
use crate::bounds::{
    added, inner, lemma_inner, lemma_length, lemma_minus, lemma_unit, lemma_vector_plus, lemma_vector_scale, near, point, sized, slack, stretched,
    within,
};
use crate::math::Vec3A;
use crate::math_errors::{lemma_unit_components, lemma_unit_scale, real_dot};
use crate::reals::{lemma_both_positive, lemma_bounded, lemma_scaled, lemma_spread, lemma_square_of_sum, lemma_sum_times, lemma_swap};
use crate::sim::ball_hit::config::BallHitConfig;
use crate::sim::ball_hit::impulse::{
    hit_direction, hit_impulse, nudged_direction, relative_speed, straight_direction, upward_scale, HitContext,
};
use crate::single::{Single, ONE_BITS};
use crate::single_errors::{
    lemma_order, lemma_product_close, lemma_speck, lemma_two, real_value, size,
};
use crate::single_laws::{law_product_sign, law_times_one, lemma_value};
use vstd::prelude::*;

verus! {

/// Outside hoops it makes no difference to the impulse how the car stands, nor which game is played.
pub proof fn law_outside_hoops_the_stance_does_not_matter(a: HitContext, b: HitContext, config: BallHitConfig)
    requires
        !(a.game_mode is Hoops),
        !(b.game_mode is Hoops),
        b == (HitContext {
            game_mode: b.game_mode,
            car_is_on_ground: b.car_is_on_ground,
            car_up_z: b.car_up_z,
            ..a
        }),
    ensures
        hit_impulse(a, config) == hit_impulse(b, config),
{
}

/// In hoops a grounded car that is upright hits as a car outside hoops would whose upward scale is the one
/// for hoops; any other car hits as outside hoops.
pub proof fn law_hoops_swaps_the_upward_scale(ctx: HitContext, outside: HitContext, config: BallHitConfig)
    requires
        ctx.game_mode is Hoops,
        !(outside.game_mode is Hoops),
        outside == (HitContext { game_mode: outside.game_mode, ..ctx }),
        !ctx.car_up_z.is_a_nan(),
        !config.z_scale_hoops_normal_z_thresh.is_a_nan(),
    ensures
        ctx.car_is_on_ground && config.z_scale_hoops_normal_z_thresh.less(ctx.car_up_z) ==> hit_impulse(ctx, config)
            == hit_impulse(outside, BallHitConfig { z_scale: config.z_scale_hoops_ground, ..config }),
        !ctx.car_is_on_ground || ctx.car_up_z.at_most(config.z_scale_hoops_normal_z_thresh) ==> hit_impulse(ctx, config)
            == hit_impulse(outside, config),
{
}

/// Only where the ball is as seen from the car counts, and how fast it goes as seen from there.
pub proof fn law_only_the_relative_motion_counts(a: HitContext, b: HitContext, config: BallHitConfig)
    requires
        a.ball_pos.minus(a.car_pos) == b.ball_pos.minus(b.car_pos),
        a.ball_vel.minus(a.car_vel) == b.ball_vel.minus(b.car_vel),
        b == (HitContext {
            ball_pos: b.ball_pos,
            car_pos: b.car_pos,
            ball_vel: b.ball_vel,
            car_vel: b.car_vel,
            ..a
        }),
    ensures
        hit_impulse(a, config) == hit_impulse(b, config),
{
}

/// The way from the car to the ball, with its upward part scaled.
pub open spec fn flattened(ctx: HitContext, scale: real) -> (real, real, real) {
    let way = point(ctx.ball_pos.minus(ctx.car_pos));
    (way.0, way.1, way.2 * scale)
}

/// Squares of numbers that are near each other.
proof fn lemma_near_squares(x: real, g: real)
    requires
        -(size(x) / 1000real + 1real / 1000real) <= g <= size(x) / 1000real + 1real / 1000real,
    ensures
        (x + g) * (x + g) >= 99real * (x * x) / 100real - 1real / 100real,
        (x + g) * (x + g) <= 102real * (x * x) / 100real + 1real / 100real,
{
    lemma_square_of_sum(x, g);
    lemma_square_of_sum(g, 0real);
    let s = size(x);
    let b = s / 1000real + 1real / 1000real;
    lemma_bounded(x, g, s, b);
    lemma_bounded(g, g, b, b);
    lemma_spread(s, s / 1000real, 1real / 1000real);
    assert(s * (s / 1000real) == (s * s) / 1000real) by (nonlinear_arith);
    assert(s * s == x * x) by {
        lemma_spread(x, x, x);
        lemma_spread(-x, x, x);
        lemma_swap(-x, x);
    }
    lemma_square_of_sum(s / 1000real, 1real / 1000real);
    assert((s / 1000real) * (s / 1000real) == (s * s) / 1000000real) by (nonlinear_arith);
    assert((s / 1000real) * (1real / 1000real) == s / 1000000real) by (nonlinear_arith);
    assert(s * (1real / 1000real) == s / 1000real) by (nonlinear_arith);
    assert((1real / 1000real) * (1real / 1000real) == 1real / 1000000real) by (nonlinear_arith);
    assert(s * s >= 2real * s - 1real) by (nonlinear_arith);
}

/// The straight direction is the way from the car to the ball with its upward part scaled, brought to unit
/// length.
proof fn lemma_straight(ctx: HitContext, config: BallHitConfig, scale: real) -> (c: real)
    requires
        ctx.ball_pos.minus(ctx.car_pos).finite(),
        upward_scale(ctx, config).finite(),
        scale == real_value(upward_scale(ctx, config)),
        sized(flattened(ctx, scale), 1000000real),
        1real <= inner(flattened(ctx, scale), flattened(ctx, scale)),
    ensures
        0real < c,
        near(straight_direction(ctx, config), stretched(flattened(ctx, scale), c), 1real / 2000000real),
        -3real <= 1000000real * (inner(stretched(flattened(ctx, scale), c), stretched(flattened(ctx, scale), c)) - 1real)
            <= 3real,
{
    lemma_speck();
    let one = Single { bits: ONE_BITS };
    let way = ctx.ball_pos.minus(ctx.car_pos);
    let up = upward_scale(ctx, config);
    let v = way.times(Vec3A { x: one, y: one, z: up });
    law_times_one(way.x);
    law_times_one(way.y);
    lemma_product_close(way.z, up);
    let q = flattened(ctx, scale);
    let g = real_value(v.z) - q.2;
    assert(point(v) == (q.0, q.1, q.2 + g));
    lemma_near_squares(q.2, g);
    lemma_square_of_sum(q.0, 0real);
    lemma_square_of_sum(q.1, 0real);
    lemma_square_of_sum(q.2, 0real);
    lemma_bounded(q.0, q.0, 1000000real, 1000000real);
    lemma_bounded(q.1, q.1, 1000000real, 1000000real);
    lemma_bounded(q.2, q.2, 1000000real, 1000000real);
    assert(1000000real * 1000000real == 1000000000000real) by (nonlinear_arith);
    let d = real_dot(v, v);
    assert(d >= 9real / 10real);
    let z = size(real_value(v.z));
    lemma_spread(q.2 + g, q.2 + g, 0real);
    lemma_spread(-(q.2 + g), q.2 + g, 0real);
    lemma_swap(-(q.2 + g), q.2 + g);
    assert(z * z == (q.2 + g) * (q.2 + g));
    let l = if z >= 1real / 2real {
        z
    } else {
        1real / 2real
    };
    assert((1real / 2real) * (1real / 2real) == 1real / 4real) by (nonlinear_arith);
    assert(l * l >= 1real / 4real) by {
        lemma_scaled(l, 1real / 2real, l);
        lemma_swap(l, 1real / 2real);
    }
    let e = 1real / 10000000real;
    assert(-(e * l) <= g <= e * l) by {
        lemma_swap(e, l);
        assert(l * e == l / 10000000real) by (nonlinear_arith)
            requires
                e == 1real / 10000000real,
        ;
    }
    lemma_both_positive(e, l);
    lemma_unit(v, q, e, l)
}

/// Outside hoops the straight direction is that of the way from the car to the ball with its upward part
/// scaled by the upward scale, and it has unit length. So with a positive scale it points up where the ball is
/// above the car, and down where it is below.
pub proof fn law_straight_direction_leads_to_the_ball(ctx: HitContext, config: BallHitConfig) -> (c: real)
    requires
        !(ctx.game_mode is Hoops),
        ctx.ball_pos.minus(ctx.car_pos).finite(),
        config.z_scale.finite(),
        sized(flattened(ctx, real_value(config.z_scale)), 1000000real),
        1real <= inner(flattened(ctx, real_value(config.z_scale)), flattened(ctx, real_value(config.z_scale))),
    ensures
        0real < c,
        ({
            let s = stretched(flattened(ctx, real_value(config.z_scale)), c);
            &&& near(straight_direction(ctx, config), s, 1real / 2000000real)
            &&& -3real <= 1000000real * (inner(s, s) - 1real) <= 3real
        }),
        ({
            let (above, up) = (
                real_value(ctx.ball_pos.minus(ctx.car_pos).z),
                real_value(straight_direction(ctx, config).z),
            );
            real_value(config.z_scale) > 0real ==> (above >= 0real ==> up >= 0real) && (above <= 0real ==> up <= 0real)
        }),
{
    let scale = real_value(config.z_scale);
    let c = lemma_straight(ctx, config, scale);
    let way = ctx.ball_pos.minus(ctx.car_pos);
    let one = Single { bits: ONE_BITS };
    let v = way.times(Vec3A { x: one, y: one, z: config.z_scale });
    lemma_speck();
    if scale > 0real {
        let (z, h) = (real_value(way.z), straight_direction(ctx, config));
        assert(v.unit() is Some) by {
            if v.unit() is None {
                lemma_value(h.x);
                lemma_value(h.y);
                lemma_value(h.z);
                let s = stretched(flattened(ctx, scale), c);
                let e = 1real / 2000000real;
                lemma_bounded(s.0, s.0, e, e);
                lemma_bounded(s.1, s.1, e, e);
                lemma_bounded(s.2, s.2, e, e);
                assert(e * e <= 1real / 1000real) by (nonlinear_arith)
                    requires
                        e == 1real / 2000000real,
                ;
            }
        }
        lemma_product_close(way.z, config.z_scale);
        lemma_sign(way.z, config.z_scale);
        lemma_unit_scale(v);
        lemma_unit_components(v);
        lemma_sign(v.z, v.length_recip());
    }
    c
}

/// A product with a positive number has the sign of the other one.
proof fn lemma_sign(a: Single, b: Single)
    requires
        a.finite(),
        b.finite(),
        a.times(b).finite(),
        real_value(b) > 0real,
    ensures
        real_value(a) >= 0real ==> real_value(a.times(b)) >= 0real,
        real_value(a) <= 0real ==> real_value(a.times(b)) <= 0real,
{
    lemma_value(a);
    lemma_value(b);
    lemma_value(a.times(b));
    law_product_sign(a, b);
    assert(!b.negative());
    if real_value(a) == 0real {
        assert(real_value(a) * real_value(b) == 0real) by {
            lemma_swap(real_value(a), real_value(b));
            lemma_spread(real_value(b), 0real, 0real);
        }
        lemma_product_close(a, b);
    }
}

/// The weighted lean toward the forward axis.
pub open spec fn leaning(s: (real, real, real), f: (real, real, real), weight: real) -> (real, real, real) {
    added(s, stretched(f, inner(s, f) * weight))
}

/// Leaning forward makes no direction shorter.
proof fn lemma_leaning_length(s: (real, real, real), f: (real, real, real), weight: real)
    requires
        0real <= weight,
    ensures
        inner(leaning(s, f, weight), leaning(s, f, weight)) >= inner(s, s),
{
    let a = inner(s, f);
    let t = a * weight;
    lemma_square_of_sum(s.0, f.0 * t);
    lemma_square_of_sum(s.1, f.1 * t);
    lemma_square_of_sum(s.2, f.2 * t);
    lemma_square_of_sum(f.0 * t, 0real);
    lemma_square_of_sum(f.1 * t, 0real);
    lemma_square_of_sum(f.2 * t, 0real);
    lemma_sum_times(s.0 * f.0, s.1 * f.1, s.2 * f.2, t);
    assert(s.0 * (f.0 * t) == (s.0 * f.0) * t) by (nonlinear_arith);
    assert(s.1 * (f.1 * t) == (s.1 * f.1) * t) by (nonlinear_arith);
    assert(s.2 * (f.2 * t) == (s.2 * f.2) * t) by (nonlinear_arith);
    assert(a * t == weight * (a * a)) by (nonlinear_arith)
        requires
            t == a * weight,
    ;
    lemma_square_of_sum(a, 0real);
    lemma_both_positive(weight, a * a);
}

/// A component whose square is small is small.
proof fn lemma_component_bound(x: real)
    requires
        x * x <= 2real,
    ensures
        -2real <= x <= 2real,
{
    assert(-2real <= x <= 2real) by (nonlinear_arith)
        requires
            x * x <= 2real,
    ;
}

proof fn lemma_directions_bound(p: (real, real, real))
    requires
        inner(p, p) <= 2real,
    ensures
        sized(p, 2real),
{
    lemma_square_of_sum(p.0, 0real);
    lemma_square_of_sum(p.1, 0real);
    lemma_square_of_sum(p.2, 0real);
    lemma_component_bound(p.0);
    lemma_component_bound(p.1);
    lemma_component_bound(p.2);
}

/// The nudged direction is near the straight one, leaning forward.
proof fn lemma_nudged(ctx: HitContext, config: BallHitConfig, s: (real, real, real))
    requires
        near(straight_direction(ctx, config), s, 1real / 2000000real),
        inner(s, s) <= 2real,
        ctx.car_forward.finite(),
        sized(point(ctx.car_forward), 2real),
        config.forward_scale.finite(),
        0real <= real_value(config.forward_scale) <= 1real,
    ensures
        near(
            nudged_direction(ctx, config),
            leaning(s, point(ctx.car_forward), 1real - real_value(config.forward_scale)),
            4real / 125000real,
        ),
        sized(leaning(s, point(ctx.car_forward), 1real - real_value(config.forward_scale)), 26real),
{
    let f = point(ctx.car_forward);
    let straight = straight_direction(ctx, config);
    let one = Single { bits: ONE_BITS };
    let w = 1real - real_value(config.forward_scale);
    lemma_directions_bound(s);
    lemma_two();
    let es = 1real / 2000000real;
    assert(slack(2real, es, 2real, 0real) <= 1real / 500000real && (2real + es) * (2real + 0real) <= 5real && (2real + es) * (
    2real + 0real) >= 4real && 2real * 2real == 4real) by (nonlinear_arith)
        requires
            es == 1real / 2000000real,
    ;
    lemma_inner(straight, s, es, ctx.car_forward, f, 0real, 2real, 2real, 4real, 1real / 500000real);
    let a = straight.dot(ctx.car_forward);
    let x = inner(s, f);
    let ea = 1real / 100000real;
    assert(slack(2real, 0real, 12real, ea) <= 1real / 40000real && (2real + 0real) * (12real + ea) <= 25real && (2real + 0real)
        * (12real + ea) >= 24real) by (nonlinear_arith)
        requires
            ea == 1real / 100000real,
    ;
    lemma_vector_scale(ctx.car_forward, f, 0real, a, x, ea, 2real, 12real, 1real / 40000real);
    let g = stretched(f, x);
    lemma_bounded(f.0, x, 2real, 12real);
    lemma_bounded(f.1, x, 2real, 12real);
    lemma_bounded(f.2, x, 2real, 12real);
    assert(2real * 12real == 24real) by (nonlinear_arith);
    lemma_minus(one, 1real, 0real, config.forward_scale, real_value(config.forward_scale), 0real, 1real);
    let t = one.minus(config.forward_scale);
    let (eg, et) = (1real / 40000real, 1real / 16000000real);
    assert(slack(24real, eg, 1real, et) <= 29real / 1000000real && (24real + eg) * (1real + et) <= 25real && (24real + eg) * (1real
        + et) >= 24real) by (nonlinear_arith)
        requires
            eg == 1real / 40000real,
            et == 1real / 16000000real,
    ;
    lemma_vector_scale(ctx.car_forward.scale(a), g, eg, t, w, et, 24real, 1real, 29real / 1000000real);
    lemma_bounded(g.0, w, 24real, 1real);
    lemma_bounded(g.1, w, 24real, 1real);
    lemma_bounded(g.2, w, 24real, 1real);
    assert((f.0 * x) * w == f.0 * (x * w)) by (nonlinear_arith);
    assert((f.1 * x) * w == f.1 * (x * w)) by (nonlinear_arith);
    assert((f.2 * x) * w == f.2 * (x * w)) by (nonlinear_arith);
    assert(stretched(g, w) == stretched(f, x * w));
    lemma_vector_plus(
        straight,
        s,
        es,
        ctx.car_forward.scale(a).scale(t),
        stretched(g, w),
        29real / 1000000real,
        26real,
    );
}

/// Squares of components of vectors that are near each other.
proof fn lemma_square_off(x: real, y: real)
    requires
        -(4real / 125000real) <= x - y <= 4real / 125000real,
        -26real <= y <= 26real,
    ensures
        -2real <= 1000real * (x * x - y * y) <= 2real,
        x * x <= 700real,
{
    let e = 4real / 125000real;
    lemma_bounded(x - y, x + y, e, 53real);
    assert((x - y) * (x + y) == x * x - y * y) by (nonlinear_arith);
    assert(e * 53real <= 2real / 1000real) by (nonlinear_arith)
        requires
            e == 4real / 125000real,
    ;
    lemma_bounded(y, y, 26real, 26real);
    assert(26real * 26real == 676real) by (nonlinear_arith);
}

/// A component of a direction, times the speed and the factor.
proof fn lemma_pushed(h: Single, p: real, speed: Single, factor: Single)
    requires
        within(h, p, 1real / 20000real),
        -2real <= p <= 2real,
        speed.finite(),
        1real <= 1000real * real_value(speed),
        real_value(speed) <= 1000000real,
        factor.finite(),
        1real <= 1000real * real_value(factor),
        real_value(factor) <= 1000real,
    ensures
        within(h.times(speed).times(factor), p * (real_value(speed) * real_value(factor)), real_value(speed) * real_value(factor) / 5000real),
{
    lemma_speck();
    let (x, v, k) = (real_value(h), real_value(speed), real_value(factor));
    let e = 1real / 20000real;
    lemma_scaled(v, x - p, e);
    lemma_scaled(v, -e, x - p);
    lemma_spread(v, x, p);
    lemma_spread(v, e, e);
    lemma_swap(v, x);
    lemma_swap(v, p);
    assert(v * e == v / 20000real) by (nonlinear_arith)
        requires
            e == 1real / 20000real,
    ;
    lemma_bounded(p, v, 2real, v);
    lemma_product_close(h, speed);
    let r = real_value(h.times(speed));
    let d = v / 19000real;
    assert(-d <= r - p * v <= d);
    let g = v * k;
    assert(g >= 1real / 1000000real) by {
        lemma_scaled(v, 1real / 1000real, k);
        assert(v * (1real / 1000real) == v / 1000real) by (nonlinear_arith);
    }
    assert(g <= 1000000000real) by {
        lemma_scaled(v, k, 1000real);
        lemma_swap(v, 1000real);
    }
    lemma_scaled(k, r - p * v, d);
    lemma_scaled(k, -d, r - p * v);
    lemma_spread(k, r, p * v);
    lemma_spread(k, d, d);
    lemma_swap(k, r);
    assert(k * (p * v) == p * (v * k)) by (nonlinear_arith);
    assert(k * d == g / 19000real) by (nonlinear_arith)
        requires
            d == v / 19000real,
            g == v * k,
    ;
    lemma_bounded(p, g, 2real, g);
    lemma_product_close(h.times(speed), factor);
}

/// Outside hoops the impulse points along the way from the car to the ball, with its upward part scaled by
/// the upward scale, brought to unit length, and then leaning toward the car's forward axis by what the
/// forward scale leaves of 1. Its length is the relative speed times the factor for that speed.
pub proof fn law_impulse_follows_the_hit(ctx: HitContext, config: BallHitConfig) -> (r: (real, real))
    requires
        !(ctx.game_mode is Hoops),
        ctx.ball_pos.minus(ctx.car_pos).finite(),
        config.z_scale.finite(),
        sized(flattened(ctx, real_value(config.z_scale)), 1000000real),
        1real <= inner(flattened(ctx, real_value(config.z_scale)), flattened(ctx, real_value(config.z_scale))),
        ctx.car_forward.finite(),
        sized(point(ctx.car_forward), 2real),
        config.forward_scale.finite(),
        0real <= real_value(config.forward_scale) <= 1real,
        relative_speed(ctx, config).finite(),
        1real <= 1000real * real_value(relative_speed(ctx, config)),
        real_value(relative_speed(ctx, config)) <= 1000000real,
        config.factor_curve.output(relative_speed(ctx, config)).finite(),
        1real <= 1000real * real_value(config.factor_curve.output(relative_speed(ctx, config))),
        real_value(config.factor_curve.output(relative_speed(ctx, config))) <= 1000real,
    ensures
        0real < r.0,
        0real < r.1,
        ({
            let s = stretched(flattened(ctx, real_value(config.z_scale)), r.0);
            let n = leaning(s, point(ctx.car_forward), 1real - real_value(config.forward_scale));
            let h = stretched(n, r.1);
            let speed = relative_speed(ctx, config);
            let push = real_value(speed) * real_value(config.factor_curve.output(speed));
            &&& -3real <= 1000000real * (inner(s, s) - 1real) <= 3real
            &&& -1real <= 1000real * (inner(h, h) - 1real) <= 1real
            &&& near(hit_impulse(ctx, config), stretched(h, push), push / 5000real)
        }),
{
    let c = lemma_straight(ctx, config, real_value(config.z_scale));
    let s = stretched(flattened(ctx, real_value(config.z_scale)), c);
    let w = 1real - real_value(config.forward_scale);
    let n = leaning(s, point(ctx.car_forward), w);
    lemma_nudged(ctx, config, s);
    lemma_leaning_length(s, point(ctx.car_forward), w);
    let v = nudged_direction(ctx, config);
    let d = point(v);
    lemma_square_off(d.0, n.0);
    lemma_square_off(d.1, n.1);
    lemma_square_off(d.2, n.2);
    let (e, l) = (1real / 25000real, 9real / 10real);
    assert(e * l >= 4real / 125000real && l * l == 81real / 100real) by (nonlinear_arith)
        requires
            e == 1real / 25000real,
            l == 9real / 10real,
    ;
    let k = lemma_unit(v, n, e, l);
    let h = stretched(n, k);
    lemma_directions_bound(h);
    let speed = relative_speed(ctx, config);
    let factor = config.factor_curve.output(speed);
    let zero = Single { bits: 0 };
    lemma_value(zero);
    lemma_order(speed, zero);
    let dir = hit_direction(ctx, config);
    lemma_pushed(dir.x, h.0, speed, factor);
    lemma_pushed(dir.y, h.1, speed, factor);
    lemma_pushed(dir.z, h.2, speed, factor);
    (c, k)
}

/// The relative speed is how fast the ball moves as seen from the car, up to the greatest one that counts.
pub proof fn law_relative_speed_is_that_of_the_ball(ctx: HitContext, config: BallHitConfig)
    requires
        ctx.ball_vel.minus(ctx.car_vel).finite(),
        sized(point(ctx.ball_vel.minus(ctx.car_vel)), 10000000real),
        config.max_delta_vel_uu.finite(),
        0real < real_value(config.max_delta_vel_uu),
        1real <= 1000000000000real * inner(
            point(ctx.ball_vel.minus(ctx.car_vel)),
            point(ctx.ball_vel.minus(ctx.car_vel)),
        ),
    ensures
        relative_speed(ctx, config).finite(),
        ({
            let (r, most) = (real_value(relative_speed(ctx, config)), real_value(config.max_delta_vel_uu));
            let way = point(ctx.ball_vel.minus(ctx.car_vel));
            let x = inner(way, way);
            &&& 0real < r <= most
            &&& 1000000real * (r * r) <= 1000001real * x
            &&& r == most || -x <= 1000000real * (r * r - x) <= x
        }),
{
    let v = ctx.ball_vel.minus(ctx.car_vel);
    lemma_length(v);
    let (a, b) = (v.length(), config.max_delta_vel_uu);
    lemma_order(a, b);
    lemma_order(b, a);
    let (x, y) = (real_value(a), real_value(b));
    if y < x {
        lemma_scaled(y, y, x);
        lemma_scaled(x, y, x);
        lemma_swap(x, y);
    }
}

} // verus!
