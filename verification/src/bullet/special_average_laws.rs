//! What the points of the ball's contact with the world add up to.
use crate::bounds::{
    added, inner, lemma_any_length, lemma_count, lemma_inner, lemma_opposite, lemma_plus, lemma_times, lemma_unit, lemma_vector_minus, lemma_vector_scale, near,
    point, sized, slack, stretched, taken, within,
};
use crate::bullet::body::RigidBody;
use crate::bullet::manifold::CONTACT_BREAKING_THRESHOLD;
use crate::bullet::special_contact::{lateral, max_recover, SpecialSums};
use crate::consts::EPSILON;
use crate::math::Vec3A;
use crate::math_errors::{lemma_dot_close, lemma_has_unit, lemma_length_squared, real_dot};
use crate::reals::{
    lemma_bounded, lemma_cycle, lemma_over, lemma_regroup, lemma_scaled, lemma_sized, lemma_spread, lemma_square_of_sum, lemma_sum_times,
    lemma_swap,
};

use crate::single::Single;
use crate::single_errors::{
    lemma_constant, lemma_order, lemma_quotient_close, lemma_speck, real_value, size, speck,
};
use vstd::arithmetic::power2::{lemma2_to64, lemma_pow2_adds};
use vstd::prelude::*;

verus! {

/// A part of a sum: as many of them make up the sum.
proof fn lemma_mean(a: Single, n: int)
    requires
        a.finite(),
        -1000real <= real_value(a) <= 1000real,
        1 <= n <= 64,
    ensures
        a.over(Single::of_integer(n)).finite(),
        -1010real <= real_value(a.over(Single::of_integer(n))) <= 1010real,
        ({
            let off = real_value(a.over(Single::of_integer(n))) * (n as real) - real_value(a);
            -1real - size(real_value(a)) <= 5000000real * off <= 1real + size(real_value(a))
        }),
{
    lemma_speck();
    lemma_count(n);
    let (x, m) = (real_value(a), n as real);
    let count = Single::of_integer(n);
    let c = real_value(count);
    lemma_quotient_close(a, count);
    let (q, r) = (x / c, real_value(a.over(count)));
    assert(q * c == x) by (nonlinear_arith)
        requires
            q == x / c,
            c > 0real,
    ;
    lemma_sized(c, q);
    lemma_swap(c, q);
    let s = size(q);
    lemma_scaled(s, 999real * m / 1000real, c);
    assert(s * (999real * m / 1000real) == 999real * (s * m) / 1000real) by (nonlinear_arith);
    lemma_swap(c, s);
    lemma_scaled(s, 1real, m);
    assert(s * 1real == s) by (nonlinear_arith);
    // The rounding of the quotient, and of the count.
    let e = s / 16777216real + speck();
    lemma_bounded(r - q, m, e, m);
    lemma_swap(r - q, m);
    lemma_spread(m, r, q);
    lemma_swap(m, r);
    lemma_swap(m, q);
    lemma_swap(e, m);
    lemma_spread(m, s / 16777216real, speck());
    assert(m * (s / 16777216real) == (s * m) / 16777216real) by (nonlinear_arith);
    lemma_bounded(m, speck(), 64real, speck());
    lemma_bounded(q, m - c, s, m / 16000000real);
    assert(s * (m / 16000000real) == (s * m) / 16000000real) by (nonlinear_arith);
    lemma_spread(q, m, c);
}

/// A component of the mean of some normals, and of their sum.
proof fn lemma_mean_part(a: Single, n: int)
    requires
        a.finite(),
        -128real <= real_value(a) <= 128real,
        1 <= n <= 64,
    ensures
        a.over(Single::of_integer(n)).finite(),
        -1010real <= real_value(a.over(Single::of_integer(n))) <= 1010real,
        ({
            let m = real_value(a.over(Single::of_integer(n))) * (n as real);
            &&& -3real <= 100000real * (m - real_value(a)) <= 3real
            &&& m * m >= 99real * (real_value(a) * real_value(a)) / 100real - 1real / 1000real
        }),
{
    lemma_mean(a, n);
    let (x, m) = (real_value(a), real_value(a.over(Single::of_integer(n))) * (n as real));
    let g = m - x;
    lemma_square_of_sum(x, g);
    lemma_bounded(g, g, 3real / 100000real, 3real / 100000real);
    assert((3real / 100000real) * (3real / 100000real) == 9real / 10000000000real) by (nonlinear_arith);
    lemma_weak_square(x, g);
}

/// A square of a sum is not much less than that of its larger part.
proof fn lemma_weak_square(x: real, g: real)
    ensures
        (x + g) * (x + g) >= 999real * (x * x) / 1000real - 1000real * (g * g),
{
    lemma_square_of_sum(x, g);
    lemma_square_of_sum(x, 1000real * g);
    lemma_square_of_sum(x + 1000real * g, 0real);
    assert(x * (1000real * g) == 1000real * (x * g)) by (nonlinear_arith);
    assert((1000real * g) * (1000real * g) == 1000000real * (g * g)) by (nonlinear_arith);
    lemma_square_of_sum(g, 0real);
}

/// The contact of the ball with the world is the mean of its points: its normal is that of their normals together, at unit length; its gap
/// is their mean gap; and it lies against the normal from the centre, as far as they lie on average.
pub proof fn law_the_contact_is_the_mean_of_its_points(sums: SpecialSums) -> (c: real)
    requires
        1 <= sums.num <= 64,
        sums.total_normal.finite() && sized(point(sums.total_normal), 128real),
        1real <= 4real * inner(point(sums.total_normal), point(sums.total_normal)),
        sums.total_dist.finite() && 0real <= real_value(sums.total_dist) <= 1000real,
        sums.total_penetration.finite() && -1000real <= real_value(sums.total_penetration) <= 1000real,
    ensures
        0real < c,
        ({
            let (mean, n) = (sums.average(), sums.num as real);
            let way = stretched(point(sums.total_normal), c);
            &&& near(mean.normal, way, 1real / 10000real)
            &&& -2real <= 1000real * (inner(way, way) - 1real) <= 2real
            &&& mean.penetration.finite()
            &&& -1real <= 1000real * (real_value(mean.penetration) * n - real_value(sums.total_penetration)) <= 1real
            &&& mean.rel_pos.finite()
            &&& sized(
                added(stretched(point(mean.rel_pos), n), stretched(point(mean.normal), real_value(sums.total_dist))),
                1real / 10real,
            )
        }),
{
    let n = sums.num as real;
    let count = Single::of_integer(sums.num);
    let v = sums.total_normal.over(count);
    let (t, w) = (point(sums.total_normal), point(v));
    lemma_mean_part(sums.total_normal.x, sums.num);
    lemma_mean_part(sums.total_normal.y, sums.num);
    lemma_mean_part(sums.total_normal.z, sums.num);
    let l = 45real / (100real * n);
    assert(l * n == 45real / 100real && l > 0real) by (nonlinear_arith)
        requires
            l == 45real / (100real * n),
            n >= 1real,
    ;
    assert(l >= 7real / 1000real) by (nonlinear_arith)
        requires
            l * n == 45real / 100real,
            1real <= n <= 64real,
    ;
    let (a, b, d) = (w.0 * n, w.1 * n, w.2 * n);
    lemma_regroup(w.0, n, w.0, n);
    lemma_regroup(w.1, n, w.1, n);
    lemma_regroup(w.2, n, w.2, n);
    lemma_regroup(l, n, l, n);
    let nn = n * n;
    assert(nn >= 1real) by (nonlinear_arith)
        requires
            nn == n * n,
            n >= 1real,
    ;
    let dot = real_dot(v, v);
    lemma_sum_times(w.0 * w.0, w.1 * w.1, w.2 * w.2, nn);
    lemma_swap(dot, nn);
    lemma_swap(l * l, nn);
    assert((45real / 100real) * (45real / 100real) == 2025real / 10000real) by (nonlinear_arith);
    lemma_over(nn, l * l, dot);
    lemma_bounded(w.0, w.0, 1010real, 1010real);
    lemma_bounded(w.1, w.1, 1010real, 1010real);
    lemma_bounded(w.2, w.2, 1010real, 1010real);
    assert(1010real * 1010real == 1020100real && 0real * l == 0real) by (nonlinear_arith);
    assert(l * l >= 49real / 1000000real) by (nonlinear_arith)
        requires
            l >= 7real / 1000real,
    ;
    let k = lemma_unit(v, w, 0real, l);
    let c = k / n;
    assert(c * n == k && c > 0real) by (nonlinear_arith)
        requires
            c == k / n,
            n >= 1real,
            k > 0real,
    ;
    assert(c <= 23real / 10real) by {
        lemma_cycle(c, n, l);
        lemma_swap(n, l);
        assert(c * (45real / 100real) == 45real * c / 100real) by (nonlinear_arith);
    }
    lemma_mean_way(w.0, t.0, n, k, c);
    lemma_mean_way(w.1, t.1, n, k, c);
    lemma_mean_way(w.2, t.2, n, k, c);
    let h = stretched(w, k);
    lemma_square_of_sum(h.0, 0real);
    lemma_square_of_sum(h.1, 0real);
    lemma_square_of_sum(h.2, 0real);
    lemma_small(h.0);
    lemma_small(h.1);
    lemma_small(h.2);
    lemma_square_shift(t.0 * c, h.0);
    lemma_square_shift(t.1 * c, h.1);
    lemma_square_shift(t.2 * c, h.2);
    lemma_mean(sums.total_penetration, sums.num);
    lemma_mean(sums.total_dist, sums.num);
    let mean = sums.average();
    let lever = sums.total_dist.over(count);
    let (normal, td, tr) = (point(mean.normal), real_value(sums.total_dist), real_value(lever));
    lemma_opposite(lever, tr, 0real);
    assert(slack(2real, 0real, 1010real, 0real) <= 2real / 10000real && (2real + 0real) * (1010real + 0real) == 2020real)
        by (nonlinear_arith);
    lemma_vector_scale(mean.normal, normal, 0real, lever.negate(), -tr, 0real, 2real, 1010real, 2real / 10000real);
    lemma_lever(real_value(mean.rel_pos.x), normal.0, tr, n, td);
    lemma_lever(real_value(mean.rel_pos.y), normal.1, tr, n, td);
    lemma_lever(real_value(mean.rel_pos.z), normal.2, tr, n, td);
    c
}

/// What is near 1 in square is near 1.
proof fn lemma_small(x: real)
    requires
        x * x <= 11real / 10real,
    ensures
        -11real <= 10real * x <= 11real,
{
    assert(-11real <= 10real * x <= 11real) by (nonlinear_arith)
        requires
            x * x <= 11real / 10real,
    ;
}

/// A component of the mean, brought to unit length, and of the sum.
proof fn lemma_mean_way(w: real, t: real, n: real, k: real, c: real)
    requires
        -3real <= 100000real * (w * n - t) <= 3real,
        c * n == k,
        0real < c,
        c <= 23real / 10real,
    ensures
        -7real <= 100000real * (w * k - t * c) <= 7real,
{
    lemma_bounded(c, w * n - t, 23real / 10real, 3real / 100000real);
    assert(23real / 10real * (3real / 100000real) == 69real / 1000000real) by (nonlinear_arith);
    lemma_spread(c, w * n, t);
    lemma_cycle(c, w, n);
    lemma_swap(c, t);
}

proof fn lemma_square_shift(x: real, y: real)
    requires
        -7real <= 100000real * (y - x) <= 7real,
        -11real <= 10real * y <= 11real,
    ensures
        -3real <= 10000real * (x * x - y * y) <= 3real,
{
    lemma_bounded(x - y, x + y, 7real / 100000real, 23real / 10real);
    assert((x - y) * (x + y) == x * x - y * y) by (nonlinear_arith);
    assert(7real / 100000real * (23real / 10real) == 161real / 1000000real) by (nonlinear_arith);
}

/// One coordinate of the way to the contact, as many times as there are points.
proof fn lemma_lever(at: real, normal: real, lever: real, n: real, total: real)
    requires
        -2real <= 10000real * (at - normal * (-lever)) <= 2real,
        -2real <= normal <= 2real,
        1real <= n <= 64real,
        -1real <= 1000real * (lever * n - total) <= 1real,
    ensures
        -1real <= 10real * (at * n + normal * total) <= 1real,
{
    lemma_spread(normal, lever, lever);
    lemma_bounded(at + normal * lever, n, 2real / 10000real, 64real);
    assert(2real / 10000real * 64real == 128real / 10000real) by (nonlinear_arith);
    lemma_swap(at + normal * lever, n);
    lemma_spread(n, at, normal * lever);
    lemma_swap(n, at);
    lemma_cycle(n, normal, lever);
    lemma_swap(n, lever);
    lemma_bounded(normal, lever * n - total, 2real, 1real / 1000real);
    assert(2real * (1real / 1000real) == 2real / 1000real) by (nonlinear_arith);
    lemma_spread(normal, lever * n, total);
}

/// The way of a velocity across a normal.
pub open spec fn across(vel: (real, real, real), normal: (real, real, real)) -> (real, real, real) {
    taken(vel, stretched(normal, inner(normal, vel)))
}

/// The lateral direction is that of the part of a velocity that lies across the normal, at unit length.
pub proof fn law_the_lateral_direction_lies_across(vel: Vec3A, normal: Vec3A) -> (c: real)
    requires
        vel.finite() && sized(point(vel), 1000real),
        normal.finite() && sized(point(normal), 2real),
        100real <= inner(across(point(vel), point(normal)), across(point(vel), point(normal))),
    ensures
        0real < c,
        lateral(vel, normal) is Some,
        ({
            let way = stretched(across(point(vel), point(normal)), c);
            &&& near(lateral(vel, normal)->Some_0, way, 1real / 1000real)
            &&& -2real <= 100real * (inner(way, way) - 1real) <= 2real
        }),
{
    let (v, n) = (point(vel), point(normal));
    assert(slack(2real, 0real, 1000real, 0real) <= 2real / 10000real && (2real + 0real) * (1000real + 0real) == 2000real && 2real
        * 1000real == 2000real) by (nonlinear_arith);
    lemma_inner(normal, n, 0real, vel, v, 0real, 2real, 1000real, 2000real, 2real / 10000real);
    let (dot, d) = (normal.dot(vel), inner(n, v));
    let e = 2real / 1000real;
    assert(slack(2real, 0real, 6000real, e) <= 5real / 1000real && (2real + 0real) * (6000real + e) <= 12001real && (2real + 0real)
        * (6000real + e) >= 12000real) by (nonlinear_arith)
        requires
            e == 2real / 1000real,
    ;
    lemma_vector_scale(normal, n, 0real, dot, d, e, 2real, 6000real, 5real / 1000real);
    lemma_bounded(n.0, d, 2real, 6000real);
    lemma_bounded(n.1, d, 2real, 6000real);
    lemma_bounded(n.2, d, 2real, 6000real);
    assert(2real * 6000real == 12000real) by (nonlinear_arith);
    lemma_vector_minus(vel, v, 0real, normal.scale(dot), stretched(n, d), 5real / 1000real, 13000real);
    let (flat, a) = (vel.minus(normal.scale(dot)), across(v, n));
    let x = point(flat);
    lemma_still_long(x.0, a.0);
    lemma_still_long(x.1, a.1);
    lemma_still_long(x.2, a.2);
    lemma_bounded(x.0, x.0, 14000real, 14000real);
    lemma_bounded(x.1, x.1, 14000real, 14000real);
    lemma_bounded(x.2, x.2, 14000real, 14000real);
    assert(14000real * 14000real == 196000000real) by (nonlinear_arith);
    let (f, l) = (7real / 10000real, 9real);
    assert(f * l == 63real / 10000real && l * l == 81real) by (nonlinear_arith)
        requires
            f == 7real / 10000real,
            l == 9real,
    ;
    lemma_has_unit(flat);
    let c = lemma_unit(flat, a, f, l);
    lemma_dot_close(flat, flat, 196000000real);
    lemma_length_squared(flat);
    lemma2_to64();
    lemma_pow2_adds(32, 14);
    lemma_constant(EPSILON, 0x80_0000, 46, 0x4000_0000_0000);
    lemma_order(Single { bits: EPSILON }, flat.length_squared());
    lemma_speck();
    c
}

/// A component that is a little off is still long.
proof fn lemma_still_long(x: real, a: real)
    requires
        -6real <= 1000real * (x - a) <= 6real,
    ensures
        x * x >= 999real * (a * a) / 1000real - 1real / 10real,
{
    lemma_weak_square(a, x - a);
    lemma_bounded(x - a, x - a, 6real / 1000real, 6real / 1000real);
    assert((6real / 1000real) * (6real / 1000real) == 36real / 1000000real) by (nonlinear_arith);
}

/// The deepest penetration that counts is the way of the body in a step, and the threshold of a contact, 0.02. The result is how fast the body
/// moves.
pub proof fn law_a_step_makes_no_deeper_penetration(body: RigidBody, time_step: Single) -> (speed: real)
    requires
        body.lin_vel.finite() && sized(point(body.lin_vel), 1000real),
        time_step.finite() && 0real <= real_value(time_step) <= 1real,
    ensures
        0real <= speed,
        ({
            let x = inner(point(body.lin_vel), point(body.lin_vel));
            let e = x / 1000000real + 1real / 100000000000real;
            -e <= speed * speed - x <= e
        }),
        within(max_recover(body, time_step), speed * real_value(time_step) + 1real / 50real, 1real / 1000real),
{
    let v = body.lin_vel;
    lemma_any_length(v);
    let (r, t) = (real_value(v.length()), real_value(time_step));
    let p = point(v);
    lemma_bounded(p.0, p.0, 1000real, 1000real);
    lemma_bounded(p.1, p.1, 1000real, 1000real);
    lemma_bounded(p.2, p.2, 1000real, 1000real);
    assert(1000real * 1000real == 1000000real) by (nonlinear_arith);
    if r > 2000real {
        lemma_scaled(r, 2000real, r);
        lemma_swap(r, 2000real);
    }
    assert(slack(2000real, 0real, 1real, 0real) <= 2real / 10000real && (2000real + 0real) * (1real + 0real) == 2000real)
        by (nonlinear_arith);
    lemma_times(v.length(), r, 0real, time_step, t, 0real, 2000real, 1real, 2real / 10000real);
    lemma_bounded(r, t, 2000real, 1real);
    let margin = Single { bits: CONTACT_BREAKING_THRESHOLD };
    lemma2_to64();
    lemma_constant(CONTACT_BREAKING_THRESHOLD, 0xa3_d70a, 29, 0x2000_0000);
    lemma_plus(v.length().times(time_step), r * t, 2real / 10000real, margin, 1real / 50real, 1real / 1000000real, 2001real);
    r
}

} // verus!
