//! How far apart a sphere and a box are, and how fast they can meet.
use crate::bounds::{
    added, inner, lemma_any_length, lemma_minus, lemma_opposite, lemma_plus, lemma_times, lemma_vector_minus, outer, point, sized,
    slack, taken,
};
use crate::bullet::body::CompoundShape;
use crate::bullet::box_contact_laws::{lemma_lane, lemma_seen_from_box, rigid};
use crate::bullet::sphere_obb_collision_alg::{gap, Flight, TOI_TIME_EPSILON};
use crate::math::{lane_within, Affine3A, Vec3A};
use crate::reals::{
    lemma_both_positive, lemma_bounded, lemma_cauchy, lemma_expand, lemma_outer_length, lemma_scaled, lemma_spread,
    lemma_square_of_sum, lemma_swap,
};
use crate::single::Single;
use crate::single_errors::{lemma_constant, lemma_order, lemma_quotient_close, lemma_speck, real_value};
use vstd::arithmetic::power2::{lemma2_to64, lemma_pow2_adds};
use vstd::prelude::*;

verus! {

/// A search for an impact advances by the time that it takes at least to close the gap, or by a millionth if that is more,
/// and not beyond the step.
pub proof fn law_advances_are_safe(flight: Flight, lower: Single, separation: Single, time_step: Single)
    requires
        lower.finite(),
        0real <= real_value(lower) <= 1real,
        separation.finite(),
        0real < real_value(separation) <= 1000real,
        flight.speed_limit().finite(),
        1real <= real_value(flight.speed_limit()) <= 1000000real,
        time_step.finite(),
        0real <= real_value(time_step) <= 1real,
    ensures
        flight.next_time(lower, separation, time_step).finite(),
        ({
            let next = real_value(flight.next_time(lower, separation, time_step));
            let (from, end) = (real_value(lower), real_value(time_step));
            let wait = real_value(separation) / real_value(flight.speed_limit());
            let least = 1real / 1000000real;
            let most = if wait >= least { wait } else { least };
            let e = most / 1000000real + 1real / 8000000real;
            &&& next <= end
            &&& next <= from + most + e
            &&& next == end || from + most - e <= next
        }),
{
    lemma_speck();
    lemma2_to64();
    lemma_pow2_adds(32, 11);
    let tick = Single { bits: TOI_TIME_EPSILON };
    lemma_constant(TOI_TIME_EPSILON, 0x86_37bd, 43, 0x800_0000_0000);
    let limit = flight.speed_limit();
    let (s, k) = (real_value(separation), real_value(limit));
    lemma_quotient_close(separation, limit);
    let wait = s / k;
    assert(0real <= wait <= 1000real) by (nonlinear_arith)
        requires
            wait == s / k,
            0real < s <= 1000real,
            k >= 1real,
    ;
    let by = separation.over(limit);
    lemma_order(by, tick);
    let step = by.greater_of(tick);
    let b = real_value(step);
    lemma_plus(lower, real_value(lower), 0real, step, b, 0real, 1real + b);
    let sum = lower.plus(step);
    lemma_order(time_step, sum);
}

/// The sum of two vectors is no longer than both together.
proof fn lemma_triangle(c: (real, real, real), q: (real, real, real), a: real, b: real)
    requires
        inner(c, c) <= a * a,
        inner(q, q) <= b * b,
        0real <= a,
        0real <= b,
    ensures
        inner(added(c, q), added(c, q)) <= (a + b) * (a + b),
{
    let y = inner(c, q);
    lemma_cauchy(c, q);
    lemma_square_of_sum(c.0, q.0);
    lemma_square_of_sum(c.1, q.1);
    lemma_square_of_sum(c.2, q.2);
    lemma_square_of_sum(a, b);
    let (x, z) = (inner(c, c), inner(q, q));
    lemma_square_of_sum(c.0, 0real);
    lemma_square_of_sum(c.1, 0real);
    lemma_square_of_sum(c.2, 0real);
    lemma_square_of_sum(q.0, 0real);
    lemma_square_of_sum(q.1, 0real);
    lemma_square_of_sum(q.2, 0real);
    assert(z * x <= (b * b) * (a * a)) by {
        lemma_bounded(z, x, b * b, a * a);
    }
    assert((b * b) * (a * a) == (a * b) * (a * b)) by (nonlinear_arith);
    lemma_both_positive(a, b);
    assert(y <= a * b) by {
        let m = a * b;
        if y > m {
            lemma_scaled(y, m, y);
            lemma_scaled(m, m, y);
            lemma_swap(m, y);
            assert(y * y > m * m) by (nonlinear_arith)
                requires
                    y > m,
                    m >= 0real,
            ;
        }
    }
}

/// Something whose square is at most that of a bound is at most the bound.
proof fn lemma_root_order(y: real, m: real)
    requires
        y * y <= m * m,
        m >= 0real,
    ensures
        y <= m,
{
    if y > m {
        assert(y * y > m * m) by (nonlinear_arith)
            requires
                y > m,
                m >= 0real,
        ;
    }
}

/// How far off a length counts.
pub open spec fn padded(r: real) -> real {
    r + r / 100000real + 1real / 100000real
}

/// The square of a vector is no more than that of its padded length.
proof fn lemma_padded(v: Vec3A)
    requires
        v.finite(),
        sized(point(v), 10000real),
    ensures
        v.length().finite(),
        0real <= real_value(v.length()) <= 20000real,
        inner(point(v), point(v)) <= padded(real_value(v.length())) * padded(real_value(v.length())),
{
    lemma_any_length(v);
    let r = real_value(v.length());
    let p = point(v);
    let x = inner(p, p);
    let a = 100001real * r / 100000real;
    let c = 1real / 100000real;
    lemma_square_of_sum(a, c);
    lemma_both_positive(a, c);
    lemma_square_of_sum(r, 0real);
    assert(a * a == 10000200001real * (r * r) / 10000000000real) by (nonlinear_arith)
        requires
            a == 100001real * r / 100000real,
    ;
    assert(c * c == 1real / 10000000000real) by (nonlinear_arith)
        requires
            c == 1real / 100000real,
    ;
    assert(padded(r) == a + c);
    lemma_bounded(p.0, p.0, 10000real, 10000real);
    lemma_bounded(p.1, p.1, 10000real, 10000real);
    lemma_bounded(p.2, p.2, 10000real, 10000real);
    assert(10000real * 10000real == 100000000real) by (nonlinear_arith);
    if r > 20000real {
        lemma_scaled(r, 20000real, r);
        lemma_swap(r, 20000real);
    }
}

/// The way from the centre of a body to the far corner of its box, with the margin.
pub open spec fn far_corner(shape: CompoundShape) -> Vec3A {
    shape.child_shape.half_extents.plus(Vec3A::splat(shape.child_shape.margin))
}

/// No point of the box closes in on the sphere faster than the limit, along whatever direction `n` of at most unit length: the
/// box moves, and spins about the centre of its body; `c` is the way from there to the middle of the box, however turned, and `q`
/// that from the middle to the point.
pub proof fn law_no_point_closes_in_faster(
    flight: Flight,
    n: (real, real, real),
    c: (real, real, real),
    q: (real, real, real),
)
    requires
        flight.sphere_lin_vel.minus(flight.obb_lin_vel).finite(),
        sized(point(flight.sphere_lin_vel.minus(flight.obb_lin_vel)), 10000real),
        flight.obb_ang_vel.finite(),
        sized(point(flight.obb_ang_vel), 100real),
        flight.obb_shape.child_trans.translation.finite(),
        sized(point(flight.obb_shape.child_trans.translation), 16real),
        far_corner(flight.obb_shape).finite(),
        sized(point(far_corner(flight.obb_shape)), 16real),
        inner(n, n) <= 1real,
        inner(c, c) <= inner(
            point(flight.obb_shape.child_trans.translation),
            point(flight.obb_shape.child_trans.translation),
        ),
        inner(q, q) <= inner(point(far_corner(flight.obb_shape)), point(far_corner(flight.obb_shape))),
    ensures
        flight.speed_limit().finite(),
        ({
            let toward = point(flight.sphere_lin_vel.minus(flight.obb_lin_vel));
            let speed = inner(n, taken(toward, outer(point(flight.obb_ang_vel), added(c, q))));
            speed <= real_value(flight.speed_limit()) + 1real
        }),
{
    let (v, w) = (flight.sphere_lin_vel.minus(flight.obb_lin_vel), flight.obb_ang_vel);
    let (child, far) = (flight.obb_shape.child_trans.translation, far_corner(flight.obb_shape));
    lemma_padded(v);
    lemma_short(w, 100real, 200real);
    lemma_short(child, 16real, 30real);
    lemma_short(far, 16real, 30real);
    let (a, b, d, e) = (
        real_value(v.length()),
        real_value(w.length()),
        real_value(child.length()),
        real_value(far.length()),
    );
    let (pv, pw, r) = (point(v), point(w), added(c, q));
    let o = outer(pw, r);
    // The straight part.
    let y = inner(n, pv);
    lemma_cauchy(n, pv);
    lemma_squares(pv);
    lemma_unit_factor(inner(n, n), inner(pv, pv));
    lemma_swap(inner(pv, pv), inner(n, n));
    assert(y * y <= padded(a) * padded(a));
    lemma_root_order(y, padded(a));
    // The part of the spin.
    lemma_triangle(c, q, padded(d), padded(e));
    let z = inner(n, (-o.0, -o.1, -o.2));
    let m = (-o.0, -o.1, -o.2);
    lemma_cauchy(n, m);
    lemma_squares(m);
    lemma_unit_factor(inner(n, n), inner(m, m));
    lemma_swap(inner(m, m), inner(n, n));
    lemma_outer_length(pw, r);
    lemma_opposite_square(o.0);
    lemma_opposite_square(o.1);
    lemma_opposite_square(o.2);
    let (f, g) = (padded(b), padded(d) + padded(e));
    lemma_squares(pw);
    lemma_squares(r);
    assert(inner(pw, pw) * inner(r, r) <= (f * f) * (g * g)) by {
        lemma_bounded(inner(pw, pw), inner(r, r), f * f, g * g);
    }
    assert((f * f) * (g * g) == (f * g) * (f * g)) by (nonlinear_arith);
    lemma_both_positive(f, g);
    lemma_root_order(z, f * g);
    // What the numbers come to.
    lemma_plus(child.length(), d, 0real, far.length(), e, 0real, 60real);
    let reach = child.length().plus(far.length());
    let er = 60real / 16000000real;
    assert(slack(200real, 0real, 60real, er) <= 1real / 500real && (200real + 0real) * (60real + er) <= 12001real && (200real
        + 0real) * (60real + er) >= 12000real) by (nonlinear_arith)
        requires
            er == 60real / 16000000real,
    ;
    lemma_times(w.length(), b, 0real, reach, d + e, er, 200real, 60real, 1real / 500real);
    lemma_bounded(b, d + e, 200real, 60real);
    assert(200real * 60real == 12000real) by (nonlinear_arith);
    lemma_plus(v.length(), a, 0real, w.length().times(reach), b * (d + e), 1real / 500real, 32000real);
    lemma_padded_product(b, d + e, f, g);
    lemma_spread(n.0, pv.0, o.0);
    lemma_spread(n.1, pv.1, o.1);
    lemma_spread(n.2, pv.2, o.2);
    lemma_spread(n.0, o.0, o.0);
    lemma_spread(n.1, o.1, o.1);
    lemma_spread(n.2, o.2, o.2);
}

proof fn lemma_squares(p: (real, real, real))
    ensures
        0real <= inner(p, p),
{
    lemma_square_of_sum(p.0, 0real);
    lemma_square_of_sum(p.1, 0real);
    lemma_square_of_sum(p.2, 0real);
}

proof fn lemma_opposite_square(x: real)
    ensures
        (-x) * (-x) == x * x,
{
    assert((-x) * (-x) == x * x) by (nonlinear_arith);
}

/// A factor of at most 1 makes nothing larger.
proof fn lemma_unit_factor(k: real, x: real)
    requires
        k <= 1real,
        0real <= x,
    ensures
        x * k <= x,
{
    lemma_scaled(x, k, 1real);
    assert(x * 1real == x) by (nonlinear_arith);
}

/// The product of two padded numbers is hardly more than that of the numbers.
proof fn lemma_padded_product(b: real, s: real, f: real, g: real)
    requires
        0real <= b <= 200real,
        0real <= s <= 60real,
        f == b + b / 100000real + 1real / 100000real,
        g == s + s / 100000real + 2real / 100000real,
    ensures
        f * g <= b * s + 1real / 2real,
{
    let (x, y) = (f - b, g - s);
    lemma_expand(b, x, s, y);
    lemma_bounded(b, y, 200real, 1real / 1000real);
    lemma_bounded(x, s, 1real / 400real, 60real);
    lemma_bounded(x, y, 1real / 400real, 1real / 1000real);
    assert(200real * (1real / 1000real) == 1real / 5real && 1real / 400real * 60real == 3real / 20real && (1real / 400real) * (
    1real / 1000real) == 1real / 400000real) by (nonlinear_arith);
}

/// The length of a vector with small components is small.
proof fn lemma_short(v: Vec3A, m: real, most: real)
    requires
        v.finite(),
        sized(point(v), m),
        0real <= m <= 100real,
        most == 200real && m == 100real || most == 30real && m == 16real,
    ensures
        v.length().finite(),
        0real <= real_value(v.length()) <= most,
        inner(point(v), point(v)) <= padded(real_value(v.length())) * padded(real_value(v.length())),
{
    lemma_padded(v);
    lemma_any_length(v);
    let p = point(v);
    let r = real_value(v.length());
    lemma_bounded(p.0, p.0, m, m);
    lemma_bounded(p.1, p.1, m, m);
    lemma_bounded(p.2, p.2, m, m);
    assert(100real * 100real == 10000real && 16real * 16real == 256real && 200real * 200real == 40000real && 30real * 30real
        == 900real) by (nonlinear_arith);
    if r > most {
        lemma_scaled(r, most, r);
        lemma_scaled(most, most, r);
        lemma_swap(r, most);
    }
}

/// A point of the box, as the box sees it.
pub open spec fn in_box(q: (real, real, real), extents: (real, real, real)) -> bool {
    -extents.0 <= q.0 <= extents.0 && -extents.1 <= q.1 <= extents.1 && -extents.2 <= q.2 <= extents.2
}

/// Nothing in a range is closer to a number than the closest that clamping finds.
pub proof fn lemma_closest_lane(x: Single, extent: Single, q: real)
    requires
        extent.finite(),
        0real <= real_value(extent) <= 16real,
        x.finite(),
        -100real <= real_value(x) <= 100real,
        -real_value(extent) <= q <= real_value(extent),
    ensures
        ({
            let y = real_value(lane_within(x, extent.negate(), extent));
            &&& -real_value(extent) <= y <= real_value(extent)
            &&& (real_value(x) - y) * (real_value(x) - y) <= (real_value(x) - q) * (real_value(x) - q)
        }),
{
    let h = real_value(extent);
    lemma_opposite(extent, h, 0real);
    lemma_order(extent.negate(), x);
    lemma_order(x, extent);
    lemma_order(extent.negate(), extent);
    let (p, y) = (real_value(x), real_value(lane_within(x, extent.negate(), extent)));
    let (a, b) = (p - y, p - q);
    assert(a == 0real || 0real < a <= b || b <= a < 0real);
    assert(a * a <= b * b) by (nonlinear_arith)
        requires
            a == 0real || 0real < a <= b || b <= a < 0real,
    ;
}

/// The gap between a sphere and a box, with the radius and the margin, is the distance from the centre to the box: no point of
/// the box is closer to the centre as the box sees it, and one is that close.
pub proof fn law_gap_is_the_distance_to_the_box(
    center: Vec3A,
    radius: Single,
    obb_trans: Affine3A,
    shape: CompoundShape,
    q: (real, real, real),
) -> (touch: (real, real, real))
    requires
        rigid(obb_trans.after(shape.child_trans).matrix3),
        obb_trans.after(shape.child_trans).translation.finite(),
        center.finite(),
        sized(taken(point(center), point(obb_trans.after(shape.child_trans).translation)), 16real),
        shape.child_shape.half_extents.finite(),
        sized(point(shape.child_shape.half_extents), 16real),
        in_box((0real, 0real, 0real), point(shape.child_shape.half_extents)),
        in_box(q, point(shape.child_shape.half_extents)),
        radius.finite(),
        0real <= real_value(radius) <= 16real,
        shape.child_shape.margin.finite(),
        0real <= real_value(shape.child_shape.margin) <= 16real,
    ensures
        gap(center, radius, obb_trans, &shape).finite(),
        in_box(touch, point(shape.child_shape.half_extents)),
        ({
            let p = point(obb_trans.after(shape.child_trans).inv_x_form(center));
            let far = real_value(gap(center, radius, obb_trans, &shape)) + real_value(radius) + real_value(
                shape.child_shape.margin,
            );
            &&& -1real <= 1000real * far
            &&& -1real <= 10real * (inner(taken(p, touch), taken(p, touch)) - far * far) <= 1real
            &&& 10real * (far * far) <= 10real * inner(taken(p, q), taken(p, q)) + 1real
        }),
{
    let trans = obb_trans.after(shape.child_trans);
    let extents = shape.child_shape.half_extents;
    let margin = shape.child_shape.margin;
    lemma_seen_from_box(center, trans);
    let local = trans.inv_x_form(center);
    let closest = local.clamp(extents.negate(), extents);
    lemma_lane(local.x, extents.x);
    lemma_lane(local.y, extents.y);
    lemma_lane(local.z, extents.z);
    let (p, t) = (point(local), point(closest));
    lemma_closest_lane(local.x, extents.x, q.0);
    lemma_closest_lane(local.y, extents.y, q.1);
    lemma_closest_lane(local.z, extents.z, q.2);
    lemma_vector_minus(local, p, 0real, closest, t, 0real, 100real);
    let delta = local.minus(closest);
    let (d, w) = (point(delta), taken(p, t));
    lemma_any_length(delta);
    lemma_square_near(d.0, w.0);
    lemma_square_near(d.1, w.1);
    lemma_square_near(d.2, w.2);
    let length = delta.length();
    let r = real_value(length);
    let x = inner(d, d);
    if r > 200real {
        lemma_scaled(r, 200real, r);
        lemma_swap(r, 200real);
    }
    let (a, m) = (real_value(radius), real_value(margin));
    lemma_minus(length, r, 0real, radius, a, 0real, 216real);
    lemma_minus(length.minus(radius), r - a, 216real / 16000000real, margin, m, 0real, 232real);
    let g = real_value(length.minus(radius).minus(margin));
    let far = g + a + m;
    let e = far - r;
    assert(-4real <= 100000real * e <= 4real);
    lemma_square_of_sum(r, e);
    lemma_bounded(r, e, 200real, 4real / 100000real);
    lemma_bounded(e, e, 4real / 100000real, 4real / 100000real);
    assert(200real * (4real / 100000real) == 800real / 100000real && (4real / 100000real) * (4real / 100000real) <= 1real
        / 1000000real) by (nonlinear_arith);
    t
}

/// Squares of components that are near each other.
pub proof fn lemma_square_near(d: real, w: real)
    requires
        -7real <= 1000000real * (d - w) <= 7real,
        -100real <= w <= 100real,
    ensures
        -2real <= 1000real * (d * d - w * w) <= 2real,
        d * d <= 10201real,
{
    lemma_bounded(d - w, d + w, 7real / 1000000real, 201real);
    assert((d - w) * (d + w) == d * d - w * w) by (nonlinear_arith);
    assert(7real / 1000000real * 201real <= 2real / 1000real) by (nonlinear_arith);
    lemma_bounded(d, d, 101real, 101real);
    assert(101real * 101real == 10201real) by (nonlinear_arith);
}

} // verus!
