//! How a sphere advances on a triangle.
use crate::bounds::{
    added, inner, lemma_inner, lemma_length, lemma_minus, lemma_opposite, lemma_plus, lemma_vector_minus, lemma_vector_plus,
    lemma_vector_scale, point, sized, slack, stretched, taken, within,
};
use crate::bullet::box_contact_laws::{lemma_part_of, lemma_way_out};
use crate::bullet::geometry::TriangleShape;
use crate::bullet::sphere_concave_collision_alg::{Advance, SweptSphereTriangleCallback, CLOSING_LIMIT, CONTACT_GAP};
use crate::consts::EPSILON;
use crate::math::Vec3A;
use crate::reals::{lemma_bounded, lemma_cycle, lemma_scaled, lemma_spread, lemma_square_of_sum, lemma_swap};
use crate::single::{Single, ONE_BITS};
use crate::single_errors::{lemma_constant, lemma_order, lemma_quotient_close, lemma_speck, lemma_two, real_value};
use crate::single_laws::{law_sum_follows_sign, lemma_value};
use vstd::arithmetic::power2::{lemma2_to64, lemma_pow2_adds};
use vstd::prelude::*;

verus! {

/// The way from the closest point to the centre after the part `toi` of the way.
pub open spec fn offset(sphere: SweptSphereTriangleCallback, toi: real, at: (real, real, real)) -> (real, real, real) {
    taken(added(point(sphere.start), stretched(point(sphere.delta), toi)), at)
}

/// The centre of the sphere, off the closest point.
proof fn lemma_offset(sphere: SweptSphereTriangleCallback, toi: Single, at: Vec3A)
    requires
        sphere.start.finite() && sized(point(sphere.start), 256real),
        sphere.delta.finite() && sized(point(sphere.delta), 8real),
        toi.finite() && 0real <= real_value(toi) <= 1real,
        at.finite(),
        sized(offset(sphere, real_value(toi), point(at)), 16real),
    ensures
        ({
            let o = sphere.center_at(toi).minus(at);
            &&& o.finite()
            &&& sized(taken(point(o), offset(sphere, real_value(toi), point(at))), 2real / 100000real)
        }),
{
    let (s, d, t, a) = (point(sphere.start), point(sphere.delta), real_value(toi), point(at));
    assert(slack(8real, 0real, 1real, 0real) <= 1real / 1000000real && (8real + 0real) * (1real + 0real) == 8real)
        by (nonlinear_arith);
    lemma_vector_scale(sphere.delta, d, 0real, toi, t, 0real, 8real, 1real, 1real / 1000000real);
    lemma_bounded(d.0, t, 8real, 1real);
    lemma_bounded(d.1, t, 8real, 1real);
    lemma_bounded(d.2, t, 8real, 1real);
    lemma_vector_plus(
        sphere.start,
        s,
        0real,
        sphere.delta.scale(toi),
        stretched(d, t),
        1real / 1000000real,
        264real,
    );
    lemma_vector_minus(sphere.center_at(toi), added(s, stretched(d, t)), 18real / 1000000real, at, a, 0real, 16real);
}

/// What a sphere makes of the closest point: it touches where the distance is no more than the radius; otherwise it goes on to
/// where it would touch if the triangle went on across the way to the closest point, and misses if that is not ahead of it
/// within the step. The result is the distance.
pub proof fn law_sweeps_go_on_to_the_plane(
    sphere: SweptSphereTriangleCallback,
    triangle: TriangleShape,
    toi: Single,
    at: Vec3A,
) -> (far: real)
    requires
        sphere.start.finite() && sized(point(sphere.start), 256real),
        sphere.delta.finite() && sized(point(sphere.delta), 8real),
        sphere.radius.finite() && 0real <= real_value(sphere.radius) <= 8real,
        toi.finite() && 0real <= real_value(toi) <= 1real,
        at.finite(),
        sized(offset(sphere, real_value(toi), point(at)), 16real),
        1real <= 100real * inner(
            offset(sphere, real_value(toi), point(at)),
            offset(sphere, real_value(toi), point(at)),
        ),
    ensures
        0real < far,
        ({
            let o = offset(sphere, real_value(toi), point(at));
            let gap = far - real_value(sphere.radius);
            let closing = -inner(point(sphere.delta), o);
            let tol = 1real / 100real;
            &&& -1real <= 100real * (far * far - inner(o, o)) <= 1real
            &&& match sphere.advance_from(triangle, toi, at) {
                Advance::Contact(normal) => {
                    &&& gap <= tol
                    &&& sized(taken(stretched(point(normal), far), o), tol)
                },
                Advance::Miss => {
                    &&& gap > 0real
                    &&& closing <= tol || (1real - real_value(toi)) * closing <= gap * far + tol
                },
                Advance::To(next) => {
                    &&& gap > 0real
                    &&& next.finite()
                    &&& real_value(toi) <= real_value(next) <= 1real
                    &&& -tol <= (real_value(next) - real_value(toi)) * closing - gap * far <= tol
                },
            }
        }),
{
    lemma_speck();
    lemma_offset(sphere, toi, at);
    let w = sphere.center_at(toi).minus(at);
    let (o, x) = (offset(sphere, real_value(toi), point(at)), point(w));
    lemma_square_near(x.0, o.0);
    lemma_square_near(x.1, o.1);
    lemma_square_near(x.2, o.2);
    lemma_length(w);
    let distance = w.length();
    let far = real_value(distance);
    let whole = inner(x, x);
    lemma_square_of_sum(x.0, 0real);
    lemma_square_of_sum(x.1, 0real);
    lemma_square_of_sum(x.2, 0real);
    lemma_far(whole, far);
    lemma_part_of(x.0, whole, far);
    lemma_part_of(x.1, whole, far);
    lemma_part_of(x.2, whole, far);
    lemma_way_out(w.x, distance, x.0);
    lemma_way_out(w.y, distance, x.1);
    lemma_way_out(w.z, distance, x.2);
    lemma2_to64();
    lemma_pow2_adds(32, 14);
    lemma_constant(EPSILON, 0x80_0000, 46, 0x4000_0000_0000);
    lemma_order(Single { bits: EPSILON }, distance);
    let normal = w.over(distance);
    let n = point(normal);
    let r = real_value(sphere.radius);
    lemma_minus(distance, far, 0real, sphere.radius, r, 0real, 40real);
    let separation = distance.minus(sphere.radius);
    let g = real_value(separation);
    lemma_pow2_adds(32, 8);
    lemma_constant(CONTACT_GAP, 0xa7_c5ac, 40, 0x100_0000_0000);
    lemma_order(separation, Single { bits: CONTACT_GAP });
    // How fast the sphere closes in.
    let d = point(sphere.delta);
    assert(slack(8real, 0real, 2real, 0real) <= 1real / 1000000real && (8real + 0real) * (2real + 0real) == 16real && 8real * 2real
        == 16real) by (nonlinear_arith);
    lemma_inner(sphere.delta, d, 0real, normal, n, 0real, 8real, 2real, 16real, 1real / 1000000real);
    let dot = sphere.delta.dot(normal);
    lemma_opposite(dot, inner(d, n), 15real / 1000000real);
    let closing = dot.negate();
    let c = real_value(closing);
    let q = -inner(d, o);
    lemma_closing(d, n, o, far, c);
    lemma_pow2_adds(32, 11);
    lemma_constant(CLOSING_LIMIT, 0x86_37bd, 43, 0x800_0000_0000);
    lemma_order(closing, Single { bits: CLOSING_LIMIT });
    let one = Single { bits: ONE_BITS };
    lemma_two();
    let gap = far - r;
    if !separation.at_most(Single { bits: CONTACT_GAP }) {
        if !closing.at_most(Single { bits: CLOSING_LIMIT }) {
            lemma_quotient_close(separation, closing);
            let part = separation.over(closing);
            let f = g / c;
            assert(f * c == g) by (nonlinear_arith)
                requires
                    f == g / c,
                    c > 0real,
            ;
            assert(0real < f <= 100000000real) by (nonlinear_arith)
                requires
                    f == g / c,
                    0real < g <= 41real,
                    c >= 9real / 10000000real,
            ;
            let t = real_value(toi);
            let p = real_value(part);
            lemma_plus(toi, t, 0real, part, p, 0real, 1real + p);
            let next = toi.plus(part);
            lemma_order(one, next);
            assert(f >= 1real / 10000000real) by (nonlinear_arith)
                requires
                    f * c == g,
                    g >= 9real / 1000000real,
                    0real < c <= 49real,
            ;
            lemma_value(part);
            law_sum_follows_sign(toi, part);
            lemma_order(toi, next);
            let y = real_value(next) - t;
            if one.less(next) {
                // The plane is not reached within the step.
                assert(1real - t <= f + f / 1000000real + 1real / 1000000real);
                lemma_not_reached(1real - t, f, c, g, far, q, gap);
            } else {
                assert(-(3real / 1000000real) <= y - f <= 3real / 1000000real);
                lemma_reached(y, f, c, g, far, q, gap);
            }
        } else {
            lemma_scaled(far, c, 1real / 1000000real + 1real / 1000000000real);
            assert(far * (1real / 1000000real + 1real / 1000000000real) <= 30real * far / 10000000real) by (nonlinear_arith)
                requires
                    far >= 0real,
            ;
            lemma_swap(far, c);
        }
    }
    far
}

/// Squares of components that are near each other.
proof fn lemma_square_near(d: real, w: real)
    requires
        -2real <= 100000real * (d - w) <= 2real,
        -16real <= w <= 16real,
    ensures
        -1real <= 1000real * (d * d - w * w) <= 1real,
        d * d <= 257real,
{
    lemma_bounded(d - w, d + w, 2real / 100000real, 33real);
    assert((d - w) * (d + w) == d * d - w * w) by (nonlinear_arith);
    assert(2real / 100000real * 33real <= 1real / 1000real) by (nonlinear_arith);
    lemma_bounded(w, w, 16real, 16real);
    assert(16real * 16real == 256real) by (nonlinear_arith);
}

proof fn lemma_far(x: real, r: real)
    requires
        0real < r,
        -x <= 1000000real * (r * r - x) <= x,
        6real <= 1000real * x,
        x <= 800real,
    ensures
        r <= 30real,
        1real <= 20real * r,
{
    if r > 30real {
        lemma_scaled(r, 30real, r);
        lemma_swap(r, 30real);
    }
    if 20real * r < 1real {
        lemma_scaled(r, r, 1real / 20real);
        assert(r * (1real / 20real) == r / 20real) by (nonlinear_arith);
    }
}

/// The speed along the normal, times the distance, is the speed along the way to the closest point.
proof fn lemma_closing(d: (real, real, real), n: (real, real, real), o: (real, real, real), far: real, c: real)
    requires
        sized(d, 8real),
        sized(taken(stretched(n, far), o), 4real / 100000real),
        0real <= far <= 30real,
        -15real <= 1000000real * (c + inner(d, n)) <= 15real,
    ensures
        -2real <= 1000real * (c * far + inner(d, o)) <= 2real,
{
    let m = stretched(n, far);
    lemma_bounded(d.0, m.0 - o.0, 8real, 4real / 100000real);
    lemma_bounded(d.1, m.1 - o.1, 8real, 4real / 100000real);
    lemma_bounded(d.2, m.2 - o.2, 8real, 4real / 100000real);
    assert(8real * (4real / 100000real) == 32real / 100000real) by (nonlinear_arith);
    lemma_spread(d.0, m.0, o.0);
    lemma_spread(d.1, m.1, o.1);
    lemma_spread(d.2, m.2, o.2);
    lemma_cycle(d.0, n.0, far);
    lemma_cycle(d.1, n.1, far);
    lemma_cycle(d.2, n.2, far);
    let s = inner(d, n);
    lemma_spread(far, d.0 * n.0 + d.1 * n.1, d.2 * n.2);
    lemma_spread(far, d.0 * n.0, d.1 * n.1);
    lemma_swap(far, d.0 * n.0);
    lemma_swap(far, d.1 * n.1);
    lemma_swap(far, d.2 * n.2);
    lemma_bounded(c + s, far, 15real / 1000000real, 30real);
    assert(15real / 1000000real * 30real == 450real / 1000000real) by (nonlinear_arith);
    lemma_swap(c + s, far);
    lemma_spread(far, c, s);
    lemma_swap(far, c);
}

/// The part of the way to the plane, times the speed along the way to the closest point.
proof fn lemma_reached(y: real, f: real, c: real, g: real, far: real, q: real, gap: real)
    requires
        -(3real / 1000000real) <= y - f <= 3real / 1000000real,
        0real <= y <= 1real,
        f * c == g,
        0real < c <= 49real,
        -3real <= 1000000real * (g - gap) <= 3real,
        0real <= far <= 30real,
        -2real <= 1000real * (c * far - q) <= 2real,
    ensures
        -1real <= 100real * (y * q - gap * far) <= 1real,
{
    let h = c * far;
    lemma_bounded(y, h - q, 1real, 2real / 1000real);
    lemma_spread(y, h, q);
    lemma_bounded(c, far, 49real, 30real);
    assert(49real * 30real == 1470real && 3real / 1000000real * 1470real <= 45real / 10000real) by (nonlinear_arith);
    lemma_bounded(y - f, h, 3real / 1000000real, 1470real);
    lemma_swap(y - f, h);
    lemma_spread(h, y, f);
    lemma_swap(h, y);
    lemma_swap(h, f);
    lemma_cycle(f, c, far);
    lemma_bounded(g - gap, far, 3real / 1000000real, 30real);
    assert(3real / 1000000real * 30real == 90real / 1000000real) by (nonlinear_arith);
    lemma_swap(g - gap, far);
    lemma_spread(far, g, gap);
    lemma_swap(far, g);
    lemma_swap(far, gap);
}

/// The rest of the way does not lead to the plane.
proof fn lemma_not_reached(y: real, f: real, c: real, g: real, far: real, q: real, gap: real)
    requires
        y <= f + f / 1000000real + 1real / 1000000real,
        0real <= y <= 1real,
        0real < f,
        f * c == g,
        0real < c <= 49real,
        -3real <= 1000000real * (g - gap) <= 3real,
        0real < g <= 41real,
        0real <= far <= 30real,
        -2real <= 1000real * (c * far - q) <= 2real,
    ensures
        100real * (y * q) <= 100real * (gap * far) + 1real,
{
    let h = c * far;
    lemma_bounded(y, h - q, 1real, 2real / 1000real);
    lemma_spread(y, h, q);
    lemma_bounded(c, far, 49real, 30real);
    assert(49real * 30real == 1470real) by (nonlinear_arith);
    assert(h >= 0real) by {
        lemma_scaled(c, 0real, far);
        lemma_spread(c, 0real, 0real);
    }
    let k = f / 1000000real;
    lemma_scaled(h, y, f + k + 1real / 1000000real);
    lemma_spread(h, f + k, 1real / 1000000real);
    lemma_spread(h, f, k);
    lemma_swap(h, y);
    lemma_swap(h, f);
    lemma_cycle(f, c, far);
    assert(h * (1real / 1000000real) == h / 1000000real) by (nonlinear_arith);
    assert(h * (f / 1000000real) == (h * f) / 1000000real) by (nonlinear_arith);
    lemma_bounded(g, far, 41real, 30real);
    assert(41real * 30real == 1230real) by (nonlinear_arith);
    lemma_bounded(g - gap, far, 3real / 1000000real, 30real);
    assert(3real / 1000000real * 30real == 90real / 1000000real) by (nonlinear_arith);
    lemma_swap(g - gap, far);
    lemma_spread(far, g, gap);
    lemma_swap(far, g);
    lemma_swap(far, gap);
}

} // verus!
