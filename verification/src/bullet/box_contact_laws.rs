//! Where the contact of a sphere with a box lies.
use crate::bounds::{
    added, inner, lemma_inner, lemma_length, lemma_minus, lemma_opposite, lemma_plus, lemma_times, lemma_vector_minus, lemma_vector_plus,
    lemma_vector_scale, near, point, sized, slack, stretched, taken, within,
};
use crate::bullet::sphere_obb_collision_alg::{box_contact, closest_face, face, first_face, Face, MINUS_ONE};
use crate::consts::EPSILON;
use crate::math::{lane_within, Affine3A, Mat3A, Vec3A};
use crate::math_errors::{lemma_dot_close, lemma_length_squared};
use crate::reals::{lemma_bounded, lemma_cycle, lemma_greater, lemma_scaled, lemma_sized, lemma_spread, lemma_square_of_sum, lemma_swap};
use crate::single::{Single, ONE_BITS};
use crate::single_errors::{lemma_constant, lemma_order, lemma_quotient_close, lemma_speck, lemma_two, real_value, size, speck};
use crate::single_laws::lemma_value;
use vstd::arithmetic::power2::{lemma2_to64, lemma_pow2_adds};
use vstd::prelude::*;

verus! {

/// A point of a box, or a direction, as a matrix turns it.
pub open spec fn turned(m: Mat3A, p: (real, real, real)) -> (real, real, real) {
    added(
        added(stretched(point(m.x_axis), p.0), stretched(point(m.y_axis), p.1)),
        stretched(point(m.z_axis), p.2),
    )
}

/// The components of the matrix are no larger than 2.
pub open spec fn plain(m: Mat3A) -> bool {
    &&& m.x_axis.finite() && m.y_axis.finite() && m.z_axis.finite()
    &&& sized(point(m.x_axis), 2real) && sized(point(m.y_axis), 2real) && sized(point(m.z_axis), 2real)
}

/// A point, or a direction, as it is seen from a frame that a matrix turns.
pub open spec fn seen(m: Mat3A, w: (real, real, real)) -> (real, real, real) {
    (inner(point(m.x_axis), w), inner(point(m.y_axis), w), inner(point(m.z_axis), w))
}

/// The matrix is a rotation, or a mirrored one, up to a part in 100000.
pub open spec fn rigid(m: Mat3A) -> bool {
    let (x, y, z) = (point(m.x_axis), point(m.y_axis), point(m.z_axis));
    let (a, b, c) = ((x.0, y.0, z.0), (x.1, y.1, z.1), (x.2, y.2, z.2));
    &&& plain(m)
    &&& -1real <= 100000real * (inner(a, a) - 1real) <= 1real
    &&& -1real <= 100000real * (inner(b, b) - 1real) <= 1real
    &&& -1real <= 100000real * (inner(c, c) - 1real) <= 1real
    &&& -1real <= 100000real * inner(a, b) <= 1real
    &&& -1real <= 100000real * inner(a, c) <= 1real
    &&& -1real <= 100000real * inner(b, c) <= 1real
}

/// Turning a vector whose components are at most `mp`.
pub proof fn lemma_turn(m: Mat3A, v: Vec3A, mp: real, k: real)
    requires
        plain(m),
        v.finite(),
        sized(point(v), mp),
        1real <= mp <= 1000real,
        slack(2real, 0real, mp, 0real) <= k,
        0real <= k <= mp,
        1real <= (2real + 0real) * (mp + 0real) <= 3000real,
    ensures
        near(m.mul_vec3a(v), turned(m, point(v)), 3real * k + mp / 1000000real),
        sized(turned(m, point(v)), 6real * mp),
{
    let p = point(v);
    let (x, y, z) = (point(m.x_axis), point(m.y_axis), point(m.z_axis));
    lemma_vector_scale(m.x_axis, x, 0real, v.x, p.0, 0real, 2real, mp, k);
    lemma_vector_scale(m.y_axis, y, 0real, v.y, p.1, 0real, 2real, mp, k);
    lemma_vector_scale(m.z_axis, z, 0real, v.z, p.2, 0real, 2real, mp, k);
    lemma_stretch_bound(x, p.0, mp);
    lemma_stretch_bound(y, p.1, mp);
    lemma_stretch_bound(z, p.2, mp);
    let (s, t, u) = (m.x_axis.scale(v.x), m.y_axis.scale(v.y), m.z_axis.scale(v.z));
    let (a, b, c) = (stretched(x, p.0), stretched(y, p.1), stretched(z, p.2));
    lemma_vector_plus(s, a, k, t, b, k, 4real * mp);
    let e = k + k + (4real * mp + k + k) / 16000000real;
    lemma_vector_plus(s.plus(t), added(a, b), e, u, c, k, 6real * mp);
}

proof fn lemma_stretch_bound(x: (real, real, real), k: real, m: real)
    requires
        sized(x, 2real),
        -m <= k <= m,
    ensures
        sized(stretched(x, k), 2real * m),
{
    lemma_bounded(x.0, k, 2real, m);
    lemma_bounded(x.1, k, 2real, m);
    lemma_bounded(x.2, k, 2real, m);
}

/// One component of what a turn and the turn back make of `w`.
proof fn lemma_there_and_back(
    r: (real, real, real),
    x: (real, real, real),
    y: (real, real, real),
    z: (real, real, real),
    w: (real, real, real),
)
    ensures
        ({
            let (a, b, c) = ((x.0, y.0, z.0), (x.1, y.1, z.1), (x.2, y.2, z.2));
            r.0 * inner(x, w) + r.1 * inner(y, w) + r.2 * inner(z, w) == w.0 * inner(r, a) + w.1 * inner(r, b) + w.2 * inner(
                r,
                c,
            )
        }),
{
    lemma_row(r.0, x, w);
    lemma_row(r.1, y, w);
    lemma_row(r.2, z, w);
    lemma_column(w.0, r.0 * x.0, r.1 * y.0, r.2 * z.0);
    lemma_column(w.1, r.0 * x.1, r.1 * y.1, r.2 * z.1);
    lemma_column(w.2, r.0 * x.2, r.1 * y.2, r.2 * z.2);
}

proof fn lemma_row(r: real, x: (real, real, real), w: (real, real, real))
    ensures
        r * inner(x, w) == w.0 * (r * x.0) + w.1 * (r * x.1) + w.2 * (r * x.2),
{
    lemma_spread(r, x.0 * w.0 + x.1 * w.1, x.2 * w.2);
    lemma_spread(r, x.0 * w.0, x.1 * w.1);
    lemma_cycle(r, x.0, w.0);
    lemma_cycle(r, x.1, w.1);
    lemma_cycle(r, x.2, w.2);
}

proof fn lemma_column(w: real, a: real, b: real, c: real)
    ensures
        w * (a + b + c) == w * a + w * b + w * c,
{
    lemma_spread(w, a + b, c);
    lemma_spread(w, a, b);
}

/// A number times one that is 1, or 0, up to a part in 100000.
proof fn lemma_about(w: real, g: real, whole: real)
    requires
        -16real <= w <= 16real,
        -1real <= 100000real * (g - whole) <= 1real,
        whole == 0real || whole == 1real,
    ensures
        -16real <= 100000real * (w * g - w * whole) <= 16real,
        whole == 1real ==> w * whole == w,
        whole == 0real ==> w * whole == 0real,
{
    lemma_bounded(w, g - whole, 16real, 1real / 100000real);
    assert(16real * (1real / 100000real) == 16real / 100000real) by (nonlinear_arith);
    lemma_spread(w, g, whole);
    lemma_spread(w, whole, whole);
    assert(w * 1real == w) by (nonlinear_arith);
}

/// A rigid matrix turns back what it turned.
proof fn lemma_turns_back(m: Mat3A, w: (real, real, real), p: (real, real, real), e: real)
    requires
        rigid(m),
        sized(w, 16real),
        -e <= p.0 - inner(point(m.x_axis), w) <= e,
        -e <= p.1 - inner(point(m.y_axis), w) <= e,
        -e <= p.2 - inner(point(m.z_axis), w) <= e,
    ensures
        sized(taken(turned(m, p), w), 6real * e + 48real / 100000real),
{
    let (x, y, z) = (point(m.x_axis), point(m.y_axis), point(m.z_axis));
    let (a, b, c) = ((x.0, y.0, z.0), (x.1, y.1, z.1), (x.2, y.2, z.2));
    let q = (inner(x, w), inner(y, w), inner(z, w));
    lemma_turned_apart(m, p, q, e);
    lemma_there_and_back(a, x, y, z, w);
    lemma_there_and_back(b, x, y, z, w);
    lemma_there_and_back(c, x, y, z, w);
    lemma_mirror(a, b);
    lemma_mirror(a, c);
    lemma_mirror(b, c);
    lemma_about(w.0, inner(a, a), 1real);
    lemma_about(w.1, inner(a, b), 0real);
    lemma_about(w.2, inner(a, c), 0real);
    lemma_about(w.0, inner(b, a), 0real);
    lemma_about(w.1, inner(b, b), 1real);
    lemma_about(w.2, inner(b, c), 0real);
    lemma_about(w.0, inner(c, a), 0real);
    lemma_about(w.1, inner(c, b), 0real);
    lemma_about(w.2, inner(c, c), 1real);
}

proof fn lemma_mirror(a: (real, real, real), b: (real, real, real))
    ensures
        inner(a, b) == inner(b, a),
{
    lemma_swap(a.0, b.0);
    lemma_swap(a.1, b.1);
    lemma_swap(a.2, b.2);
}

/// Points near each other stay so when they are turned.
pub proof fn lemma_turned_apart(m: Mat3A, p: (real, real, real), q: (real, real, real), e: real)
    requires
        rigid(m),
        sized(taken(p, q), e),
    ensures
        sized(taken(turned(m, p), turned(m, q)), 6real * e),
{
    let (x, y, z) = (point(m.x_axis), point(m.y_axis), point(m.z_axis));
    lemma_turned_apart_in(x.0, y.0, z.0, p, q, e);
    lemma_turned_apart_in(x.1, y.1, z.1, p, q, e);
    lemma_turned_apart_in(x.2, y.2, z.2, p, q, e);
}

proof fn lemma_turned_apart_in(x: real, y: real, z: real, p: (real, real, real), q: (real, real, real), e: real)
    requires
        -2real <= x <= 2real,
        -2real <= y <= 2real,
        -2real <= z <= 2real,
        sized(taken(p, q), e),
    ensures
        -(6real * e) <= (x * p.0 + y * p.1 + z * p.2) - (x * q.0 + y * q.1 + z * q.2) <= 6real * e,
{
    lemma_bounded(x, p.0 - q.0, 2real, e);
    lemma_bounded(y, p.1 - q.1, 2real, e);
    lemma_bounded(z, p.2 - q.2, 2real, e);
    lemma_spread(x, p.0, q.0);
    lemma_spread(y, p.1, q.1);
    lemma_spread(z, p.2, q.2);
}

/// Turning goes along with adding and stretching.
pub proof fn lemma_turned_sum(m: Mat3A, q: (real, real, real), n: (real, real, real), d: real)
    ensures
        added(turned(m, q), stretched(turned(m, n), d)) == turned(m, added(q, stretched(n, d))),
{
    let (x, y, z) = (point(m.x_axis), point(m.y_axis), point(m.z_axis));
    lemma_turned_sum_in(x.0, y.0, z.0, q, n, d);
    lemma_turned_sum_in(x.1, y.1, z.1, q, n, d);
    lemma_turned_sum_in(x.2, y.2, z.2, q, n, d);
}

proof fn lemma_turned_sum_in(x: real, y: real, z: real, q: (real, real, real), n: (real, real, real), d: real)
    ensures
        (x * q.0 + y * q.1 + z * q.2) + (x * n.0 + y * n.1 + z * n.2) * d == x * (q.0 + n.0 * d) + y * (q.1 + n.1 * d) + z * (
        q.2 + n.2 * d),
{
    lemma_spread(x, q.0, n.0 * d);
    lemma_spread(y, q.1, n.1 * d);
    lemma_spread(z, q.2, n.2 * d);
    lemma_cycle(x, n.0, d);
    lemma_cycle(y, n.1, d);
    lemma_cycle(z, n.2, d);
    lemma_swap(x * n.0 + y * n.1 + z * n.2, d);
    lemma_column(d, x * n.0, y * n.1, z * n.2);
    lemma_swap(d, x * n.0);
    lemma_swap(d, y * n.1);
    lemma_swap(d, z * n.2);
}

/// From the closest point, as far as the distance along the normal, one comes to `p`.
pub open spec fn leads(f: Face, p: (real, real, real)) -> bool {
    &&& f.dist.finite() && f.closest.finite() && f.normal.finite()
    &&& -200real <= real_value(f.dist) <= 200real
    &&& sized(point(f.closest), 100real)
    &&& sized(point(f.normal), 2real)
    &&& sized(taken(added(point(f.closest), stretched(point(f.normal), real_value(f.dist))), p), 1real / 50000real)
}

/// The same of a face of a box, from inside: its distance counts the other way.
pub open spec fn leads_out(f: Face, p: (real, real, real)) -> bool {
    leads(Face { dist: f.dist.times(Single { bits: MINUS_ONE }), ..f }, p)
}

pub proof fn lemma_ones()
    ensures
        (Single { bits: MINUS_ONE }).finite(),
        real_value(Single { bits: MINUS_ONE }) == -1real,
        real_value(Single { bits: ONE_BITS }) == 1real,
        real_value(Single { bits: 0 }) == 0real,
{
    lemma_two();
    let one = Single { bits: ONE_BITS };
    lemma_opposite(one, 1real, 0real);
    lemma_value(one);
    lemma_value(one.negate());
    lemma_value(Single { bits: MINUS_ONE });
    assert(one.negate().magnitude() == (Single { bits: MINUS_ONE }).magnitude());
    lemma_value(Single { bits: 0 });
}

/// The coordinate across a face: from the end of the box at `sign` times the extent, the distance back leads to the
/// point.
proof fn lemma_across(extent: Single, x: Single, far: bool)
    requires
        extent.finite(),
        0real <= real_value(extent) <= 16real,
        x.finite(),
        -100real <= real_value(x) <= 100real,
    ensures
        ({
            let sign = Single { bits: if far { ONE_BITS } else { MINUS_ONE } };
            let dist = if far { extent.minus(x) } else { extent.plus(x) };
            let (end, back) = (extent.times(sign), dist.times(Single { bits: MINUS_ONE }));
            let (e, b, s) = (real_value(end), real_value(back), real_value(sign));
            &&& end.finite() && back.finite() && sign.finite()
            &&& -17real <= e <= 17real
            &&& -200real <= b <= 200real
            &&& s == 1real || s == -1real
            &&& -1real <= 50000real * (e + s * b - real_value(x)) <= 1real
            &&& far ==> -1real <= 50000real * (real_value(extent) + s * b - real_value(x)) <= 1real
        }),
{
    lemma_ones();
    let sign = Single { bits: if far { ONE_BITS } else { MINUS_ONE } };
    let (s, h, y) = (real_value(sign), real_value(extent), real_value(x));
    let minus = Single { bits: MINUS_ONE };
    assert(slack(16real, 0real, 1real, 0real) <= 2real / 1000000real && (16real + 0real) * (1real + 0real) == 16real)
        by (nonlinear_arith);
    lemma_times(extent, h, 0real, sign, s, 0real, 16real, 1real, 2real / 1000000real);
    let dist = if far {
        extent.minus(x)
    } else {
        extent.plus(x)
    };
    let d = if far {
        h - y
    } else {
        h + y
    };
    if far {
        lemma_minus(extent, h, 0real, x, y, 0real, 116real);
    } else {
        lemma_plus(extent, h, 0real, x, y, 0real, 116real);
    }
    let e = 116real / 16000000real;
    assert(slack(116real, e, 1real, 0real) <= 15real / 1000000real && (116real + e) * (1real + 0real) <= 117real && (116real + e)
        * (1real + 0real) >= 116real) by (nonlinear_arith)
        requires
            e == 116real / 16000000real,
    ;
    lemma_times(dist, d, e, minus, -1real, 0real, 116real, 1real, 15real / 1000000real);
    let b = real_value(dist.times(minus));
    assert(h * s == if far {
        h
    } else {
        -h
    });
    assert(d * -1real == -d);
    assert(s * b == if far {
        b
    } else {
        -b
    });
}

/// Every face of a box leads to a point inside.
proof fn lemma_face_leads(extents: Vec3A, v: Vec3A, axis: int, far: bool)
    requires
        extents.finite(),
        sized(point(extents), 16real),
        0real <= real_value(extents.x) && 0real <= real_value(extents.y) && 0real <= real_value(extents.z),
        v.finite(),
        sized(point(v), 100real),
        0 <= axis <= 2,
    ensures
        leads_out(face(extents, v, axis, far), point(v)),
        leads_out(first_face(extents, v), point(v)),
{
    lemma_ones();
    lemma_across(extents.x, v.x, far);
    lemma_across(extents.x, v.x, true);
    lemma_across(extents.y, v.y, far);
    lemma_across(extents.z, v.z, far);
    let f = face(extents, v, axis, far);
    let b = real_value(f.dist.times(Single { bits: MINUS_ONE }));
    let c = real_value(first_face(extents, v).dist.times(Single { bits: MINUS_ONE }));
    assert(0real * b == 0real && 0real * c == 0real) by {
        lemma_swap(0real, b);
        lemma_spread(b, 0real, 0real);
        lemma_swap(0real, c);
        lemma_spread(c, 0real, 0real);
    }
}

/// The closest face of a box leads to a point inside.
pub proof fn lemma_closest_face_leads(extents: Vec3A, v: Vec3A)
    requires
        extents.finite(),
        sized(point(extents), 16real),
        0real <= real_value(extents.x) && 0real <= real_value(extents.y) && 0real <= real_value(extents.z),
        v.finite(),
        sized(point(v), 100real),
    ensures
        leads_out(closest_face(extents, v), point(v)),
{
    lemma_face_leads(extents, v, 0, false);
    lemma_face_leads(extents, v, 1, true);
    lemma_face_leads(extents, v, 1, false);
    lemma_face_leads(extents, v, 2, true);
    lemma_face_leads(extents, v, 2, false);
}

/// A coordinate, and the closest one in a box.
pub proof fn lemma_lane(x: Single, extent: Single)
    requires
        extent.finite(),
        0real <= real_value(extent) <= 16real,
        x.finite(),
        -100real <= real_value(x) <= 100real,
    ensures
        ({
            let y = lane_within(x, extent.negate(), extent);
            &&& y.finite()
            &&& -16real <= real_value(y) <= 16real
            &&& -100real <= real_value(x) - real_value(y) <= 100real
        }),
{
    let h = real_value(extent);
    lemma_opposite(extent, h, 0real);
    lemma_order(extent.negate(), x);
    lemma_order(x, extent);
    lemma_order(extent.negate(), extent);
}

/// One component of the way out of a box, over its length and times it.
pub proof fn lemma_way_out(d: Single, dist: Single, w: real)
    requires
        d.finite(),
        within(d, w, 7real / 1000000real),
        -100real <= w <= 100real,
        dist.finite(),
        0real < real_value(dist) <= 200real,
        1real <= 100000real * real_value(dist),
        -(101real * real_value(dist)) <= 100real * real_value(d) <= 101real * real_value(dist),
    ensures
        d.over(dist).finite(),
        -2real <= real_value(d.over(dist)) <= 2real,
        -1real <= 60000real * (real_value(d.over(dist)) * real_value(dist) - w) <= 1real,
{
    lemma_speck();
    let (x, r) = (real_value(d), real_value(dist));
    lemma_quotient_close(d, dist);
    let (q, n) = (x / r, real_value(d.over(dist)));
    assert(q * r == x) by (nonlinear_arith)
        requires
            q == x / r,
            r > 0real,
    ;
    assert(-101real <= 100real * q <= 101real) by {
        lemma_swap(q, r);
        assert(r * (101real / 100real) == 101real * r / 100real) by (nonlinear_arith);
        assert(r * (-101real / 100real) == -(101real * r / 100real)) by (nonlinear_arith);
        if 100real * q > 101real {
            lemma_greater(r, 101real / 100real, q);
        }
        if 100real * q < -101real {
            lemma_greater(r, q, -101real / 100real);
        }
    }
    let g = size(q) / 16777216real;
    let e = g + speck();
    lemma_bounded(n - q, r, e, r);
    lemma_swap(n - q, r);
    lemma_spread(r, n, q);
    lemma_swap(r, n);
    lemma_swap(r, q);
    lemma_swap(e, r);
    lemma_spread(r, g, speck());
    assert(r * (size(q) / 16777216real) == (r * size(q)) / 16777216real) by (nonlinear_arith);
    lemma_sized(r, q);
    lemma_bounded(r, speck(), 200real, speck());
}

/// A component is hardly longer than the whole.
pub proof fn lemma_part_of(a: real, x: real, r: real)
    requires
        a * a <= x,
        1000000real * x <= 1000000real * (r * r) + x,
        0real < r,
    ensures
        -(101real * r) <= 100real * a <= 101real * r,
{
    let m = 101real * r / 100real;
    assert(m * m == 10201real * (r * r) / 10000real) by (nonlinear_arith)
        requires
            m == 101real * r / 100real,
    ;
    lemma_square_of_sum(r, 0real);
    assert(r * r > 0real) by {
        lemma_greater(r, 0real, r);
        lemma_spread(r, r, r);
    }
    if a > m {
        lemma_scaled(a, m, a);
        lemma_scaled(m, m, a);
        lemma_swap(m, a);
    }
    if a < -m {
        lemma_scaled(-a, m, -a);
        lemma_scaled(m, m, -a);
        lemma_swap(m, -a);
        lemma_spread(-a, a, a);
        lemma_swap(-a, a);
        lemma_spread(a, a, a);
    }
}

/// How far a distance can be.
proof fn lemma_far(x: real, r: real)
    requires
        0real < r,
        -x <= 1000000real * (r * r - x) <= x,
        1real <= 100000000real * x,
        x <= 31000real,
    ensures
        r <= 200real,
        1real <= 100000real * r,
{
    if r > 200real {
        lemma_scaled(r, 200real, r);
        lemma_swap(r, 200real);
    }
    if 100000real * r < 1real {
        lemma_scaled(r, r, 1real / 100000real);
        assert(r * (1real / 100000real) == r / 100000real) by (nonlinear_arith);
    }
}

/// The way out of a box from a point outside leads to it.
pub proof fn lemma_outside_leads(local: Vec3A, extents: Vec3A)
    requires
        extents.finite(),
        sized(point(extents), 16real),
        0real <= real_value(extents.x) && 0real <= real_value(extents.y) && 0real <= real_value(extents.z),
        local.finite(),
        sized(point(local), 100real),
        ({
            let delta = local.minus(local.clamp(extents.negate(), extents));
            (Single { bits: EPSILON }).less(delta.length_squared())
        }),
    ensures
        ({
            let closest = local.clamp(extents.negate(), extents);
            let delta = local.minus(closest);
            let dist = delta.length_squared().sqrt();
            &&& leads(Face { dist, closest, normal: delta.over(dist) }, point(local))
            &&& real_value(dist) > 0real
        }),
{
    let closest = local.clamp(extents.negate(), extents);
    let delta = local.minus(closest);
    lemma_lane(local.x, extents.x);
    lemma_lane(local.y, extents.y);
    lemma_lane(local.z, extents.z);
    let (p, q) = (point(local), point(closest));
    lemma_vector_minus(local, p, 0real, closest, q, 0real, 100real);
    let d = point(delta);
    lemma_bounded(d.0, d.0, 101real, 101real);
    lemma_bounded(d.1, d.1, 101real, 101real);
    lemma_bounded(d.2, d.2, 101real, 101real);
    assert(101real * 101real == 10201real) by (nonlinear_arith);
    lemma_dot_close(delta, delta, 10201real);
    lemma_length_squared(delta);
    let x = inner(d, d);
    lemma2_to64();
    lemma_pow2_adds(32, 14);
    lemma_constant(EPSILON, 0x80_0000, 46, 0x4000_0000_0000);
    lemma_order(Single { bits: EPSILON }, delta.length_squared());
    lemma_length(delta);
    let dist = delta.length();
    let r = real_value(dist);
    lemma_far(x, r);
    lemma_part_of(d.0, x, r);
    lemma_part_of(d.1, x, r);
    lemma_part_of(d.2, x, r);
    lemma_way_out(delta.x, dist, p.0 - q.0);
    lemma_way_out(delta.y, dist, p.1 - q.1);
    lemma_way_out(delta.z, dist, p.2 - q.2);
}

/// One coordinate of the point of a contact, and of the way from there to the centre.
proof fn lemma_contact_coordinate(
    at: real,
    q: real,
    t: real,
    n: real,
    turn: real,
    margin: real,
    dist: real,
    back: real,
)
    requires
        -1real <= 2500real * (at - (q + t + turn * margin)) <= 1real,
        -4real <= 1000000real * (n - turn) <= 4real,
        -12real <= turn <= 12real,
        -2real <= 100000real * (back - (dist - margin)) <= 2real,
        -240real <= dist - margin <= 240real,
    ensures
        -3real <= 1800real * (at + n * back - (q + t + turn * dist)) <= 3real,
{
    lemma_bounded(n - turn, back, 4real / 1000000real, 241real);
    assert(4real / 1000000real * 241real == 964real / 1000000real) by (nonlinear_arith);
    lemma_swap(n - turn, back);
    lemma_spread(back, n, turn);
    lemma_swap(back, n);
    lemma_swap(back, turn);
    lemma_bounded(turn, back - (dist - margin), 12real, 2real / 100000real);
    assert(12real * (2real / 100000real) == 24real / 100000real) by (nonlinear_arith);
    lemma_spread(turn, back, dist - margin);
    lemma_spread(turn, dist, margin);
}

/// The contact that a way out of a box makes: from its point, the radius and the depth along the normal lead to the
/// centre.
pub proof fn lemma_contact_from(f: Face, trans: Affine3A, center: Vec3A, radius: Single, margin: Single, p: (real, real, real))
    requires
        leads(f, p),
        rigid(trans.matrix3),
        trans.translation.finite(),
        sized(point(trans.translation), 256real),
        sized(taken(point(center), point(trans.translation)), 16real),
        ({
            let w = taken(point(center), point(trans.translation));
            let m = trans.matrix3;
            sized(
                taken(p, (inner(point(m.x_axis), w), inner(point(m.y_axis), w), inner(point(m.z_axis), w))),
                4real / 100000real,
            )
        }),
        radius.finite(),
        0real <= real_value(radius) <= 16real,
        margin.finite(),
        0real <= real_value(margin) <= 16real,
    ensures
        ({
            let normal = trans.transform_vector3a(f.normal);
            let at = trans.transform_point3a(f.closest).plus(normal.scale(margin));
            let depth = f.dist.minus(radius.plus(margin));
            let back = real_value(radius) + real_value(depth);
            &&& normal.finite() && at.finite() && depth.finite()
            &&& sized(taken(added(point(at), stretched(point(normal), back)), point(center)), 1real / 350real)
            &&& near(normal, turned(trans.matrix3, point(f.normal)), 4real / 1000000real)
            &&& within(depth, real_value(f.dist) - real_value(radius) - real_value(margin), 2real / 100000real)
        }),
{
    let m = trans.matrix3;
    let (q, n, t, c) = (point(f.closest), point(f.normal), point(trans.translation), point(center));
    let w = taken(c, t);
    let (r, g, d) = (real_value(radius), real_value(margin), real_value(f.dist));
    assert(slack(2real, 0real, 2real, 0real) <= 1real / 2000000real && (2real + 0real) * (2real + 0real) == 4real)
        by (nonlinear_arith);
    lemma_turn(m, f.normal, 2real, 1real / 2000000real);
    let (normal, tn) = (trans.transform_vector3a(f.normal), turned(m, n));
    assert(slack(2real, 0real, 100real, 0real) <= 2real / 100000real && (2real + 0real) * (100real + 0real) == 200real)
        by (nonlinear_arith);
    lemma_turn(m, f.closest, 100real, 2real / 100000real);
    let tq = turned(m, q);
    lemma_vector_plus(m.mul_vec3a(f.closest), tq, 16real / 100000real, trans.translation, t, 0real, 856real);
    let en = 4real / 1000000real;
    assert(slack(12real, en, 16real, 0real) <= 8real / 100000real && (12real + en) * (16real + 0real) <= 193real && (12real + en)
        * (16real + 0real) >= 192real) by (nonlinear_arith)
        requires
            en == 4real / 1000000real,
    ;
    lemma_vector_scale(normal, tn, en, margin, g, 0real, 12real, 16real, 8real / 100000real);
    lemma_bounded(tn.0, g, 12real, 16real);
    lemma_bounded(tn.1, g, 12real, 16real);
    lemma_bounded(tn.2, g, 12real, 16real);
    assert(12real * 16real == 192real) by (nonlinear_arith);
    lemma_vector_plus(
        trans.transform_point3a(f.closest),
        added(tq, t),
        22real / 100000real,
        normal.scale(margin),
        stretched(tn, g),
        8real / 100000real,
        1048real,
    );
    let at = trans.transform_point3a(f.closest).plus(normal.scale(margin));
    lemma_plus(radius, r, 0real, margin, g, 0real, 32real);
    lemma_minus(f.dist, d, 0real, radius.plus(margin), r + g, 32real / 16000000real, 232real);
    let depth = f.dist.minus(radius.plus(margin));
    let back = r + real_value(depth);
    let (x, y) = (point(at), point(normal));
    lemma_contact_coordinate(x.0, tq.0, t.0, y.0, tn.0, g, d, back);
    lemma_contact_coordinate(x.1, tq.1, t.1, y.1, tn.1, g, d, back);
    lemma_contact_coordinate(x.2, tq.2, t.2, y.2, tn.2, g, d, back);
    lemma_turned_sum(m, q, n, d);
    let end = added(q, stretched(n, d));
    lemma_turned_apart(m, end, p, 1real / 50000real);
    lemma_turns_back(m, w, p, 4real / 100000real);
}

/// The centre of the sphere as the box sees it.
pub proof fn lemma_seen_from_box(center: Vec3A, trans: Affine3A)
    requires
        rigid(trans.matrix3),
        trans.translation.finite(),
        center.finite(),
        sized(taken(point(center), point(trans.translation)), 16real),
    ensures
        ({
            let w = taken(point(center), point(trans.translation));
            let m = trans.matrix3;
            let local = trans.inv_x_form(center);
            let seen = (inner(point(m.x_axis), w), inner(point(m.y_axis), w), inner(point(m.z_axis), w));
            &&& local.finite()
            &&& sized(point(local), 100real)
            &&& sized(taken(point(local), seen), 4real / 100000real)
        }),
{
    let m = trans.matrix3;
    let (c, t) = (point(center), point(trans.translation));
    let w = taken(c, t);
    lemma_vector_minus(center, c, 0real, trans.translation, t, 0real, 16real);
    let v = center.minus(trans.translation);
    let e = 16real / 16000000real;
    assert(slack(2real, 0real, 16real, e) <= 5real / 1000000real && (2real + 0real) * (16real + e) <= 33real && (2real + 0real)
        * (16real + e) >= 32real && 2real * 16real == 32real) by (nonlinear_arith)
        requires
            e == 16real / 16000000real,
    ;
    lemma_inner(m.x_axis, point(m.x_axis), 0real, v, w, e, 2real, 16real, 32real, 5real / 1000000real);
    lemma_inner(m.y_axis, point(m.y_axis), 0real, v, w, e, 2real, 16real, 32real, 5real / 1000000real);
    lemma_inner(m.z_axis, point(m.z_axis), 0real, v, w, e, 2real, 16real, 32real, 5real / 1000000real);
}

/// A contact lies between the box and the centre of the sphere: from its point in the world, as far as the radius and the
/// depth along its normal in the world, one comes to the centre. So the normal points from the box to the centre of a sphere
/// outside, and from the centre out of the box where it is inside, however the box is turned.
pub proof fn law_normals_lead_to_the_centre(
    center: Vec3A,
    radius: Single,
    box_trans: Affine3A,
    extents: Vec3A,
    margin: Single,
    threshold: Single,
)
    requires
        rigid(box_trans.matrix3),
        box_trans.translation.finite(),
        sized(point(box_trans.translation), 256real),
        center.finite(),
        sized(taken(point(center), point(box_trans.translation)), 16real),
        extents.finite(),
        sized(point(extents), 16real),
        0real <= real_value(extents.x) && 0real <= real_value(extents.y) && 0real <= real_value(extents.z),
        radius.finite(),
        0real <= real_value(radius) <= 16real,
        margin.finite(),
        0real <= real_value(margin) <= 16real,
    ensures
        match box_contact(center, radius, box_trans, extents, margin, threshold) {
            Some(contact) => {
                let back = real_value(radius) + real_value(contact.depth);
                &&& contact.normal.finite() && contact.point.finite() && contact.depth.finite()
                &&& sized(
                    taken(added(point(contact.point), stretched(point(contact.normal), back)), point(center)),
                    1real / 350real,
                )
            },
            None => true,
        },
{
    lemma_seen_from_box(center, box_trans);
    let local = box_trans.inv_x_form(center);
    let closest = local.clamp(extents.negate(), extents);
    let delta = local.minus(closest);
    let dist_sq = delta.length_squared();
    let p = point(local);
    if (Single { bits: EPSILON }).less(dist_sq) {
        lemma_outside_leads(local, extents);
        let dist = dist_sq.sqrt();
        lemma_contact_from(Face { dist, closest, normal: delta.over(dist) }, box_trans, center, radius, margin, p);
    } else {
        lemma_closest_face_leads(extents, local);
        let f = closest_face(extents, local);
        lemma_contact_from(
            Face { dist: f.dist.times(Single { bits: MINUS_ONE }), ..f },
            box_trans,
            center,
            radius,
            margin,
            p,
        );
    }
}

} // verus!
