//! Computing with numbers that are known up to an error: how far off the results can be.
use crate::math::Vec3A;
use crate::math_errors::{
    lemma_dot_close, lemma_has_unit, lemma_length_squared, lemma_product_within, lemma_sum_within, lemma_unit_components, lemma_unit_length, lemma_unit_scale, real_dot,
};
use crate::reals::{
    lemma_bounded, lemma_expand, lemma_greater, lemma_regroup, lemma_scaled, lemma_spread, lemma_square_of_sum, lemma_sum_times,
    lemma_swap,
};
use crate::single::Single;
use crate::single_errors::{huge, lemma_root_close, lemma_rounded_close, lemma_speck, lemma_units, real_value, size, units};
use crate::single_laws::lemma_value;
use vstd::arithmetic::power2::pow2;
use vstd::prelude::*;

verus! {

/// `a` is a finite number, off `x` by at most `e`.
pub open spec fn within(a: Single, x: real, e: real) -> bool {
    a.finite() && -e <= real_value(a) - x <= e
}

/// The components of `v` are off those of `p` by at most `e`.
pub open spec fn near(v: Vec3A, p: (real, real, real), e: real) -> bool {
    within(v.x, p.0, e) && within(v.y, p.1, e) && within(v.z, p.2, e)
}

/// The point that a vector stands for.
pub open spec fn point(v: Vec3A) -> (real, real, real) {
    (real_value(v.x), real_value(v.y), real_value(v.z))
}

/// No coordinate is larger than `m`.
pub open spec fn sized(p: (real, real, real), m: real) -> bool {
    -m <= p.0 <= m && -m <= p.1 <= m && -m <= p.2 <= m
}

pub open spec fn added(p: (real, real, real), q: (real, real, real)) -> (real, real, real) {
    (p.0 + q.0, p.1 + q.1, p.2 + q.2)
}

pub open spec fn taken(p: (real, real, real), q: (real, real, real)) -> (real, real, real) {
    (p.0 - q.0, p.1 - q.1, p.2 - q.2)
}

pub open spec fn stretched(p: (real, real, real), k: real) -> (real, real, real) {
    (p.0 * k, p.1 * k, p.2 * k)
}

/// The scalar product.
pub open spec fn inner(p: (real, real, real), q: (real, real, real)) -> real {
    p.0 * q.0 + p.1 * q.1 + p.2 * q.2
}

/// The vector product.
pub open spec fn outer(p: (real, real, real), q: (real, real, real)) -> (real, real, real) {
    (p.1 * q.2 - q.1 * p.2, p.2 * q.0 - q.2 * p.0, p.0 * q.1 - q.0 * p.1)
}

/// The opposite of a number is off by as much.
pub proof fn lemma_opposite(a: Single, x: real, e: real)
    requires
        within(a, x, e),
    ensures
        within(a.negate(), -x, e),
{
    lemma_value(a);
    lemma_value(a.negate());
    assert(a.negate().value() == -a.value());
}

pub proof fn lemma_plus(a: Single, x: real, ea: real, b: Single, y: real, eb: real, m: real)
    requires
        within(a, x, ea),
        within(b, y, eb),
        -m <= x + y <= m,
        1real <= 100000000000000000000real * m,
        m + ea + eb <= 1000000000000000000000000000real,
    ensures
        within(a.plus(b), x + y, ea + eb + (m + ea + eb) / 16000000real),
{
    lemma_speck();
    lemma_sum_within(a, b, m + ea + eb);
}

pub proof fn lemma_minus(a: Single, x: real, ea: real, b: Single, y: real, eb: real, m: real)
    requires
        within(a, x, ea),
        within(b, y, eb),
        -m <= x - y <= m,
        1real <= 100000000000000000000real * m,
        m + ea + eb <= 1000000000000000000000000000real,
    ensures
        within(a.minus(b), x - y, ea + eb + (m + ea + eb) / 16000000real),
{
    lemma_opposite(b, y, eb);
    lemma_plus(a, x, ea, b.negate(), -y, eb, m);
}

/// How far off the product of two numbers can be that are at most `mx` and `my`, and off by `ea` and
/// `eb`.
pub open spec fn slack(mx: real, ea: real, my: real, eb: real) -> real {
    mx * eb + my * ea + ea * eb + ((mx + ea) * (my + eb)) / 16000000real
}

pub proof fn lemma_times(a: Single, x: real, ea: real, b: Single, y: real, eb: real, mx: real, my: real, k: real)
    requires
        within(a, x, ea),
        within(b, y, eb),
        -mx <= x <= mx,
        -my <= y <= my,
        1real <= 100000000000000000000real * ((mx + ea) * (my + eb)),
        (mx + ea) * (my + eb) <= 1000000000000000000000000000real,
        slack(mx, ea, my, eb) <= k,
    ensures
        within(a.times(b), x * y, k),
{
    lemma_speck();
    let (p, q) = (real_value(a), real_value(b));
    let (s, t) = (p - x, q - y);
    lemma_bounded(p, q, mx + ea, my + eb);
    lemma_product_within(a, b, (mx + ea) * (my + eb));
    lemma_expand(x, s, y, t);
    lemma_bounded(x, t, mx, eb);
    lemma_bounded(s, y, ea, my);
    lemma_swap(ea, my);
    lemma_bounded(s, t, ea, eb);
}

pub proof fn lemma_vector_plus(
    v: Vec3A,
    p: (real, real, real),
    ep: real,
    w: Vec3A,
    q: (real, real, real),
    eq: real,
    m: real,
)
    requires
        near(v, p, ep),
        near(w, q, eq),
        sized(added(p, q), m),
        1real <= 100000000000000000000real * m,
        m + ep + eq <= 1000000000000000000000000000real,
    ensures
        near(v.plus(w), added(p, q), ep + eq + (m + ep + eq) / 16000000real),
{
    lemma_plus(v.x, p.0, ep, w.x, q.0, eq, m);
    lemma_plus(v.y, p.1, ep, w.y, q.1, eq, m);
    lemma_plus(v.z, p.2, ep, w.z, q.2, eq, m);
}

pub proof fn lemma_vector_minus(
    v: Vec3A,
    p: (real, real, real),
    ep: real,
    w: Vec3A,
    q: (real, real, real),
    eq: real,
    m: real,
)
    requires
        near(v, p, ep),
        near(w, q, eq),
        sized(taken(p, q), m),
        1real <= 100000000000000000000real * m,
        m + ep + eq <= 1000000000000000000000000000real,
    ensures
        near(v.minus(w), taken(p, q), ep + eq + (m + ep + eq) / 16000000real),
{
    lemma_minus(v.x, p.0, ep, w.x, q.0, eq, m);
    lemma_minus(v.y, p.1, ep, w.y, q.1, eq, m);
    lemma_minus(v.z, p.2, ep, w.z, q.2, eq, m);
}

pub proof fn lemma_vector_scale(
    v: Vec3A,
    p: (real, real, real),
    ep: real,
    a: Single,
    y: real,
    ea: real,
    mp: real,
    my: real,
    k: real,
)
    requires
        near(v, p, ep),
        within(a, y, ea),
        sized(p, mp),
        -my <= y <= my,
        1real <= 100000000000000000000real * ((mp + ep) * (my + ea)),
        (mp + ep) * (my + ea) <= 1000000000000000000000000000real,
        slack(mp, ep, my, ea) <= k,
    ensures
        near(v.scale(a), stretched(p, y), k),
{
    lemma_times(v.x, p.0, ep, a, y, ea, mp, my, k);
    lemma_times(v.y, p.1, ep, a, y, ea, mp, my, k);
    lemma_times(v.z, p.2, ep, a, y, ea, mp, my, k);
}

/// The scalar product of two vectors; `m` bounds the products of their components, and `k` the errors
/// of these.
pub proof fn lemma_inner(
    v: Vec3A,
    p: (real, real, real),
    ep: real,
    w: Vec3A,
    q: (real, real, real),
    eq: real,
    mp: real,
    mq: real,
    m: real,
    k: real,
)
    requires
        near(v, p, ep),
        near(w, q, eq),
        sized(p, mp),
        sized(q, mq),
        1real <= 100000000000000000000real * ((mp + ep) * (mq + eq)),
        (mp + ep) * (mq + eq) <= 1000000000000000000000000000real,
        slack(mp, ep, mq, eq) <= k,
        mp * mq <= m,
        1real <= 100000000000000000000real * m,
        m <= 10000000000000000000000000real,
        0real <= k <= m,
    ensures
        within(v.dot(w), inner(p, q), 3real * k + 11real * m / 16000000real),
        -(3real * m) <= inner(p, q) <= 3real * m,
{
    lemma_times(v.x, p.0, ep, w.x, q.0, eq, mp, mq, k);
    lemma_times(v.y, p.1, ep, w.y, q.1, eq, mp, mq, k);
    lemma_times(v.z, p.2, ep, w.z, q.2, eq, mp, mq, k);
    lemma_bounded(p.0, q.0, mp, mq);
    lemma_bounded(p.1, q.1, mp, mq);
    lemma_bounded(p.2, q.2, mp, mq);
    let (a, b, c) = (v.x.times(w.x), v.y.times(w.y), v.z.times(w.z));
    lemma_plus(a, p.0 * q.0, k, b, p.1 * q.1, k, 2real * m);
    let e = k + k + (2real * m + k + k) / 16000000real;
    lemma_plus(a.plus(b), p.0 * q.0 + p.1 * q.1, e, c, p.2 * q.2, k, 3real * m);
}

/// The vector product of two vectors; `m` bounds the products of their components, and `k` the errors
/// of these.
pub proof fn lemma_outer(
    v: Vec3A,
    p: (real, real, real),
    ep: real,
    w: Vec3A,
    q: (real, real, real),
    eq: real,
    mp: real,
    mq: real,
    m: real,
    k: real,
)
    requires
        near(v, p, ep),
        near(w, q, eq),
        sized(p, mp),
        sized(q, mq),
        1real <= 100000000000000000000real * ((mp + ep) * (mq + eq)),
        (mp + ep) * (mq + eq) <= 1000000000000000000000000000real,
        slack(mp, ep, mq, eq) <= k,
        mp * mq <= m,
        1real <= 100000000000000000000real * m,
        m <= 10000000000000000000000000real,
        0real <= k <= m,
    ensures
        near(v.cross(w), outer(p, q), 2real * k + 4real * m / 16000000real),
        sized(outer(p, q), 2real * m),
{
    lemma_cross_component(v.y, p.1, ep, w.z, q.2, eq, w.y, q.1, v.z, p.2, mp, mq, m, k);
    lemma_cross_component(v.z, p.2, ep, w.x, q.0, eq, w.z, q.2, v.x, p.0, mp, mq, m, k);
    lemma_cross_component(v.x, p.0, ep, w.y, q.1, eq, w.x, q.0, v.y, p.1, mp, mq, m, k);
}

/// `a * b - c * d`, with `a` and `d` from one vector and `b` and `c` from the other.
proof fn lemma_cross_component(
    a: Single,
    x: real,
    ep: real,
    b: Single,
    y: real,
    eq: real,
    c: Single,
    z: real,
    d: Single,
    t: real,
    mp: real,
    mq: real,
    m: real,
    k: real,
)
    requires
        within(a, x, ep),
        within(b, y, eq),
        within(c, z, eq),
        within(d, t, ep),
        -mp <= x <= mp,
        -mq <= y <= mq,
        -mq <= z <= mq,
        -mp <= t <= mp,
        1real <= 100000000000000000000real * ((mp + ep) * (mq + eq)),
        (mp + ep) * (mq + eq) <= 1000000000000000000000000000real,
        slack(mp, ep, mq, eq) <= k,
        mp * mq <= m,
        1real <= 100000000000000000000real * m,
        m <= 10000000000000000000000000real,
        0real <= k <= m,
    ensures
        within(a.times(b).minus(c.times(d)), x * y - z * t, 2real * k + 4real * m / 16000000real),
        -(2real * m) <= x * y - z * t <= 2real * m,
{
    lemma_times(a, x, ep, b, y, eq, mp, mq, k);
    lemma_swap(mp + ep, mq + eq);
    lemma_swap(ep, eq);
    lemma_times(c, z, eq, d, t, ep, mq, mp, k);
    lemma_bounded(x, y, mp, mq);
    lemma_bounded(z, t, mq, mp);
    lemma_swap(mp, mq);
    lemma_minus(a.times(b), x * y, k, c.times(d), z * t, k, 2real * m);
}

/// Bringing a vector that is near `p` to unit length: the result is near `p`, brought to unit length. The
/// vector is no shorter than `l`, and off by at most `e` times that.
pub proof fn lemma_unit(v: Vec3A, p: (real, real, real), e: real, l: real) -> (c: real)
    requires
        near(v, p, e * l),
        0real < l,
        1real <= 1000000000000000real * (l * l),
        l * l <= real_dot(v, v),
        real_dot(v, v) <= 1000000000000000real,
        0real <= e,
        100real * e <= 1real,
    ensures
        0real < c,
        1000real * (c * l) <= 1001real,
        near(v.normalize_or_zero(), stretched(p, c), 101real * e / 100real + 1real / 5000000real),
        -(19real * e + 1real / 1000000real) <= inner(stretched(p, c), stretched(p, c)) - 1real <= 19real * e + 1real
            / 1000000real,
{
    lemma_speck();
    lemma_has_unit(v);
    lemma_unit_length(v);
    lemma_unit_scale(v);
    lemma_unit_components(v);
    let c = real_value(v.length_recip());
    let q = real_dot(v, v);
    let cl = c * l;
    assert(c * c * q <= 16777232real / 16777216real);
    assert(cl * cl <= c * c * q) by {
        lemma_regroup(c, l, c, l);
        lemma_square_of_sum(c, 0real);
        lemma_scaled(c * c, l * l, q);
    }
    assert(1000real * cl <= 1001real) by {
        if 1000real * cl > 1001real {
            lemma_scaled(cl, 1001real / 1000real, cl);
            lemma_swap(cl, 1001real / 1000real);
        }
    }
    assert(cl > 0real) by {
        lemma_greater(c, 0real, l);
        lemma_spread(c, l, l);
    }
    let (x, y, z) = point(v);
    lemma_unit_part(x, p.0, c, l, e);
    lemma_unit_part(y, p.1, c, l, e);
    lemma_unit_part(z, p.2, c, l, e);
    lemma_sum_times(x * x, y * y, z * z, c * c);
    lemma_swap(c * c, x * x + y * y + z * z);
    lemma_regroup(x, c, x, c);
    lemma_regroup(y, c, y, c);
    lemma_regroup(z, c, z, c);
    c
}

proof fn lemma_unit_part(x: real, p: real, c: real, l: real, e: real)
    requires
        -(e * l) <= x - p <= e * l,
        0real < c,
        0real < c * l,
        1000real * (c * l) <= 1001real,
        0real <= e,
        100real * e <= 1real,
        10real * size(x * c) <= 29real,
    ensures
        -(1001real * e) <= 1000real * (x * c - p * c) <= 1001real * e,
        -(6real * e) <= (x * c) * (x * c) - (p * c) * (p * c) <= 6real * e,
{
    let (s, t) = (x * c, p * c);
    lemma_scaled(c, x - p, e * l);
    lemma_scaled(c, -(e * l), x - p);
    lemma_spread(c, x, p);
    lemma_spread(c, e * l, 0real);
    lemma_swap(c, x);
    lemma_swap(c, p);
    assert(c * (e * l) == e * (c * l)) by (nonlinear_arith);
    lemma_scaled(e, 1000real * (c * l), 1001real);
    assert(e * (1000real * (c * l)) == 1000real * (e * (c * l))) by (nonlinear_arith);
    lemma_swap(e, 1001real);
    let k = 1001real * e / 1000real;
    assert(-k <= s - t <= k);
    lemma_bounded(s - t, s + t, k, 59real / 10real);
    lemma_expand(s, -t, s, t);
    lemma_swap(-t, s);
    lemma_spread(s, t, t);
    lemma_swap(-t, t);
    lemma_spread(t, t, t);
    lemma_swap(s, t);
    assert(k * (59real / 10real) == 59059real * e / 10000real) by (nonlinear_arith)
        requires
            k == 1001real * e / 1000real,
    ;
}

/// The length of a vector, squared, is near what it should be.
pub proof fn lemma_length(v: Vec3A)
    requires
        v.finite(),
        sized(point(v), 10000000real),
        1real <= 1000000000000real * inner(point(v), point(v)),
    ensures
        v.length().finite(),
        real_value(v.length()) > 0real,
        ({
            let (r, x) = (real_value(v.length()), inner(point(v), point(v)));
            -x <= 1000000real * (r * r - x) <= x
        }),
{
    lemma_speck();
    let p = point(v);
    let m = 100000000000000real;
    lemma_bounded(p.0, p.0, 10000000real, 10000000real);
    lemma_bounded(p.1, p.1, 10000000real, 10000000real);
    lemma_bounded(p.2, p.2, 10000000real, 10000000real);
    assert(10000000real * 10000000real == 100000000000000real) by (nonlinear_arith);
    lemma_dot_close(v, v, m);
    lemma_length_squared(v);
    let d = v.dot(v);
    lemma_value(d);
    lemma_root_close(d);
    let r = real_value(v.length());
    assert((16777215real * r) * (16777215real * r) == 281474943156225real * (r * r)) by (nonlinear_arith);
    assert((16777217real * r) * (16777217real * r) == 281475010265089real * (r * r)) by (nonlinear_arith);
}

/// A number that is off by `e`, times a positive scale: it is off by at most `b` times the scale.
pub proof fn lemma_times_scale(a: Single, x: real, e: real, m: real, s: Single, b: real)
    requires
        within(a, x, e),
        -m <= x <= m,
        0real <= e,
        1real <= 1000real * m,
        m + e <= 1000000000000real,
        s.finite(),
        1real <= 1000000real * real_value(s),
        real_value(s) <= 1000000real,
        e + (m + e) / 16000000real <= b,
    ensures
        within(a.times(s), x * real_value(s), b * real_value(s)),
        -(m * real_value(s)) <= x * real_value(s) <= m * real_value(s),
{
    lemma_speck();
    let k = real_value(s);
    let r = real_value(a);
    let g = m + e;
    lemma_bounded(r - x, k, e, k);
    lemma_swap(r - x, k);
    lemma_spread(k, r, x);
    lemma_swap(k, r);
    lemma_swap(k, x);
    lemma_bounded(r, k, g, k);
    lemma_bounded(x, k, m, k);
    assert(g * k <= 1000000000000000000real) by {
        lemma_bounded(g, k, 1000000000000real, 1000000real);
        assert(1000000000000real * 1000000real == 1000000000000000000real) by (nonlinear_arith);
    }
    assert(g * k >= 1real / 1000000000real) by {
        lemma_scaled(k, 1real / 1000real, g);
        lemma_swap(k, g);
        assert(k * (1real / 1000real) == k / 1000real) by (nonlinear_arith);
    }
    lemma_product_within(a, s, g * k);
    lemma_swap(e, k);
    lemma_swap(b, k);
    lemma_swap(g, k);
    lemma_scaled(k, e + g / 16000000real, b);
    lemma_spread(k, e, g / 16000000real);
    assert(k * (g / 16000000real) == (k * g) / 16000000real) by (nonlinear_arith);
}

/// The length of any vector, squared, is near what it should be.
pub proof fn lemma_any_length(v: Vec3A)
    requires
        v.finite(),
        sized(point(v), 10000000real),
    ensures
        v.length().finite(),
        real_value(v.length()) >= 0real,
        ({
            let (r, x) = (real_value(v.length()), inner(point(v), point(v)));
            let e = x / 1000000real + 1real / 100000000000real;
            -e <= r * r - x <= e && x >= 0real
        }),
{
    let p = point(v);
    let x = inner(p, p);
    lemma_square_of_sum(p.0, 0real);
    lemma_square_of_sum(p.1, 0real);
    lemma_square_of_sum(p.2, 0real);
    if 1real <= 1000000000000real * x {
        lemma_length(v);
    } else {
        lemma_speck();
        lemma_dot_close(v, v, 1real);
        lemma_length_squared(v);
        let d = v.dot(v);
        lemma_value(d);
        if d.magnitude() == 0 {
            reveal(Single::square_root);
            lemma_value(d.sqrt());
            assert(real_value(d.sqrt()) == 0real);
        } else {
            lemma_root_close(d);
            let r = real_value(v.length());
            assert((16777215real * r) * (16777215real * r) == 281474943156225real * (r * r)) by (nonlinear_arith);
            lemma_square_of_sum(r, 0real);
        }
    }
}

/// The value of a small whole number.
pub proof fn lemma_count(n: int)
    requires
        1 <= n <= 64,
    ensures
        within(Single::of_integer(n), n as real, n as real / 16000000real),
{
    lemma_units();
    lemma_speck();
    let w = pow2(149) as int;
    let one = 0x20_0000_0000_0000_0000_0000_0000_0000_0000_0000int;
    assert(w == one);
    let x = (n * one) as real;
    assert(x == n as real * units());
    assert(n * w == n * one) by (nonlinear_arith)
        requires
            w == one,
    ;
    assert(x <= huge() * units());
    lemma_rounded_close(false, n * w, 1, x);
    let u = units();
    let m = n as real;
    assert(x / u == m) by (nonlinear_arith)
        requires
            x == m * u,
            u > 0real,
    ;
}

} // verus!
