//! How the forward scale biases a hit.
use crate::math::Vec3A;
use crate::math_errors::{
    lemma_dot_close, lemma_has_unit, lemma_length_squared, lemma_unit_components, lemma_unit_length, lemma_unit_scale, real_dot,
};
use crate::reals::{
    lemma_both_positive, lemma_bounded, lemma_cauchy, lemma_expand, lemma_greater, lemma_over, lemma_regroup, lemma_scaled, lemma_sized,
    lemma_spread, lemma_square_of_sum, lemma_sum_times, lemma_swap,
};
use crate::sim::ball_hit::config::BallHitConfig;
use crate::sim::ball_hit::impulse::{
    hit_direction, hit_impulse, nudged_direction, relative_speed, straight_direction, upward_scale, HitContext,
};
use crate::single::{Single, ONE_BITS};
use crate::single_errors::{close, lemma_order, lemma_product_close, lemma_speck, lemma_sum_close, lemma_two, lemma_units, real_value, size, speck};
use crate::single_laws::{
    law_exact_sums_are_exact, law_nan_spreads, law_nothing_left, law_squares_are_not_negative,
    law_sum_commutes, law_sum_grows, law_sum_of_positives,
};
use vstd::arithmetic::power2::{lemma2_to64, lemma_pow2_adds, pow2};
use vstd::prelude::*;

verus! {

/// With exact numbers: the direction `s + f * t` leans toward `f`, the more so the larger `t` is.
/// Here `a` is the dot product of `s` and `f`, `b` the square of the length of `f` and `k` that of
/// `s`; `p` is the dot product of the direction with `f`, and `q` the square of its length.
proof fn lemma_lean(a: real, b: real, k: real, t: real, p: real, q: real)
    requires
        p == a + b * t,
        q == k + 2real * (a * t) + b * (t * t),
    ensures
        b * q == p * p + (b * k - a * a),
{
    let x = b * t;
    lemma_square_of_sum(a, x);
    assert(b * (k + 2real * (a * t) + b * (t * t)) == b * k + b * (2real * (a * t)) + b * (b * (t * t))) by (nonlinear_arith);
    assert(b * (2real * (a * t)) == 2real * (a * (b * t))) by (nonlinear_arith);
    assert(b * (b * (t * t)) == (b * t) * (b * t)) by (nonlinear_arith);
}

proof fn lemma_leans(
    a: real,
    b: real,
    k: real,
    t1: real,
    t2: real,
    p1: real,
    p2: real,
    q1: real,
    q2: real,
)
    requires
        p1 == a + b * t1,
        p2 == a + b * t2,
        q1 == k + 2real * (a * t1) + b * (t1 * t1),
        q2 == k + 2real * (a * t2) + b * (t2 * t2),
        a * a <= b * k,
        b > 0real,
        t1 >= t2,
        p2 >= 0real,
    ensures
        p1 >= p2,
        (p1 * p1) * q2 >= (p2 * p2) * q1,
{
    let e = b * k - a * a;
    lemma_lean(a, b, k, t1, p1, q1);
    lemma_lean(a, b, k, t2, p2, q2);
    lemma_scaled(b, t2, t1);
    let (x, y) = (p1 * p1, p2 * p2);
    lemma_scaled(p1, p2, p1);
    lemma_scaled(p2, p2, p1);
    assert(p1 * p2 == p2 * p1) by (nonlinear_arith);
    assert(x >= y);
    assert(b * (x * q2) == x * (b * q2)) by (nonlinear_arith);
    assert(b * (y * q1) == y * (b * q1)) by (nonlinear_arith);
    assert(x * (y + e) == x * y + x * e) by (nonlinear_arith);
    assert(y * (x + e) == x * y + y * e) by (nonlinear_arith);
    lemma_scaled(e, y, x);
    assert(e * y == y * e && e * x == x * e) by (nonlinear_arith);
    lemma_over(b, y * q1, x * q2);
}

/// Two directions that were brought to unit length, up to a part in 2^17, lean as they should.
proof fn lemma_unit_leans(p1: real, p2: real, q1: real, q2: real, c1: real, c2: real)
    requires
        (p1 * p1) * q2 >= (p2 * p2) * q1,
        p1 >= 0real,
        p2 >= 0real,
        c1 > 0real,
        c2 > 0real,
        16777116real <= 16777216real * (c1 * c1 * q1) <= 16777316real,
        16777116real <= 16777216real * (c2 * c2 * q2) <= 16777316real,
        c2 * p2 <= 2real,
    ensures
        16777216real * (c1 * p1) >= 16777216real * (c2 * p2) - 220real,
{
    let (g1, g2) = (c1 * p1, c2 * p2);
    let (r1, r2) = (c1 * c1 * q1, c2 * c2 * q2);
    lemma_scaled(c1, 0real, p1);
    lemma_scaled(c2, 0real, p2);
    assert(c1 * 0real == 0real && c2 * 0real == 0real) by (nonlinear_arith);
    let c = (c1 * c2) * (c1 * c2);
    lemma_square_of_sum(c1 * c2, 0real);
    lemma_scaled(c, (p2 * p2) * q1, (p1 * p1) * q2);
    lemma_regroup(c1, c2, c1, c2);
    lemma_regroup(c1, p1, c1, p1);
    lemma_regroup(c1 * c1, p1 * p1, c2 * c2, q2);
    lemma_regroup(c2, p2, c2, p2);
    lemma_regroup(c2 * c2, p2 * p2, c1 * c1, q1);
    lemma_swap(c1 * c1, c2 * c2);
    let (x, y) = (g1 * g1, g2 * g2);
    lemma_square_of_sum(g1, 0real);
    lemma_square_of_sum(g2, 0real);
    assert(x * r2 >= y * r1);
    lemma_scaled(x, r2, 16777316real / 16777216real);
    lemma_scaled(y, 16777116real / 16777216real, r1);
    if 16777216real * g1 < 16777106real * g2 {
        let (m, n) = (16777216real * g1, 16777106real * g2);
        lemma_scaled(m, m, n);
        lemma_scaled(n, m, n);
        lemma_swap(m, n);
        lemma_regroup(16777216real, g1, 16777216real, g1);
        lemma_regroup(16777106real, g2, 16777106real, g2);
        assert(g2 * g2 > 0real) by (nonlinear_arith)
            requires
                g2 > 0real,
        ;
    }
}

/// A component of a direction, scaled by `c` to about unit length: `n` is the component, and `s + z`
/// what it should be.
proof fn lemma_component(s: real, z: real, n: real, c: real, m: real)
    requires
        0real <= c <= 4real,
        -(4real * (size(s + z) + size(z)) / 16777216real + 16real * speck()) <= n - (s + z) <= 4real * (size(s + z) + size(
            z,
        )) / 16777216real + 16real * speck(),
        -101real <= 100real * (c * n) <= 101real,
        -m <= c * z <= m,
        m <= 1000real,
    ensures
        ({
            let e = (4real * m + 5real) / 16777216real;
            -e <= c * n - c * (s + z) <= e
        }),
{
    lemma_speck();
    let (y, d) = (s + z, n - (s + z));
    let (sy, sz, k) = (size(y), size(z), speck());
    let r = 4real * (sy + sz) / 16777216real;
    let b = r + 16real * k;
    lemma_scaled(c, d, b);
    lemma_scaled(c, -b, d);
    lemma_spread(c, n, y);
    lemma_spread(c, b, b);
    lemma_spread(c, r, 16real * k);
    lemma_spread(c, sy, sz);
    let t = sy + sz;
    assert(c * (4real * t / 16777216real) == 4real * (c * t) / 16777216real) by (nonlinear_arith);
    assert(c * (16real * k) == 16real * (c * k)) by (nonlinear_arith);
    lemma_sized(c, y);
    lemma_sized(c, z);
    lemma_scaled(k, c, 4real);
    lemma_swap(k, c);
    lemma_swap(k, 4real);
}

/// The squares of numbers near each other are near each other.
proof fn lemma_squares_near(x: real, y: real, e: real)
    requires
        -e <= x - y <= e,
        -101real <= 100real * x <= 101real,
        e <= 1real / 10000real,
    ensures
        -(203real * e) <= 100real * (y * y - x * x) <= 203real * e,
{
    lemma_bounded(x - y, x + y, e, 203real / 100real);
    lemma_expand(x, -y, x, y);
    lemma_spread(x, y, y);
    lemma_spread(y, x, y);
    lemma_swap(-y, x);
    lemma_swap(-y, y);
    lemma_swap(x, y);
    lemma_spread(x, y, y);
    lemma_spread(y, y, y);
    assert(e * (203real / 100real) == 203real * e / 100real) by (nonlinear_arith);
}

/// Something whose square is about 1 is about 1 at most.
proof fn lemma_root_bound(x: real)
    requires
        100real * (x * x) <= 101real,
    ensures
        -101real <= 100real * x <= 101real,
{
    if 100real * x > 101real {
        lemma_scaled(x, 101real / 100real, x);
        lemma_swap(x, 101real / 100real);
    }
    if 100real * x < -101real {
        lemma_scaled(-x, 101real / 100real, -x);
        lemma_swap(-x, 101real / 100real);
        lemma_spread(x, x, x);
        lemma_spread(-x, x, x);
        lemma_swap(-x, x);
    }
}

/// The length of `s + f * t`, in parts.
proof fn lemma_parts(s: (real, real, real), f: (real, real, real), t: real)
    ensures
        ({
            let a = s.0 * f.0 + s.1 * f.1 + s.2 * f.2;
            let b = f.0 * f.0 + f.1 * f.1 + f.2 * f.2;
            let k = s.0 * s.0 + s.1 * s.1 + s.2 * s.2;
            let z = (f.0 * t, f.1 * t, f.2 * t);
            let y = (s.0 + z.0, s.1 + z.1, s.2 + z.2);
            &&& y.0 * y.0 + y.1 * y.1 + y.2 * y.2 == k + 2real * (a * t) + b * (t * t)
            &&& z.0 * z.0 + z.1 * z.1 + z.2 * z.2 == b * (t * t)
            &&& y.0 * f.0 + y.1 * f.1 + y.2 * f.2 == a + b * t
        }),
{
    let a = s.0 * f.0 + s.1 * f.1 + s.2 * f.2;
    let b = f.0 * f.0 + f.1 * f.1 + f.2 * f.2;
    lemma_part(s.0, f.0, t);
    lemma_part(s.1, f.1, t);
    lemma_part(s.2, f.2, t);
    lemma_sum_times(s.0 * f.0, s.1 * f.1, s.2 * f.2, t);
    lemma_sum_times(f.0 * f.0, f.1 * f.1, f.2 * f.2, t);
    lemma_sum_times(f.0 * f.0, f.1 * f.1, f.2 * f.2, t * t);
}

proof fn lemma_part(s: real, f: real, t: real)
    ensures
        (s + f * t) * (s + f * t) == s * s + 2real * ((s * f) * t) + (f * f) * (t * t),
        (f * t) * (f * t) == (f * f) * (t * t),
        (s + f * t) * f == s * f + (f * f) * t,
{
    lemma_square_of_sum(s, f * t);
    lemma_regroup(f, t, f, t);
    assert(s * (f * t) == (s * f) * t) by (nonlinear_arith);
    lemma_swap(s + f * t, f);
    lemma_spread(f, s, f * t);
    lemma_swap(f, s);
    assert(f * (f * t) == (f * f) * t) by (nonlinear_arith);
}

/// A component that was computed is near what it should be, `s + z`.
spec fn near(n: real, s: real, z: real) -> bool {
    -(4real * (size(s + z) + size(z)) / 16777216real + 16real * speck()) <= n - (s + z) <= 4real * (size(s + z) + size(z))
        / 16777216real + 16real * speck()
}

/// The squares of the components of a scaled direction.
proof fn lemma_scaled_squares(c: real, y: (real, real, real))
    ensures
        c * c * (y.0 * y.0 + y.1 * y.1 + y.2 * y.2) == (c * y.0) * (c * y.0) + (c * y.1) * (c * y.1) + (c * y.2) * (c * y.2),
        (c * y.0) * (c * y.0) >= 0real,
        (c * y.1) * (c * y.1) >= 0real,
        (c * y.2) * (c * y.2) >= 0real,
{
    let k = c * c;
    lemma_spread(k, y.0 * y.0 + y.1 * y.1, y.2 * y.2);
    lemma_spread(k, y.0 * y.0, y.1 * y.1);
    lemma_regroup(c, y.0, c, y.0);
    lemma_regroup(c, y.1, c, y.1);
    lemma_regroup(c, y.2, c, y.2);
    lemma_square_of_sum(c * y.0, 0real);
    lemma_square_of_sum(c * y.1, 0real);
    lemma_square_of_sum(c * y.2, 0real);
}

/// A direction `n` that is near `s + f * t`, and the scale `c` that brings it to unit length: they do
/// for the exact direction too, up to rounding.
proof fn lemma_side(
    s: (real, real, real),
    f: (real, real, real),
    t: real,
    n: (real, real, real),
    c: real,
    a: real,
    b: real,
    k: real,
)
    requires
        a == s.0 * f.0 + s.1 * f.1 + s.2 * f.2,
        b == f.0 * f.0 + f.1 * f.1 + f.2 * f.2,
        k == s.0 * s.0 + s.1 * s.1 + s.2 * s.2,
        near(n.0, s.0, f.0 * t),
        near(n.1, s.1, f.1 * t),
        near(n.2, s.2, f.2 * t),
        -24real <= f.0 * t <= 24real,
        -24real <= f.1 * t <= 24real,
        -24real <= f.2 * t <= 24real,
        -3real <= 2real * f.0 <= 3real,
        -3real <= 2real * f.1 <= 3real,
        -3real <= 2real * f.2 <= 3real,
        0real < c <= 4real,
        0real <= t <= 16real,
        -1real <= 100000real * a,
        16777200real <= 16777216real * (c * c * (n.0 * n.0 + n.1 * n.1 + n.2 * n.2)) <= 16777232real,
    ensures
        16777116real <= 16777216real * (c * c * (k + 2real * (a * t) + b * (t * t))) <= 16777316real,
        -46real <= 16777216real * (c * (n.0 * f.0 + n.1 * f.1 + n.2 * f.2) - c * (a + b * t)) <= 46real,
{
    let z = (f.0 * t, f.1 * t, f.2 * t);
    let y = (s.0 + z.0, s.1 + z.1, s.2 + z.2);
    let q = k + 2real * (a * t) + b * (t * t);
    lemma_parts(s, f, t);
    lemma_scaled_squares(c, n);
    lemma_scaled_squares(c, y);
    lemma_scaled_squares(c, z);
    lemma_root_bound(c * n.0);
    lemma_root_bound(c * n.1);
    lemma_root_bound(c * n.2);
    lemma_side_crude(c, s, z, n);
    let cc = c * c;
    lemma_square_of_sum(c, 0real);
    assert(k >= 0real) by {
        lemma_square_of_sum(s.0, 0real);
        lemma_square_of_sum(s.1, 0real);
        lemma_square_of_sum(s.2, 0real);
    }
    // What the part along `f` adds to the length is no more than the length, but for a little.
    assert(b * (t * t) <= q + 1real / 1000real) by {
        lemma_scaled(t, -1real / 100000real, a);
        lemma_swap(t, a);
        lemma_swap(t, -1real / 100000real);
    }
    lemma_scaled(cc, b * (t * t), q + 1real / 1000real);
    lemma_spread(cc, q, 1real / 1000real);
    assert(cc <= 16real) by {
        lemma_scaled(c, c, 4real);
        lemma_swap(c, 4real);
    }
    assert(cc * (1real / 1000real) <= 16real / 1000real) by {
        lemma_scaled(1real / 1000real, cc, 16real);
        lemma_swap(cc, 1real / 1000real);
    }
    lemma_root_bound_wide(c * z.0);
    lemma_root_bound_wide(c * z.1);
    lemma_root_bound_wide(c * z.2);
    let m = 102real / 100real;
    lemma_component(s.0, z.0, n.0, c, m);
    lemma_component(s.1, z.1, n.1, c, m);
    lemma_component(s.2, z.2, n.2, c, m);
    let e = (4real * m + 5real) / 16777216real;
    lemma_squares_near(c * n.0, c * y.0, e);
    lemma_squares_near(c * n.1, c * y.1, e);
    lemma_squares_near(c * n.2, c * y.2, e);
    lemma_forward_part(c, n, y, f, e);
}

/// Something whose square is hardly more than 1 is hardly more than 1.
proof fn lemma_root_bound_wide(x: real)
    requires
        100real * (x * x) <= 103real,
    ensures
        -102real <= 100real * x <= 102real,
{
    if 100real * x > 102real {
        lemma_scaled(x, 102real / 100real, x);
        lemma_swap(x, 102real / 100real);
    }
    if 100real * x < -102real {
        lemma_scaled(-x, 102real / 100real, -x);
        lemma_swap(-x, 102real / 100real);
        lemma_spread(x, x, x);
        lemma_spread(-x, x, x);
        lemma_swap(-x, x);
    }
}

/// The scaled length of the exact direction, roughly.
proof fn lemma_side_crude(c: real, s: (real, real, real), z: (real, real, real), n: (real, real, real))
    requires
        near(n.0, s.0, z.0),
        near(n.1, s.1, z.1),
        near(n.2, s.2, z.2),
        -24real <= z.0 <= 24real,
        -24real <= z.1 <= 24real,
        -24real <= z.2 <= 24real,
        0real < c <= 4real,
        -101real <= 100real * (c * n.0) <= 101real,
        -101real <= 100real * (c * n.1) <= 101real,
        -101real <= 100real * (c * n.2) <= 101real,
        1000real * ((c * n.0) * (c * n.0) + (c * n.1) * (c * n.1) + (c * n.2) * (c * n.2)) <= 1001real,
    ensures
        ({
            let y = (s.0 + z.0, s.1 + z.1, s.2 + z.2);
            1000real * ((c * y.0) * (c * y.0) + (c * y.1) * (c * y.1) + (c * y.2) * (c * y.2)) <= 1002real
        }),
{
    lemma_bounded(c, z.0, 4real, 24real);
    lemma_bounded(c, z.1, 4real, 24real);
    lemma_bounded(c, z.2, 4real, 24real);
    lemma_component(s.0, z.0, n.0, c, 96real);
    lemma_component(s.1, z.1, n.1, c, 96real);
    lemma_component(s.2, z.2, n.2, c, 96real);
    let e = 389real / 16777216real;
    lemma_squares_near(c * n.0, c * (s.0 + z.0), e);
    lemma_squares_near(c * n.1, c * (s.1 + z.1), e);
    lemma_squares_near(c * n.2, c * (s.2 + z.2), e);
}

/// The parts along `f` of two directions that are near each other are so.
proof fn lemma_forward_part(c: real, n: (real, real, real), y: (real, real, real), f: (real, real, real), e: real)
    requires
        -e <= c * n.0 - c * y.0 <= e,
        -e <= c * n.1 - c * y.1 <= e,
        -e <= c * n.2 - c * y.2 <= e,
        -3real <= 2real * f.0 <= 3real,
        -3real <= 2real * f.1 <= 3real,
        -3real <= 2real * f.2 <= 3real,
        16777216real * e <= 10real,
    ensures
        -46real <= 16777216real * (c * (n.0 * f.0 + n.1 * f.1 + n.2 * f.2) - c * (y.0 * f.0 + y.1 * f.1 + y.2 * f.2)) <= 46real,
{
    lemma_bounded(c * n.0 - c * y.0, f.0, e, 3real / 2real);
    lemma_bounded(c * n.1 - c * y.1, f.1, e, 3real / 2real);
    lemma_bounded(c * n.2 - c * y.2, f.2, e, 3real / 2real);
    lemma_swap(e, 3real / 2real);
    lemma_forward_term(c, n.0, y.0, f.0);
    lemma_forward_term(c, n.1, y.1, f.1);
    lemma_forward_term(c, n.2, y.2, f.2);
    lemma_spread(c, n.0 * f.0 + n.1 * f.1, n.2 * f.2);
    lemma_spread(c, n.0 * f.0, n.1 * f.1);
    lemma_spread(c, y.0 * f.0 + y.1 * f.1, y.2 * f.2);
    lemma_spread(c, y.0 * f.0, y.1 * f.1);
}

proof fn lemma_forward_term(c: real, n: real, y: real, f: real)
    ensures
        (c * n - c * y) * f == c * (n * f) - c * (y * f),
{
    lemma_swap(c * n - c * y, f);
    lemma_spread(f, c * n, c * y);
    assert(f * (c * n) == c * (n * f)) by (nonlinear_arith);
    assert(f * (c * y) == c * (y * f)) by (nonlinear_arith);
}

/// The errors of a nudge add up.
proof fn lemma_nudge_errors(s: real, z: real, x: real, q: real, n: real, k: real)
    requires
        0real < k,
        -(size(z) / 16777216real + k) <= x - z <= size(z) / 16777216real + k,
        -(size(x) / 16777216real + k) <= q - x <= size(x) / 16777216real + k,
        -(size(s + q) / 16777216real + k) <= n - (s + q) <= size(s + q) / 16777216real + k,
    ensures
        -(4real * (size(s + z) + size(z)) / 16777216real + 16real * k) <= n - (s + z) <= 4real * (size(s + z) + size(z))
            / 16777216real + 16real * k,
{
    let e = 21real * size(z) / 167772160real + 3real * k;
    assert(-e <= q - z <= e);
    assert(size(s + q) <= size(s + z) + e);
}

/// One component of the nudged direction is near what it should be.
proof fn lemma_nudge(s: Single, f: Single, d: Single, w: Single)
    requires
        s.finite(),
        f.finite(),
        d.finite(),
        w.finite(),
        -3real <= real_value(s) <= 3real,
        -3real <= 2real * real_value(f) <= 3real,
        0real <= real_value(d) <= 16real,
        0real <= real_value(w) <= 1real,
    ensures
        s.plus(f.times(d).times(w)).finite(),
        near(real_value(s.plus(f.times(d).times(w))), real_value(s), real_value(f) * (real_value(d) * real_value(w))),
        -24real <= real_value(f) * (real_value(d) * real_value(w)) <= 24real,
{
    lemma_speck();
    let (fr, dr, wr, k) = (real_value(f), real_value(d), real_value(w), speck());
    lemma_bounded(fr, dr, 3real / 2real, 16real);
    lemma_product_close(f, d);
    let p = f.times(d);
    let pr = real_value(p);
    let fd = fr * dr;
    let z = fr * (dr * wr);
    assert(fr * (dr * wr) == wr * (fr * dr)) by (nonlinear_arith);
    lemma_bounded(wr, fd, 1real, 24real);
    let e = size(fd) / 16777216real + k;
    lemma_scaled(wr, pr - fd, e);
    lemma_scaled(wr, -e, pr - fd);
    lemma_spread(wr, pr, fd);
    lemma_spread(wr, e, e);
    lemma_spread(wr, size(fd) / 16777216real, k);
    assert(wr * (size(fd) / 16777216real) == (wr * size(fd)) / 16777216real) by (nonlinear_arith);
    lemma_sized(wr, fd);
    lemma_scaled(k, wr, 1real);
    lemma_swap(k, wr);
    lemma_swap(k, 1real);
    let x = pr * wr;
    lemma_swap(pr, wr);
    assert(-100real <= x <= 100real);
    lemma_product_close(p, w);
    let q = p.times(w);
    assert(-200real <= real_value(q) <= 200real);
    lemma_sum_close(s, q);
    lemma_nudge_errors(real_value(s), z, x, real_value(q), real_value(s.plus(q)), k);
}

/// The length of the nudged direction.
proof fn lemma_nudged_length(n: real, s: real, z: real)
    requires
        near(n, s, z),
        -3real <= s <= 3real,
        -24real <= z <= 24real,
    ensures
        -1real <= 1000real * (n * n - (s + z) * (s + z)) <= 1real,
        -28real <= n <= 28real,
{
    lemma_speck();
    let y = s + z;
    let e = 1real / 60000real;
    assert(-e <= n - y <= e);
    lemma_bounded(n - y, n + y, e, 55real);
    lemma_expand(n, -y, n, y);
    lemma_spread(n, y, y);
    lemma_swap(-y, n);
    lemma_swap(-y, y);
    lemma_spread(y, y, y);
    lemma_swap(n, y);
    assert(e * 55real == 55real / 60000real);
}

/// The values of the components.
spec fn values(v: Vec3A) -> (real, real, real) {
    (real_value(v.x), real_value(v.y), real_value(v.z))
}

/// No component is larger than `m`.
spec fn all_within(v: Vec3A, m: real) -> bool {
    &&& -m <= real_value(v.x) <= m
    &&& -m <= real_value(v.y) <= m
    &&& -m <= real_value(v.z) <= m
}

/// A direction that is nudged, and brought to unit length: its part along `f` is near that of the
/// exact direction, if that is scaled by the result, which brings it to about unit length.
proof fn lemma_hit_side(s: Vec3A, f: Vec3A, d: Single, w: Single) -> (c: real)
    requires
        s.finite(),
        f.finite(),
        d.finite(),
        w.finite(),
        all_within(s, 3real),
        all_within(f, 3real / 2real),
        1real <= 10real * real_dot(s, s),
        0real <= real_value(d) <= 16real,
        0real <= real_value(w) <= 1real,
        -42real <= 16777216real * real_dot(s, f),
    ensures
        ({
            let h = s.plus(f.scale(d).scale(w)).normalize_or_zero();
            let t = real_value(d) * real_value(w);
            let (a, b, k) = (real_dot(s, f), real_dot(f, f), real_dot(s, s));
            &&& h.finite()
            &&& all_within(h, 102real / 100real)
            &&& h.dot(f).finite()
            &&& 0real < c <= 4real
            &&& 16777116real <= 16777216real * (c * c * (k + 2real * (a * t) + b * (t * t))) <= 16777316real
            &&& -66real <= 16777216real * (real_value(h.dot(f)) - c * (a + b * t)) <= 66real
        }),
{
    let n = s.plus(f.scale(d).scale(w));
    let t = real_value(d) * real_value(w);
    let (sr, fr, nr) = (values(s), values(f), values(n));
    let z = (fr.0 * t, fr.1 * t, fr.2 * t);
    let y = (sr.0 + z.0, sr.1 + z.1, sr.2 + z.2);
    let (a, b, k) = (real_dot(s, f), real_dot(f, f), real_dot(s, s));
    lemma_nudge(s.x, f.x, d, w);
    lemma_nudge(s.y, f.y, d, w);
    lemma_nudge(s.z, f.z, d, w);
    lemma_nudged_length(nr.0, sr.0, z.0);
    lemma_nudged_length(nr.1, sr.1, z.1);
    lemma_nudged_length(nr.2, sr.2, z.2);
    lemma_bounded(real_value(d), real_value(w), 16real, 1real);
    lemma_both_positive(real_value(d), real_value(w));
    let nn = real_dot(n, n);
    lemma_parts(sr, fr, t);
    lemma_long_enough(a, b, k, t, fr);
    lemma_bounded(nr.0, nr.0, 28real, 28real);
    lemma_bounded(nr.1, nr.1, 28real, 28real);
    lemma_bounded(nr.2, nr.2, 28real, 28real);
    assert(11real * nn >= 1real);
    lemma_has_unit(n);
    lemma_unit_length(n);
    lemma_unit_scale(n);
    lemma_unit_components(n);
    let c = real_value(n.length_recip());
    lemma_scale_bound(c, nn);
    lemma_side(sr, fr, t, nr, c, a, b, k);
    lemma_scaled_squares(c, nr);
    lemma_unit_forward(n, f, c);
    c
}

/// The exact direction is not short.
proof fn lemma_long_enough(a: real, b: real, k: real, t: real, f: (real, real, real))
    requires
        b == f.0 * f.0 + f.1 * f.1 + f.2 * f.2,
        -42real <= 16777216real * a,
        1real <= 10real * k,
        0real <= t <= 16real,
    ensures
        95real <= 1000real * (k + 2real * (a * t) + b * (t * t)),
{
    lemma_square_of_sum(f.0, 0real);
    lemma_square_of_sum(f.1, 0real);
    lemma_square_of_sum(f.2, 0real);
    lemma_square_of_sum(t, 0real);
    lemma_both_positive(b, t * t);
    lemma_scaled(t, -42real / 16777216real, a);
    lemma_swap(t, a);
    lemma_swap(t, -42real / 16777216real);
}

proof fn lemma_scale_bound(c: real, nn: real)
    requires
        c > 0real,
        11real * nn >= 1real,
        16777216real * (c * c * nn) <= 16777232real,
    ensures
        c <= 4real,
{
    if c > 4real {
        lemma_scaled(c, 4real, c);
        lemma_swap(c, 4real);
        let k = c * c;
        lemma_scaled(k, 1real / 11real, nn);
        lemma_swap(k, 1real / 11real);
    }
}

/// The part along `f` of a direction that was brought to unit length.
proof fn lemma_unit_forward(n: Vec3A, f: Vec3A, c: real)
    requires
        n.unit() is Some,
        n.finite(),
        f.finite(),
        all_within(f, 3real / 2real),
        c == real_value(n.length_recip()),
        1000real * (c * c * real_dot(n, n)) <= 1001real,
    ensures
        ({
            let h = n.normalize_or_zero();
            &&& h.finite()
            &&& all_within(h, 102real / 100real)
            &&& h.dot(f).finite()
            &&& -20real <= 16777216real * (real_value(h.dot(f)) - c * real_dot(n, f)) <= 20real
        }),
{
    lemma_speck();
    lemma_unit_components(n);
    let h = n.normalize_or_zero();
    let (nr, hr, fr) = (values(n), values(h), values(f));
    lemma_scaled_squares(c, nr);
    lemma_root_bound(c * nr.0);
    lemma_root_bound(c * nr.1);
    lemma_root_bound(c * nr.2);
    lemma_swap(nr.0, c);
    lemma_swap(nr.1, c);
    lemma_swap(nr.2, c);
    let e = 102real / 1677721600real;
    assert(-e <= hr.0 - c * nr.0 <= e);
    assert(-e <= hr.1 - c * nr.1 <= e);
    assert(-e <= hr.2 - c * nr.2 <= e);
    lemma_bounded(hr.0, fr.0, 102real / 100real, 3real / 2real);
    lemma_bounded(hr.1, fr.1, 102real / 100real, 3real / 2real);
    lemma_bounded(hr.2, fr.2, 102real / 100real, 3real / 2real);
    lemma_dot_close(h, f, 153real / 100real);
    lemma_bounded(hr.0 - c * nr.0, fr.0, e, 3real / 2real);
    lemma_bounded(hr.1 - c * nr.1, fr.1, e, 3real / 2real);
    lemma_bounded(hr.2 - c * nr.2, fr.2, e, 3real / 2real);
    lemma_unit_term(hr.0, c, nr.0, fr.0);
    lemma_unit_term(hr.1, c, nr.1, fr.1);
    lemma_unit_term(hr.2, c, nr.2, fr.2);
    lemma_spread(c, nr.0 * fr.0 + nr.1 * fr.1, nr.2 * fr.2);
    lemma_spread(c, nr.0 * fr.0, nr.1 * fr.1);
}

proof fn lemma_unit_term(h: real, c: real, n: real, f: real)
    ensures
        (h - c * n) * f == h * f - c * (n * f),
{
    lemma_swap(h - c * n, f);
    lemma_spread(f, h, c * n);
    lemma_swap(f, h);
    assert(f * (c * n) == c * (n * f)) by (nonlinear_arith);
}

/// The part of the exact direction along `f` is no longer than `f`.
proof fn lemma_no_longer(a: real, b: real, k: real, t: real, c: real)
    requires
        a * a <= b * k,
        0real <= b,
        1000real * b <= 2010real,
        0real < c,
        c * c * (k + 2real * (a * t) + b * (t * t)) <= 1001real / 1000real,
    ensures
        c * (a + b * t) <= 2real,
{
    let p = a + b * t;
    let q = k + 2real * (a * t) + b * (t * t);
    lemma_lean(a, b, k, t, p, q);
    let cc = c * c;
    lemma_square_of_sum(c, 0real);
    lemma_scaled(cc, p * p, b * q);
    lemma_regroup(c, p, c, p);
    assert(cc * (b * q) == b * (cc * q)) by (nonlinear_arith);
    lemma_scaled(b, cc * q, 1001real / 1000real);
    lemma_swap(b, 1001real / 1000real);
    let g = c * p;
    if g > 2real {
        lemma_scaled(g, 2real, g);
        lemma_swap(g, 2real);
    }
}

/// Two parts along `f`, `h1` of the direction that was nudged further and `h2` of the other.
proof fn lemma_compare(
    s: (real, real, real),
    f: (real, real, real),
    t1: real,
    t2: real,
    c1: real,
    c2: real,
    h1: real,
    h2: real,
    a: real,
    b: real,
    k: real,
)
    requires
        a == s.0 * f.0 + s.1 * f.1 + s.2 * f.2,
        b == f.0 * f.0 + f.1 * f.1 + f.2 * f.2,
        k == s.0 * s.0 + s.1 * s.1 + s.2 * s.2,
        1000real * b <= 2010real,
        t1 >= t2,
        t2 >= 0real,
        0real < c1 <= 4real,
        0real < c2 <= 4real,
        -42real <= 16777216real * a,
        16777116real <= 16777216real * (c1 * c1 * (k + 2real * (a * t1) + b * (t1 * t1))) <= 16777316real,
        16777116real <= 16777216real * (c2 * c2 * (k + 2real * (a * t2) + b * (t2 * t2))) <= 16777316real,
        -66real <= 16777216real * (h1 - c1 * (a + b * t1)) <= 66real,
        -66real <= 16777216real * (h2 - c2 * (a + b * t2)) <= 66real,
    ensures
        32768real * h2 <= 32768real * h1 + 1real,
{
    let (p1, p2) = (a + b * t1, a + b * t2);
    let q1 = k + 2real * (a * t1) + b * (t1 * t1);
    let q2 = k + 2real * (a * t2) + b * (t2 * t2);
    lemma_square_of_sum(f.0, 0real);
    lemma_square_of_sum(f.1, 0real);
    lemma_square_of_sum(f.2, 0real);
    lemma_cauchy(s, f);
    lemma_both_positive(b, t1);
    lemma_both_positive(b, t2);
    if p2 >= 0real && b > 0real {
        lemma_leans(a, b, k, t1, t2, p1, p2, q1, q2);
        lemma_no_longer(a, b, k, t2, c2);
        lemma_unit_leans(p1, p2, q1, q2, c1, c2);
    } else {
        if p2 >= 0real {
            assert(b == 0real);
            assert(b * k == 0real && b * t1 == 0real && b * t2 == 0real) by (nonlinear_arith)
                requires
                    b == 0real,
            ;
            assert(a == 0real) by {
                lemma_square_of_sum(a, 0real);
                if a > 0real {
                    assert(a * a > 0real) by (nonlinear_arith)
                        requires
                            a > 0real,
                    ;
                }
                if a < 0real {
                    assert(a * a > 0real) by (nonlinear_arith)
                        requires
                            a < 0real,
                    ;
                }
            }
            lemma_spread(c1, p1, p1);
            lemma_spread(c2, p2, p2);
        } else {
            lemma_scaled(c2, p2, 0real);
            lemma_spread(c2, p2, p2);
            lemma_scaled(c1, -42real / 16777216real, p1);
            lemma_scaled(42real / 16777216real, c1, 4real);
            lemma_spread(c1, 42real / 16777216real, 0real);
            lemma_swap(c1, 42real / 16777216real);
        }
    }
}

/// A forward axis that is not much longer than 1.
proof fn lemma_axis(f: Vec3A)
    requires
        f.length_squared().at_most(Single { bits: 0x4000_0000 }),
    ensures
        f.finite(),
        all_within(f, 3real / 2real),
        1000real * real_dot(f, f) <= 2010real,
{
    let two = Single { bits: 0x4000_0000 };
    let (p, q, r) = (f.x.times(f.x), f.y.times(f.y), f.z.times(f.z));
    if f.x.is_a_nan() {
        law_nan_spreads(f.x, f.x);
        law_nan_spreads(p, q);
        law_nan_spreads(p.plus(q), r);
    }
    if f.y.is_a_nan() {
        law_nan_spreads(f.y, f.y);
        law_nan_spreads(q, p);
        law_nan_spreads(p.plus(q), r);
    }
    if f.z.is_a_nan() {
        law_nan_spreads(f.z, f.z);
        law_nan_spreads(r, p.plus(q));
    }
    law_squares_are_not_negative(f.x);
    law_squares_are_not_negative(f.y);
    law_squares_are_not_negative(f.z);
    law_sum_of_positives(p, q);
    law_sum_of_positives(p.plus(q), r);
    lemma_length_squared(f);
    lemma_order(f.dot(f), two);
    lemma_two();
    lemma_speck();
    lemma_axis_part(real_value(f.x));
    lemma_axis_part(real_value(f.y));
    lemma_axis_part(real_value(f.z));
}

proof fn lemma_axis_part(x: real)
    requires
        1000real * (x * x) <= 2010real,
    ensures
        -3real <= 2real * x <= 3real,
{
    if 2real * x > 3real {
        lemma_scaled(x, 3real / 2real, x);
        lemma_swap(x, 3real / 2real);
    }
    if 2real * x < -3real {
        lemma_scaled(-x, 3real / 2real, -x);
        lemma_swap(-x, 3real / 2real);
        lemma_spread(x, x, x);
        lemma_spread(-x, x, x);
        lemma_swap(-x, x);
    }
}

/// The straight direction has about unit length.
proof fn lemma_straight(v: Vec3A)
    requires
        v.unit() is Some,
    ensures
        v.normalize_or_zero().finite(),
        all_within(v.normalize_or_zero(), 3real),
        1real <= 10real * real_dot(v.normalize_or_zero(), v.normalize_or_zero()),
{
    lemma_speck();
    lemma_unit_length(v);
    lemma_unit_components(v);
    let c = real_value(v.length_recip());
    let h = v.normalize_or_zero();
    let (vr, hr) = (values(v), values(h));
    lemma_scaled_squares(c, vr);
    lemma_swap(vr.0, c);
    lemma_swap(vr.1, c);
    lemma_swap(vr.2, c);
    lemma_straight_part(hr.0, c * vr.0);
    lemma_straight_part(hr.1, c * vr.1);
    lemma_straight_part(hr.2, c * vr.2);
}

proof fn lemma_straight_part(h: real, x: real)
    requires
        close(h, x),
        10real * size(x) <= 29real,
    ensures
        -3real <= h <= 3real,
        h * h >= x * x - 1real / 1000real,
{
    lemma_speck();
    let e = 1real / 100000real;
    lemma_bounded(h - x, h + x, e, 6real);
    lemma_expand(h, -x, h, x);
    lemma_spread(h, x, x);
    lemma_spread(x, x, x);
    lemma_swap(-x, h);
    lemma_swap(-x, x);
    lemma_swap(h, x);
}

/// Nothing has no part along anything.
proof fn lemma_nothing_forward(f: Vec3A)
    requires
        f.finite(),
    ensures
        !(Single { bits: 0 }).less(Vec3A::zero().dot(f)),
{
    let zero = Single { bits: 0 };
    let z = Vec3A::zero();
    assert(zero.value() == 0);
    assert(real_value(zero) == 0real);
    let (x, y, w) = (real_value(f.x), real_value(f.y), real_value(f.z));
    assert(0real * x == 0real && 0real * y == 0real && 0real * w == 0real) by (nonlinear_arith);
    lemma_product_close(zero, f.x);
    lemma_product_close(zero, f.y);
    lemma_product_close(zero, f.z);
    lemma_sum_close(zero.times(f.x), zero.times(f.y));
    lemma_sum_close(zero.times(f.x).plus(zero.times(f.y)), zero.times(f.z));
    lemma_order(zero, z.dot(f));
}

/// What the forward scales leave of 1.
proof fn lemma_weights(low: Single, high: Single)
    requires
        (Single { bits: 0 }).at_most(low),
        low.at_most(high),
        high.at_most(Single { bits: ONE_BITS }),
    ensures
        ({
            let one = Single { bits: ONE_BITS };
            let (more, less) = (one.minus(low), one.minus(high));
            &&& more.finite()
            &&& less.finite()
            &&& 0real <= real_value(less) <= real_value(more)
            &&& real_value(more) <= 1real
        }),
{
    let one = Single { bits: ONE_BITS };
    let zero = Single { bits: 0 };
    lemma_two();
    assert(zero.value() == 0);
    lemma_order(zero, low);
    lemma_order(low, high);
    lemma_order(high, one);
    assert(low.opposite().value() == -low.value() && high.opposite().value() == -high.value());
    lemma_sum_close(one, low.opposite());
    lemma_sum_close(one, high.opposite());
    let (more, less) = (one.minus(low), one.minus(high));
    law_sum_commutes(one, low.opposite());
    law_sum_commutes(one, high.opposite());
    law_sum_commutes(one, one.opposite());
    law_sum_commutes(one, zero.opposite());
    law_nothing_left(one);
    assert(zero.opposite().value() == 0);
    law_exact_sums_are_exact(one, zero.opposite(), one);
    law_sum_grows(one.opposite(), high.opposite(), one);
    law_sum_grows(high.opposite(), low.opposite(), one);
    law_sum_grows(low.opposite(), zero.opposite(), one);
    lemma_order(less, more);
    lemma_order(zero, less);
    lemma_order(more, one);
}

/// A smaller forward scale biases the hit forward: where the ball is ahead of the car, and the car's
/// forward axis has about unit length, the part of the hit direction along the axis is no less with
/// the smaller scale, up to 2^-15 for rounding.
pub proof fn law_smaller_forward_scale_turns_forward(ctx: HitContext, low: BallHitConfig, high: BallHitConfig)
    requires
        low == (BallHitConfig { forward_scale: low.forward_scale, ..high }),
        (Single { bits: 0 }).at_most(low.forward_scale),
        low.forward_scale.at_most(high.forward_scale),
        high.forward_scale.at_most(Single { bits: ONE_BITS }),
        ctx.car_forward.length_squared().at_most(Single { bits: 0x4000_0000 }),
        (Single { bits: 0 }).less(straight_direction(ctx, high).dot(ctx.car_forward)),
    ensures
        hit_direction(ctx, low).dot(ctx.car_forward).finite(),
        hit_direction(ctx, high).dot(ctx.car_forward).finite(),
        real_value(hit_direction(ctx, high).dot(ctx.car_forward)) <= real_value(
            hit_direction(ctx, low).dot(ctx.car_forward),
        ) + 1real / 32768real,
{
    let f = ctx.car_forward;
    let s = straight_direction(ctx, high);
    assert(straight_direction(ctx, low) == s);
    let one = Single { bits: ONE_BITS };
    let (more, less) = (one.minus(low.forward_scale), one.minus(high.forward_scale));
    let d = s.dot(f);
    lemma_axis(f);
    lemma_ahead(ctx, high);
    lemma_weights(low.forward_scale, high.forward_scale);
    let c1 = lemma_hit_side(s, f, d, more);
    let c2 = lemma_hit_side(s, f, d, less);
    let (dr, t1, t2) = (real_value(d), real_value(d) * real_value(more), real_value(d) * real_value(less));
    lemma_scaled(dr, real_value(less), real_value(more));
    lemma_both_positive(dr, real_value(less));
    assert(nudged_direction(ctx, low) == s.plus(f.scale(d).scale(more)));
    assert(nudged_direction(ctx, high) == s.plus(f.scale(d).scale(less)));
    lemma_compare(
        values(s),
        values(f),
        t1,
        t2,
        c1,
        c2,
        real_value(hit_direction(ctx, low).dot(f)),
        real_value(hit_direction(ctx, high).dot(f)),
        real_dot(s, f),
        real_dot(f, f),
        real_dot(s, s),
    );
}

/// The straight direction to a ball ahead.
proof fn lemma_ahead(ctx: HitContext, config: BallHitConfig)
    requires
        ctx.car_forward.finite(),
        all_within(ctx.car_forward, 3real / 2real),
        (Single { bits: 0 }).less(straight_direction(ctx, config).dot(ctx.car_forward)),
    ensures
        ({
            let s = straight_direction(ctx, config);
            let d = s.dot(ctx.car_forward);
            &&& s.finite()
            &&& all_within(s, 3real)
            &&& 1real <= 10real * real_dot(s, s)
            &&& d.finite()
            &&& 0real <= real_value(d) <= 16real
            &&& -42real <= 16777216real * real_dot(s, ctx.car_forward)
        }),
{
    let f = ctx.car_forward;
    let s = straight_direction(ctx, config);
    let one = Single { bits: ONE_BITS };
    let v = ctx.ball_pos.minus(ctx.car_pos).times(Vec3A { x: one, y: one, z: upward_scale(ctx, config) });
    assert(s == v.normalize_or_zero());
    if v.unit() is None {
        lemma_nothing_forward(f);
    }
    lemma_straight(v);
    let (sr, fr) = (values(s), values(f));
    lemma_bounded(sr.0, fr.0, 3real, 3real / 2real);
    lemma_bounded(sr.1, fr.1, 3real, 3real / 2real);
    lemma_bounded(sr.2, fr.2, 3real, 3real / 2real);
    lemma_dot_close(s, f, 9real / 2real);
    lemma_speck();
    let zero = Single { bits: 0 };
    assert(zero.value() == 0);
    lemma_order(zero, s.dot(f));
}

/// 2^40, far beyond any speed.
pub const FAST: u32 = 0x5380_0000;

proof fn lemma_fast()
    ensures
        real_value(Single { bits: FAST }) == 1099511627776real,
{
    lemma_units();
    assert(0x5380_0000int / 0x80_0000 == 167 && 0x5380_0000int % 0x80_0000 == 0);
    lemma_pow2_adds(23, 166);
    lemma_pow2_adds(32, 8);
    lemma_pow2_adds(40, 149);
    lemma2_to64();
    assert(pow2(23) == 0x80_0000);
    let (a, b) = (pow2(40), pow2(149));
    assert(pow2(32) * pow2(8) == 0x100_0000_0000) by (nonlinear_arith)
        requires
            pow2(32) == 0x1_0000_0000,
            pow2(8) == 0x100,
    ;
    assert(a == 0x100_0000_0000);
    assert(a * b == 0x100_0000_0000 * b);
}

/// One component of an impulse is near what it should be.
proof fn lemma_strength(h: Single, speed: Single, factor: Single)
    requires
        h.finite(),
        speed.finite(),
        factor.finite(),
        -102real <= 100real * real_value(h) <= 102real,
        0real <= real_value(speed) <= 1099511627776real,
        0real <= real_value(factor) <= 1099511627776real,
    ensures
        h.times(speed).times(factor).finite(),
        ({
            let g = real_value(speed) * real_value(factor);
            let e = 3real * g / 16777216real + 1real / 100000000000000000000real;
            -e <= real_value(h.times(speed).times(factor)) - real_value(h) * g <= e
        }),
{
    lemma_speck();
    let (hr, sr, kr, o) = (real_value(h), real_value(speed), real_value(factor), speck());
    let g = sr * kr;
    let a = hr * sr;
    lemma_bounded(hr, sr, 102real / 100real, 1099511627776real);
    lemma_product_close(h, speed);
    let p = h.times(speed);
    let pr = real_value(p);
    let e = size(a) / 16777216real + o;
    lemma_scaled(kr, pr - a, e);
    lemma_scaled(kr, -e, pr - a);
    lemma_spread(kr, pr, a);
    lemma_spread(kr, e, e);
    lemma_spread(kr, size(a) / 16777216real, o);
    assert(kr * (size(a) / 16777216real) == (kr * size(a)) / 16777216real) by (nonlinear_arith);
    lemma_sized(kr, a);
    lemma_scaled(o, kr, 1099511627776real);
    lemma_swap(o, kr);
    lemma_swap(o, 1099511627776real);
    let z = hr * g;
    assert(kr * (hr * sr) == hr * (sr * kr)) by (nonlinear_arith);
    lemma_both_positive(sr, kr);
    lemma_bounded(sr, kr, 1099511627776real, 1099511627776real);
    lemma_strength_part(hr, g);
    let x = pr * kr;
    lemma_swap(pr, kr);
    assert(-10000000000000000000000000real <= x <= 10000000000000000000000000real);
    lemma_product_close(p, factor);
}

proof fn lemma_strength_part(h: real, g: real)
    requires
        -102real <= 100real * h <= 102real,
        g >= 0real,
    ensures
        -(102real * g) <= 100real * (h * g) <= 102real * g,
{
    lemma_scaled(g, h, 102real / 100real);
    lemma_scaled(g, -102real / 100real, h);
    lemma_swap(g, h);
    lemma_swap(g, 102real / 100real);
    lemma_swap(g, -102real / 100real);
}

/// The part along `f` of an impulse is near that of its direction, times its strength.
proof fn lemma_impulse_side(h: Vec3A, f: Vec3A, speed: Single, factor: Single)
    requires
        h.finite(),
        f.finite(),
        all_within(h, 102real / 100real),
        all_within(f, 3real / 2real),
        speed.finite(),
        factor.finite(),
        0real <= real_value(speed) <= 1099511627776real,
        0real <= real_value(factor) <= 1099511627776real,
    ensures
        h.scale(speed).scale(factor).dot(f).finite(),
        ({
            let g = real_value(speed) * real_value(factor);
            let e = 60real * g / 16777216real + 1real / 10000000000000real;
            -e <= real_value(h.scale(speed).scale(factor).dot(f)) - real_value(h.dot(f)) * g <= e
        }),
{
    lemma_speck();
    let (hr, fr) = (values(h), values(f));
    let i = h.scale(speed).scale(factor);
    let ir = values(i);
    let g = real_value(speed) * real_value(factor);
    lemma_both_positive(real_value(speed), real_value(factor));
    lemma_bounded(real_value(speed), real_value(factor), 1099511627776real, 1099511627776real);
    lemma_strength(h.x, speed, factor);
    lemma_strength(h.y, speed, factor);
    lemma_strength(h.z, speed, factor);
    lemma_strength_part(hr.0, g);
    lemma_strength_part(hr.1, g);
    lemma_strength_part(hr.2, g);
    let e = 3real * g / 16777216real + 1real / 100000000000000000000real;
    let b = 103real * g / 100real + 1real / 100000000000000000000real;
    lemma_bounded(ir.0, fr.0, b, 3real / 2real);
    lemma_bounded(ir.1, fr.1, b, 3real / 2real);
    lemma_bounded(ir.2, fr.2, b, 3real / 2real);
    lemma_swap(b, 3real / 2real);
    let m = 3real * b / 2real;
    lemma_dot_close(i, f, m);
    lemma_bounded(hr.0, fr.0, 102real / 100real, 3real / 2real);
    lemma_bounded(hr.1, fr.1, 102real / 100real, 3real / 2real);
    lemma_bounded(hr.2, fr.2, 102real / 100real, 3real / 2real);
    lemma_dot_close(h, f, 153real / 100real);
    lemma_bounded(ir.0 - hr.0 * g, fr.0, e, 3real / 2real);
    lemma_bounded(ir.1 - hr.1 * g, fr.1, e, 3real / 2real);
    lemma_bounded(ir.2 - hr.2 * g, fr.2, e, 3real / 2real);
    lemma_swap(e, 3real / 2real);
    lemma_impulse_term(ir.0, hr.0, g, fr.0);
    lemma_impulse_term(ir.1, hr.1, g, fr.1);
    lemma_impulse_term(ir.2, hr.2, g, fr.2);
    let (t, d) = (real_dot(h, f), real_value(h.dot(f)));
    lemma_sum_times(hr.0 * fr.0, hr.1 * fr.1, hr.2 * fr.2, g);
    let o = 14real / 16777216real;
    lemma_scaled(g, t - d, o);
    lemma_scaled(g, -o, t - d);
    lemma_spread(g, t, d);
    lemma_swap(g, t);
    lemma_swap(g, d);
    lemma_swap(g, o);
    lemma_swap(g, -o);
    lemma_impulse_errors(g, real_value(i.dot(f)), real_dot(i, f), t * g, d * g);
}

proof fn lemma_impulse_term(i: real, h: real, g: real, f: real)
    ensures
        (i - h * g) * f == i * f - (h * f) * g,
{
    lemma_swap(i - h * g, f);
    lemma_spread(f, i, h * g);
    lemma_swap(f, i);
    assert(f * (h * g) == (h * f) * g) by (nonlinear_arith);
}

proof fn lemma_impulse_errors(g: real, j: real, x: real, t: real, d: real)
    requires
        g >= 0real,
        ({
            let b = 103real * g / 100real + 1real / 100000000000000000000real;
            let m = 3real * b / 2real;
            -(9real * m / 16777216real + 8real * speck()) <= j - x <= 9real * m / 16777216real + 8real * speck()
        }),
        ({
            let e = 3real * g / 16777216real + 1real / 100000000000000000000real;
            -(3real * (3real / 2real * e)) <= x - t <= 3real * (3real / 2real * e)
        }),
        -(14real / 16777216real * g) <= t - d <= 14real / 16777216real * g,
    ensures
        -(60real * g / 16777216real + 1real / 10000000000000real) <= j - d <= 60real * g / 16777216real + 1real
            / 10000000000000real,
{
    lemma_speck();
}

/// A smaller forward scale biases the impulse forward: where the ball is ahead of the car, and the
/// car's forward axis has about unit length, the part of the impulse along the axis is no less with
/// the smaller scale. For rounding this is up to a part in 2^14 of the strength of the impulse, which
/// is the relative speed times the factor, and 2^-40.
pub proof fn law_smaller_forward_scale_pushes_forward(ctx: HitContext, low: BallHitConfig, high: BallHitConfig)
    requires
        low == (BallHitConfig { forward_scale: low.forward_scale, ..high }),
        (Single { bits: 0 }).at_most(low.forward_scale),
        low.forward_scale.at_most(high.forward_scale),
        high.forward_scale.at_most(Single { bits: ONE_BITS }),
        ctx.car_forward.length_squared().at_most(Single { bits: 0x4000_0000 }),
        (Single { bits: 0 }).less(straight_direction(ctx, high).dot(ctx.car_forward)),
        (Single { bits: 0 }).less(relative_speed(ctx, high)),
        relative_speed(ctx, high).at_most(Single { bits: FAST }),
        (Single { bits: 0 }).at_most(high.factor_curve.output(relative_speed(ctx, high))),
        high.factor_curve.output(relative_speed(ctx, high)).at_most(Single { bits: FAST }),
    ensures
        hit_impulse(ctx, low).dot(ctx.car_forward).finite(),
        hit_impulse(ctx, high).dot(ctx.car_forward).finite(),
        ({
            let speed = relative_speed(ctx, high);
            let strength = real_value(speed) * real_value(high.factor_curve.output(speed));
            real_value(hit_impulse(ctx, high).dot(ctx.car_forward)) <= real_value(
                hit_impulse(ctx, low).dot(ctx.car_forward),
            ) + strength / 16384real + 1real / 1099511627776real
        }),
{
    let f = ctx.car_forward;
    let zero = Single { bits: 0 };
    let fast = Single { bits: FAST };
    let speed = relative_speed(ctx, high);
    let factor = high.factor_curve.output(speed);
    assert(relative_speed(ctx, low) == speed && low.factor_curve.output(speed) == factor);
    assert(zero.value() == 0);
    lemma_fast();
    lemma_order(zero, speed);
    lemma_order(speed, fast);
    lemma_order(zero, factor);
    lemma_order(factor, fast);
    lemma_axis(f);
    law_smaller_forward_scale_turns_forward(ctx, low, high);
    let (one, two) = (hit_direction(ctx, low), hit_direction(ctx, high));
    lemma_hit_within(ctx, low);
    lemma_hit_within(ctx, high);
    lemma_impulse_side(one, f, speed, factor);
    lemma_impulse_side(two, f, speed, factor);
    let g = real_value(speed) * real_value(factor);
    lemma_both_positive(real_value(speed), real_value(factor));
    let (x, y) = (real_value(one.dot(f)), real_value(two.dot(f)));
    lemma_scaled(g, y, x + 1real / 32768real);
    lemma_spread(g, x, 1real / 32768real);
    lemma_swap(g, x);
    lemma_swap(g, y);
    lemma_swap(g, 1real / 32768real);
}

/// A hit direction has about unit length at most.
proof fn lemma_hit_within(ctx: HitContext, config: BallHitConfig)
    requires
        (Single { bits: 0 }).at_most(config.forward_scale),
        config.forward_scale.at_most(Single { bits: ONE_BITS }),
        ctx.car_forward.length_squared().at_most(Single { bits: 0x4000_0000 }),
        (Single { bits: 0 }).less(straight_direction(ctx, config).dot(ctx.car_forward)),
    ensures
        hit_direction(ctx, config).finite(),
        all_within(hit_direction(ctx, config), 102real / 100real),
{
    let f = ctx.car_forward;
    let s = straight_direction(ctx, config);
    let weight = (Single { bits: ONE_BITS }).minus(config.forward_scale);
    lemma_axis(f);
    lemma_ahead(ctx, config);
    lemma_weights(config.forward_scale, config.forward_scale);
    let _c = lemma_hit_side(s, f, s.dot(f), weight);
    assert(nudged_direction(ctx, config) == s.plus(f.scale(s.dot(f)).scale(weight)));
}

/// The direction `s`, nudged toward `f`, with exact numbers: its dot product with `f`, and the square
/// of its length.
pub open spec fn exact_nudge(s: (real, real, real), f: (real, real, real), scale: real) -> (real, real) {
    let t = (s.0 * f.0 + s.1 * f.1 + s.2 * f.2) * (1real - scale);
    let y = (s.0 + f.0 * t, s.1 + f.1 * t, s.2 + f.2 * t);
    (y.0 * f.0 + y.1 * f.1 + y.2 * f.2, y.0 * y.0 + y.1 * y.1 + y.2 * y.2)
}

/// Without rounding a smaller forward scale leans strictly more toward the forward axis `f`, for a
/// direction `s` with a part along the axis that is not parallel to it: the part along the axis is
/// positive, and its square in proportion to that of the length is greater.
pub proof fn law_without_rounding_smaller_scales_lean_forward(
    s: (real, real, real),
    f: (real, real, real),
    low: real,
    high: real,
)
    requires
        s.0 * f.0 + s.1 * f.1 + s.2 * f.2 > 0real,
        ({
            let a = s.0 * f.0 + s.1 * f.1 + s.2 * f.2;
            let b = f.0 * f.0 + f.1 * f.1 + f.2 * f.2;
            let k = s.0 * s.0 + s.1 * s.1 + s.2 * s.2;
            a * a < b * k
        }),
        low < high <= 1real,
    ensures
        exact_nudge(s, f, low).0 > exact_nudge(s, f, high).0 > 0real,
        ({
            let (p1, q1) = exact_nudge(s, f, low);
            let (p2, q2) = exact_nudge(s, f, high);
            (p1 * p1) * q2 > (p2 * p2) * q1
        }),
{
    let a = s.0 * f.0 + s.1 * f.1 + s.2 * f.2;
    let b = f.0 * f.0 + f.1 * f.1 + f.2 * f.2;
    let k = s.0 * s.0 + s.1 * s.1 + s.2 * s.2;
    let (t1, t2) = (a * (1real - low), a * (1real - high));
    let (p1, q1) = exact_nudge(s, f, low);
    let (p2, q2) = exact_nudge(s, f, high);
    lemma_parts(s, f, t1);
    lemma_parts(s, f, t2);
    lemma_square_of_sum(a, 0real);
    lemma_square_of_sum(f.0, 0real);
    lemma_square_of_sum(f.1, 0real);
    lemma_square_of_sum(f.2, 0real);
    if b == 0real {
        assert(b * k == 0real) by (nonlinear_arith)
            requires
                b == 0real,
        ;
    }
    lemma_both_positive(a, 1real - high);
    lemma_both_positive(b, t2);
    lemma_greater(a, 1real - high, 1real - low);
    lemma_greater(b, t2, t1);
    lemma_lean(a, b, k, t1, p1, q1);
    lemma_lean(a, b, k, t2, p2, q2);
    let e = b * k - a * a;
    let (x, y) = (p1 * p1, p2 * p2);
    lemma_greater(p1, p2, p1);
    lemma_greater(p2, p2, p1);
    lemma_swap(p1, p2);
    assert(b * (x * q2) == x * (b * q2)) by (nonlinear_arith);
    assert(b * (y * q1) == y * (b * q1)) by (nonlinear_arith);
    lemma_spread(x, y, e);
    lemma_spread(y, x, e);
    lemma_swap(x, y);
    lemma_greater(e, y, x);
    lemma_swap(e, y);
    lemma_swap(e, x);
    if x * q2 <= y * q1 {
        lemma_scaled(b, x * q2, y * q1);
    }
}

} // verus!
