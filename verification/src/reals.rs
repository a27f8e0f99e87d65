//! Algebra of real numbers, a step at a time.
use crate::single_errors::size;
use vstd::prelude::*;

verus! {

/// Multiplying by something that is not negative keeps an order.
pub proof fn lemma_scaled(k: real, a: real, b: real)
    requires
        k >= 0real,
        a <= b,
    ensures
        k * a <= k * b,
{
    assert(k * a <= k * b) by (nonlinear_arith)
        requires
            k >= 0real,
            a <= b,
    ;
}

pub proof fn lemma_swap(a: real, b: real)
    ensures
        a * b == b * a,
{
    assert(a * b == b * a) by (nonlinear_arith);
}

pub proof fn lemma_spread(k: real, a: real, b: real)
    ensures
        k * (a + b) == k * a + k * b,
        k * (a - b) == k * a - k * b,
        k * (-a) == -(k * a),
        k * 0real == 0real,
{
    assert(k * (a + b) == k * a + k * b) by (nonlinear_arith);
    assert(k * (a - b) == k * a - k * b) by (nonlinear_arith);
    assert(k * (-a) == -(k * a)) by (nonlinear_arith);
    assert(k * 0real == 0real) by (nonlinear_arith);
}

pub proof fn lemma_regroup(a: real, b: real, c: real, d: real)
    ensures
        (a * b) * (c * d) == (a * c) * (b * d),
{
    assert((a * b) * (c * d) == (a * c) * (b * d)) by (nonlinear_arith);
}

pub proof fn lemma_over(k: real, a: real, b: real)
    requires
        k > 0real,
        k * a <= k * b,
    ensures
        a <= b,
{
    if a > b {
        assert(k * a > k * b) by (nonlinear_arith)
            requires
                k > 0real,
                a > b,
        ;
    }
}

pub proof fn lemma_square_of_sum(a: real, x: real)
    ensures
        (a + x) * (a + x) == a * a + 2real * (a * x) + x * x,
        a * a >= 0real,
{
    assert((a + x) * (a + x) == a * a + 2real * (a * x) + x * x) by (nonlinear_arith);
    assert(a * a >= 0real) by (nonlinear_arith);
}

pub proof fn lemma_both_positive(a: real, b: real)
    requires
        a >= 0real,
        b >= 0real,
    ensures
        a * b >= 0real,
{
    lemma_scaled(a, 0real, b);
    lemma_spread(a, b, b);
}

pub proof fn lemma_bounded(a: real, b: real, e: real, m: real)
    requires
        -e <= a <= e,
        -m <= b <= m,
    ensures
        -(e * m) <= a * b <= e * m,
{
    lemma_both_positive(e - a, m + b);
    lemma_both_positive(e + a, m - b);
    lemma_both_positive(e - a, m - b);
    lemma_both_positive(e + a, m + b);
    lemma_expand(e, a, m, b);
    lemma_expand(e, -a, m, b);
    lemma_expand(e, -a, m, -b);
    lemma_expand(e, a, m, -b);
    lemma_spread(a, b, b);
    lemma_spread(e, b, b);
    lemma_swap(-a, b);
    lemma_swap(a, b);
    lemma_spread(b, a, a);
    lemma_swap(-a, m);
    lemma_swap(a, m);
    lemma_spread(m, a, a);
    lemma_spread(-a, b, b);
}

pub proof fn lemma_expand(a: real, b: real, c: real, d: real)
    ensures
        (a + b) * (c + d) == a * c + a * d + b * c + b * d,
{
    assert((a + b) * (c + d) == a * c + a * d + b * c + b * d) by (nonlinear_arith);
}

pub proof fn lemma_sum_times(x: real, y: real, z: real, t: real)
    ensures
        (x + y + z) * t == x * t + y * t + z * t,
{
    lemma_swap(x + y + z, t);
    lemma_spread(t, x + y, z);
    lemma_spread(t, x, y);
    lemma_swap(x, t);
    lemma_swap(y, t);
    lemma_swap(z, t);
}

pub proof fn lemma_sized(c: real, y: real)
    requires
        c >= 0real,
    ensures
        c * size(y) == size(c * y),
{
    lemma_scaled(c, 0real, size(y));
    lemma_spread(c, y, y);
}

pub proof fn lemma_greater(k: real, a: real, b: real)
    requires
        k > 0real,
        a < b,
    ensures
        k * a < k * b,
{
    assert(k * a < k * b) by (nonlinear_arith)
        requires
            k > 0real,
            a < b,
    ;
}

pub proof fn lemma_cycle(a: real, b: real, c: real)
    ensures
        a * (b * c) == c * (a * b),
        a * (b * c) == b * (a * c),
        a * (b * c) == (a * b) * c,
{
    assert(a * (b * c) == c * (a * b)) by (nonlinear_arith);
    assert(a * (b * c) == b * (a * c)) by (nonlinear_arith);
    assert(a * (b * c) == (a * b) * c) by (nonlinear_arith);
}

/// One part of a triple product.
pub proof fn lemma_triple_part(a: real, b: real, c: real, d: real, e: real)
    ensures
        (a * b - c * d) * e == b * (e * a) - c * (e * d),
{
    lemma_swap(a * b - c * d, e);
    lemma_spread(e, a * b, c * d);
    lemma_cycle(e, a, b);
    lemma_cycle(e, c, d);
}

/// The square of a dot product is at most that of the lengths.
pub proof fn lemma_cauchy(s: (real, real, real), f: (real, real, real))
    ensures
        ({
            let a = s.0 * f.0 + s.1 * f.1 + s.2 * f.2;
            let b = f.0 * f.0 + f.1 * f.1 + f.2 * f.2;
            let k = s.0 * s.0 + s.1 * s.1 + s.2 * s.2;
            a * a <= b * k
        }),
{
    let (x, y, z) = s;
    let (u, v, w) = f;
    let (a, b, c) = (x * u, y * v, z * w);
    lemma_minor(x, y, u, v);
    lemma_minor(x, z, u, w);
    lemma_minor(y, z, v, w);
    lemma_square_of_sum(a + b, c);
    lemma_square_of_sum(a, b);
    assert((a + b) * c == a * c + b * c) by (nonlinear_arith);
    let (uu, vv, ww) = (u * u, v * v, w * w);
    let (xx, yy, zz) = (x * x, y * y, z * z);
    assert((uu + vv + ww) * (xx + yy + zz) == uu * (xx + yy + zz) + vv * (xx + yy + zz) + ww * (xx + yy + zz))
        by (nonlinear_arith);
    assert(uu * (xx + yy + zz) == uu * xx + uu * yy + uu * zz) by (nonlinear_arith);
    assert(vv * (xx + yy + zz) == vv * xx + vv * yy + vv * zz) by (nonlinear_arith);
    assert(ww * (xx + yy + zz) == ww * xx + ww * yy + ww * zz) by (nonlinear_arith);
    assert((u * u) * (x * x) == (x * u) * (x * u)) by (nonlinear_arith);
    assert((v * v) * (y * y) == (y * v) * (y * v)) by (nonlinear_arith);
    assert((w * w) * (z * z) == (z * w) * (z * w)) by (nonlinear_arith);
}

proof fn lemma_minor(x: real, y: real, u: real, v: real)
    ensures
        2real * ((x * u) * (y * v)) <= (v * v) * (x * x) + (u * u) * (y * y),
{
    let (p, q) = (x * v, y * u);
    assert((p - q) * (p - q) >= 0real) by (nonlinear_arith);
    assert((p - q) * (p - q) == p * p - 2real * (p * q) + q * q) by (nonlinear_arith);
    assert((x * v) * (x * v) == (v * v) * (x * x)) by (nonlinear_arith);
    assert((y * u) * (y * u) == (u * u) * (y * y)) by (nonlinear_arith);
    assert((x * v) * (y * u) == (x * u) * (y * v)) by (nonlinear_arith);
}

proof fn lemma_area(a: real, b: real, c: real, d: real)
    ensures
        (a * d - c * b) * (a * d - c * b) == (a * a) * (d * d) + (b * b) * (c * c) - 2real * ((a * c) * (b * d)),
{
    let (p, q) = (a * d, c * b);
    assert((p - q) * (p - q) == p * p - 2real * (p * q) + q * q) by (nonlinear_arith);
    lemma_regroup(a, d, a, d);
    lemma_regroup(c, b, c, b);
    lemma_swap(c * c, b * b);
    lemma_regroup(a, d, c, b);
    lemma_swap(d, b);
}

/// A vector product is no longer than its factors make it.
pub proof fn lemma_outer_length(p: (real, real, real), q: (real, real, real))
    ensures
        ({
            let o = (p.1 * q.2 - q.1 * p.2, p.2 * q.0 - q.2 * p.0, p.0 * q.1 - q.0 * p.1);
            o.0 * o.0 + o.1 * o.1 + o.2 * o.2 <= (p.0 * p.0 + p.1 * p.1 + p.2 * p.2) * (q.0 * q.0 + q.1 * q.1 + q.2 * q.2)
        }),
{
    lemma_area(p.1, p.2, q.1, q.2);
    lemma_area(p.2, p.0, q.2, q.0);
    lemma_area(p.0, p.1, q.0, q.1);
    let (a, b, c) = (p.0 * p.0, p.1 * p.1, p.2 * p.2);
    let (x, y, z) = (q.0 * q.0, q.1 * q.1, q.2 * q.2);
    let (s, t, u) = (p.0 * q.0, p.1 * q.1, p.2 * q.2);
    lemma_sum_times(a, b, c, x + y + z);
    lemma_spread(a, x + y, z);
    lemma_spread(a, x, y);
    lemma_spread(b, x + y, z);
    lemma_spread(b, x, y);
    lemma_spread(c, x + y, z);
    lemma_spread(c, x, y);
    lemma_regroup(p.0, q.0, p.0, q.0);
    lemma_regroup(p.1, q.1, p.1, q.1);
    lemma_regroup(p.2, q.2, p.2, q.2);
    lemma_square_of_sum(s + t, u);
    lemma_square_of_sum(s, t);
    lemma_swap(s + t, u);
    lemma_spread(u, s, t);
    lemma_swap(u, s);
    lemma_swap(u, t);
    lemma_square_of_sum(s + t + u, 0real);
}

} // verus!
