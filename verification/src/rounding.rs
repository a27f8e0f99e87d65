//! Rounding of exact numbers to IEEE 754 single precision.
//!
//! A magnitude is a bit pattern without its sign: an integer `k` from 0 up to
//! [`INFINITY_MAGNITUDE`]. Measured in units of 2^-149, the smallest positive single, every
//! finite magnitude is a whole number, [`quanta`], so the arithmetic below is about integers.
use vstd::arithmetic::power2::{lemma_pow2_adds, lemma_pow2_pos, lemma_pow2_strictly_increases, lemma_pow2_unfold, pow2};
use vstd::prelude::*;

verus! {

/// The bit pattern of positive infinity, and the largest magnitude that is no NaN.
pub const INFINITY_MAGNITUDE: u32 = 0x7f80_0000;

/// The value of the magnitude `k`, in units of 2^-149. Infinity counts as 2^277, the number
/// that would follow the largest finite one: this is how IEEE 754 decides about overflow.
pub open spec fn quanta(k: int) -> int {
    if k < 0x80_0000 {
        k
    } else {
        (0x80_0000 + k % 0x80_0000) * pow2((k / 0x80_0000 - 1) as nat)
    }
}

/// Twice the number halfway between the magnitude `k` and the next one.
pub open spec fn double_midpoint(k: int) -> int {
    quanta(k) + quanta(k + 1)
}

/// `k` is the magnitude closest to `n / d` units, and the even one of two that are equally
/// close.
pub open spec fn is_nearest(k: int, n: int, d: int) -> bool {
    &&& 0 <= k <= INFINITY_MAGNITUDE
    &&& k > 0 ==> {
        ||| double_midpoint(k - 1) * d < 2 * n
        ||| double_midpoint(k - 1) * d == 2 * n && k % 2 == 0
    }
    &&& k < INFINITY_MAGNITUDE ==> {
        ||| 2 * n < double_midpoint(k) * d
        ||| 2 * n == double_midpoint(k) * d && k % 2 == 0
    }
}

/// The magnitude closest to `n / d` units.
pub open spec fn nearest(n: int, d: int) -> int {
    choose|k: int| is_nearest(k, n, d)
}

/// `k` is the magnitude closest to the square root of `n` units, and the even one of two that
/// are equally close.
pub open spec fn is_nearest_root(k: int, n: int) -> bool {
    &&& 0 <= k <= INFINITY_MAGNITUDE
    &&& k > 0 ==> {
        ||| double_midpoint(k - 1) * double_midpoint(k - 1) < 4 * n
        ||| double_midpoint(k - 1) * double_midpoint(k - 1) == 4 * n && k % 2 == 0
    }
    &&& k < INFINITY_MAGNITUDE ==> {
        ||| 4 * n < double_midpoint(k) * double_midpoint(k)
        ||| 4 * n == double_midpoint(k) * double_midpoint(k) && k % 2 == 0
    }
}

/// The magnitude closest to the square root of `n` units.
pub open spec fn nearest_root(n: int) -> int {
    choose|k: int| is_nearest_root(k, n)
}

/// The part of 2^`e` above the binary point.
pub open spec fn scale_up(e: int) -> int {
    pow2((if e > 0 { e } else { 0 }) as nat) as int
}

/// The part of 2^`e` below the binary point, inverted.
pub open spec fn scale_down(e: int) -> int {
    pow2((if e < 0 { -e } else { 0 }) as nat) as int
}

/// `k` is the magnitude closest to every number that `m`, `e` and `inexact` leave open: the
/// number `m * 2^e` itself, or with `inexact` all those strictly between it and
/// `(m + 1) * 2^e`.
pub open spec fn rounds_interval(k: int, m: int, e: int, inexact: bool) -> bool {
    &&& 0 <= k <= INFINITY_MAGNITUDE
    &&& k > 0 ==> {
        ||| double_midpoint(k - 1) * scale_down(e) < 2 * m * scale_up(e)
        ||| double_midpoint(k - 1) * scale_down(e) == 2 * m * scale_up(e) && (inexact || k % 2 == 0)
    }
    &&& k < INFINITY_MAGNITUDE ==> {
        if inexact {
            double_midpoint(k) * scale_down(e) >= 2 * (m + 1) * scale_up(e)
        } else {
            ||| double_midpoint(k) * scale_down(e) > 2 * m * scale_up(e)
            ||| double_midpoint(k) * scale_down(e) == 2 * m * scale_up(e) && k % 2 == 0
        }
    }
}

/// A significand of at most 24 bits and an exponent give the magnitude that they stand for and
/// the next one.
pub proof fn lemma_quanta_parts(q: int, e: int)
    requires
        0 <= q < 0x100_0000,
        e >= 0,
        q >= 0x80_0000 || e == 0,
    ensures
        quanta(e * 0x80_0000 + q) == q * pow2(e as nat),
        quanta(e * 0x80_0000 + q + 1) == (q + 1) * pow2(e as nat),
{
    lemma_pow2_adds(e as nat, 1);
    assert(pow2(0) == 1 && pow2(1) == 2) by {
        vstd::arithmetic::power2::lemma2_to64();
    }
    let k = e * 0x80_0000 + q;
    if q < 0x80_0000 {
        assert(k == q);
    } else {
        assert(k / 0x80_0000 == e + 1 && k % 0x80_0000 == q - 0x80_0000);
        if q + 1 < 0x100_0000 {
            assert((k + 1) / 0x80_0000 == e + 1 && (k + 1) % 0x80_0000 == q + 1 - 0x80_0000);
        } else {
            assert((k + 1) / 0x80_0000 == e + 2 && (k + 1) % 0x80_0000 == 0);
            assert(quanta(k + 1) == 0x80_0000 * pow2((e + 1) as nat));
            assert(0x80_0000 * (pow2(e as nat) * 2) == 0x100_0000 * pow2(e as nat));
        }
    }
}

/// A greater magnitude has a greater value.
pub proof fn lemma_quanta_next(k: int)
    requires
        k >= 0,
    ensures
        0 <= quanta(k) < quanta(k + 1),
{
    let e: int = if k < 0x80_0000 { 0 } else { k / 0x80_0000 - 1 };
    let q = k - e * 0x80_0000;
    assert(0 <= q < 0x100_0000 && (q >= 0x80_0000 || e == 0));
    lemma_quanta_parts(q, e);
    lemma_pow2_pos(e as nat);
    let p = pow2(e as nat) as int;
    assert(0 <= q * p < (q + 1) * p) by (nonlinear_arith)
        requires
            p > 0,
            q >= 0,
    ;
}

/// Values grow with magnitudes.
pub proof fn lemma_quanta_grows(k: int, l: int)
    requires
        0 <= k < l,
    ensures
        0 <= quanta(k) < quanta(l),
    decreases l - k,
{
    lemma_quanta_next(k);
    if k + 1 < l {
        lemma_quanta_grows(k + 1, l);
    }
}

/// Two different magnitudes are never both the closest one.
pub proof fn lemma_nearest_unique(k: int, n: int, d: int)
    requires
        is_nearest(k, n, d),
        d > 0,
    ensures
        nearest(n, d) == k,
{
    let l = nearest(n, d);
    assert(is_nearest(l, n, d));
    lemma_nearest_not_below(l, k, n, d);
    lemma_nearest_not_below(k, l, n, d);
}

proof fn lemma_midpoints_grow(k: int, l: int)
    requires
        0 <= k < l,
    ensures
        double_midpoint(k) <= double_midpoint(l - 1),
        k + 1 < l ==> double_midpoint(k) < double_midpoint(l - 1),
        0 < double_midpoint(k),
{
    lemma_quanta_next(k);
    if k + 1 < l {
        lemma_quanta_grows(k, l - 1);
        lemma_quanta_grows(k + 1, l);
    }
}

proof fn lemma_nearest_not_below(k: int, l: int, n: int, d: int)
    requires
        is_nearest(k, n, d),
        is_nearest(l, n, d),
        d > 0,
    ensures
        k >= l,
{
    if k < l {
        lemma_midpoints_grow(k, l);
        let a = double_midpoint(k);
        let b = double_midpoint(l - 1);
        assert(a < b ==> a * d < b * d) by (nonlinear_arith)
            requires
                d > 0,
        ;
        assert(a * d >= 2 * n && b * d <= 2 * n);
        assert(a == b);
        assert(l == k + 1);
    }
}

/// Two different magnitudes are never both the closest one to a square root.
pub proof fn lemma_nearest_root_unique(k: int, n: int)
    requires
        is_nearest_root(k, n),
    ensures
        nearest_root(n) == k,
{
    let l = nearest_root(n);
    assert(is_nearest_root(l, n));
    lemma_nearest_root_not_below(l, k, n);
    lemma_nearest_root_not_below(k, l, n);
}

proof fn lemma_nearest_root_not_below(k: int, l: int, n: int)
    requires
        is_nearest_root(k, n),
        is_nearest_root(l, n),
    ensures
        k >= l,
{
    if k < l {
        lemma_midpoints_grow(k, l);
        let a = double_midpoint(k);
        let b = double_midpoint(l - 1);
        assert(a < b ==> a * a < b * b) by (nonlinear_arith)
            requires
                0 < a,
        ;
        assert(a == b);
        assert(l == k + 1);
    }
}

/// An interval that holds `n / d` rounds as `n / d` does.
pub proof fn lemma_interval_nearest(k: int, m: int, e: int, inexact: bool, n: int, d: int)
    requires
        rounds_interval(k, m, e, inexact),
        d > 0,
        inexact ==> d * m * scale_up(e) < n * scale_down(e) < d * (m + 1) * scale_up(e),
        !inexact ==> d * m * scale_up(e) == n * scale_down(e),
    ensures
        is_nearest(k, n, d),
        nearest(n, d) == k,
{
    let up = scale_up(e);
    let down = scale_down(e);
    lemma_pow2_pos((if e > 0 { e } else { 0 }) as nat);
    lemma_pow2_pos((if e < 0 { -e } else { 0 }) as nat);
    if k > 0 {
        let c = double_midpoint(k - 1);
        lemma_scaled_compare(c, m, up, down, n, d);
    }
    if k < INFINITY_MAGNITUDE {
        let c = double_midpoint(k);
        lemma_scaled_compare(c, m, up, down, n, d);
        lemma_scaled_compare(c, m + 1, up, down, n, d);
    }
    lemma_nearest_unique(k, n, d);
}

/// Comparing `c` with `2 m` after scaling tells how `c / 2` compares with `n / d`.
proof fn lemma_scaled_compare(c: int, m: int, up: int, down: int, n: int, d: int)
    requires
        up > 0,
        down > 0,
        d > 0,
    ensures
        c * down <= 2 * m * up && d * m * up <= n * down ==> c * d <= 2 * n,
        c * down < 2 * m * up && d * m * up <= n * down ==> c * d < 2 * n,
        c * down <= 2 * m * up && d * m * up < n * down ==> c * d < 2 * n,
        c * down >= 2 * m * up && d * m * up >= n * down ==> c * d >= 2 * n,
        c * down > 2 * m * up && d * m * up >= n * down ==> c * d > 2 * n,
        c * down >= 2 * m * up && d * m * up > n * down ==> c * d > 2 * n,
{
    let x = c * down;
    let y = 2 * m * up;
    let z = d * m * up;
    let w = n * down;
    assert(x * d == (c * d) * down) by (nonlinear_arith)
        requires
            x == c * down,
    ;
    assert(y * d == 2 * z) by (nonlinear_arith)
        requires
            y == 2 * m * up,
            z == d * m * up,
    ;
    assert(2 * w == (2 * n) * down) by (nonlinear_arith)
        requires
            w == n * down,
    ;
    assert((x <= y ==> x * d <= y * d) && (x < y ==> x * d < y * d) && (x >= y ==> x * d >= y * d) && (x > y
        ==> x * d > y * d)) by (nonlinear_arith)
        requires
            d > 0,
    ;
    let p = c * d;
    let r = 2 * n;
    assert((p * down <= r * down ==> p <= r) && (p * down < r * down ==> p < r) && (p * down >= r * down ==> p >= r)
        && (p * down > r * down ==> p > r)) by (nonlinear_arith)
        requires
            down > 0,
    ;
}

/// An interval that holds the square root of `n` rounds as the square root does.
pub proof fn lemma_interval_nearest_root(k: int, m: int, e: int, inexact: bool, n: int)
    requires
        rounds_interval(k, m, e, inexact),
        m >= 0,
        e >= 0,
        inexact ==> (m * pow2(e as nat)) * (m * pow2(e as nat)) < n < ((m + 1) * pow2(e as nat)) * ((m + 1) * pow2(
            e as nat,
        )),
        !inexact ==> (m * pow2(e as nat)) * (m * pow2(e as nat)) == n,
    ensures
        is_nearest_root(k, n),
        nearest_root(n) == k,
{
    assert(pow2(0) == 1) by {
        vstd::arithmetic::power2::lemma2_to64();
    }
    lemma_pow2_pos(e as nat);
    let p = pow2(e as nat) as int;
    assert(scale_down(e) == 1 && scale_up(e) == p);
    let x = m * p;
    let y = (m + 1) * p;
    assert(2 * m * p == 2 * x && 2 * (m + 1) * p == 2 * y) by (nonlinear_arith)
        requires
            x == m * p,
            y == (m + 1) * p,
    ;
    assert(x >= 0 && y >= 0) by (nonlinear_arith)
        requires
            x == m * p,
            y == (m + 1) * p,
            m >= 0,
            p > 0,
    ;
    if k > 0 {
        let c = double_midpoint(k - 1);
        lemma_midpoints_grow(k - 1, k);
        assert(c * 1 == c);
        lemma_square_compare(c, 2 * x);
        assert((2 * x) * (2 * x) == 4 * (x * x)) by (nonlinear_arith);
    }
    if k < INFINITY_MAGNITUDE {
        let c = double_midpoint(k);
        lemma_midpoints_grow(k, k + 1);
        assert(c * 1 == c);
        lemma_square_compare(c, 2 * x);
        lemma_square_compare(c, 2 * y);
        assert((2 * x) * (2 * x) == 4 * (x * x)) by (nonlinear_arith);
        assert((2 * y) * (2 * y) == 4 * (y * y)) by (nonlinear_arith);
    }
    lemma_nearest_root_unique(k, n);
}

proof fn lemma_square_compare(a: int, b: int)
    requires
        a >= 0,
        b >= 0,
    ensures
        a < b ==> a * a < b * b,
        a <= b ==> a * a <= b * b,
        a > b ==> a * a > b * b,
        a >= b ==> a * a >= b * b,
        a == b ==> a * a == b * b,
{
    assert((a < b ==> a * a < b * b) && (a > b ==> a * a > b * b)) by (nonlinear_arith)
        requires
            a >= 0,
            b >= 0,
    ;
}

/// The scales of `e` meet at the exponent `e + s`.
pub proof fn lemma_scales_meet(e: int, s: int)
    requires
        s >= 0,
        e + s >= 0,
    ensures
        scale_up(e) > 0,
        scale_down(e) > 0,
        pow2(s as nat) * scale_up(e) == pow2((e + s) as nat) * scale_down(e),
{
    let a = (if e > 0 { e } else { 0 }) as nat;
    let b = (if e < 0 { -e } else { 0 }) as nat;
    lemma_pow2_pos(a);
    lemma_pow2_pos(b);
    lemma_pow2_adds(s as nat, a);
    lemma_pow2_adds((e + s) as nat, b);
    assert(s as nat + a == (e + s) as nat + b);
}

proof fn lemma_round_down(q: int, rem: int, s: int, m: int, e: int, inexact: bool)
    requires
        0 <= q < 0x100_0000,
        s >= 0,
        0 <= e + s <= 253,
        q >= 0x80_0000 || e + s == 0,
        0 <= rem < pow2(s as nat),
        m == q * pow2(s as nat) + rem,
        2 * rem < pow2(s as nat) || 2 * rem == pow2(s as nat) && !inexact && q % 2 == 0,
        inexact ==> s >= 1,
    ensures
        rounds_interval((e + s) * 0x80_0000 + q, m, e, inexact),
{
    let k = (e + s) * 0x80_0000 + q;
    let p = pow2(s as nat) as int;
    let up = scale_up(e);
    let down = scale_down(e);
    let t = pow2((e + s) as nat) as int;
    lemma_scales_meet(e, s);
    lemma_quanta_parts(q, e + s);
    if s >= 1 {
        lemma_pow2_unfold(s as nat);
    }
    assert((q * t) * down == q * (p * up)) by (nonlinear_arith)
        requires
            p * up == t * down,
    ;
    assert(m * up == q * (p * up) + rem * up) by (nonlinear_arith)
        requires
            m == q * p + rem,
    ;
    assert(rem * up >= 0) by (nonlinear_arith)
        requires
            rem >= 0,
            up > 0,
    ;
    assert(2 * m * up == 2 * (m * up)) by (nonlinear_arith);
    if k > 0 {
        lemma_quanta_next(k - 1);
        let c = double_midpoint(k - 1);
        assert(c < 2 * (q * t));
        assert(c * down < 2 * ((q * t) * down)) by (nonlinear_arith)
            requires
                c < 2 * (q * t),
                down > 0,
        ;
    }
    let c = double_midpoint(k);
    assert(c * down == 2 * ((q * t) * down) + t * down) by (nonlinear_arith)
        requires
            c == q * t + (q + 1) * t,
    ;
    if inexact {
        assert(2 * (m + 1) * up == 2 * (m * up) + 2 * up) by (nonlinear_arith);
        assert(2 * (rem * up) + 2 * up <= p * up) by (nonlinear_arith)
            requires
                2 * rem + 2 <= p,
                up > 0,
        ;
    } else {
        assert((2 * rem < p ==> 2 * (rem * up) < p * up) && (2 * rem == p ==> 2 * (rem * up) == p * up))
            by (nonlinear_arith)
            requires
                up > 0,
        ;
    }
}

proof fn lemma_round_up(q: int, rem: int, s: int, m: int, e: int, inexact: bool)
    requires
        0 <= q < 0x100_0000,
        s >= 1,
        0 <= e + s <= 253,
        q >= 0x80_0000 || e + s == 0,
        0 <= rem < pow2(s as nat),
        m == q * pow2(s as nat) + rem,
        2 * rem > pow2(s as nat) || 2 * rem == pow2(s as nat) && (inexact || q % 2 != 0),
    ensures
        rounds_interval((e + s) * 0x80_0000 + q + 1, m, e, inexact),
{
    let k = (e + s) * 0x80_0000 + q;
    let p = pow2(s as nat) as int;
    let up = scale_up(e);
    let down = scale_down(e);
    let t = pow2((e + s) as nat) as int;
    lemma_scales_meet(e, s);
    lemma_quanta_parts(q, e + s);
    assert((q * t) * down == q * (p * up)) by (nonlinear_arith)
        requires
            p * up == t * down,
    ;
    assert(m * up == q * (p * up) + rem * up) by (nonlinear_arith)
        requires
            m == q * p + rem,
    ;
    assert(2 * m * up == 2 * (m * up)) by (nonlinear_arith);
    let c = double_midpoint(k);
    assert(c * down == 2 * ((q * t) * down) + t * down) by (nonlinear_arith)
        requires
            c == q * t + (q + 1) * t,
    ;
    assert((2 * rem > p ==> 2 * (rem * up) > p * up) && (2 * rem == p ==> 2 * (rem * up) == p * up))
        by (nonlinear_arith)
        requires
            up > 0,
    ;
    if k + 1 < INFINITY_MAGNITUDE {
        lemma_quanta_next(k + 1);
        let c2 = double_midpoint(k + 1);
        assert(c2 * down > 2 * ((q * t) * down) + 2 * (t * down)) by (nonlinear_arith)
            requires
                c2 > 2 * ((q + 1) * t),
                down > 0,
        ;
        assert(2 * (m + 1) * up == 2 * (m * up) + 2 * up) by (nonlinear_arith);
        assert(rem * up + up <= p * up) by (nonlinear_arith)
            requires
                rem + 1 <= p,
                up > 0,
        ;
    }
}

proof fn lemma_round_overflow(s: int, m: int, e: int, inexact: bool)
    requires
        s >= 0,
        e + s > 253,
        m >= 0x80_0000 * pow2(s as nat),
    ensures
        rounds_interval(INFINITY_MAGNITUDE as int, m, e, inexact),
{
    let p = pow2(s as nat) as int;
    let up = scale_up(e);
    let down = scale_down(e);
    let t = pow2((e + s) as nat) as int;
    lemma_scales_meet(e, s);
    lemma_quanta_next(INFINITY_MAGNITUDE - 1);
    lemma_quanta_parts(0xff_ffff, 253);
    lemma_pow2_adds(253, 1);
    assert(pow2(1) == 2) by {
        vstd::arithmetic::power2::lemma2_to64();
    }
    if e + s > 254 {
        lemma_pow2_strictly_increases(254, (e + s) as nat);
    }
    let c = double_midpoint(INFINITY_MAGNITUDE - 1);
    assert(c < 2 * (0x80_0000 * t));
    assert(c * down < 2 * (0x80_0000 * (t * down))) by (nonlinear_arith)
        requires
            c < 2 * (0x80_0000 * t),
            down > 0,
    ;
    assert(2 * m * up >= 2 * (0x80_0000 * (p * up))) by (nonlinear_arith)
        requires
            m >= 0x80_0000 * p,
            up > 0,
    ;
}

proof fn lemma_round_tiny(m: int, e: int, inexact: bool)
    requires
        0 <= m < pow2(126),
        e <= -127,
    ensures
        rounds_interval(0, m, e, inexact),
{
    assert(pow2(0) == 1 && pow2(1) == 2) by {
        vstd::arithmetic::power2::lemma2_to64();
    }
    lemma_pow2_adds(126, 1);
    if e < -127 {
        lemma_pow2_strictly_increases(127, (-e) as nat);
    }
    assert(scale_up(e) == 1);
    assert(double_midpoint(0) == 1);
}

/// Halving a quotient by a power of two is dividing by the next power.
proof fn lemma_halve_quotient(m: int, s: nat)
    requires
        m >= 0,
    ensures
        (m / (pow2(s) as int)) / 2 == m / (pow2(s + 1) as int),
{
    lemma_pow2_pos(s);
    lemma_pow2_unfold(s + 1);
    vstd::arithmetic::div_mod::lemma_div_denominator(m, pow2(s) as int, 2);
}

/// The power of two `2^s`.
pub fn power_of_two(s: u32) -> (r: u128)
    requires
        s <= 126,
    ensures
        r == pow2(s as nat),
{
    proof {
        lemma_one_shifted(s as nat);
    }
    1u128 << s
}

proof fn lemma_one_shifted(s: nat)
    requires
        s <= 126,
    ensures
        1u128 << (s as u32) == pow2(s),
    decreases s,
{
    assert(pow2(0) == 1) by {
        vstd::arithmetic::power2::lemma2_to64();
    }
    let t = s as u32;
    if s == 0 {
        assert(1u128 << 0u32 == 1u128) by (bit_vector);
    } else {
        lemma_one_shifted((s - 1) as nat);
        lemma_pow2_unfold(s);
        assert(1u128 << t == 2 * (1u128 << ((t - 1) as u32))) by (bit_vector)
            requires
                1 <= t <= 126,
        ;
    }
}

/// Rounds the number that `m`, `e` and `inexact` describe: `m * 2^e` units, or with `inexact`
/// something strictly between that and `(m + 1) * 2^e` units.
pub fn round_magnitude(m: u128, e: i32, inexact: bool) -> (k: u32)
    requires
        m < pow2(126),
        -1000 <= e <= 1000,
        inexact ==> m >= 0x200_0000,
    ensures
        rounds_interval(k as int, m as int, e as int, inexact),
{
    assert(pow2(0) == 1) by {
        vstd::arithmetic::power2::lemma2_to64();
    }
    if m == 0 {
        proof {
            lemma_scales_meet(e as int, if e < 0 { -e as int } else { 0 });
            assert(2 * m * scale_up(e as int) == 0) by (nonlinear_arith)
                requires
                    m == 0,
            ;
        }
        return 0;
    }
    if e <= -127 {
        proof {
            lemma_round_tiny(m as int, e as int, inexact);
        }
        return 0;
    }
    let mut w: u128 = m;
    let mut f: i32 = e;
    // A short significand keeps its value when the exponent goes down.
    while w < 0x80_0000 && f > 0
        invariant
            0 < w,
            w < 0x100_0000 || w == m && f == e,
            inexact ==> m >= 0x200_0000,
            f <= e <= 1000,
            -127 < e,
            f != e ==> 0 <= f,
            f == e ==> w == m,
            f != e ==> m < 0x80_0000,
            e > 0 ==> w * pow2(f as nat) == m * pow2(e as nat),
        decreases f,
    {
        proof {
            lemma_pow2_unfold(f as nat);
            let p = pow2((f - 1) as nat) as int;
            assert(w * (2 * p) == (2 * w) * p) by (nonlinear_arith);
        }
        w = 2 * w;
        f = f - 1;
    }
    assert(0x100_0000 < pow2(126)) by {
        vstd::arithmetic::power2::lemma2_to64();
        lemma_pow2_strictly_increases(24, 126);
    }
    let mut q: u128 = w;
    let mut s: u32 = 0;
    assert(w as int / 1 == w);
    while q >= 0x100_0000 || f + (s as i32) < 0
        invariant
            s <= 126,
            q == w as int / (pow2(s as nat) as int),
            0 < w < pow2(126),
            -127 < f <= 1000,
            s > 0 ==> w as int / (pow2((s - 1) as nat) as int) >= 0x100_0000 || f + s - 1 < 0,
        decreases 127 - s,
    {
        proof {
            if s == 126 {
                vstd::arithmetic::div_mod::lemma_basic_div(w as int, pow2(126) as int);
            }
            lemma_halve_quotient(w as int, s as nat);
        }
        q = q / 2;
        s = s + 1;
    }
    proof {
        if s > 0 {
            lemma_halve_quotient(w as int, (s - 1) as nat);
        }
    }
    let p: u128 = power_of_two(s);
    proof {
        lemma_pow2_pos(s as nat);
        vstd::arithmetic::div_mod::lemma_fundamental_div_mod(w as int, p as int);
        vstd::arithmetic::div_mod::lemma_mod_bound(w as int, p as int);
        assert(p * q == q * p) by (nonlinear_arith);
        assert(q * p <= w);
    }
    let rem: u128 = w - q * p;
    let g: i32 = f + (s as i32);
    let mut k: u32 = INFINITY_MAGNITUDE;
    if g <= 253 {
        let up: bool = rem > p - rem || rem == p - rem && (inexact || q % 2 == 1);
        let base: u32 = (g as u32) * 0x80_0000 + (q as u32);
        if up {
            proof {
                lemma_round_up(q as int, rem as int, s as int, w as int, f as int, inexact);
            }
            k = base + 1;
        } else {
            proof {
                lemma_round_down(q as int, rem as int, s as int, w as int, f as int, inexact);
            }
            k = base;
        }
    } else {
        proof {
            assert(q >= 0x80_0000);
            assert(w >= 0x80_0000 * p) by (nonlinear_arith)
                requires
                    w >= q * p,
                    q >= 0x80_0000,
                    p > 0,
            ;
            lemma_round_overflow(s as int, w as int, f as int, inexact);
        }
    }
    proof {
        if f != e {
            assert(scale_up(e as int) == pow2(e as nat) && scale_up(f as int) == pow2(f as nat));
            assert(2 * w * pow2(f as nat) == 2 * (w * pow2(f as nat))) by (nonlinear_arith);
            assert(2 * m * pow2(e as nat) == 2 * (m * pow2(e as nat))) by (nonlinear_arith);
        }
    }
    k
}

/// No smaller magnitude than `k` is closest to `n / d`.
spec fn not_below(k: int, n: int, d: int) -> bool {
    k > 0 ==> {
        ||| double_midpoint(k - 1) * d < 2 * n
        ||| double_midpoint(k - 1) * d == 2 * n && k % 2 == 0
    }
}

proof fn lemma_nearest_from(k: int, n: int, d: int)
    requires
        0 <= k <= INFINITY_MAGNITUDE,
        not_below(k, n, d),
    ensures
        is_nearest(nearest(n, d), n, d),
    decreases INFINITY_MAGNITUDE - k,
{
    if is_nearest(k, n, d) {
    } else {
        assert(k < INFINITY_MAGNITUDE);
        assert(not_below(k + 1, n, d));
        lemma_nearest_from(k + 1, n, d);
    }
}

/// There always is a closest magnitude.
pub proof fn lemma_nearest_exists(n: int, d: int)
    ensures
        is_nearest(nearest(n, d), n, d),
{
    lemma_nearest_from(0, n, d);
}

/// A greater number has no smaller closest magnitude.
pub proof fn lemma_nearest_grows(n: int, m: int, d: int)
    requires
        n <= m,
        d > 0,
    ensures
        nearest(n, d) <= nearest(m, d),
{
    lemma_nearest_exists(n, d);
    lemma_nearest_exists(m, d);
    let k = nearest(n, d);
    let l = nearest(m, d);
    if l < k {
        lemma_midpoints_grow(l, k);
        let a = double_midpoint(l);
        let b = double_midpoint(k - 1);
        assert(a < b ==> a * d < b * d) by (nonlinear_arith)
            requires
                d > 0,
        ;
        assert(a == b);
        assert(k == l + 1);
    }
}

/// A magnitude is closest to its own value.
pub proof fn lemma_nearest_exact(k: int)
    requires
        0 <= k <= INFINITY_MAGNITUDE,
    ensures
        nearest(quanta(k), 1) == k,
{
    lemma_quanta_next(k);
    if k > 0 {
        lemma_quanta_next(k - 1);
    }
    assert(is_nearest(k, quanta(k), 1));
    lemma_nearest_unique(k, quanta(k), 1);
}

/// The next magnitude is not far: either one unit, or a part in 2^23 of the number.
proof fn lemma_gap(k: int)
    requires
        k >= 0,
    ensures
        0 < quanta(k + 1) - quanta(k),
        quanta(k + 1) - quanta(k) == 1 || 0x80_0000 * (quanta(k + 1) - quanta(k)) <= quanta(k),
        k >= 0x80_0000 ==> 0x80_0000 * (quanta(k + 1) - quanta(k)) <= quanta(k),
{
    let e: int = if k < 0x80_0000 { 0 } else { k / 0x80_0000 - 1 };
    let q = k - e * 0x80_0000;
    assert(0 <= q < 0x100_0000 && (q >= 0x80_0000 || e == 0));
    lemma_quanta_parts(q, e);
    lemma_quanta_next(k);
    let p = pow2(e as nat) as int;
    assert((q + 1) * p - q * p == p) by (nonlinear_arith);
    if k < 0x80_0000 {
        vstd::arithmetic::power2::lemma2_to64();
        assert(pow2(0) == 1);
    } else {
        assert(0x80_0000 * p <= q * p) by (nonlinear_arith)
            requires
                q >= 0x80_0000,
                p >= 0,
        ;
    }
}

/// The closest magnitude is off by at most a part in 2^24 and half a unit.
pub proof fn lemma_nearest_is_close(n: int, d: int)
    requires
        n >= 0,
        d > 0,
        nearest(n, d) < INFINITY_MAGNITUDE,
    ensures
        -(n + 0x80_0000 * d) <= 0x100_0000 * (quanta(nearest(n, d)) * d - n) <= n + 0x80_0000 * d,
        quanta(nearest(n, d)) * d <= 2 * n,
{
    let k = nearest(n, d);
    lemma_nearest_exists(n, d);
    let q = quanta(k);
    if q * d <= n {
        lemma_gap(k);
        let g = quanta(k + 1) - q;
        assert(2 * n <= (q + q + g) * d);
        assert(0x100_0000 * (n - q * d) <= n + 0x80_0000 * d) by (nonlinear_arith)
            requires
                2 * n <= (q + q + g) * d,
                g == 1 || 0x80_0000 * g <= q,
                q * d <= n,
                d > 0,
                n >= 0,
        ;
    } else {
        if k == 0 {
            assert(q * d == 0) by (nonlinear_arith)
                requires
                    q == 0,
            ;
        }
        lemma_gap(k - 1);
        lemma_quanta_next(k - 1);
        let p = quanta(k - 1);
        let g = q - p;
        assert((p + q) * d <= 2 * n);
        assert(0x100_0000 * (q * d - n) <= n + 0x80_0000 * d) by (nonlinear_arith)
            requires
                (p + q) * d <= 2 * n,
                q == p + g,
                g == 1 || 0x80_0000 * g <= p,
                p >= 0,
                q * d > n,
                d > 0,
                n >= 0,
        ;
        assert(q * d <= 2 * n) by (nonlinear_arith)
            requires
                (p + q) * d <= 2 * n,
                p >= 0,
                d > 0,
        ;
    }
}

/// No smaller magnitude than `k` is closest to the square root of `n`.
spec fn not_below_root(k: int, n: int) -> bool {
    k > 0 ==> {
        ||| double_midpoint(k - 1) * double_midpoint(k - 1) < 4 * n
        ||| double_midpoint(k - 1) * double_midpoint(k - 1) == 4 * n && k % 2 == 0
    }
}

proof fn lemma_nearest_root_from(k: int, n: int)
    requires
        0 <= k <= INFINITY_MAGNITUDE,
        not_below_root(k, n),
    ensures
        is_nearest_root(nearest_root(n), n),
    decreases INFINITY_MAGNITUDE - k,
{
    if is_nearest_root(k, n) {
    } else {
        assert(k < INFINITY_MAGNITUDE);
        assert(not_below_root(k + 1, n));
        lemma_nearest_root_from(k + 1, n);
    }
}

/// There always is a closest magnitude to a square root.
pub proof fn lemma_nearest_root_exists(n: int)
    ensures
        is_nearest_root(nearest_root(n), n),
{
    lemma_nearest_root_from(0, n);
}

/// The closest magnitude to the square root of a whole number is off by at most a part in 2^24, as
/// long as it is more than 2^23 units.
pub proof fn lemma_nearest_root_is_close(n: int)
    requires
        n >= 0x1_0000_0000_0000,
        nearest_root(n) < INFINITY_MAGNITUDE,
    ensures
        ({
            let q = quanta(nearest_root(n));
            &&& q > 0
            &&& (0xff_ffff * q) * (0xff_ffff * q) <= 0x1_0000_0000_0000 * n
            &&& 0x1_0000_0000_0000 * n <= (0x100_0001 * q) * (0x100_0001 * q)
        }),
{
    lemma_nearest_root_exists(n);
    let k = nearest_root(n);
    let q = quanta(k);
    lemma_gap(k);
    lemma_quanta_next(k);
    let m = double_midpoint(k);
    if k <= 0x80_0000 {
        lemma_quanta_parts(0x80_0000, 0);
        vstd::arithmetic::power2::lemma2_to64();
        assert(pow2(0) == 1);
        assert(quanta(0x80_0000) == 0x80_0000 && quanta(0x80_0001) == 0x80_0001);
        if k < 0x80_0000 {
            lemma_quanta_grows(k, 0x80_0000);
            if k + 1 < 0x80_0000 {
                lemma_quanta_grows(k + 1, 0x80_0000);
            }
        }
        assert(m * m <= 0x100_0001 * 0x100_0001) by (nonlinear_arith)
            requires
                0 <= m <= 0x100_0001,
        ;
        assert(4 * n <= m * m);
        assert(false);
    }
    lemma_gap(k - 1);
    lemma_quanta_next(k - 1);
    let l = double_midpoint(k - 1);
    let g = q - quanta(k - 1);
    let h = quanta(k + 1) - q;
    assert(l == 2 * q - g && m == 2 * q + h);
    assert(0x80_0000 * g <= q && 0x80_0000 * h <= q);
    assert((0xff_ffff * q) * (0xff_ffff * q) <= (0x80_0000 * l) * (0x80_0000 * l)) by (nonlinear_arith)
        requires
            0 <= 0xff_ffff * q <= 0x80_0000 * l,
    ;
    assert((0x80_0000 * l) * (0x80_0000 * l) == 0x4000_0000_0000 * (l * l)) by (nonlinear_arith);
    assert((0x80_0000 * m) * (0x80_0000 * m) <= (0x100_0001 * q) * (0x100_0001 * q)) by (nonlinear_arith)
        requires
            0 <= 0x80_0000 * m <= 0x100_0001 * q,
    ;
    assert((0x80_0000 * m) * (0x80_0000 * m) == 0x4000_0000_0000 * (m * m)) by (nonlinear_arith);
    assert(l * l <= 4 * n && 4 * n <= m * m);
    let (ll, mm) = (l * l, m * m);
    assert(0x4000_0000_0000 * ll <= 0x1_0000_0000_0000 * n);
    assert(0x1_0000_0000_0000 * n <= 0x4000_0000_0000 * mm);
}

} // verus!
