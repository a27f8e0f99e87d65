//! How far off the operations on single precision numbers can be.
use crate::rounding::{
    double_midpoint, lemma_nearest_grows, lemma_nearest_is_close, lemma_nearest_root_exists, lemma_nearest_root_is_close,
    lemma_quanta_grows, lemma_quanta_next, nearest, nearest_root, quanta, INFINITY_MAGNITUDE,
};
use crate::single::{absolute, rounded, signed, Single, ONE_BITS};
use crate::single_laws::{law_order_is_that_of_values, lemma_nearest_of_multiple, lemma_one, lemma_rounded, lemma_signed, lemma_value};
use vstd::arithmetic::power2::{lemma2_to64, lemma_pow2_adds, lemma_pow2_pos, pow2};
use vstd::prelude::*;

verus! {

/// As many units are in 1.
pub open spec fn units() -> real {
    0x20_0000_0000_0000_0000_0000_0000_0000_0000_0000int as real
}

/// The value of a finite number.
pub open spec fn real_value(a: Single) -> real {
    a.value() as real / units()
}

pub open spec fn size(x: real) -> real {
    if x < 0real {
        -x
    } else {
        x
    }
}

/// Half a unit: by as much rounding may be off for tiny numbers.
pub open spec fn speck() -> real {
    1real / (2real * units())
}

/// 2^100: sums and products up to this do not overflow.
pub open spec fn huge() -> real {
    0x10_0000_0000_0000_0000_0000_0000int as real
}

/// Rounding is off by at most a part in 2^24 of the number, and half a unit.
pub open spec fn roundoff(x: real) -> real {
    size(x) / 16777216real + speck()
}

/// `r` is `x`, rounded.
pub open spec fn close(r: real, x: real) -> bool {
    -roundoff(x) <= r - x <= roundoff(x)
}

pub proof fn lemma_units()
    ensures
        pow2(149) == 0x20_0000_0000_0000_0000_0000_0000_0000_0000_0000,
        pow2(100) == 0x10_0000_0000_0000_0000_0000_0000,
{
    lemma2_to64();
    lemma_pow2_adds(32, 4);
    lemma_pow2_adds(32, 17);
    lemma_pow2_adds(64, 36);
    lemma_pow2_adds(100, 49);
    let (a, b) = (pow2(100), pow2(49));
    assert(a * b == 0x20_0000_0000_0000_0000_0000_0000_0000_0000_0000) by (nonlinear_arith)
        requires
            a == 0x10_0000_0000_0000_0000_0000_0000,
            b == 0x2_0000_0000_0000,
    ;
}

/// The magnitude of 2^100.
proof fn lemma_huge()
    ensures
        quanta(0x7180_0000) == 0x10_0000_0000_0000_0000_0000_0000 * 0x20_0000_0000_0000_0000_0000_0000_0000_0000_0000,
{
    assert(0x7180_0000int / 0x80_0000 == 227 && 0x7180_0000int % 0x80_0000 == 0);
    lemma_units();
    lemma_pow2_adds(23, 226);
    lemma_pow2_adds(100, 149);
    lemma2_to64();
    assert(pow2(23) == 0x80_0000);
}

proof fn lemma_divide(q: real, x: real, d: real, c: real, e: real)
    by (nonlinear_arith)
    requires
        (q * d - x * d) * c <= x * d + e * d,
        d > 0real,
    ensures
        (q - x) * c <= x + e,
{
}

/// A fraction of units that is not huge is rounded to something finite.
proof fn lemma_rounded_finite(negative: bool, n: int, d: int, x: real)
    requires
        n >= 0,
        d > 0,
        x * d as real == n as real,
        x <= huge() * units(),
    ensures
        rounded(negative, n, d).finite(),
{
    lemma_rounded(negative, n, d);
    let top = quanta(0x7180_0000);
    lemma_huge();
    assert(n <= top * d) by {
        let (dr, tr) = (d as real, top as real);
        assert(x * dr <= tr * dr) by (nonlinear_arith)
            requires
                x <= tr,
                dr > 0real,
        ;
        assert((top * d) as real == tr * dr) by (nonlinear_arith)
            requires
                tr == top as real,
                dr == d as real,
        ;
    }
    lemma_nearest_of_multiple(0x7180_0000, top, d);
    lemma_nearest_grows(n, top * d, d);
}

/// A rounded fraction of units is close to it, if it is finite.
pub proof fn lemma_rounded_close(negative: bool, n: int, d: int, x: real)
    requires
        n >= 0,
        d > 0,
        x * d as real == n as real,
        x <= huge() * units() || rounded(negative, n, d).finite(),
    ensures
        rounded(negative, n, d).finite(),
        rounded(negative, n, d).negative() == negative,
        close(size(real_value(rounded(negative, n, d))), x / units()),
        size(real_value(rounded(negative, n, d))) <= 2real * (x / units()),
        negative ==> real_value(rounded(negative, n, d)) == -size(real_value(rounded(negative, n, d))),
        !negative ==> real_value(rounded(negative, n, d)) == size(real_value(rounded(negative, n, d))),
{
    let r = rounded(negative, n, d);
    lemma_rounded(negative, n, d);
    let k = nearest(n, d);
    if x <= huge() * units() {
        lemma_rounded_finite(negative, n, d, x);
    }
    lemma_nearest_is_close(n, d);
    lemma_value(r);
    let q = quanta(k);
    let (qr, dr, nr) = (q as real, d as real, n as real);
    assert((q * d) as real == qr * dr) by (nonlinear_arith)
        requires
            qr == q as real,
            dr == d as real,
    ;
    assert((qr * dr - x * dr) * 16777216real <= x * dr + 8388608real * dr);
    assert((x * dr - qr * dr) * 16777216real <= x * dr + 8388608real * dr);
    lemma_divide(qr, x, dr, 16777216real, 8388608real);
    assert((x - qr) * 16777216real <= x + 8388608real) by (nonlinear_arith)
        requires
            (x * dr - qr * dr) * 16777216real <= x * dr + 8388608real * dr,
            dr > 0real,
    ;
    assert(qr <= 2real * x) by (nonlinear_arith)
        requires
            qr * dr <= 2real * (x * dr),
            dr > 0real,
    ;
    assert(x >= 0real) by (nonlinear_arith)
        requires
            x * dr >= 0real,
            dr > 0real,
    ;
    let u = units();
    let y = x / u;
    assert(size(real_value(r)) == qr / u);
    assert(speck() == 1real / (2real * u));
    assert((qr / u - y) * 16777216real <= y + 8388608real / u) by (nonlinear_arith)
        requires
            (qr - x) * 16777216real <= x + 8388608real,
            y == x / u,
            u > 0real,
    ;
    assert((y - qr / u) * 16777216real <= y + 8388608real / u) by (nonlinear_arith)
        requires
            (x - qr) * 16777216real <= x + 8388608real,
            y == x / u,
            u > 0real,
    ;
    assert(8388608real / u == 16777216real * (1real / (2real * u))) by (nonlinear_arith)
        requires
            u > 0real,
    ;
    assert(y >= 0real) by (nonlinear_arith)
        requires
            y == x / u,
            u > 0real,
            x >= 0real,
    ;
}

/// The sum of two numbers is close to what it should be.
pub proof fn lemma_sum_close(a: Single, b: Single)
    requires
        a.finite(),
        b.finite(),
        size(real_value(a) + real_value(b)) <= huge() || a.plus(b).finite(),
    ensures
        a.plus(b).finite(),
        close(real_value(a.plus(b)), real_value(a) + real_value(b)),
        size(real_value(a.plus(b))) <= 2real * size(real_value(a) + real_value(b)),
{
    reveal(Single::sum);
    let v = a.value() + b.value();
    let x = absolute(v) as real;
    assert(x / units() == size(real_value(a) + real_value(b)));
    lemma_rounded_close(v < 0, absolute(v), 1, x);
    lemma_signed(a.negative() && b.negative(), 0);
    if v == 0 {
        lemma_value(signed(a.negative() && b.negative(), 0));
    }
}

/// The product of two numbers is close to what it should be.
pub proof fn lemma_product_close(a: Single, b: Single)
    requires
        a.finite(),
        b.finite(),
        size(real_value(a) * real_value(b)) <= huge() || a.times(b).finite(),
    ensures
        a.times(b).finite(),
        close(real_value(a.times(b)), real_value(a) * real_value(b)),
        size(real_value(a.times(b))) <= 2real * size(real_value(a) * real_value(b)),
{
    reveal(Single::product);
    lemma_units();
    lemma_value(a);
    lemma_value(b);
    let n = absolute(a.value()) * absolute(b.value());
    let d = pow2(149) as int;
    assert(n >= 0) by (nonlinear_arith)
        requires
            n == absolute(a.value()) * absolute(b.value()),
    ;
    let (ar, br) = (absolute(a.value()) as real, absolute(b.value()) as real);
    let u = units();
    assert(n as real == ar * br) by (nonlinear_arith)
        requires
            n == absolute(a.value()) * absolute(b.value()),
            ar == absolute(a.value()) as real,
            br == absolute(b.value()) as real,
    ;
    let x = (ar * br) / u;
    assert(size(real_value(a)) == ar / u && size(real_value(b)) == br / u);
    let (p, q) = (real_value(a), real_value(b));
    assert(size(p * q) == size(p) * size(q)) by {
        lemma_size_product(p, q);
    }
    assert(size(p) * size(q) == x / u) by (nonlinear_arith)
        requires
            size(p) == ar / u,
            size(q) == br / u,
            x == (ar * br) / u,
            u > 0real,
    ;
    assert(x * u == ar * br) by (nonlinear_arith)
        requires
            x == (ar * br) / u,
            u > 0real,
    ;
    if size(p * q) <= huge() {
        assert(x <= huge() * u) by (nonlinear_arith)
            requires
                x / u <= huge(),
                u > 0real,
        ;
    }
    lemma_rounded_close(a.negative() != b.negative(), n, d, x);
    lemma_product_sign(p, q);
}

proof fn lemma_size_product(p: real, q: real)
    ensures
        size(p * q) == size(p) * size(q),
{
    assert(size(p * q) == size(p) * size(q)) by (nonlinear_arith);
}

proof fn lemma_product_sign(p: real, q: real)
    ensures
        p >= 0real && q >= 0real ==> p * q >= 0real,
        p <= 0real && q <= 0real ==> p * q >= 0real,
        p >= 0real && q <= 0real ==> p * q <= 0real,
        p <= 0real && q >= 0real ==> p * q <= 0real,
{
    assert(p >= 0real && q >= 0real ==> p * q >= 0real) by (nonlinear_arith);
    assert(p <= 0real && q <= 0real ==> p * q >= 0real) by (nonlinear_arith);
    assert(p >= 0real && q <= 0real ==> p * q <= 0real) by (nonlinear_arith);
    assert(p <= 0real && q >= 0real ==> p * q <= 0real) by (nonlinear_arith);
}

/// The square root of a positive number is close to what it should be.
pub proof fn lemma_root_close(a: Single)
    requires
        a.finite(),
        !a.negative(),
        a.magnitude() > 0,
    ensures
        a.sqrt().finite(),
        real_value(a.sqrt()) > 0real,
        !a.sqrt().negative(),
        ({
            let r = real_value(a.sqrt());
            &&& (16777215real * r) * (16777215real * r) <= 281474976710656real * real_value(a)
            &&& 281474976710656real * real_value(a) <= (16777217real * r) * (16777217real * r)
        }),
{
    reveal(Single::square_root);
    lemma_units();
    lemma_value(a);
    let v = a.value();
    let w = pow2(149) as int;
    let n = v * w;
    assert(n >= w) by (nonlinear_arith)
        requires
            n == v * w,
            v >= 1,
            w > 0,
    ;
    lemma_nearest_root_exists(n);
    let k = nearest_root(n);
    let top = INFINITY_MAGNITUDE as int;
    if k == top {
        let q = quanta(top - 1);
        let m = double_midpoint(top - 1);
        lemma_quanta_next(top - 1);
        lemma_huge();
        lemma_quanta_grows(0x7180_0000, top - 1);
        if a.magnitude() < top - 1 {
            lemma_quanta_grows(a.magnitude(), top - 1);
        }
        assert(q > w);
        assert(m * m > 4 * n) by (nonlinear_arith)
            requires
                m > 2 * q,
                q > w,
                w > 0,
                v <= q,
                v >= 1,
                n == v * w,
        ;
    }
    lemma_nearest_root_is_close(n);
    lemma_signed(false, k);
    let r = a.sqrt();
    lemma_value(r);
    let q = quanta(k);
    let (qr, vr, u) = (q as real, v as real, units());
    let x = qr / u;
    assert(((0xff_ffff * q) * (0xff_ffff * q)) as real == (16777215real * qr) * (16777215real * qr)) by (nonlinear_arith)
        requires
            qr == q as real,
    ;
    assert(((0x100_0001 * q) * (0x100_0001 * q)) as real == (16777217real * qr) * (16777217real * qr)) by (nonlinear_arith)
        requires
            qr == q as real,
    ;
    assert((0x1_0000_0000_0000 * n) as real == 281474976710656real * (vr * u)) by (nonlinear_arith)
        requires
            n == v * w,
            vr == v as real,
            u == w as real,
    ;
    assert(x > 0real) by (nonlinear_arith)
        requires
            x == qr / u,
            u > 0real,
            qr > 0real,
    ;
    assert(qr == x * u && vr == real_value(a) * u) by (nonlinear_arith)
        requires
            x == qr / u,
            u > 0real,
            real_value(a) == vr / u,
    ;
    let y = real_value(a);
    assert((16777215real * x) * (16777215real * x) <= 281474976710656real * y) by (nonlinear_arith)
        requires
            (16777215real * (x * u)) * (16777215real * (x * u)) <= 281474976710656real * ((y * u) * u),
            u > 0real,
    ;
    assert(281474976710656real * y <= (16777217real * x) * (16777217real * x)) by (nonlinear_arith)
        requires
            281474976710656real * ((y * u) * u) <= (16777217real * (x * u)) * (16777217real * (x * u)),
            u > 0real,
    ;
}

/// One over a number is close to what it should be.
pub proof fn lemma_recip_close(b: Single)
    requires
        b.finite(),
        !b.negative(),
        1real <= huge() * real_value(b),
        real_value(b) <= huge(),
    ensures
        ({
            let r = (Single { bits: ONE_BITS }).over(b);
            let p = real_value(r) * real_value(b);
            &&& r.finite()
            &&& !r.negative()
            &&& real_value(r) > 0real
            &&& 16777214real <= 16777216real * p <= 16777218real
        }),
{
    reveal(Single::quotient);
    lemma_units();
    lemma_one();
    lemma_value(b);
    let one = Single { bits: ONE_BITS };
    lemma_value(one);
    let w = pow2(149) as int;
    let d = b.value();
    let n = w * w;
    let (dr, u) = (d as real, units());
    let y = real_value(b);
    assert(dr == y * u) by (nonlinear_arith)
        requires
            y == dr / u,
            u > 0real,
    ;
    assert(y > 0real) by (nonlinear_arith)
        requires
            1real <= huge() * y,
            huge() > 0real,
    ;
    assert(dr > 0real) by (nonlinear_arith)
        requires
            dr == y * u,
            y > 0real,
            u > 0real,
    ;
    let x = (u * u) / dr;
    assert(n as real == u * u) by (nonlinear_arith)
        requires
            n == w * w,
            u == w as real,
    ;
    assert(x * dr == u * u) by (nonlinear_arith)
        requires
            x == (u * u) / dr,
            dr > 0real,
    ;
    let z = x / u;
    assert(z * y == 1real && z > 0real) by (nonlinear_arith)
        requires
            x * dr == u * u,
            dr == y * u,
            z == x / u,
            u > 0real,
            y > 0real,
    ;
    assert(x <= huge() * u) by (nonlinear_arith)
        requires
            z == x / u,
            u > 0real,
            z * y == 1real,
            1real <= huge() * y,
            y > 0real,
    ;
    assert(n >= 0) by (nonlinear_arith)
        requires
            n == w * w,
    ;
    lemma_rounded_close(false, n, d, x);
    let r = one.over(b);
    let c = real_value(r);
    let s = speck();
    lemma_speck();
    assert(16777216real * (s * y) <= 1real) by (nonlinear_arith)
        requires
            0real < s,
            1000000000000real * (s * huge()) <= 1real,
            0real <= y <= huge(),
    ;
    assert(16777214real <= 16777216real * (c * y) <= 16777218real) by (nonlinear_arith)
        requires
            -(z / 16777216real + s) <= c - z <= z / 16777216real + s,
            z * y == 1real,
            y > 0real,
            16777216real * (s * y) <= 1real,
    ;
    assert(c > 0real) by (nonlinear_arith)
        requires
            16777214real <= 16777216real * (c * y),
            y > 0real,
    ;
}

/// A speck is nothing, even 2^100 times.
pub proof fn lemma_speck()
    ensures
        0real < speck(),
        1000000000000real * (speck() * huge()) <= 1real,
        10000000000000000000000000000000000000000real * speck() <= 1real,
{
    let (s, h, u) = (speck(), huge(), units());
    assert(s > 0real && s * (2real * u) == 1real) by (nonlinear_arith)
        requires
            s == 1real / (2real * u),
            u > 0real,
    ;
    assert(2real * u == h * 1125899906842624real);
    assert(1000000000000real * (s * h) <= 1real) by (nonlinear_arith)
        requires
            s * (2real * u) == 1real,
            2real * u == h * 1125899906842624real,
            s > 0real,
            h > 0real,
    ;
    assert(10000000000000000000000000000000000000000real * s <= 1real) by (nonlinear_arith)
        requires
            s * (2real * u) == 1real,
            u >= 10000000000000000000000000000000000000000real,
            s > 0real,
    ;
}

/// The value of 2.
pub proof fn lemma_two()
    ensures
        real_value(Single { bits: 0x4000_0000 }) == 2real,
        real_value(Single { bits: ONE_BITS }) == 1real,
{
    lemma_one();
    lemma_units();
    assert(0x4000_0000int / 0x80_0000 == 128 && 0x4000_0000int % 0x80_0000 == 0);
    lemma_pow2_adds(23, 127);
    lemma_pow2_adds(1, 149);
    lemma2_to64();
    assert(pow2(23) == 0x80_0000 && pow2(1) == 2);
    assert((Single { bits: 0x4000_0000 }).value() == 2 * pow2(149));
}

/// The order of numbers is that of their values.
pub proof fn lemma_order(a: Single, b: Single)
    requires
        a.finite(),
        b.finite(),
    ensures
        a.at_most(b) <==> real_value(a) <= real_value(b),
        a.less(b) <==> real_value(a) < real_value(b),
{
    law_order_is_that_of_values(a, b);
}

/// The value of a number with a significand and a scale below 1.
pub proof fn lemma_constant(bits: u32, significand: int, down: nat, scale: int)
    requires
        0x80_0000 <= bits < 0x7f80_0000,
        down <= 149,
        bits as int / 0x80_0000 == 150 - down,
        significand == 0x80_0000 + bits as int % 0x80_0000,
        pow2(down) == scale,
    ensures
        (Single { bits }).finite(),
        real_value(Single { bits }) == significand as real / scale as real,
{
    let up = (149 - down) as nat;
    lemma_pow2_adds(up, down);
    lemma_units();
    let p = pow2(up) as int;
    let v = significand * p;
    assert((Single { bits }).value() == v);
    let (sr, pr, cr, u) = (significand as real, p as real, scale as real, units());
    lemma_pow2_pos(up);
    lemma_pow2_pos(down);
    assert(v as real == sr * pr) by (nonlinear_arith)
        requires
            v == significand * p,
            sr == significand as real,
            pr == p as real,
    ;
    assert(u == pr * cr) by (nonlinear_arith)
        requires
            u == (p * scale) as real,
            pr == p as real,
            cr == scale as real,
    ;
    assert((sr * pr) / u == sr / cr) by (nonlinear_arith)
        requires
            u == pr * cr,
            pr > 0real,
            cr > 0real,
    ;
}

/// The quotient of two numbers is close to what it should be.
pub proof fn lemma_quotient_close(a: Single, b: Single)
    requires
        a.finite(),
        b.finite(),
        real_value(b) > 0real,
        size(real_value(a)) <= huge() * real_value(b),
    ensures
        a.over(b).finite(),
        close(real_value(a.over(b)), real_value(a) / real_value(b)),
        size(real_value(a.over(b))) <= 2real * size(real_value(a) / real_value(b)),
{
    reveal(Single::quotient);
    lemma_units();
    lemma_value(a);
    lemma_value(b);
    let w = pow2(149) as int;
    let (c, d) = (absolute(a.value()), absolute(b.value()));
    let n = c * w;
    let (cr, dr, u) = (c as real, d as real, units());
    let (p, q) = (real_value(a), real_value(b));
    assert(size(p) == cr / u);
    assert(q == dr / u) by {
        assert(b.value() > 0);
    }
    assert(n as real == cr * u) by (nonlinear_arith)
        requires
            n == c * w,
            cr == c as real,
            u == w as real,
    ;
    assert(n >= 0) by (nonlinear_arith)
        requires
            n == c * w,
            c >= 0,
            w > 0,
    ;
    assert(dr > 0real);
    let x = (cr * u) / dr;
    assert(x * dr == cr * u) by (nonlinear_arith)
        requires
            x == (cr * u) / dr,
            dr > 0real,
    ;
    let z = x / u;
    assert(z * dr == cr) by (nonlinear_arith)
        requires
            x * dr == cr * u,
            z == x / u,
            u > 0real,
    ;
    assert(z == size(p) / q) by (nonlinear_arith)
        requires
            z * dr == cr,
            size(p) == cr / u,
            q == dr / u,
            u > 0real,
            dr > 0real,
    ;
    assert(size(p / q) == size(p) / q) by (nonlinear_arith)
        requires
            q > 0real,
    ;
    assert(p >= 0real ==> p / q >= 0real) by (nonlinear_arith)
        requires
            q > 0real,
    ;
    assert(p <= 0real ==> p / q <= 0real) by (nonlinear_arith)
        requires
            q > 0real,
    ;
    assert(z <= huge()) by (nonlinear_arith)
        requires
            z == size(p) / q,
            size(p) <= huge() * q,
            q > 0real,
    ;
    assert(x <= huge() * u) by (nonlinear_arith)
        requires
            z == x / u,
            z <= huge(),
            u > 0real,
    ;
    lemma_rounded_close(a.negative() != b.negative(), n, d, x);
    assert(!b.negative());
}

} // verus!
