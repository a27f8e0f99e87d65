//! How far off vectors are that were brought to unit length.
use crate::math::Vec3A;
use crate::reals::lemma_scaled;
use crate::rounding::{lemma_quanta_grows, quanta, INFINITY_MAGNITUDE};
use crate::single::Single;
use crate::single_errors::{
    close, huge, lemma_product_close, lemma_recip_close, lemma_root_close, lemma_speck, lemma_sum_close, lemma_units, real_value,
    size, speck, units,
};
use crate::single_laws::{
    law_squares_are_not_negative, law_sum_of_positives, lemma_signed, lemma_value,
};
use vstd::arithmetic::power2::{lemma2_to64, lemma_pow2_adds, pow2};
use vstd::prelude::*;

verus! {

/// The exact dot product.
pub open spec fn real_dot(a: Vec3A, b: Vec3A) -> real {
    real_value(a.x) * real_value(b.x) + real_value(a.y) * real_value(b.y) + real_value(a.z) * real_value(b.z)
}

/// A finite sum is of finite numbers, and a finite square is that of one.
proof fn lemma_finite_parts(a: Single, b: Single)
    ensures
        a.plus(b).finite() ==> a.finite() && b.finite(),
        a.times(a).finite() ==> a.finite(),
{
    reveal(Single::sum);
    reveal(Single::product);
    lemma_signed(false, INFINITY_MAGNITUDE as int);
    lemma_signed(true, INFINITY_MAGNITUDE as int);
}

proof fn lemma_square(a: Single)
    requires
        a.times(a).finite(),
    ensures
        a.finite(),
        !a.times(a).negative(),
        real_value(a.times(a)) >= 0real,
        real_value(a) * real_value(a) >= 0real,
        close(real_value(a.times(a)), real_value(a) * real_value(a)),
        real_value(a.times(a)) <= 2real * (real_value(a) * real_value(a)),
{
    lemma_finite_parts(a, a);
    law_squares_are_not_negative(a);
    lemma_value(a.times(a));
    lemma_product_close(a, a);
    let x = real_value(a);
    assert(x * x >= 0real) by (nonlinear_arith);
}

/// The square of a length is close to what it should be, if it is finite.
pub proof fn lemma_length_squared(v: Vec3A)
    requires
        v.dot(v).finite(),
    ensures
        v.finite(),
        !v.dot(v).negative(),
        real_value(v.dot(v)) >= 0real,
        real_dot(v, v) >= 0real,
        ({
            let (d, x) = (real_value(v.dot(v)), real_dot(v, v));
            &&& -(x / 4194304real + 8real * speck()) <= d - x <= x / 4194304real + 8real * speck()
            &&& d <= 8real * x
        }),
        real_value(v.x) * real_value(v.x) <= real_dot(v, v),
        real_value(v.y) * real_value(v.y) <= real_dot(v, v),
        real_value(v.z) * real_value(v.z) <= real_dot(v, v),
{
    let (p, q, r) = (v.x.times(v.x), v.y.times(v.y), v.z.times(v.z));
    lemma_finite_parts(p.plus(q), r);
    lemma_finite_parts(p, q);
    lemma_square(v.x);
    lemma_square(v.y);
    lemma_square(v.z);
    law_sum_of_positives(p, q);
    law_sum_of_positives(p.plus(q), r);
    lemma_sum_close(p, q);
    lemma_sum_close(p.plus(q), r);
    lemma_value(p.plus(q));
    lemma_value(v.dot(v));
    lemma_speck();
}

proof fn lemma_recip_of_root(c: real, l: real, d: real)
    requires
        (16777215real * l) * (16777215real * l) <= 281474976710656real * d,
        281474976710656real * d <= (16777217real * l) * (16777217real * l),
        16777214real <= 16777216real * (c * l) <= 16777218real,
        c > 0real,
    ensures
        16777208real <= 16777216real * (c * c * d) <= 16777224real,
{
    let m = c * l;
    let k = c * c * d;
    assert((16777215real * m) * (16777215real * m) <= 281474976710656real * k) by (nonlinear_arith)
        requires
            (16777215real * l) * (16777215real * l) <= 281474976710656real * d,
            m == c * l,
            k == c * c * d,
    ;
    assert(281474976710656real * k <= (16777217real * m) * (16777217real * m)) by (nonlinear_arith)
        requires
            281474976710656real * d <= (16777217real * l) * (16777217real * l),
            m == c * l,
            k == c * c * d,
    ;
    assert((16777215real * m) * (16777215real * m) >= 281474976710656real / 16777216real * 16777208real) by (nonlinear_arith)
        requires
            16777214real <= 16777216real * m,
    ;
    assert((16777217real * m) * (16777217real * m) <= 281474976710656real / 16777216real * 16777224real) by (nonlinear_arith)
        requires
            16777214real <= 16777216real * m <= 16777218real,
    ;
}

/// The value of 2^128, which counts as infinite.
proof fn lemma_infinity()
    ensures
        quanta(INFINITY_MAGNITUDE as int) as real == 340282366920938463463374607431768211456real * units(),
{
    assert(0x7f80_0000int / 0x80_0000 == 255 && 0x7f80_0000int % 0x80_0000 == 0);
    lemma_units();
    lemma_pow2_adds(23, 254);
    lemma_pow2_adds(64, 64);
    lemma_pow2_adds(149, 128);
    lemma2_to64();
    assert(pow2(23) == 0x80_0000);
    let (a, b) = (pow2(64), pow2(149));
    assert(a * a == 340282366920938463463374607431768211456) by (nonlinear_arith)
        requires
            a == 0x1_0000_0000_0000_0000,
    ;
    assert(pow2(128) == 340282366920938463463374607431768211456);
    assert(b * pow2(128) == b * 340282366920938463463374607431768211456);
}

/// A vector that can be brought to unit length is scaled by something close to one over its length.
pub proof fn lemma_unit_scale(v: Vec3A)
    requires
        v.unit() is Some,
    ensures
        v.dot(v).finite(),
        v.length_recip().finite(),
        !v.length_recip().negative(),
        real_value(v.length_recip()) > 0real,
        real_value(v.dot(v)) >= 2real * speck(),
        ({
            let c = real_value(v.length_recip());
            16777208real <= 16777216real * (c * c * real_value(v.dot(v))) <= 16777224real
        }),
{
    let d = v.dot(v);
    let l = d.sqrt();
    reveal(Single::quotient);
    reveal(Single::square_root);
    lemma_signed(false, 0);
    lemma_signed(true, 0);
    lemma_signed(false, INFINITY_MAGNITUDE as int);
    lemma_signed(true, INFINITY_MAGNITUDE as int);
    assert(d.finite() && !d.negative() && d.magnitude() > 0);
    lemma_root_close(d);
    lemma_value(d);
    lemma_infinity();
    lemma_quanta_grows(d.magnitude(), INFINITY_MAGNITUDE as int);
    let (y, x, u) = (real_value(d), real_value(l), units());
    let vr = d.value() as real;
    assert(y >= 2real * speck() && y >= 1real / u) by (nonlinear_arith)
        requires
            y == vr / u,
            vr >= 1real,
            u > 0real,
            speck() == 1real / (2real * u),
    ;
    assert(y <= 340282366920938463463374607431768211456real) by (nonlinear_arith)
        requires
            y == vr / u,
            vr <= 340282366920938463463374607431768211456real * u,
            u > 0real,
    ;
    assert(x <= huge()) by {
        if x > huge() {
            let h = huge();
            assert((16777215real * x) * (16777215real * x) > 281474976710656real * y) by (nonlinear_arith)
                requires
                    x > h,
                    h >= 1000000000000000000000000000000real,
                    y <= 340282366920938463463374607431768211456real,
            ;
        }
    }
    assert(1real <= huge() * x) by {
        let h = huge();
        if h * x < 1real {
            assert(u <= h * 1000000000000000real);
            assert((16777217real * x) * (16777217real * x) < 281474976710656real * y) by (nonlinear_arith)
                requires
                    h * x < 1real,
                    x > 0real,
                    y >= 1real / u,
                    u > 0real,
                    u <= h * 1000000000000000real,
                    h >= 1000000000000000000000000000000real,
            ;
        }
    }
    lemma_recip_close(l);
    lemma_recip_of_root(real_value(v.length_recip()), x, y);
}

/// A vector that is brought to unit length has about unit length then, and very nearly so unless it
/// was tiny.
pub proof fn lemma_unit_length(v: Vec3A)
    requires
        v.unit() is Some,
    ensures
        v.finite(),
        real_dot(v, v) > 0real,
        ({
            let c = real_value(v.length_recip());
            let k = c * c * real_dot(v, v);
            &&& 1real <= 9real * k
            &&& k <= 8real
            &&& 1real <= 1000000000000000real * real_dot(v, v) ==> 16777200real <= 16777216real * k <= 16777232real
        }),
{
    lemma_unit_scale(v);
    lemma_length_squared(v);
    lemma_speck();
    let c = real_value(v.length_recip());
    let d = real_value(v.dot(v));
    let x = real_dot(v, v);
    let k = c * c;
    assert(k >= 0real) by (nonlinear_arith)
        requires
            k == c * c,
    ;
    lemma_scaled(k, d, 8real * x);
    assert(k * (8real * x) == 8real * (k * x)) by (nonlinear_arith);
    lemma_scaled(k, x, 6real * d);
    assert(k * (6real * d) == 6real * (k * d)) by (nonlinear_arith);
    if 1real <= 1000000000000000real * x {
        let (low, high) = (x * 16777211real / 16777216real, x * 16777221real / 16777216real);
        lemma_scaled(k, low, d);
        lemma_scaled(k, d, high);
        assert(k * low == (k * x) * 16777211real / 16777216real) by (nonlinear_arith)
            requires
                low == x * 16777211real / 16777216real,
        ;
        assert(k * high == (k * x) * 16777221real / 16777216real) by (nonlinear_arith)
            requires
                high == x * 16777221real / 16777216real,
        ;
    }
}

/// A component of a vector that is brought to unit length.
proof fn lemma_component_bound(x: real, c: real, total: real)
    requires
        x * x <= total,
        c * c * total <= 8real,
    ensures
        -29real <= 10real * (x * c) <= 29real,
        (x * c) * (x * c) <= c * c * total,
{
    assert((x * c) * (x * c) <= c * c * total) by (nonlinear_arith)
        requires
            x * x <= total,
    ;
    let y = x * c;
    assert(-29real <= 10real * y <= 29real) by (nonlinear_arith)
        requires
            y * y <= 8real,
    ;
}

/// The components of a vector that was brought to unit length are those of the vector, scaled.
pub proof fn lemma_unit_components(v: Vec3A)
    requires
        v.unit() is Some,
    ensures
        ({
            let c = real_value(v.length_recip());
            let h = v.normalize_or_zero();
            &&& h.finite()
            &&& close(real_value(h.x), real_value(v.x) * c)
            &&& close(real_value(h.y), real_value(v.y) * c)
            &&& close(real_value(h.z), real_value(v.z) * c)
            &&& 10real * size(real_value(v.x) * c) <= 29real
            &&& 10real * size(real_value(v.y) * c) <= 29real
            &&& 10real * size(real_value(v.z) * c) <= 29real
        }),
{
    lemma_unit_scale(v);
    lemma_length_squared(v);
    lemma_unit_length(v);
    let r = v.length_recip();
    let c = real_value(r);
    let x = real_dot(v, v);
    lemma_component_bound(real_value(v.x), c, x);
    lemma_component_bound(real_value(v.y), c, x);
    lemma_component_bound(real_value(v.z), c, x);
    lemma_product_close(v.x, r);
    lemma_product_close(v.y, r);
    lemma_product_close(v.z, r);
}

/// A vector that is neither tiny nor huge can be brought to unit length.
pub proof fn lemma_has_unit(v: Vec3A)
    requires
        v.finite(),
        1real <= 1000000000000000real * real_dot(v, v),
        real_dot(v, v) <= 1000000000000000real,
    ensures
        v.unit() is Some,
{
    let (p, q, r) = (v.x.times(v.x), v.y.times(v.y), v.z.times(v.z));
    let (x, y, z) = (real_value(v.x), real_value(v.y), real_value(v.z));
    assert(x * x >= 0real && y * y >= 0real && z * z >= 0real) by (nonlinear_arith);
    lemma_product_close(v.x, v.x);
    lemma_product_close(v.y, v.y);
    lemma_product_close(v.z, v.z);
    lemma_speck();
    lemma_sum_close(p, q);
    lemma_sum_close(p.plus(q), r);
    let d = v.dot(v);
    lemma_length_squared(v);
    lemma_value(d);
    assert(real_value(d) > 0real);
    assert(d.magnitude() > 0) by {
        if d.magnitude() == 0 {
            assert(d.value() == 0);
            assert(real_value(d) == 0real);
        }
    }
    lemma_root_close(d);
    let l = d.sqrt();
    let (k, m) = (real_value(l), real_value(d));
    assert(1real <= huge() * k && k <= huge()) by {
        let h = huge();
        assert(k <= 1000000000000000real) by (nonlinear_arith)
            requires
                (16777215real * k) * (16777215real * k) <= 281474976710656real * m,
                m <= 2000000000000000real,
        ;
        assert(1000000000000000real * k >= 1real) by (nonlinear_arith)
            requires
                281474976710656real * m <= (16777217real * k) * (16777217real * k),
                2000000000000000real * m >= 1real,
                k > 0real,
        ;
    }
    lemma_recip_close(l);
    let c = v.length_recip();
    lemma_value(c);
    assert(c.magnitude() > 0) by {
        if c.magnitude() == 0 {
            assert(c.value() == 0);
            assert(real_value(c) == 0real);
        }
    }
}

/// The dot product of two vectors is close to what it should be, if the products of their
/// components are at most `m`.
pub proof fn lemma_dot_close(a: Vec3A, b: Vec3A, m: real)
    requires
        a.finite(),
        b.finite(),
        -m <= real_value(a.x) * real_value(b.x) <= m,
        -m <= real_value(a.y) * real_value(b.y) <= m,
        -m <= real_value(a.z) * real_value(b.z) <= m,
        m <= 1000000000000000000000000000real,
    ensures
        a.dot(b).finite(),
        -(9real * m / 16777216real + 8real * speck()) <= real_value(a.dot(b)) - real_dot(a, b) <= 9real * m / 16777216real
            + 8real * speck(),
{
    let (p, q, r) = (a.x.times(b.x), a.y.times(b.y), a.z.times(b.z));
    let (x, y, z) = (
        real_value(a.x) * real_value(b.x),
        real_value(a.y) * real_value(b.y),
        real_value(a.z) * real_value(b.z),
    );
    let s = speck();
    lemma_product_within(a.x, b.x, m);
    lemma_product_within(a.y, b.y, m);
    lemma_product_within(a.z, b.z, m);
    assert(0real < s <= 1real) by {
        lemma_speck();
    }
    let m2 = 2real * m + 2real * (m / 16777216real + s);
    lemma_sum_within(p, q, m2);
    let m3 = m2 + m2 / 16777216real + s + m + m / 16777216real + s;
    lemma_sum_within(p.plus(q), r, m3);
    lemma_three(
        (x, y, z),
        (real_value(p), real_value(q), real_value(r)),
        real_value(p.plus(q)),
        real_value(a.dot(b)),
        m,
        s,
    );
}

/// The errors of three products and two sums add up.
proof fn lemma_three(x: (real, real, real), p: (real, real, real), a: real, d: real, m: real, s: real)
    requires
        0real <= m,
        0real <= s <= 1real,
        -(m / 16777216real + s) <= p.0 - x.0 <= m / 16777216real + s,
        -(m / 16777216real + s) <= p.1 - x.1 <= m / 16777216real + s,
        -(m / 16777216real + s) <= p.2 - x.2 <= m / 16777216real + s,
        ({
            let m2 = 2real * m + 2real * (m / 16777216real + s);
            let m3 = m2 + m2 / 16777216real + s + m + m / 16777216real + s;
            &&& -(m2 / 16777216real + s) <= a - (p.0 + p.1) <= m2 / 16777216real + s
            &&& -(m3 / 16777216real + s) <= d - (a + p.2) <= m3 / 16777216real + s
        }),
    ensures
        -(9real * m / 16777216real + 8real * s) <= d - (x.0 + x.1 + x.2) <= 9real * m / 16777216real + 8real * s,
{
}

/// The product of two numbers is close to what it should be, if that is at most `m`.
pub proof fn lemma_product_within(a: Single, b: Single, m: real)
    requires
        a.finite(),
        b.finite(),
        -m <= real_value(a) * real_value(b) <= m,
        m <= 10000000000000000000000000000real,
    ensures
        a.times(b).finite(),
        -(m / 16777216real + speck()) <= real_value(a.times(b)) - real_value(a) * real_value(b) <= m / 16777216real
            + speck(),
{
    lemma_product_close(a, b);
}

/// The sum of two numbers is close to what it should be, if that is at most `m`.
pub proof fn lemma_sum_within(a: Single, b: Single, m: real)
    requires
        a.finite(),
        b.finite(),
        -m <= real_value(a) + real_value(b) <= m,
        m <= 10000000000000000000000000000real,
    ensures
        a.plus(b).finite(),
        -(m / 16777216real + speck()) <= real_value(a.plus(b)) - (real_value(a) + real_value(b)) <= m / 16777216real
            + speck(),
{
    lemma_sum_close(a, b);
}

} // verus!
