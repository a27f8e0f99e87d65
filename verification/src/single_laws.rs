//! What holds of all single precision numbers.
use crate::rounding::{double_midpoint, lemma_nearest_exact, lemma_nearest_exists, lemma_nearest_grows, lemma_nearest_unique, lemma_quanta_grows, lemma_quanta_next, nearest, quanta, INFINITY_MAGNITUDE};
use crate::single::{absolute, rounded, signed, Single, ONE_BITS};
use vstd::arithmetic::power2::{lemma2_to64, lemma_pow2_adds, lemma_pow2_pos, lemma_pow2_unfold, pow2};
use vstd::prelude::*;

verus! {

/// The sign and the magnitude that a number is put together from.
pub proof fn lemma_signed(negative: bool, magnitude: int)
    requires
        0 <= magnitude <= INFINITY_MAGNITUDE,
    ensures
        signed(negative, magnitude).negative() == negative,
        signed(negative, magnitude).magnitude() == magnitude,
        !signed(negative, magnitude).is_a_nan(),
{
}

/// A rounded number is a number, with the given sign and the closest magnitude.
pub proof fn lemma_rounded(negative: bool, n: int, d: int)
    ensures
        rounded(negative, n, d).negative() == negative,
        rounded(negative, n, d).magnitude() == nearest(n, d),
        0 <= nearest(n, d) <= INFINITY_MAGNITUDE,
        !rounded(negative, n, d).is_a_nan(),
{
    lemma_nearest_exists(n, d);
    lemma_signed(negative, nearest(n, d));
}

/// Zero rounds to zero.
proof fn lemma_nearest_zero(d: int)
    requires
        d > 0,
    ensures
        nearest(0, d) == 0,
{
    lemma_nearest_exists(0, d);
    let k = nearest(0, d);
    if k > 0 {
        lemma_quanta_next(k - 1);
        let b = quanta(k - 1) + quanta(k);
        assert(b * d > 0) by (nonlinear_arith)
            requires
                b > 0,
                d > 0,
        ;
    }
}

/// The value of a number has the sign of the number, and only the zeros have none.
pub proof fn lemma_value(a: Single)
    ensures
        absolute(a.value()) == quanta(a.magnitude()),
        a.negative() ==> a.value() <= 0,
        !a.negative() ==> a.value() >= 0,
        a.value() == 0 <==> a.magnitude() == 0,
{
    if a.magnitude() > 0 {
        lemma_quanta_grows(0, a.magnitude());
    }
}

/// `a + b` is `b + a`.
pub proof fn law_sum_commutes(a: Single, b: Single)
    ensures
        a.plus(b) == b.plus(a),
{
    reveal(Single::sum);
}

/// `a * b` is `b * a`.
pub proof fn law_product_commutes(a: Single, b: Single)
    ensures
        a.times(b) == b.times(a),
{
    reveal(Single::product);
    let x = absolute(a.value());
    let y = absolute(b.value());
    assert(x * y == y * x) by (nonlinear_arith);
}

/// Of two numbers that are no NaN and no infinities the sum is no NaN.
pub proof fn law_sum_of_numbers(a: Single, b: Single)
    requires
        a.finite(),
        b.finite(),
    ensures
        !a.plus(b).is_a_nan(),
{
    reveal(Single::sum);
    let v = a.value() + b.value();
    lemma_rounded(v < 0, absolute(v), 1);
}

/// A number less itself is zero.
pub proof fn law_nothing_left(a: Single)
    requires
        a.finite(),
    ensures
        a.minus(a) == (Single { bits: 0 }),
{
    reveal(Single::sum);
}

/// Zero times zero is zero, and so are the sum of zeros and the root of zero.
pub proof fn law_zero_stays_zero()
    ensures
        ({
            let zero = Single { bits: 0 };
            &&& zero.times(zero) == zero
            &&& zero.plus(zero) == zero
            &&& zero.sqrt() == zero
        }),
{
    reveal(Single::sum);
    reveal(Single::product);
    reveal(Single::square_root);
    lemma_pow2_pos(149);
    lemma_nearest_zero(pow2(149) as int);
    let zero = Single { bits: 0 };
    let x = absolute(zero.value());
    assert(x * x == 0) by (nonlinear_arith)
        requires
            x == 0,
    ;
    assert(zero.times(zero) == zero);
}

/// Numbers that differ at most in their signs have the same square; that of a NaN is a NaN.
pub proof fn law_square_ignores_sign(a: Single, b: Single)
    requires
        a.magnitude() == b.magnitude() || a.is_a_nan() && b.is_a_nan(),
    ensures
        a.times(a) == b.times(b),
{
    reveal(Single::product);
    lemma_value(a);
    lemma_value(b);
}

/// `a - b` and `b - a` differ at most in their signs, so their squares are equal.
pub proof fn law_difference_mirrors(a: Single, b: Single)
    ensures
        a.minus(b).magnitude() == b.minus(a).magnitude(),
        a.minus(b).abs() == b.minus(a).abs(),
        a.minus(b).times(a.minus(b)) == b.minus(a).times(b.minus(a)),
{
    reveal(Single::sum);
    reveal(Single::product);
    let v = a.value() - b.value();
    let d = a.minus(b);
    let e = b.minus(a);
    lemma_value(a);
    lemma_value(b);
    assert(b.opposite().value() == -b.value());
    assert(a.opposite().value() == -a.value());
    lemma_rounded(v < 0, absolute(v), 1);
    lemma_rounded(-v < 0, absolute(v), 1);
    assert(d.magnitude() == e.magnitude());
    assert(absolute(d.value()) == absolute(e.value()));
}

/// Adding something that is not negative makes no number smaller, and adding something that is
/// not positive makes none greater.
pub proof fn law_sum_follows_sign(a: Single, step: Single)
    requires
        a.finite(),
        step.finite(),
    ensures
        !step.negative() ==> a.at_most(a.plus(step)),
        step.negative() ==> a.plus(step).at_most(a),
{
    reveal(Single::sum);
    let v = a.value() + step.value();
    lemma_value(a);
    lemma_value(step);
    lemma_rounded(v < 0, absolute(v), 1);
    lemma_nearest_exact(a.magnitude());
    if absolute(v) <= absolute(a.value()) {
        lemma_nearest_grows(absolute(v), absolute(a.value()), 1);
    } else {
        lemma_nearest_grows(absolute(a.value()), absolute(v), 1);
    }
}

/// Numbers compare as their values do.
pub proof fn law_order_is_that_of_values(a: Single, b: Single)
    requires
        a.finite(),
        b.finite(),
    ensures
        a.lt(b) == (a.value() < b.value()),
        a.le(b) == (a.value() <= b.value()),
        a.equals(b) == (a.value() == b.value()),
{
    lemma_value(a);
    lemma_value(b);
    if a.magnitude() < b.magnitude() {
        lemma_quanta_grows(a.magnitude(), b.magnitude());
    }
    if b.magnitude() < a.magnitude() {
        lemma_quanta_grows(b.magnitude(), a.magnitude());
    }
}

/// A sum whose exact value is a number is that number: `a + b == c` where the values say so.
pub proof fn law_exact_sums_are_exact(a: Single, b: Single, c: Single)
    requires
        a.finite(),
        b.finite(),
        c.finite(),
        a.value() + b.value() == c.value(),
    ensures
        a.plus(b).equals(c),
{
    reveal(Single::sum);
    let v = c.value();
    lemma_value(c);
    lemma_rounded(v < 0, absolute(v), 1);
    lemma_nearest_exact(c.magnitude());
}

/// The value of 1.
pub proof fn lemma_one()
    ensures
        quanta(ONE_BITS as int) == pow2(149),
{
    assert(0x3f80_0000int / 0x80_0000 == 127 && 0x3f80_0000int % 0x80_0000 == 0);
    lemma_pow2_adds(23, 126);
    lemma2_to64();
    assert(pow2(23) == 0x80_0000);
}

/// A magnitude is closest to its own value, however that is written as a fraction.
pub proof fn lemma_nearest_of_multiple(k: int, x: int, d: int)
    requires
        0 <= k <= INFINITY_MAGNITUDE,
        x == quanta(k),
        d > 0,
    ensures
        nearest(x * d, d) == k,
{
    lemma_quanta_next(k);
    if k > 0 {
        lemma_quanta_next(k - 1);
    }
    let above = double_midpoint(k);
    let below = double_midpoint(k - 1);
    assert(2 * (x * d) < above * d) by (nonlinear_arith)
        requires
            2 * x < above,
            d > 0,
    ;
    if k > 0 {
        assert(below * d < 2 * (x * d)) by (nonlinear_arith)
            requires
                below < 2 * x,
                d > 0,
        ;
    }
    lemma_nearest_unique(k, x * d, d);
}

/// Multiplying by something between -1 and 1 makes no number larger. The sign is that of two signs.
pub proof fn law_small_factors_shrink(a: Single, b: Single)
    requires
        a.finite(),
        b.magnitude() <= ONE_BITS,
    ensures
        a.times(b).magnitude() <= a.magnitude(),
        a.times(b).negative() == (a.negative() != b.negative()),
{
    reveal(Single::product);
    let x = absolute(a.value());
    let y = absolute(b.value());
    let d = pow2(149) as int;
    lemma_value(a);
    lemma_value(b);
    lemma_one();
    lemma_pow2_pos(149);
    if b.magnitude() < ONE_BITS {
        lemma_quanta_grows(b.magnitude(), ONE_BITS as int);
    }
    assert(x * y <= x * d) by (nonlinear_arith)
        requires
            0 <= y <= d,
            0 <= x,
    ;
    let k = a.magnitude();
    lemma_nearest_exact(k);
    lemma_nearest_of_multiple(k, x, d);
    lemma_nearest_grows(x * y, x * d, d);
    lemma_rounded(a.negative() != b.negative(), x * y, d);
}

/// The magnitude of twice a number.
spec fn doubled(k: int) -> int {
    if k < 0x80_0000 {
        2 * k
    } else {
        k + 0x80_0000
    }
}

proof fn lemma_doubled(k: int)
    requires
        0 <= k,
    ensures
        quanta(doubled(k)) == 2 * quanta(k),
{
    if k < 0x80_0000 {
        if 2 * k >= 0x80_0000 {
            assert((2 * k) / 0x80_0000 == 1);
            assert((2 * k) % 0x80_0000 == 2 * k - 0x80_0000);
            lemma2_to64();
            assert((0x80_0000 + (2 * k - 0x80_0000)) * pow2(0) == 2 * k);
        }
    } else {
        let e = (k / 0x80_0000 - 1) as nat;
        assert((k + 0x80_0000) / 0x80_0000 == k / 0x80_0000 + 1);
        assert((k + 0x80_0000) % 0x80_0000 == k % 0x80_0000);
        lemma_pow2_unfold(e + 1);
        let q = 0x80_0000 + k % 0x80_0000;
        let p = pow2(e) as int;
        assert(q * (2 * p) == 2 * (q * p)) by (nonlinear_arith);
    }
}

/// The value of one half.
proof fn lemma_half()
    ensures
        quanta(0x3f00_0000) == pow2(148),
        pow2(149) == 2 * pow2(148),
{
    assert(0x3f00_0000int / 0x80_0000 == 126 && 0x3f00_0000int % 0x80_0000 == 0);
    lemma_pow2_adds(23, 125);
    lemma_pow2_unfold(149);
    lemma2_to64();
    assert(pow2(23) == 0x80_0000);
}

/// Half of twice a magnitude is the magnitude.
proof fn lemma_half_of_double(k: int)
    requires
        0 <= k <= INFINITY_MAGNITUDE,
    ensures
        nearest(quanta(0x3f00_0000) * quanta(doubled(k)), pow2(149) as int) == k,
{
    lemma_doubled(k);
    lemma_half();
    lemma_pow2_pos(149);
    let h = pow2(148) as int;
    let q = quanta(k);
    let d = pow2(149) as int;
    assert(h * (2 * q) == q * d) by (nonlinear_arith)
        requires
            d == 2 * h,
    ;
    lemma_nearest_of_multiple(k, q, d);
}

/// The middle of two numbers that are not negative, half their sum, lies between them, as long as
/// twice the greater one is still a number.
pub proof fn law_middle_lies_between(low: Single, high: Single)
    requires
        !low.negative(),
        !high.negative(),
        low.at_most(high),
        high.magnitude() < 0x7f00_0000,
    ensures
        ({
            let middle = (Single { bits: 0x3f00_0000 }).times(low.plus(high));
            &&& !middle.negative()
            &&& low.at_most(middle)
            &&& middle.at_most(high)
        }),
{
    reveal(Single::sum);
    reveal(Single::product);
    let k = low.magnitude();
    let l = high.magnitude();
    let total = low.plus(high);
    let v = low.value() + high.value();
    let half = Single { bits: 0x3f00_0000 };
    lemma_value(low);
    lemma_value(high);
    if k < l {
        lemma_quanta_grows(k, l);
    }
    lemma_doubled(k);
    lemma_doubled(l);
    lemma_nearest_exact(doubled(k));
    lemma_nearest_exact(doubled(l));
    lemma_nearest_grows(quanta(doubled(k)), v, 1);
    lemma_nearest_grows(v, quanta(doubled(l)), 1);
    lemma_rounded(false, v, 1);
    let m = total.magnitude();
    assert(doubled(k) <= m <= doubled(l)) by {
        if v == 0 {
            assert(doubled(k) == 0);
        }
    }
    assert(!total.negative());
    lemma_value(total);
    if doubled(k) < m {
        lemma_quanta_grows(doubled(k), m);
    }
    if m < doubled(l) {
        lemma_quanta_grows(m, doubled(l));
    }
    lemma_half();
    lemma_value(half);
    lemma_pow2_pos(148);
    lemma_pow2_pos(149);
    lemma_half_of_double(k);
    lemma_half_of_double(l);
    let h = quanta(0x3f00_0000);
    let d = pow2(149) as int;
    let x = quanta(doubled(k));
    let y = quanta(m);
    let z = quanta(doubled(l));
    assert(h * x <= h * y && h * y <= h * z) by (nonlinear_arith)
        requires
            h > 0,
            x <= y <= z,
    ;
    lemma_nearest_grows(h * x, h * y, d);
    lemma_nearest_grows(h * y, h * z, d);
    assert(absolute(half.value()) * absolute(total.value()) == h * y);
    lemma_rounded(false, h * y, d);
}

/// What comes of a NaN is a NaN.
pub proof fn law_nan_spreads(a: Single, b: Single)
    requires
        a.is_a_nan(),
    ensures
        a.plus(b).is_a_nan(),
        b.plus(a).is_a_nan(),
        a.minus(b).is_a_nan(),
        b.minus(a).is_a_nan(),
        a.times(b).is_a_nan(),
        b.times(a).is_a_nan(),
        a.over(b).is_a_nan(),
        b.over(a).is_a_nan(),
        a.sqrt().is_a_nan(),
{
    reveal(Single::sum);
    reveal(Single::product);
    reveal(Single::quotient);
    reveal(Single::square_root);
    assert(a.opposite().magnitude() == a.magnitude());
}

/// The quotient of two positive numbers is not negative, unless it is a NaN.
pub proof fn law_quotient_of_positives(a: Single, b: Single)
    requires
        !a.negative(),
        !b.negative(),
        !a.is_a_nan(),
        !b.is_a_nan(),
    ensures
        !a.over(b).negative(),
{
    reveal(Single::quotient);
    lemma_signed(false, INFINITY_MAGNITUDE as int);
    lemma_rounded(false, absolute(a.value()) * pow2(149), absolute(b.value()));
}

/// The sum of two numbers that are not negative is no less than either.
pub proof fn law_sum_of_positives(a: Single, b: Single)
    requires
        !a.negative(),
        !b.negative(),
        !a.is_a_nan(),
        !b.is_a_nan(),
    ensures
        !a.plus(b).negative(),
        a.at_most(a.plus(b)),
{
    reveal(Single::sum);
    if a.finite() && b.finite() {
        law_sum_follows_sign(a, b);
        lemma_value(a);
        lemma_value(b);
        let v = a.value() + b.value();
        lemma_rounded(false, absolute(v), 1);
    }
}

/// Rounding keeps the order of numbers with signs.
proof fn lemma_rounded_grows(v: int, w: int)
    requires
        v <= w,
    ensures
        v != 0 && w != 0 ==> rounded(v < 0, absolute(v), 1).rank() <= rounded(w < 0, absolute(w), 1).rank(),
        v < 0 ==> rounded(true, absolute(v), 1).rank() <= 0,
        w > 0 ==> rounded(false, absolute(w), 1).rank() >= 0,
{
    lemma_rounded(v < 0, absolute(v), 1);
    lemma_rounded(w < 0, absolute(w), 1);
    if v >= 0 {
        lemma_nearest_grows(v, w, 1);
    } else if w <= 0 {
        lemma_nearest_grows(-w, -v, 1);
    }
}

/// A greater number gives no smaller sum, unless one of the sums is a NaN.
pub proof fn law_sum_grows(a: Single, b: Single, c: Single)
    requires
        a.at_most(b),
        !a.plus(c).is_a_nan(),
        !b.plus(c).is_a_nan(),
    ensures
        a.plus(c).at_most(b.plus(c)),
{
    reveal(Single::sum);
    if c.is_a_nan() {
        law_nan_spreads(c, a);
    }
    if a.finite() && b.finite() && c.finite() {
        law_order_is_that_of_values(a, b);
        lemma_signed(a.negative() && c.negative(), 0);
        lemma_signed(b.negative() && c.negative(), 0);
        lemma_rounded_grows(a.value() + c.value(), b.value() + c.value());
    } else if a.finite() && c.finite() {
        let v = a.value() + c.value();
        lemma_rounded(v < 0, absolute(v), 1);
    } else if b.finite() && c.finite() {
        let v = b.value() + c.value();
        lemma_rounded(v < 0, absolute(v), 1);
    }
}

/// Two greater numbers give no smaller sum, unless one of the sums is a NaN.
pub proof fn law_sums_grow(a: Single, b: Single, c: Single, d: Single)
    requires
        a.at_most(b),
        c.at_most(d),
        !a.plus(c).is_a_nan(),
        !b.plus(d).is_a_nan(),
    ensures
        a.plus(c).at_most(b.plus(d)),
{
    law_sum_commutes(b, c);
    law_sum_commutes(b, d);
    if b.plus(c).is_a_nan() {
        reveal(Single::sum);
        lemma_rounded(b.value() + c.value() < 0, absolute(b.value() + c.value()), 1);
        lemma_signed(b.negative() && c.negative(), 0);
    } else {
        law_sum_grows(a, b, c);
        law_sum_grows(c, d, b);
    }
}

/// The sign of a product is that of two signs.
pub proof fn law_product_sign(a: Single, b: Single)
    requires
        !a.times(b).is_a_nan(),
    ensures
        a.times(b).negative() == (a.negative() != b.negative()),
{
    reveal(Single::product);
    let n = a.negative() != b.negative();
    lemma_signed(n, INFINITY_MAGNITUDE as int);
    lemma_rounded(n, absolute(a.value()) * absolute(b.value()), pow2(149) as int);
}

/// A larger magnitude gives no smaller product.
proof fn lemma_product_magnitude_grows(a: Single, b: Single, c: Single)
    requires
        a.magnitude() <= b.magnitude(),
        !a.times(c).is_a_nan(),
        !b.times(c).is_a_nan(),
    ensures
        a.times(c).magnitude() <= b.times(c).magnitude(),
{
    reveal(Single::product);
    let d = pow2(149) as int;
    lemma_pow2_pos(149);
    lemma_signed(true, INFINITY_MAGNITUDE as int);
    lemma_signed(false, INFINITY_MAGNITUDE as int);
    let x = absolute(a.value());
    let y = absolute(b.value());
    let z = absolute(c.value());
    lemma_rounded(a.negative() != c.negative(), x * z, d);
    lemma_rounded(b.negative() != c.negative(), y * z, d);
    if b.finite() && c.finite() {
        lemma_value(a);
        lemma_value(b);
        lemma_value(c);
        if a.magnitude() < b.magnitude() {
            lemma_quanta_grows(a.magnitude(), b.magnitude());
        }
        assert(0 <= x * z <= y * z) by (nonlinear_arith)
            requires
                0 <= x <= y,
                0 <= z,
        ;
        lemma_nearest_grows(x * z, y * z, d);
    }
}

/// A greater number times one that is not negative gives no smaller product, and times one that
/// is negative no greater one, unless one of the products is a NaN.
pub proof fn law_product_grows(a: Single, b: Single, factor: Single)
    requires
        a.at_most(b),
        !a.times(factor).is_a_nan(),
        !b.times(factor).is_a_nan(),
    ensures
        !factor.negative() ==> a.times(factor).at_most(b.times(factor)),
        factor.negative() ==> b.times(factor).at_most(a.times(factor)),
{
    law_product_sign(a, factor);
    law_product_sign(b, factor);
    if a.magnitude() <= b.magnitude() {
        lemma_product_magnitude_grows(a, b, factor);
    }
    if b.magnitude() <= a.magnitude() {
        lemma_product_magnitude_grows(b, a, factor);
    }
    if !a.negative() && b.negative() {
        reveal(Single::product);
        assert(a.magnitude() == 0 && b.magnitude() == 0);
        let z = absolute(factor.value());
        assert(0 * z == 0) by (nonlinear_arith);
        lemma_pow2_pos(149);
        lemma_nearest_zero(pow2(149) as int);
        lemma_rounded(true, 0, pow2(149) as int);
        lemma_rounded(false, 0, pow2(149) as int);
    }
}

/// The square of a number is a number, and not negative.
pub proof fn law_squares_are_not_negative(a: Single)
    requires
        !a.is_a_nan(),
    ensures
        !a.times(a).is_a_nan(),
        !a.times(a).negative(),
{
    reveal(Single::product);
    lemma_signed(false, INFINITY_MAGNITUDE as int);
    lemma_rounded(false, absolute(a.value()) * absolute(a.value()), pow2(149) as int);
}

/// Twice a number is a number.
pub proof fn law_doubles_are_numbers(a: Single)
    requires
        !a.is_a_nan(),
    ensures
        !(Single { bits: 0x4000_0000 }).times(a).is_a_nan(),
{
    reveal(Single::product);
    let two = Single { bits: 0x4000_0000 };
    lemma_signed(a.negative(), INFINITY_MAGNITUDE as int);
    lemma_rounded(a.negative(), absolute(two.value()) * absolute(a.value()), pow2(149) as int);
}

/// A number times 1 is itself.
pub proof fn law_times_one(a: Single)
    requires
        a.finite(),
    ensures
        a.times(Single { bits: ONE_BITS }) == a,
{
    reveal(Single::product);
    let d = pow2(149) as int;
    lemma_one();
    lemma_value(a);
    lemma_pow2_pos(149);
    lemma_nearest_of_multiple(a.magnitude(), quanta(a.magnitude()), d);
    lemma_rounded(a.negative(), absolute(a.value()) * d, d);
    assert(absolute(a.value()) == quanta(a.magnitude()));
    assert(absolute((Single { bits: ONE_BITS }).value()) == d);
}

/// A number times -1 is its opposite.
pub proof fn law_times_minus_one(a: Single)
    requires
        a.finite(),
    ensures
        a.times((Single { bits: ONE_BITS }).negate()) == a.negate(),
{
    reveal(Single::product);
    let one = Single { bits: ONE_BITS };
    let d = pow2(149) as int;
    lemma_one();
    lemma_value(a);
    lemma_value(one);
    lemma_value(one.negate());
    lemma_pow2_pos(149);
    lemma_nearest_of_multiple(a.magnitude(), quanta(a.magnitude()), d);
    lemma_rounded(!a.negative(), absolute(a.value()) * d, d);
    assert(absolute(a.value()) == quanta(a.magnitude()));
    assert(absolute(one.negate().value()) == d);
    assert(one.negate().negative());
}

} // verus!
