//! IEEE 754 single precision numbers, computed in integer arithmetic.
//!
//! A [`Single`] is a bit pattern. Every operation returns the number that IEEE 754 prescribes:
//! the exact result, rounded once to the nearest single, ties to even. The results are the same
//! on every machine. A result that is not a number is always [`Single::nan`].
use crate::rounding::{lemma_interval_nearest, lemma_interval_nearest_root, lemma_quanta_parts, nearest, nearest_root, quanta, round_magnitude, scale_down, scale_up, INFINITY_MAGNITUDE};
use vstd::arithmetic::power2::{lemma_pow2_adds, lemma_pow2_pos, lemma_pow2_strictly_increases, pow2};
use vstd::prelude::*;

verus! {

/// The bit that holds the sign.
pub const SIGN_BIT: u32 = 0x8000_0000;

/// The bits of the one NaN that operations return.
pub const NAN_BITS: u32 = 0x7fc0_0000;

/// The bits of 1.
pub const ONE_BITS: u32 = 0x3f80_0000;

/// A single precision number, by its bits.
#[derive(Clone, Copy, Debug, PartialEq, Eq, Structural)]
pub struct Single {
    pub bits: u32,
}

/// The number with the given sign and magnitude.
pub open spec fn signed(negative: bool, magnitude: int) -> Single {
    Single { bits: (if negative { magnitude + SIGN_BIT } else { magnitude }) as u32 }
}

/// `n / d` units of 2^-149, rounded, with the given sign.
pub open spec fn rounded(negative: bool, n: int, d: int) -> Single {
    signed(negative, nearest(n, d))
}

pub open spec fn absolute(x: int) -> int {
    if x < 0 { -x } else { x }
}

impl Single {
    /// The sign bit is set.
    pub open spec fn negative(self) -> bool {
        self.bits >= SIGN_BIT
    }

    /// The bits without the sign.
    pub open spec fn magnitude(self) -> int {
        if self.bits >= SIGN_BIT {
            self.bits - SIGN_BIT
        } else {
            self.bits as int
        }
    }

    pub open spec fn is_a_nan(self) -> bool {
        self.magnitude() > INFINITY_MAGNITUDE
    }

    pub open spec fn is_infinite(self) -> bool {
        self.magnitude() == INFINITY_MAGNITUDE
    }

    pub open spec fn finite(self) -> bool {
        self.magnitude() < INFINITY_MAGNITUDE
    }

    /// The value of a finite number in units of 2^-149.
    pub open spec fn value(self) -> int {
        if self.negative() {
            -quanta(self.magnitude())
        } else {
            quanta(self.magnitude())
        }
    }

    /// An integer by which numbers that are no NaN compare; both zeros have 0.
    pub open spec fn rank(self) -> int {
        if self.negative() {
            -self.magnitude()
        } else {
            self.magnitude()
        }
    }

    pub open spec fn nan_value() -> Single {
        Single { bits: NAN_BITS }
    }

    /// `self + other`.
    #[verifier::opaque]
    pub open spec fn sum(self, other: Single) -> Single {
        if self.is_a_nan() || other.is_a_nan() {
            Self::nan_value()
        } else if self.is_infinite() {
            if other.is_infinite() && self.negative() != other.negative() {
                Self::nan_value()
            } else {
                self
            }
        } else if other.is_infinite() {
            other
        } else {
            let v = self.value() + other.value();
            if v == 0 {
                signed(self.negative() && other.negative(), 0)
            } else {
                rounded(v < 0, absolute(v), 1)
            }
        }
    }

    /// `self * other`.
    #[verifier::opaque]
    pub open spec fn product(self, other: Single) -> Single {
        let negative = self.negative() != other.negative();
        if self.is_a_nan() || other.is_a_nan() {
            Self::nan_value()
        } else if self.is_infinite() || other.is_infinite() {
            if self.magnitude() == 0 || other.magnitude() == 0 {
                Self::nan_value()
            } else {
                signed(negative, INFINITY_MAGNITUDE as int)
            }
        } else {
            rounded(negative, absolute(self.value()) * absolute(other.value()), pow2(149) as int)
        }
    }

    /// `self / other`.
    #[verifier::opaque]
    pub open spec fn quotient(self, other: Single) -> Single {
        let negative = self.negative() != other.negative();
        if self.is_a_nan() || other.is_a_nan() {
            Self::nan_value()
        } else if self.is_infinite() {
            if other.is_infinite() {
                Self::nan_value()
            } else {
                signed(negative, INFINITY_MAGNITUDE as int)
            }
        } else if other.is_infinite() {
            signed(negative, 0)
        } else if other.magnitude() == 0 {
            if self.magnitude() == 0 {
                Self::nan_value()
            } else {
                signed(negative, INFINITY_MAGNITUDE as int)
            }
        } else {
            rounded(negative, absolute(self.value()) * pow2(149), absolute(other.value()))
        }
    }

    /// The square root.
    #[verifier::opaque]
    pub open spec fn square_root(self) -> Single {
        if self.is_a_nan() {
            Self::nan_value()
        } else if self.magnitude() == 0 {
            self
        } else if self.negative() {
            Self::nan_value()
        } else if self.is_infinite() {
            self
        } else {
            signed(false, nearest_root(self.value() * pow2(149)))
        }
    }

    /// The number with the other sign.
    pub open spec fn opposite(self) -> Single {
        Single { bits: (if self.bits >= SIGN_BIT { self.bits - SIGN_BIT } else { self.bits + SIGN_BIT }) as u32 }
    }

    /// `self < other`; nothing is less than a NaN, nor a NaN less than anything.
    pub open spec fn less(self, other: Single) -> bool {
        !self.is_a_nan() && !other.is_a_nan() && self.rank() < other.rank()
    }

    /// `self <= other`.
    pub open spec fn at_most(self, other: Single) -> bool {
        !self.is_a_nan() && !other.is_a_nan() && self.rank() <= other.rank()
    }

    /// `self == other` as numbers: the zeros are equal, a NaN equals nothing.
    pub open spec fn same(self, other: Single) -> bool {
        !self.is_a_nan() && !other.is_a_nan() && self.rank() == other.rank()
    }
}

/// A significand of at most 24 bits, and an exponent in units of 2^-149.
struct Parts {
    significand: u128,
    exponent: u32,
}

impl Parts {
    spec fn of(self, x: Single) -> bool {
        &&& self.significand < 0x100_0000
        &&& self.exponent <= 253
        &&& self.significand >= 0x80_0000 || self.exponent == 0
        &&& absolute(x.value()) == self.significand * pow2(self.exponent as nat)
        &&& self.significand == 0 <==> x.magnitude() == 0
    }
}

fn split(x: Single) -> (r: Parts)
    requires
        x.finite(),
    ensures
        r.of(x),
{
    let k: u32 = if x.bits >= SIGN_BIT { x.bits - SIGN_BIT } else { x.bits };
    let field: u32 = k / 0x80_0000;
    let fraction: u32 = k % 0x80_0000;
    if field == 0 {
        proof {
            lemma_quanta_parts(fraction as int, 0);
        }
        Parts { significand: fraction as u128, exponent: 0 }
    } else {
        proof {
            lemma_quanta_parts(fraction + 0x80_0000, field - 1);
            lemma_pow2_pos((field - 1) as nat);
            let p = pow2((field - 1) as nat) as int;
            assert((fraction + 0x80_0000) * p > 0) by (nonlinear_arith)
                requires
                    p > 0,
                    fraction >= 0,
            ;
        }
        Parts { significand: (fraction as u128) + 0x80_0000, exponent: field - 1 }
    }
}

fn assemble(negative: bool, magnitude: u32) -> (r: Single)
    requires
        magnitude <= INFINITY_MAGNITUDE,
    ensures
        r == signed(negative, magnitude as int),
{
    if negative {
        Single { bits: magnitude + SIGN_BIT }
    } else {
        Single { bits: magnitude }
    }
}

impl Single {
    /// The number with these bits.
    #[verifier::allow_in_spec]
    pub fn of(bits: u32) -> (r: Single)
        returns
            (Single { bits }),
    {
        Single { bits }
    }

    pub fn zero() -> (r: Single)
        ensures
            r.bits == 0,
    {
        Single { bits: 0 }
    }

    pub fn one() -> (r: Single)
        ensures
            r.bits == ONE_BITS,
    {
        Single { bits: ONE_BITS }
    }

    pub fn nan() -> (r: Single)
        ensures
            r == Self::nan_value(),
    {
        Single { bits: NAN_BITS }
    }

    pub fn is_nan(self) -> (r: bool)
        ensures
            r == self.is_a_nan(),
    {
        if self.bits >= SIGN_BIT {
            self.bits - SIGN_BIT > INFINITY_MAGNITUDE
        } else {
            self.bits > INFINITY_MAGNITUDE
        }
    }

    pub fn is_finite(self) -> (r: bool)
        ensures
            r == self.finite(),
    {
        if self.bits >= SIGN_BIT {
            self.bits - SIGN_BIT < INFINITY_MAGNITUDE
        } else {
            self.bits < INFINITY_MAGNITUDE
        }
    }

    fn unsigned(self) -> (r: u32)
        ensures
            r == self.magnitude(),
    {
        if self.bits >= SIGN_BIT {
            self.bits - SIGN_BIT
        } else {
            self.bits
        }
    }

    /// `-self`.
    #[verifier::allow_in_spec]
    pub fn negate(self) -> (r: Single)
        returns
            self.opposite(),
    {
        if self.bits >= SIGN_BIT {
            Single { bits: self.bits - SIGN_BIT }
        } else {
            Single { bits: self.bits + SIGN_BIT }
        }
    }

    /// The absolute value.
    #[verifier::allow_in_spec]
    pub fn abs(self) -> (r: Single)
        returns
            signed(false, self.magnitude()),
    {
        Single { bits: self.unsigned() }
    }

    /// `self + other`.
    #[verifier::allow_in_spec]
    pub fn plus(self, other: Single) -> (r: Single)
        returns
            self.sum(other),
    {
        proof {
            reveal(Single::sum);
        }
        if self.is_nan() || other.is_nan() {
            return Self::nan();
        }
        let self_negative: bool = self.bits >= SIGN_BIT;
        let other_negative: bool = other.bits >= SIGN_BIT;
        if !self.is_finite() {
            if !other.is_finite() && self_negative != other_negative {
                return Self::nan();
            }
            return self;
        }
        if !other.is_finite() {
            return other;
        }
        let a = split(self);
        let b = split(other);
        if a.exponent >= b.exponent {
            add_parts(self_negative, a, other_negative, b, Ghost(self), Ghost(other))
        } else {
            add_parts(other_negative, b, self_negative, a, Ghost(other), Ghost(self))
        }
    }
}

/// The sum of two finite numbers by their parts; the first has the greater exponent.
fn add_parts(
    a_negative: bool,
    a: Parts,
    b_negative: bool,
    b: Parts,
    Ghost(x): Ghost<Single>,
    Ghost(y): Ghost<Single>,
) -> (r: Single)
    requires
        x.finite(),
        y.finite(),
        a_negative == x.negative(),
        b_negative == y.negative(),
        a.of(x),
        b.of(y),
        a.exponent >= b.exponent,
    ensures
        ({
            let v = x.value() + y.value();
            r == if v == 0 {
                signed(a_negative && b_negative, 0)
            } else {
                rounded(v < 0, absolute(v), 1)
            }
        }),
{
    let gap: u32 = a.exponent - b.exponent;
    let ghost v = x.value() + y.value();
    proof {
        lemma_quanta_sign(x.magnitude());
        lemma_quanta_sign(y.magnitude());
    }
    if gap <= 100 {
        // Both numbers are multiples of the smaller exponent's power.
        let ghost p = pow2(b.exponent as nat) as int;
        let ghost g = pow2(gap as nat) as int;
        proof {
            lemma_pow2_adds(gap as nat, b.exponent as nat);
            lemma_pow2_pos(b.exponent as nat);
            lemma_pow2_pos(gap as nat);
            lemma_pow2_bound(gap as nat, 100);
            assert(a.significand * (g * p) == (a.significand * g) * p) by (nonlinear_arith);
            assert(0 <= a.significand * g < pow2(124)) by {
                lemma_pow2_adds(24, 100);
                vstd::arithmetic::power2::lemma2_to64();
                assert(0 <= a.significand * g <= 0xff_ffff * g) by (nonlinear_arith)
                    requires
                        0 <= a.significand <= 0xff_ffff,
                        g > 0,
                ;
                assert(0xff_ffff * g < 0x100_0000 * pow2(100)) by (nonlinear_arith)
                    requires
                        0 < g <= pow2(100),
                ;
            }
            lemma_pow2_values();
        }
        let big: u128 = a.significand * power(gap);
        if a_negative == b_negative {
            let m: u128 = big + b.significand;
            proof {
                assert((big + b.significand) * p == big * p + b.significand * p) by (nonlinear_arith);
                assert(absolute(v) == m * p);
            }
            finish(a_negative, m, b.exponent, a_negative && b_negative, Ghost(v))
        } else if big >= b.significand {
            let m: u128 = big - b.significand;
            proof {
                assert((big - b.significand) * p == big * p - b.significand * p) by (nonlinear_arith);
                assert((big - b.significand) * p >= 0) by (nonlinear_arith)
                    requires
                        big >= b.significand,
                        p > 0,
                ;
                assert(v == if a_negative { -(m * p) } else { m * p });
            }
            finish(a_negative, m, b.exponent, false, Ghost(v))
        } else {
            let m: u128 = b.significand - big;
            proof {
                assert((b.significand - big) * p == b.significand * p - big * p) by (nonlinear_arith);
                assert((b.significand - big) * p >= 0) by (nonlinear_arith)
                    requires
                        b.significand >= big,
                        p > 0,
                ;
                assert(v == if b_negative { -(m * p) } else { m * p });
            }
            finish(b_negative, m, b.exponent, false, Ghost(v))
        }
    } else {
        // The second number is less than one step of the first, spread out by 76 bits.
        let wide: u128 = a.significand * 0x1000_0000_0000_0000_0000;
        let e: u32 = a.exponent - 76;
        let ghost p = pow2(e as nat) as int;
        let ghost w = absolute(y.value());
        proof {
            lemma_pow2_values();
            lemma_pow2_pos(e as nat);
            lemma_pow2_adds(76, e as nat);
            lemma_pow2_adds(24, b.exponent as nat);
            lemma_pow2_pos(b.exponent as nat);
            assert(a.significand * (pow2(76) * p) == (a.significand * pow2(76)) * p) by (nonlinear_arith);
            assert(absolute(x.value()) == wide * p);
            lemma_pow2_bound((b.exponent + 24) as nat, e as nat);
            assert(0 <= w < p) by {
                let t = pow2(b.exponent as nat) as int;
                let n = b.significand as int;
                assert(0 <= n * t < 0x100_0000 * t) by (nonlinear_arith)
                    requires
                        0 <= n < 0x100_0000,
                        t > 0,
                ;
            }
            assert((wide + 1) * p == wide * p + p && (wide - 1) * p == wide * p - p) by (nonlinear_arith);
            assert(wide * p > 0) by (nonlinear_arith)
                requires
                    wide > 0,
                    p > 0,
            ;
            let t = pow2(b.exponent as nat) as int;
            let n = b.significand as int;
            assert(n == 0 ==> n * t == 0) by (nonlinear_arith);
            assert(n > 0 ==> n * t > 0) by (nonlinear_arith)
                requires
                    t > 0,
            ;
        }
        if b.significand == 0 {
            finish(a_negative, wide, e, false, Ghost(v))
        } else if a_negative == b_negative {
            finish_inexact(a_negative, wide, e, Ghost(v))
        } else {
            finish_inexact(a_negative, wide - 1, e, Ghost(v))
        }
    }
}

proof fn lemma_quanta_sign(k: int)
    requires
        0 <= k,
    ensures
        quanta(k) >= 0,
        quanta(k) == 0 <==> k == 0,
{
    if k > 0 {
        crate::rounding::lemma_quanta_grows(0, k);
    }
}

proof fn lemma_pow2_bound(a: nat, b: nat)
    requires
        a <= b,
    ensures
        pow2(a) <= pow2(b),
{
    if a < b {
        lemma_pow2_strictly_increases(a, b);
    }
}

proof fn lemma_pow2_values()
    ensures
        pow2(0) == 1,
        pow2(1) == 2,
        pow2(23) == 0x80_0000,
        pow2(24) == 0x100_0000,
        pow2(25) == 0x200_0000,
        pow2(60) == 0x1000_0000_0000_0000,
        pow2(64) == 0x1_0000_0000_0000_0000,
        pow2(76) == 0x1000_0000_0000_0000_0000,
        pow2(100) == 0x1_0000_0000_0000_0000_0000_0000_0,
        pow2(124) == 0x1000_0000_0000_0000_0000_0000_0000_0000,
        pow2(126) == 0x4000_0000_0000_0000_0000_0000_0000_0000,
{
    vstd::arithmetic::power2::lemma2_to64();
    vstd::arithmetic::power2::lemma2_to64_rest();
    lemma_pow2_adds(60, 16);
    lemma_pow2_adds(76, 24);
    lemma_pow2_adds(100, 24);
    lemma_pow2_adds(124, 2);
}

/// `2^s`.
fn power(s: u32) -> (r: u128)
    requires
        s <= 126,
    ensures
        r == pow2(s as nat),
{
    crate::rounding::power_of_two(s)
}

/// Rounds the integer `v`, which is `m * 2^e` with a sign.
fn finish(negative: bool, m: u128, e: u32, zero_negative: bool, Ghost(v): Ghost<int>) -> (r: Single)
    requires
        m < pow2(126),
        e <= 253,
        v == if negative { -(m * pow2(e as nat)) } else { m * pow2(e as nat) },
    ensures
        v == 0 ==> r == signed(zero_negative, 0),
        v != 0 ==> r == rounded(v < 0, absolute(v), 1),
{
    proof {
        lemma_pow2_pos(e as nat);
        lemma_pow2_values();
        let p = pow2(e as nat) as int;
        assert((m == 0 ==> m * p == 0) && (m > 0 ==> m * p > 0)) by (nonlinear_arith)
            requires
                p > 0,
        ;
    }
    if m == 0 {
        return assemble(zero_negative, 0);
    }
    let k: u32 = round_magnitude(m, e as i32, false);
    proof {
        assert(1 * m * scale_up(e as int) == m * pow2(e as nat)) by (nonlinear_arith)
            requires
                scale_up(e as int) == pow2(e as nat),
        ;
        assert(absolute(v) * scale_down(e as int) == absolute(v)) by (nonlinear_arith)
            requires
                scale_down(e as int) == 1,
        ;
        lemma_interval_nearest(k as int, m as int, e as int, false, absolute(v), 1);
    }
    assemble(negative, k)
}

/// Rounds the integer `v`, which lies strictly between `m * 2^e` and `(m + 1) * 2^e` with a
/// sign.
fn finish_inexact(negative: bool, m: u128, e: u32, Ghost(v): Ghost<int>) -> (r: Single)
    requires
        0x200_0000 <= m < pow2(126),
        e <= 253,
        v < 0 <==> negative,
        m * pow2(e as nat) < absolute(v) < (m + 1) * pow2(e as nat),
    ensures
        v != 0,
        r == rounded(v < 0, absolute(v), 1),
{
    proof {
        lemma_pow2_values();
        lemma_pow2_pos(e as nat);
        let p = pow2(e as nat) as int;
        assert(m * p > 0) by (nonlinear_arith)
            requires
                p > 0,
                m > 0,
        ;
    }
    let k: u32 = round_magnitude(m, e as i32, true);
    proof {
        assert(1 * m * scale_up(e as int) == m * pow2(e as nat)) by (nonlinear_arith)
            requires
                scale_up(e as int) == pow2(e as nat),
        ;
        assert(1 * (m + 1) * scale_up(e as int) == (m + 1) * pow2(e as nat)) by (nonlinear_arith)
            requires
                scale_up(e as int) == pow2(e as nat),
        ;
        assert(absolute(v) * scale_down(e as int) == absolute(v)) by (nonlinear_arith)
            requires
                scale_down(e as int) == 1,
        ;
        lemma_interval_nearest(k as int, m as int, e as int, true, absolute(v), 1);
    }
    assemble(negative, k)
}

/// The greatest number whose square is at most `n`.
fn integer_root(n: u128) -> (r: u128)
    requires
        n < pow2(86),
    ensures
        r * r <= n < (r + 1) * (r + 1),
        r < 0x800_0000_0000,
{
    let mut low: u128 = 0;
    let mut high: u128 = 0x800_0000_0000;
    proof {
        lemma_pow2_values();
        lemma_pow2_adds(76, 10);
        vstd::arithmetic::power2::lemma2_to64();
        assert(high * high == pow2(86));
    }
    while high - low > 1
        invariant
            low < high <= 0x800_0000_0000,
            low * low <= n < high * high,
        decreases high - low,
    {
        let middle: u128 = (low + high) / 2;
        assert(middle * middle <= 0x800_0000_0000 * 0x800_0000_0000) by (nonlinear_arith)
            requires
                0 <= middle <= 0x800_0000_0000,
        ;
        if middle * middle <= n {
            low = middle;
        } else {
            high = middle;
        }
    }
    low
}

impl Single {
    /// `self - other`.
    #[verifier::allow_in_spec]
    pub fn minus(self, other: Single) -> (r: Single)
        returns
            self.sum(other.opposite()),
    {
        self.plus(other.negate())
    }

    /// `self * other`.
    #[verifier::allow_in_spec]
    pub fn times(self, other: Single) -> (r: Single)
        returns
            self.product(other),
    {
        proof {
            reveal(Single::product);
        }
        if self.is_nan() || other.is_nan() {
            return Self::nan();
        }
        let negative: bool = (self.bits >= SIGN_BIT) != (other.bits >= SIGN_BIT);
        if !self.is_finite() || !other.is_finite() {
            if self.unsigned() == 0 || other.unsigned() == 0 {
                return Self::nan();
            }
            return assemble(negative, INFINITY_MAGNITUDE);
        }
        let a = split(self);
        let b = split(other);
        let e: i32 = (a.exponent as i32) + (b.exponent as i32) - 149;
        assert(a.significand * b.significand <= 0xff_ffff * 0xff_ffff) by (nonlinear_arith)
            requires
                a.significand <= 0xff_ffff,
                b.significand <= 0xff_ffff,
        ;
        let m: u128 = a.significand * b.significand;
        proof {
            lemma_pow2_values();
        }
        let k: u32 = round_magnitude(m, e, false);
        proof {
            let x = pow2(a.exponent as nat) as int;
            let y = pow2(b.exponent as nat) as int;
            let n = absolute(self.value()) * absolute(other.value());
            let d = pow2(149) as int;
            let up = scale_up(e as int);
            let down = scale_down(e as int);
            lemma_pow2_adds(a.exponent as nat, b.exponent as nat);
            crate::rounding::lemma_scales_meet(e as int, 149);
            lemma_pow2_pos(149);
            let sa = a.significand as int;
            let sb = b.significand as int;
            assert(n == m * (x * y)) by (nonlinear_arith)
                requires
                    n == (sa * x) * (sb * y),
                    m == sa * sb,
            ;
            assert(d * m * up == n * down) by (nonlinear_arith)
                requires
                    n == m * (x * y),
                    d * up == (x * y) * down,
            ;
            lemma_interval_nearest(k as int, m as int, e as int, false, n, d);
        }
        assemble(negative, k)
    }

    /// `self / other`.
    #[verifier::allow_in_spec]
    pub fn over(self, other: Single) -> (r: Single)
        returns
            self.quotient(other),
    {
        proof {
            reveal(Single::quotient);
        }
        if self.is_nan() || other.is_nan() {
            return Self::nan();
        }
        let negative: bool = (self.bits >= SIGN_BIT) != (other.bits >= SIGN_BIT);
        if !self.is_finite() {
            if !other.is_finite() {
                return Self::nan();
            }
            return assemble(negative, INFINITY_MAGNITUDE);
        }
        if !other.is_finite() {
            return assemble(negative, 0);
        }
        if other.unsigned() == 0 {
            if self.unsigned() == 0 {
                return Self::nan();
            }
            return assemble(negative, INFINITY_MAGNITUDE);
        }
        let a = split(self);
        let b = split(other);
        let e: i32 = (a.exponent as i32) - (b.exponent as i32) + 89;
        let wide: u128 = a.significand * 0x1000_0000_0000_0000;
        let m: u128 = wide / b.significand;
        let rest: u128 = wide % b.significand;
        proof {
            lemma_pow2_values();
            vstd::arithmetic::div_mod::lemma_fundamental_div_mod(wide as int, b.significand as int);
            if wide > 0 {
                assert(m >= 0x200_0000) by (nonlinear_arith)
                    requires
                        wide >= 0x1000_0000_0000_0000,
                        wide == b.significand * m + rest,
                        rest < b.significand,
                        0 < b.significand < 0x100_0000,
                        m >= 0,
                ;
            }
        }
        let k: u32 = round_magnitude(m, e, rest != 0);
        proof {
            let x = pow2(a.exponent as nat) as int;
            let y = pow2(b.exponent as nat) as int;
            let n = absolute(self.value()) * pow2(149);
            let d = absolute(other.value());
            let up = scale_up(e as int);
            let down = scale_down(e as int);
            let big = pow2(149) as int;
            let step = pow2(60) as int;
            let s: int = b.exponent + 60;
            lemma_pow2_adds(a.exponent as nat, 149);
            lemma_pow2_adds(b.exponent as nat, 60);
            lemma_pow2_pos(b.exponent as nat);
            crate::rounding::lemma_scales_meet(e as int, s);
            assert(e + s == a.exponent + 149);
            let sa = a.significand as int;
            let sb = b.significand as int;
            assert(n * down == sa * ((x * big) * down)) by (nonlinear_arith)
                requires
                    n == (sa * x) * big,
            ;
            assert(sa * ((y * step) * up) == (sa * step) * (y * up)) by (nonlinear_arith);
            assert((sa * step) * (y * up) == (sb * m + rest) * (y * up));
            assert(n * down == d * m * up + rest * (y * up)) by (nonlinear_arith)
                requires
                    n * down == (sb * m + rest) * (y * up),
                    d == sb * y,
            ;
            assert(d * (m + 1) * up == d * m * up + sb * (y * up)) by (nonlinear_arith)
                requires
                    d == sb * y,
            ;
            assert(y * up > 0 && d > 0) by (nonlinear_arith)
                requires
                    y > 0,
                    up > 0,
                    sb > 0,
                    d == sb * y,
            ;
            let z = y * up;
            assert(rest * z < sb * z) by (nonlinear_arith)
                requires
                    rest < sb,
                    z > 0,
            ;
            assert((rest == 0 ==> rest * z == 0) && (rest > 0 ==> rest * z > 0)) by (nonlinear_arith)
                requires
                    z > 0,
            ;
            lemma_interval_nearest(k as int, m as int, e as int, rest != 0, n, d);
        }
        assemble(negative, k)
    }

    /// The square root.
    #[verifier::allow_in_spec]
    pub fn sqrt(self) -> (r: Single)
        returns
            self.square_root(),
    {
        proof {
            reveal(Single::square_root);
        }
        if self.is_nan() {
            return Self::nan();
        }
        if self.unsigned() == 0 {
            return self;
        }
        if self.bits >= SIGN_BIT {
            return Self::nan();
        }
        if !self.is_finite() {
            return self;
        }
        let a = split(self);
        // An even number of the exponent's bits stays outside the root.
        let inside: u32 = if a.exponent % 2 == 1 { 60 } else { 61 };
        let e: u32 = (a.exponent + 149 - inside) / 2;
        proof {
            lemma_pow2_values();
            lemma_pow2_adds(60, 1);
            lemma_pow2_adds(60, 26);
            lemma_pow2_adds(25, 1);
            assert(0 < a.significand * pow2(inside as nat) < pow2(86)) by (nonlinear_arith)
                requires
                    0 < a.significand < 0x100_0000,
                    0 < pow2(inside as nat) <= 2 * pow2(60),
                    pow2(86) == pow2(60) * 0x400_0000,
            ;
            lemma_pow2_strictly_increases(86, 124);
        }
        let n: u128 = a.significand * power(inside);
        let m: u128 = integer_root(n);
        let inexact: bool = m * m != n;
        proof {
            assert(n >= pow2(60)) by (nonlinear_arith)
                requires
                    n == a.significand * pow2(inside as nat),
                    a.significand >= 1,
                    pow2(inside as nat) >= pow2(60),
            ;
            assert(m >= 0x200_0000) by (nonlinear_arith)
                requires
                    n >= 0x1000_0000_0000_0000,
                    n < (m + 1) * (m + 1),
                    m >= 0,
            ;
        }
        let k: u32 = round_magnitude(m, e as i32, inexact);
        proof {
            let x = pow2(a.exponent as nat) as int;
            let p = pow2(e as nat) as int;
            let w = self.value() * pow2(149);
            let i = pow2(inside as nat) as int;
            lemma_pow2_pos(e as nat);
            lemma_pow2_adds(a.exponent as nat, 149);
            lemma_pow2_adds(e as nat, e as nat);
            lemma_pow2_adds(inside as nat, (2 * e) as nat);
            assert(inside + 2 * e == a.exponent + 149);
            crate::rounding::lemma_quanta_grows(0, self.magnitude());
            let sa = a.significand as int;
            assert(w == n * (p * p)) by (nonlinear_arith)
                requires
                    w == (sa * x) * pow2(149),
                    x * pow2(149) == i * (p * p),
                    n == sa * i,
            ;
            assert((m * p) * (m * p) == (m * m) * (p * p)) by (nonlinear_arith);
            assert(((m + 1) * p) * ((m + 1) * p) == ((m + 1) * (m + 1)) * (p * p)) by (nonlinear_arith);
            let z = p * p;
            assert(z > 0) by (nonlinear_arith)
                requires
                    z == p * p,
                    p > 0,
            ;
            let s1 = (m * m) as int;
            let s2 = (m + 1) * (m + 1);
            assert(n * z < s2 * z && (s1 < n ==> s1 * z < n * z)) by (nonlinear_arith)
                requires
                    z > 0,
                    n < s2,
            ;
            lemma_interval_nearest_root(k as int, m as int, e as int, inexact, w);
        }
        assemble(false, k)
    }

    /// The integer that orders numbers, as a machine integer.
    fn ranked(self) -> (r: i64)
        ensures
            r == self.rank(),
    {
        if self.bits >= SIGN_BIT {
            -((self.bits - SIGN_BIT) as i64)
        } else {
            self.bits as i64
        }
    }

    /// `self < other`.
    #[verifier::allow_in_spec]
    pub fn lt(self, other: Single) -> (r: bool)
        returns
            self.less(other),
    {
        !self.is_nan() && !other.is_nan() && self.ranked() < other.ranked()
    }

    /// `self <= other`.
    #[verifier::allow_in_spec]
    pub fn le(self, other: Single) -> (r: bool)
        returns
            self.at_most(other),
    {
        !self.is_nan() && !other.is_nan() && self.ranked() <= other.ranked()
    }

    /// `self > other`.
    #[verifier::allow_in_spec]
    pub fn gt(self, other: Single) -> (r: bool)
        returns
            other.less(self),
    {
        other.lt(self)
    }

    /// `self >= other`.
    #[verifier::allow_in_spec]
    pub fn ge(self, other: Single) -> (r: bool)
        returns
            other.at_most(self),
    {
        other.le(self)
    }

    /// `self == other` as numbers.
    #[verifier::allow_in_spec]
    pub fn equals(self, other: Single) -> (r: bool)
        returns
            self.same(other),
    {
        !self.is_nan() && !other.is_nan() && self.ranked() == other.ranked()
    }

    /// The greater of two numbers; of a NaN and a number, the number.
    pub open spec fn greater_of(self, other: Single) -> Single {
        if self.is_a_nan() || self.less(other) {
            other
        } else {
            self
        }
    }

    /// The smaller of two numbers; of a NaN and a number, the number.
    pub open spec fn smaller_of(self, other: Single) -> Single {
        if self.is_a_nan() || other.less(self) {
            other
        } else {
            self
        }
    }

    #[verifier::allow_in_spec]
    pub fn max(self, other: Single) -> (r: Single)
        returns
            self.greater_of(other),
    {
        if self.is_nan() || self.lt(other) {
            other
        } else {
            self
        }
    }

    #[verifier::allow_in_spec]
    pub fn min(self, other: Single) -> (r: Single)
        returns
            self.smaller_of(other),
    {
        if self.is_nan() || other.lt(self) {
            other
        } else {
            self
        }
    }

    /// The closest number between `low` and `high`; a NaN stays a NaN.
    pub open spec fn within(self, low: Single, high: Single) -> Single {
        if self.less(low) {
            low
        } else if high.less(self) {
            high
        } else {
            self
        }
    }

    #[verifier::allow_in_spec]
    pub fn clamp(self, low: Single, high: Single) -> (r: Single)
        requires
            low.at_most(high),
        returns
            self.within(low, high),
    {
        if self.lt(low) {
            low
        } else if high.lt(self) {
            high
        } else {
            self
        }
    }
}

impl Single {
    /// The whole number below, as an unsigned integer: a NaN and everything below 1 give 0, and
    /// what is too large gives the largest integer.
    pub open spec fn truncated(self) -> int {
        if self.is_a_nan() || self.negative() {
            0
        } else if self.is_infinite() || self.value() / (pow2(149) as int) > u32::MAX {
            u32::MAX as int
        } else {
            self.value() / (pow2(149) as int)
        }
    }

    /// The closest whole number, the greater one of two that are equally close, as an unsigned
    /// integer: a NaN and everything below 1/2 give 0, and what is too large gives the largest
    /// integer.
    pub open spec fn to_closest(self) -> int {
        if self.is_a_nan() || self.negative() {
            0
        } else if self.is_infinite() || (self.value() * 2 + pow2(149)) / (2 * pow2(149) as int) > u32::MAX {
            u32::MAX as int
        } else {
            (self.value() * 2 + pow2(149)) / (2 * pow2(149) as int)
        }
    }

    /// `self as u32`.
    pub fn truncate(self) -> (r: u32)
        ensures
            r == self.truncated(),
    {
        self.integer(false)
    }

    /// `self.round() as u32`.
    pub fn round(self) -> (r: u32)
        ensures
            r == self.to_closest(),
    {
        self.integer(true)
    }

    fn integer(self, closest: bool) -> (r: u32)
        ensures
            r == if closest { self.to_closest() } else { self.truncated() },
    {
        if self.is_nan() || self.bits >= SIGN_BIT {
            return 0;
        }
        if !self.is_finite() {
            return u32::MAX;
        }
        let a = split(self);
        let ghost unit = pow2(149) as int;
        let ghost n = a.significand as int;
        let ghost x = pow2(a.exponent as nat) as int;
        proof {
            lemma_pow2_values();
            lemma_pow2_pos(149);
            lemma_quanta_sign(self.magnitude());
        }
        if a.exponent >= 149 {
            let s: u32 = a.exponent - 149;
            let ghost p = pow2(s as nat) as int;
            proof {
                lemma_pow2_adds(s as nat, 149);
                lemma_pow2_pos(s as nat);
                assert(n * (p * unit) == (n * p) * unit) by (nonlinear_arith);
                lemma_whole_quotients(n * p, unit);
            }
            if s > 8 {
                proof {
                    lemma_pow2_bound(9, s as nat);
                    vstd::arithmetic::power2::lemma2_to64();
                    assert(n * p >= 0x80_0000 * 512) by (nonlinear_arith)
                        requires
                            n >= 0x80_0000,
                            p >= 512,
                    ;
                }
                return u32::MAX;
            }
            proof {
                lemma_pow2_bound(s as nat, 8);
                vstd::arithmetic::power2::lemma2_to64();
                assert(0 <= n * p <= 0xff_ffff * 256) by (nonlinear_arith)
                    requires
                        0 <= n <= 0xff_ffff,
                        0 < p <= 256,
                ;
            }
            let r: u128 = a.significand * power(s);
            if r > 0xffff_ffff {
                u32::MAX
            } else {
                r as u32
            }
        } else {
            let s: u32 = 149 - a.exponent;
            let ghost p = pow2(s as nat) as int;
            proof {
                lemma_pow2_adds(s as nat, a.exponent as nat);
                lemma_pow2_pos(s as nat);
                lemma_pow2_pos(a.exponent as nat);
                lemma_scaled_quotients(n, x, p);
            }
            if s > 25 {
                proof {
                    lemma_pow2_bound(26, s as nat);
                    lemma_pow2_adds(25, 1);
                    vstd::arithmetic::div_mod::lemma_basic_div(n, p);
                    vstd::arithmetic::div_mod::lemma_basic_div(2 * n + p, 2 * p);
                }
                return 0;
            }
            proof {
                lemma_pow2_bound(s as nat, 25);
            }
            let d: u128 = power(s);
            let r: u128 = if closest { (2 * a.significand + d) / (2 * d) } else { a.significand / d };
            proof {
                vstd::arithmetic::div_mod::lemma_div_is_ordered_by_denominator(n, 1, p);
                vstd::arithmetic::div_mod::lemma_div_is_ordered_by_denominator(2 * n + p, 1, 2 * p);
            }
            r as u32
        }
    }

    /// The number closest to an integer.
    pub open spec fn of_integer(n: int) -> Single {
        rounded(false, n * pow2(149), 1)
    }

    /// `n as` a single.
    pub fn from_u64(n: u64) -> (r: Single)
        ensures
            r == Self::of_integer(n as int),
    {
        proof {
            lemma_pow2_values();
            lemma_pow2_pos(149);
        }
        let k: u32 = round_magnitude(n as u128, 149, false);
        proof {
            let up = scale_up(149);
            let v = n * pow2(149);
            assert(1 * n * up == v * 1) by (nonlinear_arith)
                requires
                    up == pow2(149),
                    v == n * pow2(149),
            ;
            lemma_interval_nearest(k as int, n as int, 149, false, v, 1);
        }
        assemble(false, k)
    }
}

proof fn lemma_whole_quotients(w: int, unit: int)
    requires
        w >= 0,
        unit > 0,
    ensures
        (w * unit) / unit == w,
        ((w * unit) * 2 + unit) / (2 * unit) == w,
{
    vstd::arithmetic::div_mod::lemma_div_multiples_vanish(w, unit);
    assert(unit * w == w * unit) by (nonlinear_arith);
    assert((w * unit) * 2 + unit == w * (2 * unit) + unit) by (nonlinear_arith);
    vstd::arithmetic::div_mod::lemma_fundamental_div_mod_converse(w * (2 * unit) + unit, 2 * unit, w, unit);
}

proof fn lemma_scaled_quotients(n: int, x: int, p: int)
    requires
        n >= 0,
        x > 0,
        p > 0,
    ensures
        (n * x) / (p * x) == n / p,
        ((n * x) * 2 + p * x) / (2 * (p * x)) == (2 * n + p) / (2 * p),
{
    assert(x * n == n * x && x * p == p * x) by (nonlinear_arith);
    vstd::arithmetic::div_mod::lemma_div_denominator(n * x, x, p);
    vstd::arithmetic::div_mod::lemma_div_multiples_vanish(n, x);
    let w = 2 * n + p;
    assert((n * x) * 2 + p * x == w * x) by (nonlinear_arith)
        requires
            w == 2 * n + p,
    ;
    assert(2 * (p * x) == x * (2 * p)) by (nonlinear_arith);
    assert(w * x == x * w) by (nonlinear_arith);
    vstd::arithmetic::div_mod::lemma_div_denominator(w * x, x, 2 * p);
    vstd::arithmetic::div_mod::lemma_div_multiples_vanish(w, x);
}

} // verus!
