use rocketsim::math::{Affine3A, Mat3A, Vec3A};
use rocketsim::single::Single;

fn single(x: f32) -> Single {
    Single::of(x.to_bits())
}

fn same(r: Single, x: f32) -> bool {
    if x.is_nan() {
        r == Single::nan()
    } else {
        r.bits == x.to_bits()
    }
}

/// Bit patterns that cover the zeros, subnormals, ties, infinities and NaNs.
const EDGES: [u32; 24] = [
    0x0000_0000, 0x8000_0000, 0x0000_0001, 0x8000_0001, 0x007f_ffff, 0x0080_0000, 0x0080_0001, 0x00ff_ffff,
    0x3f7f_ffff, 0x3f80_0000, 0x3f80_0001, 0xbf80_0000, 0x4000_0000, 0x4b7f_ffff, 0x4b80_0000, 0x4f80_0000,
    0x7f7f_ffff, 0xff7f_ffff, 0x7f80_0000, 0xff80_0000, 0x7fc0_0000, 0x7f80_0001, 0xffc0_1234, 0x3400_0000,
];

struct Bits(u64);

impl Bits {
    fn next(&mut self) -> u32 {
        self.0 ^= self.0 << 13;
        self.0 ^= self.0 >> 7;
        self.0 ^= self.0 << 17;
        (self.0 >> 16) as u32
    }

    /// A number of an ordinary size.
    fn plain(&mut self) -> f32 {
        let bits = self.next();
        f32::from_bits((bits & 0x807f_ffff) | ((120 + (bits >> 23) % 16) << 23))
    }
}

fn check_pair(a: u32, b: u32) {
    let (x, y) = (f32::from_bits(a), f32::from_bits(b));
    let (s, t) = (Single::of(a), Single::of(b));
    assert!(same(s.plus(t), x + y), "{x:e} + {y:e}");
    assert!(same(s.minus(t), x - y), "{x:e} - {y:e}");
    assert!(same(s.times(t), x * y), "{x:e} * {y:e}");
    assert!(same(s.over(t), x / y), "{x:e} / {y:e}");
    assert_eq!(s.lt(t), x < y);
    assert_eq!(s.le(t), x <= y);
    assert_eq!(s.gt(t), x > y);
    assert_eq!(s.ge(t), x >= y);
    assert_eq!(s.equals(t), x == y);
    if !x.is_nan() && !y.is_nan() && x != y {
        assert_eq!(s.max(t).bits, x.max(y).to_bits());
        assert_eq!(s.min(t).bits, x.min(y).to_bits());
    }
}

fn check_one(a: u32) {
    let x = f32::from_bits(a);
    let s = Single::of(a);
    assert!(same(s.sqrt(), x.sqrt()), "sqrt {x:e}");
    assert_eq!(s.negate().bits, (-x).to_bits());
    assert_eq!(s.abs().bits, x.abs().to_bits());
    assert_eq!(s.is_nan(), x.is_nan());
    assert_eq!(s.is_finite(), x.is_finite());
    assert_eq!(s.truncate(), x as u32);
    assert_eq!(s.round(), x.round() as u32);
}

#[test]
fn arithmetic_is_that_of_the_machine() {
    for &a in &EDGES {
        check_one(a);
        for &b in &EDGES {
            check_pair(a, b);
        }
    }
    let mut bits = Bits(0x9e37_79b9_7f4a_7c15);
    for _ in 0..40_000 {
        let (a, b) = (bits.next(), bits.next());
        check_one(a);
        check_pair(a, b);
    }
}

#[test]
fn close_numbers_cancel_as_on_the_machine() {
    let mut bits = Bits(0x1234_5678_9abc_def1);
    for _ in 0..40_000 {
        let a = bits.next();
        let b = a ^ (bits.next() % 64) ^ 0x8000_0000;
        check_pair(a, b);
        check_pair(bits.plain().to_bits(), bits.plain().to_bits());
    }
}

#[test]
fn integers_become_the_closest_number() {
    let mut bits = Bits(77);
    for n in [0u64, 1, 2, 3, 0xff_ffff, 0x100_0001, 0x100_0003, u64::MAX, u64::MAX - 1, 1 << 63] {
        assert_eq!(Single::from_u64(n).bits, (n as f32).to_bits());
    }
    for _ in 0..10_000 {
        let n = ((bits.next() as u64) << 32 | bits.next() as u64) >> (bits.next() % 64);
        assert_eq!(Single::from_u64(n).bits, (n as f32).to_bits());
    }
}

#[test]
fn clamping_keeps_within_bounds() {
    let (low, high) = (single(-1.5), single(2.0));
    assert_eq!(single(-3.0).clamp(low, high), low);
    assert_eq!(single(3.0).clamp(low, high), high);
    assert_eq!(single(0.25).clamp(low, high), single(0.25));
    assert!(Single::nan().clamp(low, high).is_nan());
}

#[test]
fn sums_and_products_commute() {
    let mut bits = Bits(4242);
    for _ in 0..10_000 {
        let (a, b) = (Single::of(bits.next()), Single::of(bits.next()));
        assert_eq!(a.plus(b), b.plus(a));
        assert_eq!(a.times(b), b.times(a));
        assert_eq!(a.minus(b).abs(), b.minus(a).abs());
    }
}

#[test]
fn the_middle_lies_between() {
    let mut bits = Bits(31337);
    for _ in 0..10_000 {
        let (a, b) = (Single::of(bits.next() & 0x7eff_ffff), Single::of(bits.next() & 0x7eff_ffff));
        let (low, high) = if a.le(b) { (a, b) } else { (b, a) };
        let middle = single(0.5).times(low.plus(high));
        assert!(low.le(middle) && middle.le(high));
    }
}

fn vec(v: glam::Vec3A) -> Vec3A {
    Vec3A::new(single(v.x), single(v.y), single(v.z))
}

fn mat(m: glam::Mat3A) -> Mat3A {
    Mat3A::from_cols(vec(m.x_axis), vec(m.y_axis), vec(m.z_axis))
}

fn random_vec(bits: &mut Bits) -> glam::Vec3A {
    glam::Vec3A::new(bits.plain(), bits.plain(), bits.plain())
}

fn random_mat(bits: &mut Bits) -> glam::Mat3A {
    glam::Mat3A::from_cols(random_vec(bits), random_vec(bits), random_vec(bits))
}

#[test]
fn vectors_are_those_of_glam() {
    let mut bits = Bits(99);
    for _ in 0..5_000 {
        let (a, b) = (random_vec(&mut bits), random_vec(&mut bits));
        let s = bits.plain();
        let (p, q) = (vec(a), vec(b));
        assert_eq!(p.plus(q), vec(a + b));
        assert_eq!(p.minus(q), vec(a - b));
        assert_eq!(p.times(q), vec(a * b));
        assert_eq!(p.scale(single(s)), vec(a * s));
        assert_eq!(p.over(single(s)), vec(a / s));
        assert_eq!(p.negate(), vec(-a));
        assert_eq!(p.dot(q), single(a.dot(b)));
        assert_eq!(p.cross(q), vec(a.cross(b)));
        assert_eq!(p.length(), single(a.length()));
        assert_eq!(p.length_squared(), single(a.length_squared()));
        assert_eq!(p.normalize_or_zero(), vec(a.normalize_or_zero()));
        let bound = b.abs();
        assert_eq!(p.clamp(vec(-bound), vec(bound)), vec(a.clamp(-bound, bound)));
    }
    assert_eq!(vec(glam::Vec3A::ZERO).try_normalize(), None);
    assert_eq!(vec(glam::Vec3A::ZERO).normalize_or_zero(), Vec3A::zero());
    assert!(vec(glam::Vec3A::new(0.0, -0.0, 1.0)).equals(vec(glam::Vec3A::new(-0.0, 0.0, 1.0))));
}

#[test]
fn maps_are_those_of_glam() {
    let mut bits = Bits(123);
    for _ in 0..5_000 {
        let (m, n) = (random_mat(&mut bits), random_mat(&mut bits));
        let (v, t, u) = (random_vec(&mut bits), random_vec(&mut bits), random_vec(&mut bits));
        assert_eq!(mat(m).mul_vec3a(vec(v)), vec(m * v));
        assert_eq!(mat(m).mul_mat3a(mat(n)), mat(m * n));
        assert_eq!(mat(m).transpose(), mat(m.transpose()));
        assert_eq!(mat(m).mul_transpose_vec3a(vec(v)), vec(m.mul_transpose_vec3a(v)));
        let a = glam::Affine3A { matrix3: m, translation: t };
        let b = glam::Affine3A { matrix3: n, translation: u };
        let (x, y) = (
            Affine3A { matrix3: mat(m), translation: vec(t) },
            Affine3A { matrix3: mat(n), translation: vec(u) },
        );
        assert_eq!(x.transform_point3a(vec(v)), vec(a.transform_point3a(v)));
        assert_eq!(x.transform_vector3a(vec(v)), vec(a.transform_vector3a(v)));
        let c = a * b;
        assert_eq!(x.after(y).matrix3, mat(c.matrix3));
        assert_eq!(x.after(y).translation, vec(c.translation));
    }
}

#[test]
fn a_rigid_map_goes_back() {
    // A quarter turn about the vertical axis, exact in every component.
    let turn = glam::Mat3A::from_cols(glam::Vec3A::Y, -glam::Vec3A::X, glam::Vec3A::Z);
    let there = Affine3A { matrix3: mat(turn), translation: vec(glam::Vec3A::new(4.0, -2.0, 8.0)) };
    let p = vec(glam::Vec3A::new(1.0, 2.0, 3.0));
    let q = there.transform_point3a(p);
    assert_eq!(q, vec(glam::Vec3A::new(2.0, -1.0, 11.0)));
    assert_eq!(there.inv_x_form(q), p);
    assert_eq!(there.transpose().transform_point3a(q), p);
}
