//! Vectors, matrices and rigid transforms over [`Single`].
//!
//! Every operation rounds as the scalar formula in its contract says, in that order, so results
//! do not depend on the machine.
use crate::single::Single;
use vstd::prelude::*;

verus! {

/// A vector with three components.
#[derive(Clone, Copy, Debug, PartialEq, Eq, Structural)]
pub struct Vec3A {
    pub x: Single,
    pub y: Single,
    pub z: Single,
}

impl Vec3A {
    /// Every component is finite.
    pub open spec fn finite(self) -> bool {
        self.x.finite() && self.y.finite() && self.z.finite()
    }

    #[verifier::allow_in_spec]
    pub fn new(x: Single, y: Single, z: Single) -> (r: Vec3A)
        returns
            (Vec3A { x, y, z }),
    {
        Vec3A { x, y, z }
    }

    #[verifier::allow_in_spec]
    pub fn splat(v: Single) -> (r: Vec3A)
        returns
            (Vec3A { x: v, y: v, z: v }),
    {
        Vec3A { x: v, y: v, z: v }
    }

    /// The zero vector.
    #[verifier::allow_in_spec]
    pub fn zero() -> (r: Vec3A)
        returns
            (Vec3A { x: Single { bits: 0 }, y: Single { bits: 0 }, z: Single { bits: 0 } }),
    {
        Vec3A { x: Single { bits: 0 }, y: Single { bits: 0 }, z: Single { bits: 0 } }
    }

    #[verifier::allow_in_spec]
    pub fn plus(self, other: Vec3A) -> (r: Vec3A)
        returns
            (Vec3A { x: self.x.plus(other.x), y: self.y.plus(other.y), z: self.z.plus(other.z) }),
    {
        Vec3A { x: self.x.plus(other.x), y: self.y.plus(other.y), z: self.z.plus(other.z) }
    }

    #[verifier::allow_in_spec]
    pub fn minus(self, other: Vec3A) -> (r: Vec3A)
        returns
            (Vec3A { x: self.x.minus(other.x), y: self.y.minus(other.y), z: self.z.minus(other.z) }),
    {
        Vec3A { x: self.x.minus(other.x), y: self.y.minus(other.y), z: self.z.minus(other.z) }
    }

    /// The componentwise product.
    #[verifier::allow_in_spec]
    pub fn times(self, other: Vec3A) -> (r: Vec3A)
        returns
            (Vec3A { x: self.x.times(other.x), y: self.y.times(other.y), z: self.z.times(other.z) }),
    {
        Vec3A { x: self.x.times(other.x), y: self.y.times(other.y), z: self.z.times(other.z) }
    }

    #[verifier::allow_in_spec]
    pub fn scale(self, factor: Single) -> (r: Vec3A)
        returns
            (Vec3A { x: self.x.times(factor), y: self.y.times(factor), z: self.z.times(factor) }),
    {
        Vec3A { x: self.x.times(factor), y: self.y.times(factor), z: self.z.times(factor) }
    }

    #[verifier::allow_in_spec]
    pub fn over(self, divisor: Single) -> (r: Vec3A)
        returns
            (Vec3A { x: self.x.over(divisor), y: self.y.over(divisor), z: self.z.over(divisor) }),
    {
        Vec3A { x: self.x.over(divisor), y: self.y.over(divisor), z: self.z.over(divisor) }
    }

    #[verifier::allow_in_spec]
    pub fn negate(self) -> (r: Vec3A)
        returns
            (Vec3A { x: self.x.negate(), y: self.y.negate(), z: self.z.negate() }),
    {
        Vec3A { x: self.x.negate(), y: self.y.negate(), z: self.z.negate() }
    }

    #[verifier::allow_in_spec]
    pub fn dot(self, other: Vec3A) -> (r: Single)
        returns
            self.x.times(other.x).plus(self.y.times(other.y)).plus(self.z.times(other.z)),
    {
        self.x.times(other.x).plus(self.y.times(other.y)).plus(self.z.times(other.z))
    }

    #[verifier::allow_in_spec]
    pub fn cross(self, other: Vec3A) -> (r: Vec3A)
        returns
            (Vec3A {
                x: self.y.times(other.z).minus(other.y.times(self.z)),
                y: self.z.times(other.x).minus(other.z.times(self.x)),
                z: self.x.times(other.y).minus(other.x.times(self.y)),
            }),
    {
        Vec3A {
            x: self.y.times(other.z).minus(other.y.times(self.z)),
            y: self.z.times(other.x).minus(other.z.times(self.x)),
            z: self.x.times(other.y).minus(other.x.times(self.y)),
        }
    }

    #[verifier::allow_in_spec]
    pub fn length_squared(self) -> (r: Single)
        returns
            self.dot(self),
    {
        self.dot(self)
    }

    #[verifier::allow_in_spec]
    pub fn length(self) -> (r: Single)
        returns
            self.dot(self).sqrt(),
    {
        self.dot(self).sqrt()
    }

    /// One over the length.
    #[verifier::allow_in_spec]
    pub fn length_recip(self) -> (r: Single)
        returns
            (Single { bits: crate::single::ONE_BITS }).over(self.length()),
    {
        Single::one().over(self.length())
    }

    /// The vector scaled to length 1, if its length is neither 0 nor too large or small to
    /// invert.
    pub open spec fn unit(self) -> Option<Vec3A> {
        let scale = self.length_recip();
        if scale.finite() && (Single { bits: 0 }).less(scale) {
            Some(self.scale(scale))
        } else {
            None
        }
    }

    #[verifier::allow_in_spec]
    pub fn try_normalize(self) -> (r: Option<Vec3A>)
        returns
            self.unit(),
    {
        let scale = self.length_recip();
        if scale.is_finite() && Single::zero().lt(scale) {
            Some(self.scale(scale))
        } else {
            None
        }
    }

    #[verifier::allow_in_spec]
    pub fn normalize_or_zero(self) -> (r: Vec3A)
        returns
            (match self.unit() {
                Some(v) => v,
                None => Vec3A::zero(),
            }),
    {
        match self.try_normalize() {
            Some(v) => v,
            None => Vec3A::zero(),
        }
    }

    /// Each component moved between the corresponding components of `low` and `high`.
    #[verifier::allow_in_spec]
    pub fn clamp(self, low: Vec3A, high: Vec3A) -> (r: Vec3A)
        returns
            (Vec3A {
                x: lane_within(self.x, low.x, high.x),
                y: lane_within(self.y, low.y, high.y),
                z: lane_within(self.z, low.z, high.z),
            }),
    {
        Vec3A {
            x: clamp_lane(self.x, low.x, high.x),
            y: clamp_lane(self.y, low.y, high.y),
            z: clamp_lane(self.z, low.z, high.z),
        }
    }

    /// The components are equal as numbers.
    #[verifier::allow_in_spec]
    pub fn equals(self, other: Vec3A) -> (r: bool)
        returns
            self.x.equals(other.x) && self.y.equals(other.y) && self.z.equals(other.z),
    {
        self.x.equals(other.x) && self.y.equals(other.y) && self.z.equals(other.z)
    }
}

/// `x`, or `low` unless `x` exceeds it, or `high` unless the outcome is below it.
pub open spec fn lane_within(x: Single, low: Single, high: Single) -> Single {
    let raised = if low.less(x) { x } else { low };
    if raised.less(high) {
        raised
    } else {
        high
    }
}

fn clamp_lane(x: Single, low: Single, high: Single) -> (r: Single)
    ensures
        r == lane_within(x, low, high),
{
    let raised = if low.lt(x) { x } else { low };
    if raised.lt(high) {
        raised
    } else {
        high
    }
}

/// A matrix by its columns.
#[derive(Clone, Copy, Debug, PartialEq, Eq, Structural)]
pub struct Mat3A {
    pub x_axis: Vec3A,
    pub y_axis: Vec3A,
    pub z_axis: Vec3A,
}

impl Mat3A {
    #[verifier::allow_in_spec]
    pub fn from_cols(x_axis: Vec3A, y_axis: Vec3A, z_axis: Vec3A) -> (r: Mat3A)
        returns
            (Mat3A { x_axis, y_axis, z_axis }),
    {
        Mat3A { x_axis, y_axis, z_axis }
    }

    /// The matrix applied to a vector.
    #[verifier::allow_in_spec]
    pub fn mul_vec3a(self, v: Vec3A) -> (r: Vec3A)
        returns
            self.x_axis.scale(v.x).plus(self.y_axis.scale(v.y)).plus(self.z_axis.scale(v.z)),
    {
        self.x_axis.scale(v.x).plus(self.y_axis.scale(v.y)).plus(self.z_axis.scale(v.z))
    }

    /// The transposed matrix applied to a vector.
    #[verifier::allow_in_spec]
    pub fn mul_transpose_vec3a(self, v: Vec3A) -> (r: Vec3A)
        returns
            (Vec3A { x: self.x_axis.dot(v), y: self.y_axis.dot(v), z: self.z_axis.dot(v) }),
    {
        Vec3A { x: self.x_axis.dot(v), y: self.y_axis.dot(v), z: self.z_axis.dot(v) }
    }

    #[verifier::allow_in_spec]
    pub fn transpose(self) -> (r: Mat3A)
        returns
            (Mat3A {
                x_axis: Vec3A { x: self.x_axis.x, y: self.y_axis.x, z: self.z_axis.x },
                y_axis: Vec3A { x: self.x_axis.y, y: self.y_axis.y, z: self.z_axis.y },
                z_axis: Vec3A { x: self.x_axis.z, y: self.y_axis.z, z: self.z_axis.z },
            }),
    {
        Mat3A {
            x_axis: Vec3A { x: self.x_axis.x, y: self.y_axis.x, z: self.z_axis.x },
            y_axis: Vec3A { x: self.x_axis.y, y: self.y_axis.y, z: self.z_axis.y },
            z_axis: Vec3A { x: self.x_axis.z, y: self.y_axis.z, z: self.z_axis.z },
        }
    }

    #[verifier::allow_in_spec]
    pub fn mul_mat3a(self, other: Mat3A) -> (r: Mat3A)
        returns
            (Mat3A {
                x_axis: self.mul_vec3a(other.x_axis),
                y_axis: self.mul_vec3a(other.y_axis),
                z_axis: self.mul_vec3a(other.z_axis),
            }),
    {
        Mat3A {
            x_axis: self.mul_vec3a(other.x_axis),
            y_axis: self.mul_vec3a(other.y_axis),
            z_axis: self.mul_vec3a(other.z_axis),
        }
    }
}

/// A linear map followed by a translation.
#[derive(Clone, Copy, Debug, PartialEq, Eq, Structural)]
pub struct Affine3A {
    pub matrix3: Mat3A,
    pub translation: Vec3A,
}

impl Affine3A {
    #[verifier::allow_in_spec]
    pub fn transform_point3a(self, v: Vec3A) -> (r: Vec3A)
        returns
            self.matrix3.mul_vec3a(v).plus(self.translation),
    {
        self.matrix3.mul_vec3a(v).plus(self.translation)
    }

    #[verifier::allow_in_spec]
    pub fn transform_vector3a(self, v: Vec3A) -> (r: Vec3A)
        returns
            self.matrix3.mul_vec3a(v),
    {
        self.matrix3.mul_vec3a(v)
    }

    /// A point in the frame of a rotation and translation.
    #[verifier::allow_in_spec]
    pub fn inv_x_form(self, v: Vec3A) -> (r: Vec3A)
        returns
            self.matrix3.mul_transpose_vec3a(v.minus(self.translation)),
    {
        self.matrix3.mul_transpose_vec3a(v.minus(self.translation))
    }

    /// The map back, of a rotation and translation.
    #[verifier::allow_in_spec]
    pub fn transpose(self) -> (r: Affine3A)
        returns
            (Affine3A {
                matrix3: self.matrix3.transpose(),
                translation: self.matrix3.transpose().mul_vec3a(self.translation.negate()),
            }),
    {
        let matrix3 = self.matrix3.transpose();
        Affine3A { matrix3, translation: matrix3.mul_vec3a(self.translation.negate()) }
    }

    /// The map that applies `other` first and then `self`.
    #[verifier::allow_in_spec]
    pub fn after(self, other: Affine3A) -> (r: Affine3A)
        returns
            (Affine3A {
                matrix3: self.matrix3.mul_mat3a(other.matrix3),
                translation: self.matrix3.mul_vec3a(other.translation).plus(self.translation),
            }),
    {
        Affine3A {
            matrix3: self.matrix3.mul_mat3a(other.matrix3),
            translation: self.matrix3.mul_vec3a(other.translation).plus(self.translation),
        }
    }
}

/// A rotation by its components.
#[derive(Clone, Copy, Debug, PartialEq, Eq, Structural)]
pub struct Quat {
    pub x: Single,
    pub y: Single,
    pub z: Single,
    pub w: Single,
}

} // verus!
