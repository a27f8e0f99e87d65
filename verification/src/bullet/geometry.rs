//! What the collision algorithms ask of the shapes.
use crate::bullet::body::{BvhTriangleMeshShape, CollisionShapes, RigidBody};
use crate::bullet::motion::Place;
use crate::math::{Affine3A, Quat, Vec3A};
use crate::single::Single;
use vstd::prelude::*;

verus! {

/// A box along the axes.
#[derive(Clone, Copy, Debug, PartialEq, Eq, Structural)]
pub struct Aabb {
    pub min: Vec3A,
    pub max: Vec3A,
}

#[derive(Clone, Copy, Debug)]
pub struct TriangleShape {
    pub points: [Vec3A; 3],
    pub normal: Vec3A,
}

/// Where a sphere touches a triangle.
#[derive(Clone, Copy, Debug)]
pub struct SphereTriangleContact {
    pub result_normal: Vec3A,
    pub contact_point: Vec3A,
    pub depth: Single,
}

/// Questions about shapes and motions.
///
/// Nothing is known of what the methods return: whoever calls one has to cope with every
/// outcome.
pub trait Geometry {
    /// The box around a shape in a place.
    fn aabb(&self, shape: &CollisionShapes, trans: &Affine3A) -> Aabb;

    /// The box around two boxes.
    fn joined(&self, a: &Aabb, b: &Aabb) -> Aabb;

    fn intersects(&self, a: &Aabb, b: &Aabb) -> bool;

    /// The point of `triangle` closest to the place from which the corners are
    /// `corners_to_place` away.
    fn closest_point(&self, triangle: &TriangleShape, corners_to_place: [Vec3A; 3]) -> Vec3A;

    /// The contact of a sphere with a triangle, within a distance.
    fn intersect_sphere(
        &self,
        triangle: &TriangleShape,
        center: Vec3A,
        radius: Single,
        within: Single,
    ) -> Option<SphereTriangleContact>;

    /// The triangles of a mesh that a box may touch, with their numbers.
    fn triangles(&self, mesh: &BvhTriangleMeshShape, aabb: &Aabb) -> Vec<(TriangleShape, usize)>;

    /// Where a body is after some time.
    fn integrate_trans(
        &self,
        trans: Affine3A,
        rot: Quat,
        lin_vel: Vec3A,
        ang_vel: Vec3A,
        time: Single,
    ) -> (Affine3A, Quat);

    /// Where a body that does not turn is after some time.
    fn integrate_trans_no_rot(&self, pos: Vec3A, lin_vel: Vec3A, time: Single) -> Vec3A;

    /// What follows from putting a body somewhere.
    fn put_at(&self, body: &RigidBody, trans: Affine3A) -> Place;
}

} // verus!
