//! The points at which two bodies touch.
use crate::bullet::body::RigidBody;
use crate::math::Vec3A;
use crate::single::Single;
use vstd::prelude::*;

verus! {

/// How far apart two bodies may be and still have a contact, 0.02.
pub const CONTACT_BREAKING_THRESHOLD: u32 = 0x3ca3_d70a;

#[derive(Clone, Copy, Debug, PartialEq, Eq, Structural)]
pub struct ManifoldPoint {
    pub local_point_a: Vec3A,
    pub local_point_b: Vec3A,
    pub pos_world_on_a: Vec3A,
    pub pos_world_on_b: Vec3A,
    /// The normal of the surface of the second body.
    pub normal_world_on_b: Vec3A,
    /// The gap between the bodies, negative when they overlap.
    pub distance_1: Single,
    pub combined_friction: Single,
    pub combined_restitution: Single,
    /// The point belongs to the ball's contact with the world, which is resolved as a whole.
    pub is_special: bool,
}

#[derive(Debug)]
pub struct PersistentManifold {
    pub body0_idx: usize,
    pub body1_idx: usize,
    pub contact_breaking_threshold: Single,
    pub contact_processing_threshold: Single,
    pub point_cache: Vec<ManifoldPoint>,
}

/// Keeps the points of a manifold, and tells a listener `T` of each new one.
///
/// Nothing is known of what the methods return: whoever calls one has to cope with every
/// outcome.
pub trait Manifolds<T> {
    /// A manifold of two bodies without points.
    fn manifold(&self, body_a: &RigidBody, body_b: &RigidBody) -> PersistentManifold;

    /// The manifold with another point, of which the listener has heard.
    fn add_contact_point(
        &self,
        manifold: PersistentManifold,
        body_a: &RigidBody,
        body_b: &RigidBody,
        normal_on_b: Vec3A,
        point_in_world: Vec3A,
        depth: Single,
        triangle_idx: Option<usize>,
        listener: T,
    ) -> (PersistentManifold, T);

    /// The manifold with its points moved along with the bodies.
    fn refresh_contact_points(
        &self,
        manifold: PersistentManifold,
        body_a: &RigidBody,
        body_b: &RigidBody,
    ) -> PersistentManifold;
}

} // verus!
