//! Rigid bodies and their shapes.
use crate::math::{Affine3A, Mat3A, Quat, Vec3A};
use crate::single::Single;
use vstd::prelude::*;

verus! {

/// What a body stands for in the game.
#[derive(Clone, Copy, Debug, PartialEq, Eq, Structural)]
pub enum UserInfoTypes {
    /// No player and no ball: the arena itself.
    Other,
    Car,
    Ball,
    DropshotTile,
}

impl UserInfoTypes {
    /// The place in the order of the variants.
    pub open spec fn place(self) -> int {
        match self {
            UserInfoTypes::Other => 0,
            UserInfoTypes::Car => 1,
            UserInfoTypes::Ball => 2,
            UserInfoTypes::DropshotTile => 3,
        }
    }

    pub fn order(self) -> (r: u8)
        ensures
            r == self.place(),
    {
        match self {
            UserInfoTypes::Other => 0,
            UserInfoTypes::Car => 1,
            UserInfoTypes::Ball => 2,
            UserInfoTypes::DropshotTile => 3,
        }
    }
}

#[derive(Clone, Copy, Debug)]
pub struct SphereShape {
    pub radius: Single,
}

#[derive(Clone, Copy, Debug)]
pub struct BoxShape {
    pub half_extents: Vec3A,
    pub margin: Single,
}

/// A box that is placed within its body.
#[derive(Clone, Copy, Debug)]
pub struct CompoundShape {
    pub child_shape: BoxShape,
    pub child_trans: Affine3A,
}

/// A mesh of triangles, by its number.
#[derive(Clone, Copy, Debug)]
pub struct BvhTriangleMeshShape {
    pub number: usize,
}

#[derive(Clone, Copy, Debug)]
pub enum CollisionShapes {
    Sphere(SphereShape),
    Compound(CompoundShape),
    TriangleMesh(BvhTriangleMeshShape),
    StaticPlane,
}

#[derive(Clone, Copy, Debug)]
pub struct RigidBody {
    /// The place of the body in its world.
    pub world_array_idx: usize,
    pub user_idx: UserInfoTypes,
    /// The number of the car, for the body of a car.
    pub user_pointer: usize,
    pub world_trans: Affine3A,
    pub world_rot: Quat,
    /// Where the body is predicted to be at the end of the step.
    pub interp_world_trans: Affine3A,
    pub lin_vel: Vec3A,
    pub ang_vel: Vec3A,
    /// Velocity that forces of this step add.
    pub accum_lin_vel: Vec3A,
    pub accum_ang_vel: Vec3A,
    pub inv_mass: Single,
    pub inv_inertia_tensor_world: Mat3A,
    /// The place of the body among the solver's bodies.
    pub companion_id: Option<usize>,
    pub broadphase_handle: usize,
    pub collision_shape: CollisionShapes,
    pub is_static: bool,
    pub active: bool,
    pub contact_response: bool,
    /// The body does not turn.
    pub no_angular_motion: bool,
}

impl RigidBody {
    /// The same body with another note of the solver's body that stands for it.
    #[verifier::opaque]
    pub open spec fn noted(self, companion_id: Option<usize>) -> RigidBody {
        RigidBody { companion_id, ..self }
    }

    pub fn note(self, companion_id: Option<usize>) -> (r: RigidBody)
        ensures
            r == self.noted(companion_id),
    {
        proof {
            reveal(RigidBody::noted);
        }
        RigidBody { companion_id, ..self }
    }
}

/// A note changes nothing else.
pub broadcast proof fn lemma_noted(rb: RigidBody, companion_id: Option<usize>)
    ensures
        (#[trigger] rb.noted(companion_id)).companion_id == companion_id,
        rb.noted(companion_id).world_array_idx == rb.world_array_idx,
        rb.noted(companion_id).is_static == rb.is_static,
        rb.noted(companion_id).inv_mass == rb.inv_mass,
        rb.noted(companion_id).active == rb.active,
{
    reveal(RigidBody::noted);
}

/// The last note counts.
pub broadcast proof fn lemma_noted_again(rb: RigidBody, first: Option<usize>, second: Option<usize>)
    ensures
        #[trigger] rb.noted(first).noted(second) == rb.noted(second),
{
    reveal(RigidBody::noted);
}

/// A body has the note that it has.
pub proof fn lemma_noted_same(rb: RigidBody)
    ensures
        rb.noted(rb.companion_id) == rb,
{
    reveal(RigidBody::noted);
}

} // verus!
