//! A body as the solver sees it.
use crate::math::{Affine3A, Quat, Vec3A};
use crate::single::Single;
use vstd::prelude::*;

verus! {

#[derive(Clone, Copy, Debug, PartialEq)]
pub struct SolverBody {
    /// The body that this stands for; none for everything that does not move.
    pub original_body: Option<usize>,
    pub world_trans: Affine3A,
    pub world_rot: Quat,
    pub inv_mass: Single,
    pub lin_vel: Vec3A,
    pub ang_vel: Vec3A,
    /// What the contacts have added to the velocity.
    pub delta_lin_vel: Vec3A,
    pub delta_ang_vel: Vec3A,
    /// The velocity that pushes the body out of a penetration, within this step only.
    pub push_vel: Vec3A,
    pub turn_vel: Vec3A,
    /// What forces add to the velocity in this step.
    pub external_force_impulse: Vec3A,
    pub external_torque_impulse: Vec3A,
}

impl SolverBody {
    /// The solver's body, as it stands for a body, or for everything that does not move.
    pub open spec fn standing(self, original_body: Option<usize>) -> SolverBody {
        SolverBody { original_body, ..self }
    }

    pub fn stand_for(self, original_body: Option<usize>) -> (r: SolverBody)
        ensures
            r == self.standing(original_body),
    {
        SolverBody { original_body, ..self }
    }
}

} // verus!
