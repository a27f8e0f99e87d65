//! The rows that the solver works on, and what is told of them.
use crate::bullet::body::RigidBody;
use crate::bullet::manifold::ManifoldPoint;
use crate::bullet::solver_body::SolverBody;
use crate::math::Vec3A;
use crate::single::Single;
use vstd::prelude::*;

verus! {

/// The numbers of a constraint.
#[derive(Clone, Copy, Debug, PartialEq, Eq, Structural)]
pub struct Row {
    pub angular_component_a: Vec3A,
    pub angular_component_b: Vec3A,
    pub jac_diag_ab_inv: Single,
    pub contact_normal_1: Vec3A,
    pub contact_normal_2: Vec3A,
    pub rel_pos1_cross_normal: Vec3A,
    pub rel_pos2_cross_normal: Vec3A,
    /// The impulse that the velocities ask for.
    pub rhs: Single,
    /// The impulse that pushes a penetration apart.
    pub rhs_penetration: Single,
    pub friction: Single,
    pub lower_limit: Single,
    pub upper_limit: Single,
    pub applied_impulse: Single,
    pub applied_push_impulse: Single,
    /// The velocities of the row are resolved elsewhere.
    pub is_special: bool,
}

impl Row {
    #[verifier::allow_in_spec]
    pub fn zero() -> (r: Row)
        returns
            (Row {
                angular_component_a: Vec3A::zero(),
                angular_component_b: Vec3A::zero(),
                jac_diag_ab_inv: Single { bits: 0 },
                contact_normal_1: Vec3A::zero(),
                contact_normal_2: Vec3A::zero(),
                rel_pos1_cross_normal: Vec3A::zero(),
                rel_pos2_cross_normal: Vec3A::zero(),
                rhs: Single { bits: 0 },
                rhs_penetration: Single { bits: 0 },
                friction: Single { bits: 0 },
                lower_limit: Single { bits: 0 },
                upper_limit: Single { bits: 0 },
                applied_impulse: Single { bits: 0 },
                applied_push_impulse: Single { bits: 0 },
                is_special: false,
            }),
    {
        Row {
            angular_component_a: Vec3A::zero(),
            angular_component_b: Vec3A::zero(),
            jac_diag_ab_inv: Single { bits: 0 },
            contact_normal_1: Vec3A::zero(),
            contact_normal_2: Vec3A::zero(),
            rel_pos1_cross_normal: Vec3A::zero(),
            rel_pos2_cross_normal: Vec3A::zero(),
            rhs: Single { bits: 0 },
            rhs_penetration: Single { bits: 0 },
            friction: Single { bits: 0 },
            lower_limit: Single { bits: 0 },
            upper_limit: Single { bits: 0 },
            applied_impulse: Single { bits: 0 },
            applied_push_impulse: Single { bits: 0 },
            is_special: false,
        }
    }
}

/// What is told of a contact after it was solved.
#[derive(Clone, Copy, Debug, PartialEq, Eq, Structural)]
pub struct ContactSolveInfo {
    pub manifold_point: ManifoldPoint,
    pub normal_impulse: Single,
    pub push_impulse: Single,
    pub relative_velocity_before: Vec3A,
    pub relative_velocity_after: Vec3A,
}

/// What is told of the contact of the ball with the world after it was solved.
#[derive(Clone, Copy, Debug, PartialEq, Eq, Structural)]
pub struct SpecialContactSolveInfo {
    pub effective_normal: Vec3A,
    pub mean_penetration: Single,
    pub restitution_velocity: Single,
    pub normal_impulse: Single,
    pub push_impulse: Single,
    pub relative_velocity_before: Vec3A,
    pub relative_velocity_after: Vec3A,
}

/// One of the points that make up the contact of the ball with the world.
#[derive(Clone, Copy, Debug, PartialEq, Eq, Structural)]
pub struct SpecialContactSolvePoint {
    pub pos_world_on_b: Vec3A,
    pub normal_world_on_b: Vec3A,
    pub distance: Single,
}

/// A row between two of the solver's bodies.
#[derive(Clone, Copy, Debug, PartialEq)]
pub struct SolverConstraint {
    pub solver_body_id_a: usize,
    pub solver_body_id_b: usize,
    /// The contact that limits the friction of this row.
    pub friction_idx: usize,
    pub body_idx_a: usize,
    pub body_idx_b: usize,
    pub rel_pos_a: Vec3A,
    pub rel_pos_b: Vec3A,
    pub manifold_point: Option<ManifoldPoint>,
    pub relative_velocity_before: Vec3A,
    pub special_contact_info: Option<SpecialContactSolveInfo>,
    pub row: Row,
}

impl SolverConstraint {
    /// A row between two of the solver's bodies that stands for no contact point.
    #[verifier::allow_in_spec]
    pub fn bare(ids: (usize, usize), friction_idx: usize, row: Row) -> (r: SolverConstraint)
        returns
            (SolverConstraint {
                solver_body_id_a: ids.0,
                solver_body_id_b: ids.1,
                friction_idx,
                body_idx_a: 0,
                body_idx_b: 0,
                rel_pos_a: Vec3A::zero(),
                rel_pos_b: Vec3A::zero(),
                manifold_point: None,
                relative_velocity_before: Vec3A::zero(),
                special_contact_info: None,
                row,
            }),
    {
        SolverConstraint {
            solver_body_id_a: ids.0,
            solver_body_id_b: ids.1,
            friction_idx,
            body_idx_a: 0,
            body_idx_b: 0,
            rel_pos_a: Vec3A::zero(),
            rel_pos_b: Vec3A::zero(),
            manifold_point: None,
            relative_velocity_before: Vec3A::zero(),
            special_contact_info: None,
            row,
        }
    }
}

/// What the solution of a row does: the impulse applied so far, the velocities of the two
/// bodies, and how much was corrected.
#[derive(Clone, Copy, Debug, PartialEq, Eq, Structural)]
pub struct RowOutcome {
    pub impulse: Single,
    pub lin_a: Vec3A,
    pub ang_a: Vec3A,
    pub lin_b: Vec3A,
    pub ang_b: Vec3A,
    pub residual: Single,
}

/// The numbers behind the rows.
///
/// Nothing is known of what the methods return: whoever calls one has to cope with every
/// outcome.
pub trait Rows {
    /// A body as the solver sees it, before any contact; which body it stands for is noted by the
    /// solver.
    fn solver_body(&self, body: &RigidBody) -> SolverBody;

    /// Everything that does not move, as the solver sees it.
    fn fixed_body(&self) -> SolverBody;

    /// The row that keeps two bodies apart at a point.
    fn contact_row(
        &self,
        bodies: (&SolverBody, &SolverBody),
        moving: (Option<&RigidBody>, Option<&RigidBody>),
        rel_pos: (Vec3A, Vec3A),
        point: &ManifoldPoint,
        time_step: Single,
    ) -> Row;

    /// The point with the direction in which its friction acts.
    fn with_friction_dir(
        &self,
        point: &ManifoldPoint,
        bodies: (&SolverBody, &SolverBody),
        rel_pos: (Vec3A, Vec3A),
    ) -> ManifoldPoint;

    /// The row of the friction at a point.
    fn friction_row(
        &self,
        bodies: (&SolverBody, &SolverBody),
        moving: (Option<&RigidBody>, Option<&RigidBody>),
        rel_pos: (Vec3A, Vec3A),
        point: &ManifoldPoint,
    ) -> Row;

    /// The speed at which bodies part that meet at a speed.
    fn restitution(&self, rel_vel: Single, restitution: Single) -> Single;

    /// A direction square to a normal.
    fn sideways(&self, normal: Vec3A) -> Vec3A;

    /// The velocity of a point of a body.
    fn point_velocity(&self, body: &RigidBody, rel_pos: Vec3A) -> Vec3A;

    /// The velocity of a point before the contacts, with forces.
    fn velocity_before(&self, body: &SolverBody, rel_pos: Vec3A) -> Vec3A;

    /// The velocity of a point after the contacts.
    fn velocity_after(&self, body: &SolverBody, rel_pos: Vec3A) -> Vec3A;

    /// Pushes a penetration apart: the outcome is about `push_vel` and `turn_vel`.
    fn push_apart(&self, row: &Row, body_a: &SolverBody, body_b: &SolverBody) -> RowOutcome;

    /// Solves a contact: the outcome is about `delta_lin_vel` and `delta_ang_vel`.
    fn solve_contact(&self, row: &Row, body_a: &SolverBody, body_b: &SolverBody) -> RowOutcome;

    /// Solves friction: the outcome is about `delta_lin_vel` and `delta_ang_vel`.
    fn solve_friction(&self, row: &Row, body_a: &SolverBody, body_b: &SolverBody) -> RowOutcome;
}

/// Hears of contacts when they are added and when they are solved.
pub trait ContactAddedCallback: Sized {
    /// Of a new point of a manifold, which it may change; `idx` is the triangle that was hit.
    fn callback(
        self,
        manifold_point: ManifoldPoint,
        body_a: &RigidBody,
        body_b: &RigidBody,
        idx: Option<usize>,
    ) -> (Self, ManifoldPoint);

    fn contact_solved(self, contact: ContactSolveInfo, body_a: &RigidBody, body_b: &RigidBody) -> Self;

    fn special_contact_solved(
        self,
        contact: SpecialContactSolveInfo,
        points: &Vec<SpecialContactSolvePoint>,
        body: &RigidBody,
    ) -> Self;

    /// It wants to hear of the contact of the ball with the world.
    fn tracks_special_contacts(&self) -> bool;
}

} // verus!
