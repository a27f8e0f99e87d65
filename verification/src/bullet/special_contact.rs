//! The contact of the ball with the world, as the average of its points.
//!
//! The mesh of an arena puts several triangles under one contact, so the same touch can be
//! found many times. Points that coincide count once.
use crate::bullet::body::RigidBody;
use crate::bullet::contact_solver_info::{ERP_2, SOR, SPLIT_IMPULSE_PENETRATION_THRESHOLD};
use crate::bullet::manifold::{ManifoldPoint, CONTACT_BREAKING_THRESHOLD};
use crate::bullet::solver_body::SolverBody;
use crate::bullet::solver_constraint::Row;
use crate::consts::{EPSILON, MAX};
use crate::math::Vec3A;
use crate::single::{Single, ONE_BITS};
use crate::single_laws::{
    law_difference_mirrors, law_doubles_are_numbers, law_nothing_left, law_product_commutes, law_product_grows, law_product_sign,
    law_square_ignores_sign, law_squares_are_not_negative, law_zero_stays_zero,
};
use vstd::prelude::*;

verus! {

/// How closely two normals have to agree for their points to coincide, 0.999.
pub const SPECIAL_CONTACT_DEDUP_NORMAL_DOT: u32 = 0x3f7f_be77;

/// The part of the lever within which points coincide, 0.1.
pub const SPECIAL_CONTACT_DEDUP_SCALE: u32 = 0x3dcc_cccd;

/// 2.
pub const TWO: u32 = 0x4000_0000;

/// The largest impulse of a contact, 1e10.
pub const MAX_IMPULSE: u32 = 0x5015_02f9;

#[derive(Clone, Copy, Debug, PartialEq, Eq, Structural)]
pub struct SpecialContact {
    pub obj_idx: usize,
    pub pos_world_on_a: Vec3A,
    pub pos_world_on_b: Vec3A,
    pub normal_world_on_b: Vec3A,
    pub distance: Single,
    /// How far another point may be and still coincide.
    pub dedup_distance: Single,
}

impl SpecialContact {
    /// The points coincide: on the same body, within the larger of their tolerances, and with
    /// normals that agree.
    pub open spec fn coincides(self, other: SpecialContact) -> bool {
        let tolerance = self.dedup_distance.greater_of(other.dedup_distance);
        let tolerance_sq = tolerance.times(tolerance);
        &&& self.obj_idx == other.obj_idx
        &&& self.pos_world_on_a.minus(other.pos_world_on_a).length_squared().at_most(tolerance_sq)
        &&& self.pos_world_on_b.minus(other.pos_world_on_b).length_squared().at_most(tolerance_sq)
        &&& self.distance.minus(other.distance).abs().at_most(tolerance)
        &&& (Single { bits: SPECIAL_CONTACT_DEDUP_NORMAL_DOT }).at_most(
            self.normal_world_on_b.dot(other.normal_world_on_b),
        )
    }

    pub fn is_duplicate_of(self, other: SpecialContact) -> (r: bool)
        ensures
            r == self.coincides(other),
    {
        let tolerance = self.dedup_distance.max(other.dedup_distance);
        let tolerance_sq = tolerance.times(tolerance);
        self.obj_idx == other.obj_idx && self.pos_world_on_a.minus(other.pos_world_on_a).length_squared().le(
            tolerance_sq,
        ) && self.pos_world_on_b.minus(other.pos_world_on_b).length_squared().le(tolerance_sq)
            && self.distance.minus(other.distance).abs().le(tolerance)
            && self.normal_world_on_b.dot(other.normal_world_on_b).ge(
            Single::of(SPECIAL_CONTACT_DEDUP_NORMAL_DOT),
        )
    }
}

/// The sums over the points that count.
#[derive(Debug)]
pub struct SpecialResolveInfo {
    pub obj_idx: usize,
    /// As many as the points that count.
    pub num_special_collisions: usize,
    pub total_normal: Vec3A,
    /// The distances from the centre of the body to the points: levers, not penetrations.
    pub total_dist: Single,
    /// The gaps at the points, negative where the body overlaps the surface.
    pub total_penetration: Single,
    /// The least of the gaps.
    pub min_penetration: Single,
    pub restitution: Single,
    pub friction: Single,
    /// The points that count.
    pub special_contacts: Vec<SpecialContact>,
}

/// The sums, with their points as a sequence.
pub ghost struct SpecialSums {
    pub obj_idx: usize,
    pub num: int,
    pub total_normal: Vec3A,
    pub total_dist: Single,
    pub total_penetration: Single,
    pub min_penetration: Single,
    pub restitution: Single,
    pub friction: Single,
    pub contacts: Seq<SpecialContact>,
}

impl SpecialSums {
    /// No points.
    pub open spec fn none() -> SpecialSums {
        SpecialSums {
            obj_idx: 0,
            num: 0,
            total_normal: Vec3A::zero(),
            total_dist: Single { bits: 0 },
            total_penetration: Single { bits: 0 },
            min_penetration: Single { bits: MAX },
            restitution: Single { bits: 0 },
            friction: Single { bits: 0 },
            contacts: Seq::empty(),
        }
    }

    /// A point that counts already coincides with this one.
    pub open spec fn has(self, contact: SpecialContact) -> bool {
        exists|i: int| 0 <= i < self.contacts.len() && contact.coincides(#[trigger] self.contacts[i])
    }

    /// With another point of the body `obj_idx`, at `rel_pos` from its centre.
    pub open spec fn with_point(self, obj_idx: usize, cp: ManifoldPoint, rel_pos: Vec3A, threshold: Single) -> SpecialSums {
        let contact = special_contact(obj_idx, cp, rel_pos, threshold);
        if self.has(contact) {
            self
        } else {
            SpecialSums {
                obj_idx,
                num: self.num + 1,
                total_normal: self.total_normal.plus(cp.normal_world_on_b),
                total_dist: self.total_dist.plus(rel_pos.length()),
                total_penetration: self.total_penetration.plus(cp.distance_1),
                min_penetration: self.min_penetration.smaller_of(cp.distance_1),
                restitution: cp.combined_restitution,
                friction: cp.combined_friction,
                contacts: self.contacts.push(contact),
            }
        }
    }

    /// With another point between two bodies: it belongs to the first of them that can move.
    pub open spec fn with_collision(
        self,
        body0: RigidBody,
        body1: RigidBody,
        cp: ManifoldPoint,
        rel_pos1: Vec3A,
        rel_pos2: Vec3A,
        threshold: Single,
    ) -> SpecialSums {
        if !body0.is_static {
            self.with_point(body0.world_array_idx, cp, rel_pos1, threshold)
        } else if !body1.is_static {
            self.with_point(body1.world_array_idx, cp, rel_pos2, threshold)
        } else {
            self
        }
    }
}

/// A point of a body at `rel_pos` from its centre. Points coincide within a tenth of the lever,
/// or within twice the threshold of a contact if that is more.
pub open spec fn special_contact(obj_idx: usize, cp: ManifoldPoint, rel_pos: Vec3A, threshold: Single) -> SpecialContact {
    SpecialContact {
        obj_idx,
        pos_world_on_a: cp.pos_world_on_a,
        pos_world_on_b: cp.pos_world_on_b,
        normal_world_on_b: cp.normal_world_on_b,
        distance: cp.distance_1,
        dedup_distance: rel_pos.length().times(Single { bits: SPECIAL_CONTACT_DEDUP_SCALE }).greater_of(
            (Single { bits: TWO }).times(threshold),
        ),
    }
}

impl SpecialResolveInfo {
    pub open spec fn sums(self) -> SpecialSums {
        SpecialSums {
            obj_idx: self.obj_idx,
            num: self.num_special_collisions as int,
            total_normal: self.total_normal,
            total_dist: self.total_dist,
            total_penetration: self.total_penetration,
            min_penetration: self.min_penetration,
            restitution: self.restitution,
            friction: self.friction,
            contacts: self.special_contacts@,
        }
    }

    /// Every point that counts is counted.
    pub open spec fn wf(self) -> bool {
        self.num_special_collisions == self.special_contacts@.len()
    }

    pub fn reset(&mut self)
        ensures
            final(self).wf(),
            final(self).sums() == SpecialSums::none(),
    {
        self.obj_idx = 0;
        self.num_special_collisions = 0;
        self.total_normal = Vec3A::zero();
        self.total_dist = Single::zero();
        self.total_penetration = Single::zero();
        self.min_penetration = Single::of(MAX);
        self.restitution = Single::zero();
        self.friction = Single::zero();
        self.special_contacts.clear();
        proof {
            assert(self.special_contacts@ =~= Seq::empty());
        }
    }

    pub fn add_special_collision(
        &mut self,
        body0: &RigidBody,
        body1: &RigidBody,
        cp: &ManifoldPoint,
        rel_pos1: Vec3A,
        rel_pos2: Vec3A,
        contact_breaking_threshold: Single,
    )
        requires
            old(self).wf(),
        ensures
            final(self).wf(),
            final(self).sums() == old(self).sums().with_collision(
                *body0,
                *body1,
                *cp,
                rel_pos1,
                rel_pos2,
                contact_breaking_threshold,
            ),
    {
        let ghost before = self.sums();
        let (obj_idx, rel_pos): (usize, Vec3A) = if !body0.is_static {
            (body0.world_array_idx, rel_pos1)
        } else if !body1.is_static {
            (body1.world_array_idx, rel_pos2)
        } else {
            return ;
        };
        let contact = SpecialContact {
            obj_idx,
            pos_world_on_a: cp.pos_world_on_a,
            pos_world_on_b: cp.pos_world_on_b,
            normal_world_on_b: cp.normal_world_on_b,
            distance: cp.distance_1,
            dedup_distance: rel_pos.length().times(Single::of(SPECIAL_CONTACT_DEDUP_SCALE)).max(
                Single::of(TWO).times(contact_breaking_threshold),
            ),
        };
        let mut i: usize = 0;
        while i < self.special_contacts.len()
            invariant
                i <= self.special_contacts@.len(),
                self.wf(),
                before == old(self).sums(),
                self.sums() == before,
                contact == special_contact(obj_idx, *cp, rel_pos, contact_breaking_threshold),
                before.with_point(obj_idx, *cp, rel_pos, contact_breaking_threshold) == before.with_collision(
                    *body0,
                    *body1,
                    *cp,
                    rel_pos1,
                    rel_pos2,
                    contact_breaking_threshold,
                ),
                forall|j: int| 0 <= j < i ==> !contact.coincides(#[trigger] self.special_contacts@[j]),
            decreases self.special_contacts@.len() - i,
        {
            if contact.is_duplicate_of(self.special_contacts[i]) {
                proof {
                    assert(contact.coincides(before.contacts[i as int]));
                    assert(before.has(contact));
                }
                return ;
            }
            i = i + 1;
        }
        self.special_contacts.push(contact);
        self.obj_idx = obj_idx;
        self.num_special_collisions = self.special_contacts.len();
        self.friction = cp.combined_friction;
        self.restitution = cp.combined_restitution;
        self.total_normal = self.total_normal.plus(cp.normal_world_on_b);
        self.total_dist = self.total_dist.plus(rel_pos.length());
        self.total_penetration = self.total_penetration.plus(cp.distance_1);
        self.min_penetration = self.min_penetration.min(cp.distance_1);
    }
}

impl Default for SpecialResolveInfo {
    fn default() -> (r: SpecialResolveInfo)
        ensures
            r.wf(),
            r.sums() == SpecialSums::none(),
    {
        let r = SpecialResolveInfo {
            obj_idx: 0,
            num_special_collisions: 0,
            total_normal: Vec3A::zero(),
            total_dist: Single::zero(),
            total_penetration: Single::zero(),
            min_penetration: Single::of(MAX),
            restitution: Single::zero(),
            friction: Single::zero(),
            special_contacts: Vec::new(),
        };
        proof {
            assert(r.special_contacts@ =~= Seq::empty());
        }
        r
    }
}

/// The contact that the points add up to.
#[derive(Clone, Copy, Debug, PartialEq, Eq, Structural)]
pub struct SpecialAverage {
    pub normal: Vec3A,
    /// The way from the centre of the body to the contact.
    pub rel_pos: Vec3A,
    /// The mean of the gaps.
    pub penetration: Single,
}

impl SpecialSums {
    /// The mean over the points. The mean of unit normals is shorter than one where they disagree,
    /// so it is brought back to unit length.
    pub open spec fn average(self) -> SpecialAverage {
        let count = Single::of_integer(self.num);
        let normal = self.total_normal.over(count).normalize_or_zero();
        SpecialAverage {
            normal,
            rel_pos: normal.scale(self.total_dist.over(count).negate()),
            penetration: self.total_penetration.over(count),
        }
    }
}

impl SpecialResolveInfo {
    pub fn average(&self) -> (r: SpecialAverage)
        ensures
            r == self.sums().average(),
    {
        let num_collisions = Single::from_u64(self.num_special_collisions as u64);
        let normal = self.total_normal.over(num_collisions).normalize_or_zero();
        SpecialAverage {
            normal,
            rel_pos: normal.scale(self.total_dist.over(num_collisions).negate()),
            penetration: self.total_penetration.over(num_collisions),
        }
    }
}

/// What one unit of impulse along `dir` at `rel_pos` has to be scaled by to change the velocity
/// there by one: the angular part, the torque and the scale.
pub open spec fn leverage(body: RigidBody, rel_pos: Vec3A, dir: Vec3A) -> (Vec3A, Vec3A, Single) {
    let torque = rel_pos.cross(dir);
    let angular = body.inv_inertia_tensor_world.mul_transpose_vec3a(torque);
    let denom = body.inv_mass.plus(dir.dot(angular.cross(rel_pos)));
    (angular, torque, (Single { bits: SOR }).over(denom))
}

fn lever(body: &RigidBody, rel_pos: Vec3A, dir: Vec3A) -> (r: (Vec3A, Vec3A, Single))
    ensures
        r == leverage(*body, rel_pos, dir),
{
    let torque = rel_pos.cross(dir);
    let angular = body.inv_inertia_tensor_world.mul_transpose_vec3a(torque);
    let denom = body.inv_mass.plus(dir.dot(angular.cross(rel_pos)));
    (angular, torque, Single::of(SOR).over(denom))
}

/// The speed of a body along `dir`, and around `torque`, with forces.
pub open spec fn closing_speed(body: SolverBody, dir: Vec3A, torque: Vec3A) -> Single {
    dir.dot(body.lin_vel.plus(body.external_force_impulse)).plus(
        torque.dot(body.ang_vel.plus(body.external_torque_impulse)),
    )
}

fn speed_along(body: &SolverBody, dir: Vec3A, torque: Vec3A) -> (r: Single)
    ensures
        r == closing_speed(*body, dir, torque),
{
    dir.dot(body.lin_vel.plus(body.external_force_impulse)).plus(
        torque.dot(body.ang_vel.plus(body.external_torque_impulse)),
    )
}

/// The deepest penetration that a step can have made: its travel and the threshold of a contact.
pub open spec fn max_recover(body: RigidBody, time_step: Single) -> Single {
    body.lin_vel.length().times(time_step).plus(Single { bits: CONTACT_BREAKING_THRESHOLD })
}

/// The penetration to recover from in a step. A body that is deeper in than the step can have
/// brought it is not thrown out at once.
pub open spec fn recoverable(penetration: Single, body: RigidBody, time_step: Single) -> Single {
    penetration.greater_of(max_recover(body, time_step).negate())
}

/// The row of the contact. A penetration is pushed apart on its own unless it is beyond the
/// threshold for that.
pub open spec fn special_contact_row(
    average: SpecialAverage,
    friction: Single,
    body: RigidBody,
    solver_body: SolverBody,
    time_step: Single,
    restitution: Single,
) -> Row {
    let (angular, torque, scale) = leverage(body, average.rel_pos, average.normal);
    let penetration = recoverable(average.penetration, body, time_step);
    let positional_error = if (Single { bits: 0 }).less(penetration) {
        Single { bits: 0 }
    } else {
        penetration.negate().times(Single { bits: ERP_2 }).times((Single { bits: ONE_BITS }).over(time_step))
    };
    let penetration_impulse = positional_error.times(scale);
    let vel_impulse = restitution.minus(closing_speed(solver_body, average.normal, torque)).times(scale);
    let together = (Single { bits: SPLIT_IMPULSE_PENETRATION_THRESHOLD }).less(penetration);
    Row {
        angular_component_a: angular,
        jac_diag_ab_inv: scale,
        contact_normal_1: average.normal,
        rel_pos1_cross_normal: torque,
        rhs: if together {
            penetration_impulse.plus(vel_impulse)
        } else {
            vel_impulse
        },
        rhs_penetration: if together {
            Single { bits: 0 }
        } else {
            penetration_impulse
        },
        friction,
        lower_limit: Single { bits: 0 },
        upper_limit: Single { bits: MAX_IMPULSE },
        ..Row::zero()
    }
}

pub fn get_special_contact_row(
    average: SpecialAverage,
    friction: Single,
    body: &RigidBody,
    solver_body: &SolverBody,
    time_step: Single,
    restitution: Single,
) -> (r: Row)
    ensures
        r == special_contact_row(average, friction, *body, *solver_body, time_step, restitution),
{
    let inv_time_step = Single::one().over(time_step);
    let (angular, torque, scale) = lever(body, average.rel_pos, average.normal);
    let recover = body.lin_vel.length().times(time_step).plus(Single::of(CONTACT_BREAKING_THRESHOLD));
    let penetration = average.penetration.max(recover.negate());
    let rel_vel = speed_along(solver_body, average.normal, torque);
    let positional_error = if penetration.gt(Single::zero()) {
        Single::zero()
    } else {
        penetration.negate().times(Single::of(ERP_2)).times(inv_time_step)
    };
    let penetration_impulse = positional_error.times(scale);
    let vel_impulse = restitution.minus(rel_vel).times(scale);
    let (rhs, rhs_penetration) = if penetration.gt(Single::of(SPLIT_IMPULSE_PENETRATION_THRESHOLD)) {
        (penetration_impulse.plus(vel_impulse), Single::zero())
    } else {
        (vel_impulse, penetration_impulse)
    };
    Row {
        angular_component_a: angular,
        jac_diag_ab_inv: scale,
        contact_normal_1: average.normal,
        rel_pos1_cross_normal: torque,
        rhs,
        rhs_penetration,
        friction,
        lower_limit: Single::zero(),
        upper_limit: Single::of(MAX_IMPULSE),
        ..Row::zero()
    }
}

/// The direction of a velocity across a normal, if there is any.
pub open spec fn lateral(vel: Vec3A, normal: Vec3A) -> Option<Vec3A> {
    let across = vel.minus(normal.scale(normal.dot(vel)));
    let speed_sq = across.length_squared();
    if (Single { bits: EPSILON }).less(speed_sq) {
        Some(across.scale((Single { bits: ONE_BITS }).over(speed_sq.sqrt())))
    } else {
        None
    }
}

pub fn lateral_dir(vel: Vec3A, normal: Vec3A) -> (r: Option<Vec3A>)
    ensures
        r == lateral(vel, normal),
{
    let across = vel.minus(normal.scale(normal.dot(vel)));
    let speed_sq = across.length_squared();
    if speed_sq.gt(Single::of(EPSILON)) {
        Some(across.scale(Single::one().over(speed_sq.sqrt())))
    } else {
        None
    }
}

/// The row of the friction along `dir`.
pub open spec fn special_friction_row(
    average: SpecialAverage,
    friction: Single,
    body: RigidBody,
    solver_body: SolverBody,
    dir: Vec3A,
) -> Row {
    let (angular, torque, scale) = leverage(body, average.rel_pos, dir);
    Row {
        contact_normal_1: dir,
        rel_pos1_cross_normal: torque,
        angular_component_a: angular,
        jac_diag_ab_inv: scale,
        rhs: closing_speed(solver_body, dir, torque).negate().times(scale),
        lower_limit: friction.negate(),
        upper_limit: friction,
        friction,
        ..Row::zero()
    }
}

pub fn get_special_friction_row(
    average: SpecialAverage,
    friction: Single,
    body: &RigidBody,
    solver_body: &SolverBody,
    dir: Vec3A,
) -> (r: Row)
    ensures
        r == special_friction_row(average, friction, *body, *solver_body, dir),
{
    let (angular, torque, scale) = lever(body, average.rel_pos, dir);
    let rel_vel = speed_along(solver_body, dir, torque);
    Row {
        contact_normal_1: dir,
        rel_pos1_cross_normal: torque,
        angular_component_a: angular,
        jac_diag_ab_inv: scale,
        rhs: rel_vel.negate().times(scale),
        lower_limit: friction.negate(),
        upper_limit: friction,
        friction,
        ..Row::zero()
    }
}

/// However deep a body is in, a step recovers no more than the step can have made.
pub proof fn law_recovery_is_capped(penetration: Single, body: RigidBody, time_step: Single)
    ensures
        !recoverable(penetration, body, time_step).less(max_recover(body, time_step).negate()),
{
}

/// Points coincide mutually.
pub proof fn law_coinciding_is_mutual(a: SpecialContact, b: SpecialContact)
    ensures
        a.coincides(b) == b.coincides(a),
{
    let tolerance = a.dedup_distance.greater_of(b.dedup_distance);
    let other = b.dedup_distance.greater_of(a.dedup_distance);
    law_square_ignores_sign(tolerance, other);
    law_difference_mirrors(a.pos_world_on_a.x, b.pos_world_on_a.x);
    law_difference_mirrors(a.pos_world_on_a.y, b.pos_world_on_a.y);
    law_difference_mirrors(a.pos_world_on_a.z, b.pos_world_on_a.z);
    law_difference_mirrors(a.pos_world_on_b.x, b.pos_world_on_b.x);
    law_difference_mirrors(a.pos_world_on_b.y, b.pos_world_on_b.y);
    law_difference_mirrors(a.pos_world_on_b.z, b.pos_world_on_b.z);
    law_difference_mirrors(a.distance, b.distance);
    law_product_commutes(a.normal_world_on_b.x, b.normal_world_on_b.x);
    law_product_commutes(a.normal_world_on_b.y, b.normal_world_on_b.y);
    law_product_commutes(a.normal_world_on_b.z, b.normal_world_on_b.z);
}

impl SpecialSums {
    /// Of the points that count no two coincide, and they are as many as are counted.
    pub open spec fn distinct(self) -> bool {
        &&& self.num == self.contacts.len()
        &&& forall|i: int, j: int|
            0 <= i < self.contacts.len() && 0 <= j < self.contacts.len() && i != j
                ==> !(#[trigger] self.contacts[i]).coincides(#[trigger] self.contacts[j])
    }
}

/// A touch counts once, however many triangles are under it: of the points that count no two
/// coincide, neither at first nor after another one.
pub proof fn law_points_count_once(
    sums: SpecialSums,
    body0: RigidBody,
    body1: RigidBody,
    cp: ManifoldPoint,
    rel_pos1: Vec3A,
    rel_pos2: Vec3A,
    threshold: Single,
)
    ensures
        SpecialSums::none().distinct(),
        sums.distinct() ==> sums.with_collision(body0, body1, cp, rel_pos1, rel_pos2, threshold).distinct(),
{
    let after = sums.with_collision(body0, body1, cp, rel_pos1, rel_pos2, threshold);
    if sums.distinct() && after != sums {
        let contact = after.contacts[sums.contacts.len() as int];
        assert forall|i: int, j: int|
            0 <= i < after.contacts.len() && 0 <= j < after.contacts.len() && i != j implies !(
        #[trigger] after.contacts[i]).coincides(#[trigger] after.contacts[j]) by {
            if i == sums.contacts.len() {
                assert(after.contacts[j] == sums.contacts[j]);
            } else if j == sums.contacts.len() {
                law_coinciding_is_mutual(after.contacts[i], contact);
                assert(after.contacts[i] == sums.contacts[i]);
            } else {
                assert(after.contacts[i] == sums.contacts[i] && after.contacts[j] == sums.contacts[j]);
            }
        }
    }
}

/// A point coincides with itself, as long as it is a number, its normal has unit length, and points
/// may be some way off.
proof fn lemma_coincides_with_itself(contact: SpecialContact)
    requires
        contact.pos_world_on_a.finite(),
        contact.pos_world_on_b.finite(),
        contact.distance.finite(),
        (Single { bits: SPECIAL_CONTACT_DEDUP_NORMAL_DOT }).at_most(contact.normal_world_on_b.length_squared()),
        (Single { bits: 0 }).at_most(contact.dedup_distance),
    ensures
        contact.coincides(contact),
{
    let a = contact.pos_world_on_a;
    let b = contact.pos_world_on_b;
    law_nothing_left(a.x);
    law_nothing_left(a.y);
    law_nothing_left(a.z);
    law_nothing_left(b.x);
    law_nothing_left(b.y);
    law_nothing_left(b.z);
    law_nothing_left(contact.distance);
    law_zero_stays_zero();
    law_squares_are_not_negative(contact.dedup_distance);
}

/// A point that has just been added changes nothing when it comes again, as long as it is finite and
/// its normal has unit length.
pub proof fn law_same_point_again_changes_nothing(
    sums: SpecialSums,
    body0: RigidBody,
    body1: RigidBody,
    cp: ManifoldPoint,
    rel_pos1: Vec3A,
    rel_pos2: Vec3A,
    threshold: Single,
)
    requires
        cp.pos_world_on_a.finite(),
        cp.pos_world_on_b.finite(),
        cp.distance_1.finite(),
        (Single { bits: SPECIAL_CONTACT_DEDUP_NORMAL_DOT }).at_most(cp.normal_world_on_b.length_squared()),
        (Single { bits: 0 }).at_most(threshold),
    ensures
        ({
            let once = sums.with_collision(body0, body1, cp, rel_pos1, rel_pos2, threshold);
            once.with_collision(body0, body1, cp, rel_pos1, rel_pos2, threshold) == once
        }),
{
    let once = sums.with_collision(body0, body1, cp, rel_pos1, rel_pos2, threshold);
    if !body0.is_static || !body1.is_static {
        let (obj_idx, rel_pos) = if !body0.is_static {
            (body0.world_array_idx, rel_pos1)
        } else {
            (body1.world_array_idx, rel_pos2)
        };
        let contact = special_contact(obj_idx, cp, rel_pos, threshold);
        let zero = Single { bits: 0 };
        let two = Single { bits: TWO };
        law_doubles_are_numbers(zero);
        law_doubles_are_numbers(threshold);
        law_product_commutes(two, zero);
        law_product_commutes(two, threshold);
        law_product_grows(zero, threshold, two);
        law_product_sign(zero, two);
        assert(zero.at_most(contact.dedup_distance));
        lemma_coincides_with_itself(contact);
        if !sums.has(contact) {
            assert(once.contacts[sums.contacts.len() as int] == contact);
        }
        assert(once.has(contact));
    }
}

/// A point between two bodies that do not move changes nothing.
pub proof fn law_still_bodies_add_nothing(
    sums: SpecialSums,
    body0: RigidBody,
    body1: RigidBody,
    cp: ManifoldPoint,
    rel_pos1: Vec3A,
    rel_pos2: Vec3A,
    threshold: Single,
)
    requires
        body0.is_static,
        body1.is_static,
    ensures
        sums.with_collision(body0, body1, cp, rel_pos1, rel_pos2, threshold) == sums,
{
}

} // verus!
