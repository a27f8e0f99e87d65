//! Hears of contacts while the world is stepped.
use crate::bullet::body::{RigidBody, UserInfoTypes};
use crate::bullet::manifold::ManifoldPoint;
use crate::bullet::solver_constraint::{
    ContactAddedCallback, ContactSolveInfo, SpecialContactSolveInfo, SpecialContactSolvePoint,
};
use crate::consts::BT_TO_UU;
use crate::math::Vec3A;
use crate::single::{Single, ONE_BITS};
use vstd::prelude::*;

verus! {

/// The friction of a car with the ball, 2.
pub const CAR_BALL_FRICTION: u32 = 0x4000_0000;

/// The restitution of a car and the ball, 0.
pub const CAR_BALL_RESTITUTION: u32 = 0;

/// The friction of two cars, 0.09.
pub const CAR_CAR_FRICTION: u32 = 0x3db8_51ec;

/// The restitution of two cars, 0.1.
pub const CAR_CAR_RESTITUTION: u32 = 0x3dcc_cccd;

/// The friction of a car with the world, 0.3.
pub const CAR_WORLD_FRICTION: u32 = 0x3e99_999a;

/// The restitution of a car and the world, 0.3.
pub const CAR_WORLD_RESTITUTION: u32 = 0x3e99_999a;

/// Minus one.
pub const MINUS_ONE: u32 = 0xbf80_0000;

/// A contact of two bodies.
#[derive(Clone, Copy, Debug, PartialEq, Eq, Structural)]
pub struct ContactRecord {
    /// The bodies are swapped against the manifold.
    pub is_swap: bool,
    pub rb_idx_a: usize,
    pub rb_idx_b: usize,
    pub manifold_point: ManifoldPoint,
}

/// What the solver made of a contact of a car with the ball.
#[derive(Clone, Copy, Debug, PartialEq, Eq, Structural)]
pub struct CarBallContactInfo {
    pub car_idx: usize,
    /// The point on the ball, in game units.
    pub contact_point: Vec3A,
    /// The normal from the car towards the ball.
    pub contact_normal: Vec3A,
    /// The gap in game units, negative when they overlap.
    pub distance: Single,
    pub normal_impulse: Single,
    pub push_impulse: Single,
    /// The velocity of the ball at the point relative to the car, in game units.
    pub relative_velocity_before: Vec3A,
    pub relative_velocity_after: Vec3A,
}

/// Corrects a contact with a triangle for the triangles around it.
///
/// Nothing is known of what the method returns.
pub trait EdgeAdjuster {
    fn adjust_internal_edge_contacts(&self, point: ManifoldPoint, body_b: &RigidBody, triangle_idx: usize) -> ManifoldPoint;
}

/// Records the contacts of a step.
#[derive(Debug)]
pub struct ArenaContactTracker<A> {
    pub adjuster: A,
    pub collision_records: Vec<ContactRecord>,
    pub solved_car_ball_contacts: Vec<CarBallContactInfo>,
}

/// Two bodies are told in the other order: of two that stand for something the lesser one comes
/// first, and otherwise the one that does.
pub open spec fn swapped(a: UserInfoTypes, b: UserInfoTypes) -> bool {
    if a != UserInfoTypes::Other && b != UserInfoTypes::Other {
        a.place() > b.place()
    } else {
        b != UserInfoTypes::Other
    }
}

/// A contact point with the friction and restitution of what touches: those of a car with the ball,
/// another car or anything else; the ball's contact with the world is resolved as a whole.
pub open spec fn tuned(point: ManifoldPoint, a: UserInfoTypes, b: UserInfoTypes) -> ManifoldPoint {
    if a == UserInfoTypes::Car {
        let (friction, restitution) = match b {
            UserInfoTypes::Ball => (CAR_BALL_FRICTION, CAR_BALL_RESTITUTION),
            UserInfoTypes::Car => (CAR_CAR_FRICTION, CAR_CAR_RESTITUTION),
            _ => (CAR_WORLD_FRICTION, CAR_WORLD_RESTITUTION),
        };
        ManifoldPoint {
            combined_friction: Single { bits: friction },
            combined_restitution: Single { bits: restitution },
            ..point
        }
    } else if a == UserInfoTypes::Ball && b == UserInfoTypes::Other {
        ManifoldPoint { is_special: true, ..point }
    } else {
        point
    }
}

/// A contact of two bodies as it is recorded: in the order in which the bodies are told, and tuned for them.
pub open spec fn recorded(point: ManifoldPoint, body_a: RigidBody, body_b: RigidBody) -> ContactRecord {
    let swap = swapped(body_a.user_idx, body_b.user_idx);
    let (first, second) = if swap {
        (body_b, body_a)
    } else {
        (body_a, body_b)
    };
    ContactRecord {
        is_swap: swap,
        rb_idx_a: first.world_array_idx,
        rb_idx_b: second.world_array_idx,
        manifold_point: tuned(point, first.user_idx, second.user_idx),
    }
}

/// The car of two bodies that are a car and the ball, and whether the ball is the first one.
pub open spec fn car_of(body_a: RigidBody, body_b: RigidBody) -> Option<(RigidBody, bool)> {
    match (body_a.user_idx, body_b.user_idx) {
        (UserInfoTypes::Ball, UserInfoTypes::Car) => Some((body_b, true)),
        (UserInfoTypes::Car, UserInfoTypes::Ball) => Some((body_a, false)),
        _ => None,
    }
}

/// A solved contact as it is told of, from the car towards the ball and in game units.
pub open spec fn told(contact: ContactSolveInfo, car: RigidBody, ball_is_body_a: bool) -> CarBallContactInfo {
    let direction = Single { bits: if ball_is_body_a { ONE_BITS } else { MINUS_ONE } };
    let point = contact.manifold_point;
    let scale = Single { bits: BT_TO_UU };
    CarBallContactInfo {
        car_idx: car.user_pointer,
        contact_point: if ball_is_body_a {
            point.pos_world_on_a
        } else {
            point.pos_world_on_b
        }.scale(scale),
        contact_normal: point.normal_world_on_b.scale(direction),
        distance: point.distance_1.times(scale),
        normal_impulse: contact.normal_impulse,
        push_impulse: contact.push_impulse,
        relative_velocity_before: contact.relative_velocity_before.scale(direction).scale(scale),
        relative_velocity_after: contact.relative_velocity_after.scale(direction).scale(scale),
    }
}

impl<A> ArenaContactTracker<A> {
    pub fn new(adjuster: A) -> (r: ArenaContactTracker<A>)
        ensures
            r.adjuster == adjuster,
            r.collision_records@.len() == 0,
            r.solved_car_ball_contacts@.len() == 0,
    {
        ArenaContactTracker { adjuster, collision_records: Vec::new(), solved_car_ball_contacts: Vec::new() }
    }

    pub fn num_records(&self) -> (r: usize)
        ensures
            r == self.collision_records@.len(),
    {
        self.collision_records.len()
    }

    pub fn get_record(&self, idx: usize) -> (r: &ContactRecord)
        requires
            idx < self.collision_records@.len(),
        ensures
            *r == self.collision_records@[idx as int],
    {
        &self.collision_records[idx]
    }

    pub fn clear_records(&mut self)
        ensures
            final(self).collision_records@.len() == 0,
            final(self).solved_car_ball_contacts == old(self).solved_car_ball_contacts,
            final(self).adjuster == old(self).adjuster,
    {
        self.collision_records.clear();
    }

    pub fn solved_car_ball_contacts(&self) -> (r: &[CarBallContactInfo])
        ensures
            r@ == self.solved_car_ball_contacts@,
    {
        self.solved_car_ball_contacts.as_slice()
    }

    pub fn clear_solved_contacts(&mut self)
        ensures
            final(self).solved_car_ball_contacts@.len() == 0,
            final(self).collision_records == old(self).collision_records,
            final(self).adjuster == old(self).adjuster,
    {
        self.solved_car_ball_contacts.clear();
    }
}

impl<A: EdgeAdjuster> ContactAddedCallback for ArenaContactTracker<A> {
    /// Hears of a new contact point: tunes it, records it, and only then corrects it for the
    /// triangles around the one that was hit.
    fn callback(
        self,
        manifold_point: ManifoldPoint,
        body_a: &RigidBody,
        body_b: &RigidBody,
        idx: Option<usize>,
    ) -> (r: (Self, ManifoldPoint))
        ensures
            ({
                let record = recorded(manifold_point, *body_a, *body_b);
                &&& r.0.collision_records@ == self.collision_records@.push(record)
                &&& match idx {
                    Some(triangle) => call_ensures(
                        A::adjust_internal_edge_contacts,
                        (
                            &self.adjuster,
                            record.manifold_point,
                            if record.is_swap {
                                body_a
                            } else {
                                body_b
                            },
                            triangle,
                        ),
                        r.1,
                    ),
                    None => r.1 == record.manifold_point,
                }
            }),
            r.0.solved_car_ball_contacts == self.solved_car_ball_contacts,
            r.0.adjuster == self.adjuster,
    {
        let should_swap: bool = if body_a.user_idx != UserInfoTypes::Other && body_b.user_idx != UserInfoTypes::Other {
            body_a.user_idx.order() > body_b.user_idx.order()
        } else {
            body_b.user_idx != UserInfoTypes::Other
        };
        let (first, second): (&RigidBody, &RigidBody) = if should_swap { (body_b, body_a) } else { (body_a, body_b) };
        let mut point = manifold_point;
        if first.user_idx == UserInfoTypes::Car {
            let (friction, restitution): (u32, u32) = match second.user_idx {
                UserInfoTypes::Ball => (CAR_BALL_FRICTION, CAR_BALL_RESTITUTION),
                UserInfoTypes::Car => (CAR_CAR_FRICTION, CAR_CAR_RESTITUTION),
                _ => (CAR_WORLD_FRICTION, CAR_WORLD_RESTITUTION),
            };
            point.combined_friction = Single::of(friction);
            point.combined_restitution = Single::of(restitution);
        } else if first.user_idx == UserInfoTypes::Ball && second.user_idx == UserInfoTypes::Other {
            point.is_special = true;
        }
        let mut tracker = self;
        tracker.collision_records.push(
            ContactRecord {
                is_swap: should_swap,
                rb_idx_a: first.world_array_idx,
                rb_idx_b: second.world_array_idx,
                manifold_point: point,
            },
        );
        if let Some(triangle) = idx {
            point = tracker.adjuster.adjust_internal_edge_contacts(point, second, triangle);
        }
        (tracker, point)
    }

    /// Hears of a solved contact, and keeps it if it is one of a car with the ball.
    fn contact_solved(self, contact: ContactSolveInfo, body_a: &RigidBody, body_b: &RigidBody) -> (r: Self)
        ensures
            r.solved_car_ball_contacts@ == match car_of(*body_a, *body_b) {
                None => self.solved_car_ball_contacts@,
                Some((car, ball_is_body_a)) => self.solved_car_ball_contacts@.push(
                    told(contact, car, ball_is_body_a),
                ),
            },
            r.collision_records == self.collision_records,
            r.adjuster == self.adjuster,
    {
        let (car, ball_is_body_a): (&RigidBody, bool) = match (body_a.user_idx, body_b.user_idx) {
            (UserInfoTypes::Ball, UserInfoTypes::Car) => (body_b, true),
            (UserInfoTypes::Car, UserInfoTypes::Ball) => (body_a, false),
            _ => return self,
        };
        let direction = if ball_is_body_a { Single::of(ONE_BITS) } else { Single::of(MINUS_ONE) };
        let scale = Single::of(BT_TO_UU);
        let point = if ball_is_body_a {
            contact.manifold_point.pos_world_on_a
        } else {
            contact.manifold_point.pos_world_on_b
        };
        let mut tracker = self;
        tracker.solved_car_ball_contacts.push(
            CarBallContactInfo {
                car_idx: car.user_pointer,
                contact_point: point.scale(scale),
                contact_normal: contact.manifold_point.normal_world_on_b.scale(direction),
                distance: contact.manifold_point.distance_1.times(scale),
                normal_impulse: contact.normal_impulse,
                push_impulse: contact.push_impulse,
                relative_velocity_before: contact.relative_velocity_before.scale(direction).scale(scale),
                relative_velocity_after: contact.relative_velocity_after.scale(direction).scale(scale),
            },
        );
        tracker
    }

    /// Nothing is kept of the ball's contact with the world.
    fn special_contact_solved(
        self,
        contact: SpecialContactSolveInfo,
        points: &Vec<SpecialContactSolvePoint>,
        body: &RigidBody,
    ) -> (r: Self)
        ensures
            r == self,
    {
        self
    }

    fn tracks_special_contacts(&self) -> (r: bool)
        ensures
            !r,
    {
        false
    }
}

/// Whichever of two bodies is given first, the same one is told first, unless they stand for the same
/// thing.
pub proof fn law_order_of_bodies(a: UserInfoTypes, b: UserInfoTypes)
    requires
        a != b,
    ensures
        swapped(a, b) != swapped(b, a),
        swapped(a, b) ==> a == UserInfoTypes::Other || (b != UserInfoTypes::Other && b.place() < a.place()),
{
}

} // verus!
