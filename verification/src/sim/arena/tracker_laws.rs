//! What is told of contacts.
use crate::bounds::{lemma_times, lemma_vector_scale, near, point, sized, slack, stretched, within};
use crate::bullet::body::{RigidBody, UserInfoTypes};
use crate::bullet::manifold::ManifoldPoint;
use crate::bullet::solver_constraint::ContactSolveInfo;
use crate::consts::BT_TO_UU;
use crate::math::Vec3A;
use crate::sim::arena::arena_contact_tracker::{car_of, recorded, told, tuned, MINUS_ONE};
use crate::single::{Single, ONE_BITS};
use crate::single_errors::{lemma_constant, real_value};
use crate::single_laws::{law_times_minus_one, law_times_one};
use vstd::arithmetic::power2::lemma2_to64;
use vstd::prelude::*;

verus! {

/// A contact is recorded the same whichever body comes first, but for the note that the bodies are swapped; the bodies have to stand
/// for different things.
pub proof fn law_records_do_not_depend_on_the_order(at: ManifoldPoint, a: RigidBody, b: RigidBody)
    requires
        a.user_idx != b.user_idx,
    ensures
        ({
            let (x, y) = (recorded(at, a, b), recorded(at, b, a));
            &&& x.rb_idx_a == y.rb_idx_a && x.rb_idx_b == y.rb_idx_b
            &&& x.manifold_point == y.manifold_point
            &&& x.is_swap != y.is_swap
            &&& x.rb_idx_a == a.world_array_idx && x.rb_idx_b == b.world_array_idx || x.rb_idx_a == b.world_array_idx && x.rb_idx_b
                == a.world_array_idx
            &&& b.user_idx is Other ==> x.rb_idx_a == a.world_array_idx && x.rb_idx_b == b.world_array_idx && !x.is_swap
        }),
{
}

/// Tuning a contact touches nothing but its friction, its restitution and whether it is resolved with the others of the ball. A contact
/// of a car has friction and restitution by what it touches alone; only the ball's contact with the world is resolved as a whole.
pub proof fn law_tuning_goes_by_what_touches(x: ManifoldPoint, y: ManifoldPoint, a: UserInfoTypes, b: UserInfoTypes)
    ensures
        ({
            let (p, q) = (tuned(x, a, b), tuned(y, a, b));
            &&& p == (ManifoldPoint {
                combined_friction: p.combined_friction,
                combined_restitution: p.combined_restitution,
                is_special: p.is_special,
                ..x
            })
            &&& a is Car ==> p.combined_friction == q.combined_friction && p.combined_restitution == q.combined_restitution
            &&& !(a is Car) ==> p.combined_friction == x.combined_friction && p.combined_restitution == x.combined_restitution
            &&& p.is_special == (x.is_special || a is Ball && b is Other)
        }),
{
}

/// The car of a contact with the ball is the same whichever comes first.
pub proof fn law_the_car_is_found_from_either_side(a: RigidBody, b: RigidBody)
    ensures
        car_of(a, b) is Some <==> a.user_idx is Ball && b.user_idx is Car || a.user_idx is Car && b.user_idx is Ball,
        car_of(a, b) is Some <==> car_of(b, a) is Some,
        car_of(a, b) matches Some((car, ball_first)) ==> {
            &&& car.user_idx is Car
            &&& car == a || car == b
            &&& ball_first == (a.user_idx is Ball)
            &&& car_of(b, a) == Some((car, !ball_first))
        },
{
}

/// A vector turned round.
proof fn lemma_turned_round(v: Vec3A)
    requires
        v.finite(),
    ensures
        v.scale(Single { bits: ONE_BITS }) == v,
        v.negate().scale(Single { bits: MINUS_ONE }) == v,
{
    let minus = (Single { bits: ONE_BITS }).negate();
    assert(minus == (Single { bits: MINUS_ONE }));
    law_times_one(v.x);
    law_times_one(v.y);
    law_times_one(v.z);
    law_times_minus_one(v.x.negate());
    law_times_minus_one(v.y.negate());
    law_times_minus_one(v.z.negate());
    assert(v.x.negate().negate() == v.x && v.y.negate().negate() == v.y && v.z.negate().negate() == v.z);
}

/// The same contact with its bodies in the other order.
pub open spec fn mirrored(contact: ContactSolveInfo) -> ContactSolveInfo {
    ContactSolveInfo {
        manifold_point: ManifoldPoint {
            pos_world_on_a: contact.manifold_point.pos_world_on_b,
            pos_world_on_b: contact.manifold_point.pos_world_on_a,
            normal_world_on_b: contact.manifold_point.normal_world_on_b.negate(),
            ..contact.manifold_point
        },
        relative_velocity_before: contact.relative_velocity_before.negate(),
        relative_velocity_after: contact.relative_velocity_after.negate(),
        ..contact
    }
}

/// A contact of a car with the ball is told the same whichever of them comes first.
pub proof fn law_contacts_are_told_from_the_car(contact: ContactSolveInfo, car: RigidBody)
    requires
        contact.manifold_point.normal_world_on_b.finite(),
        contact.relative_velocity_before.finite(),
        contact.relative_velocity_after.finite(),
    ensures
        told(mirrored(contact), car, false) == told(contact, car, true),
{
    lemma_turned_round(contact.manifold_point.normal_world_on_b);
    lemma_turned_round(contact.relative_velocity_before);
    lemma_turned_round(contact.relative_velocity_after);
}

/// With the ball first, a contact is told as it is, in game units, of which there are 50 to a unit of the physics: where it is on the
/// ball, which way its normal points, how deep it is, and how fast the ball moves as seen from the car.
pub proof fn law_contacts_are_told_in_game_units(contact: ContactSolveInfo, car: RigidBody)
    requires
        contact.manifold_point.pos_world_on_a.finite() && sized(point(contact.manifold_point.pos_world_on_a), 1000real),
        contact.manifold_point.normal_world_on_b.finite(),
        contact.manifold_point.distance_1.finite(),
        -1000real <= real_value(contact.manifold_point.distance_1) <= 1000real,
        contact.relative_velocity_before.finite() && sized(point(contact.relative_velocity_before), 1000real),
        contact.relative_velocity_after.finite() && sized(point(contact.relative_velocity_after), 1000real),
    ensures
        ({
            let info = told(contact, car, true);
            let e = 1real / 100real;
            &&& info.car_idx == car.user_pointer
            &&& near(info.contact_point, stretched(point(contact.manifold_point.pos_world_on_a), 50real), e)
            &&& info.contact_normal == contact.manifold_point.normal_world_on_b
            &&& within(info.distance, real_value(contact.manifold_point.distance_1) * 50real, e)
            &&& info.normal_impulse == contact.normal_impulse
            &&& info.push_impulse == contact.push_impulse
            &&& near(info.relative_velocity_before, stretched(point(contact.relative_velocity_before), 50real), e)
            &&& near(info.relative_velocity_after, stretched(point(contact.relative_velocity_after), 50real), e)
        }),
{
    lemma2_to64();
    let fifty = Single { bits: BT_TO_UU };
    lemma_constant(BT_TO_UU, 0xc8_0000, 18, 0x4_0000);
    assert(within(fifty, 50real, 0real));
    assert(slack(1000real, 0real, 50real, 0real) <= 1real / 100real && (1000real + 0real) * (50real + 0real) == 50000real)
        by (nonlinear_arith);
    lemma_turned_round(contact.manifold_point.normal_world_on_b);
    lemma_turned_round(contact.relative_velocity_before);
    lemma_turned_round(contact.relative_velocity_after);
    let (p, v, w) = (
        contact.manifold_point.pos_world_on_a,
        contact.relative_velocity_before,
        contact.relative_velocity_after,
    );
    let d = contact.manifold_point.distance_1;
    lemma_vector_scale(p, point(p), 0real, fifty, 50real, 0real, 1000real, 50real, 1real / 100real);
    lemma_vector_scale(v, point(v), 0real, fifty, 50real, 0real, 1000real, 50real, 1real / 100real);
    lemma_vector_scale(w, point(w), 0real, fifty, 50real, 0real, 1000real, 50real, 1real / 100real);
    lemma_times(d, real_value(d), 0real, fifty, 50real, 0real, 1000real, 50real, 1real / 100real);
}

} // verus!
