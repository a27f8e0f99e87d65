//! Where the rows of contacts come from.
use crate::bullet::body::RigidBody;
use crate::bullet::manifold::ManifoldPoint;
use crate::bullet::seq_impulse_constraint_solver::{behind, contact_of, heads, Group, Pair};
use crate::bullet::solver_body::SolverBody;
use crate::bullet::solver_constraint::{Row, Rows, SolverConstraint, SpecialContactSolveInfo};
use crate::bullet::special_contact::{lateral, special_contact_row, special_friction_row};
use crate::math::Vec3A;
use crate::single::Single;
use vstd::prelude::*;

verus! {

/// The row of a contact is made for the two bodies of the pair and the point; that of its friction for the same bodies and the point with the
/// direction of the friction. A body that does not move is not shown to either.
pub proof fn law_rows_are_made_for_the_point<R: Rows>(
    g: Group,
    rows: &R,
    pair: Pair,
    cp: ManifoldPoint,
    time_step: Single,
    out: Group,
) -> (r: ((Option<&RigidBody>, Option<&RigidBody>), ManifoldPoint))
    requires
        g.takes_point(rows, pair, cp, time_step, out),
        g.frictions.len() == g.contacts.len() < usize::MAX,
        !cp.is_special,
    ensures
        ({
            let (a, b) = (g.bodies[pair.ids.0 as int], g.bodies[pair.ids.1 as int]);
            let n = g.contacts.len() as int;
            let (contact, friction) = (out.contacts[n], out.frictions[n]);
            let rel_pos = (contact.rel_pos_a, contact.rel_pos_b);
            let (moving, aimed) = r;
            &&& a.original_body is Some ==> moving.0 == Some(&pair.body0)
            &&& a.original_body is None ==> moving.0 is None
            &&& b.original_body is Some ==> moving.1 == Some(&pair.body1)
            &&& b.original_body is None ==> moving.1 is None
            &&& call_ensures(R::contact_row, (rows, (&a, &b), moving, rel_pos, &cp, time_step), contact.row)
            &&& call_ensures(R::with_friction_dir, (rows, &cp, (&a, &b), rel_pos), aimed)
            &&& call_ensures(R::friction_row, (rows, (&a, &b), moving, rel_pos, &aimed), friction.row)
        }),
{
    let rel_pos = pair.rel_pos(cp);
    let (a, b) = (g.bodies[pair.ids.0 as int], g.bodies[pair.ids.1 as int]);
    let moving = (behind(a, &pair.body0), behind(b, &pair.body1));
    let friction_idx = g.frictions.len() as usize;
    let (row, vel_a, vel_b, aimed, drag) = choose|row: Row, vel_a: Vec3A, vel_b: Vec3A, aimed: ManifoldPoint, drag: Row|
        #[trigger] call_ensures(R::contact_row, (rows, (&a, &b), moving, rel_pos, &cp, time_step), row)
            && #[trigger] call_ensures(R::velocity_before, (rows, &a, rel_pos.0), vel_a)
            && #[trigger] call_ensures(R::velocity_before, (rows, &b, rel_pos.1), vel_b)
            && #[trigger] call_ensures(R::with_friction_dir, (rows, &cp, (&a, &b), rel_pos), aimed)
            && #[trigger] call_ensures(R::friction_row, (rows, (&a, &b), moving, rel_pos, &aimed), drag) && out == (Group {
            contacts: g.contacts.push(contact_of(pair, cp, friction_idx, row, vel_a.minus(vel_b))),
            frictions: g.frictions.push(SolverConstraint::bare(pair.ids, friction_idx, drag)),
            ..g
        });
    (moving, aimed)
}

/// The ball bounces off the world as the restitution of its contact says for the speed at which its point meets the surface, and it is not
/// drawn to the surface where that would be less than nothing. What is told of the contact is that restitution, the velocity of the
/// point before, and the mean of the points; no impulse has been applied yet.
pub proof fn law_the_ball_bounces_as_it_meets_the_world<R: Rows>(
    g: Group,
    rows: &R,
    body: RigidBody,
    made: SolverBody,
    time_step: Single,
    track: bool,
    out: Group,
) -> (r: (Vec3A, Single, Vec3A))
    requires
        g.converts_against(rows, body, made, time_step, track, out),
        g.frictions.len() == g.contacts.len() < usize::MAX,
        g.bodies.len() < usize::MAX,
        g.fixed matches Some(id) ==> id < g.bodies.len(),
        body.companion_id matches Some(id) ==> id < g.bodies.len(),
        body.companion_id is Some,
    ensures
        ({
            let (vel, bounce, before) = r;
            let n = g.contacts.len() as int;
            let (contact, friction) = (out.contacts[n], out.frictions[n]);
            let ball = g.bodies[body.companion_id->Some_0 as int];
            let average = g.special.average();
            let zero = Single { bits: 0 };
            let part = if zero.at_most(bounce) {
                bounce
            } else {
                zero
            };
            &&& call_ensures(R::point_velocity, (rows, &body, average.rel_pos), vel)
            &&& call_ensures(R::restitution, (rows, average.normal.dot(vel), g.special.restitution), bounce)
            &&& contact.row == special_contact_row(average, g.special.friction, body, ball, time_step, part)
            &&& contact.body_idx_a == g.special.obj_idx && contact.rel_pos_a == average.rel_pos
            &&& contact.manifold_point is None
            &&& track ==> {
                let info = contact.special_contact_info->Some_0;
                &&& contact.special_contact_info is Some
                &&& info.effective_normal == average.normal
                &&& info.mean_penetration == average.penetration
                &&& info.restitution_velocity == part
                &&& info.relative_velocity_before == vel
                &&& info.normal_impulse == zero && info.push_impulse == zero
            }
            &&& call_ensures(R::velocity_before, (rows, &ball, average.rel_pos), before)
            &&& match lateral(before, average.normal) {
                Some(across) => friction.row == special_friction_row(average, g.special.friction, body, ball, across),
                None => exists|dir: Vec3A| #[trigger]
                    call_ensures(R::sideways, (rows, average.normal), dir) && friction.row == special_friction_row(
                        average,
                        g.special.friction,
                        body,
                        ball,
                        dir,
                    ),
            }
        }),
{
    let average = g.special.average();
    let (grown, id_b) = g.with_fixed(made);
    let id_a = body.companion_id->Some_0;
    let a = grown.bodies[id_a as int];
    assert(a == g.bodies[id_a as int]);
    let n = g.contacts.len() as int;
    let zero = Single { bits: 0 };
    let (vel, bounce, before, dir) = choose|vel: Vec3A, bounce: Single, before: Vec3A, dir: Vec3A|
        #[trigger] call_ensures(R::point_velocity, (rows, &body, average.rel_pos), vel) && #[trigger] call_ensures(
            R::restitution,
            (rows, average.normal.dot(vel), g.special.restitution),
            bounce,
        ) && #[trigger] call_ensures(R::velocity_before, (rows, &a, average.rel_pos), before) && #[trigger] heads(
            rows,
            before,
            average.normal,
            dir,
        ) && out.contacts[n] == (SolverConstraint {
            body_idx_a: g.special.obj_idx,
            rel_pos_a: average.rel_pos,
            special_contact_info: if track {
                Some(
                    SpecialContactSolveInfo {
                        effective_normal: average.normal,
                        mean_penetration: average.penetration,
                        restitution_velocity: bounce.greater_of(zero),
                        normal_impulse: zero,
                        push_impulse: zero,
                        relative_velocity_before: vel,
                        relative_velocity_after: Vec3A::zero(),
                    },
                )
            } else {
                None
            },
            ..SolverConstraint::bare(
                (id_a, id_b),
                0,
                special_contact_row(average, g.special.friction, body, a, time_step, bounce.greater_of(zero)),
            )
        }) && out.frictions[n] == SolverConstraint::bare(
            (id_a, id_b),
            n as usize,
            special_friction_row(average, g.special.friction, body, a, dir),
        );
    (vel, bounce, before)
}

} // verus!
