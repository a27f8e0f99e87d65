//! How contacts become rows.
use crate::bounds::{
    added, inner, lemma_any_length, lemma_plus, lemma_vector_minus, lemma_vector_plus, near, point, sized, taken, within,
};
use crate::bullet::body::{lemma_noted, lemma_noted_again, RigidBody};
use crate::bullet::manifold::ManifoldPoint;
use crate::bullet::seq_impulse_constraint_solver::{behind, contact_of, heads, moves, Group, Pair};
use crate::bullet::solver_body::SolverBody;
use crate::bullet::solver_constraint::{Row, Rows, SolverConstraint};
use crate::bullet::special_contact::{
    lateral, special_contact, special_contact_row, special_friction_row, SpecialSums,
};
use crate::math::Vec3A;
use crate::reals::{lemma_bounded, lemma_scaled, lemma_square_of_sum, lemma_swap};
use crate::single::Single;
use crate::single_errors::{lemma_order, real_value};

use vstd::prelude::*;

verus! {

/// A point of a manifold becomes a contact and its friction, which belong to each other and join the solver's bodies of the pair; it is at
/// the ways from the centres of the bodies to its positions on them, and it is noted how fast the first body moved there as seen from the
/// second. A point of the ball's contact with the world only adds to that contact. Nothing else changes.
pub proof fn law_a_point_becomes_two_rows<R: Rows>(
    g: Group,
    rows: &R,
    pair: Pair,
    cp: ManifoldPoint,
    time_step: Single,
    out: Group,
) -> (r: (Vec3A, Vec3A))
    requires
        g.takes_point(rows, pair, cp, time_step, out),
        g.frictions.len() == g.contacts.len() < usize::MAX,
    ensures
        out.bodies == g.bodies && out.fixed == g.fixed && out.points == g.points,
        cp.is_special ==> out.contacts == g.contacts && out.frictions == g.frictions,
        !cp.is_special ==> {
            let (a, b) = (g.bodies[pair.ids.0 as int], g.bodies[pair.ids.1 as int]);
            let n = g.contacts.len() as int;
            let (contact, friction) = (out.contacts[n], out.frictions[n]);
            &&& out.special == g.special
            &&& out.contacts.len() == n + 1 && out.frictions.len() == n + 1
            &&& forall|k: int| 0 <= k < n ==> #[trigger] out.contacts[k] == g.contacts[k]
            &&& forall|k: int| 0 <= k < n ==> #[trigger] out.frictions[k] == g.frictions[k]
            &&& contact.friction_idx == n && friction.friction_idx == n
            &&& contact.solver_body_id_a == pair.ids.0 && contact.solver_body_id_b == pair.ids.1
            &&& friction.solver_body_id_a == pair.ids.0 && friction.solver_body_id_b == pair.ids.1
            &&& contact.body_idx_a == pair.idcs.0 && contact.body_idx_b == pair.idcs.1
            &&& contact.manifold_point == Some(cp)
            &&& contact.special_contact_info is None
            &&& call_ensures(R::velocity_before, (rows, &a, contact.rel_pos_a), r.0)
            &&& call_ensures(R::velocity_before, (rows, &b, contact.rel_pos_b), r.1)
            &&& at_home(pair.body0, cp.pos_world_on_a) ==> near(
                contact.rel_pos_a,
                taken(point(cp.pos_world_on_a), point(pair.body0.world_trans.translation)),
                1real / 10000real,
            )
            &&& at_home(pair.body1, cp.pos_world_on_b) ==> near(
                contact.rel_pos_b,
                taken(point(cp.pos_world_on_b), point(pair.body1.world_trans.translation)),
                1real / 10000real,
            )
            &&& r.0.finite() && sized(point(r.0), 1000real) && r.1.finite() && sized(point(r.1), 1000real) ==> near(
                contact.relative_velocity_before,
                taken(point(r.0), point(r.1)),
                1real / 5000real,
            )
        },
{
    if cp.is_special {
        (Vec3A::zero(), Vec3A::zero())
    } else {
        let rel_pos = pair.rel_pos(cp);
        let (a, b) = (g.bodies[pair.ids.0 as int], g.bodies[pair.ids.1 as int]);
        let moving = (behind(a, &pair.body0), behind(b, &pair.body1));
        let friction_idx = g.frictions.len() as usize;
        let (row, vel_a, vel_b, aimed, drag) = choose|row: Row, vel_a: Vec3A, vel_b: Vec3A, aimed: ManifoldPoint, drag: Row|
            #[trigger] call_ensures(R::contact_row, (rows, (&a, &b), moving, rel_pos, &cp, time_step), row)
                && #[trigger] call_ensures(R::velocity_before, (rows, &a, rel_pos.0), vel_a)
                && #[trigger] call_ensures(R::velocity_before, (rows, &b, rel_pos.1), vel_b)
                && #[trigger] call_ensures(R::with_friction_dir, (rows, &cp, (&a, &b), rel_pos), aimed)
                && #[trigger] call_ensures(R::friction_row, (rows, (&a, &b), moving, rel_pos, &aimed), drag) && out == (Group {
                contacts: g.contacts.push(contact_of(pair, cp, friction_idx, row, vel_a.minus(vel_b))),
                frictions: g.frictions.push(SolverConstraint::bare(pair.ids, friction_idx, drag)),
                ..g
            });
        if at_home(pair.body0, cp.pos_world_on_a) {
            lemma_way(pair.body0, cp.pos_world_on_a);
        }
        if at_home(pair.body1, cp.pos_world_on_b) {
            lemma_way(pair.body1, cp.pos_world_on_b);
        }
        if vel_a.finite() && sized(point(vel_a), 1000real) && vel_b.finite() && sized(point(vel_b), 1000real) {
            lemma_vector_minus(vel_a, point(vel_a), 0real, vel_b, point(vel_b), 0real, 2000real);
        }
        (vel_a, vel_b)
    }
}

/// A place, and that of a body, within an arena.
pub open spec fn at_home(body: RigidBody, at: Vec3A) -> bool {
    &&& at.finite() && sized(point(at), 500real)
    &&& body.world_trans.translation.finite() && sized(point(body.world_trans.translation), 500real)
}

proof fn lemma_way(body: RigidBody, at: Vec3A)
    requires
        at_home(body, at),
    ensures
        near(
            at.minus(body.world_trans.translation),
            taken(point(at), point(body.world_trans.translation)),
            1real / 10000real,
        ),
{
    let c = body.world_trans.translation;
    lemma_vector_minus(at, point(at), 0real, c, point(c), 0real, 1000real);
}

/// A body that takes part gets a solver's body once: taking part again changes nothing. One that can move gets one of its own, which stands
/// for it; all that cannot move share one, which stands for none.
pub proof fn law_bodies_take_part_once(g: Group, rb: RigidBody, made: SolverBody, again: SolverBody)
    requires
        g.bodies.len() < usize::MAX,
        g.fixed matches Some(id) ==> id < g.bodies.len(),
    ensures
        ({
            let (next, body, id) = g.admitted(rb, made);
            let (last, same, second) = next.admitted(body, again);
            &&& last == next && same == body && second == id
            &&& next.contacts == g.contacts && next.frictions == g.frictions && next.special == g.special
            &&& rb.companion_id is None && moves(rb) ==> {
                &&& id == g.bodies.len() && next.bodies.len() == g.bodies.len() + 1
                &&& next.bodies[id as int].original_body == Some(rb.world_array_idx)
                &&& body.companion_id == Some(id)
                &&& next.fixed == g.fixed
            }
            &&& rb.companion_id is None && !moves(rb) ==> {
                &&& next.fixed == Some(id)
                &&& g.fixed is Some ==> next == g
                &&& g.fixed is None ==> next.bodies.len() == g.bodies.len() + 1 && next.bodies[id as int].original_body is None
            }
            &&& rb.companion_id is Some ==> next == g && Some(id) == rb.companion_id
        }),
{
    reveal(Group::admitted);
    broadcast use {lemma_noted, lemma_noted_again};

}

/// The contact of the ball with the world becomes one contact and its friction, which belong to each other, between the ball and everything
/// that does not move. The contact asks for a restitution that is never toward the surface; the friction acts along the way that the ball
/// slides, or square to the surface where it does not. It is told of only where that is asked for.
pub proof fn law_the_ball_gets_one_contact_with_the_world<R: Rows>(
    g: Group,
    rows: &R,
    body: RigidBody,
    made: SolverBody,
    time_step: Single,
    track: bool,
    out: Group,
) -> (r: (Single, Vec3A))
    requires
        g.converts_against(rows, body, made, time_step, track, out),
        g.frictions.len() == g.contacts.len() < usize::MAX,
        g.bodies.len() < usize::MAX,
        g.fixed matches Some(id) ==> id < g.bodies.len(),
        body.companion_id matches Some(id) ==> id < g.bodies.len(),
        body.companion_id is Some,
    ensures
        ({
            let n = g.contacts.len() as int;
            let (contact, friction) = (out.contacts[n], out.frictions[n]);
            let ball = g.bodies[body.companion_id->Some_0 as int];
            let average = g.special.average();
            &&& out.contacts.len() == n + 1 && out.frictions.len() == n + 1
            &&& forall|k: int| 0 <= k < n ==> #[trigger] out.contacts[k] == g.contacts[k]
            &&& forall|k: int| 0 <= k < n ==> #[trigger] out.frictions[k] == g.frictions[k]
            &&& friction.friction_idx == n
            &&& Some(contact.solver_body_id_a) == body.companion_id && Some(contact.solver_body_id_b) == out.fixed
            &&& Some(friction.solver_body_id_a) == body.companion_id && Some(friction.solver_body_id_b) == out.fixed
            &&& contact.special_contact_info is Some == track
            &&& contact.row == special_contact_row(average, g.special.friction, body, ball, time_step, r.0)
            &&& !r.0.is_a_nan() && !r.0.less(Single { bits: 0 })
            &&& friction.row == special_friction_row(average, g.special.friction, body, ball, r.1)
            &&& exists|vel: Vec3A| #[trigger]
                call_ensures(R::velocity_before, (rows, &ball, average.rel_pos), vel) && (lateral(vel, average.normal) is Some
                    ==> r.1 == lateral(vel, average.normal)->Some_0)
            &&& track ==> out.points.len() == g.special.contacts.len() && forall|k: int|
                0 <= k < g.special.contacts.len() ==> {
                    let (said, was) = (#[trigger] out.points[k], g.special.contacts[k]);
                    &&& said.pos_world_on_b == was.pos_world_on_b
                    &&& said.normal_world_on_b == was.normal_world_on_b
                    &&& said.distance == was.distance
                }
            &&& !track ==> out.points == g.points
        }),
{
    let average = g.special.average();
    let (grown, id_b) = g.with_fixed(made);
    let id_a = body.companion_id->Some_0;
    let a = grown.bodies[id_a as int];
    assert(a == g.bodies[id_a as int]);
    let (vel, bounce, vel_before, dir) = choose|vel: Vec3A, bounce: Single, vel_before: Vec3A, dir: Vec3A|
        #[trigger] call_ensures(R::point_velocity, (rows, &body, average.rel_pos), vel) && #[trigger] call_ensures(
            R::restitution,
            (rows, average.normal.dot(vel), g.special.restitution),
            bounce,
        ) && #[trigger] call_ensures(R::velocity_before, (rows, &a, average.rel_pos), vel_before) && #[trigger] heads(
            rows,
            vel_before,
            average.normal,
            dir,
        ) && out.contacts == grown.contacts.push(out.contacts[g.contacts.len() as int]) && out.contacts[g.contacts.len() as int].row
            == special_contact_row(
            average,
            g.special.friction,
            body,
            a,
            time_step,
            bounce.greater_of(Single { bits: 0 }),
        ) && out.frictions[g.contacts.len() as int].row == special_friction_row(average, g.special.friction, body, a, dir);
    (bounce.greater_of(Single { bits: 0 }), dir)
}

/// A new point adds to the sums: one more, its normal to the normals, its way from the centre to the levers and its gap to the gaps. What is
/// said of the whole contact is what the newest point says.
pub proof fn law_a_new_point_adds_up(sums: SpecialSums, obj_idx: usize, cp: ManifoldPoint, rel_pos: Vec3A, threshold: Single)
    requires
        !sums.has(special_contact(obj_idx, cp, rel_pos, threshold)),
        sums.total_normal.finite() && sized(point(sums.total_normal), 1000real),
        cp.normal_world_on_b.finite() && sized(point(cp.normal_world_on_b), 2real),
        sums.total_dist.finite() && 0real <= real_value(sums.total_dist) <= 1000real,
        rel_pos.finite() && sized(point(rel_pos), 100real),
        sums.total_penetration.finite() && -1000real <= real_value(sums.total_penetration) <= 1000real,
        cp.distance_1.finite() && -1000real <= real_value(cp.distance_1) <= 1000real,
        sums.min_penetration.finite(),
    ensures
        ({
            let next = sums.with_point(obj_idx, cp, rel_pos, threshold);
            let way = inner(point(rel_pos), point(rel_pos));
            let grew = real_value(next.total_dist) - real_value(sums.total_dist);
            &&& next.num == sums.num + 1
            &&& next.obj_idx == obj_idx
            &&& near(next.total_normal, added(point(sums.total_normal), point(cp.normal_world_on_b)), 1real / 10000real)
            &&& within(
                next.total_penetration,
                real_value(sums.total_penetration) + real_value(cp.distance_1),
                1real / 5000real,
            )
            &&& next.total_dist.finite()
            &&& -1real <= 10real * (grew * grew - way) <= 1real && grew >= -(1real / 1000real)
            &&& next.restitution == cp.combined_restitution && next.friction == cp.combined_friction
            &&& real_value(next.min_penetration) <= real_value(cp.distance_1)
            &&& real_value(next.min_penetration) <= real_value(sums.min_penetration)
            &&& next.min_penetration == cp.distance_1 || next.min_penetration == sums.min_penetration
            &&& next.contacts.len() == sums.contacts.len() + 1
            &&& next.contacts.drop_last() == sums.contacts
            &&& next.contacts.last().pos_world_on_a == cp.pos_world_on_a && next.contacts.last().pos_world_on_b == cp.pos_world_on_b
            &&& next.contacts.last().normal_world_on_b == cp.normal_world_on_b && next.contacts.last().distance == cp.distance_1
        }),
{
    let next = sums.with_point(obj_idx, cp, rel_pos, threshold);
    lemma_vector_plus(
        sums.total_normal,
        point(sums.total_normal),
        0real,
        cp.normal_world_on_b,
        point(cp.normal_world_on_b),
        0real,
        1002real,
    );
    lemma_plus(
        sums.total_penetration,
        real_value(sums.total_penetration),
        0real,
        cp.distance_1,
        real_value(cp.distance_1),
        0real,
        2000real,
    );
    lemma_any_length(rel_pos);
    let (r, t) = (real_value(rel_pos.length()), real_value(sums.total_dist));
    let (p, x) = (point(rel_pos), inner(point(rel_pos), point(rel_pos)));
    lemma_bounded(p.0, p.0, 100real, 100real);
    lemma_bounded(p.1, p.1, 100real, 100real);
    lemma_bounded(p.2, p.2, 100real, 100real);
    assert(100real * 100real == 10000real) by (nonlinear_arith);
    if r > 200real {
        lemma_scaled(r, 200real, r);
        lemma_swap(r, 200real);
    }
    lemma_plus(sums.total_dist, t, 0real, rel_pos.length(), r, 0real, 1200real);
    let e = real_value(next.total_dist) - t - r;
    lemma_square_of_sum(r, e);
    lemma_bounded(r, e, 200real, 1real / 10000real);
    lemma_bounded(e, e, 1real / 10000real, 1real / 10000real);
    assert(200real * (1real / 10000real) == 1real / 50real && (1real / 10000real) * (1real / 10000real) == 1real / 100000000real)
        by (nonlinear_arith);
    lemma_order(cp.distance_1, sums.min_penetration);
    assert(next.contacts.drop_last() =~= sums.contacts);
}

/// A point between two bodies belongs to the first one that can move.
pub proof fn law_points_belong_to_the_body_that_moves(
    sums: SpecialSums,
    body0: RigidBody,
    body1: RigidBody,
    cp: ManifoldPoint,
    rel_pos1: Vec3A,
    rel_pos2: Vec3A,
    threshold: Single,
)
    ensures
        ({
            let next = sums.with_collision(body0, body1, cp, rel_pos1, rel_pos2, threshold);
            &&& next.num == sums.num || next.num == sums.num + 1
            &&& next.num == sums.num + 1 && !body0.is_static ==> next.obj_idx == body0.world_array_idx
            &&& next.num == sums.num + 1 && body0.is_static ==> next.obj_idx == body1.world_array_idx && !body1.is_static
            &&& next.num == sums.num ==> next == sums
            &&& body0.is_static && body1.is_static ==> next == sums
        }),
{
}

} // verus!
