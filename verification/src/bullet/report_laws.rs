//! What a listener hears of the contacts after they were solved.
use crate::bounds::{lemma_vector_minus, near, point, sized, taken};
use crate::bullet::body::RigidBody;
use crate::bullet::solver_constraint::{ContactAddedCallback, ContactSolveInfo, Rows, SpecialContactSolveInfo, SpecialContactSolvePoint};
use crate::bullet::seq_impulse_constraint_solver::Group;
use crate::math::Vec3A;
use vstd::prelude::*;

verus! {

/// A listener hears of a contact that stands for a point: of the point, of the impulses that were applied in the end, and of how the
/// first body moves there relative to the second, before and after.
pub proof fn law_a_contact_is_told_with_its_impulses<R: Rows, T: ContactAddedCallback>(
    g: Group,
    rows: &R,
    objs: Seq<RigidBody>,
    i: int,
    listener: T,
    told: T,
) -> (heard: (ContactSolveInfo, Vec3A, Vec3A))
    requires
        g.reports(rows, objs, i, listener, told),
        g.contacts[i].special_contact_info is None,
    ensures
        g.contacts[i].manifold_point is None ==> told == listener,
        g.contacts[i].manifold_point matches Some(at) ==> {
            let (info, vel_a, vel_b) = heard;
            let c = g.contacts[i];
            &&& info.manifold_point == at
            &&& info.normal_impulse == c.row.applied_impulse
            &&& info.push_impulse == c.row.applied_push_impulse
            &&& info.relative_velocity_before == c.relative_velocity_before
            &&& call_ensures(R::velocity_after, (rows, &g.bodies[c.solver_body_id_a as int], c.rel_pos_a), vel_a)
            &&& call_ensures(R::velocity_after, (rows, &g.bodies[c.solver_body_id_b as int], c.rel_pos_b), vel_b)
            &&& vel_a.finite() && vel_b.finite() && sized(point(vel_a), 1000real) && sized(point(vel_b), 1000real) ==> near(
                info.relative_velocity_after,
                taken(point(vel_a), point(vel_b)),
                1real / 1000real,
            )
            &&& call_ensures(
                T::contact_solved,
                (listener, info, &objs[c.body_idx_a as int], &objs[c.body_idx_b as int]),
                told,
            )
        },
{
    let c = g.contacts[i];
    let (a, b) = (g.bodies[c.solver_body_id_a as int], g.bodies[c.solver_body_id_b as int]);
    match c.manifold_point {
        None => arbitrary(),
        Some(manifold_point) => {
            let (vel_a, vel_b) = choose|vel_a: Vec3A, vel_b: Vec3A| #[trigger]
                call_ensures(R::velocity_after, (rows, &a, c.rel_pos_a), vel_a) && #[trigger] call_ensures(
                    R::velocity_after,
                    (rows, &b, c.rel_pos_b),
                    vel_b,
                ) && call_ensures(
                    T::contact_solved,
                    (
                        listener,
                        ContactSolveInfo {
                            manifold_point,
                            normal_impulse: c.row.applied_impulse,
                            push_impulse: c.row.applied_push_impulse,
                            relative_velocity_before: c.relative_velocity_before,
                            relative_velocity_after: vel_a.minus(vel_b),
                        },
                        &objs[c.body_idx_a as int],
                        &objs[c.body_idx_b as int],
                    ),
                    told,
                );
            if vel_a.finite() && vel_b.finite() && sized(point(vel_a), 1000real) && sized(point(vel_b), 1000real) {
                lemma_vector_minus(vel_a, point(vel_a), 0real, vel_b, point(vel_b), 0real, 2000real);
            }
            (
                ContactSolveInfo {
                    manifold_point,
                    normal_impulse: c.row.applied_impulse,
                    push_impulse: c.row.applied_push_impulse,
                    relative_velocity_before: c.relative_velocity_before,
                    relative_velocity_after: vel_a.minus(vel_b),
                },
                vel_a,
                vel_b,
            )
        },
    }
}

/// A listener that asked for it hears of the ball's contact with the world: of all its points, of the impulses that were applied in the end and
/// of how the ball moves there after, with what was known of the contact before.
pub proof fn law_the_contact_of_the_ball_is_told_with_its_impulses<R: Rows, T: ContactAddedCallback>(
    g: Group,
    rows: &R,
    objs: Seq<RigidBody>,
    i: int,
    listener: T,
    told: T,
) -> (heard: (SpecialContactSolveInfo, Vec<SpecialContactSolvePoint>))
    requires
        g.reports(rows, objs, i, listener, told),
        g.contacts[i].special_contact_info is Some,
    ensures
        ({
            let (info, points) = heard;
            let c = g.contacts[i];
            let known = c.special_contact_info->Some_0;
            &&& points@ == g.points
            &&& info.normal_impulse == c.row.applied_impulse
            &&& info.push_impulse == c.row.applied_push_impulse
            &&& info.effective_normal == known.effective_normal
            &&& info.mean_penetration == known.mean_penetration
            &&& info.restitution_velocity == known.restitution_velocity
            &&& info.relative_velocity_before == known.relative_velocity_before
            &&& call_ensures(
                R::velocity_after,
                (rows, &g.bodies[c.solver_body_id_a as int], c.rel_pos_a),
                info.relative_velocity_after,
            )
            &&& call_ensures(T::special_contact_solved, (listener, info, &points, &objs[c.body_idx_a as int]), told)
        }),
{
    let c = g.contacts[i];
    let info = c.special_contact_info->Some_0;
    let a = g.bodies[c.solver_body_id_a as int];
    let (vel, points) = choose|vel: Vec3A, points: Vec<SpecialContactSolvePoint>|
        points@ == g.points && #[trigger] call_ensures(R::velocity_after, (rows, &a, c.rel_pos_a), vel) && #[trigger] call_ensures(
            T::special_contact_solved,
            (
                listener,
                SpecialContactSolveInfo {
                    normal_impulse: c.row.applied_impulse,
                    push_impulse: c.row.applied_push_impulse,
                    relative_velocity_after: vel,
                    ..info
                },
                &points,
                &objs[c.body_idx_a as int],
            ),
            told,
        );
    (
        SpecialContactSolveInfo {
            normal_impulse: c.row.applied_impulse,
            push_impulse: c.row.applied_push_impulse,
            relative_velocity_after: vel,
            ..info
        },
        points,
    )
}

/// Every contact is told once, in turn.
pub proof fn law_every_contact_is_told_once<R: Rows, T: ContactAddedCallback>(
    g: Group,
    rows: &R,
    objs: Seq<RigidBody>,
    i: nat,
    listener: T,
    told: T,
) -> (way: Seq<T>)
    requires
        g.reports_all(rows, objs, i, listener, told),
        i <= g.contacts.len(),
    ensures
        way.len() == g.contacts.len() - i + 1,
        way[0] == listener && way.last() == told,
        forall|k: int| 0 <= k < g.contacts.len() - i ==> g.reports(rows, objs, i + k, #[trigger] way[k], way[k + 1]),
    decreases g.contacts.len() - i,
{
    if i >= g.contacts.len() {
        seq![listener]
    } else {
        let next = choose|next: T| #[trigger]
            g.reports(rows, objs, i as int, listener, next) && g.reports_all(rows, objs, i + 1, next, told);
        let rest = law_every_contact_is_told_once(g, rows, objs, i + 1, next, told);
        let way = seq![listener] + rest;
        assert forall|k: int| 0 <= k < g.contacts.len() - i implies g.reports(rows, objs, i + k, #[trigger] way[k], way[k + 1]) by {
            if k > 0 {
                assert(way[k] == rest[k - 1] && way[k + 1] == rest[k]);
                assert(g.reports(rows, objs, i + 1 + (k - 1), rest[k - 1], rest[k]));
            }
        }
        assert(way.last() == rest.last());
        way
    }
}

} // verus!
