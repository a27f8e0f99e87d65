//! What holds of the parts of a step, one by one.
use crate::bounds::{added, inner, lemma_plus, lemma_minus, lemma_unit, lemma_vector_scale, near, point, sized, slack, stretched, taken, within};
use crate::bullet::body::{CollisionShapes, RigidBody};
use crate::bullet::box_contact_laws::{plain, seen};
use crate::bullet::broadphase::Narrowphase;
use crate::bullet::collision_world::{car_and_ball, grown, is_apart, ordered, rays_in, surrounds, CollisionWorld};
use crate::bullet::discrete_dynamics_step::{or_earlier, overlaps, time_left, unmet, without_pair};
use crate::bullet::discrete_dynamics_world::{foreseen, gone, nodded, pulled, spent, DiscreteDynamicsWorld};
use crate::bullet::geometry::{Aabb, Geometry};
use crate::bullet::manifold::{PersistentManifold, CONTACT_BREAKING_THRESHOLD};
use crate::bullet::mesh_contact_laws::lemma_seen;
use crate::bullet::motion::Motion;
use crate::bullet::raycaster::{landed, ClosestQuadRays, ClosestRays, VehicleRaycaster, VehicleRaycasterResult};
use crate::math::Vec3A;
use crate::reals::lemma_bounded;
use crate::single::Single;
use crate::single_errors::{lemma_constant, lemma_order, real_value};
use crate::single_laws::lemma_value;
use vstd::arithmetic::power2::lemma2_to64;
use vstd::prelude::*;

verus! {

/// The ball and a car are told apart by what they stand for, whichever comes first; they count only with a sphere for the ball and a
/// box for the car.
pub proof fn law_a_pair_is_a_ball_and_a_car(a: RigidBody, b: RigidBody)
    ensures
        car_and_ball(a, b) == car_and_ball(b, a),
        car_and_ball(a, b) is Some ==> {
            let p = car_and_ball(a, b)->Some_0;
            &&& p.sphere == a && p.obb == b || p.sphere == b && p.obb == a
            &&& p.sphere.user_idx is Ball && p.obb.user_idx is Car
            &&& p.sphere.collision_shape == CollisionShapes::Sphere(p.sphere_shape)
            &&& p.obb.collision_shape == CollisionShapes::Compound(p.obb_shape)
        },
        a.user_idx is Ball && b.user_idx is Car && a.collision_shape is Sphere && b.collision_shape is Compound ==> car_and_ball(
            a,
            b,
        ) is Some,
{
}

/// Bodies that both sleep do not touch, nor does one that does not respond to contacts; for others their filters decide.
pub proof fn law_sleeping_bodies_do_not_touch<T, N: Narrowphase<T>>(
    world: CollisionWorld,
    narrowphase: &N,
    a: int,
    b: int,
    r: bool,
)
    requires
        world.collidable::<T, N>(narrowphase, a, b, r),
    ensures
        ({
            let (x, y) = (world.collision_objs@[a], world.collision_objs@[b]);
            &&& !x.active && !y.active ==> !r
            &&& !x.contact_response || !y.contact_response ==> !r
            &&& (x.active || y.active) && x.contact_response && y.contact_response ==> call_ensures(
                N::needs_collision,
                (
                    narrowphase,
                    &world.broadphase_pair_cache.proxies@[x.broadphase_handle as int],
                    &world.broadphase_pair_cache.proxies@[y.broadphase_handle as int],
                ),
                r,
            )
        }),
{
}

/// A box grows by the threshold of a contact, 0.02, on every side.
pub proof fn law_boxes_grow_on_every_side(aabb: Aabb)
    requires
        aabb.min.finite() && sized(point(aabb.min), 1000real),
        aabb.max.finite() && sized(point(aabb.max), 1000real),
    ensures
        ({
            let by = (1real / 50real, 1real / 50real, 1real / 50real);
            &&& near(grown(aabb).min, taken(point(aabb.min), by), 1real / 10000real)
            &&& near(grown(aabb).max, added(point(aabb.max), by), 1real / 10000real)
        }),
{
    lemma2_to64();
    let margin = Single { bits: CONTACT_BREAKING_THRESHOLD };
    lemma_constant(CONTACT_BREAKING_THRESHOLD, 0xa3_d70a, 29, 0x2000_0000);
    let (g, e) = (1real / 50real, 1real / 1000000real);
    assert(within(margin, g, e));
    let (p, q) = (point(aabb.min), point(aabb.max));
    lemma_minus(aabb.min.x, p.0, 0real, margin, g, e, 1001real);
    lemma_minus(aabb.min.y, p.1, 0real, margin, g, e, 1001real);
    lemma_minus(aabb.min.z, p.2, 0real, margin, g, e, 1001real);
    lemma_plus(aabb.max.x, q.0, 0real, margin, g, e, 1001real);
    lemma_plus(aabb.max.y, q.1, 0real, margin, g, e, 1001real);
    lemma_plus(aabb.max.z, q.2, 0real, margin, g, e, 1001real);
}

/// The box around a body that does not move is that around its place; that around one that moves is around its place and where it is
/// predicted to be.
pub proof fn law_boxes_look_ahead<G: Geometry>(geometry: &G, obj: RigidBody, aabb: Aabb)
    requires
        surrounds(geometry, obj, aabb),
    ensures
        exists|now: Aabb| #[trigger]
            call_ensures(G::aabb, (geometry, &obj.collision_shape, &obj.world_trans), now) && (obj.is_static ==> aabb
                == grown(now)),
        !obj.is_static ==> exists|now: Aabb, ahead: Aabb|
            #[trigger] call_ensures(G::aabb, (geometry, &obj.collision_shape, &obj.world_trans), now)
                && #[trigger] call_ensures(G::aabb, (geometry, &obj.collision_shape, &obj.interp_world_trans), ahead)
                && call_ensures(G::joined, (geometry, &grown(now), &grown(ahead)), aabb),
{
}

/// Gravity adds to what forces do to a body that is awake and can move, by as much as it pulls in a step, and changes nothing else; a
/// body that sleeps or cannot move stays as it is.
pub proof fn law_gravity_pulls_what_is_awake<M: Motion>(
    motion: &M,
    gravity: Vec3A,
    time_step: Single,
    a: RigidBody,
    b: RigidBody,
) -> (impulse: Vec3A)
    requires
        pulled(motion, gravity, time_step, a, b),
        gravity.finite() && sized(point(gravity), 1000real),
        time_step.finite() && 0real <= real_value(time_step) <= 1real,
    ensures
        near(impulse, stretched(point(gravity), real_value(time_step)), 1real / 10000real),
        a.is_static || !a.active ==> b == a,
        !a.is_static && a.active ==> call_ensures(M::with_impulse, (motion, &a, impulse), b.accum_lin_vel),
        b == (RigidBody { accum_lin_vel: b.accum_lin_vel, ..a }),
{
    let (g, t) = (point(gravity), real_value(time_step));
    assert(slack(1000real, 0real, 1real, 0real) <= 1real / 10000real && (1000real + 0real) * (1real + 0real) == 1000real)
        by (nonlinear_arith);
    lemma_vector_scale(gravity, g, 0real, time_step, t, 0real, 1000real, 1real, 1real / 10000real);
    gravity.scale(time_step)
}

/// What a step does to a body, part by part: damping changes its velocities and where it is predicted to be, and the prediction is made
/// with the damped velocities; going changes where it is, if it is awake; clearing takes away what forces add; and falling asleep changes
/// nothing but that. A body that cannot move stays as it is throughout.
pub proof fn law_every_part_of_a_step_keeps_the_rest<M: Motion>(motion: &M, time_step: Single, a: RigidBody, b: RigidBody)
    ensures
        foreseen(motion, time_step, a, b) ==> {
            &&& b == (RigidBody {
                lin_vel: b.lin_vel,
                ang_vel: b.ang_vel,
                interp_world_trans: b.interp_world_trans,
                ..a
            })
            &&& a.is_static ==> b == a
            &&& !a.is_static ==> call_ensures(M::damped, (motion, &a, time_step), (b.lin_vel, b.ang_vel))
            &&& !a.is_static ==> call_ensures(
                M::predicted,
                (motion, &RigidBody { interp_world_trans: a.interp_world_trans, ..b }, time_step),
                b.interp_world_trans,
            )
        },
        gone(motion, time_step, a, b) ==> {
            &&& b == (RigidBody {
                world_trans: b.world_trans,
                world_rot: b.world_rot,
                interp_world_trans: b.interp_world_trans,
                inv_inertia_tensor_world: b.inv_inertia_tensor_world,
                ..a
            })
            &&& a.is_static || !a.active ==> b == a
        },
        spent(a, b) ==> {
            &&& b == (RigidBody { accum_lin_vel: b.accum_lin_vel, accum_ang_vel: b.accum_ang_vel, ..a })
            &&& a.is_static ==> b == a
            &&& !a.is_static ==> point(b.accum_lin_vel) == (0real, 0real, 0real) && point(b.accum_ang_vel) == (
                0real,
                0real,
                0real,
            )
        },
        nodded(motion, time_step, a, b) ==> {
            &&& b == (RigidBody { active: b.active, ..a })
            &&& a.is_static ==> b == a
            &&& !a.is_static ==> call_ensures(M::stays_active, (motion, &a, time_step), b.active)
        },
{
    lemma_value(Single { bits: 0 });
    if foreseen(motion, time_step, a, b) && !a.is_static {
        assert(RigidBody { interp_world_trans: a.interp_world_trans, ..b } == RigidBody {
            lin_vel: b.lin_vel,
            ang_vel: b.ang_vel,
            ..a
        });
    }
}

/// Rays at a body are cast as the body sees them; those at a mesh as they are in the world.
pub proof fn law_rays_are_as_the_body_sees_them(co: RigidBody, rays: [Vec3A; 4], i: int)
    requires
        0 <= i < 4,
        plain(co.world_trans.matrix3),
        co.world_trans.translation.finite() && sized(point(co.world_trans.translation), 256real),
        rays[i].finite() && sized(point(rays[i]), 256real),
    ensures
        co.collision_shape is TriangleMesh ==> rays_in(co, rays)[i] == rays[i],
        !(co.collision_shape is TriangleMesh) ==> near(
            rays_in(co, rays)[i],
            seen(co.world_trans.matrix3, taken(point(rays[i]), point(co.world_trans.translation))),
            1real / 1000real,
        ),
{
    lemma_seen(co.world_trans, rays[i]);
    let local = rays_in(co, rays);
    if !(co.collision_shape is TriangleMesh) {
        let to_body = co.world_trans.transpose();
        assert(local[0] == to_body.transform_point3a(rays[0]));
        assert(local[1] == to_body.transform_point3a(rays[1]));
        assert(local[2] == to_body.transform_point3a(rays[2]));
        assert(local[3] == to_body.transform_point3a(rays[3]));
    }
}

/// The rays of a vehicle belong to their own groups and to those that the raycaster adds, and to no others; they are cast through the bodies of
/// the world, and each result is what its own ray hits.
pub proof fn law_rays_belong_to_the_added_groups<C: ClosestRays>(
    caster: VehicleRaycaster,
    raycast: &C,
    world: DiscreteDynamicsWorld,
    from: [Vec3A; 4],
    to: [Vec3A; 4],
    ignore_obj: &RigidBody,
    results: [Option<VehicleRaycasterResult>; 4],
    bit: u8,
) -> (cast: (ClosestQuadRays, ClosestQuadRays, ClosestQuadRays))
    requires
        caster.casts(raycast, world, from, to, ignore_obj, results),
        bit < 8,
    ensures
        ({
            let (blank, start, hits) = cast;
            let mask = 1u8 << bit;
            &&& call_ensures(C::closest, (raycast, &from, &to, ignore_obj), blank)
            &&& start.collision_filter_group & mask != 0 <==> blank.collision_filter_group & mask != 0 || caster.added_filter_mask & mask != 0
            &&& start.has_hit == blank.has_hit && start.collision_obj_idx == blank.collision_obj_idx
            &&& start.hit_point_world == blank.hit_point_world && start.hit_normal_world == blank.hit_normal_world
            &&& call_ensures(
                C::ray_test,
                (
                    raycast,
                    &world.collision_world.broadphase_pair_cache,
                    &world.collision_world.collision_objs,
                    &from,
                    &to,
                    start,
                ),
                hits,
            )
            &&& forall|i: int| 0 <= i < 4 && !hits.has_hit[i] ==> #[trigger] results[i] is None
            &&& forall|i: int|
                0 <= i < 4 && hits.has_hit[i] && hits.collision_obj_idx[i] is Some
                    && world.objs()[hits.collision_obj_idx[i]->Some_0 as int].contact_response ==> (#[trigger] results[i] matches Some(hit)
                    && hit.hit_point_in_world == hits.hit_point_world[i] && hit.ground_body_idx == hits.collision_obj_idx[i]->Some_0)
        }),
{
    let (blank, hits) = choose|blank: ClosestQuadRays, hits: ClosestQuadRays| #[trigger]
        call_ensures(C::closest, (raycast, &from, &to, ignore_obj), blank) && #[trigger] call_ensures(
            C::ray_test,
            (
                raycast,
                &world.collision_world.broadphase_pair_cache,
                &world.collision_world.collision_objs,
                &from,
                &to,
                ClosestQuadRays { collision_filter_group: blank.collision_filter_group | caster.added_filter_mask, ..blank },
            ),
            hits,
        ) && forall|i: int| 0 <= i < 4 ==> #[trigger] results[i] == landed(world.objs(), hits, i);
    let (a, b) = (blank.collision_filter_group, caster.added_filter_mask);
    assert((a | b) & (1u8 << bit) != 0 <==> a & (1u8 << bit) != 0 || b & (1u8 << bit) != 0) by (bit_vector)
        requires
            bit < 8,
    ;
    (blank, ClosestQuadRays { collision_filter_group: a | b, ..blank }, hits)
}

/// A ray of a wheel ends where it hits a body that responds to contacts: at the point of the hit, with its normal at unit length. A ray that
/// hits nothing, or a body that does not respond, has no end.
pub proof fn law_rays_end_at_bodies_that_respond(objs: Seq<RigidBody>, hits: ClosestQuadRays, i: int) -> (c: real)
    requires
        0 <= i < 4,
    ensures
        landed(objs, hits, i) is Some <==> hits.has_hit[i] && hits.collision_obj_idx[i] is Some && objs[hits.collision_obj_idx[i]->Some_0 as int].contact_response,
        landed(objs, hits, i) matches Some(end) ==> {
            &&& hits.collision_obj_idx[i] == Some(end.ground_body_idx)
            &&& end.rigid_body == objs[end.ground_body_idx as int]
            &&& end.hit_point_in_world == hits.hit_point_world[i]
            &&& {
                let n = hits.hit_normal_world[i];
                n.finite() && sized(point(n), 1000real) && 1real <= 100real * inner(point(n), point(n)) ==> {
                    &&& 0real < c
                    &&& near(end.hit_normal_in_world, stretched(point(n), c), 1real / 1000000real)
                    &&& -2real <= 1000000real * (inner(stretched(point(n), c), stretched(point(n), c)) - 1real) <= 2real
                }
            }
        },
{
    let n = hits.hit_normal_world[i];
    let p = point(n);
    if n.finite() && sized(p, 1000real) && 1real <= 100real * inner(p, p) {
        let l = 1real / 10real;
        lemma_bounded(p.0, p.0, 1000real, 1000real);
        lemma_bounded(p.1, p.1, 1000real, 1000real);
        lemma_bounded(p.2, p.2, 1000real, 1000real);
        assert(1000real * 1000real == 1000000real && l * l == 1real / 100real && 0real * l == 0real) by (nonlinear_arith)
            requires
                l == 1real / 10real,
        ;
        lemma_unit(n, p, 0real, l)
    } else {
        1real
    }
}

/// A pair with a gap that is a number is either apart or meets.
pub proof fn law_pairs_are_apart_or_meet(gap: Single)
    requires
        !gap.is_a_nan(),
    ensures
        is_apart(Some(gap)) <==> !overlaps(Some(gap)),
        !is_apart(None) && !overlaps(None),
{
}

/// Of two times the earlier one is kept, with the pair that it belongs to, and of two equal times the first; no time changes nothing.
pub proof fn law_the_earlier_time_is_kept(best: Option<(usize, Single)>, k: usize, toi: Option<Single>)
    requires
        best is Some ==> !best->Some_0.1.is_a_nan(),
        toi is Some ==> !toi->Some_0.is_a_nan(),
    ensures
        toi is None ==> or_earlier(best, k, toi) == best,
        best is None && toi is Some ==> or_earlier(best, k, toi) == Some((k, toi->Some_0)),
        best is Some && toi is Some ==> {
            let kept = or_earlier(best, k, toi);
            &&& kept == best || kept == Some((k, toi->Some_0))
            &&& kept->Some_0.1.at_most(best->Some_0.1) && kept->Some_0.1.at_most(toi->Some_0)
            &&& best->Some_0.1.at_most(toi->Some_0) ==> kept == best
        },
{
}

/// What is left of a time after a part of it, and that part, make up the time.
pub proof fn law_time_is_used_up(remaining: Single, toi: Single)
    requires
        remaining.finite() && 0real <= real_value(remaining) <= 1real,
        toi.finite() && 0real <= real_value(toi) <= real_value(remaining),
    ensures
        within(time_left(remaining, toi), real_value(remaining) - real_value(toi), 1real / 10000000real),
{
    lemma_minus(remaining, real_value(remaining), 0real, toi, real_value(toi), 0real, 1real);
    lemma_value(Single { bits: 0 });
    lemma_order(Single { bits: 0 }, toi);
}

/// Taking out a pair leaves all others, and no longer that one.
pub proof fn law_only_the_pair_is_taken_out(pairs: Seq<(usize, usize)>, pair: (usize, usize), n: int)
    requires
        0 <= n <= pairs.len(),
    ensures
        !without_pair(pairs, pair, n).contains(pair),
        forall|k: int| 0 <= k < n && pairs[k] != pair ==> without_pair(pairs, pair, n).contains(#[trigger] pairs[k]),
        forall|k: int|
            0 <= k < without_pair(pairs, pair, n).len() ==> pairs.contains(#[trigger] without_pair(pairs, pair, n)[k]),
        without_pair(pairs, pair, n).len() <= n,
    decreases n,
{
    if n > 0 {
        law_only_the_pair_is_taken_out(pairs, pair, n - 1);
        let (less, all) = (without_pair(pairs, pair, n - 1), without_pair(pairs, pair, n));
        if pairs[n - 1] != pair {
            assert(all == less.push(pairs[n - 1]));
            assert(all[less.len() as int] == pairs[n - 1]);
            assert forall|k: int| 0 <= k < n && pairs[k] != pair implies all.contains(#[trigger] pairs[k]) by {
                if k < n - 1 {
                    let j = choose|j: int| 0 <= j < less.len() && less[j] == pairs[k];
                    assert(all[j] == pairs[k]);
                }
            }
            assert forall|k: int| 0 <= k < all.len() implies pairs.contains(#[trigger] all[k]) by {
                if k < less.len() {
                    assert(pairs.contains(less[k]));
                }
            }
            assert(!all.contains(pair)) by {
                if all.contains(pair) {
                    let j = choose|j: int| 0 <= j < all.len() && all[j] == pair;
                    assert(j < less.len() ==> less[j] == pair);
                    assert(false);
                }
            }
        }
    }
}

/// A pair of a car and the ball that has a manifold is no longer among those that wait, and one that has none still is.
pub proof fn law_pairs_that_met_no_longer_wait(
    objs: Seq<RigidBody>,
    pairs: Seq<(usize, usize)>,
    manifolds: Seq<PersistentManifold>,
    n: int,
    k: int,
)
    requires
        0 <= n <= manifolds.len(),
    ensures
        0 <= k < n ==> {
            let pair = ordered(manifolds[k].body0_idx, manifolds[k].body1_idx);
            car_and_ball(objs[pair.0 as int], objs[pair.1 as int]) is Some ==> !unmet(objs, pairs, manifolds, n).contains(pair)
        },
        0 <= k < pairs.len() && (forall|j: int|
            #![trigger manifolds[j]]
            0 <= j < n ==> ordered(manifolds[j].body0_idx, manifolds[j].body1_idx) != pairs[k]) ==> unmet(
            objs,
            pairs,
            manifolds,
            n,
        ).contains(pairs[k]),
        forall|j: int|
            0 <= j < unmet(objs, pairs, manifolds, n).len() ==> pairs.contains(#[trigger] unmet(objs, pairs, manifolds, n)[j]),
    decreases n,
{
    if n > 0 {
        law_pairs_that_met_no_longer_wait(objs, pairs, manifolds, n - 1, k);
        let before = unmet(objs, pairs, manifolds, n - 1);
        let after = unmet(objs, pairs, manifolds, n);
        let pair = ordered(manifolds[n - 1].body0_idx, manifolds[n - 1].body1_idx);
        if car_and_ball(objs[pair.0 as int], objs[pair.1 as int]) is Some {
            law_only_the_pair_is_taken_out(before, pair, before.len() as int);
            assert forall|j: int| 0 <= j < after.len() implies pairs.contains(#[trigger] after[j]) by {
                assert(before.contains(after[j]));
                let i = choose|i: int| 0 <= i < before.len() && before[i] == after[j];
                assert(pairs.contains(before[i]));
            }
            if 0 <= k < n - 1 {
                let other = ordered(manifolds[k].body0_idx, manifolds[k].body1_idx);
                if after.contains(other) {
                    let j = choose|j: int| 0 <= j < after.len() && after[j] == other;
                    assert(before.contains(after[j]));
                }
            }
            if 0 <= k < pairs.len() && (forall|j: int|
                #![trigger manifolds[j]]
                0 <= j < n ==> ordered(manifolds[j].body0_idx, manifolds[j].body1_idx) != pairs[k]) {
                assert(before.contains(pairs[k]));
                let i = choose|i: int| 0 <= i < before.len() && before[i] == pairs[k];
                assert(manifolds[n - 1] == manifolds[n - 1]);
                assert(after.contains(before[i]));
            }
        }
    } else if 0 <= k < pairs.len() {
        assert(pairs.contains(pairs[k]));
    }
}

} // verus!
