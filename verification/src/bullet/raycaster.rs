//! The rays of a vehicle's wheels.
use crate::bullet::body::RigidBody;
use crate::bullet::collision_world::Raycast;
use crate::bullet::discrete_dynamics_world::DiscreteDynamicsWorld;
use crate::math::Vec3A;
use vstd::prelude::*;

verus! {

/// What four rays hit first.
#[derive(Clone, Copy, Debug)]
pub struct ClosestQuadRays {
    /// The groups that the rays belong to.
    pub collision_filter_group: u8,
    pub has_hit: [bool; 4],
    pub collision_obj_idx: [Option<usize>; 4],
    pub hit_point_world: [Vec3A; 4],
    pub hit_normal_world: [Vec3A; 4],
}

/// Casts rays that keep their first hit.
///
/// The method promises nothing. A caller that needs to know where the rays end says so in its
/// contract, as [`rays_sound`] does.
pub trait ClosestRays: Raycast<ClosestQuadRays> {
    /// Rays that have hit nothing, and pass through a body.
    fn closest(&self, from: &[Vec3A; 4], to: &[Vec3A; 4], ignore_obj: &RigidBody) -> ClosestQuadRays;
}

/// Where the ray of a wheel hits a body.
#[derive(Clone, Copy, Debug)]
pub struct VehicleRaycasterResult {
    pub hit_point_in_world: Vec3A,
    pub hit_normal_in_world: Vec3A,
    pub rigid_body: RigidBody,
    /// The number of the body that was hit.
    pub ground_body_idx: usize,
}

#[derive(Clone, Copy, Debug)]
pub struct VehicleRaycaster {
    /// Groups that the rays belong to besides their own.
    pub added_filter_mask: u8,
}

/// What a ray hits, if that responds to contacts.
pub open spec fn landed(objs: Seq<RigidBody>, hits: ClosestQuadRays, i: int) -> Option<VehicleRaycasterResult> {
    match hits.collision_obj_idx[i] {
        Some(co_idx) if hits.has_hit[i] && objs[co_idx as int].contact_response => Some(
            VehicleRaycasterResult {
                rigid_body: objs[co_idx as int],
                ground_body_idx: co_idx,
                hit_point_in_world: hits.hit_point_world[i],
                hit_normal_in_world: hits.hit_normal_world[i].normalize_or_zero(),
            },
        ),
        _ => None,
    }
}

/// Rays that start as [`ClosestRays::closest`] gives them, with a group more, hit only bodies that are
/// there. Of a ray that misses nothing is asked.
pub open spec fn rays_sound<C: ClosestRays>(
    raycast: &C,
    world: DiscreteDynamicsWorld,
    added_filter_mask: u8,
    from: [Vec3A; 4],
    to: [Vec3A; 4],
    ignore_obj: &RigidBody,
) -> bool {
    forall|blank: ClosestQuadRays, hits: ClosestQuadRays, i: int|
        #![trigger call_ensures(C::closest, (raycast, &from, &to, ignore_obj), blank), hits.collision_obj_idx[i]]
        call_ensures(C::closest, (raycast, &from, &to, ignore_obj), blank) && call_ensures(
            C::ray_test,
            (
                raycast,
                &world.collision_world.broadphase_pair_cache,
                &world.collision_world.collision_objs,
                &from,
                &to,
                ClosestQuadRays {
                    collision_filter_group: blank.collision_filter_group | added_filter_mask,
                    ..blank
                },
            ),
            hits,
        ) && 0 <= i < 4 && hits.has_hit[i] && hits.collision_obj_idx[i] is Some
            ==> hits.collision_obj_idx[i]->Some_0 < world.objs().len()
}

impl VehicleRaycaster {
    pub fn new(added_filter_mask: u8) -> (r: VehicleRaycaster)
        ensures
            r.added_filter_mask == added_filter_mask,
    {
        VehicleRaycaster { added_filter_mask }
    }

    /// Four rays may lead to these results.
    pub open spec fn casts<C: ClosestRays>(
        self,
        raycast: &C,
        world: DiscreteDynamicsWorld,
        from: [Vec3A; 4],
        to: [Vec3A; 4],
        ignore_obj: &RigidBody,
        results: [Option<VehicleRaycasterResult>; 4],
    ) -> bool {
        exists|blank: ClosestQuadRays, hits: ClosestQuadRays| #[trigger]
            call_ensures(C::closest, (raycast, &from, &to, ignore_obj), blank) && #[trigger] call_ensures(
                C::ray_test,
                (
                    raycast,
                    &world.collision_world.broadphase_pair_cache,
                    &world.collision_world.collision_objs,
                    &from,
                    &to,
                    ClosestQuadRays {
                        collision_filter_group: blank.collision_filter_group | self.added_filter_mask,
                        ..blank
                    },
                ),
                hits,
            ) && forall|i: int| 0 <= i < 4 ==> #[trigger] results[i] == landed(world.objs(), hits, i)
    }

    /// Casts four rays, which pass through a body.
    pub fn cast_rays<C: ClosestRays>(
        &self,
        raycast: &C,
        collision_world: &DiscreteDynamicsWorld,
        from: &[Vec3A; 4],
        to: &[Vec3A; 4],
        ignore_obj: &RigidBody,
    ) -> (r: [Option<VehicleRaycasterResult>; 4])
        requires
            rays_sound(raycast, *collision_world, self.added_filter_mask, *from, *to, ignore_obj),
        ensures
            self.casts(raycast, *collision_world, *from, *to, ignore_obj, r),
            forall|i: int|
                0 <= i < 4 ==> (#[trigger] r[i] matches Some(hit) ==> hit.ground_body_idx < collision_world.objs().len()
                    && hit.rigid_body == collision_world.objs()[hit.ground_body_idx as int]
                    && hit.rigid_body.contact_response),
    {
        let blank = raycast.closest(from, to, ignore_obj);
        let ray_callback = ClosestQuadRays {
            collision_filter_group: blank.collision_filter_group | self.added_filter_mask,
            ..blank
        };
        let hits = collision_world.ray_test(raycast, from, to, ray_callback);
        proof {
            assert(call_ensures(
                C::ray_test,
                (
                    raycast,
                    &collision_world.collision_world.broadphase_pair_cache,
                    &collision_world.collision_world.collision_objs,
                    from,
                    to,
                    ray_callback,
                ),
                hits,
            ));
        }
        [
            land(collision_world, &hits, 0),
            land(collision_world, &hits, 1),
            land(collision_world, &hits, 2),
            land(collision_world, &hits, 3),
        ]
    }
}

/// What a ray hits.
fn land(collision_world: &DiscreteDynamicsWorld, hits: &ClosestQuadRays, i: usize) -> (r: Option<VehicleRaycasterResult>)
    requires
        i < 4,
        hits.has_hit[i as int] && hits.collision_obj_idx[i as int] is Some ==> hits.collision_obj_idx[i as int]->Some_0
            < collision_world.objs().len(),
    ensures
        r == landed(collision_world.objs(), *hits, i as int),
{
    if hits.has_hit[i] {
        if let Some(co_idx) = hits.collision_obj_idx[i] {
            let rb = collision_world.bodies()[co_idx];
            if rb.contact_response {
                return Some(
                    VehicleRaycasterResult {
                        rigid_body: rb,
                        ground_body_idx: co_idx,
                        hit_point_in_world: hits.hit_point_world[i],
                        hit_normal_in_world: hits.hit_normal_world[i].normalize_or_zero(),
                    },
                );
            }
        }
    }
    None
}

} // verus!
