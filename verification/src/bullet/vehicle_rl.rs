//! A vehicle: a body on four wheels that feel the ground with rays.
use crate::bullet::body::RigidBody;
use crate::bullet::broadphase::DROPSHOT_FLOOR_GROUP;
use crate::bullet::discrete_dynamics_world::DiscreteDynamicsWorld;
use crate::bullet::raycaster::{rays_sound, ClosestRays, VehicleRaycaster, VehicleRaycasterResult};
use crate::math::{Affine3A, Vec3A};
use crate::single::Single;
use vstd::prelude::*;

verus! {

/// The wheels of a vehicle.
pub const NUM_WHEELS: usize = 4;

/// Where a wheel touches the ground.
#[derive(Clone, Copy, Debug, PartialEq, Eq, Structural)]
pub struct RaycastInfo {
    pub contact_normal: Vec3A,
    pub contact_point: Vec3A,
    pub ground_body_idx: usize,
    /// The impulse of the friction with the ground.
    pub impulse: Vec3A,
}

/// A wheel, with the state `W` of its suspension.
#[derive(Clone, Copy, Debug)]
pub struct WheelInfo<W> {
    pub raycast_info: Option<RaycastInfo>,
    pub suspension: W,
}

/// How a body moves, and what forces add to that.
#[derive(Clone, Copy, Debug, PartialEq, Eq, Structural)]
pub struct Velocities {
    pub lin_vel: Vec3A,
    pub ang_vel: Vec3A,
    pub accum_lin_vel: Vec3A,
    pub accum_ang_vel: Vec3A,
}

/// The mechanics of a wheel.
///
/// Nothing is known of what the methods return: whoever calls one has to cope with every
/// outcome.
pub trait Suspension<W> {
    /// The suspension before a ray is cast, and the ends of the ray.
    fn prepare_for_raycast(&self, wheel: &WheelInfo<W>, chassis_trans: &Affine3A) -> (W, Vec3A, Vec3A);

    /// The wheel after its ray has hit something.
    fn apply_ray_cast(
        &self,
        wheel: &WheelInfo<W>,
        chassis: &RigidBody,
        ray_result: &VehicleRaycasterResult,
        time_step: Single,
        is_front: bool,
    ) -> WheelInfo<W>;

    /// The wheel after its ray has hit nothing.
    fn reset_wheel_suspension(&self, wheel: &WheelInfo<W>) -> WheelInfo<W>;

    /// The impulse of the friction with the ground.
    fn calc_friction_impulses(
        &self,
        wheel: &WheelInfo<W>,
        chassis: &RigidBody,
        ground: &RigidBody,
        contact_normal: Vec3A,
        contact_point: Vec3A,
        time_step: Single,
    ) -> Vec3A;

    /// The suspension pushes the body.
    fn update_suspension(&self, wheel: &WheelInfo<W>, chassis: &RigidBody, step: Single) -> (WheelInfo<W>, Velocities);

    /// The friction pushes the body.
    fn apply_friction_impulses(&self, wheel: &WheelInfo<W>, chassis: &RigidBody, step: Single) -> (
        WheelInfo<W>,
        Velocities,
    );
}

#[derive(Clone, Copy, Debug)]
pub struct VehicleRL<W> {
    pub raycaster: VehicleRaycaster,
    pub chassis_body_idx: usize,
    pub wheels: [WheelInfo<W>; NUM_WHEELS],
}

/// A body with other velocities.
pub open spec fn pushed(body: RigidBody, v: Velocities) -> RigidBody {
    RigidBody {
        lin_vel: v.lin_vel,
        ang_vel: v.ang_vel,
        accum_lin_vel: v.accum_lin_vel,
        accum_ang_vel: v.accum_ang_vel,
        ..body
    }
}

fn push_body(body: &RigidBody, v: Velocities) -> (r: RigidBody)
    ensures
        r == pushed(*body, v),
{
    RigidBody {
        lin_vel: v.lin_vel,
        ang_vel: v.ang_vel,
        accum_lin_vel: v.accum_lin_vel,
        accum_ang_vel: v.accum_ang_vel,
        ..*body
    }
}

/// The sum of the normals of the first `n` wheels that touch the ground.
pub open spec fn normal_sum<W>(wheels: Seq<WheelInfo<W>>, n: int) -> Vec3A
    decreases n,
{
    if n <= 0 {
        Vec3A::zero()
    } else {
        match wheels[n - 1].raycast_info {
            Some(info) => normal_sum(wheels, n - 1).plus(info.contact_normal),
            None => normal_sum(wheels, n - 1),
        }
    }
}

/// The direction away from the ground that wheels touch, or else the up direction of a body.
pub open spec fn upwards<W>(wheels: Seq<WheelInfo<W>>, body: RigidBody) -> Vec3A {
    match normal_sum(wheels, wheels.len() as int).unit() {
        Some(dir) => dir,
        None => body.world_trans.matrix3.z_axis,
    }
}

/// The wheels from the `i`th on push the body, one after the other, by their suspension.
pub open spec fn springs<W, S: Suspension<W>>(
    mechanics: &S,
    wheels: Seq<WheelInfo<W>>,
    i: nat,
    chassis: RigidBody,
    step: Single,
    out: Seq<WheelInfo<W>>,
    end: RigidBody,
) -> bool
    decreases wheels.len() - i,
{
    if i >= wheels.len() {
        out == wheels && end == chassis
    } else {
        exists|wheel: WheelInfo<W>, v: Velocities| #[trigger]
            call_ensures(S::update_suspension, (mechanics, &wheels[i as int], &chassis, step), (wheel, v)) && springs(
                mechanics,
                wheels.update(i as int, wheel),
                i + 1,
                pushed(chassis, v),
                step,
                out,
                end,
            )
    }
}

/// The wheels from the `i`th on push the body, one after the other, by their friction.
pub open spec fn grips<W, S: Suspension<W>>(
    mechanics: &S,
    wheels: Seq<WheelInfo<W>>,
    i: nat,
    chassis: RigidBody,
    step: Single,
    out: Seq<WheelInfo<W>>,
    end: RigidBody,
) -> bool
    decreases wheels.len() - i,
{
    if i >= wheels.len() {
        out == wheels && end == chassis
    } else {
        exists|wheel: WheelInfo<W>, v: Velocities| #[trigger]
            call_ensures(S::apply_friction_impulses, (mechanics, &wheels[i as int], &chassis, step), (wheel, v))
                && grips(
                mechanics,
                wheels.update(i as int, wheel),
                i + 1,
                pushed(chassis, v),
                step,
                out,
                end,
            )
    }
}

/// The wheels push the body, first by their suspension and then by their friction.
pub open spec fn drives<W, S: Suspension<W>>(
    mechanics: &S,
    wheels: Seq<WheelInfo<W>>,
    chassis: RigidBody,
    step: Single,
    out: Seq<WheelInfo<W>>,
    end: RigidBody,
) -> bool {
    exists|sprung: Seq<WheelInfo<W>>, lifted: RigidBody| #[trigger]
        springs(mechanics, wheels, 0, chassis, step, sprung, lifted) && #[trigger] grips(
            mechanics,
            sprung,
            0,
            lifted,
            step,
            out,
            end,
        )
}

impl<W: Copy> VehicleRL<W> {
    pub fn new(chassis_body_idx: usize, wheels: [WheelInfo<W>; NUM_WHEELS]) -> (r: VehicleRL<W>)
        ensures
            r.raycaster.added_filter_mask == DROPSHOT_FLOOR_GROUP,
            r.chassis_body_idx == chassis_body_idx,
            r.wheels == wheels,
    {
        VehicleRL { raycaster: VehicleRaycaster::new(DROPSHOT_FLOOR_GROUP), chassis_body_idx, wheels }
    }

    pub fn get_num_wheels(&self) -> (r: usize)
        ensures
            r == NUM_WHEELS,
    {
        NUM_WHEELS
    }

    /// The direction away from the ground that the wheels touch, or else the up direction of a body.
    pub fn get_upwards_dir_from_wheel_contacts(&self, cb: &RigidBody) -> (r: Vec3A)
        ensures
            r == upwards(self.wheels@, *cb),
    {
        let mut sum = Vec3A::zero();
        let mut i: usize = 0;
        while i < NUM_WHEELS
            invariant
                i <= NUM_WHEELS,
                sum == normal_sum(self.wheels@, i as int),
            decreases NUM_WHEELS - i,
        {
            if let Some(info) = self.wheels[i].raycast_info {
                sum = sum.plus(info.contact_normal);
            }
            i = i + 1;
        }
        match sum.try_normalize() {
            Some(dir) => dir,
            None => cb.world_trans.matrix3.z_axis,
        }
    }

    /// The wheel `i` feels the ground: with its ray prepared as `ready`, and a result of the ray.
    pub open spec fn feels<S: Suspension<W>>(
        mechanics: &S,
        ready: WheelInfo<W>,
        ray: Option<VehicleRaycasterResult>,
        chassis: RigidBody,
        time_step: Single,
        i: int,
        after: WheelInfo<W>,
    ) -> bool {
        match ray {
            Some(ray_result) => call_ensures(
                S::apply_ray_cast,
                (mechanics, &ready, &chassis, &ray_result, time_step, i < 2),
                after,
            ),
            None => call_ensures(S::reset_wheel_suspension, (mechanics, &ready), after),
        }
    }

    /// The wheels feel the ground: their rays are prepared, cast together, and what they hit is
    /// applied.
    pub open spec fn feels_ground<S: Suspension<W>, C: ClosestRays>(
        self,
        mechanics: &S,
        raycast: &C,
        world: DiscreteDynamicsWorld,
        time_step: Single,
        after: Self,
    ) -> bool {
        let chassis = world.objs()[self.chassis_body_idx as int];
        exists|
            ready: [WheelInfo<W>; NUM_WHEELS],
            sources: [Vec3A; 4],
            targets: [Vec3A; 4],
            rays: [Option<VehicleRaycasterResult>; 4],
        |
            #![trigger self.raycaster.casts(raycast, world, sources, targets, &chassis, rays), ready@]
            (forall|i: int|
                0 <= i < NUM_WHEELS ==> (#[trigger] ready@[i]).raycast_info == self.wheels@[i].raycast_info && call_ensures(
                    S::prepare_for_raycast,
                    (mechanics, &self.wheels@[i], &chassis.world_trans),
                    (ready@[i].suspension, sources@[i], targets@[i]),
                )) && self.raycaster.casts(raycast, world, sources, targets, &chassis, rays) && (forall|i: int|
                0 <= i < NUM_WHEELS ==> Self::feels(
                    mechanics,
                    ready@[i],
                    rays@[i],
                    chassis,
                    time_step,
                    i,
                    #[trigger] after.wheels@[i],
                )) && after.raycaster == self.raycaster && after.chassis_body_idx == self.chassis_body_idx
    }

    /// Feels the ground under the wheels.
    pub fn update_vehicle_first<S: Suspension<W>, C: ClosestRays>(
        &mut self,
        mechanics: &S,
        raycast: &C,
        collision_world: &DiscreteDynamicsWorld,
        time_step: Single,
    )
        requires
            old(self).chassis_body_idx < collision_world.objs().len(),
            forall|from: [Vec3A; 4], to: [Vec3A; 4]| #[trigger]
                rays_sound(
                    raycast,
                    *collision_world,
                    old(self).raycaster.added_filter_mask,
                    from,
                    to,
                    &collision_world.objs()[old(self).chassis_body_idx as int],
                ),
        ensures
            old(self).feels_ground(mechanics, raycast, *collision_world, time_step, *final(self)),
    {
        let ghost before = *self;
        let chassis = collision_world.bodies()[self.chassis_body_idx];
        let w0 = mechanics.prepare_for_raycast(&self.wheels[0], &chassis.world_trans);
        let w1 = mechanics.prepare_for_raycast(&self.wheels[1], &chassis.world_trans);
        let w2 = mechanics.prepare_for_raycast(&self.wheels[2], &chassis.world_trans);
        let w3 = mechanics.prepare_for_raycast(&self.wheels[3], &chassis.world_trans);
        let ready: [WheelInfo<W>; NUM_WHEELS] = [
            WheelInfo { raycast_info: self.wheels[0].raycast_info, suspension: w0.0 },
            WheelInfo { raycast_info: self.wheels[1].raycast_info, suspension: w1.0 },
            WheelInfo { raycast_info: self.wheels[2].raycast_info, suspension: w2.0 },
            WheelInfo { raycast_info: self.wheels[3].raycast_info, suspension: w3.0 },
        ];
        let sources: [Vec3A; 4] = [w0.1, w1.1, w2.1, w3.1];
        let targets: [Vec3A; 4] = [w0.2, w1.2, w2.2, w3.2];
        let rays = self.raycaster.cast_rays(raycast, collision_world, &sources, &targets, &chassis);
        let a0 = Self::feel(mechanics, &ready[0], rays[0], &chassis, time_step, 0);
        let a1 = Self::feel(mechanics, &ready[1], rays[1], &chassis, time_step, 1);
        let a2 = Self::feel(mechanics, &ready[2], rays[2], &chassis, time_step, 2);
        let a3 = Self::feel(mechanics, &ready[3], rays[3], &chassis, time_step, 3);
        self.wheels = [a0, a1, a2, a3];
        proof {
            assert(before.raycaster.casts(raycast, *collision_world, sources, targets, &chassis, rays));
            assert(ready@.len() == NUM_WHEELS);
        }
    }

    fn feel<S: Suspension<W>>(
        mechanics: &S,
        ready: &WheelInfo<W>,
        ray: Option<VehicleRaycasterResult>,
        chassis: &RigidBody,
        time_step: Single,
        i: usize,
    ) -> (r: WheelInfo<W>)
        ensures
            Self::feels(mechanics, *ready, ray, *chassis, time_step, i as int, r),
    {
        match ray {
            Some(ray_result) => mechanics.apply_ray_cast(ready, chassis, &ray_result, time_step, i < 2),
            None => mechanics.reset_wheel_suspension(ready),
        }
    }

    /// The friction of a wheel with the ground that it touches.
    pub open spec fn rubs<S: Suspension<W>>(
        mechanics: &S,
        wheel: WheelInfo<W>,
        objs: Seq<RigidBody>,
        chassis: RigidBody,
        time_step: Single,
        after: WheelInfo<W>,
    ) -> bool {
        match wheel.raycast_info {
            None => after == wheel,
            Some(info) => after.suspension == wheel.suspension && after.raycast_info is Some && call_ensures(
                S::calc_friction_impulses,
                (
                    mechanics,
                    &wheel,
                    &chassis,
                    &objs[info.ground_body_idx as int],
                    info.contact_normal,
                    info.contact_point,
                    time_step,
                ),
                after.raycast_info->Some_0.impulse,
            ) && after.raycast_info == Some(RaycastInfo { impulse: after.raycast_info->Some_0.impulse, ..info }),
        }
    }

    fn rub<S: Suspension<W>>(
        mechanics: &S,
        wheel: &WheelInfo<W>,
        bodies: &Vec<RigidBody>,
        chassis: &RigidBody,
        time_step: Single,
    ) -> (r: WheelInfo<W>)
        requires
            wheel.raycast_info is Some ==> wheel.raycast_info->Some_0.ground_body_idx < bodies@.len(),
        ensures
            Self::rubs(mechanics, *wheel, bodies@, *chassis, time_step, r),
    {
        match wheel.raycast_info {
            None => *wheel,
            Some(info) => {
                let ground = bodies[info.ground_body_idx];
                let impulse = mechanics.calc_friction_impulses(
                    wheel,
                    chassis,
                    &ground,
                    info.contact_normal,
                    info.contact_point,
                    time_step,
                );
                WheelInfo { raycast_info: Some(RaycastInfo { impulse, ..info }), suspension: wheel.suspension }
            },
        }
    }

    /// Computes the impulse of the friction of each wheel, once the coefficients for the tick are
    /// known. The velocities that it reads are those at the start of the tick.
    pub fn update_vehicle_friction<S: Suspension<W>>(
        &mut self,
        mechanics: &S,
        collision_world: &DiscreteDynamicsWorld,
        time_step: Single,
    )
        requires
            old(self).chassis_body_idx < collision_world.objs().len(),
            forall|i: int|
                0 <= i < NUM_WHEELS && (#[trigger] old(self).wheels@[i]).raycast_info is Some ==> old(self).wheels@[i].raycast_info->Some_0.ground_body_idx < collision_world.objs().len(),
        ensures
            forall|i: int|
                0 <= i < NUM_WHEELS ==> Self::rubs(
                    mechanics,
                    old(self).wheels@[i],
                    collision_world.objs(),
                    collision_world.objs()[old(self).chassis_body_idx as int],
                    time_step,
                    #[trigger] final(self).wheels@[i],
                ),
            final(self).raycaster == old(self).raycaster,
            final(self).chassis_body_idx == old(self).chassis_body_idx,
    {
        let bodies = collision_world.bodies();
        let chassis = bodies[self.chassis_body_idx];
        let a0 = Self::rub(mechanics, &self.wheels[0], bodies, &chassis, time_step);
        let a1 = Self::rub(mechanics, &self.wheels[1], bodies, &chassis, time_step);
        let a2 = Self::rub(mechanics, &self.wheels[2], bodies, &chassis, time_step);
        let a3 = Self::rub(mechanics, &self.wheels[3], bodies, &chassis, time_step);
        self.wheels = [a0, a1, a2, a3];
    }
}

impl<W: Copy> VehicleRL<W> {
    /// The suspension of each wheel pushes the body.
    fn spring<S: Suspension<W>>(&mut self, mechanics: &S, chassis: RigidBody, step: Single) -> (end: RigidBody)
        ensures
            springs(mechanics, old(self).wheels@, 0, chassis, step, final(self).wheels@, end),
            final(self).raycaster == old(self).raycaster,
            final(self).chassis_body_idx == old(self).chassis_body_idx,
    {
        let ghost start = self.wheels@;
        let ghost before = chassis;
        let mut body = chassis;
        let mut i: usize = 0;
        while i < NUM_WHEELS
            invariant
                i <= NUM_WHEELS,
                start.len() == NUM_WHEELS,
                self.raycaster == old(self).raycaster,
                self.chassis_body_idx == old(self).chassis_body_idx,
                forall|out: Seq<WheelInfo<W>>, end: RigidBody| #[trigger]
                    springs(mechanics, self.wheels@, i as nat, body, step, out, end) ==> springs(
                        mechanics,
                        start,
                        0,
                        before,
                        step,
                        out,
                        end,
                    ),
            decreases NUM_WHEELS - i,
        {
            let ghost here = self.wheels@;
            let ghost there = body;
            let ghost at = i as nat;
            let (wheel, v) = mechanics.update_suspension(&self.wheels[i], &body, step);
            self.wheels[i] = wheel;
            body = push_body(&body, v);
            i = i + 1;
            proof {
                assert(self.wheels@ =~= here.update(at as int, wheel));
                assert forall|out: Seq<WheelInfo<W>>, end: RigidBody| #[trigger]
                    springs(mechanics, self.wheels@, i as nat, body, step, out, end) implies springs(
                    mechanics,
                    start,
                    0,
                    before,
                    step,
                    out,
                    end,
                ) by {
                    assert(call_ensures(
                        S::update_suspension,
                        (mechanics, &here[at as int], &there, step),
                        (wheel, v),
                    ));
                    assert(springs(mechanics, here, at, there, step, out, end));
                }
            }
        }
        proof {
            assert(springs(mechanics, self.wheels@, i as nat, body, step, self.wheels@, body));
        }
        body
    }

    /// The friction of each wheel pushes the body.
    fn grip<S: Suspension<W>>(&mut self, mechanics: &S, chassis: RigidBody, step: Single) -> (end: RigidBody)
        ensures
            grips(mechanics, old(self).wheels@, 0, chassis, step, final(self).wheels@, end),
            final(self).raycaster == old(self).raycaster,
            final(self).chassis_body_idx == old(self).chassis_body_idx,
    {
        let ghost start = self.wheels@;
        let ghost before = chassis;
        let mut body = chassis;
        let mut i: usize = 0;
        while i < NUM_WHEELS
            invariant
                i <= NUM_WHEELS,
                start.len() == NUM_WHEELS,
                self.raycaster == old(self).raycaster,
                self.chassis_body_idx == old(self).chassis_body_idx,
                forall|out: Seq<WheelInfo<W>>, end: RigidBody| #[trigger]
                    grips(mechanics, self.wheels@, i as nat, body, step, out, end) ==> grips(
                        mechanics,
                        start,
                        0,
                        before,
                        step,
                        out,
                        end,
                    ),
            decreases NUM_WHEELS - i,
        {
            let ghost here = self.wheels@;
            let ghost there = body;
            let ghost at = i as nat;
            let (wheel, v) = mechanics.apply_friction_impulses(&self.wheels[i], &body, step);
            self.wheels[i] = wheel;
            body = push_body(&body, v);
            i = i + 1;
            proof {
                assert(self.wheels@ =~= here.update(at as int, wheel));
                assert forall|out: Seq<WheelInfo<W>>, end: RigidBody| #[trigger]
                    grips(mechanics, self.wheels@, i as nat, body, step, out, end) implies grips(
                    mechanics,
                    start,
                    0,
                    before,
                    step,
                    out,
                    end,
                ) by {
                    assert(call_ensures(
                        S::apply_friction_impulses,
                        (mechanics, &here[at as int], &there, step),
                        (wheel, v),
                    ));
                    assert(grips(mechanics, here, at, there, step, out, end));
                }
            }
        }
        proof {
            assert(grips(mechanics, self.wheels@, i as nat, body, step, self.wheels@, body));
        }
        body
    }

    /// Pushes the body of the vehicle: by the suspension of all wheels, and only then by their
    /// friction.
    pub fn update_vehicle_second<S: Suspension<W>>(
        &mut self,
        mechanics: &S,
        collision_world: &mut DiscreteDynamicsWorld,
        step: Single,
    )
        requires
            old(self).chassis_body_idx < old(collision_world).objs().len(),
        ensures
            exists|end: RigidBody| #[trigger]
                drives(
                    mechanics,
                    old(self).wheels@,
                    old(collision_world).objs()[old(self).chassis_body_idx as int],
                    step,
                    final(self).wheels@,
                    end,
                ) && final(collision_world).objs() == old(collision_world).objs().update(
                    old(self).chassis_body_idx as int,
                    end,
                ),
            old(collision_world).same_but_bodies(*final(collision_world)),
            final(self).raycaster == old(self).raycaster,
            final(self).chassis_body_idx == old(self).chassis_body_idx,
    {
        let idx: usize = self.chassis_body_idx;
        let chassis = collision_world.bodies()[idx];
        let lifted = self.spring(mechanics, chassis, step);
        let ghost sprung = self.wheels@;
        let end = self.grip(mechanics, lifted, step);
        collision_world.collision_world.collision_objs.set(idx, end);
        proof {
            assert(springs(mechanics, old(self).wheels@, 0, chassis, step, sprung, lifted));
            assert(grips(mechanics, sprung, 0, lifted, step, self.wheels@, end));
            assert(drives(mechanics, old(self).wheels@, chassis, step, self.wheels@, end));
        }
    }
}

} // verus!
