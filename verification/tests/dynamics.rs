use std::cell::Cell;

use rocketsim::bullet::body::{
    BoxShape, BvhTriangleMeshShape, CollisionShapes, CompoundShape, RigidBody, SphereShape, UserInfoTypes,
};
use rocketsim::bullet::broadphase::{BroadphaseProxy, GridBroadphase, Narrowphase};
use rocketsim::bullet::collision_world::{CollisionWorld, Raycast};
use rocketsim::bullet::discrete_dynamics_step::Engine;
use rocketsim::bullet::discrete_dynamics_world::DiscreteDynamicsWorld;
use rocketsim::bullet::geometry::{Aabb, Geometry, SphereTriangleContact, TriangleShape};
use rocketsim::bullet::manifold::{ManifoldPoint, Manifolds, PersistentManifold};
use rocketsim::bullet::motion::{Motion, Place};
use rocketsim::bullet::raycaster::{ClosestQuadRays, ClosestRays, VehicleRaycaster, VehicleRaycasterResult};
use rocketsim::bullet::seq_impulse_constraint_solver::SeqImpulseConstraintSolver;
use rocketsim::bullet::solver_body::SolverBody;
use rocketsim::bullet::solver_constraint::{
    ContactAddedCallback, ContactSolveInfo, Row, RowOutcome, Rows, SpecialContactSolveInfo, SpecialContactSolvePoint,
};
use rocketsim::bullet::special_contact::{SpecialContact, SpecialResolveInfo};
use rocketsim::bullet::vehicle_rl::{RaycastInfo, Suspension, VehicleRL, Velocities, WheelInfo};
use rocketsim::math::{Affine3A, Mat3A, Quat, Vec3A};
use rocketsim::single::Single;

fn single(x: f32) -> Single {
    Single::of(x.to_bits())
}

fn float(x: Single) -> f32 {
    f32::from_bits(x.bits)
}

fn vec(x: f32, y: f32, z: f32) -> Vec3A {
    Vec3A::new(single(x), single(y), single(z))
}

fn identity() -> Affine3A {
    Affine3A {
        matrix3: Mat3A { x_axis: vec(1.0, 0.0, 0.0), y_axis: vec(0.0, 1.0, 0.0), z_axis: vec(0.0, 0.0, 1.0) },
        translation: Vec3A::zero(),
    }
}

const STEP: f32 = 1.0 / 128.0;

/// Hears of everything.
#[derive(Debug, Default)]
struct Log {
    tracks: bool,
    solved: Vec<(ContactSolveInfo, usize, usize)>,
    specials: Vec<(SpecialContactSolveInfo, usize, usize)>,
}

impl ContactAddedCallback for Log {
    fn callback(
        self,
        manifold_point: ManifoldPoint,
        _body_a: &RigidBody,
        _body_b: &RigidBody,
        _idx: Option<usize>,
    ) -> (Self, ManifoldPoint) {
        (self, manifold_point)
    }

    fn contact_solved(mut self, contact: ContactSolveInfo, body_a: &RigidBody, body_b: &RigidBody) -> Self {
        self.solved.push((contact, body_a.world_array_idx, body_b.world_array_idx));
        self
    }

    fn special_contact_solved(
        mut self,
        contact: SpecialContactSolveInfo,
        points: &Vec<SpecialContactSolvePoint>,
        body: &RigidBody,
    ) -> Self {
        self.specials.push((contact, points.len(), body.world_array_idx));
        self
    }

    fn tracks_special_contacts(&self) -> bool {
        self.tracks
    }
}

/// A simple engine: nothing turns, a contact stops the motion of its first body along the normal,
/// and contacts are those of spheres with the floor at height 0.
#[derive(Default)]
struct Toy {
    /// Pushes that correct something, for each contact.
    pushes_that_count: usize,
    pushes: Cell<usize>,
    solves: Cell<usize>,
    /// Residuals of the first solves.
    busy_solves: usize,
    pair_dispatches: Cell<usize>,
    /// Pairs that are looked for touch, the first body from below.
    pairs_touch: bool,
}

impl Motion for Toy {
    fn with_impulse(&self, body: &RigidBody, impulse: Vec3A) -> Vec3A {
        body.accum_lin_vel.plus(impulse)
    }

    fn damped(&self, body: &RigidBody, _time_step: Single) -> (Vec3A, Vec3A) {
        (body.lin_vel, body.ang_vel)
    }

    fn predicted(&self, body: &RigidBody, time_step: Single) -> Affine3A {
        let mut trans = body.world_trans;
        trans.translation = trans.translation.plus(body.lin_vel.scale(time_step));
        trans
    }

    fn placed(&self, body: &RigidBody, trans: Affine3A) -> Place {
        Place {
            world_trans: trans,
            world_rot: body.world_rot,
            interp_world_trans: trans,
            inv_inertia_tensor_world: body.inv_inertia_tensor_world,
        }
    }

    fn stays_active(&self, body: &RigidBody, _time_step: Single) -> bool {
        body.active
    }
}

impl Geometry for Toy {
    fn aabb(&self, shape: &CollisionShapes, trans: &Affine3A) -> Aabb {
        let reach = match shape {
            CollisionShapes::Sphere(s) => Vec3A::splat(s.radius),
            CollisionShapes::Compound(c) => c.child_shape.half_extents,
            _ => Vec3A::splat(single(64.0)),
        };
        Aabb { min: trans.translation.minus(reach), max: trans.translation.plus(reach) }
    }

    fn joined(&self, a: &Aabb, b: &Aabb) -> Aabb {
        Aabb {
            min: Vec3A::new(a.min.x.min(b.min.x), a.min.y.min(b.min.y), a.min.z.min(b.min.z)),
            max: Vec3A::new(a.max.x.max(b.max.x), a.max.y.max(b.max.y), a.max.z.max(b.max.z)),
        }
    }

    fn intersects(&self, a: &Aabb, b: &Aabb) -> bool {
        a.min.z.le(b.max.z) && b.min.z.le(a.max.z)
    }

    fn closest_point(&self, triangle: &TriangleShape, _corners_to_place: [Vec3A; 3]) -> Vec3A {
        triangle.points[0]
    }

    fn intersect_sphere(
        &self,
        _triangle: &TriangleShape,
        _center: Vec3A,
        _radius: Single,
        _within: Single,
    ) -> Option<SphereTriangleContact> {
        None
    }

    fn triangles(&self, _mesh: &BvhTriangleMeshShape, _aabb: &Aabb) -> Vec<(TriangleShape, usize)> {
        Vec::new()
    }

    fn integrate_trans(
        &self,
        trans: Affine3A,
        rot: Quat,
        lin_vel: Vec3A,
        _ang_vel: Vec3A,
        time: Single,
    ) -> (Affine3A, Quat) {
        (Affine3A { matrix3: trans.matrix3, translation: trans.translation.plus(lin_vel.scale(time)) }, rot)
    }

    fn integrate_trans_no_rot(&self, pos: Vec3A, lin_vel: Vec3A, time: Single) -> Vec3A {
        pos.plus(lin_vel.scale(time))
    }

    fn put_at(&self, body: &RigidBody, trans: Affine3A) -> Place {
        Place {
            world_trans: trans,
            world_rot: body.world_rot,
            interp_world_trans: body.interp_world_trans,
            inv_inertia_tensor_world: body.inv_inertia_tensor_world,
        }
    }
}

fn manifold(body0_idx: usize, body1_idx: usize, points: Vec<ManifoldPoint>) -> PersistentManifold {
    PersistentManifold {
        body0_idx,
        body1_idx,
        contact_breaking_threshold: single(0.02),
        contact_processing_threshold: single(0.02),
        point_cache: points,
    }
}

fn point(on_b: Vec3A, normal: Vec3A, distance: f32) -> ManifoldPoint {
    ManifoldPoint {
        local_point_a: Vec3A::zero(),
        local_point_b: Vec3A::zero(),
        pos_world_on_a: on_b.plus(normal.scale(single(distance))),
        pos_world_on_b: on_b,
        normal_world_on_b: normal,
        distance_1: single(distance),
        combined_friction: single(0.5),
        combined_restitution: single(0.0),
        is_special: false,
    }
}

impl Manifolds<Log> for Toy {
    fn manifold(&self, body_a: &RigidBody, body_b: &RigidBody) -> PersistentManifold {
        manifold(body_a.world_array_idx, body_b.world_array_idx, Vec::new())
    }

    fn add_contact_point(
        &self,
        manifold: PersistentManifold,
        _body_a: &RigidBody,
        _body_b: &RigidBody,
        _normal_on_b: Vec3A,
        _point_in_world: Vec3A,
        _depth: Single,
        _triangle_idx: Option<usize>,
        listener: Log,
    ) -> (PersistentManifold, Log) {
        (manifold, listener)
    }

    fn refresh_contact_points(
        &self,
        manifold: PersistentManifold,
        _body_a: &RigidBody,
        _body_b: &RigidBody,
    ) -> PersistentManifold {
        manifold
    }
}

impl Narrowphase<Log> for Toy {
    fn needs_collision(&self, a: &BroadphaseProxy, b: &BroadphaseProxy) -> bool {
        a.filter_group & b.filter_mask != 0 && b.filter_group & a.filter_mask != 0
    }

    fn dispatch_all(
        &self,
        collision_objs: &Vec<RigidBody>,
        _broadphase: &GridBroadphase,
        _skipped_pairs: &Vec<(usize, usize)>,
        mut manifolds: Vec<PersistentManifold>,
        listener: Log,
    ) -> (Vec<PersistentManifold>, Log) {
        for ball in collision_objs.iter().filter(|b| !b.is_static) {
            if let CollisionShapes::Sphere(s) = ball.collision_shape {
                let pos = ball.world_trans.translation;
                let gap = pos.z.minus(s.radius);
                if gap.le(single(0.02)) {
                    let floor = collision_objs.iter().find(|b| b.is_static).unwrap();
                    let p = point(Vec3A::new(pos.x, pos.y, single(0.0)), vec(0.0, 0.0, 1.0), float(gap));
                    manifolds.push(manifold(ball.world_array_idx, floor.world_array_idx, vec![p]));
                }
            }
        }
        (manifolds, listener)
    }

    fn dispatch_pair(
        &self,
        collision_objs: &Vec<RigidBody>,
        body_a_idx: usize,
        body_b_idx: usize,
        mut manifolds: Vec<PersistentManifold>,
        listener: Log,
    ) -> (Vec<PersistentManifold>, Log, bool) {
        self.pair_dispatches.set(self.pair_dispatches.get() + 1);
        if self.pairs_touch {
            let above = collision_objs[body_b_idx].world_trans.translation;
            let p = point(above.minus(vec(0.0, 0.0, 1.0)), vec(0.0, 0.0, -1.0), 0.0);
            manifolds.push(manifold(body_a_idx, body_b_idx, vec![p]));
        }
        (manifolds, listener, self.pairs_touch)
    }
}

impl Rows for Toy {
    fn solver_body(&self, body: &RigidBody) -> SolverBody {
        SolverBody {
            original_body: None,
            world_trans: body.world_trans,
            world_rot: body.world_rot,
            inv_mass: body.inv_mass,
            lin_vel: body.lin_vel,
            ang_vel: body.ang_vel,
            external_force_impulse: body.accum_lin_vel,
            external_torque_impulse: body.accum_ang_vel,
            ..self.fixed_body()
        }
    }

    fn fixed_body(&self) -> SolverBody {
        SolverBody {
            original_body: None,
            world_trans: identity(),
            world_rot: Quat { x: single(0.0), y: single(0.0), z: single(0.0), w: single(1.0) },
            inv_mass: single(0.0),
            lin_vel: Vec3A::zero(),
            ang_vel: Vec3A::zero(),
            delta_lin_vel: Vec3A::zero(),
            delta_ang_vel: Vec3A::zero(),
            push_vel: Vec3A::zero(),
            turn_vel: Vec3A::zero(),
            external_force_impulse: Vec3A::zero(),
            external_torque_impulse: Vec3A::zero(),
        }
    }

    fn contact_row(
        &self,
        bodies: (&SolverBody, &SolverBody),
        _moving: (Option<&RigidBody>, Option<&RigidBody>),
        _rel_pos: (Vec3A, Vec3A),
        point: &ManifoldPoint,
        _time_step: Single,
    ) -> Row {
        let speed = point.normal_world_on_b.dot(bodies.0.lin_vel.plus(bodies.0.external_force_impulse));
        Row { contact_normal_1: point.normal_world_on_b, rhs: speed.negate(), ..Row::zero() }
    }

    fn with_friction_dir(
        &self,
        point: &ManifoldPoint,
        _bodies: (&SolverBody, &SolverBody),
        _rel_pos: (Vec3A, Vec3A),
    ) -> ManifoldPoint {
        *point
    }

    fn friction_row(
        &self,
        _bodies: (&SolverBody, &SolverBody),
        _moving: (Option<&RigidBody>, Option<&RigidBody>),
        _rel_pos: (Vec3A, Vec3A),
        point: &ManifoldPoint,
    ) -> Row {
        Row { friction: point.combined_friction, ..Row::zero() }
    }

    fn restitution(&self, rel_vel: Single, restitution: Single) -> Single {
        restitution.times(rel_vel.negate())
    }

    fn sideways(&self, _normal: Vec3A) -> Vec3A {
        vec(1.0, 0.0, 0.0)
    }

    fn point_velocity(&self, body: &RigidBody, rel_pos: Vec3A) -> Vec3A {
        body.lin_vel.plus(body.ang_vel.cross(rel_pos))
    }

    fn velocity_before(&self, body: &SolverBody, _rel_pos: Vec3A) -> Vec3A {
        body.lin_vel.plus(body.external_force_impulse)
    }

    fn velocity_after(&self, body: &SolverBody, _rel_pos: Vec3A) -> Vec3A {
        body.lin_vel.plus(body.external_force_impulse).plus(body.delta_lin_vel)
    }

    fn push_apart(&self, row: &Row, body_a: &SolverBody, body_b: &SolverBody) -> RowOutcome {
        let nth = self.pushes.get();
        self.pushes.set(nth + 1);
        let residual = if nth < self.pushes_that_count { single(0.5) } else { single(0.0) };
        RowOutcome {
            impulse: row.applied_push_impulse.plus(residual),
            lin_a: body_a.push_vel.plus(vec(0.0, 0.0, 1.0).scale(residual)),
            ang_a: body_a.turn_vel,
            lin_b: body_b.push_vel,
            ang_b: body_b.turn_vel,
            residual,
        }
    }

    fn solve_contact(&self, row: &Row, body_a: &SolverBody, body_b: &SolverBody) -> RowOutcome {
        let nth = self.solves.get();
        self.solves.set(nth + 1);
        let missing = row.rhs.minus(row.contact_normal_1.dot(body_a.delta_lin_vel));
        let impulse = if missing.gt(single(0.0)) { missing } else { single(0.0) };
        RowOutcome {
            impulse: row.applied_impulse.plus(impulse),
            lin_a: body_a.delta_lin_vel.plus(row.contact_normal_1.scale(impulse)),
            ang_a: body_a.delta_ang_vel,
            lin_b: body_b.delta_lin_vel,
            ang_b: body_b.delta_ang_vel,
            residual: if nth < self.busy_solves { single(1.0) } else { single(0.0) },
        }
    }

    fn solve_friction(&self, row: &Row, body_a: &SolverBody, body_b: &SolverBody) -> RowOutcome {
        RowOutcome {
            impulse: row.upper_limit,
            lin_a: body_a.delta_lin_vel,
            ang_a: body_a.delta_ang_vel,
            lin_b: body_b.delta_lin_vel,
            ang_b: body_b.delta_ang_vel,
            residual: single(0.0),
        }
    }
}

impl Engine<Log> for Toy {}

fn body(kind: UserInfoTypes, shape: CollisionShapes, pos: Vec3A) -> RigidBody {
    let mut trans = identity();
    trans.translation = pos;
    RigidBody {
        world_array_idx: 0,
        user_idx: kind,
        user_pointer: 0,
        world_trans: trans,
        world_rot: Quat { x: single(0.0), y: single(0.0), z: single(0.0), w: single(1.0) },
        interp_world_trans: trans,
        lin_vel: Vec3A::zero(),
        ang_vel: Vec3A::zero(),
        accum_lin_vel: Vec3A::zero(),
        accum_ang_vel: Vec3A::zero(),
        inv_mass: single(1.0),
        inv_inertia_tensor_world: identity().matrix3,
        companion_id: None,
        broadphase_handle: 0,
        collision_shape: shape,
        is_static: false,
        active: true,
        contact_response: true,
        no_angular_motion: false,
    }
}

fn ball(pos: Vec3A) -> RigidBody {
    body(UserInfoTypes::Ball, CollisionShapes::Sphere(SphereShape { radius: single(1.0) }), pos)
}

fn car(pos: Vec3A) -> RigidBody {
    let shape = CompoundShape {
        child_shape: BoxShape { half_extents: vec(1.0, 1.0, 1.0), margin: single(0.0) },
        child_trans: identity(),
    };
    body(UserInfoTypes::Car, CollisionShapes::Compound(shape), pos)
}

fn floor() -> RigidBody {
    RigidBody {
        is_static: true,
        inv_mass: single(0.0),
        ..body(UserInfoTypes::Other, CollisionShapes::StaticPlane, Vec3A::zero())
    }
}

fn world(bodies: Vec<RigidBody>) -> DiscreteDynamicsWorld {
    let mut world = DiscreteDynamicsWorld::new(GridBroadphase { proxies: Vec::new() }, vec(0.0, 0.0, -16.0));
    for (i, b) in bodies.into_iter().enumerate() {
        assert_eq!(world.add_rigid_body_default(&Toy::default(), b), i);
    }
    world
}

fn numbered(bodies: Vec<RigidBody>) -> Vec<RigidBody> {
    bodies.into_iter().enumerate().map(|(i, b)| RigidBody { world_array_idx: i, ..b }).collect()
}

#[test]
fn bodies_join_a_world() {
    let mut world = world(vec![floor(), ball(vec(0.0, 0.0, 9.0)), car(vec(5.0, 0.0, 9.0))]);
    assert_eq!(world.dynamic_body_idcs, vec![1, 2]);
    assert!(!world.bodies()[0].active);
    assert!(world.bodies()[1].active);
    let proxies = &world.collision_world.broadphase_pair_cache.proxies;
    assert_eq!((proxies[0].filter_group, proxies[0].filter_mask), (2, 253));
    assert_eq!((proxies[1].filter_group, proxies[1].filter_mask), (1, 255));
    let idx = world.add_rigid_body(&Toy::default(), car(vec(0.0, 0.0, 0.0)), 8, 1);
    assert_eq!(idx, 3);
    let proxy = world.collision_world.broadphase_pair_cache.proxies[3];
    assert_eq!((proxy.filter_group, proxy.filter_mask), (8, 1));
    assert_eq!(world.bodies()[3].broadphase_handle, 3);
    world.set_gravity(vec(0.0, 0.0, -1.0));
    assert_eq!(world.gravity, vec(0.0, 0.0, -1.0));
    world.bodies_mut()[1].lin_vel = vec(1.0, 0.0, 0.0);
    assert_eq!(world.bodies()[1].lin_vel, vec(1.0, 0.0, 0.0));
}

#[test]
fn boxes_of_bodies_have_a_margin_and_reach_ahead() {
    let toy = Toy::default();
    let mut world = CollisionWorld::new(GridBroadphase { proxies: Vec::new() });
    world.add_collision_obj(&toy, floor(), 2, 253);
    let mut flying = ball(vec(0.0, 0.0, 8.0));
    flying.interp_world_trans.translation = vec(4.0, 0.0, 8.0);
    world.add_collision_obj(&toy, flying, 1, 255);
    world.add_collision_obj(&toy, floor(), 2, 253);
    world.update_aabbs(&toy);
    // Only the statics before the first body that moves are skipped from then on.
    assert_eq!(world.num_skippable_statics, 1);
    let aabb = world.broadphase_pair_cache.proxies[1].aabb;
    assert_eq!(aabb.min.x, single(-1.0 - 0.02));
    assert_eq!(aabb.max.x, single(5.0 + 0.02));
    assert_eq!(world.broadphase_pair_cache.proxies[0].aabb.max.z, single(64.0 + 0.02));
    world.collision_objs[0].world_trans.translation = vec(0.0, 0.0, 100.0);
    world.collision_objs[2].world_trans.translation = vec(0.0, 0.0, 100.0);
    world.update_aabbs(&toy);
    assert_eq!(world.broadphase_pair_cache.proxies[0].aabb.max.z, single(64.0 + 0.02));
    assert_eq!(world.broadphase_pair_cache.proxies[2].aabb.max.z, single(164.0 + 0.02));
}

#[test]
fn cars_and_balls_make_pairs() {
    let toy = Toy::default();
    let mut inert = car(vec(9.0, 0.0, 9.0));
    inert.contact_response = false;
    let mut odd = car(vec(0.0, 0.0, 0.0));
    odd.collision_shape = CollisionShapes::Sphere(SphereShape { radius: single(1.0) });
    let world = world(vec![
        floor(),
        car(vec(4.0, 0.0, 9.0)),
        ball(vec(0.0, 0.0, 9.0)),
        inert,
        car(vec(0.0, 8.0, 9.0)),
        ball(vec(0.0, 0.0, 40.0)),
        odd,
    ]);
    let collision_world = &world.collision_world;
    let pairs = collision_world.car_ball_pairs::<Log, Toy>(&toy);
    assert_eq!(pairs, vec![(1, 2), (2, 4), (1, 5), (4, 5)]);
    assert_eq!(collision_world.car_ball_separation((1, 2)), Some(single(2.0)));
    assert_eq!(collision_world.car_ball_separation((2, 1)), Some(single(2.0)));
    assert_eq!(collision_world.car_ball_separation((1, 4)), None);
    assert_eq!(collision_world.car_ball_separation((2, 6)), None);
    assert_eq!(collision_world.car_ball_contact_threshold(&toy, (1, 2)), Some(single(0.02)));
    assert_eq!(collision_world.car_ball_contact_threshold(&toy, (0, 2)), None);
    assert!(collision_world.car_ball_pair(0, 2).is_none());
    // Impacts are not looked for ahead of time.
    assert_eq!(collision_world.car_ball_time_of_impact(&toy, (1, 2), single(9.0), true), None);
    assert!(collision_world.car_ball_toi_pairs::<Log, Toy, Toy>(&toy, &toy, single(9.0)).is_empty());
}

#[test]
fn only_bodies_that_may_touch_are_dispatched() {
    let toy = Toy::default();
    let mut world = world(vec![floor(), ball(vec(0.0, 0.0, 9.0)), car(vec(4.0, 0.0, 9.0)), floor()]);
    let collision_world = &mut world.collision_world;
    assert!(collision_world.can_collide_pair::<Log, Toy>(&toy, 0, 1));
    assert!(!collision_world.can_collide_pair::<Log, Toy>(&toy, 0, 3));
    let (_, touched) = collision_world.dispatch_pair(&toy, 1, 2, Log::default());
    assert!(!touched);
    assert_eq!(toy.pair_dispatches.get(), 1);
    collision_world.collision_objs[2].contact_response = false;
    collision_world.dispatch_pair(&toy, 1, 2, Log::default());
    assert_eq!(toy.pair_dispatches.get(), 1);
}

#[test]
fn a_ball_falls_and_lands() {
    let toy = Toy::default();
    let mut world = world(vec![floor(), ball(vec(0.0, 0.0, 9.0))]);
    let log = world.step_simulation(&toy, single(STEP), Log::default());
    assert!(log.solved.is_empty());
    let b = world.bodies()[1];
    assert_eq!(b.lin_vel, vec(0.0, 0.0, -16.0 * STEP));
    assert_eq!(b.world_trans.translation, vec(0.0, 0.0, 9.0 - 16.0 * STEP * STEP));
    assert_eq!(b.accum_lin_vel, vec(0.0, 0.0, -16.0 * STEP));
    world.clear_accum_forces();
    assert_eq!(world.bodies()[1].accum_lin_vel, Vec3A::zero());

    // On the floor the contact takes the speed away.
    world.bodies_mut()[1].world_trans.translation = vec(0.0, 0.0, 1.0);
    world.bodies_mut()[1].lin_vel = vec(3.0, 0.0, -4.0);
    let log = world.step_simulation(&toy, single(STEP), Log::default());
    let b = world.bodies()[1];
    assert_eq!(b.lin_vel, vec(3.0, 0.0, 0.0));
    assert_eq!(b.world_trans.translation, vec(3.0 * STEP, 0.0, 1.0));
    assert_eq!(log.solved.len(), 1);
    let (contact, a, f) = log.solved[0];
    assert_eq!((a, f), (1, 0));
    assert_eq!(contact.normal_impulse, single(4.0 + 16.0 * STEP));
    assert_eq!(contact.relative_velocity_before, vec(3.0, 0.0, -4.0 - 16.0 * STEP));
    assert_eq!(contact.relative_velocity_after, vec(3.0, 0.0, 0.0));
    // The floor stays where it is, and no manifold is left.
    assert_eq!(world.bodies()[0].world_trans, floor().world_trans);
    assert!(world.collision_world.dispatcher1.manifolds.is_empty());
}

#[test]
fn sleeping_bodies_are_not_pulled() {
    let toy = Toy::default();
    let mut world = world(vec![floor(), ball(vec(0.0, 0.0, 9.0))]);
    world.bodies_mut()[1].active = false;
    world.step_simulation(&toy, single(STEP), Log::default());
    assert_eq!(world.bodies()[1].world_trans.translation, vec(0.0, 0.0, 9.0));
    assert_eq!(world.bodies()[1].accum_lin_vel, Vec3A::zero());
}

#[test]
fn an_overlap_after_the_solve_is_played_out() {
    let toy = Toy { pushes_that_count: 1, ..Toy::default() };
    // The push out of the floor moves the ball into the car above it, which it did not touch before.
    let mut world = world(vec![floor(), ball(vec(0.0, 0.0, 0.5)), car(vec(0.0, 0.0, 2.53))]);
    world.bodies_mut()[1].accum_lin_vel = vec(1.0, 0.0, 0.0);
    world.bodies_mut()[2].lin_vel = vec(0.0, 0.0, 2.0);
    let step = single(0.0625);
    world.set_gravity(Vec3A::zero());
    world.step_simulation(&toy, step, Log::default());
    // The push was by 0.5 * 0.0625, which closes the gap of 0.03.
    assert_eq!(toy.pair_dispatches.get(), 1);
    let b = world.bodies()[1];
    assert_eq!(b.accum_lin_vel, Vec3A::zero());
    assert_eq!(b.world_trans.translation, vec(0.0625, 0.0, 0.53125));
    assert_eq!(world.bodies()[2].world_trans.translation, vec(0.0, 0.0, 2.53 + 0.125));
}

#[test]
fn a_late_contact_is_solved_once_and_leaves_no_forces() {
    let toy = Toy { pushes_that_count: 1, pairs_touch: true, ..Toy::default() };
    let mut world = world(vec![floor(), ball(vec(0.0, 0.0, 0.5)), car(vec(0.0, 0.0, 2.53))]);
    world.bodies_mut()[1].accum_lin_vel = vec(1.0, 0.0, 0.0);
    world.bodies_mut()[1].lin_vel = vec(0.0, 0.0, 4.0);
    world.bodies_mut()[2].accum_ang_vel = vec(0.0, 3.0, 0.0);
    world.set_gravity(Vec3A::zero());
    let log = world.step_simulation(&toy, single(0.0625), Log::default());
    assert_eq!(toy.pair_dispatches.get(), 1);
    assert_eq!(log.solved.len(), 2);
    let (contact, a, c) = log.solved[1];
    assert_eq!((a, c), (1, 2));
    assert_eq!(contact.normal_impulse, single(4.0));
    assert_eq!(world.bodies()[1].lin_vel, vec(1.0, 0.0, 0.0));
    for b in world.bodies() {
        assert_eq!(b.accum_lin_vel, Vec3A::zero());
        assert_eq!(b.accum_ang_vel, Vec3A::zero());
    }
    assert_eq!(world.bodies()[1].world_trans.translation, vec(0.0625, 0.0, 0.53125));
    assert!(world.collision_world.dispatcher1.manifolds.is_empty());
}

#[test]
fn a_body_without_mass_may_be_added() {
    let mut weightless = ball(vec(0.0, 0.0, 9.0));
    weightless.inv_mass = single(0.0);
    let world = world(vec![floor(), weightless]);
    assert_eq!(world.dynamic_body_idcs, vec![1]);
    assert_eq!(world.bodies()[1].inv_mass, single(0.0));
}

fn special(on_b: Vec3A, normal: Vec3A, distance: f32) -> ManifoldPoint {
    ManifoldPoint { is_special: true, ..point(on_b, normal, distance) }
}

#[test]
fn points_that_coincide_count_once() {
    let (b, f) = (RigidBody { world_array_idx: 4, ..ball(vec(0.0, 0.0, 1.0)) }, floor());
    let up = vec(0.0, 0.0, 1.0);
    let mut info = SpecialResolveInfo::default();
    let add = |info: &mut SpecialResolveInfo, p: ManifoldPoint| {
        let rel = p.pos_world_on_a.minus(b.world_trans.translation);
        info.add_special_collision(&b, &f, &p, rel, p.pos_world_on_b, single(0.02));
    };
    add(&mut info, special(vec(0.0, 0.0, 0.0), up, -0.25));
    add(&mut info, special(vec(0.01, 0.0, 0.0), up, -0.25));
    assert_eq!(info.num_special_collisions, 1);
    add(&mut info, special(vec(0.5, 0.0, 0.0), up, -0.125));
    add(&mut info, special(vec(0.0, 0.0, 0.0), vec(0.0, 1.0, 0.0), -0.25));
    assert_eq!(info.num_special_collisions, 3);
    // Each of them again changes nothing.
    let sums = format!("{info:?}");
    add(&mut info, special(vec(0.0, 0.0, 0.0), up, -0.25));
    add(&mut info, special(vec(0.5, 0.0, 0.0), up, -0.125));
    add(&mut info, special(vec(0.0, 0.0, 0.0), vec(0.0, 1.0, 0.0), -0.25));
    assert_eq!(format!("{info:?}"), sums);
    assert_eq!(info.obj_idx, 4);
    assert_eq!(info.total_penetration, single(-0.625));
    assert_eq!(info.min_penetration, single(-0.25));
    assert_eq!(info.total_normal, vec(0.0, 1.0, 2.0));
    for (i, a) in info.special_contacts.iter().enumerate() {
        for (j, c) in info.special_contacts.iter().enumerate() {
            assert_eq!(a.is_duplicate_of(*c), i == j);
            assert_eq!(a.is_duplicate_of(*c), c.is_duplicate_of(*a));
        }
    }
    // Between bodies that do not move there is no such contact.
    let (p, zero) = (special(vec(9.0, 0.0, 0.0), up, 0.0), Vec3A::zero());
    info.add_special_collision(&f, &f, &p, zero, zero, single(0.02));
    assert_eq!(info.num_special_collisions, 3);
    info.reset();
    assert_eq!(info.num_special_collisions, 0);
    assert!(info.special_contacts.is_empty());
    assert_eq!(float(info.min_penetration), f32::MAX);
}

#[test]
fn points_coincide_within_a_tenth_of_the_lever() {
    let at = |x: f32, dedup: f32| SpecialContact {
        obj_idx: 1,
        pos_world_on_a: vec(x, 0.0, 0.0),
        pos_world_on_b: vec(x, 0.0, 0.0),
        normal_world_on_b: vec(0.0, 0.0, 1.0),
        distance: single(0.0),
        dedup_distance: single(dedup),
    };
    assert!(at(0.0, 0.1).is_duplicate_of(at(0.1, 0.02)));
    assert!(at(0.1, 0.02).is_duplicate_of(at(0.0, 0.1)));
    assert!(!at(0.0, 0.1).is_duplicate_of(at(0.11, 0.1)));
    assert!(!at(0.0, 0.1).is_duplicate_of(SpecialContact { obj_idx: 2, ..at(0.0, 0.1) }));
    assert!(!at(0.0, 0.1).is_duplicate_of(SpecialContact { distance: single(0.2), ..at(0.0, 0.1) }));
    let tilted = SpecialContact { normal_world_on_b: vec(0.1, 0.0, 0.99), ..at(0.0, 0.1) };
    assert!(!at(0.0, 0.1).is_duplicate_of(tilted));
}

#[test]
fn the_ball_on_the_world_is_one_contact() {
    let toy = Toy::default();
    let mut bodies = numbered(vec![floor(), ball(vec(0.0, 0.0, 0.75))]);
    bodies[1].lin_vel = vec(0.0, 0.0, -4.0);
    let up = vec(0.0, 0.0, 1.0);
    let points = vec![
        special(vec(0.0, 0.0, 0.0), up, -0.25),
        special(vec(0.01, 0.0, 0.0), up, -0.25),
        special(vec(0.5, 0.0, 0.0), up, -0.25),
    ];
    let mut manifolds = vec![manifold(1, 0, points)];
    let mut solver = SeqImpulseConstraintSolver::default();
    let log = Log { tracks: true, ..Log::default() };
    let log = solver.solve_group(&toy, &toy, &mut bodies, &vec![1], &mut manifolds, single(STEP), log);
    assert!(manifolds.is_empty());
    assert!(log.solved.is_empty());
    let (info, points, told) = log.specials[0];
    assert_eq!((points, told), (2, 1));
    assert_eq!(info.effective_normal, up);
    assert_eq!(info.mean_penetration, single(-0.25));
    assert_eq!(info.relative_velocity_before.z, single(-4.0));
    // The row asks for the speed that is missing, 4, with a mass of 1.
    assert_eq!(info.normal_impulse, single(4.0));
    assert_eq!(bodies[1].lin_vel, vec(0.0, 0.0, 0.0));

    // Nobody asked for it: nobody hears of it.
    let mut bodies = numbered(vec![floor(), ball(vec(0.0, 0.0, 0.75))]);
    let mut manifolds = vec![manifold(1, 0, vec![special(vec(0.0, 0.0, 0.0), up, -0.25)])];
    let log = solver.solve_group(&toy, &toy, &mut bodies, &vec![1], &mut manifolds, single(STEP), Log::default());
    assert!(log.specials.is_empty() && log.solved.is_empty());
}

#[test]
fn recovery_from_a_penetration_is_capped() {
    let mut solver = SeqImpulseConstraintSolver::default();
    let mut bodies = numbered(vec![floor(), ball(vec(0.0, 0.0, 0.0))]);
    bodies[1].lin_vel = vec(0.0, 0.0, -128.0);
    let deep = special(vec(0.0, 0.0, 0.0), vec(0.0, 0.0, 1.0), -50.0);
    let mut manifolds = vec![manifold(1, 0, vec![deep])];
    solver.solve_group_setup(&Toy::default(), &mut bodies, &vec![1], &mut manifolds, single(STEP), false);
    let row = solver.tmp_solver_contact_constraint_pool[0].row;
    // One step of travel is 1, and the threshold of a contact 0.02.
    let recovered = float(row.rhs_penetration) / (0.8 * 128.0);
    assert!((recovered - 1.02).abs() < 1e-5, "{recovered}");
    assert_eq!(solver.tmp_solver_contact_friction_constraint_pool[0].friction_idx, 0);
}

fn stack(n: usize) -> (Vec<RigidBody>, Vec<PersistentManifold>) {
    let bodies = numbered(vec![floor(), ball(vec(0.0, 0.0, 1.0))]);
    let points = (0..n).map(|i| point(vec(i as f32, 0.0, 0.0), vec(0.0, 0.0, 1.0), 0.0)).collect();
    (bodies, vec![manifold(1, 0, points)])
}

fn pushes(n: usize, that_count: usize) -> usize {
    let toy = Toy { pushes_that_count: that_count, ..Toy::default() };
    let (mut bodies, mut manifolds) = stack(n);
    SeqImpulseConstraintSolver::default().solve_group(
        &toy,
        &toy,
        &mut bodies,
        &vec![1],
        &mut manifolds,
        single(STEP),
        Log::default(),
    );
    toy.pushes.get()
}

#[test]
fn contacts_that_rest_are_left_alone() {
    assert_eq!(pushes(0, 0), 0);
    assert_eq!(pushes(1, 0), 1);
    assert_eq!(pushes(3, 0), 3);
    // Three pushes count, so all three contacts are taken up once more and rest then.
    assert_eq!(pushes(3, 3), 6);
    assert_eq!(pushes(3, 1000), 30);
    assert_eq!(pushes(127, 0), 127);
    assert_eq!(pushes(128, 0), 128);
    // Of more than 128 contacts each is taken up every time.
    assert_eq!(pushes(129, 0), 1290);
}

#[test]
fn solving_stops_when_nothing_is_left() {
    for (busy, solves) in [(0, 2), (1, 4), (2, 4), (3, 6), (1000, 20)] {
        let toy = Toy { busy_solves: busy, ..Toy::default() };
        let (mut bodies, mut manifolds) = stack(2);
        let mut solver = SeqImpulseConstraintSolver::default();
        solver.solve_group(&toy, &toy, &mut bodies, &vec![1], &mut manifolds, single(STEP), Log::default());
        assert_eq!(toy.solves.get(), solves, "{busy}");
        assert!(solver.tmp_solver_body_pool.is_empty());
        assert!(solver.tmp_solver_contact_constraint_pool.is_empty());
    }
}

#[test]
fn what_does_not_move_shares_a_body_of_the_solver() {
    let mut solver = SeqImpulseConstraintSolver::default();
    let mut bodies = numbered(vec![floor(), floor(), ball(vec(0.0, 0.0, 1.0)), ball(vec(9.0, 0.0, 1.0))]);
    bodies[3].active = false;
    let toy = Toy::default();
    solver.setup_solver_bodies(&toy, &mut bodies, &vec![2, 3]);
    assert_eq!(bodies[2].companion_id, Some(0));
    assert_eq!(bodies[3].companion_id, None);
    assert_eq!(solver.get_or_init_solver_body(&toy, &mut bodies[0]), 1);
    assert_eq!(solver.get_or_init_solver_body(&toy, &mut bodies[1]), 1);
    assert_eq!(solver.get_or_init_solver_body(&toy, &mut bodies[2]), 0);
    assert_eq!(solver.get_or_init_solver_body(&toy, &mut bodies[3]), 2);
    assert_eq!(solver.tmp_solver_body_pool[1].original_body, None);
    assert_eq!(solver.tmp_solver_body_pool[2].original_body, Some(3));
}

impl Raycast<ClosestQuadRays> for Toy {
    fn closest_hit_fraction(&self, _hits: &ClosestQuadRays) -> [Single; 4] {
        [Single::one(); 4]
    }

    fn perform_quad_raycast(
        &self,
        _co: &RigidBody,
        obj_idx: usize,
        from: [Vec3A; 4],
        to: [Vec3A; 4],
        _lambda_max: [Single; 4],
        mut hits: ClosestQuadRays,
    ) -> ClosestQuadRays {
        hits.collision_obj_idx = [Some(obj_idx); 4];
        hits.hit_point_world = from;
        hits.hit_normal_world = to;
        hits
    }

    /// The rays 0 and 2 hit the first body, with a normal of length 2, and the ray 3 the second.
    fn ray_test(
        &self,
        _broadphase: &GridBroadphase,
        _collision_objs: &Vec<RigidBody>,
        from: &[Vec3A; 4],
        _to: &[Vec3A; 4],
        mut hits: ClosestQuadRays,
    ) -> ClosestQuadRays {
        hits.has_hit = [true, false, hits.collision_filter_group == 65, true];
        hits.collision_obj_idx = [Some(0), Some(0), Some(0), Some(1)];
        hits.hit_point_world = *from;
        hits.hit_normal_world = [vec(0.0, 0.0, 2.0); 4];
        hits
    }
}

impl ClosestRays for Toy {
    fn closest(&self, _from: &[Vec3A; 4], _to: &[Vec3A; 4], _ignore_obj: &RigidBody) -> ClosestQuadRays {
        ClosestQuadRays {
            collision_filter_group: 1,
            has_hit: [false; 4],
            collision_obj_idx: [None; 4],
            hit_point_world: [Vec3A::zero(); 4],
            hit_normal_world: [Vec3A::zero(); 4],
        }
    }
}

#[test]
fn rays_hit_what_responds_to_contacts() {
    let mut bodies = vec![floor(), car(vec(0.0, 0.0, 2.0))];
    bodies[1].contact_response = false;
    let world = world(bodies);
    let from = [vec(0.0, 0.0, 1.0), vec(1.0, 0.0, 1.0), vec(2.0, 0.0, 1.0), vec(3.0, 0.0, 1.0)];
    let rays = VehicleRaycaster::new(64).cast_rays(&Toy::default(), &world, &from, &from, &world.bodies()[1]);
    let hit = rays[0].unwrap();
    assert_eq!(hit.ground_body_idx, 0);
    assert_eq!(hit.hit_normal_in_world, vec(0.0, 0.0, 1.0));
    assert_eq!(hit.hit_point_in_world, from[0]);
    assert!(rays[1].is_none());
    assert!(rays[2].is_some());
    assert!(rays[3].is_none());
    let rays = VehicleRaycaster::new(0).cast_rays(&Toy::default(), &world, &from, &from, &world.bodies()[1]);
    assert!(rays[2].is_none());
}

#[test]
fn rays_at_a_body_are_in_its_frame() {
    let toy = Toy::default();
    let blank = toy.closest(&[Vec3A::zero(); 4], &[Vec3A::zero(); 4], &floor());
    let from = [vec(3.0, 0.0, 1.0); 4];
    let mut target = car(vec(2.0, 0.0, 0.0));
    let hits = CollisionWorld::quad_ray_test(&toy, &from, &from, &target, 6, blank);
    assert_eq!(hits.hit_point_world, [vec(1.0, 0.0, 1.0); 4]);
    assert_eq!(hits.collision_obj_idx, [Some(6); 4]);
    target.collision_shape = CollisionShapes::TriangleMesh(BvhTriangleMeshShape { number: 0 });
    let hits = CollisionWorld::quad_ray_test(&toy, &from, &from, &target, 6, blank);
    assert_eq!(hits.hit_point_world, from);
}

/// Writes down what is done to a wheel as digits: 1 its ray is prepared, 2 or 3 the ray hits in
/// front or behind, 4 it does not hit, 5 the suspension is updated, 6 the friction is applied.
impl Suspension<u64> for Toy {
    fn prepare_for_raycast(&self, wheel: &WheelInfo<u64>, chassis_trans: &Affine3A) -> (u64, Vec3A, Vec3A) {
        (wheel.suspension * 10 + 1, chassis_trans.translation, Vec3A::zero())
    }

    fn apply_ray_cast(
        &self,
        wheel: &WheelInfo<u64>,
        _chassis: &RigidBody,
        ray_result: &VehicleRaycasterResult,
        _time_step: Single,
        is_front: bool,
    ) -> WheelInfo<u64> {
        WheelInfo {
            raycast_info: Some(RaycastInfo {
                contact_normal: ray_result.hit_normal_in_world,
                contact_point: ray_result.hit_point_in_world,
                ground_body_idx: ray_result.ground_body_idx,
                impulse: Vec3A::zero(),
            }),
            suspension: wheel.suspension * 10 + if is_front { 2 } else { 3 },
        }
    }

    fn reset_wheel_suspension(&self, wheel: &WheelInfo<u64>) -> WheelInfo<u64> {
        WheelInfo { raycast_info: None, suspension: wheel.suspension * 10 + 4 }
    }

    fn calc_friction_impulses(
        &self,
        _wheel: &WheelInfo<u64>,
        _chassis: &RigidBody,
        ground: &RigidBody,
        contact_normal: Vec3A,
        _contact_point: Vec3A,
        _time_step: Single,
    ) -> Vec3A {
        assert!(ground.is_static);
        contact_normal.scale(single(7.0))
    }

    fn update_suspension(
        &self,
        wheel: &WheelInfo<u64>,
        chassis: &RigidBody,
        _step: Single,
    ) -> (WheelInfo<u64>, Velocities) {
        // Adds one, and so tells the order in which the wheels are dealt with.
        let v = Velocities {
            lin_vel: chassis.lin_vel.plus(vec(1.0, 0.0, 0.0)),
            ang_vel: chassis.ang_vel,
            accum_lin_vel: chassis.accum_lin_vel,
            accum_ang_vel: chassis.accum_ang_vel,
        };
        (WheelInfo { suspension: wheel.suspension * 10 + 5, ..*wheel }, v)
    }

    fn apply_friction_impulses(
        &self,
        wheel: &WheelInfo<u64>,
        chassis: &RigidBody,
        _step: Single,
    ) -> (WheelInfo<u64>, Velocities) {
        // By now every suspension has been updated.
        assert!(chassis.lin_vel.x.ge(single(4.0)));
        let v = Velocities {
            lin_vel: chassis.lin_vel.scale(single(2.0)),
            ang_vel: chassis.ang_vel,
            accum_lin_vel: chassis.accum_lin_vel,
            accum_ang_vel: chassis.accum_ang_vel,
        };
        (WheelInfo { suspension: wheel.suspension * 10 + 6, ..*wheel }, v)
    }
}

#[test]
fn wheels_feel_the_ground_and_push_the_car() {
    let toy = Toy::default();
    let mut world = world(vec![floor(), car(vec(0.0, 0.0, 2.0))]);
    let mut vehicle = VehicleRL::new(1, [WheelInfo { raycast_info: None, suspension: 0u64 }; 4]);
    assert_eq!(vehicle.get_num_wheels(), 4);
    // No wheel touches the ground: up is where the car's roof points.
    let tilted = {
        let mut b = world.bodies()[1];
        b.world_trans.matrix3.z_axis = vec(0.0, 1.0, 0.0);
        b
    };
    assert_eq!(vehicle.get_upwards_dir_from_wheel_contacts(&tilted), vec(0.0, 1.0, 0.0));

    world.bodies_mut()[1].contact_response = false;
    vehicle.update_vehicle_first(&toy, &toy, &world, single(STEP));
    let log: Vec<u64> = vehicle.wheels.iter().map(|w| w.suspension).collect();
    assert_eq!(log, vec![12, 14, 13, 14]);
    assert_eq!(vehicle.wheels[0].raycast_info.unwrap().contact_point, vec(0.0, 0.0, 2.0));
    assert_eq!(vehicle.get_upwards_dir_from_wheel_contacts(&tilted), vec(0.0, 0.0, 1.0));

    vehicle.update_vehicle_friction(&toy, &world, single(STEP));
    assert_eq!(vehicle.wheels[2].raycast_info.unwrap().impulse, vec(0.0, 0.0, 7.0));
    assert!(vehicle.wheels[1].raycast_info.is_none());

    vehicle.update_vehicle_second(&toy, &mut world, single(STEP));
    let log: Vec<u64> = vehicle.wheels.iter().map(|w| w.suspension).collect();
    assert_eq!(log, vec![1256, 1456, 1356, 1456]);
    assert_eq!(world.bodies()[1].lin_vel, vec(64.0, 0.0, 0.0));
    assert_eq!(world.bodies()[0].lin_vel, Vec3A::zero());
}
