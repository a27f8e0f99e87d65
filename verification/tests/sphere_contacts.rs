use rocketsim::bullet::body::{
    BoxShape, BvhTriangleMeshShape, CollisionShapes, CompoundShape, RigidBody, SphereShape, UserInfoTypes,
};
use rocketsim::bullet::geometry::{Aabb, Geometry, SphereTriangleContact, TriangleShape};
use rocketsim::bullet::manifold::{ManifoldPoint, Manifolds, PersistentManifold};
use rocketsim::bullet::motion::Place;
use rocketsim::bullet::sphere_concave_collision_alg::{
    can_resolve_goal_sweep, is_entering_soccar_goal_rim_contact, may_reach_soccar_goal_rim, SweptSphereTriangleCallback,
};
use rocketsim::bullet::sphere_obb_collision_alg::{
    get_sphere_penetration, process_collision as sphere_on_box, separation, time_of_impact,
};
use rocketsim::bullet::sphere_concave_collision_alg::process_collision as sphere_on_mesh;
use rocketsim::consts::UU_TO_BT;
use rocketsim::math::{Affine3A, Mat3A, Quat, Vec3A};
use rocketsim::single::Single;

fn single(x: f32) -> Single {
    Single::of(x.to_bits())
}

fn float(x: Single) -> f32 {
    f32::from_bits(x.bits)
}

fn vec(x: f32, y: f32, z: f32) -> Vec3A {
    Vec3A::new(single(x), single(y), single(z))
}

fn to_glam(v: Vec3A) -> glam::Vec3A {
    glam::Vec3A::new(float(v.x), float(v.y), float(v.z))
}

fn in_bullet_units(v: Vec3A) -> Vec3A {
    v.scale(Single::of(UU_TO_BT))
}

fn identity() -> Affine3A {
    Affine3A {
        matrix3: Mat3A { x_axis: vec(1.0, 0.0, 0.0), y_axis: vec(0.0, 1.0, 0.0), z_axis: vec(0.0, 0.0, 1.0) },
        translation: Vec3A::zero(),
    }
}

/// Shapes along the axes, motion without rotation, and one triangle per mesh.
struct Plain {
    triangle: TriangleShape,
}

impl Geometry for Plain {
    fn aabb(&self, shape: &CollisionShapes, trans: &Affine3A) -> Aabb {
        let reach = match shape {
            CollisionShapes::Sphere(s) => Vec3A::splat(s.radius),
            CollisionShapes::Compound(c) => c.child_shape.half_extents.plus(Vec3A::splat(c.child_shape.margin)),
            _ => Vec3A::splat(single(1000.0)),
        };
        Aabb { min: trans.translation.minus(reach), max: trans.translation.plus(reach) }
    }

    fn joined(&self, a: &Aabb, b: &Aabb) -> Aabb {
        let low = |p: Single, q: Single| p.min(q);
        let high = |p: Single, q: Single| p.max(q);
        Aabb {
            min: Vec3A::new(low(a.min.x, b.min.x), low(a.min.y, b.min.y), low(a.min.z, b.min.z)),
            max: Vec3A::new(high(a.max.x, b.max.x), high(a.max.y, b.max.y), high(a.max.z, b.max.z)),
        }
    }

    fn intersects(&self, a: &Aabb, b: &Aabb) -> bool {
        a.min.x.le(b.max.x) && b.min.x.le(a.max.x) && a.min.y.le(b.max.y) && b.min.y.le(a.max.y) && a.min.z.le(b.max.z)
            && b.min.z.le(a.max.z)
    }

    fn closest_point(&self, triangle: &TriangleShape, corners_to_place: [Vec3A; 3]) -> Vec3A {
        let [a, b, c] = triangle.points.map(to_glam);
        let p = a + to_glam(corners_to_place[0]);
        let (ab, ac, ap) = (b - a, c - a, p - a);
        let (d1, d2) = (ab.dot(ap), ac.dot(ap));
        let closest = if d1 <= 0.0 && d2 <= 0.0 {
            a
        } else {
            let bp = p - b;
            let (d3, d4) = (ab.dot(bp), ac.dot(bp));
            let cp = p - c;
            let (d5, d6) = (ab.dot(cp), ac.dot(cp));
            let (va, vb, vc) = (d3 * d6 - d5 * d4, d5 * d2 - d1 * d6, d1 * d4 - d3 * d2);
            if d3 >= 0.0 && d4 <= d3 {
                b
            } else if d6 >= 0.0 && d5 <= d6 {
                c
            } else if vc <= 0.0 && d1 >= 0.0 && d3 <= 0.0 {
                a + ab * (d1 / (d1 - d3))
            } else if vb <= 0.0 && d2 >= 0.0 && d6 <= 0.0 {
                a + ac * (d2 / (d2 - d6))
            } else if va <= 0.0 && d4 - d3 >= 0.0 && d5 - d6 >= 0.0 {
                b + (c - b) * ((d4 - d3) / ((d4 - d3) + (d5 - d6)))
            } else {
                let denom = 1.0 / (va + vb + vc);
                a + ab * (vb * denom) + ac * (vc * denom)
            }
        };
        vec(closest.x, closest.y, closest.z)
    }

    fn intersect_sphere(
        &self,
        triangle: &TriangleShape,
        center: Vec3A,
        radius: Single,
        within: Single,
    ) -> Option<SphereTriangleContact> {
        let point = self.closest_point(triangle, triangle.points.map(|corner| center.minus(corner)));
        let offset = center.minus(point);
        let distance = offset.length();
        if distance.gt(radius.plus(within)) {
            return None;
        }
        Some(SphereTriangleContact {
            result_normal: offset.normalize_or_zero(),
            contact_point: point,
            depth: distance.minus(radius),
        })
    }

    fn triangles(&self, mesh: &BvhTriangleMeshShape, _aabb: &Aabb) -> Vec<(TriangleShape, usize)> {
        if mesh.number == 1 {
            vec![(self.triangle, 7)]
        } else {
            Vec::new()
        }
    }

    fn integrate_trans(
        &self,
        trans: Affine3A,
        rot: Quat,
        lin_vel: Vec3A,
        _ang_vel: Vec3A,
        time: Single,
    ) -> (Affine3A, Quat) {
        (Affine3A { matrix3: trans.matrix3, translation: trans.translation.plus(lin_vel.scale(time)) }, rot)
    }

    fn integrate_trans_no_rot(&self, pos: Vec3A, lin_vel: Vec3A, time: Single) -> Vec3A {
        pos.plus(lin_vel.scale(time))
    }

    fn put_at(&self, body: &RigidBody, trans: Affine3A) -> Place {
        Place {
            world_trans: trans,
            world_rot: body.world_rot,
            interp_world_trans: body.interp_world_trans,
            inv_inertia_tensor_world: body.inv_inertia_tensor_world,
        }
    }
}

/// Keeps every point, and counts them.
impl Manifolds<usize> for Plain {
    fn manifold(&self, body_a: &RigidBody, body_b: &RigidBody) -> PersistentManifold {
        PersistentManifold {
            body0_idx: body_a.world_array_idx,
            body1_idx: body_b.world_array_idx,
            contact_breaking_threshold: single(0.02),
            contact_processing_threshold: single(0.02),
            point_cache: Vec::new(),
        }
    }

    fn add_contact_point(
        &self,
        mut manifold: PersistentManifold,
        _body_a: &RigidBody,
        _body_b: &RigidBody,
        normal_on_b: Vec3A,
        point_in_world: Vec3A,
        depth: Single,
        _triangle_idx: Option<usize>,
        listener: usize,
    ) -> (PersistentManifold, usize) {
        manifold.point_cache.push(ManifoldPoint {
            local_point_a: Vec3A::zero(),
            local_point_b: Vec3A::zero(),
            pos_world_on_a: point_in_world.plus(normal_on_b.scale(depth)),
            pos_world_on_b: point_in_world,
            normal_world_on_b: normal_on_b,
            distance_1: depth,
            combined_friction: single(0.0),
            combined_restitution: single(0.0),
            is_special: false,
        });
        (manifold, listener + 1)
    }

    fn refresh_contact_points(
        &self,
        manifold: PersistentManifold,
        _body_a: &RigidBody,
        _body_b: &RigidBody,
    ) -> PersistentManifold {
        manifold
    }
}

fn plain() -> Plain {
    Plain { triangle: wall(0.0) }
}

/// A triangle across the x axis.
fn wall(x: f32) -> TriangleShape {
    TriangleShape { points: [vec(x, -2.0, -2.0), vec(x, 2.0, -2.0), vec(x, 0.0, 2.0)], normal: vec(1.0, 0.0, 0.0) }
}

fn body(shape: CollisionShapes, pos: Vec3A) -> RigidBody {
    let mut trans = identity();
    trans.translation = pos;
    RigidBody {
        world_array_idx: 0,
        user_idx: UserInfoTypes::Other,
        user_pointer: 0,
        world_trans: trans,
        world_rot: Quat { x: single(0.0), y: single(0.0), z: single(0.0), w: single(1.0) },
        interp_world_trans: trans,
        lin_vel: Vec3A::zero(),
        ang_vel: Vec3A::zero(),
        accum_lin_vel: Vec3A::zero(),
        accum_ang_vel: Vec3A::zero(),
        inv_mass: single(1.0),
        inv_inertia_tensor_world: Mat3A::from_cols(vec(1.0, 0.0, 0.0), vec(0.0, 1.0, 0.0), vec(0.0, 0.0, 1.0)),
        companion_id: None,
        broadphase_handle: 0,
        collision_shape: shape,
        is_static: false,
        active: true,
        contact_response: true,
        no_angular_motion: false,
    }
}

const BALL: SphereShape = SphereShape { radius: Single { bits: 0x3f00_0000 } };

/// A box whose surface, with its margin, is `size` away from its centre.
fn car(size: Vec3A) -> CompoundShape {
    let margin = single(0.04);
    CompoundShape {
        child_shape: BoxShape { half_extents: size.minus(Vec3A::splat(margin)), margin },
        child_trans: identity(),
    }
}

fn make_pair(sphere_x: f32) -> (RigidBody, RigidBody, CompoundShape) {
    let shape = car(vec(1.0, 1.0, 1.0));
    (
        body(CollisionShapes::Sphere(BALL), vec(sphere_x, 0.0, 0.0)),
        body(CollisionShapes::Compound(shape), Vec3A::zero()),
        shape,
    )
}

fn pair_toi(sphere_x: f32, sphere_vel: Vec3A) -> Option<f32> {
    let (sphere, obb, shape) = make_pair(sphere_x);
    time_of_impact(&plain(), &sphere, &BALL, sphere_vel, &obb, &shape, Vec3A::zero(), Vec3A::zero(), single(1.0))
        .map(float)
}

#[test]
fn finds_first_crossing_even_when_sphere_exits_during_tick() {
    let toi = pair_toi(3.0, vec(-6.0, 0.0, 0.0)).unwrap();

    assert!((toi - 0.25).abs() < 1e-4, "unexpected TOI: {toi}");
}

#[test]
fn ignores_pairs_already_touching() {
    assert_eq!(pair_toi(1.5, vec(-1.0, 0.0, 0.0)), None);
}

#[test]
fn ignores_separating_pairs() {
    assert_eq!(pair_toi(3.0, vec(1.0, 0.0, 0.0)), None);
}

#[test]
fn converges_with_large_tangential_velocity() {
    let sphere = body(CollisionShapes::Sphere(BALL), vec(3.0, 0.0, 0.0));
    let shape = car(vec(1.0, 10.0, 1.0));
    let obb = body(CollisionShapes::Compound(shape), Vec3A::zero());

    let toi = float(
        time_of_impact(
            &plain(),
            &sphere,
            &BALL,
            vec(-200.0, 1000.0, 0.0),
            &obb,
            &shape,
            Vec3A::zero(),
            Vec3A::zero(),
            single(0.01),
        )
        .unwrap(),
    );

    assert!((toi - 0.0075).abs() < 1e-4, "unexpected TOI: {toi}");
}

#[test]
fn bodies_that_stand_still_have_no_impact() {
    assert_eq!(pair_toi(3.0, Vec3A::zero()), None);
    let (sphere, obb, shape) = make_pair(3.0);
    let toi = time_of_impact(
        &plain(),
        &sphere,
        &BALL,
        vec(-6.0, 0.0, 0.0),
        &obb,
        &shape,
        Vec3A::zero(),
        Vec3A::zero(),
        single(0.0),
    );
    assert_eq!(toi, None);
}

#[test]
fn at_an_impact_there_is_contact() {
    for vel in [-6.0f32, -2.5, -37.0] {
        let toi = pair_toi(3.0, vec(vel, 0.0, 0.0)).unwrap();
        assert!((0.0..=1.0).contains(&toi));
        let (_, obb, shape) = make_pair(3.0);
        let sphere = body(CollisionShapes::Sphere(BALL), vec(3.0 + vel * toi, 0.0, 0.0));
        assert!(float(separation(&sphere, &BALL, &obb, &shape)) <= 1e-6);
    }
}

#[test]
fn the_gap_of_a_pair() {
    let (sphere, obb, shape) = make_pair(3.0);
    assert!((float(separation(&sphere, &BALL, &obb, &shape)) - 1.5).abs() < 1e-6);
}

#[test]
fn a_point_inside_gets_out_by_the_closest_face() {
    let extents = vec(1.0, 2.0, 3.0);
    let face = get_sphere_penetration(extents, vec(0.25, -1.75, 0.0));
    assert_eq!(face.dist, single(0.25));
    assert_eq!(face.closest, vec(0.25, -2.0, 0.0));
    assert_eq!(face.normal, vec(0.0, -1.0, 0.0));
    let face = get_sphere_penetration(extents, vec(0.0, 0.0, 0.0));
    assert_eq!(face.dist, single(1.0));
    assert_eq!(face.normal, vec(1.0, 0.0, 0.0));
    let face = get_sphere_penetration(extents, vec(0.0, 0.0, 2.5));
    assert_eq!(face.closest, vec(0.0, 0.0, 3.0));
}

#[test]
fn a_ball_touches_a_car() {
    let (mut sphere, mut obb, shape) = make_pair(1.45);
    sphere.world_array_idx = 3;
    obb.world_array_idx = 5;
    let (manifold, told) = sphere_on_box(&plain(), &plain(), &sphere, &BALL, &obb, &shape, 10);
    let manifold = manifold.unwrap();
    assert_eq!(told, 11);
    assert_eq!((manifold.body0_idx, manifold.body1_idx), (3, 5));
    let point = manifold.point_cache[0];
    assert_eq!(point.normal_world_on_b, vec(1.0, 0.0, 0.0));
    assert!((float(point.distance_1) + 0.05).abs() < 1e-6);
    assert!((float(point.pos_world_on_b.x) - 1.0).abs() < 1e-6);

    // The centre is inside the box: it is pushed out of the closest face.
    let (inside, obb, shape) = make_pair(0.5);
    let (manifold, _) = sphere_on_box(&plain(), &plain(), &inside, &BALL, &obb, &shape, 0);
    let point = manifold.unwrap().point_cache[0];
    assert_eq!(point.normal_world_on_b, vec(1.0, 0.0, 0.0));
    assert!((float(point.distance_1) + 1.0).abs() < 1e-6);

    let (away, obb, shape) = make_pair(9.0);
    let (manifold, told) = sphere_on_box(&plain(), &plain(), &away, &BALL, &obb, &shape, 4);
    assert!(manifold.is_none());
    assert_eq!(told, 4);
}

#[test]
fn swept_sphere_finds_triangle_crossing() {
    let triangle = wall(0.0);
    let mut callback = SweptSphereTriangleCallback {
        start: vec(2.0, 0.0, 0.0),
        delta: vec(-3.0, 0.0, 0.0),
        radius: single(0.5),
        earliest: None,
    };

    callback.process_triangle(&triangle, 7, &plain());

    let contact = callback.earliest.unwrap();
    assert!((float(contact.toi) - 0.5).abs() < 1e-5);
    assert_eq!(contact.triangle_idx, 7);
    assert!((to_glam(contact.normal) - glam::Vec3A::X).length() < 1e-5);
}

#[test]
fn the_earliest_of_several_triangles_counts() {
    let sweep = SweptSphereTriangleCallback {
        start: vec(4.0, 0.0, 0.0),
        delta: vec(-8.0, 0.0, 0.0),
        radius: single(0.5),
        earliest: None,
    };
    for order in [vec![(wall(0.0), 1), (wall(1.0), 2)], vec![(wall(1.0), 2), (wall(0.0), 1)]] {
        let mut callback = sweep;
        callback.process_triangles(&plain(), &order);
        let contact = callback.earliest.unwrap();
        assert_eq!(contact.triangle_idx, 2);
        assert!((float(contact.toi) - 2.5 / 8.0).abs() < 1e-5);
    }
    let mut callback = SweptSphereTriangleCallback { delta: vec(8.0, 0.0, 0.0), ..sweep };
    callback.process_triangle(&wall(0.0), 1, &plain());
    assert!(callback.earliest.is_none());
    let mut callback = SweptSphereTriangleCallback { delta: vec(-1.0, 0.0, 0.0), ..sweep };
    callback.process_triangle(&wall(0.0), 1, &plain());
    assert!(callback.earliest.is_none());
}

#[test]
fn goal_rim_sweep_only_accepts_entering_front_contacts() {
    let post = in_bullet_units(vec(892.0, 5124.0, 300.0));
    let center = in_bullet_units(vec(880.0, 5025.0, 300.0));

    assert!(is_entering_soccar_goal_rim_contact(post, center, vec(0.0, 1.0, 0.0)));
    assert!(!is_entering_soccar_goal_rim_contact(post, center, vec(-0.0, -1.0, -0.0)));
    assert!(!is_entering_soccar_goal_rim_contact(
        in_bullet_units(vec(1400.0, 5124.0, 200.0)),
        center,
        vec(0.0, 1.0, 0.0)
    ));
}

#[test]
fn goal_sweep_rejects_tangential_and_large_advances() {
    let radius = single(2.0);
    let minus_y = vec(-0.0, -1.0, -0.0);

    assert!(can_resolve_goal_sweep(vec(0.0, 0.0, 0.0), vec(0.0, -1.0, 0.0), vec(0.0, 0.5, 0.0), radius));
    assert!(!can_resolve_goal_sweep(vec(0.0, 0.0, 0.0), vec(0.8, -0.2, 0.0), vec(0.0, 0.5, 0.0), radius));
    assert!(!can_resolve_goal_sweep(vec(0.0, 0.0, 0.0), vec(0.0, -1.0, 0.0), vec(0.0, 0.6, 0.0), radius));

    let crossbar = in_bullet_units(vec(0.0, 5124.0, 643.0));
    assert!(!can_resolve_goal_sweep(crossbar, minus_y, vec(0.0, 0.4, 0.005), radius));
    assert!(can_resolve_goal_sweep(crossbar, minus_y, vec(0.0, 0.4, 0.02), radius));

    let outside_post = in_bullet_units(vec(995.0, 5124.0, 300.0));
    assert!(!can_resolve_goal_sweep(outside_post, minus_y, vec(0.0, 0.4, 0.0), radius));

    let post_base = in_bullet_units(vec(895.0, 5100.0, 35.0));
    assert!(!can_resolve_goal_sweep(post_base, vec(0.2, -0.75, 0.6), vec(0.0, 0.4, 0.0), radius));
}

#[test]
fn goal_sweep_skips_free_flight_away_from_goal() {
    let radius = single(91.25).times(Single::of(UU_TO_BT));
    let near_post = in_bullet_units(vec(900.0, 5010.0, 300.0));

    assert!(may_reach_soccar_goal_rim(
        near_post,
        near_post.plus(in_bullet_units(vec(0.0, 20.0, 0.0))),
        radius,
    ));
    assert!(!may_reach_soccar_goal_rim(Vec3A::zero(), in_bullet_units(vec(0.0, 20.0, 0.0)), radius));
    assert!(!may_reach_soccar_goal_rim(
        near_post,
        near_post.plus(in_bullet_units(vec(0.0, 30.0, 0.0))),
        radius,
    ));
}

/// A wall across the goal line, just behind the right post.
fn goal_wall() -> TriangleShape {
    TriangleShape {
        points: [
            in_bullet_units(vec(600.0, 5124.0, 100.0)),
            in_bullet_units(vec(1100.0, 5124.0, 100.0)),
            in_bullet_units(vec(880.0, 5124.0, 600.0)),
        ],
        normal: vec(0.0, -1.0, 0.0),
    }
}

#[test]
fn a_ball_on_a_mesh() {
    let mesh = BvhTriangleMeshShape { number: 1 };
    let arena = body(CollisionShapes::TriangleMesh(mesh), Vec3A::zero());
    let ball = body(CollisionShapes::Sphere(BALL), vec(0.4, 0.0, 0.0));
    let (manifold, told) = sphere_on_mesh(&plain(), &plain(), &ball, &BALL, &arena, &mesh, 0);
    let manifold = manifold.unwrap();
    assert_eq!(told, 1);
    assert_eq!(manifold.point_cache.len(), 1);
    assert!((float(manifold.point_cache[0].distance_1) + 0.1).abs() < 1e-6);

    // Without a triangle there is nothing, and without motion nothing is swept.
    let empty = BvhTriangleMeshShape { number: 0 };
    let (manifold, told) = sphere_on_mesh(&plain(), &plain(), &ball, &BALL, &arena, &empty, 5);
    assert!(manifold.is_none());
    assert_eq!(told, 5);
}

#[test]
fn a_fast_ball_is_swept_onto_the_goal_rim() {
    let radius = single(91.25).times(Single::of(UU_TO_BT));
    let shape = SphereShape { radius };
    let mesh = BvhTriangleMeshShape { number: 1 };
    let world = Plain { triangle: goal_wall() };
    let arena = body(CollisionShapes::TriangleMesh(mesh), Vec3A::zero());
    let mut ball = body(CollisionShapes::Sphere(shape), in_bullet_units(vec(880.0, 5030.0, 300.0)));
    ball.interp_world_trans.translation = in_bullet_units(vec(880.0, 5040.0, 300.0));
    let (manifold, told) = sphere_on_mesh(&world, &world, &ball, &shape, &arena, &mesh, 0);
    let manifold = manifold.unwrap();
    assert_eq!(told, 1);
    let point = manifold.point_cache[0];
    // The contact counts as touching where the ball is now.
    assert_eq!(point.distance_1, single(0.0));
    assert_eq!(point.pos_world_on_a, point.pos_world_on_b);
    let on_ball = ball.world_trans.translation.minus(point.normal_world_on_b.scale(radius));
    assert_eq!(point.pos_world_on_a, on_ball);

    // On the way out of the goal nothing is swept.
    ball.interp_world_trans.translation = in_bullet_units(vec(880.0, 5020.0, 300.0));
    let (manifold, told) = sphere_on_mesh(&world, &world, &ball, &shape, &arena, &mesh, 0);
    assert!(manifold.is_none());
    assert_eq!(told, 0);
}
