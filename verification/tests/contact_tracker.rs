use rocketsim::bullet::body::{CollisionShapes, RigidBody, SphereShape, UserInfoTypes};
use rocketsim::bullet::manifold::ManifoldPoint;
use rocketsim::bullet::solver_constraint::{ContactAddedCallback, ContactSolveInfo};
use rocketsim::math::{Affine3A, Mat3A, Quat, Vec3A};
use rocketsim::sim::arena::arena_contact_tracker::{ArenaContactTracker, EdgeAdjuster};
use rocketsim::single::Single;

fn single(x: f32) -> Single {
    Single::of(x.to_bits())
}

fn vec(x: f32, y: f32, z: f32) -> Vec3A {
    Vec3A::new(single(x), single(y), single(z))
}

fn identity() -> Affine3A {
    Affine3A {
        matrix3: Mat3A { x_axis: vec(1.0, 0.0, 0.0), y_axis: vec(0.0, 1.0, 0.0), z_axis: vec(0.0, 0.0, 1.0) },
        translation: Vec3A::zero(),
    }
}

/// Turns the normal up, and notes the triangle and the body in the point.
struct Upwards;

impl EdgeAdjuster for Upwards {
    fn adjust_internal_edge_contacts(
        &self,
        point: ManifoldPoint,
        body_b: &RigidBody,
        triangle_idx: usize,
    ) -> ManifoldPoint {
        ManifoldPoint {
            normal_world_on_b: vec(0.0, 0.0, 1.0),
            local_point_a: Vec3A::splat(Single::from_u64(triangle_idx as u64)),
            local_point_b: Vec3A::splat(Single::from_u64(body_b.world_array_idx as u64)),
            ..point
        }
    }
}

fn body(kind: UserInfoTypes, number: usize) -> RigidBody {
    RigidBody {
        world_array_idx: number,
        user_idx: kind,
        user_pointer: number + 100,
        world_trans: identity(),
        world_rot: Quat { x: single(0.0), y: single(0.0), z: single(0.0), w: single(1.0) },
        interp_world_trans: identity(),
        lin_vel: Vec3A::zero(),
        ang_vel: Vec3A::zero(),
        accum_lin_vel: Vec3A::zero(),
        accum_ang_vel: Vec3A::zero(),
        inv_mass: single(1.0),
        inv_inertia_tensor_world: identity().matrix3,
        companion_id: None,
        broadphase_handle: 0,
        collision_shape: CollisionShapes::Sphere(SphereShape { radius: single(1.0) }),
        is_static: false,
        active: true,
        contact_response: true,
        no_angular_motion: false,
    }
}

fn point() -> ManifoldPoint {
    ManifoldPoint {
        local_point_a: Vec3A::zero(),
        local_point_b: Vec3A::zero(),
        pos_world_on_a: vec(1.0, 2.0, 3.0),
        pos_world_on_b: vec(4.0, 5.0, 6.0),
        normal_world_on_b: vec(1.0, 0.0, 0.0),
        distance_1: single(-0.25),
        combined_friction: single(0.7),
        combined_restitution: single(0.6),
        is_special: false,
    }
}

fn added(a: UserInfoTypes, b: UserInfoTypes) -> (ArenaContactTracker<Upwards>, ManifoldPoint) {
    ArenaContactTracker::new(Upwards).callback(point(), &body(a, 1), &body(b, 2), None)
}

#[test]
fn contacts_have_the_coefficients_of_what_touches() {
    for (a, b, friction, restitution) in [
        (UserInfoTypes::Car, UserInfoTypes::Ball, 2.0, 0.0),
        (UserInfoTypes::Ball, UserInfoTypes::Car, 2.0, 0.0),
        (UserInfoTypes::Car, UserInfoTypes::Car, 0.09, 0.1),
        (UserInfoTypes::Car, UserInfoTypes::Other, 0.3, 0.3),
        (UserInfoTypes::Other, UserInfoTypes::Car, 0.3, 0.3),
        (UserInfoTypes::Ball, UserInfoTypes::Other, 0.7, 0.6),
        (UserInfoTypes::Other, UserInfoTypes::Other, 0.7, 0.6),
    ] {
        let (_, p) = added(a, b);
        assert_eq!(p.combined_friction, single(friction), "{a:?} {b:?}");
        assert_eq!(p.combined_restitution, single(restitution), "{a:?} {b:?}");
    }
}

#[test]
fn the_ball_on_the_world_is_resolved_as_a_whole() {
    assert!(added(UserInfoTypes::Ball, UserInfoTypes::Other).1.is_special);
    assert!(added(UserInfoTypes::Other, UserInfoTypes::Ball).1.is_special);
    assert!(!added(UserInfoTypes::Ball, UserInfoTypes::DropshotTile).1.is_special);
    assert!(!added(UserInfoTypes::Car, UserInfoTypes::Ball).1.is_special);
}

#[test]
fn records_tell_bodies_in_their_order() {
    let (tracker, _) = added(UserInfoTypes::Ball, UserInfoTypes::Car);
    assert_eq!(tracker.num_records(), 1);
    let record = tracker.get_record(0);
    assert!(record.is_swap);
    assert_eq!((record.rb_idx_a, record.rb_idx_b), (2, 1));
    let (tracker, _) = added(UserInfoTypes::Car, UserInfoTypes::Ball);
    let record = tracker.get_record(0);
    assert!(!record.is_swap);
    assert_eq!((record.rb_idx_a, record.rb_idx_b), (1, 2));
    assert!(added(UserInfoTypes::Other, UserInfoTypes::Car).0.get_record(0).is_swap);
    assert!(!added(UserInfoTypes::Other, UserInfoTypes::Other).0.get_record(0).is_swap);
    assert!(!added(UserInfoTypes::Car, UserInfoTypes::Car).0.get_record(0).is_swap);
}

#[test]
fn a_record_keeps_the_point_before_it_is_corrected() {
    let (mut tracker, p) = ArenaContactTracker::new(Upwards).callback(
        point(),
        &body(UserInfoTypes::Other, 8),
        &body(UserInfoTypes::Ball, 3),
        Some(5),
    );
    assert_eq!(p.normal_world_on_b, vec(0.0, 0.0, 1.0));
    assert_eq!(p.local_point_a, vec(5.0, 5.0, 5.0));
    // The mesh comes second once the bodies are in their order.
    assert_eq!(p.local_point_b, vec(8.0, 8.0, 8.0));
    let record = *tracker.get_record(0);
    assert_eq!(record.manifold_point.normal_world_on_b, vec(1.0, 0.0, 0.0));
    assert!(record.manifold_point.is_special);
    tracker.clear_records();
    assert_eq!(tracker.num_records(), 0);
}

fn solved(a: UserInfoTypes, b: UserInfoTypes) -> ArenaContactTracker<Upwards> {
    let contact = ContactSolveInfo {
        manifold_point: point(),
        normal_impulse: single(7.0),
        push_impulse: single(8.0),
        relative_velocity_before: vec(1.0, -2.0, 3.0),
        relative_velocity_after: vec(-1.0, 0.5, 0.0),
    };
    ArenaContactTracker::new(Upwards).contact_solved(contact, &body(a, 1), &body(b, 2))
}

#[test]
fn solved_contacts_of_a_car_with_the_ball_are_kept() {
    let tracker = solved(UserInfoTypes::Ball, UserInfoTypes::Car);
    let info = tracker.solved_car_ball_contacts()[0];
    assert_eq!(info.car_idx, 102);
    assert_eq!(info.contact_point, vec(50.0, 100.0, 150.0));
    assert_eq!(info.contact_normal, vec(1.0, 0.0, 0.0));
    assert_eq!(info.distance, single(-12.5));
    assert_eq!((info.normal_impulse, info.push_impulse), (single(7.0), single(8.0)));
    assert_eq!(info.relative_velocity_before, vec(50.0, -100.0, 150.0));
    assert_eq!(info.relative_velocity_after, vec(-50.0, 25.0, 0.0));

    // The other way round, everything is told from the car towards the ball.
    let mut tracker = solved(UserInfoTypes::Car, UserInfoTypes::Ball);
    let info = tracker.solved_car_ball_contacts()[0];
    assert_eq!(info.car_idx, 101);
    assert_eq!(info.contact_point, vec(200.0, 250.0, 300.0));
    assert_eq!(info.contact_normal, vec(-1.0, -0.0, -0.0));
    assert_eq!(info.relative_velocity_before, vec(-50.0, 100.0, -150.0));
    tracker.clear_solved_contacts();
    assert!(tracker.solved_car_ball_contacts().is_empty());
}

#[test]
fn other_solved_contacts_are_not_kept() {
    assert!(solved(UserInfoTypes::Car, UserInfoTypes::Car).solved_car_ball_contacts().is_empty());
    assert!(solved(UserInfoTypes::Ball, UserInfoTypes::Other).solved_car_ball_contacts().is_empty());
    assert!(!ArenaContactTracker::new(Upwards).tracks_special_contacts());
}
