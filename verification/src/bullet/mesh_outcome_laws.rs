//! Which contacts a sphere and a mesh are left with.
use crate::bounds::{added, near, point, sized};
use crate::bullet::body::CollisionShapes;
use crate::bullet::box_contact_laws::{plain, turned};
use crate::bullet::geometry::{Aabb, Geometry, TriangleShape};
use crate::bullet::manifold::{ManifoldPoint, Manifolds, PersistentManifold};
use crate::bullet::mesh_contact_laws::lemma_in_the_world;
use crate::bullet::sphere_concave_collision_alg::{
    entering_rim, in_game_units, near_crossbar, separated_crossbar, sweep_resolvable, SphereOnMesh, SphereTriangleCallback, SweptContact,
};
use crate::math::Vec3A;
use crate::single::Single;
use vstd::prelude::*;

verus! {

/// A contact with the crossbar is a separated one as long as none of its points touches: one more point that touches ends that, one more
/// with a gap does not, and it takes a point on the crossbar that the sphere makes on its way into the goal.
pub proof fn law_a_touch_ends_the_separation(points: Seq<ManifoldPoint>, at: ManifoldPoint, center: Vec3A, movement: Vec3A)
    ensures
        !(Single { bits: 0 }).less(at.distance_1) ==> !separated_crossbar(points.push(at), center, movement),
        (Single { bits: 0 }).less(at.distance_1) && separated_crossbar(points, center, movement) ==> separated_crossbar(
            points.push(at),
            center,
            movement,
        ),
        !separated_crossbar(Seq::empty(), center, movement),
        separated_crossbar(points.push(at), center, movement) && !separated_crossbar(points, center, movement) ==> entering_rim(
            at.pos_world_on_b,
            center,
            movement,
        ) && near_crossbar(in_game_units(at.pos_world_on_b)),
        separated_crossbar(seq![at], center, movement) <==> (Single { bits: 0 }).less(at.distance_1) && entering_rim(
            at.pos_world_on_b,
            center,
            movement,
        ) && near_crossbar(in_game_units(at.pos_world_on_b)),
{
    let more = points.push(at);
    let n = points.len() as int;
    assert(more[n] == at);
    assert(forall|i: int| 0 <= i < n ==> more[i] == points[i]);
    if separated_crossbar(points, center, movement) && (Single { bits: 0 }).less(at.distance_1) {
        assert forall|i: int| 0 <= i < more.len() implies (Single { bits: 0 }).less(#[trigger] more[i].distance_1) by {
            if i < n {
                assert((Single { bits: 0 }).less(points[i].distance_1));
            }
        }
        let k = choose|i: int|
            0 <= i < points.len() && entering_rim((#[trigger] points[i]).pos_world_on_b, center, movement) && near_crossbar(
                in_game_units(points[i].pos_world_on_b),
            );
        assert(more[k] == points[k]);
    }
    if separated_crossbar(more, center, movement) && !separated_crossbar(points, center, movement) {
        assert forall|i: int| 0 <= i < n implies (Single { bits: 0 }).less(#[trigger] points[i].distance_1) by {
            assert((Single { bits: 0 }).less(more[i].distance_1));
        }
        let k = choose|i: int|
            0 <= i < more.len() && entering_rim((#[trigger] more[i]).pos_world_on_b, center, movement) && near_crossbar(
                in_game_units(more[i].pos_world_on_b),
            );
        if k < n {
            assert(points[k] == more[k]);
        }
    }
    let one = seq![at];
    assert(one[0] == at);
}

/// A swept contact of the rim that may be resolved is resolved, as it is in the world, and no other is.
pub proof fn law_a_sweep_into_the_rim_is_resolved(pair: SphereOnMesh, contact: SweptContact) -> (there: (Vec3A, Vec3A))
    requires
        plain(pair.concave_obj.world_trans.matrix3),
        pair.concave_obj.world_trans.translation.finite(),
        sized(point(pair.concave_obj.world_trans.translation), 256real),
        contact.normal.finite() && sized(point(contact.normal), 2real),
        contact.point.finite() && sized(point(contact.point), 256real),
    ensures
        ({
            let trans = pair.concave_obj.world_trans;
            let (from, to) = (pair.convex_obj.world_trans.translation, pair.convex_obj.interp_world_trans.translation);
            let movement = to.minus(from);
            let (normal, at) = there;
            &&& near(normal, turned(trans.matrix3, point(contact.normal)), 1real / 200000real)
            &&& near(at, added(turned(trans.matrix3, point(contact.point)), point(trans.translation)), 1real / 1000real)
            &&& pair.resolved(Some(contact)) is Some <==> entering_rim(at, from, movement) && sweep_resolvable(
                at,
                normal,
                movement,
                pair.sphere_shape.radius,
            )
            &&& pair.resolved(Some(contact)) is Some ==> pair.resolved(Some(contact)) == Some(there)
        }),
{
    let trans = pair.concave_obj.world_trans;
    lemma_in_the_world(trans, contact.normal, contact.point);
    (trans.transform_vector3a(contact.normal), trans.transform_point3a(contact.point))
}

/// A sphere that has contacts with triangles around it keeps them, as they are after the points have been brought up to date, unless they are
/// those of a crossbar that it has not reached; nothing is swept then. Without contacts, and without a way to go, there is nothing to tell.
pub proof fn law_contacts_around_come_before_a_sweep<T, M: Manifolds<T>, G: Geometry>(
    pair: SphereOnMesh,
    geometry: &G,
    manifolds: &M,
    listener: T,
    outcome: Option<PersistentManifold>,
    told: T,
) -> (met: (SphereTriangleCallback<T>, PersistentManifold))
    requires
        pair.meets(geometry, manifolds, listener, outcome, told),
    ensures
        ({
            let (full, moved) = met;
            let (from, to) = (pair.convex_obj.world_trans.translation, pair.convex_obj.interp_world_trans.translation);
            &&& full.manifold.point_cache@.len() > 0 ==> {
                &&& told == full.listener
                &&& call_ensures(
                    M::refresh_contact_points,
                    (manifolds, full.manifold, &pair.convex_obj, &pair.concave_obj),
                    moved,
                )
                &&& outcome is Some ==> outcome == Some(moved)
                &&& outcome is None ==> forall|i: int|
                    0 <= i < moved.point_cache@.len() ==> (Single { bits: 0 }).less(#[trigger] moved.point_cache@[i].distance_1)
                &&& moved.point_cache@.len() == 0 ==> outcome is Some
                &&& outcome is None <==> separated_crossbar(moved.point_cache@, from, to.minus(from))
            }
            &&& full.manifold.point_cache@.len() == 0 && pair.predicted_place().translation.equals(pair.place().translation)
                ==> outcome is None && told == full.listener
            &&& full.manifold.point_cache@.len() == 0 && outcome is None && !pair.sweeps() ==> told == full.listener
        }),
{
    let (aabb, triangles, bare, full) = choose|
        aabb: Aabb,
        triangles: Vec<(TriangleShape, usize)>,
        bare: PersistentManifold,
        full: SphereTriangleCallback<T>,
    |
        call_ensures(
            G::aabb,
            (geometry, &CollisionShapes::Sphere(pair.sphere_shape), &pair.place()),
            aabb,
        ) && #[trigger] call_ensures(G::triangles, (geometry, &pair.tri_mesh, &aabb), triangles) && call_ensures(
            M::manifold,
            (manifolds, &pair.convex_obj, &pair.concave_obj),
            bare,
        ) && #[trigger] pair.gatherer(bare, listener).gathers_all(geometry, manifolds, triangles@, 0, full)
            && pair.meets_with(geometry, manifolds, aabb, full, outcome, told);
    if full.manifold.point_cache@.len() > 0 {
        let moved = choose|moved: PersistentManifold| #[trigger]
            call_ensures(M::refresh_contact_points, (manifolds, full.manifold, &pair.convex_obj, &pair.concave_obj), moved)
                && outcome == if separated_crossbar(
                moved.point_cache@,
                pair.convex_obj.world_trans.translation,
                pair.movement(),
            ) {
                None
            } else {
                Some(moved)
            };
        (full, moved)
    } else {
        (full, bare)
    }
}

} // verus!
