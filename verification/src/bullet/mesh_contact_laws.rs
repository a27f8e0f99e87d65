//! Where the contacts of a sphere with a mesh lie.
use crate::bounds::{
    added, inner, lemma_opposite, lemma_vector_minus, lemma_vector_plus, lemma_vector_scale, near, point, sized, slack, stretched, taken,
};
use crate::bullet::box_contact_laws::{lemma_turn, plain, seen, turned};
use crate::bullet::geometry::{Geometry, SphereTriangleContact, TriangleShape};
use crate::bullet::manifold::{ManifoldPoint, Manifolds};
use crate::bullet::sphere_concave_collision_alg::{
    entering_rim, settled, sweep_resolvable, SphereOnMesh, SphereTriangleCallback, SweptContact,
};
use crate::math::{Affine3A, Vec3A};
use crate::reals::{lemma_bounded, lemma_spread};
use crate::single::Single;
use crate::single_errors::real_value;
use crate::single_laws::lemma_value;
use vstd::prelude::*;

verus! {

/// A settled point lies on the surface of the sphere: the radius along its normal leads from there to the centre. Both of its
/// positions are there, without a gap, and its normal stays.
pub proof fn law_settled_points_lie_on_the_sphere(at: ManifoldPoint, sphere: Affine3A, radius: Single, to_mesh: Affine3A)
    requires
        sphere.translation.finite() && sized(point(sphere.translation), 256real),
        at.normal_world_on_b.finite() && sized(point(at.normal_world_on_b), 2real),
        radius.finite() && 0real <= real_value(radius) <= 8real,
    ensures
        ({
            let p = settled(at, sphere, radius, to_mesh);
            let back = added(point(p.pos_world_on_b), stretched(point(p.normal_world_on_b), real_value(radius)));
            &&& sized(taken(back, point(sphere.translation)), 1real / 10000real)
            &&& p.pos_world_on_a == p.pos_world_on_b
            &&& p.normal_world_on_b == at.normal_world_on_b
            &&& real_value(p.distance_1) == 0real
            &&& p.combined_friction == at.combined_friction
            &&& p.combined_restitution == at.combined_restitution
        }),
{
    let (c, n, r) = (point(sphere.translation), point(at.normal_world_on_b), real_value(radius));
    assert(slack(2real, 0real, 8real, 0real) <= 1real / 1000000real && (2real + 0real) * (8real + 0real) == 16real && 2real * 8real
        == 16real) by (nonlinear_arith);
    lemma_vector_scale(at.normal_world_on_b, n, 0real, radius, r, 0real, 2real, 8real, 1real / 1000000real);
    lemma_bounded(n.0, r, 2real, 8real);
    lemma_bounded(n.1, r, 2real, 8real);
    lemma_bounded(n.2, r, 2real, 8real);
    lemma_vector_minus(
        sphere.translation,
        c,
        0real,
        at.normal_world_on_b.scale(radius),
        stretched(n, r),
        1real / 1000000real,
        272real,
    );
    lemma_value(Single { bits: 0 });
}

/// A normal or a point of a mesh, in the world.
pub proof fn lemma_in_the_world(trans: Affine3A, normal: Vec3A, at: Vec3A)
    requires
        plain(trans.matrix3),
        trans.translation.finite() && sized(point(trans.translation), 256real),
        normal.finite() && sized(point(normal), 2real),
        at.finite() && sized(point(at), 256real),
    ensures
        near(trans.transform_vector3a(normal), turned(trans.matrix3, point(normal)), 1real / 200000real),
        near(
            trans.transform_point3a(at),
            added(turned(trans.matrix3, point(at)), point(trans.translation)),
            1real / 1000real,
        ),
{
    let m = trans.matrix3;
    assert(slack(2real, 0real, 2real, 0real) <= 1real / 1000000real && (2real + 0real) * (2real + 0real) == 4real)
        by (nonlinear_arith);
    lemma_turn(m, normal, 2real, 1real / 1000000real);
    assert(slack(2real, 0real, 256real, 0real) <= 1real / 25000real && (2real + 0real) * (256real + 0real) == 512real)
        by (nonlinear_arith);
    lemma_turn(m, at, 256real, 1real / 25000real);
    lemma_vector_plus(
        m.mul_vec3a(at),
        turned(m, point(at)),
        4real / 10000real,
        trans.translation,
        point(trans.translation),
        0real,
        1792real,
    );
}

/// A contact with a triangle is added to the manifold as it is in the world: its normal turned with the mesh, its point turned and
/// moved with it, and as deep. Nothing but the manifold and the listener changes; and without a contact not even these.
pub proof fn law_gathered_contacts_are_in_the_world<T, M: Manifolds<T>, G: Geometry>(
    gatherer: SphereTriangleCallback<T>,
    geometry: &G,
    manifolds: &M,
    triangle: &TriangleShape,
    triangle_idx: usize,
    next: SphereTriangleCallback<T>,
) -> (r: (Option<SphereTriangleContact>, Vec3A, Vec3A))
    requires
        gatherer.gathers(geometry, manifolds, triangle, triangle_idx, next),
        plain(gatherer.tri_obj.world_trans.matrix3),
        gatherer.tri_obj.world_trans.translation.finite(),
        sized(point(gatherer.tri_obj.world_trans.translation), 256real),
    ensures
        call_ensures(
            G::intersect_sphere,
            (
                geometry,
                triangle,
                gatherer.sphere_center,
                gatherer.sphere_radius,
                gatherer.manifold.contact_breaking_threshold,
            ),
            r.0,
        ),
        r.0 is None ==> next == gatherer,
        next.convex_obj == gatherer.convex_obj,
        next.tri_obj == gatherer.tri_obj,
        next.sphere_center == gatherer.sphere_center,
        next.sphere_radius == gatherer.sphere_radius,
        r.0 matches Some(contact) ==> {
            let trans = gatherer.tri_obj.world_trans;
            &&& call_ensures(
                M::add_contact_point,
                (
                    manifolds,
                    gatherer.manifold,
                    &gatherer.convex_obj,
                    &gatherer.tri_obj,
                    r.1,
                    r.2,
                    contact.depth,
                    Some(triangle_idx),
                    gatherer.listener,
                ),
                (next.manifold, next.listener),
            )
            &&& contact.result_normal.finite() && sized(point(contact.result_normal), 2real) && contact.contact_point.finite()
                && sized(point(contact.contact_point), 256real) ==> {
                &&& near(r.1, turned(trans.matrix3, point(contact.result_normal)), 1real / 200000real)
                &&& near(
                    r.2,
                    added(turned(trans.matrix3, point(contact.contact_point)), point(trans.translation)),
                    1real / 1000real,
                )
            }
        },
{
    let hit = choose|hit: Option<SphereTriangleContact>| #[trigger]
        call_ensures(
            G::intersect_sphere,
            (
                geometry,
                triangle,
                gatherer.sphere_center,
                gatherer.sphere_radius,
                gatherer.manifold.contact_breaking_threshold,
            ),
            hit,
        ) && match hit {
            None => next == gatherer,
            Some(contact) => call_ensures(
                M::add_contact_point,
                (
                    manifolds,
                    gatherer.manifold,
                    &gatherer.convex_obj,
                    &gatherer.tri_obj,
                    gatherer.tri_obj.world_trans.transform_vector3a(contact.result_normal),
                    gatherer.tri_obj.world_trans.transform_point3a(contact.contact_point),
                    contact.depth,
                    Some(triangle_idx),
                    gatherer.listener,
                ),
                (next.manifold, next.listener),
            ) && next == (SphereTriangleCallback { manifold: next.manifold, listener: next.listener, ..gatherer }),
        };
    match hit {
        None => (hit, Vec3A::zero(), Vec3A::zero()),
        Some(contact) => {
            let trans = gatherer.tri_obj.world_trans;
            if contact.result_normal.finite() && sized(point(contact.result_normal), 2real) && contact.contact_point.finite()
                && sized(point(contact.contact_point), 256real) {
                lemma_in_the_world(trans, contact.result_normal, contact.contact_point);
            }
            (hit, trans.transform_vector3a(contact.result_normal), trans.transform_point3a(contact.contact_point))
        },
    }
}

/// A swept contact is resolved only where it is one of the rim on entering that a sweep may resolve, as judged by its normal and its
/// point in the world; and it is resolved with these. Without a contact there is nothing to resolve.
pub proof fn law_resolved_sweeps_are_in_the_world(pair: SphereOnMesh, earliest: Option<SweptContact>)
    requires
        plain(pair.concave_obj.world_trans.matrix3),
        pair.concave_obj.world_trans.translation.finite(),
        sized(point(pair.concave_obj.world_trans.translation), 256real),
        earliest matches Some(contact) ==> contact.normal.finite() && sized(point(contact.normal), 2real)
            && contact.point.finite() && sized(point(contact.point), 256real),
    ensures
        earliest is None ==> pair.resolved(earliest) is None,
        pair.resolved(earliest) matches Some((normal, at)) ==> {
            let (contact, trans) = (earliest->Some_0, pair.concave_obj.world_trans);
            let (from, to) = (pair.convex_obj.world_trans.translation, pair.convex_obj.interp_world_trans.translation);
            &&& near(normal, turned(trans.matrix3, point(contact.normal)), 1real / 200000real)
            &&& near(at, added(turned(trans.matrix3, point(contact.point)), point(trans.translation)), 1real / 1000real)
            &&& entering_rim(at, from, to.minus(from))
            &&& sweep_resolvable(at, normal, to.minus(from), pair.sphere_shape.radius)
        },
{
    if let Some(contact) = earliest {
        lemma_in_the_world(pair.concave_obj.world_trans, contact.normal, contact.point);
    }
}

/// A place as the mesh sees it.
pub proof fn lemma_seen(trans: Affine3A, at: Vec3A)
    requires
        plain(trans.matrix3),
        trans.translation.finite() && sized(point(trans.translation), 256real),
        at.finite() && sized(point(at), 256real),
    ensures
        near(
            trans.transpose().transform_point3a(at),
            seen(trans.matrix3, taken(point(at), point(trans.translation))),
            1real / 1000real,
        ),
        sized(seen(trans.matrix3, taken(point(at), point(trans.translation))), 3072real),
{
    let m = trans.matrix3;
    let t = m.transpose();
    let back = trans.translation.negate();
    let (a, b, c) = (point(at), point(back), point(trans.translation));
    lemma_opposite(trans.translation.x, c.0, 0real);
    lemma_opposite(trans.translation.y, c.1, 0real);
    lemma_opposite(trans.translation.z, c.2, 0real);
    assert(slack(2real, 0real, 256real, 0real) <= 1real / 25000real && (2real + 0real) * (256real + 0real) == 512real)
        by (nonlinear_arith);
    lemma_turn(t, at, 256real, 1real / 25000real);
    lemma_turn(t, back, 256real, 1real / 25000real);
    assert(turned(t, a) == seen(m, a) && turned(t, b) == seen(m, b));
    lemma_vector_plus(
        t.mul_vec3a(at),
        seen(m, a),
        4real / 10000real,
        t.mul_vec3a(back),
        seen(m, b),
        4real / 10000real,
        3072real,
    );
    lemma_seen_apart(point(m.x_axis), a, c);
    lemma_seen_apart(point(m.y_axis), a, c);
    lemma_seen_apart(point(m.z_axis), a, c);
}

proof fn lemma_seen_apart(x: (real, real, real), a: (real, real, real), c: (real, real, real))
    ensures
        inner(x, a) + inner(x, (-c.0, -c.1, -c.2)) == inner(x, taken(a, c)),
{
    lemma_spread(x.0, a.0, c.0);
    lemma_spread(x.1, a.1, c.1);
    lemma_spread(x.2, a.2, c.2);
    lemma_spread(x.0, c.0, c.0);
    lemma_spread(x.1, c.1, c.1);
    lemma_spread(x.2, c.2, c.2);
}

/// A sweep starts where the mesh sees the sphere and goes, with the radius of the sphere, the way that the mesh sees the sphere go: from
/// where it is to where it is predicted to be.
pub proof fn law_sweeps_follow_the_sphere(pair: SphereOnMesh)
    requires
        plain(pair.concave_obj.world_trans.matrix3),
        pair.concave_obj.world_trans.translation.finite(),
        sized(point(pair.concave_obj.world_trans.translation), 256real),
        pair.convex_obj.world_trans.translation.finite(),
        sized(point(pair.convex_obj.world_trans.translation), 256real),
        pair.convex_obj.interp_world_trans.translation.finite(),
        sized(point(pair.convex_obj.interp_world_trans.translation), 256real),
    ensures
        ({
            let mesh = pair.concave_obj.world_trans;
            let (from, to) = (
                point(pair.convex_obj.world_trans.translation),
                point(pair.convex_obj.interp_world_trans.translation),
            );
            let sweep = pair.sweep();
            &&& near(sweep.start, seen(mesh.matrix3, taken(from, point(mesh.translation))), 1real / 1000real)
            &&& near(sweep.delta, seen(mesh.matrix3, taken(to, from)), 1real / 200real)
            &&& sweep.radius == pair.sphere_shape.radius
            &&& sweep.earliest is None
        }),
{
    let mesh = pair.concave_obj.world_trans;
    let (p, q) = (pair.convex_obj.world_trans.translation, pair.convex_obj.interp_world_trans.translation);
    let (from, to, c) = (point(p), point(q), point(mesh.translation));
    lemma_seen(mesh, p);
    lemma_seen(mesh, q);
    let m = mesh.matrix3;
    let (u, v) = (seen(m, taken(from, c)), seen(m, taken(to, c)));
    lemma_seen_between(point(m.x_axis), to, from, c);
    lemma_seen_between(point(m.y_axis), to, from, c);
    lemma_seen_between(point(m.z_axis), to, from, c);
    lemma_vector_minus(
        pair.predicted_place().translation,
        v,
        1real / 1000real,
        pair.place().translation,
        u,
        1real / 1000real,
        6144real,
    );
}

proof fn lemma_seen_between(x: (real, real, real), a: (real, real, real), b: (real, real, real), c: (real, real, real))
    ensures
        inner(x, taken(a, c)) - inner(x, taken(b, c)) == inner(x, taken(a, b)),
{
    lemma_spread(x.0, a.0, c.0);
    lemma_spread(x.1, a.1, c.1);
    lemma_spread(x.2, a.2, c.2);
    lemma_spread(x.0, b.0, c.0);
    lemma_spread(x.1, b.1, c.1);
    lemma_spread(x.2, b.2, c.2);
    lemma_spread(x.0, a.0, b.0);
    lemma_spread(x.1, a.1, b.1);
    lemma_spread(x.2, a.2, b.2);
}

} // verus!
