//! How deep a sphere is in a box, and when they are in contact.
use crate::bounds::{
    added, inner, lemma_any_length, lemma_minus, lemma_opposite, lemma_plus, lemma_times, lemma_vector_minus, lemma_vector_plus, near,
    point, sized, slack, stretched, taken,
};
use crate::bullet::body::{CompoundShape, RigidBody, SphereShape};
use crate::bullet::box_contact_laws::{
    law_normals_lead_to_the_centre, lemma_closest_face_leads, lemma_contact_from, lemma_lane, lemma_ones, lemma_outside_leads,
    lemma_seen_from_box, lemma_turn, lemma_turned_apart, lemma_turned_sum, plain, rigid, turned,
};
use crate::bullet::flight_laws::{in_box, lemma_closest_lane, lemma_square_near};
use crate::bullet::geometry::Geometry;
use crate::bullet::manifold::{Manifolds, PersistentManifold};
use crate::bullet::sphere_obb_collision_alg::{
    box_contact, closest_face, collides, face, first_face, handed_on, law_no_closer_face, touches, BoxContact, Face, MINUS_ONE,
};
use crate::consts::EPSILON;
use crate::math::{lane_within, Affine3A, Mat3A, Vec3A};
use crate::math_errors::{lemma_dot_close, lemma_length_squared};
use crate::reals::{lemma_bounded, lemma_scaled, lemma_spread, lemma_square_of_sum, lemma_swap};
use crate::single::Single;
use crate::single_errors::{lemma_constant, lemma_order, lemma_speck, real_value};
use vstd::arithmetic::power2::{lemma2_to64, lemma_pow2_adds};
use vstd::prelude::*;

verus! {

/// A sphere and a box that are close to each other, of a moderate size.
pub open spec fn moderate(center: Vec3A, radius: Single, box_trans: Affine3A, extents: Vec3A, margin: Single) -> bool {
    &&& rigid(box_trans.matrix3)
    &&& box_trans.translation.finite()
    &&& sized(point(box_trans.translation), 256real)
    &&& center.finite()
    &&& sized(taken(point(center), point(box_trans.translation)), 16real)
    &&& extents.finite()
    &&& sized(point(extents), 16real)
    &&& in_box((0real, 0real, 0real), point(extents))
    &&& radius.finite()
    &&& 0real <= real_value(radius) <= 16real
    &&& margin.finite()
    &&& 0real <= real_value(margin) <= 16real
}

/// The way from a point to the closest one of a box, and its square as it comes out.
proof fn lemma_way_to_box(local: Vec3A, extents: Vec3A, q: (real, real, real))
    requires
        local.finite(),
        sized(point(local), 100real),
        extents.finite(),
        sized(point(extents), 16real),
        in_box(q, point(extents)),
    ensures
        ({
            let closest = local.clamp(extents.negate(), extents);
            let delta = local.minus(closest);
            let (p, t) = (point(local), point(closest));
            let (y, x) = (inner(taken(p, t), taken(p, t)), inner(point(delta), point(delta)));
            let d = real_value(delta.length_squared());
            &&& closest.finite() && delta.finite() && delta.length_squared().finite()
            &&& sized(point(delta), 101real)
            &&& in_box(t, point(extents))
            &&& y <= inner(taken(p, q), taken(p, q))
            &&& 0real <= y
            &&& -6real <= 1000real * (x - y) <= 6real
            &&& 0real <= x <= 30603real
            &&& -1real <= 100real * (d - x) <= 1real
            &&& y >= 1real / 50real ==> 100real * d >= 1real
            &&& in_box(p, point(extents)) ==> 100000000real * d <= 1real && p == t
        }),
{
    let closest = local.clamp(extents.negate(), extents);
    lemma_lane(local.x, extents.x);
    lemma_lane(local.y, extents.y);
    lemma_lane(local.z, extents.z);
    let (p, t) = (point(local), point(closest));
    lemma_closest_lane(local.x, extents.x, q.0);
    lemma_closest_lane(local.y, extents.y, q.1);
    lemma_closest_lane(local.z, extents.z, q.2);
    lemma_vector_minus(local, p, 0real, closest, t, 0real, 100real);
    let delta = local.minus(closest);
    let (d, w) = (point(delta), taken(p, t));
    lemma_square_near(d.0, w.0);
    lemma_square_near(d.1, w.1);
    lemma_square_near(d.2, w.2);
    lemma_square_of_sum(d.0, 0real);
    lemma_square_of_sum(d.1, 0real);
    lemma_square_of_sum(d.2, 0real);
    lemma_square_of_sum(w.0, 0real);
    lemma_square_of_sum(w.1, 0real);
    lemma_square_of_sum(w.2, 0real);
    lemma_dot_close(delta, delta, 10201real);
    lemma_length_squared(delta);
    lemma_speck();
    if in_box(p, point(extents)) {
        lemma_at_home(p.0, t.0, point(extents).0, local.x, extents.x);
        lemma_at_home(p.1, t.1, point(extents).1, local.y, extents.y);
        lemma_at_home(p.2, t.2, point(extents).2, local.z, extents.z);
        lemma_bounded(d.0, d.0, 7real / 1000000real, 7real / 1000000real);
        lemma_bounded(d.1, d.1, 7real / 1000000real, 7real / 1000000real);
        lemma_bounded(d.2, d.2, 7real / 1000000real, 7real / 1000000real);
        assert(7real / 1000000real * (7real / 1000000real) == 49real / 1000000000000real) by (nonlinear_arith);
    }
}

/// A coordinate within a box is the closest one to itself.
proof fn lemma_at_home(p: real, t: real, h: real, x: Single, extent: Single)
    requires
        x.finite(),
        extent.finite(),
        p == real_value(x),
        h == real_value(extent),
        -h <= p <= h <= 16real,
        t == real_value(lane_within(x, extent.negate(), extent)),
    ensures
        t == p,
{
    lemma_opposite(extent, h, 0real);
    lemma_order(extent.negate(), x);
    lemma_order(x, extent);
    lemma_order(extent.negate(), extent);
}

/// A sphere and a box are in contact where the centre is no farther from the box, as the box sees it, than the radius, the margin and the
/// threshold together.
pub proof fn law_contacts_are_within_reach(
    center: Vec3A,
    radius: Single,
    box_trans: Affine3A,
    extents: Vec3A,
    margin: Single,
    threshold: Single,
    q: (real, real, real),
) -> (touch: (real, real, real))
    requires
        moderate(center, radius, box_trans, extents, margin),
        threshold.finite(),
        0real <= real_value(threshold) <= 16real,
        in_box(q, point(extents)),
    ensures
        in_box(touch, point(extents)),
        ({
            let p = point(box_trans.inv_x_form(center));
            let away = inner(taken(p, touch), taken(p, touch));
            let reach = real_value(radius) + real_value(margin) + real_value(threshold);
            let contact = box_contact(center, radius, box_trans, extents, margin, threshold);
            &&& away <= inner(taken(p, q), taken(p, q))
            &&& 10real * away + 1real <= 10real * (reach * reach) ==> contact is Some
            &&& 10real * (reach * reach) + 1real <= 10real * away ==> contact is None
        }),
{
    lemma_seen_from_box(center, box_trans);
    let local = box_trans.inv_x_form(center);
    let closest = local.clamp(extents.negate(), extents);
    lemma_way_to_box(local, extents, q);
    let delta = local.minus(closest);
    let dist_sq = delta.length_squared();
    let (r, m, h) = (real_value(radius), real_value(margin), real_value(threshold));
    lemma_plus(radius, r, 0real, margin, m, 0real, 32real);
    let touching = radius.plus(margin);
    lemma_plus(touching, r + m, 32real / 16000000real, threshold, h, 0real, 48real);
    let reach = touching.plus(threshold);
    let e = 6real / 1000000real;
    assert(slack(48real, e, 48real, e) <= 1real / 1000real && (48real + e) * (48real + e) <= 2400real && (48real + e) * (48real + e)
        >= 2304real) by (nonlinear_arith)
        requires
            e == 6real / 1000000real,
    ;
    let w = r + m + h;
    lemma_times(reach, w, e, reach, w, e, 48real, 48real, 1real / 1000real);
    lemma_order(reach.times(reach), dist_sq);
    point(closest)
}

/// The depth of a contact, and the radius and the margin, is how far the centre is from the box, and the normal leads there, in the world,
/// from the closest point.
pub proof fn law_depth_tells_the_distance(
    center: Vec3A,
    radius: Single,
    box_trans: Affine3A,
    extents: Vec3A,
    margin: Single,
    threshold: Single,
    q: (real, real, real),
) -> (touch: (real, real, real))
    requires
        moderate(center, radius, box_trans, extents, margin),
        in_box(q, point(extents)),
        box_contact(center, radius, box_trans, extents, margin, threshold) is Some,
    ensures
        in_box(touch, point(extents)),
        ({
            let p = point(box_trans.inv_x_form(center));
            let way = taken(p, touch);
            let contact = box_contact(center, radius, box_trans, extents, margin, threshold)->Some_0;
            let far = real_value(contact.depth) + real_value(radius) + real_value(margin);
            &&& inner(way, way) <= inner(taken(p, q), taken(p, q))
            &&& 50real * inner(way, way) >= 1real ==> {
                &&& far > 0real
                &&& -1real <= 10real * (far * far - inner(way, way)) <= 1real
                &&& sized(taken(stretched(point(contact.normal), far), turned(box_trans.matrix3, way)), 1real / 500real)
            }
        }),
{
    lemma_seen_from_box(center, box_trans);
    let local = box_trans.inv_x_form(center);
    let closest = local.clamp(extents.negate(), extents);
    lemma_way_to_box(local, extents, q);
    let delta = local.minus(closest);
    let dist_sq = delta.length_squared();
    let (p, t) = (point(local), point(closest));
    let (way, m) = (taken(p, t), box_trans.matrix3);
    if 50real * inner(way, way) >= 1real {
        lemma2_to64();
        lemma_pow2_adds(32, 14);
        lemma_constant(EPSILON, 0x80_0000, 46, 0x4000_0000_0000);
        lemma_order(Single { bits: EPSILON }, dist_sq);
        lemma_outside_leads(local, extents);
        let dist = dist_sq.sqrt();
        let f = Face { dist, closest, normal: delta.over(dist) };
        lemma_contact_from(f, box_trans, center, radius, margin, p);
        let contact = box_contact(center, radius, box_trans, extents, margin, threshold)->Some_0;
        let far = real_value(contact.depth) + real_value(radius) + real_value(margin);
        let d = real_value(dist);
        lemma_any_length(delta);
        let x = inner(point(delta), point(delta));
        if d > 200real {
            lemma_scaled(d, 200real, d);
            lemma_swap(d, 200real);
        }
        if 100real * d < 1real {
            lemma_bounded(d, d, 1real / 100real, 1real / 100real);
            assert(1real / 100real * (1real / 100real) == 1real / 10000real) by (nonlinear_arith);
        }
        let e = far - d;
        lemma_square_of_sum(d, e);
        lemma_bounded(d, e, 200real, 2real / 100000real);
        lemma_bounded(e, e, 2real / 100000real, 2real / 100000real);
        assert(200real * (2real / 100000real) == 400real / 100000real && (2real / 100000real) * (2real / 100000real) <= 1real
            / 1000000real) by (nonlinear_arith);
        let n = point(f.normal);
        let tn = turned(m, n);
        assert(slack(2real, 0real, 2real, 0real) <= 1real / 2000000real && (2real + 0real) * (2real + 0real) == 4real)
            by (nonlinear_arith);
        lemma_turn(m, f.normal, 2real, 1real / 2000000real);
        lemma_turned_sum(m, t, n, d);
        lemma_turned_sum(m, t, way, 1real);
        let end = added(t, stretched(n, d));
        assert(added(t, stretched(way, 1real)) == p);
        lemma_turned_apart(m, end, p, 1real / 50000real);
        let v = point(contact.normal);
        lemma_normal_coordinate(v.0, tn.0, far, d);
        lemma_normal_coordinate(v.1, tn.1, far, d);
        lemma_normal_coordinate(v.2, tn.2, far, d);
    }
    t
}

proof fn lemma_normal_coordinate(n: real, turn: real, far: real, dist: real)
    requires
        -4real <= 1000000real * (n - turn) <= 4real,
        -12real <= turn <= 12real,
        -2real <= 100000real * (far - dist) <= 2real,
        0real <= dist <= 200real,
    ensures
        -13real <= 10000real * (n * far - turn * dist) <= 13real,
{
    lemma_bounded(n - turn, far, 4real / 1000000real, 201real);
    assert(4real / 1000000real * 201real == 804real / 1000000real) by (nonlinear_arith);
    lemma_bounded(turn, far - dist, 12real, 2real / 100000real);
    assert(12real * (2real / 100000real) == 24real / 100000real) by (nonlinear_arith);
    lemma_swap(n - turn, far);
    lemma_spread(far, n, turn);
    lemma_swap(far, n);
    lemma_swap(far, turn);
    lemma_spread(turn, far, dist);
}

/// How far it is from a point to a face of a box, seen from within.
pub open spec fn to_face(p: (real, real, real), h: (real, real, real), axis: int, end: bool) -> real {
    let (at, half) = if axis == 0 {
        (p.0, h.0)
    } else if axis == 1 {
        (p.1, h.1)
    } else {
        (p.2, h.2)
    };
    if end {
        half - at
    } else {
        half + at
    }
}

/// The direction out of a face of a box, in the world.
pub open spec fn out_of_face(m: Mat3A, axis: int, end: bool) -> (real, real, real) {
    let column = point(if axis == 0 {
        m.x_axis
    } else if axis == 1 {
        m.y_axis
    } else {
        m.z_axis
    });
    stretched(
        column,
        if end {
            1real
        } else {
            -1real
        },
    )
}

/// A sphere whose centre is in the box is pushed out of the closest face: the depth is the way to that face, and the radius and the margin,
/// below zero, and the normal leads out of that face in the world.
pub proof fn law_the_way_out_is_the_shortest(
    center: Vec3A,
    radius: Single,
    box_trans: Affine3A,
    extents: Vec3A,
    margin: Single,
    threshold: Single,
    axis: int,
    end: bool,
) -> (out: (int, bool))
    requires
        moderate(center, radius, box_trans, extents, margin),
        in_box(point(box_trans.inv_x_form(center)), point(extents)),
        box_contact(center, radius, box_trans, extents, margin, threshold) is Some,
        0 <= axis < 3,
    ensures
        0 <= out.0 < 3,
        ({
            let (p, h) = (point(box_trans.inv_x_form(center)), point(extents));
            let contact = box_contact(center, radius, box_trans, extents, margin, threshold)->Some_0;
            let deep = -(real_value(contact.depth) + real_value(radius) + real_value(margin));
            &&& deep <= to_face(p, h, axis, end) + 1real / 10000real
            &&& -1real <= 10000real * (deep - to_face(p, h, out.0, out.1)) <= 1real
            &&& near(contact.normal, out_of_face(box_trans.matrix3, out.0, out.1), 4real / 1000000real)
        }),
{
    lemma_seen_from_box(center, box_trans);
    let local = box_trans.inv_x_form(center);
    let (p, h, m) = (point(local), point(extents), box_trans.matrix3);
    lemma_way_to_box(local, extents, p);
    let closest = local.clamp(extents.negate(), extents);
    let dist_sq = local.minus(closest).length_squared();
    lemma2_to64();
    lemma_pow2_adds(32, 14);
    lemma_constant(EPSILON, 0x80_0000, 46, 0x4000_0000_0000);
    lemma_order(Single { bits: EPSILON }, dist_sq);
    lemma_closest_face_leads(extents, local);
    let f = closest_face(extents, local);
    let back = Face { dist: f.dist.times(Single { bits: MINUS_ONE }), ..f };
    lemma_contact_from(back, box_trans, center, radius, margin, p);
    lemma_face_distance(extents, local, 0, true);
    lemma_face_distance(extents, local, 0, false);
    lemma_face_distance(extents, local, 1, true);
    lemma_face_distance(extents, local, 1, false);
    lemma_face_distance(extents, local, 2, true);
    lemma_face_distance(extents, local, 2, false);
    law_no_closer_face(extents, local, axis, end);
    let out = if f == first_face(extents, local) {
        (0, true)
    } else if f == face(extents, local, 0, false) {
        (0, false)
    } else if f == face(extents, local, 1, true) {
        (1, true)
    } else if f == face(extents, local, 1, false) {
        (1, false)
    } else if f == face(extents, local, 2, true) {
        (2, true)
    } else {
        (2, false)
    };
    lemma_order(face(extents, local, axis, end).dist, f.dist);
    lemma_out_of_face(extents, local, m, out.0, out.1);
    out
}

/// The distance of a face as it comes out.
proof fn lemma_face_distance(extents: Vec3A, v: Vec3A, axis: int, end: bool)
    requires
        extents.finite(),
        sized(point(extents), 16real),
        v.finite(),
        sized(point(v), 100real),
        0 <= axis < 3,
    ensures
        ({
            let dist = face(extents, v, axis, end).dist;
            let back = dist.times(Single { bits: MINUS_ONE });
            &&& dist.finite() && back.finite()
            &&& -1real <= 100000real * (real_value(dist) - to_face(point(v), point(extents), axis, end)) <= 1real
            &&& -2real <= 100000real * (real_value(back) + real_value(dist)) <= 2real
        }),
{
    lemma_ones();
    let (h, x) = if axis == 0 {
        (extents.x, v.x)
    } else if axis == 1 {
        (extents.y, v.y)
    } else {
        (extents.z, v.z)
    };
    lemma_minus(h, real_value(h), 0real, x, real_value(x), 0real, 116real);
    lemma_plus(h, real_value(h), 0real, x, real_value(x), 0real, 116real);
    let dist = face(extents, v, axis, end).dist;
    let d = real_value(dist);
    assert(slack(117real, 0real, 1real, 0real) <= 1real / 100000real && (117real + 0real) * (1real + 0real) == 117real)
        by (nonlinear_arith);
    lemma_times(dist, d, 0real, Single { bits: MINUS_ONE }, -1real, 0real, 117real, 1real, 1real / 100000real);
    assert(d * -1real == -d);
}

/// The normal of a face, turned into the world.
proof fn lemma_out_of_face(extents: Vec3A, v: Vec3A, m: Mat3A, axis: int, end: bool)
    requires
        0 <= axis < 3,
    ensures
        turned(m, point(face(extents, v, axis, end).normal)) == out_of_face(m, axis, end),
        first_face(extents, v).normal == face(extents, v, 0, true).normal,
{
    lemma_ones();
    let (x, y, z) = (point(m.x_axis), point(m.y_axis), point(m.z_axis));
    lemma_nothing(x);
    lemma_nothing(y);
    lemma_nothing(z);
}

proof fn lemma_nothing(x: (real, real, real))
    ensures
        stretched(x, 0real) == (0real, 0real, 0real),
{
    assert(x.0 * 0real == 0real && x.1 * 0real == 0real && x.2 * 0real == 0real);
}

/// One map after another turns with the second what the first turned, and moves what the first moved: its axes and its origin are those of
/// the first as the second sees them into the world.
pub proof fn law_maps_follow_each_other(outer_map: Affine3A, inner_map: Affine3A)
    requires
        plain(outer_map.matrix3),
        plain(inner_map.matrix3),
        outer_map.translation.finite(),
        sized(point(outer_map.translation), 256real),
        inner_map.translation.finite(),
        sized(point(inner_map.translation), 16real),
    ensures
        ({
            let (both, m, b) = (outer_map.after(inner_map), outer_map.matrix3, inner_map.matrix3);
            &&& near(both.matrix3.x_axis, turned(m, point(b.x_axis)), 4real / 1000000real)
            &&& near(both.matrix3.y_axis, turned(m, point(b.y_axis)), 4real / 1000000real)
            &&& near(both.matrix3.z_axis, turned(m, point(b.z_axis)), 4real / 1000000real)
            &&& near(
                both.translation,
                added(turned(m, point(inner_map.translation)), point(outer_map.translation)),
                1real / 10000real,
            )
        }),
{
    let (m, b) = (outer_map.matrix3, inner_map.matrix3);
    assert(slack(2real, 0real, 2real, 0real) <= 1real / 2000000real && (2real + 0real) * (2real + 0real) == 4real)
        by (nonlinear_arith);
    lemma_turn(m, b.x_axis, 2real, 1real / 2000000real);
    lemma_turn(m, b.y_axis, 2real, 1real / 2000000real);
    lemma_turn(m, b.z_axis, 2real, 1real / 2000000real);
    assert(slack(2real, 0real, 16real, 0real) <= 3real / 1000000real && (2real + 0real) * (16real + 0real) == 32real)
        by (nonlinear_arith);
    let (v, t) = (inner_map.translation, outer_map.translation);
    lemma_turn(m, v, 16real, 3real / 1000000real);
    lemma_vector_plus(m.mul_vec3a(v), turned(m, point(v)), 25real / 1000000real, t, point(t), 0real, 352real);
}

/// A manifold comes from a contact that the listener was told of, of the sphere with the box where its body puts it: from the point of the
/// contact, the radius and the depth along the normal lead to the centre. It has points. Where there is no manifold and nothing was told,
/// nothing changed.
pub proof fn law_manifolds_come_from_contacts<T, M: Manifolds<T>, G: Geometry>(
    geometry: &G,
    manifolds: &M,
    sphere_obj: &RigidBody,
    sphere_shape: &SphereShape,
    obb_obj: &RigidBody,
    obb_shape: &CompoundShape,
    listener: T,
    outcome: Option<PersistentManifold>,
    told: T,
) -> (told_of: (PersistentManifold, BoxContact, PersistentManifold))
    requires
        collides(geometry, manifolds, sphere_obj, sphere_shape, obb_obj, obb_shape, listener, outcome, told),
        moderate(
            sphere_obj.world_trans.translation,
            sphere_shape.radius,
            obb_obj.world_trans.after(obb_shape.child_trans),
            obb_shape.child_shape.half_extents,
            obb_shape.child_shape.margin,
        ),
    ensures
        outcome is Some ==> outcome->Some_0.point_cache@.len() > 0,
        outcome is Some || told != listener ==> {
            let (bare, contact, added_to) = told_of;
            &&& call_ensures(M::manifold, (manifolds, sphere_obj, obb_obj), bare)
            &&& call_ensures(
                M::add_contact_point,
                (manifolds, bare, sphere_obj, obb_obj, contact.normal, contact.point, contact.depth, None, listener),
                (added_to, told),
            )
            &&& outcome is Some ==> call_ensures(
                M::refresh_contact_points,
                (manifolds, added_to, sphere_obj, obb_obj),
                outcome->Some_0,
            )
            &&& sized(
                taken(
                    added(
                        point(contact.point),
                        stretched(point(contact.normal), real_value(sphere_shape.radius) + real_value(contact.depth)),
                    ),
                    point(sphere_obj.world_trans.translation),
                ),
                1real / 350real,
            )
        },
{
    let trans = obb_obj.world_trans.after(obb_shape.child_trans);
    let (center, shape) = (sphere_obj.world_trans.translation, obb_shape.child_shape);
    if touches(manifolds, sphere_obj, sphere_shape, obb_obj, obb_shape, listener, outcome, told) {
        let bare = choose|bare: PersistentManifold| #[trigger]
            call_ensures(M::manifold, (manifolds, sphere_obj, obb_obj), bare) && handed_on(
                manifolds,
                bare,
                sphere_obj,
                sphere_shape,
                obb_obj,
                obb_shape,
                listener,
                outcome,
                told,
            );
        let threshold = bare.contact_breaking_threshold;
        law_normals_lead_to_the_centre(center, sphere_shape.radius, trans, shape.half_extents, shape.margin, threshold);
        match box_contact(center, sphere_shape.radius, trans, shape.half_extents, shape.margin, threshold) {
            None => (bare, arbitrary(), bare),
            Some(contact) => {
                let (added_to, moved) = choose|added_to: PersistentManifold, moved: PersistentManifold|
                    call_ensures(
                        M::add_contact_point,
                        (manifolds, bare, sphere_obj, obb_obj, contact.normal, contact.point, contact.depth, None, listener),
                        (added_to, told),
                    ) && #[trigger] call_ensures(
                        M::refresh_contact_points,
                        (manifolds, added_to, sphere_obj, obb_obj),
                        moved,
                    ) && outcome == if moved.point_cache@.len() == 0 {
                        None
                    } else {
                        Some(moved)
                    };
                (bare, contact, added_to)
            },
        }
    } else {
        arbitrary()
    }
}

} // verus!
