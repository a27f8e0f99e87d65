//! Contacts of a sphere with a box, and when they begin.
use crate::bullet::body::{CollisionShapes, CompoundShape, RigidBody, SphereShape};
use crate::bullet::geometry::{Aabb, Geometry};
use crate::bullet::manifold::{Manifolds, PersistentManifold};
use crate::consts::EPSILON;
use crate::math::{Affine3A, Quat, Vec3A};
use crate::single::{Single, ONE_BITS};
use crate::single_laws::{law_middle_lies_between, law_sum_of_positives};
use vstd::prelude::*;

verus! {

/// How often a search for an impact advances.
pub const TOI_MAX_ITERATIONS: u32 = 128;

/// A gap that counts as contact, 0.000001.
pub const TOI_DISTANCE_EPSILON: u32 = 0x3586_37bd;

/// The least time by which a search for an impact advances, 0.000001.
pub const TOI_TIME_EPSILON: u32 = 0x3586_37bd;

/// How often the time of an impact is narrowed down to a half.
pub const TOI_BISECTIONS: u32 = 16;

/// One half.
pub const HALF: u32 = 0x3f00_0000;

/// Minus one.
pub const MINUS_ONE: u32 = 0xbf80_0000;

/// The gap between a sphere and a box, negative by no more than the radius and the margin.
pub open spec fn gap(sphere_pos: Vec3A, radius: Single, obb_trans: Affine3A, obb_shape: &CompoundShape) -> Single {
    let local = obb_trans.after(obb_shape.child_trans).inv_x_form(sphere_pos);
    let extents = obb_shape.child_shape.half_extents;
    local.minus(local.clamp(extents.negate(), extents)).length().minus(radius).minus(obb_shape.child_shape.margin)
}

pub fn separation_at_transforms(
    sphere_pos: Vec3A,
    radius: Single,
    obb_trans: Affine3A,
    obb_shape: &CompoundShape,
) -> (r: Single)
    ensures
        r == gap(sphere_pos, radius, obb_trans, obb_shape),
{
    let child_world_trans = obb_trans.after(obb_shape.child_trans);
    let sphere_from_local = child_world_trans.inv_x_form(sphere_pos);
    let box_extents = obb_shape.child_shape.half_extents;
    let closest = sphere_from_local.clamp(box_extents.negate(), box_extents);
    let center_distance = sphere_from_local.minus(closest).length();
    center_distance.minus(radius).minus(obb_shape.child_shape.margin)
}

pub fn separation(
    sphere_obj: &RigidBody,
    sphere_shape: &SphereShape,
    obb_obj: &RigidBody,
    obb_shape: &CompoundShape,
) -> (r: Single)
    ensures
        r == gap(sphere_obj.world_trans.translation, sphere_shape.radius, obb_obj.world_trans, obb_shape),
{
    separation_at_transforms(
        sphere_obj.world_trans.translation,
        sphere_shape.radius,
        obb_obj.world_trans,
        obb_shape,
    )
}

/// A sphere and a box on their way.
#[derive(Clone, Copy, Debug)]
pub struct Flight {
    pub sphere_start: Vec3A,
    pub sphere_lin_vel: Vec3A,
    pub radius: Single,
    pub obb_start: Affine3A,
    pub obb_start_rot: Quat,
    pub obb_lin_vel: Vec3A,
    pub obb_ang_vel: Vec3A,
    pub obb_shape: CompoundShape,
}

/// What comes of one advance of a search for an impact.
#[derive(Clone, Copy, Debug)]
pub enum Approach {
    /// There is contact at the end of the advance.
    Contact,
    /// There is none within the time.
    Miss,
    /// The search may go on from there.
    GoOn,
}

/// What a gap of `separation` at the time `next` means.
pub open spec fn approached(separation: Single, next: Single, time_step: Single) -> Approach {
    if separation.at_most(Single { bits: TOI_DISTANCE_EPSILON }) {
        Approach::Contact
    } else if time_step.at_most(next) {
        Approach::Miss
    } else {
        Approach::GoOn
    }
}

pub fn approach(separation: Single, next: Single, time_step: Single) -> (r: Approach)
    ensures
        r == approached(separation, next, time_step),
{
    if separation.le(Single::of(TOI_DISTANCE_EPSILON)) {
        Approach::Contact
    } else if next.ge(time_step) {
        Approach::Miss
    } else {
        Approach::GoOn
    }
}

impl Flight {
    /// No point of the sphere and the box can close in on another faster than this.
    pub open spec fn speed_limit(self) -> Single {
        let shape = self.obb_shape.child_shape;
        let box_radius = self.obb_shape.child_trans.translation.length().plus(
            shape.half_extents.plus(Vec3A::splat(shape.margin)).length(),
        );
        self.sphere_lin_vel.minus(self.obb_lin_vel).length().plus(self.obb_ang_vel.length().times(box_radius))
    }

    pub fn speed_bound(&self) -> (r: Single)
        ensures
            r == self.speed_limit(),
    {
        let shape = self.obb_shape.child_shape;
        let box_radius = self.obb_shape.child_trans.translation.length().plus(
            shape.half_extents.plus(Vec3A::splat(shape.margin)).length(),
        );
        self.sphere_lin_vel.minus(self.obb_lin_vel).length().plus(self.obb_ang_vel.length().times(box_radius))
    }

    /// The gap at a time, when the box is at `obb_trans`.
    pub open spec fn gap_with(self, time: Single, obb_trans: Affine3A) -> Single {
        gap(self.sphere_start.plus(self.sphere_lin_vel.scale(time)), self.radius, obb_trans, &self.obb_shape)
    }

    /// The gap at a time may be `separation`.
    pub open spec fn separated<G: Geometry>(self, geometry: &G, time: Single, separation: Single) -> bool {
        exists|end: (Affine3A, Quat)| #[trigger]
            call_ensures(
                G::integrate_trans,
                (geometry, self.obb_start, self.obb_start_rot, self.obb_lin_vel, self.obb_ang_vel, time),
                end,
            ) && separation == self.gap_with(time, end.0)
    }

    pub fn separation_at<G: Geometry>(&self, geometry: &G, time: Single) -> (r: Single)
        ensures
            self.separated(geometry, time, r),
    {
        let sphere_pos = self.sphere_start.plus(self.sphere_lin_vel.scale(time));
        let end = geometry.integrate_trans(
            self.obb_start,
            self.obb_start_rot,
            self.obb_lin_vel,
            self.obb_ang_vel,
            time,
        );
        separation_at_transforms(sphere_pos, self.radius, end.0, &self.obb_shape)
    }

    /// The time to look at next: a gap takes at least as long to close as the speed limit says.
    pub open spec fn next_time(self, lower: Single, separation: Single, time_step: Single) -> Single {
        lower.plus(separation.over(self.speed_limit()).greater_of(Single { bits: TOI_TIME_EPSILON })).smaller_of(
            time_step,
        )
    }

    /// From the time `lower` with a gap of `separation`, at most `advances` advances find
    /// `found`: a time without contact and a later one with contact.
    pub open spec fn closes_in<G: Geometry>(
        self,
        geometry: &G,
        time_step: Single,
        lower: Single,
        separation: Single,
        advances: nat,
        found: Option<(Single, Single)>,
    ) -> bool
        decreases advances,
    {
        if advances == 0 {
            found is None
        } else {
            let next = self.next_time(lower, separation, time_step);
            exists|gap: Single| #[trigger]
                self.separated(geometry, next, gap) && match approached(gap, next, time_step) {
                    Approach::Contact => found == Some((lower, next)),
                    Approach::Miss => found is None,
                    Approach::GoOn => self.closes_in(
                        geometry,
                        time_step,
                        next,
                        gap,
                        (advances - 1) as nat,
                        found,
                    ),
                }
        }
    }

    /// Halving the time between `lower` and `upper` leads to `time`.
    pub open spec fn narrows<G: Geometry>(
        self,
        geometry: &G,
        lower: Single,
        upper: Single,
        bisections: nat,
        time: Single,
    ) -> bool
        decreases bisections,
    {
        if bisections == 0 {
            time == upper
        } else {
            let middle = (Single { bits: HALF }).times(lower.plus(upper));
            exists|gap: Single| #[trigger]
                self.separated(geometry, middle, gap) && if (Single { bits: TOI_DISTANCE_EPSILON }).less(gap) {
                    self.narrows(geometry, middle, upper, (bisections - 1) as nat, time)
                } else {
                    self.narrows(geometry, lower, middle, (bisections - 1) as nat, time)
                }
        }
    }

    /// The first contact within a time comes at `impact`, or there is none. Bodies that already
    /// touch, or stand still, have none.
    pub open spec fn impacts<G: Geometry>(self, geometry: &G, time_step: Single, impact: Option<Single>) -> bool {
        exists|start: Single| #[trigger]
            self.separated(geometry, Single { bits: 0 }, start) && if start.at_most(
                Single { bits: TOI_DISTANCE_EPSILON },
            ) || time_step.at_most(Single { bits: 0 }) || self.speed_limit().at_most(Single { bits: EPSILON }) {
                impact is None
            } else {
                exists|found: Option<(Single, Single)>| #[trigger]
                    self.closes_in(
                        geometry,
                        time_step,
                        Single { bits: 0 },
                        start,
                        TOI_MAX_ITERATIONS as nat,
                        found,
                    ) && match found {
                        None => impact is None,
                        Some((lower, upper)) => impact is Some && self.narrows(
                            geometry,
                            lower,
                            upper,
                            TOI_BISECTIONS as nat,
                            impact->Some_0,
                        ),
                    }
            }
    }

    /// Advances until there is contact or the time is over.
    fn close_in<G: Geometry>(&self, geometry: &G, time_step: Single, start: Single) -> (r: Option<(Single, Single)>)
        ensures
            self.closes_in(geometry, time_step, Single { bits: 0 }, start, TOI_MAX_ITERATIONS as nat, r),
    {
        let speed_bound = self.speed_bound();
        let ghost zero = Single { bits: 0 };
        let mut lower = Single::zero();
        let mut separation = start;
        let mut left: u32 = TOI_MAX_ITERATIONS;
        while left > 0
            invariant
                left <= TOI_MAX_ITERATIONS,
                speed_bound == self.speed_limit(),
                zero == (Single { bits: 0 }),
                forall|found: Option<(Single, Single)>| #[trigger]
                    self.closes_in(geometry, time_step, lower, separation, left as nat, found) ==> self.closes_in(
                        geometry,
                        time_step,
                        zero,
                        start,
                        TOI_MAX_ITERATIONS as nat,
                        found,
                    ),
            decreases left,
        {
            let advance = separation.over(speed_bound).max(Single::of(TOI_TIME_EPSILON));
            let next = lower.plus(advance).min(time_step);
            let next_separation = self.separation_at(geometry, next);
            match approach(next_separation, next, time_step) {
                Approach::Contact => {
                    proof {
                        assert(self.closes_in(
                            geometry,
                            time_step,
                            lower,
                            separation,
                            left as nat,
                            Some((lower, next)),
                        ));
                    }
                    return Some((lower, next));
                },
                Approach::Miss => {
                    proof {
                        assert(self.closes_in(geometry, time_step, lower, separation, left as nat, None));
                    }
                    return None;
                },
                Approach::GoOn => {
                    let ghost here = lower;
                    let ghost there = separation;
                    let ghost ahead = left as nat;
                    lower = next;
                    separation = next_separation;
                    left = left - 1;
                    proof {
                        assert forall|found: Option<(Single, Single)>| #[trigger]
                            self.closes_in(
                                geometry,
                                time_step,
                                lower,
                                separation,
                                left as nat,
                                found,
                            ) implies self.closes_in(
                            geometry,
                            time_step,
                            zero,
                            start,
                            TOI_MAX_ITERATIONS as nat,
                            found,
                        ) by {
                            assert(self.closes_in(geometry, time_step, here, there, ahead, found));
                        }
                    }
                },
            }
        }
        proof {
            assert(self.closes_in(geometry, time_step, lower, separation, 0, None));
        }
        None
    }

    fn narrow<G: Geometry>(&self, geometry: &G, from: Single, to: Single) -> (r: Single)
        ensures
            self.narrows(geometry, from, to, TOI_BISECTIONS as nat, r),
    {
        let mut lower = from;
        let mut upper = to;
        let mut left: u32 = TOI_BISECTIONS;
        while left > 0
            invariant
                left <= TOI_BISECTIONS,
                forall|time: Single| #[trigger]
                    self.narrows(geometry, lower, upper, left as nat, time) ==> self.narrows(
                        geometry,
                        from,
                        to,
                        TOI_BISECTIONS as nat,
                        time,
                    ),
            decreases left,
        {
            let middle = Single::of(HALF).times(lower.plus(upper));
            let gap = self.separation_at(geometry, middle);
            let ghost low = lower;
            let ghost high = upper;
            let ghost ahead = left as nat;
            if gap.gt(Single::of(TOI_DISTANCE_EPSILON)) {
                lower = middle;
            } else {
                upper = middle;
            }
            left = left - 1;
            proof {
                assert forall|time: Single| #[trigger]
                    self.narrows(geometry, lower, upper, left as nat, time) implies self.narrows(
                    geometry,
                    from,
                    to,
                    TOI_BISECTIONS as nat,
                    time,
                ) by {
                    assert(middle == (Single { bits: HALF }).times(low.plus(high)));
                    assert(self.separated(geometry, middle, gap));
                    assert(self.narrows(geometry, low, high, ahead, time));
                }
            }
        }
        proof {
            assert(self.narrows(geometry, lower, upper, 0, upper));
        }
        upper
    }

    pub fn impact<G: Geometry>(&self, geometry: &G, time_step: Single) -> (r: Option<Single>)
        ensures
            self.impacts(geometry, time_step, r),
    {
        let start = self.separation_at(geometry, Single::zero());
        proof {
            assert(self.separated(geometry, Single { bits: 0 }, start));
        }
        if start.le(Single::of(TOI_DISTANCE_EPSILON)) || time_step.le(Single::zero()) {
            return None;
        }
        if self.speed_bound().le(Single::of(EPSILON)) {
            return None;
        }
        let found = self.close_in(geometry, time_step, start);
        match found {
            None => None,
            Some((lower, upper)) => Some(self.narrow(geometry, lower, upper)),
        }
    }
}

/// The flight of two bodies with given velocities.
pub open spec fn flight_of(
    sphere_obj: &RigidBody,
    sphere_shape: &SphereShape,
    sphere_lin_vel: Vec3A,
    obb_obj: &RigidBody,
    obb_shape: &CompoundShape,
    obb_lin_vel: Vec3A,
    obb_ang_vel: Vec3A,
) -> Flight {
    Flight {
        sphere_start: sphere_obj.world_trans.translation,
        sphere_lin_vel,
        radius: sphere_shape.radius,
        obb_start: obb_obj.world_trans,
        obb_start_rot: obb_obj.world_rot,
        obb_lin_vel,
        obb_ang_vel,
        obb_shape: *obb_shape,
    }
}

/// When a sphere first touches a box, within a time.
pub fn time_of_impact<G: Geometry>(
    geometry: &G,
    sphere_obj: &RigidBody,
    sphere_shape: &SphereShape,
    sphere_lin_vel: Vec3A,
    obb_obj: &RigidBody,
    obb_shape: &CompoundShape,
    obb_lin_vel: Vec3A,
    obb_ang_vel: Vec3A,
    time_step: Single,
) -> (r: Option<Single>)
    ensures
        flight_of(
            sphere_obj,
            sphere_shape,
            sphere_lin_vel,
            obb_obj,
            obb_shape,
            obb_lin_vel,
            obb_ang_vel,
        ).impacts(geometry, time_step, r),
{
    let flight = Flight {
        sphere_start: sphere_obj.world_trans.translation,
        sphere_lin_vel,
        radius: sphere_shape.radius,
        obb_start: obb_obj.world_trans,
        obb_start_rot: obb_obj.world_rot,
        obb_lin_vel,
        obb_ang_vel,
        obb_shape: *obb_shape,
    };
    flight.impact(geometry, time_step)
}

/// A face of a box, as seen from a point inside: how far it is, its closest point and its
/// normal.
#[derive(Clone, Copy, Debug, PartialEq, Eq, Structural)]
pub struct Face {
    pub dist: Single,
    pub closest: Vec3A,
    pub normal: Vec3A,
}

impl Face {
    /// `other` if it is closer.
    #[verifier::allow_in_spec]
    pub fn or_closer(self, other: Face) -> (r: Face)
        returns
            (if other.dist.less(self.dist) {
                other
            } else {
                self
            }),
    {
        if other.dist.lt(self.dist) {
            other
        } else {
            self
        }
    }
}

/// The face across an axis, 0 to 2, at the far end or the near end.
pub open spec fn face(extents: Vec3A, point: Vec3A, axis: int, far: bool) -> Face {
    let sign = Single { bits: if far { ONE_BITS } else { MINUS_ONE } };
    let zero = Vec3A::zero();
    if axis == 0 {
        Face {
            dist: if far { extents.x.minus(point.x) } else { extents.x.plus(point.x) },
            closest: Vec3A { x: extents.x.times(sign), ..point },
            normal: Vec3A { x: sign, ..zero },
        }
    } else if axis == 1 {
        Face {
            dist: if far { extents.y.minus(point.y) } else { extents.y.plus(point.y) },
            closest: Vec3A { y: extents.y.times(sign), ..point },
            normal: Vec3A { y: sign, ..zero },
        }
    } else {
        Face {
            dist: if far { extents.z.minus(point.z) } else { extents.z.plus(point.z) },
            closest: Vec3A { z: extents.z.times(sign), ..point },
            normal: Vec3A { z: sign, ..zero },
        }
    }
}

/// The far end of the first axis, taken as it is rather than times 1.
pub open spec fn first_face(extents: Vec3A, point: Vec3A) -> Face {
    Face {
        dist: extents.x.minus(point.x),
        closest: Vec3A { x: extents.x, ..point },
        normal: Vec3A { x: Single { bits: ONE_BITS }, ..Vec3A::zero() },
    }
}

/// The closest face, and the first of them in the order of the axes, the far end of each before
/// the near one.
pub open spec fn closest_face(extents: Vec3A, point: Vec3A) -> Face {
    first_face(extents, point).or_closer(face(extents, point, 0, false)).or_closer(
        face(extents, point, 1, true),
    ).or_closer(face(extents, point, 1, false)).or_closer(face(extents, point, 2, true)).or_closer(
        face(extents, point, 2, false),
    )
}

/// How a point inside a box gets out: by which distance, to which point and along which normal.
pub fn get_sphere_penetration(box_extents: Vec3A, sphere_from_local: Vec3A) -> (r: Face)
    ensures
        r == closest_face(box_extents, sphere_from_local),
{
    let one = Single::one();
    let minus_one = Single::of(MINUS_ONE);
    let zero = Vec3A::zero();
    let p = sphere_from_local;
    let e = box_extents;
    Face { dist: e.x.minus(p.x), closest: Vec3A { x: e.x, ..p }, normal: Vec3A { x: one, ..zero } }.or_closer(
        Face {
            dist: e.x.plus(p.x),
            closest: Vec3A { x: e.x.times(minus_one), ..p },
            normal: Vec3A { x: minus_one, ..zero },
        },
    ).or_closer(
        Face {
            dist: e.y.minus(p.y),
            closest: Vec3A { y: e.y.times(one), ..p },
            normal: Vec3A { y: one, ..zero },
        },
    ).or_closer(
        Face {
            dist: e.y.plus(p.y),
            closest: Vec3A { y: e.y.times(minus_one), ..p },
            normal: Vec3A { y: minus_one, ..zero },
        },
    ).or_closer(
        Face {
            dist: e.z.minus(p.z),
            closest: Vec3A { z: e.z.times(one), ..p },
            normal: Vec3A { z: one, ..zero },
        },
    ).or_closer(
        Face {
            dist: e.z.plus(p.z),
            closest: Vec3A { z: e.z.times(minus_one), ..p },
            normal: Vec3A { z: minus_one, ..zero },
        },
    )
}

/// No face of a box is closer than the one by which a point gets out.
pub proof fn law_no_closer_face(extents: Vec3A, point: Vec3A, axis: int, far: bool)
    requires
        0 <= axis < 3,
    ensures
        !face(extents, point, axis, far).dist.less(closest_face(extents, point).dist),
{
}

/// Where a sphere touches a box.
#[derive(Clone, Copy, Debug, PartialEq, Eq, Structural)]
pub struct BoxContact {
    pub normal: Vec3A,
    pub point: Vec3A,
    pub depth: Single,
}

/// The contact of a sphere with a box whose shape is at `box_trans`, if they are within
/// `threshold`. A centre outside the box is pushed away from the closest point, one inside (or on
/// the surface) out of the closest face; the contact is on the margin around the box.
pub open spec fn box_contact(
    center: Vec3A,
    radius: Single,
    box_trans: Affine3A,
    extents: Vec3A,
    margin: Single,
    threshold: Single,
) -> Option<BoxContact> {
    let local = box_trans.inv_x_form(center);
    let closest = local.clamp(extents.negate(), extents);
    let delta = local.minus(closest);
    let dist_sq = delta.length_squared();
    let touching = radius.plus(margin);
    let reach = touching.plus(threshold);
    if reach.times(reach).less(dist_sq) {
        None
    } else {
        let out = if (Single { bits: EPSILON }).less(dist_sq) {
            Face { dist: dist_sq.sqrt(), closest, normal: delta.over(dist_sq.sqrt()) }
        } else {
            let face = closest_face(extents, local);
            Face { dist: face.dist.times(Single { bits: MINUS_ONE }), ..face }
        };
        let normal = box_trans.transform_vector3a(out.normal);
        Some(
            BoxContact {
                normal,
                point: box_trans.transform_point3a(out.closest).plus(normal.scale(margin)),
                depth: out.dist.minus(touching),
            },
        )
    }
}

pub fn sphere_box_contact(
    center: Vec3A,
    radius: Single,
    box_trans: Affine3A,
    extents: Vec3A,
    margin: Single,
    threshold: Single,
) -> (r: Option<BoxContact>)
    ensures
        r == box_contact(center, radius, box_trans, extents, margin, threshold),
{
    let local = box_trans.inv_x_form(center);
    let closest = local.clamp(extents.negate(), extents);
    let delta = local.minus(closest);
    let dist_sq = delta.length_squared();
    let touching = radius.plus(margin);
    let reach = touching.plus(threshold);
    if dist_sq.gt(reach.times(reach)) {
        return None;
    }
    let out = if dist_sq.gt(Single::of(EPSILON)) {
        let dist = dist_sq.sqrt();
        Face { dist, closest, normal: delta.over(dist) }
    } else {
        let face = get_sphere_penetration(extents, local);
        Face { dist: face.dist.times(Single::of(MINUS_ONE)), ..face }
    };
    let normal = box_trans.transform_vector3a(out.normal);
    let point = box_trans.transform_point3a(out.closest).plus(normal.scale(margin));
    Some(BoxContact { normal, point, depth: out.dist.minus(touching) })
}

/// The contact of a sphere with a box is added to a manifold without points.
pub open spec fn handed_on<T, M: Manifolds<T>>(
    manifolds: &M,
    bare: PersistentManifold,
    sphere_obj: &RigidBody,
    sphere_shape: &SphereShape,
    obb_obj: &RigidBody,
    obb_shape: &CompoundShape,
    listener: T,
    outcome: Option<PersistentManifold>,
    told: T,
) -> bool {
    match box_contact(
        sphere_obj.world_trans.translation,
        sphere_shape.radius,
        obb_obj.world_trans.after(obb_shape.child_trans),
        obb_shape.child_shape.half_extents,
        obb_shape.child_shape.margin,
        bare.contact_breaking_threshold,
    ) {
        None => outcome is None && told == listener,
        Some(contact) => exists|added: PersistentManifold, moved: PersistentManifold|
            call_ensures(
                M::add_contact_point,
                (
                    manifolds,
                    bare,
                    sphere_obj,
                    obb_obj,
                    contact.normal,
                    contact.point,
                    contact.depth,
                    None,
                    listener,
                ),
                (added, told),
            ) && #[trigger] call_ensures(
                M::refresh_contact_points,
                (manifolds, added, sphere_obj, obb_obj),
                moved,
            ) && outcome == if moved.point_cache@.len() == 0 {
                None
            } else {
                Some(moved)
            },
    }
}

/// The manifold of a sphere and a box whose boxes along the axes meet: `outcome`, and the
/// listener `told`.
pub open spec fn touches<T, M: Manifolds<T>>(
    manifolds: &M,
    sphere_obj: &RigidBody,
    sphere_shape: &SphereShape,
    obb_obj: &RigidBody,
    obb_shape: &CompoundShape,
    listener: T,
    outcome: Option<PersistentManifold>,
    told: T,
) -> bool {
    exists|bare: PersistentManifold| #[trigger]
        call_ensures(M::manifold, (manifolds, sphere_obj, obb_obj), bare) && handed_on(
            manifolds,
            bare,
            sphere_obj,
            sphere_shape,
            obb_obj,
            obb_shape,
            listener,
            outcome,
            told,
        )
}

/// The manifold of a sphere and a box: none where their boxes along the axes do not meet.
pub open spec fn collides<T, M: Manifolds<T>, G: Geometry>(
    geometry: &G,
    manifolds: &M,
    sphere_obj: &RigidBody,
    sphere_shape: &SphereShape,
    obb_obj: &RigidBody,
    obb_shape: &CompoundShape,
    listener: T,
    outcome: Option<PersistentManifold>,
    told: T,
) -> bool {
    exists|a: Aabb, b: Aabb, meet: bool|
        call_ensures(G::aabb, (geometry, &CollisionShapes::Sphere(*sphere_shape), &sphere_obj.world_trans), a) && call_ensures(
            G::aabb,
            (geometry, &CollisionShapes::Compound(*obb_shape), &obb_obj.world_trans),
            b,
        ) && #[trigger] call_ensures(G::intersects, (geometry, &a, &b), meet) && if meet {
            touches(manifolds, sphere_obj, sphere_shape, obb_obj, obb_shape, listener, outcome, told)
        } else {
            outcome is None && told == listener
        }
}

/// The contact of a sphere with a box, and the listener after it has heard of it.
pub fn process_collision<T, M: Manifolds<T>, G: Geometry>(
    geometry: &G,
    manifolds: &M,
    sphere_obj: &RigidBody,
    sphere_shape: &SphereShape,
    obb_obj: &RigidBody,
    obb_shape: &CompoundShape,
    listener: T,
) -> (r: (Option<PersistentManifold>, T))
    ensures
        collides(geometry, manifolds, sphere_obj, sphere_shape, obb_obj, obb_shape, listener, r.0, r.1),
{
    let aabb_1 = geometry.aabb(&CollisionShapes::Sphere(*sphere_shape), &sphere_obj.world_trans);
    let aabb_2 = geometry.aabb(&CollisionShapes::Compound(*obb_shape), &obb_obj.world_trans);
    let meet: bool = geometry.intersects(&aabb_1, &aabb_2);
    if !meet {
        return (None, listener);
    }
    let manifold = manifolds.manifold(sphere_obj, obb_obj);
    let contact = sphere_box_contact(
        sphere_obj.world_trans.translation,
        sphere_shape.radius,
        obb_obj.world_trans.after(obb_shape.child_trans),
        obb_shape.child_shape.half_extents,
        obb_shape.child_shape.margin,
        manifold.contact_breaking_threshold,
    );
    match contact {
        None => (None, listener),
        Some(contact) => {
            let (added, told) = manifolds.add_contact_point(
                manifold,
                sphere_obj,
                obb_obj,
                contact.normal,
                contact.point,
                contact.depth,
                None,
                listener,
            );
            let moved = manifolds.refresh_contact_points(added, sphere_obj, obb_obj);
            if moved.point_cache.len() == 0 {
                (None, told)
            } else {
                (Some(moved), told)
            }
        },
    }
}

/// Bodies that touch already, or that stand still relative to each other, have no impact ahead of
/// them, and in no time nothing happens.
pub proof fn law_no_impact_from_contact<G: Geometry>(flight: Flight, geometry: &G, time_step: Single, impact: Option<Single>)
    requires
        flight.impacts(geometry, time_step, impact),
        (forall|start: Single| #[trigger]
            flight.separated(geometry, Single { bits: 0 }, start) ==> start.at_most(
                Single { bits: TOI_DISTANCE_EPSILON },
            )) || time_step.at_most(Single { bits: 0 }) || flight.speed_limit().at_most(Single { bits: EPSILON }),
    ensures
        impact is None,
{
}

/// At a time the bodies may be in contact: the gap may be one that does not exceed what counts as
/// contact.
pub open spec fn in_contact<G: Geometry>(flight: Flight, geometry: &G, time: Single) -> bool {
    exists|gap: Single| #[trigger]
        flight.separated(geometry, time, gap) && !(Single { bits: TOI_DISTANCE_EPSILON }).less(gap)
}

proof fn lemma_closes_in<G: Geometry>(
    flight: Flight,
    geometry: &G,
    time_step: Single,
    lower: Single,
    separation: Single,
    advances: nat,
    found: Option<(Single, Single)>,
)
    requires
        flight.closes_in(geometry, time_step, lower, separation, advances, found),
        !lower.negative(),
        !time_step.negative(),
        lower.at_most(time_step),
    ensures
        found is Some ==> {
            let (low, high) = found->Some_0;
            &&& !low.negative()
            &&& !high.negative()
            &&& low.at_most(high)
            &&& high.at_most(time_step)
            &&& in_contact(flight, geometry, high)
        },
    decreases advances,
{
    if advances > 0 {
        let next = flight.next_time(lower, separation, time_step);
        let advance = separation.over(flight.speed_limit()).greater_of(Single { bits: TOI_TIME_EPSILON });
        law_sum_of_positives(lower, advance);
        let gap = choose|gap: Single| #[trigger]
            flight.separated(geometry, next, gap) && match approached(gap, next, time_step) {
                Approach::Contact => found == Some((lower, next)),
                Approach::Miss => found is None,
                Approach::GoOn => flight.closes_in(geometry, time_step, next, gap, (advances - 1) as nat, found),
            };
        match approached(gap, next, time_step) {
            Approach::GoOn => {
                lemma_closes_in(flight, geometry, time_step, next, gap, (advances - 1) as nat, found);
            },
            _ => {},
        }
    }
}

proof fn lemma_narrows<G: Geometry>(
    flight: Flight,
    geometry: &G,
    lower: Single,
    upper: Single,
    bisections: nat,
    time: Single,
)
    requires
        flight.narrows(geometry, lower, upper, bisections, time),
        in_contact(flight, geometry, upper),
    ensures
        in_contact(flight, geometry, time),
        !lower.negative() && !upper.negative() && lower.at_most(upper) && upper.magnitude() < 0x7f00_0000
            ==> !time.negative() && lower.at_most(time) && time.at_most(upper),
    decreases bisections,
{
    if bisections > 0 {
        let middle = (Single { bits: HALF }).times(lower.plus(upper));
        if !lower.negative() && !upper.negative() && lower.at_most(upper) && upper.magnitude() < 0x7f00_0000 {
            law_middle_lies_between(lower, upper);
        }
        let gap = choose|gap: Single| #[trigger]
            flight.separated(geometry, middle, gap) && if (Single { bits: TOI_DISTANCE_EPSILON }).less(gap) {
                flight.narrows(geometry, middle, upper, (bisections - 1) as nat, time)
            } else {
                flight.narrows(geometry, lower, middle, (bisections - 1) as nat, time)
            };
        if (Single { bits: TOI_DISTANCE_EPSILON }).less(gap) {
            lemma_narrows(flight, geometry, middle, upper, (bisections - 1) as nat, time);
        } else {
            assert(in_contact(flight, geometry, middle));
            lemma_narrows(flight, geometry, lower, middle, (bisections - 1) as nat, time);
        }
    }
}

/// At the time of an impact there is contact. It comes within the step, as long as twice the step is
/// still a number.
pub proof fn law_an_impact_is_a_contact<G: Geometry>(flight: Flight, geometry: &G, time_step: Single, impact: Single)
    requires
        flight.impacts(geometry, time_step, Some(impact)),
        !time_step.is_a_nan(),
    ensures
        in_contact(flight, geometry, impact),
        time_step.magnitude() < 0x7f00_0000 ==> (Single { bits: 0 }).at_most(impact) && impact.at_most(time_step),
{
    let zero = Single { bits: 0 };
    let start = choose|start: Single| #[trigger]
        flight.separated(geometry, zero, start) && !(start.at_most(Single { bits: TOI_DISTANCE_EPSILON })
            || time_step.at_most(zero) || flight.speed_limit().at_most(Single { bits: EPSILON })) && exists|
            found: Option<(Single, Single)>,
        | #[trigger]
            flight.closes_in(geometry, time_step, zero, start, TOI_MAX_ITERATIONS as nat, found) && found is Some
                && flight.narrows(geometry, found->Some_0.0, found->Some_0.1, TOI_BISECTIONS as nat, impact);
    let found = choose|found: Option<(Single, Single)>| #[trigger]
        flight.closes_in(geometry, time_step, zero, start, TOI_MAX_ITERATIONS as nat, found) && found is Some
            && flight.narrows(geometry, found->Some_0.0, found->Some_0.1, TOI_BISECTIONS as nat, impact);
    lemma_closes_in(flight, geometry, time_step, zero, start, TOI_MAX_ITERATIONS as nat, found);
    lemma_narrows(flight, geometry, found->Some_0.0, found->Some_0.1, TOI_BISECTIONS as nat, impact);
}

} // verus!
