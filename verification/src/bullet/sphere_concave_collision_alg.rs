//! Contacts of a sphere with a mesh of triangles.
use crate::bullet::body::{BvhTriangleMeshShape, CollisionShapes, RigidBody, SphereShape};
use crate::bullet::geometry::{Aabb, Geometry, SphereTriangleContact, TriangleShape};
use crate::bullet::manifold::{ManifoldPoint, Manifolds, PersistentManifold};
use crate::consts::{BT_TO_UU, EPSILON, SOCCAR_GOAL_HALF_WIDTH, SOCCAR_GOAL_HEIGHT, SOCCAR_GOAL_SCORE_BASE_THRESHOLD_Y};
use crate::math::{Affine3A, Vec3A};
use crate::single::{Single, ONE_BITS};
use crate::single_laws::{law_nan_spreads, law_quotient_of_positives, law_sum_of_positives};
use vstd::prelude::*;

verus! {

/// How far from the line of a goal a contact still belongs to the goal's rim, 32.
pub const RIM_DEPTH: u32 = 0x4200_0000;

/// How far from a post or the crossbar a contact still belongs to it, 160.
pub const RIM_REACH: u32 = 0x4320_0000;

/// How far above the crossbar a contact still belongs to a post, 120.
pub const POST_OVERHANG: u32 = 0x42f0_0000;

/// The part of the radius that a sphere has to rise or fall to cross the crossbar, 0.005.
pub const CROSSBAR_RISE: u32 = 0x3ba3_d70a;

/// How squarely a swept contact has to face the field, 0.7.
pub const FACING: u32 = 0x3f33_3333;

/// The part of the radius that a sphere may advance in a swept contact, 1/4.
pub const ADVANCE_LIMIT: u32 = 0x3e80_0000;

/// A gap that counts as contact, 0.00001.
pub const CONTACT_GAP: u32 = 0x3727_c5ac;

/// A closing distance that is too small to get anywhere, 0.000001.
pub const CLOSING_LIMIT: u32 = 0x3586_37bd;

/// How often a sweep advances towards a triangle.
pub const SWEEP_ADVANCES: u32 = 32;

/// A position in game units.
pub open spec fn in_game_units(v: Vec3A) -> Vec3A {
    v.scale(Single { bits: BT_TO_UU })
}

pub open spec fn near_goal_face(point: Vec3A) -> bool {
    point.y.abs().minus(Single { bits: SOCCAR_GOAL_SCORE_BASE_THRESHOLD_Y }).abs().less(Single { bits: RIM_DEPTH })
}

/// A point, in game units, of one of the posts.
pub open spec fn near_post(point: Vec3A) -> bool {
    &&& point.x.abs().minus(Single { bits: SOCCAR_GOAL_HALF_WIDTH }).abs().less(Single { bits: RIM_REACH })
    &&& point.z.less((Single { bits: SOCCAR_GOAL_HEIGHT }).plus(Single { bits: POST_OVERHANG }))
}

/// A point, in game units, of the crossbar.
pub open spec fn near_crossbar(point: Vec3A) -> bool {
    &&& point.z.minus(Single { bits: SOCCAR_GOAL_HEIGHT }).abs().less(Single { bits: RIM_REACH })
    &&& point.x.abs().less((Single { bits: SOCCAR_GOAL_HALF_WIDTH }).plus(Single { bits: RIM_REACH }))
}

/// A sphere with this centre touches the rim of a goal at this point while it moves towards the
/// goal line.
pub open spec fn entering_rim(point_world: Vec3A, center_world: Vec3A, movement_world: Vec3A) -> bool {
    let point = in_game_units(point_world);
    let center = in_game_units(center_world);
    let movement = in_game_units(movement_world);
    near_goal_face(point) && (near_post(point) || near_crossbar(point)) && (Single { bits: 0 }).less(
        center.y.times(movement.y),
    )
}

pub fn is_entering_soccar_goal_rim_contact(point_world: Vec3A, center_world: Vec3A, movement_world: Vec3A) -> (r: bool)
    ensures
        r == entering_rim(point_world, center_world, movement_world),
{
    let point = point_world.scale(Single::of(BT_TO_UU));
    let center = center_world.scale(Single::of(BT_TO_UU));
    let movement = movement_world.scale(Single::of(BT_TO_UU));
    let at_face: bool = point.y.abs().minus(Single::of(SOCCAR_GOAL_SCORE_BASE_THRESHOLD_Y)).abs().lt(
        Single::of(RIM_DEPTH),
    );
    at_face && (is_soccar_post_contact(point_world) || is_soccar_crossbar_contact(point_world)) && center.y.times(
        movement.y,
    ).gt(Single::zero())
}

pub fn is_soccar_crossbar_contact(point_world: Vec3A) -> (r: bool)
    ensures
        r == near_crossbar(in_game_units(point_world)),
{
    let point = point_world.scale(Single::of(BT_TO_UU));
    point.z.minus(Single::of(SOCCAR_GOAL_HEIGHT)).abs().lt(Single::of(RIM_REACH)) && point.x.abs().lt(
        Single::of(SOCCAR_GOAL_HALF_WIDTH).plus(Single::of(RIM_REACH)),
    )
}

pub fn is_soccar_post_contact(point_world: Vec3A) -> (r: bool)
    ensures
        r == near_post(in_game_units(point_world)),
{
    let point = point_world.scale(Single::of(BT_TO_UU));
    point.x.abs().minus(Single::of(SOCCAR_GOAL_HALF_WIDTH)).abs().lt(Single::of(RIM_REACH)) && point.z.lt(
        Single::of(SOCCAR_GOAL_HEIGHT).plus(Single::of(POST_OVERHANG)),
    )
}

/// A swept contact that may be resolved at the end of the step: inside the posts, square enough
/// and after a short way; at the crossbar alone only while the sphere crosses it, and at a post
/// only above its base.
pub open spec fn sweep_resolvable(
    point_world: Vec3A,
    normal_world: Vec3A,
    movement_world: Vec3A,
    radius: Single,
) -> bool {
    let point = in_game_units(point_world);
    &&& point.x.abs().at_most((Single { bits: SOCCAR_GOAL_HALF_WIDTH }).plus(Single { bits: RIM_DEPTH }))
    &&& near_crossbar(point) && !near_post(point) ==> radius.times(Single { bits: CROSSBAR_RISE }).less(
        movement_world.z.abs(),
    )
    &&& near_post(point) ==> radius.times(Single { bits: BT_TO_UU }).less(point.z)
    &&& (Single { bits: FACING }).at_most(normal_world.y.abs())
    &&& movement_world.y.abs().at_most(radius.times(Single { bits: ADVANCE_LIMIT }))
}

pub fn can_resolve_goal_sweep(point_world: Vec3A, normal_world: Vec3A, movement_world: Vec3A, radius: Single) -> (r:
    bool)
    ensures
        r == sweep_resolvable(point_world, normal_world, movement_world, radius),
{
    let point = point_world.scale(Single::of(BT_TO_UU));
    let within_outer_post: bool = point.x.abs().le(Single::of(SOCCAR_GOAL_HALF_WIDTH).plus(Single::of(RIM_DEPTH)));
    let crossbar_only: bool = is_soccar_crossbar_contact(point_world) && !is_soccar_post_contact(point_world);
    let crosses_crossbar: bool = !crossbar_only || movement_world.z.abs().gt(radius.times(Single::of(CROSSBAR_RISE)));
    let above_post_base: bool = !is_soccar_post_contact(point_world) || point.z.gt(radius.times(Single::of(BT_TO_UU)));
    within_outer_post && crosses_crossbar && above_post_base && normal_world.y.abs().ge(Single::of(FACING))
        && movement_world.y.abs().le(radius.times(Single::of(ADVANCE_LIMIT)))
}

/// The smaller of the distances of two numbers from a third.
pub open spec fn closer_distance(a: Single, b: Single, mark: Single) -> Single {
    a.minus(mark).abs().smaller_of(b.minus(mark).abs())
}

/// A sphere on its way from `start_world` to `end_world` may touch the rim of a goal: it moves
/// towards the goal line, not too far, and one end of the way is close to the rim.
pub open spec fn may_reach_rim(start_world: Vec3A, end_world: Vec3A, radius_world: Single) -> bool {
    let start = in_game_units(start_world);
    let end = in_game_units(end_world);
    let radius = radius_world.times(Single { bits: BT_TO_UU });
    let movement = end.minus(start);
    let half_width = Single { bits: SOCCAR_GOAL_HALF_WIDTH };
    let height = Single { bits: SOCCAR_GOAL_HEIGHT };
    let reach = Single { bits: RIM_REACH };
    &&& !start.y.times(movement.y).at_most(Single { bits: 0 })
    &&& !radius.times(Single { bits: ADVANCE_LIMIT }).less(movement.y.abs())
    &&& closer_distance(start.y.abs(), end.y.abs(), Single { bits: SOCCAR_GOAL_SCORE_BASE_THRESHOLD_Y }).at_most(
        radius.plus(Single { bits: RIM_DEPTH }),
    )
    &&& {
        ||| {
            &&& closer_distance(start.x.abs(), end.x.abs(), half_width).at_most(radius.plus(reach))
            &&& start.z.smaller_of(end.z).at_most(height.plus(radius).plus(Single { bits: POST_OVERHANG }))
        }
        ||| {
            &&& closer_distance(start.z, end.z, height).at_most(radius.plus(reach))
            &&& start.x.abs().smaller_of(end.x.abs()).at_most(half_width.plus(radius).plus(reach))
        }
    }
}

pub fn may_reach_soccar_goal_rim(start_world: Vec3A, end_world: Vec3A, radius_world: Single) -> (r: bool)
    ensures
        r == may_reach_rim(start_world, end_world, radius_world),
{
    let scale = Single::of(BT_TO_UU);
    let start = start_world.scale(scale);
    let end = end_world.scale(scale);
    let radius = radius_world.times(scale);
    let movement = end.minus(start);
    if start.y.times(movement.y).le(Single::zero()) || movement.y.abs().gt(radius.times(Single::of(ADVANCE_LIMIT))) {
        return false;
    }
    let line = Single::of(SOCCAR_GOAL_SCORE_BASE_THRESHOLD_Y);
    let half_width = Single::of(SOCCAR_GOAL_HALF_WIDTH);
    let height = Single::of(SOCCAR_GOAL_HEIGHT);
    let reach = Single::of(RIM_REACH);
    let at_face: bool = start.y.abs().minus(line).abs().min(end.y.abs().minus(line).abs()).le(
        radius.plus(Single::of(RIM_DEPTH)),
    );
    let at_post: bool = start.x.abs().minus(half_width).abs().min(end.x.abs().minus(half_width).abs()).le(
        radius.plus(reach),
    ) && start.z.min(end.z).le(height.plus(radius).plus(Single::of(POST_OVERHANG)));
    let at_crossbar: bool = start.z.minus(height).abs().min(end.z.minus(height).abs()).le(radius.plus(reach))
        && start.x.abs().min(end.x.abs()).le(half_width.plus(radius).plus(reach));
    at_face && (at_post || at_crossbar)
}

/// A contact that a moving sphere runs into.
#[derive(Clone, Copy, Debug)]
pub struct SweptContact {
    /// The part of the way at which the contact begins.
    pub toi: Single,
    pub normal: Vec3A,
    pub point: Vec3A,
    pub triangle_idx: usize,
}

/// What comes of one look at the closest point of a triangle.
#[derive(Clone, Copy, Debug)]
pub enum Advance {
    /// The sphere touches the triangle, with this normal.
    Contact(Vec3A),
    /// The sphere gets no closer, or not within the step.
    Miss,
    /// The sphere may go on to this part of the way.
    To(Single),
}

/// A sphere moves, and looks for the first triangle in its way.
#[derive(Clone, Copy, Debug)]
pub struct SweptSphereTriangleCallback {
    pub start: Vec3A,
    pub delta: Vec3A,
    pub radius: Single,
    pub earliest: Option<SweptContact>,
}

impl SweptSphereTriangleCallback {
    /// The centre after a part of the way.
    pub open spec fn center_at(self, toi: Single) -> Vec3A {
        self.start.plus(self.delta.scale(toi))
    }

    /// What follows when `point` is closest to the sphere after the part `toi` of its way.
    pub open spec fn advance_from(self, triangle: TriangleShape, toi: Single, point: Vec3A) -> Advance {
        let offset = self.center_at(toi).minus(point);
        let distance = offset.length();
        let separation = distance.minus(self.radius);
        let normal = if (Single { bits: EPSILON }).less(distance) {
            offset.over(distance)
        } else {
            triangle.normal
        };
        let closing = self.delta.dot(normal).negate();
        let next = toi.plus(separation.over(closing));
        if separation.at_most(Single { bits: CONTACT_GAP }) {
            Advance::Contact(normal)
        } else if closing.at_most(Single { bits: CLOSING_LIMIT }) || (Single { bits: ONE_BITS }).less(next) {
            Advance::Miss
        } else {
            Advance::To(next)
        }
    }

    pub fn advance(&self, triangle: &TriangleShape, toi: Single, point: Vec3A) -> (r: Advance)
        ensures
            r == self.advance_from(*triangle, toi, point),
    {
        let center = self.start.plus(self.delta.scale(toi));
        let offset = center.minus(point);
        let distance = offset.length();
        let separation = distance.minus(self.radius);
        let normal = if distance.gt(Single::of(EPSILON)) { offset.over(distance) } else { triangle.normal };
        if separation.le(Single::of(CONTACT_GAP)) {
            return Advance::Contact(normal);
        }
        let closing = self.delta.dot(normal).negate();
        if closing.le(Single::of(CLOSING_LIMIT)) {
            return Advance::Miss;
        }
        let next = toi.plus(separation.over(closing));
        if next.gt(Single::one()) {
            return Advance::Miss;
        }
        Advance::To(next)
    }

    /// From the part `toi` of the way, at most `advances` looks at the closest point of the
    /// triangle find `outcome`.
    pub open spec fn finds<G: Geometry>(
        self,
        geometry: &G,
        triangle: &TriangleShape,
        triangle_idx: usize,
        toi: Single,
        advances: nat,
        outcome: Option<SweptContact>,
    ) -> bool
        decreases advances,
    {
        if advances == 0 {
            outcome is None
        } else {
            exists|point: Vec3A| #[trigger]
                call_ensures(G::closest_point, (geometry, triangle, self.corners_to(triangle, toi)), point)
                    && match self.advance_from(*triangle, toi, point) {
                    Advance::Contact(normal) => outcome == Some(SweptContact { toi, normal, point, triangle_idx }),
                    Advance::Miss => outcome is None,
                    Advance::To(next) => self.finds(
                        geometry,
                        triangle,
                        triangle_idx,
                        next,
                        (advances - 1) as nat,
                        outcome,
                    ),
                }
        }
    }

    /// The ways from the corners of a triangle to the centre after a part of the way.
    pub open spec fn corners_to(self, triangle: &TriangleShape, toi: Single) -> [Vec3A; 3] {
        [
            self.center_at(toi).minus(triangle.points[0]),
            self.center_at(toi).minus(triangle.points[1]),
            self.center_at(toi).minus(triangle.points[2]),
        ]
    }

    /// The state with another contact, if it comes before the one that it has.
    pub open spec fn with_contact(self, outcome: Option<SweptContact>) -> Self {
        match outcome {
            Some(contact) if self.earliest is None || contact.toi.less(self.earliest->Some_0.toi) => {
                SweptSphereTriangleCallback { earliest: outcome, ..self }
            },
            _ => self,
        }
    }

    /// A look at a triangle may lead to `next`.
    pub open spec fn passes<G: Geometry>(self, geometry: &G, triangle: &TriangleShape, triangle_idx: usize, next: Self) -> bool {
        exists|outcome: Option<SweptContact>| #[trigger]
            self.finds(
                geometry,
                triangle,
                triangle_idx,
                Single { bits: 0 },
                SWEEP_ADVANCES as nat,
                outcome,
            ) && next == self.with_contact(outcome)
    }

    /// Looks at the triangles from the `i`th on may lead to `end`.
    pub open spec fn passes_all<G: Geometry>(
        self,
        geometry: &G,
        triangles: Seq<(TriangleShape, usize)>,
        i: nat,
        end: Self,
    ) -> bool
        decreases triangles.len() - i,
    {
        if i >= triangles.len() {
            end == self
        } else {
            exists|next: Self| #[trigger]
                self.passes(geometry, &triangles[i as int].0, triangles[i as int].1, next) && next.passes_all(
                    geometry,
                    triangles,
                    i + 1,
                    end,
                )
        }
    }

    /// Looks at every triangle.
    pub fn process_triangles<G: Geometry>(&mut self, geometry: &G, triangles: &Vec<(TriangleShape, usize)>)
        ensures
            old(self).passes_all(geometry, triangles@, 0, *final(self)),
    {
        let ghost start = *self;
        let mut i: usize = 0;
        while i < triangles.len()
            invariant
                start == *old(self),
                i <= triangles@.len(),
                forall|end: Self| #[trigger]
                    self.passes_all(geometry, triangles@, i as nat, end) ==> start.passes_all(
                        geometry,
                        triangles@,
                        0,
                        end,
                    ),
            decreases triangles@.len() - i,
        {
            let ghost here = *self;
            let ghost at = i as nat;
            self.process_triangle(&triangles[i].0, triangles[i].1, geometry);
            i = i + 1;
            proof {
                assert forall|end: Self| #[trigger]
                    self.passes_all(geometry, triangles@, i as nat, end) implies start.passes_all(
                    geometry,
                    triangles@,
                    0,
                    end,
                ) by {
                    assert(here.passes(geometry, &triangles@[at as int].0, triangles@[at as int].1, *self));
                    assert(here.passes_all(geometry, triangles@, at, end));
                }
            }
        }
        proof {
            assert(self.passes_all(geometry, triangles@, i as nat, *self));
        }
    }

    /// Looks whether the sphere runs into a triangle.
    pub fn process_triangle<G: Geometry>(&mut self, triangle: &TriangleShape, triangle_idx: usize, geometry: &G)
        ensures
            old(self).passes(geometry, triangle, triangle_idx, *final(self)),
    {
        let ghost before = *self;
        let ghost zero = Single { bits: 0 };
        let mut toi = Single::zero();
        let mut left: u32 = SWEEP_ADVANCES;
        while left > 0
            invariant
                *self == before,
                before == *old(self),
                left <= SWEEP_ADVANCES,
                zero == (Single { bits: 0 }),
                forall|outcome: Option<SweptContact>| #[trigger]
                    before.finds(geometry, triangle, triangle_idx, toi, left as nat, outcome) ==> before.finds(
                        geometry,
                        triangle,
                        triangle_idx,
                        zero,
                        SWEEP_ADVANCES as nat,
                        outcome,
                    ),
            decreases left,
        {
            let center = self.start.plus(self.delta.scale(toi));
            let corners: [Vec3A; 3] = [
                center.minus(triangle.points[0]),
                center.minus(triangle.points[1]),
                center.minus(triangle.points[2]),
            ];
            let point = geometry.closest_point(triangle, corners);
            proof {
                assert(corners == before.corners_to(triangle, toi));
                assert(call_ensures(
                    G::closest_point,
                    (geometry, triangle, before.corners_to(triangle, toi)),
                    point,
                ));
            }
            match self.advance(triangle, toi, point) {
                Advance::Contact(normal) => {
                    let contact = SweptContact { toi, normal, point, triangle_idx };
                    proof {
                        assert(before.finds(geometry, triangle, triangle_idx, toi, left as nat, Some(contact)));
                    }
                    let first: bool = match self.earliest {
                        Some(earliest) => toi.lt(earliest.toi),
                        None => true,
                    };
                    if first {
                        self.earliest = Some(contact);
                    }
                    return ;
                },
                Advance::Miss => {
                    proof {
                        assert(before.finds(geometry, triangle, triangle_idx, toi, left as nat, None));
                    }
                    return ;
                },
                Advance::To(next) => {
                    let ghost here = toi;
                    let ghost ahead = left as nat;
                    toi = next;
                    left = left - 1;
                    proof {
                        assert forall|outcome: Option<SweptContact>| #[trigger]
                            before.finds(
                                geometry,
                                triangle,
                                triangle_idx,
                                toi,
                                left as nat,
                                outcome,
                            ) implies before.finds(
                            geometry,
                            triangle,
                            triangle_idx,
                            zero,
                            SWEEP_ADVANCES as nat,
                            outcome,
                        ) by {
                            assert(before.finds(geometry, triangle, triangle_idx, here, ahead, outcome));
                        }
                    }
                },
            }
        }
        proof {
            assert(before.finds(geometry, triangle, triangle_idx, toi, 0, None));
        }
    }
}

/// A sphere that gathers its contacts with triangles in a manifold.
#[derive(Debug)]
pub struct SphereTriangleCallback<T> {
    pub manifold: PersistentManifold,
    pub convex_obj: RigidBody,
    pub tri_obj: RigidBody,
    pub sphere_center: Vec3A,
    pub sphere_radius: Single,
    pub listener: T,
}

impl<T> SphereTriangleCallback<T> {
    pub fn new<M: Manifolds<T>>(
        manifolds: &M,
        convex_obj: &RigidBody,
        tri_obj: &RigidBody,
        sphere_center: Vec3A,
        sphere_radius: Single,
        listener: T,
    ) -> (r: SphereTriangleCallback<T>)
        ensures
            call_ensures(M::manifold, (manifolds, convex_obj, tri_obj), r.manifold),
            r.convex_obj == *convex_obj,
            r.tri_obj == *tri_obj,
            r.sphere_center == sphere_center,
            r.sphere_radius == sphere_radius,
            r.listener == listener,
    {
        SphereTriangleCallback {
            manifold: manifolds.manifold(convex_obj, tri_obj),
            convex_obj: *convex_obj,
            tri_obj: *tri_obj,
            sphere_center,
            sphere_radius,
            listener,
        }
    }

    /// A contact with the triangle, if there is one, is added to the manifold.
    pub open spec fn gathers<M: Manifolds<T>, G: Geometry>(
        self,
        geometry: &G,
        manifolds: &M,
        triangle: &TriangleShape,
        triangle_idx: usize,
        next: Self,
    ) -> bool {
        exists|hit: Option<SphereTriangleContact>| #[trigger]
            call_ensures(
                G::intersect_sphere,
                (
                    geometry,
                    triangle,
                    self.sphere_center,
                    self.sphere_radius,
                    self.manifold.contact_breaking_threshold,
                ),
                hit,
            ) && match hit {
                None => next == self,
                Some(contact) => call_ensures(
                    M::add_contact_point,
                    (
                        manifolds,
                        self.manifold,
                        &self.convex_obj,
                        &self.tri_obj,
                        self.tri_obj.world_trans.transform_vector3a(contact.result_normal),
                        self.tri_obj.world_trans.transform_point3a(contact.contact_point),
                        contact.depth,
                        Some(triangle_idx),
                        self.listener,
                    ),
                    (next.manifold, next.listener),
                ) && next == (SphereTriangleCallback { manifold: next.manifold, listener: next.listener, ..self }),
            }
    }

    /// The contacts with the triangles from the `i`th on are added to the manifold.
    pub open spec fn gathers_all<M: Manifolds<T>, G: Geometry>(
        self,
        geometry: &G,
        manifolds: &M,
        triangles: Seq<(TriangleShape, usize)>,
        i: nat,
        end: Self,
    ) -> bool
        decreases triangles.len() - i,
    {
        if i >= triangles.len() {
            end == self
        } else {
            exists|next: Self| #[trigger]
                self.gathers(geometry, manifolds, &triangles[i as int].0, triangles[i as int].1, next)
                    && next.gathers_all(geometry, manifolds, triangles, i + 1, end)
        }
    }

    pub fn process_triangle<M: Manifolds<T>, G: Geometry>(
        self,
        geometry: &G,
        manifolds: &M,
        triangle: &TriangleShape,
        triangle_idx: usize,
    ) -> (r: SphereTriangleCallback<T>)
        ensures
            self.gathers(geometry, manifolds, triangle, triangle_idx, r),
    {
        let hit = geometry.intersect_sphere(
            triangle,
            self.sphere_center,
            self.sphere_radius,
            self.manifold.contact_breaking_threshold,
        );
        match hit {
            None => self,
            Some(contact) => {
                let normal_on_b = self.tri_obj.world_trans.transform_vector3a(contact.result_normal);
                let point_in_world = self.tri_obj.world_trans.transform_point3a(contact.contact_point);
                let (manifold, listener) = manifolds.add_contact_point(
                    self.manifold,
                    &self.convex_obj,
                    &self.tri_obj,
                    normal_on_b,
                    point_in_world,
                    contact.depth,
                    Some(triangle_idx),
                    self.listener,
                );
                SphereTriangleCallback {
                    manifold,
                    convex_obj: self.convex_obj,
                    tri_obj: self.tri_obj,
                    sphere_center: self.sphere_center,
                    sphere_radius: self.sphere_radius,
                    listener,
                }
            },
        }
    }

    pub fn process_triangles<M: Manifolds<T>, G: Geometry>(
        self,
        geometry: &G,
        manifolds: &M,
        triangles: &Vec<(TriangleShape, usize)>,
    ) -> (r: SphereTriangleCallback<T>)
        ensures
            self.gathers_all(geometry, manifolds, triangles@, 0, r),
    {
        let ghost start = self;
        let mut cur = self;
        let mut i: usize = 0;
        while i < triangles.len()
            invariant
                i <= triangles@.len(),
                forall|end: SphereTriangleCallback<T>| #[trigger]
                    cur.gathers_all(geometry, manifolds, triangles@, i as nat, end) ==> start.gathers_all(
                        geometry,
                        manifolds,
                        triangles@,
                        0,
                        end,
                    ),
            decreases triangles@.len() - i,
        {
            let ghost here = cur;
            let ghost at = i as nat;
            cur = cur.process_triangle(geometry, manifolds, &triangles[i].0, triangles[i].1);
            i = i + 1;
            proof {
                assert forall|end: SphereTriangleCallback<T>| #[trigger]
                    cur.gathers_all(geometry, manifolds, triangles@, i as nat, end) implies start.gathers_all(
                    geometry,
                    manifolds,
                    triangles@,
                    0,
                    end,
                ) by {
                    assert(here.gathers(
                        geometry,
                        manifolds,
                        &triangles@[at as int].0,
                        triangles@[at as int].1,
                        cur,
                    ));
                    assert(here.gathers_all(geometry, manifolds, triangles@, at, end));
                }
            }
        }
        proof {
            assert(cur.gathers_all(geometry, manifolds, triangles@, i as nat, cur));
        }
        cur
    }
}

/// Every point has a gap, and one of them is a contact of the crossbar that a sphere on its way
/// into the goal makes.
pub open spec fn separated_crossbar(points: Seq<ManifoldPoint>, center: Vec3A, movement: Vec3A) -> bool {
    &&& forall|i: int| 0 <= i < points.len() ==> (Single { bits: 0 }).less(#[trigger] points[i].distance_1)
    &&& exists|i: int|
        0 <= i < points.len() && entering_rim((#[trigger] points[i]).pos_world_on_b, center, movement)
            && near_crossbar(in_game_units(points[i].pos_world_on_b))
}

pub fn is_separated_crossbar_contact(points: &Vec<ManifoldPoint>, center: Vec3A, movement: Vec3A) -> (r: bool)
    ensures
        r == separated_crossbar(points@, center, movement),
{
    let mut entering: bool = false;
    let mut i: usize = 0;
    while i < points.len()
        invariant
            i <= points@.len(),
            forall|j: int| 0 <= j < i ==> (Single { bits: 0 }).less(#[trigger] points@[j].distance_1),
            entering == exists|j: int|
                0 <= j < i && entering_rim((#[trigger] points@[j]).pos_world_on_b, center, movement)
                    && near_crossbar(in_game_units(points@[j].pos_world_on_b)),
        decreases points@.len() - i,
    {
        let point = points[i];
        if !point.distance_1.gt(Single::zero()) {
            proof {
                assert(!(Single { bits: 0 }).less(points@[i as int].distance_1));
            }
            return false;
        }
        if is_entering_soccar_goal_rim_contact(point.pos_world_on_b, center, movement)
            && is_soccar_crossbar_contact(point.pos_world_on_b) {
            proof {
                assert(entering_rim(points@[i as int].pos_world_on_b, center, movement));
            }
            entering = true;
        }
        i = i + 1;
    }
    entering
}

/// A point moved to the surface of the sphere, opposite to its normal, without a gap.
pub open spec fn settled(point: ManifoldPoint, sphere: Affine3A, radius: Single, to_mesh: Affine3A) -> ManifoldPoint {
    let surface = sphere.translation.minus(point.normal_world_on_b.scale(radius));
    ManifoldPoint {
        pos_world_on_a: surface,
        pos_world_on_b: surface,
        local_point_a: sphere.inv_x_form(surface),
        local_point_b: to_mesh.transform_point3a(surface),
        distance_1: Single { bits: 0 },
        ..point
    }
}

/// Moves every point of a manifold to the surface of the sphere.
pub fn settle(manifold: PersistentManifold, sphere: Affine3A, radius: Single, to_mesh: Affine3A) -> (r: PersistentManifold)
    ensures
        settles(manifold, sphere, radius, to_mesh, r),
{
    let mut r = manifold;
    let mut i: usize = 0;
    while i < r.point_cache.len()
        invariant
            i <= r.point_cache@.len(),
            r.point_cache@.len() == manifold.point_cache@.len(),
            r.body0_idx == manifold.body0_idx,
            r.body1_idx == manifold.body1_idx,
            r.contact_breaking_threshold == manifold.contact_breaking_threshold,
            r.contact_processing_threshold == manifold.contact_processing_threshold,
            forall|j: int|
                0 <= j < i ==> #[trigger] r.point_cache@[j] == settled(
                    manifold.point_cache@[j],
                    sphere,
                    radius,
                    to_mesh,
                ),
            forall|j: int| i <= j < r.point_cache@.len() ==> #[trigger] r.point_cache@[j] == manifold.point_cache@[j],
        decreases r.point_cache@.len() - i,
    {
        let point = r.point_cache[i];
        let surface = sphere.translation.minus(point.normal_world_on_b.scale(radius));
        r.point_cache.set(
            i,
            ManifoldPoint {
                pos_world_on_a: surface,
                pos_world_on_b: surface,
                local_point_a: sphere.inv_x_form(surface),
                local_point_b: to_mesh.transform_point3a(surface),
                distance_1: Single::zero(),
                ..point
            },
        );
        i = i + 1;
    }
    r
}

/// `after` is `before` with every point moved to the surface of the sphere.
pub open spec fn settles(
    before: PersistentManifold,
    sphere: Affine3A,
    radius: Single,
    to_mesh: Affine3A,
    after: PersistentManifold,
) -> bool {
    &&& after.body0_idx == before.body0_idx
    &&& after.body1_idx == before.body1_idx
    &&& after.contact_breaking_threshold == before.contact_breaking_threshold
    &&& after.contact_processing_threshold == before.contact_processing_threshold
    &&& after.point_cache@.len() == before.point_cache@.len()
    &&& forall|i: int|
        0 <= i < before.point_cache@.len() ==> #[trigger] after.point_cache@[i] == settled(
            before.point_cache@[i],
            sphere,
            radius,
            to_mesh,
        )
}

/// A sphere, a mesh of triangles and their bodies.
#[derive(Clone, Copy, Debug)]
pub struct SphereOnMesh {
    pub convex_obj: RigidBody,
    pub sphere_shape: SphereShape,
    pub concave_obj: RigidBody,
    pub tri_mesh: BvhTriangleMeshShape,
}

impl SphereOnMesh {
    /// The place of the sphere in the frame of the mesh.
    pub open spec fn place(self) -> Affine3A {
        let to_mesh = self.concave_obj.world_trans.transpose();
        Affine3A {
            matrix3: to_mesh.matrix3.mul_mat3a(self.convex_obj.world_trans.matrix3),
            translation: to_mesh.transform_point3a(self.convex_obj.world_trans.translation),
        }
    }

    /// Where the sphere is predicted to be, in the frame of the mesh.
    pub open spec fn predicted_place(self) -> Affine3A {
        let to_mesh = self.concave_obj.world_trans.transpose();
        Affine3A {
            matrix3: self.place().matrix3,
            translation: to_mesh.transform_point3a(self.convex_obj.interp_world_trans.translation),
        }
    }

    /// The way that the sphere is predicted to go.
    pub open spec fn movement(self) -> Vec3A {
        self.convex_obj.interp_world_trans.translation.minus(self.convex_obj.world_trans.translation)
    }

    /// A sweep is worth while: the sphere moves, and may reach the rim of a goal.
    pub open spec fn sweeps(self) -> bool {
        &&& !self.predicted_place().translation.equals(self.place().translation)
        &&& may_reach_rim(
            self.convex_obj.world_trans.translation,
            self.convex_obj.interp_world_trans.translation,
            self.sphere_shape.radius,
        )
    }

    /// The sphere at the start of its sweep.
    pub open spec fn sweep(self) -> SweptSphereTriangleCallback {
        SweptSphereTriangleCallback {
            start: self.place().translation,
            delta: self.predicted_place().translation.minus(self.place().translation),
            radius: self.sphere_shape.radius,
            earliest: None,
        }
    }

    /// The normal and the point of a swept contact in the world, if the contact is one on the way
    /// into a goal that may be resolved.
    pub open spec fn resolved(self, earliest: Option<SweptContact>) -> Option<(Vec3A, Vec3A)> {
        match earliest {
            None => None,
            Some(contact) => {
                let normal = self.concave_obj.world_trans.transform_vector3a(contact.normal);
                let point = self.concave_obj.world_trans.transform_point3a(contact.point);
                if entering_rim(point, self.convex_obj.world_trans.translation, self.movement())
                    && sweep_resolvable(point, normal, self.movement(), self.sphere_shape.radius) {
                    Some((normal, point))
                } else {
                    None
                }
            },
        }
    }

    pub fn resolve(&self, earliest: Option<SweptContact>) -> (r: Option<(Vec3A, Vec3A)>)
        ensures
            r == self.resolved(earliest),
    {
        match earliest {
            None => None,
            Some(contact) => {
                let normal = self.concave_obj.world_trans.transform_vector3a(contact.normal);
                let point = self.concave_obj.world_trans.transform_point3a(contact.point);
                let center = self.convex_obj.world_trans.translation;
                let movement = self.convex_obj.interp_world_trans.translation.minus(center);
                if is_entering_soccar_goal_rim_contact(point, center, movement) && can_resolve_goal_sweep(
                    point,
                    normal,
                    movement,
                    self.sphere_shape.radius,
                ) {
                    Some((normal, point))
                } else {
                    None
                }
            },
        }
    }

    /// The manifold of a swept contact may be `outcome`, and the listener `told`.
    pub open spec fn lands<T, M: Manifolds<T>>(
        self,
        manifolds: &M,
        normal: Vec3A,
        point: Vec3A,
        triangle_idx: usize,
        listener: T,
        outcome: PersistentManifold,
        told: T,
    ) -> bool {
        exists|bare: PersistentManifold, added: PersistentManifold, still: PersistentManifold|
            call_ensures(M::manifold, (manifolds, &self.convex_obj, &self.concave_obj), bare)
                && #[trigger] call_ensures(
                M::add_contact_point,
                (
                    manifolds,
                    bare,
                    &self.convex_obj,
                    &self.concave_obj,
                    normal,
                    point,
                    Single { bits: 0 },
                    Some(triangle_idx),
                    listener,
                ),
                (added, told),
            ) && #[trigger] settles(
                added,
                self.convex_obj.world_trans,
                self.sphere_shape.radius,
                self.concave_obj.world_trans.transpose(),
                still,
            ) && call_ensures(
                M::refresh_contact_points,
                (manifolds, still, &self.convex_obj, &self.concave_obj),
                outcome,
            )
    }

    /// A sweep of the sphere, which has `aabb` around it now, may lead to `outcome`, and the
    /// listener `told`.
    pub open spec fn swept<T, M: Manifolds<T>, G: Geometry>(
        self,
        geometry: &G,
        manifolds: &M,
        aabb: Aabb,
        listener: T,
        outcome: Option<PersistentManifold>,
        told: T,
    ) -> bool {
        exists|ahead: Aabb, both: Aabb, triangles: Vec<(TriangleShape, usize)>, end: SweptSphereTriangleCallback|
            call_ensures(
                G::aabb,
                (geometry, &CollisionShapes::Sphere(self.sphere_shape), &self.predicted_place()),
                ahead,
            ) && #[trigger] call_ensures(G::joined, (geometry, &aabb, &ahead), both) && call_ensures(
                G::triangles,
                (geometry, &self.tri_mesh, &both),
                triangles,
            ) && #[trigger] self.sweep().passes_all(geometry, triangles@, 0, end) && match self.resolved(end.earliest) {
                None => outcome is None && told == listener,
                Some((normal, point)) => outcome is Some && self.lands(
                    manifolds,
                    normal,
                    point,
                    end.earliest->Some_0.triangle_idx,
                    listener,
                    outcome->Some_0,
                    told,
                ),
            }
    }

    /// The sphere and the mesh may have the manifold `outcome`, and the listener `told`: the
    /// contacts with triangles around the sphere, unless they are those of a crossbar that the
    /// sphere has not reached; without any, what a sweep of the sphere finds.
    pub open spec fn meets<T, M: Manifolds<T>, G: Geometry>(
        self,
        geometry: &G,
        manifolds: &M,
        listener: T,
        outcome: Option<PersistentManifold>,
        told: T,
    ) -> bool {
        exists|
            aabb: Aabb,
            triangles: Vec<(TriangleShape, usize)>,
            bare: PersistentManifold,
            full: SphereTriangleCallback<T>,
        |
            call_ensures(G::aabb, (geometry, &CollisionShapes::Sphere(self.sphere_shape), &self.place()), aabb)
                && #[trigger] call_ensures(G::triangles, (geometry, &self.tri_mesh, &aabb), triangles)
                && call_ensures(M::manifold, (manifolds, &self.convex_obj, &self.concave_obj), bare)
                && #[trigger] self.gatherer(bare, listener).gathers_all(geometry, manifolds, triangles@, 0, full)
                && self.meets_with(geometry, manifolds, aabb, full, outcome, told)
    }

    /// With the contacts that it has gathered, the sphere may be left with the manifold `outcome`, and the listener `told`.
    pub open spec fn meets_with<T, M: Manifolds<T>, G: Geometry>(
        self,
        geometry: &G,
        manifolds: &M,
        aabb: Aabb,
        full: SphereTriangleCallback<T>,
        outcome: Option<PersistentManifold>,
        told: T,
    ) -> bool {
        if full.manifold.point_cache@.len() > 0 {
            told == full.listener && exists|moved: PersistentManifold| #[trigger]
                call_ensures(
                    M::refresh_contact_points,
                    (manifolds, full.manifold, &self.convex_obj, &self.concave_obj),
                    moved,
                ) && outcome == if separated_crossbar(
                    moved.point_cache@,
                    self.convex_obj.world_trans.translation,
                    self.movement(),
                ) {
                    None
                } else {
                    Some(moved)
                }
        } else if self.sweeps() {
            self.swept(geometry, manifolds, aabb, full.listener, outcome, told)
        } else {
            outcome is None && told == full.listener
        }
    }

    /// The sphere before it has gathered any contact.
    pub open spec fn gatherer<T>(self, bare: PersistentManifold, listener: T) -> SphereTriangleCallback<T> {
        SphereTriangleCallback {
            manifold: bare,
            convex_obj: self.convex_obj,
            tri_obj: self.concave_obj,
            sphere_center: self.place().translation,
            sphere_radius: self.sphere_shape.radius,
            listener,
        }
    }

    /// Adds a swept contact to a manifold of its own.
    fn land<T, M: Manifolds<T>>(
        &self,
        manifolds: &M,
        normal: Vec3A,
        point: Vec3A,
        triangle_idx: usize,
        listener: T,
    ) -> (r: (PersistentManifold, T))
        ensures
            self.lands(manifolds, normal, point, triangle_idx, listener, r.0, r.1),
    {
        let bare = manifolds.manifold(&self.convex_obj, &self.concave_obj);
        let (added, told) = manifolds.add_contact_point(
            bare,
            &self.convex_obj,
            &self.concave_obj,
            normal,
            point,
            Single::zero(),
            Some(triangle_idx),
            listener,
        );
        let still = settle(
            added,
            self.convex_obj.world_trans,
            self.sphere_shape.radius,
            self.concave_obj.world_trans.transpose(),
        );
        let ghost here = settles(
            added,
            self.convex_obj.world_trans,
            self.sphere_shape.radius,
            self.concave_obj.world_trans.transpose(),
            still,
        );
        let moved = manifolds.refresh_contact_points(still, &self.convex_obj, &self.concave_obj);
        proof {
            assert(call_ensures(
                M::add_contact_point,
                (
                    manifolds,
                    bare,
                    &self.convex_obj,
                    &self.concave_obj,
                    normal,
                    point,
                    Single { bits: 0 },
                    Some(triangle_idx),
                    listener,
                ),
                (added, told),
            ));
            assert(here);
        }
        (moved, told)
    }

    /// The broad phase looks at where the sphere is and where it is predicted to be. So does
    /// this: a fast sphere is not to cross a thin or curved part of the mesh within a step.
    fn sweep_for_contact<T, M: Manifolds<T>, G: Geometry>(
        &self,
        geometry: &G,
        manifolds: &M,
        place: Affine3A,
        predicted: Affine3A,
        aabb: Aabb,
        listener: T,
    ) -> (r: (Option<PersistentManifold>, T))
        requires
            place == self.place(),
            predicted == self.predicted_place(),
        ensures
            self.swept(geometry, manifolds, aabb, listener, r.0, r.1),
    {
        let mut callback = SweptSphereTriangleCallback {
            start: place.translation,
            delta: predicted.translation.minus(place.translation),
            radius: self.sphere_shape.radius,
            earliest: None,
        };
        let ahead = geometry.aabb(&CollisionShapes::Sphere(self.sphere_shape), &predicted);
        let both = geometry.joined(&aabb, &ahead);
        let triangles = geometry.triangles(&self.tri_mesh, &both);
        callback.process_triangles(geometry, &triangles);
        proof {
            assert(self.sweep().passes_all(geometry, triangles@, 0, callback));
        }
        match self.resolve(callback.earliest) {
            None => (None, listener),
            Some((normal, point)) => match callback.earliest {
                None => (None, listener),
                Some(contact) => {
                    let (manifold, told) = self.land(manifolds, normal, point, contact.triangle_idx, listener);
                    (Some(manifold), told)
                },
            },
        }
    }
}

/// The contacts of a sphere with a mesh of triangles, and the listener after it has heard of
/// them.
pub fn process_collision<T, M: Manifolds<T>, G: Geometry>(
    geometry: &G,
    manifolds: &M,
    convex_obj: &RigidBody,
    sphere_shape: &SphereShape,
    concave_obj: &RigidBody,
    tri_mesh: &BvhTriangleMeshShape,
    listener: T,
) -> (r: (Option<PersistentManifold>, T))
    ensures
        (SphereOnMesh {
            convex_obj: *convex_obj,
            sphere_shape: *sphere_shape,
            concave_obj: *concave_obj,
            tri_mesh: *tri_mesh,
        }).meets(geometry, manifolds, listener, r.0, r.1),
{
    let pair = SphereOnMesh {
        convex_obj: *convex_obj,
        sphere_shape: *sphere_shape,
        concave_obj: *concave_obj,
        tri_mesh: *tri_mesh,
    };
    let center = convex_obj.world_trans.translation;
    let to_mesh = concave_obj.world_trans.transpose();
    let place = Affine3A {
        matrix3: to_mesh.matrix3.mul_mat3a(convex_obj.world_trans.matrix3),
        translation: to_mesh.transform_point3a(center),
    };
    let callback = SphereTriangleCallback::new(
        manifolds,
        convex_obj,
        concave_obj,
        place.translation,
        sphere_shape.radius,
        listener,
    );
    let aabb = geometry.aabb(&CollisionShapes::Sphere(*sphere_shape), &place);
    let triangles = geometry.triangles(tri_mesh, &aabb);
    let ghost bare = callback.manifold;
    proof {
        assert(callback == pair.gatherer(bare, listener));
    }
    let full = callback.process_triangles(geometry, manifolds, &triangles);
    proof {
        assert(pair.gatherer(bare, listener).gathers_all(geometry, manifolds, triangles@, 0, full));
    }
    if full.manifold.point_cache.len() > 0 {
        let moved = manifolds.refresh_contact_points(full.manifold, convex_obj, concave_obj);
        let movement = convex_obj.interp_world_trans.translation.minus(center);
        if is_separated_crossbar_contact(&moved.point_cache, center, movement) {
            return (None, full.listener);
        }
        return (Some(moved), full.listener);
    }
    let predicted = Affine3A {
        matrix3: place.matrix3,
        translation: to_mesh.transform_point3a(convex_obj.interp_world_trans.translation),
    };
    if predicted.translation.equals(place.translation) {
        return (None, full.listener);
    }
    if !may_reach_soccar_goal_rim(center, convex_obj.interp_world_trans.translation, sphere_shape.radius) {
        return (None, full.listener);
    }
    pair.sweep_for_contact(geometry, manifolds, place, predicted, aabb, full.listener)
}

/// Once a sphere has run into something, a look at more triangles finds nothing later, and the way of
/// the sphere stays the same.
pub proof fn law_only_earlier_contacts_count<G: Geometry>(
    before: SweptSphereTriangleCallback,
    geometry: &G,
    triangles: Seq<(TriangleShape, usize)>,
    i: nat,
    end: SweptSphereTriangleCallback,
)
    requires
        before.passes_all(geometry, triangles, i, end),
    ensures
        end == (SweptSphereTriangleCallback { earliest: end.earliest, ..before }),
        before.earliest is Some ==> end.earliest is Some && (end.earliest == before.earliest
            || end.earliest->Some_0.toi.less(before.earliest->Some_0.toi)),
    decreases triangles.len() - i,
{
    if i < triangles.len() {
        let next = choose|next: SweptSphereTriangleCallback| #[trigger]
            before.passes(geometry, &triangles[i as int].0, triangles[i as int].1, next) && next.passes_all(
                geometry,
                triangles,
                i + 1,
                end,
            );
        law_only_earlier_contacts_count(next, geometry, triangles, i + 1, end);
    }
}

/// A part of the way that is a NaN leads to no contact.
proof fn lemma_no_contact_at_nan(sweep: SweptSphereTriangleCallback, triangle: TriangleShape, toi: Single, point: Vec3A)
    requires
        toi.is_a_nan(),
    ensures
        !(sweep.advance_from(triangle, toi, point) is Contact),
        sweep.advance_from(triangle, toi, point) is To ==> sweep.advance_from(triangle, toi, point)->To_0.is_a_nan(),
{
    let center = sweep.center_at(toi);
    law_nan_spreads(toi, sweep.delta.x);
    law_nan_spreads(sweep.delta.x.times(toi), sweep.start.x);
    law_nan_spreads(center.x, point.x);
    let offset = center.minus(point);
    law_nan_spreads(offset.x, offset.x);
    law_nan_spreads(offset.x.times(offset.x), offset.y.times(offset.y));
    law_nan_spreads(offset.x.times(offset.x).plus(offset.y.times(offset.y)), offset.z.times(offset.z));
    law_nan_spreads(offset.dot(offset), offset.x);
    let distance = offset.length();
    law_nan_spreads(distance, sweep.radius);
    let separation = distance.minus(sweep.radius);
    let closing = sweep.delta.dot(triangle.normal).negate();
    law_nan_spreads(toi, separation.over(closing));
}

/// A sphere runs into things on its way only: after no less than none and no more than all of it.
pub proof fn law_contacts_are_on_the_way<G: Geometry>(
    sweep: SweptSphereTriangleCallback,
    geometry: &G,
    triangle: &TriangleShape,
    triangle_idx: usize,
    toi: Single,
    advances: nat,
    outcome: Option<SweptContact>,
)
    requires
        sweep.finds(geometry, triangle, triangle_idx, toi, advances, outcome),
        toi.is_a_nan() || !toi.negative() && toi.at_most(Single { bits: ONE_BITS }),
    ensures
        outcome is Some ==> outcome->Some_0.triangle_idx == triangle_idx && toi.at_most(outcome->Some_0.toi)
            && outcome->Some_0.toi.at_most(Single { bits: ONE_BITS }),
    decreases advances,
{
    if advances > 0 {
        let point = choose|point: Vec3A| #[trigger]
            call_ensures(G::closest_point, (geometry, triangle, sweep.corners_to(triangle, toi)), point)
                && match sweep.advance_from(*triangle, toi, point) {
                Advance::Contact(normal) => outcome == Some(SweptContact { toi, normal, point, triangle_idx }),
                Advance::Miss => outcome is None,
                Advance::To(next) => sweep.finds(
                    geometry,
                    triangle,
                    triangle_idx,
                    next,
                    (advances - 1) as nat,
                    outcome,
                ),
            };
        if toi.is_a_nan() {
            lemma_no_contact_at_nan(sweep, *triangle, toi, point);
        }
        match sweep.advance_from(*triangle, toi, point) {
            Advance::To(next) => {
                let offset = sweep.center_at(toi).minus(point);
                let distance = offset.length();
                let separation = distance.minus(sweep.radius);
                let normal = if (Single { bits: EPSILON }).less(distance) {
                    offset.over(distance)
                } else {
                    triangle.normal
                };
                let closing = sweep.delta.dot(normal).negate();
                let part = separation.over(closing);
                if separation.is_a_nan() {
                    law_nan_spreads(separation, closing);
                } else if closing.is_a_nan() {
                    law_nan_spreads(closing, separation);
                } else {
                    law_quotient_of_positives(separation, closing);
                }
                if !toi.is_a_nan() {
                    if part.is_a_nan() {
                        law_nan_spreads(part, toi);
                    } else {
                        law_sum_of_positives(toi, part);
                    }
                }
                law_contacts_are_on_the_way(
                    sweep,
                    geometry,
                    triangle,
                    triangle_idx,
                    next,
                    (advances - 1) as nat,
                    outcome,
                );
                if next.is_a_nan() && outcome is Some {
                    lemma_nothing_found_at_nan(
                        sweep,
                        geometry,
                        triangle,
                        triangle_idx,
                        next,
                        (advances - 1) as nat,
                        outcome,
                    );
                }
            },
            _ => {},
        }
    }
}

proof fn lemma_nothing_found_at_nan<G: Geometry>(
    sweep: SweptSphereTriangleCallback,
    geometry: &G,
    triangle: &TriangleShape,
    triangle_idx: usize,
    toi: Single,
    advances: nat,
    outcome: Option<SweptContact>,
)
    requires
        sweep.finds(geometry, triangle, triangle_idx, toi, advances, outcome),
        toi.is_a_nan(),
    ensures
        outcome is None,
    decreases advances,
{
    if advances > 0 {
        let point = choose|point: Vec3A| #[trigger]
            call_ensures(G::closest_point, (geometry, triangle, sweep.corners_to(triangle, toi)), point)
                && match sweep.advance_from(*triangle, toi, point) {
                Advance::Contact(normal) => outcome == Some(SweptContact { toi, normal, point, triangle_idx }),
                Advance::Miss => outcome is None,
                Advance::To(next) => sweep.finds(
                    geometry,
                    triangle,
                    triangle_idx,
                    next,
                    (advances - 1) as nat,
                    outcome,
                ),
            };
        lemma_no_contact_at_nan(sweep, *triangle, toi, point);
        match sweep.advance_from(*triangle, toi, point) {
            Advance::To(next) => {
                lemma_nothing_found_at_nan(
                    sweep,
                    geometry,
                    triangle,
                    triangle_idx,
                    next,
                    (advances - 1) as nat,
                    outcome,
                );
            },
            _ => {},
        }
    }
}

} // verus!
