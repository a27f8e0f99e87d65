//! Bodies in a world, and which of them touch.
use crate::bullet::body::{CollisionShapes, CompoundShape, RigidBody, SphereShape, UserInfoTypes};
use crate::bullet::broadphase::{BroadphaseProxy, GridBroadphase, Narrowphase};
use crate::bullet::geometry::{Aabb, Geometry};
use crate::bullet::manifold::{Manifolds, PersistentManifold, CONTACT_BREAKING_THRESHOLD};
use crate::bullet::sphere_obb_collision_alg::{flight_of, gap, separation, time_of_impact};
use crate::math::Vec3A;
use crate::single::Single;
use vstd::prelude::*;

verus! {

/// Contacts of cars with the ball are looked for ahead of time.
pub const ENABLE_CAR_BALL_TOI: bool = false;

#[derive(Debug)]
pub struct CollisionDispatcher {
    pub manifolds: Vec<PersistentManifold>,
}

#[derive(Debug)]
pub struct CollisionWorld {
    pub collision_objs: Vec<RigidBody>,
    pub dispatcher1: CollisionDispatcher,
    pub broadphase_pair_cache: GridBroadphase,
    /// The first bodies that do not move and whose boxes are known.
    pub num_skippable_statics: usize,
}

/// A car and the ball.
#[derive(Clone, Copy, Debug)]
pub struct CarBallPair {
    pub sphere: RigidBody,
    pub sphere_shape: SphereShape,
    pub obb: RigidBody,
    pub obb_shape: CompoundShape,
}

/// The ball and a car among two bodies, if they are that, with the shapes that they should have.
pub open spec fn car_and_ball(a: RigidBody, b: RigidBody) -> Option<CarBallPair> {
    let found = match (a.user_idx, b.user_idx) {
        (UserInfoTypes::Ball, UserInfoTypes::Car) => Some((a, b)),
        (UserInfoTypes::Car, UserInfoTypes::Ball) => Some((b, a)),
        _ => None,
    };
    match found {
        None => None,
        Some((sphere, obb)) => match (sphere.collision_shape, obb.collision_shape) {
            (CollisionShapes::Sphere(sphere_shape), CollisionShapes::Compound(obb_shape)) => Some(
                CarBallPair { sphere, sphere_shape, obb, obb_shape },
            ),
            _ => None,
        },
    }
}

/// A box with a margin.
pub open spec fn grown(aabb: Aabb) -> Aabb {
    let margin = Vec3A::splat(Single { bits: CONTACT_BREAKING_THRESHOLD });
    Aabb { min: aabb.min.minus(margin), max: aabb.max.plus(margin) }
}

fn grow(aabb: Aabb) -> (r: Aabb)
    ensures
        r == grown(aabb),
{
    let margin = Vec3A::splat(Single::of(CONTACT_BREAKING_THRESHOLD));
    Aabb { min: aabb.min.minus(margin), max: aabb.max.plus(margin) }
}

/// The box around a body, and around where it is predicted to be if it moves, may be `aabb`.
pub open spec fn surrounds<G: Geometry>(geometry: &G, obj: RigidBody, aabb: Aabb) -> bool {
    exists|now: Aabb| #[trigger]
        call_ensures(G::aabb, (geometry, &obj.collision_shape, &obj.world_trans), now) && if obj.is_static {
            aabb == grown(now)
        } else {
            exists|ahead: Aabb| #[trigger]
                call_ensures(G::aabb, (geometry, &obj.collision_shape, &obj.interp_world_trans), ahead)
                    && call_ensures(G::joined, (geometry, &grown(now), &grown(ahead)), aabb)
        }
}

fn surround<G: Geometry>(geometry: &G, obj: &RigidBody) -> (r: Aabb)
    ensures
        surrounds(geometry, *obj, r),
{
    let now = geometry.aabb(&obj.collision_shape, &obj.world_trans);
    let aabb = grow(now);
    if obj.is_static {
        aabb
    } else {
        let ahead = geometry.aabb(&obj.collision_shape, &obj.interp_world_trans);
        let aabb2 = grow(ahead);
        geometry.joined(&aabb, &aabb2)
    }
}

/// The first bodies that do not move end at `n`.
pub open spec fn statics_end(objs: Seq<RigidBody>, n: int) -> bool {
    &&& 0 <= n <= objs.len()
    &&& forall|i: int| 0 <= i < n ==> (#[trigger] objs[i]).is_static
    &&& n < objs.len() ==> !objs[n].is_static
}

impl CollisionWorld {
    /// Bodies are numbered, each is known to the broad phase by its number, and the first ones that
    /// are skipped do not move.
    pub open spec fn wf(self) -> bool {
        &&& self.broadphase_pair_cache.proxies@.len() == self.collision_objs@.len()
        &&& forall|i: int|
            0 <= i < self.collision_objs@.len() ==> (#[trigger] self.collision_objs@[i]).world_array_idx == i
                && self.collision_objs@[i].broadphase_handle == i
        &&& self.num_skippable_statics <= self.collision_objs@.len()
        &&& forall|i: int|
            0 <= i < self.num_skippable_statics ==> (#[trigger] self.collision_objs@[i]).is_static
    }

    pub fn new(pair_cache: GridBroadphase) -> (r: CollisionWorld)
        ensures
            r.collision_objs@.len() == 0,
            r.dispatcher1.manifolds@.len() == 0,
            r.broadphase_pair_cache == pair_cache,
            r.num_skippable_statics == 0,
            pair_cache.proxies@.len() == 0 ==> r.wf(),
    {
        CollisionWorld {
            collision_objs: Vec::new(),
            dispatcher1: CollisionDispatcher { manifolds: Vec::new() },
            broadphase_pair_cache: pair_cache,
            num_skippable_statics: 0,
        }
    }

    /// Adds a body, and gives its number.
    pub fn add_collision_obj<G: Geometry>(
        &mut self,
        geometry: &G,
        obj: RigidBody,
        filter_group: u8,
        filter_mask: u8,
    ) -> (r: usize)
        ensures
            r == old(self).collision_objs@.len(),
            final(self).collision_objs@ == old(self).collision_objs@.push(
                RigidBody {
                    world_array_idx: r,
                    broadphase_handle: old(self).broadphase_pair_cache.proxies@.len() as usize,
                    ..obj
                },
            ),
            exists|aabb: Aabb| #[trigger]
                call_ensures(G::aabb, (geometry, &obj.collision_shape, &obj.world_trans), aabb)
                    && final(self).broadphase_pair_cache.proxies@ == old(self).broadphase_pair_cache.proxies@.push(
                    BroadphaseProxy { aabb, filter_group, filter_mask },
                ),
            final(self).dispatcher1 == old(self).dispatcher1,
            final(self).num_skippable_statics == old(self).num_skippable_statics,
            old(self).wf() ==> final(self).wf(),
    {
        let idx: usize = self.collision_objs.len();
        let aabb = geometry.aabb(&obj.collision_shape, &obj.world_trans);
        let proxy: usize = self.broadphase_pair_cache.create_proxy(aabb, filter_group, filter_mask);
        self.collision_objs.push(RigidBody { world_array_idx: idx, broadphase_handle: proxy, ..obj });
        idx
    }

    /// Sets the boxes of all bodies, but for the first ones that do not move and whose boxes are
    /// known.
    pub fn update_aabbs<G: Geometry>(&mut self, geometry: &G)
        requires
            old(self).wf(),
        ensures
            final(self).wf(),
            final(self).collision_objs == old(self).collision_objs,
            final(self).dispatcher1 == old(self).dispatcher1,
            old(self).num_skippable_statics <= final(self).num_skippable_statics,
            statics_end(old(self).collision_objs@, final(self).num_skippable_statics as int),
            forall|i: int|
                0 <= i < old(self).num_skippable_statics ==> #[trigger] final(self).broadphase_pair_cache.proxies@[i]
                    == old(self).broadphase_pair_cache.proxies@[i],
            forall|i: int|
                old(self).num_skippable_statics <= i < old(self).collision_objs@.len() ==> surrounds(
                    geometry,
                    old(self).collision_objs@[i],
                    (#[trigger] final(self).broadphase_pair_cache.proxies@[i]).aabb,
                ) && final(self).broadphase_pair_cache.proxies@[i] == (BroadphaseProxy {
                    aabb: final(self).broadphase_pair_cache.proxies@[i].aabb,
                    ..old(self).broadphase_pair_cache.proxies@[i]
                }),
    {
        let ghost before = *self;
        let first: usize = self.num_skippable_statics;
        let count: usize = self.collision_objs.len();
        let mut prev_is_static: bool = true;
        let mut i: usize = first;
        while i < count
            invariant
                before == *old(self),
                before.wf(),
                self.collision_objs == before.collision_objs,
                self.dispatcher1 == before.dispatcher1,
                first == before.num_skippable_statics,
                count == self.collision_objs@.len(),
                first <= i <= count,
                first <= self.num_skippable_statics <= i,
                self.broadphase_pair_cache.proxies@.len() == count,
                forall|j: int| 0 <= j < self.num_skippable_statics ==> (#[trigger] self.collision_objs@[j]).is_static,
                prev_is_static ==> self.num_skippable_statics == i,
                !prev_is_static ==> self.num_skippable_statics < i
                    && !self.collision_objs@[self.num_skippable_statics as int].is_static,
                forall|j: int|
                    0 <= j < first || i <= j < count ==> #[trigger] self.broadphase_pair_cache.proxies@[j]
                        == before.broadphase_pair_cache.proxies@[j],
                forall|j: int|
                    first <= j < i ==> surrounds(
                        geometry,
                        before.collision_objs@[j],
                        (#[trigger] self.broadphase_pair_cache.proxies@[j]).aabb,
                    ) && self.broadphase_pair_cache.proxies@[j] == (BroadphaseProxy {
                        aabb: self.broadphase_pair_cache.proxies@[j].aabb,
                        ..before.broadphase_pair_cache.proxies@[j]
                    }),
            decreases count - i,
        {
            let col_obj = self.collision_objs[i];
            if prev_is_static && col_obj.is_static {
                self.num_skippable_statics = self.num_skippable_statics + 1;
            } else {
                prev_is_static = false;
            }
            let aabb = surround(geometry, &col_obj);
            self.broadphase_pair_cache.set_aabb(col_obj.broadphase_handle, aabb);
            i = i + 1;
        }
    }

    /// Finds the manifolds of all bodies that touch, but for the pairs to be skipped.
    pub fn perform_discrete_collision_detection<T, N: Narrowphase<T>, G: Geometry>(
        &mut self,
        geometry: &G,
        narrowphase: &N,
        skipped_pairs: &Vec<(usize, usize)>,
        listener: T,
    ) -> (told: T)
        requires
            old(self).wf(),
        ensures
            final(self).wf(),
            final(self).collision_objs == old(self).collision_objs,
            call_ensures(
                N::dispatch_all,
                (
                    narrowphase,
                    &old(self).collision_objs,
                    &final(self).broadphase_pair_cache,
                    skipped_pairs,
                    old(self).dispatcher1.manifolds,
                    listener,
                ),
                (final(self).dispatcher1.manifolds, told),
            ),
            forall|i: int|
                old(self).num_skippable_statics <= i < old(self).collision_objs@.len() ==> surrounds(
                    geometry,
                    old(self).collision_objs@[i],
                    (#[trigger] final(self).broadphase_pair_cache.proxies@[i]).aabb,
                ),
            forall|i: int|
                0 <= i < old(self).num_skippable_statics ==> #[trigger] final(self).broadphase_pair_cache.proxies@[i]
                    == old(self).broadphase_pair_cache.proxies@[i],
            forall|i: int|
                0 <= i < old(self).collision_objs@.len() ==> (
                #[trigger] final(self).broadphase_pair_cache.proxies@[i]).filter_group
                    == old(self).broadphase_pair_cache.proxies@[i].filter_group
                    && final(self).broadphase_pair_cache.proxies@[i].filter_mask
                    == old(self).broadphase_pair_cache.proxies@[i].filter_mask,
            statics_end(old(self).collision_objs@, final(self).num_skippable_statics as int),
    {
        self.update_aabbs(geometry);
        let mut manifolds: Vec<PersistentManifold> = Vec::new();
        std::mem::swap(&mut manifolds, &mut self.dispatcher1.manifolds);
        let (found, told) = narrowphase.dispatch_all(
            &self.collision_objs,
            &self.broadphase_pair_cache,
            skipped_pairs,
            manifolds,
            listener,
        );
        self.dispatcher1.manifolds = found;
        told
    }

    /// Two bodies may touch: one of them is active, both respond to contacts, and their filters
    /// allow it.
    pub open spec fn collidable<T, N: Narrowphase<T>>(self, narrowphase: &N, a: int, b: int, r: bool) -> bool {
        let body_a = self.collision_objs@[a];
        let body_b = self.collision_objs@[b];
        if (body_a.active || body_b.active) && body_a.contact_response && body_b.contact_response {
            call_ensures(
                N::needs_collision,
                (
                    narrowphase,
                    &self.broadphase_pair_cache.proxies@[body_a.broadphase_handle as int],
                    &self.broadphase_pair_cache.proxies@[body_b.broadphase_handle as int],
                ),
                r,
            )
        } else {
            !r
        }
    }

    pub fn can_collide_pair<T, N: Narrowphase<T>>(&self, narrowphase: &N, body_a_idx: usize, body_b_idx: usize) -> (r: bool)
        requires
            self.wf(),
            body_a_idx < self.collision_objs@.len(),
            body_b_idx < self.collision_objs@.len(),
        ensures
            self.collidable::<T, N>(narrowphase, body_a_idx as int, body_b_idx as int, r),
    {
        let body_a = self.collision_objs[body_a_idx];
        let body_b = self.collision_objs[body_b_idx];
        (body_a.active || body_b.active) && body_a.contact_response && body_b.contact_response
            && narrowphase.needs_collision(
            &self.broadphase_pair_cache.proxies[body_a.broadphase_handle],
            &self.broadphase_pair_cache.proxies[body_b.broadphase_handle],
        )
    }

    /// Adds the manifold of two bodies, if they may touch and do.
    pub fn dispatch_pair<T, N: Narrowphase<T>>(
        &mut self,
        narrowphase: &N,
        body_a_idx: usize,
        body_b_idx: usize,
        listener: T,
    ) -> (r: (T, bool))
        requires
            old(self).wf(),
            body_a_idx < old(self).collision_objs@.len(),
            body_b_idx < old(self).collision_objs@.len(),
        ensures
            final(self).wf(),
            final(self).collision_objs == old(self).collision_objs,
            final(self).broadphase_pair_cache == old(self).broadphase_pair_cache,
            final(self).num_skippable_statics == old(self).num_skippable_statics,
            exists|can: bool| #[trigger]
                old(self).collidable::<T, N>(narrowphase, body_a_idx as int, body_b_idx as int, can) && if can {
                    call_ensures(
                        N::dispatch_pair,
                        (
                            narrowphase,
                            &old(self).collision_objs,
                            body_a_idx,
                            body_b_idx,
                            old(self).dispatcher1.manifolds,
                            listener,
                        ),
                        (final(self).dispatcher1.manifolds, r.0, r.1),
                    )
                } else {
                    final(self).dispatcher1 == old(self).dispatcher1 && r == (listener, false)
                },
    {
        if !self.can_collide_pair(narrowphase, body_a_idx, body_b_idx) {
            return (listener, false);
        }
        let mut manifolds: Vec<PersistentManifold> = Vec::new();
        std::mem::swap(&mut manifolds, &mut self.dispatcher1.manifolds);
        let (found, told, touched) = narrowphase.dispatch_pair(
            &self.collision_objs,
            body_a_idx,
            body_b_idx,
            manifolds,
            listener,
        );
        self.dispatcher1.manifolds = found;
        (told, touched)
    }

    /// The ball and a car among two bodies.
    pub fn car_ball_pair(&self, body_a_idx: usize, body_b_idx: usize) -> (r: Option<CarBallPair>)
        requires
            body_a_idx < self.collision_objs@.len(),
            body_b_idx < self.collision_objs@.len(),
        ensures
            r == car_and_ball(self.collision_objs@[body_a_idx as int], self.collision_objs@[body_b_idx as int]),
    {
        let body_a = self.collision_objs[body_a_idx];
        let body_b = self.collision_objs[body_b_idx];
        let (sphere, obb) = match (body_a.user_idx, body_b.user_idx) {
            (UserInfoTypes::Ball, UserInfoTypes::Car) => (body_a, body_b),
            (UserInfoTypes::Car, UserInfoTypes::Ball) => (body_b, body_a),
            _ => return None,
        };
        match (sphere.collision_shape, obb.collision_shape) {
            (CollisionShapes::Sphere(sphere_shape), CollisionShapes::Compound(obb_shape)) => Some(
                CarBallPair { sphere, sphere_shape, obb, obb_shape },
            ),
            _ => None,
        }
    }

    /// The gap between the car and the ball of a pair.
    pub open spec fn pair_gap(self, pair: (usize, usize)) -> Option<Single> {
        match car_and_ball(self.collision_objs@[pair.0 as int], self.collision_objs@[pair.1 as int]) {
            None => None,
            Some(p) => Some(
                gap(p.sphere.world_trans.translation, p.sphere_shape.radius, p.obb.world_trans, &p.obb_shape),
            ),
        }
    }

    pub fn car_ball_separation(&self, pair: (usize, usize)) -> (r: Option<Single>)
        requires
            pair.0 < self.collision_objs@.len(),
            pair.1 < self.collision_objs@.len(),
        ensures
            r == self.pair_gap(pair),
    {
        match self.car_ball_pair(pair.0, pair.1) {
            None => None,
            Some(p) => Some(separation(&p.sphere, &p.sphere_shape, &p.obb, &p.obb_shape)),
        }
    }

    /// Within which gap a car and the ball have a contact may be `threshold`.
    pub open spec fn pair_threshold<T, M: Manifolds<T>>(
        self,
        manifolds: &M,
        pair: (usize, usize),
        threshold: Option<Single>,
    ) -> bool {
        match car_and_ball(self.collision_objs@[pair.0 as int], self.collision_objs@[pair.1 as int]) {
            None => threshold is None,
            Some(p) => exists|manifold: PersistentManifold| #[trigger]
                call_ensures(M::manifold, (manifolds, &p.sphere, &p.obb), manifold) && threshold == Some(
                    manifold.contact_breaking_threshold,
                ),
        }
    }

    pub fn car_ball_contact_threshold<T, M: Manifolds<T>>(&self, manifolds: &M, pair: (usize, usize)) -> (r: Option<Single>)
        requires
            pair.0 < self.collision_objs@.len(),
            pair.1 < self.collision_objs@.len(),
        ensures
            self.pair_threshold::<T, M>(manifolds, pair, r),
    {
        match self.car_ball_pair(pair.0, pair.1) {
            None => None,
            Some(p) => {
                let manifold = manifolds.manifold(&p.sphere, &p.obb);
                Some(manifold.contact_breaking_threshold)
            },
        }
    }

    /// When the car and the ball of a pair touch within a time may be `impact`. It is not looked for
    /// unless that is enabled. The velocity that forces add may count.
    pub open spec fn pair_impact<G: Geometry>(
        self,
        geometry: &G,
        pair: (usize, usize),
        time_step: Single,
        with_forces: bool,
        impact: Option<Single>,
    ) -> bool {
        if !ENABLE_CAR_BALL_TOI {
            impact is None
        } else {
            match car_and_ball(self.collision_objs@[pair.0 as int], self.collision_objs@[pair.1 as int]) {
                None => impact is None,
                Some(p) => {
                    let none = Vec3A::zero();
                    flight_of(
                        &p.sphere,
                        &p.sphere_shape,
                        p.sphere.lin_vel.plus(if with_forces { p.sphere.accum_lin_vel } else { none }),
                        &p.obb,
                        &p.obb_shape,
                        p.obb.lin_vel.plus(if with_forces { p.obb.accum_lin_vel } else { none }),
                        p.obb.ang_vel.plus(if with_forces { p.obb.accum_ang_vel } else { none }),
                    ).impacts(geometry, time_step, impact)
                },
            }
        }
    }

    pub fn car_ball_time_of_impact<G: Geometry>(
        &self,
        geometry: &G,
        pair: (usize, usize),
        time_step: Single,
        include_accumulated_velocity: bool,
    ) -> (r: Option<Single>)
        requires
            pair.0 < self.collision_objs@.len(),
            pair.1 < self.collision_objs@.len(),
        ensures
            self.pair_impact(geometry, pair, time_step, include_accumulated_velocity, r),
    {
        if !ENABLE_CAR_BALL_TOI {
            return None;
        }
        match self.car_ball_pair(pair.0, pair.1) {
            None => None,
            Some(p) => {
                let zero = Vec3A::zero();
                let sphere_lin_vel = p.sphere.lin_vel.plus(
                    if include_accumulated_velocity { p.sphere.accum_lin_vel } else { zero },
                );
                let obb_lin_vel = p.obb.lin_vel.plus(
                    if include_accumulated_velocity { p.obb.accum_lin_vel } else { zero },
                );
                let obb_ang_vel = p.obb.ang_vel.plus(
                    if include_accumulated_velocity { p.obb.accum_ang_vel } else { zero },
                );
                time_of_impact(
                    geometry,
                    &p.sphere,
                    &p.sphere_shape,
                    sphere_lin_vel,
                    &p.obb,
                    &p.obb_shape,
                    obb_lin_vel,
                    obb_ang_vel,
                    time_step,
                )
            },
        }
    }
}

/// There is a gap.
pub open spec fn is_apart(gap: Option<Single>) -> bool {
    gap is Some && (Single { bits: 0 }).less(gap->Some_0)
}

/// The numbers of those among the first `n` bodies that stand for something.
pub open spec fn of_kind(objs: Seq<RigidBody>, kind: UserInfoTypes, n: int) -> Seq<usize>
    decreases n,
{
    if n <= 0 {
        Seq::empty()
    } else if objs[n - 1].user_idx == kind {
        of_kind(objs, kind, n - 1).push(objs[n - 1].world_array_idx)
    } else {
        of_kind(objs, kind, n - 1)
    }
}

/// Two numbers, the smaller one first.
pub open spec fn ordered(a: usize, b: usize) -> (usize, usize) {
    if a <= b {
        (a, b)
    } else {
        (b, a)
    }
}

/// Two different bodies, a car and the ball, the smaller number first.
pub open spec fn is_car_ball_pair(objs: Seq<RigidBody>, pair: (usize, usize)) -> bool {
    &&& pair.0 < pair.1 < objs.len()
    &&& car_and_ball(objs[pair.0 as int], objs[pair.1 as int]) is Some
}

/// Every one of some pairs is a car and the ball.
pub open spec fn are_car_ball_pairs(objs: Seq<RigidBody>, pairs: Seq<(usize, usize)>) -> bool {
    forall|k: int| 0 <= k < pairs.len() ==> is_car_ball_pair(objs, #[trigger] pairs[k])
}

impl CollisionWorld {
    /// The pairs of a ball with the cars from the `j`th on that may touch are added to `pairs`.
    pub open spec fn pairs_with<T, N: Narrowphase<T>>(
        self,
        narrowphase: &N,
        ball: usize,
        cars: Seq<usize>,
        j: nat,
        pairs: Seq<(usize, usize)>,
        out: Seq<(usize, usize)>,
    ) -> bool
        decreases cars.len() - j,
    {
        if j >= cars.len() {
            out == pairs
        } else {
            let pair = ordered(ball, cars[j as int]);
            if car_and_ball(self.collision_objs@[pair.0 as int], self.collision_objs@[pair.1 as int]) is None {
                self.pairs_with::<T, N>(narrowphase, ball, cars, j + 1, pairs, out)
            } else {
                exists|can: bool| #[trigger]
                    self.collidable::<T, N>(narrowphase, pair.0 as int, pair.1 as int, can) && self.pairs_with::<T, N>(
                        narrowphase,
                        ball,
                        cars,
                        j + 1,
                        if can {
                            pairs.push(pair)
                        } else {
                            pairs
                        },
                        out,
                    )
            }
        }
    }

    /// The pairs of the balls from the `i`th on with cars that may touch are added to `pairs`.
    pub open spec fn pairs_from<T, N: Narrowphase<T>>(
        self,
        narrowphase: &N,
        balls: Seq<usize>,
        cars: Seq<usize>,
        i: nat,
        pairs: Seq<(usize, usize)>,
        out: Seq<(usize, usize)>,
    ) -> bool
        decreases balls.len() - i,
    {
        if i >= balls.len() {
            out == pairs
        } else {
            exists|next: Seq<(usize, usize)>| #[trigger]
                self.pairs_with::<T, N>(narrowphase, balls[i as int], cars, 0, pairs, next) && self.pairs_from::<T, N>(
                    narrowphase,
                    balls,
                    cars,
                    i + 1,
                    next,
                    out,
                )
        }
    }

    /// The pairs of a ball and a car that may touch, ball by ball, may be `pairs`.
    pub open spec fn pairs_up<T, N: Narrowphase<T>>(self, narrowphase: &N, pairs: Seq<(usize, usize)>) -> bool {
        let n = self.collision_objs@.len() as int;
        self.pairs_from::<T, N>(
            narrowphase,
            of_kind(self.collision_objs@, UserInfoTypes::Ball, n),
            of_kind(self.collision_objs@, UserInfoTypes::Car, n),
            0,
            Seq::empty(),
            pairs,
        )
    }

    /// The numbers of the bodies that stand for something.
    fn indices_of(&self, kind: UserInfoTypes) -> (r: Vec<usize>)
        requires
            self.wf(),
        ensures
            r@ == of_kind(self.collision_objs@, kind, self.collision_objs@.len() as int),
            forall|k: int|
                0 <= k < r@.len() ==> #[trigger] r@[k] < self.collision_objs@.len()
                    && self.collision_objs@[r@[k] as int].user_idx == kind,
    {
        let mut r: Vec<usize> = Vec::new();
        let mut i: usize = 0;
        while i < self.collision_objs.len()
            invariant
                self.wf(),
                i <= self.collision_objs@.len(),
                r@ == of_kind(self.collision_objs@, kind, i as int),
                forall|k: int|
                    0 <= k < r@.len() ==> #[trigger] r@[k] < self.collision_objs@.len()
                        && self.collision_objs@[r@[k] as int].user_idx == kind,
            decreases self.collision_objs@.len() - i,
        {
            let body = self.collision_objs[i];
            if body.user_idx == kind {
                r.push(body.world_array_idx);
            }
            i = i + 1;
        }
        r
    }

    /// Adds the pairs of a ball with cars that may touch.
    fn add_pairs_with<T, N: Narrowphase<T>>(
        &self,
        narrowphase: &N,
        ball: usize,
        cars: &Vec<usize>,
        pairs: &mut Vec<(usize, usize)>,
    )
        requires
            self.wf(),
            ball < self.collision_objs@.len(),
            self.collision_objs@[ball as int].user_idx == UserInfoTypes::Ball,
            forall|k: int|
                0 <= k < cars@.len() ==> #[trigger] cars@[k] < self.collision_objs@.len()
                    && self.collision_objs@[cars@[k] as int].user_idx == UserInfoTypes::Car,
            are_car_ball_pairs(self.collision_objs@, old(pairs)@),
        ensures
            self.pairs_with::<T, N>(narrowphase, ball, cars@, 0, old(pairs)@, final(pairs)@),
            are_car_ball_pairs(self.collision_objs@, final(pairs)@),
    {
        let ghost start = pairs@;
        let mut j: usize = 0;
        while j < cars.len()
            invariant
                self.wf(),
                j <= cars@.len(),
                ball < self.collision_objs@.len(),
                self.collision_objs@[ball as int].user_idx == UserInfoTypes::Ball,
                forall|k: int|
                    0 <= k < cars@.len() ==> #[trigger] cars@[k] < self.collision_objs@.len()
                        && self.collision_objs@[cars@[k] as int].user_idx == UserInfoTypes::Car,
                are_car_ball_pairs(self.collision_objs@, pairs@),
                forall|out: Seq<(usize, usize)>| #[trigger]
                    self.pairs_with::<T, N>(narrowphase, ball, cars@, j as nat, pairs@, out) ==> self.pairs_with::<
                        T,
                        N,
                    >(narrowphase, ball, cars@, 0, start, out),
            decreases cars@.len() - j,
        {
            let ghost here = pairs@;
            let ghost at = j as nat;
            let car: usize = cars[j];
            let pair: (usize, usize) = if ball <= car { (ball, car) } else { (car, ball) };
            let mut some: bool = false;
            let mut may: bool = false;
            if self.car_ball_pair(pair.0, pair.1).is_some() {
                some = true;
                may = self.can_collide_pair::<T, N>(narrowphase, pair.0, pair.1);
                if may {
                    pairs.push(pair);
                }
            }
            j = j + 1;
            proof {
                assert(cars@[at as int] == car);
                assert(pair == ordered(ball, cars@[at as int]));
                assert forall|out: Seq<(usize, usize)>| #[trigger]
                    self.pairs_with::<T, N>(
                        narrowphase,
                        ball,
                        cars@,
                        j as nat,
                        pairs@,
                        out,
                    ) implies self.pairs_with::<T, N>(narrowphase, ball, cars@, 0, start, out) by {
                    if some {
                        assert(self.collidable::<T, N>(narrowphase, pair.0 as int, pair.1 as int, may));
                    }
                    assert(self.pairs_with::<T, N>(narrowphase, ball, cars@, at, here, out));
                }
            }
        }
        proof {
            assert(self.pairs_with::<T, N>(narrowphase, ball, cars@, j as nat, pairs@, pairs@));
        }
    }

    /// The pairs of a ball and a car that may touch, ball by ball.
    pub fn car_ball_pairs<T, N: Narrowphase<T>>(&self, narrowphase: &N) -> (r: Vec<(usize, usize)>)
        requires
            self.wf(),
        ensures
            self.pairs_up::<T, N>(narrowphase, r@),
            are_car_ball_pairs(self.collision_objs@, r@),
    {
        let balls = self.indices_of(UserInfoTypes::Ball);
        let cars = self.indices_of(UserInfoTypes::Car);
        let mut pairs: Vec<(usize, usize)> = Vec::new();
        let ghost none: Seq<(usize, usize)> = Seq::empty();
        let mut i: usize = 0;
        while i < balls.len()
            invariant
                self.wf(),
                i <= balls@.len(),
                forall|k: int|
                    0 <= k < balls@.len() ==> #[trigger] balls@[k] < self.collision_objs@.len()
                        && self.collision_objs@[balls@[k] as int].user_idx == UserInfoTypes::Ball,
                forall|k: int|
                    0 <= k < cars@.len() ==> #[trigger] cars@[k] < self.collision_objs@.len()
                        && self.collision_objs@[cars@[k] as int].user_idx == UserInfoTypes::Car,
                are_car_ball_pairs(self.collision_objs@, pairs@),
                forall|out: Seq<(usize, usize)>| #[trigger]
                    self.pairs_from::<T, N>(narrowphase, balls@, cars@, i as nat, pairs@, out) ==> self.pairs_from::<
                        T,
                        N,
                    >(narrowphase, balls@, cars@, 0, none, out),
            decreases balls@.len() - i,
        {
            let ghost here = pairs@;
            let ghost at = i as nat;
            self.add_pairs_with::<T, N>(narrowphase, balls[i], &cars, &mut pairs);
            i = i + 1;
            proof {
                assert forall|out: Seq<(usize, usize)>| #[trigger]
                    self.pairs_from::<T, N>(
                        narrowphase,
                        balls@,
                        cars@,
                        i as nat,
                        pairs@,
                        out,
                    ) implies self.pairs_from::<T, N>(narrowphase, balls@, cars@, 0, none, out) by {
                    assert(self.pairs_with::<T, N>(narrowphase, balls@[at as int], cars@, 0, here, pairs@));
                    assert(self.pairs_from::<T, N>(narrowphase, balls@, cars@, at, here, out));
                }
            }
        }
        proof {
            assert(self.pairs_from::<T, N>(narrowphase, balls@, cars@, i as nat, pairs@, pairs@));
        }
        pairs
    }

    /// Of the pairs from the `k`th on, those that are apart and have an impact ahead of them within a
    /// time, with what forces add to their velocities, are added to `kept`.
    pub open spec fn awaits<G: Geometry>(
        self,
        geometry: &G,
        pairs: Seq<(usize, usize)>,
        k: nat,
        time_step: Single,
        kept: Seq<(usize, usize)>,
        out: Seq<(usize, usize)>,
    ) -> bool
        decreases pairs.len() - k,
    {
        if k >= pairs.len() {
            out == kept
        } else if !is_apart(self.pair_gap(pairs[k as int])) {
            self.awaits(geometry, pairs, k + 1, time_step, kept, out)
        } else {
            exists|impact: Option<Single>| #[trigger]
                self.pair_impact(geometry, pairs[k as int], time_step, true, impact) && self.awaits(
                    geometry,
                    pairs,
                    k + 1,
                    time_step,
                    if impact is Some {
                        kept.push(pairs[k as int])
                    } else {
                        kept
                    },
                    out,
                )
        }
    }

    /// The pairs of a ball and a car that are apart and will touch within a time. There are none
    /// unless they are looked for.
    pub fn car_ball_toi_pairs<T, N: Narrowphase<T>, G: Geometry>(
        &self,
        geometry: &G,
        narrowphase: &N,
        time_step: Single,
    ) -> (r: Vec<(usize, usize)>)
        requires
            self.wf(),
        ensures
            exists|all: Seq<(usize, usize)>| #[trigger]
                self.pairs_up::<T, N>(narrowphase, all) && self.awaits(
                    geometry,
                    all,
                    0,
                    time_step,
                    Seq::empty(),
                    r@,
                ),
            !ENABLE_CAR_BALL_TOI ==> r@.len() == 0,
            are_car_ball_pairs(self.collision_objs@, r@),
            forall|k: int|
                0 <= k < r@.len() ==> (Single { bits: 0 }).less(self.pair_gap(#[trigger] r@[k])->Some_0),
    {
        let pairs = self.car_ball_pairs::<T, N>(narrowphase);
        let ghost none: Seq<(usize, usize)> = Seq::empty();
        let mut r: Vec<(usize, usize)> = Vec::new();
        let mut i: usize = 0;
        proof {
            assert(r@ =~= none);
        }
        while i < pairs.len()
            invariant
                self.wf(),
                i <= pairs@.len(),
                are_car_ball_pairs(self.collision_objs@, pairs@),
                !ENABLE_CAR_BALL_TOI ==> r@.len() == 0,
                are_car_ball_pairs(self.collision_objs@, r@),
                forall|k: int|
                    0 <= k < r@.len() ==> (Single { bits: 0 }).less(self.pair_gap(#[trigger] r@[k])->Some_0),
                forall|out: Seq<(usize, usize)>| #[trigger]
                    self.awaits(geometry, pairs@, i as nat, time_step, r@, out) ==> self.awaits(
                        geometry,
                        pairs@,
                        0,
                        time_step,
                        none,
                        out,
                    ),
            decreases pairs@.len() - i,
        {
            let ghost here = r@;
            let ghost at = i as nat;
            let pair = pairs[i];
            proof {
                assert(is_car_ball_pair(self.collision_objs@, pairs@[i as int]));
            }
            let apart: bool = match self.car_ball_separation(pair) {
                Some(separation) => separation.gt(Single::zero()),
                None => false,
            };
            let mut impact: Option<Single> = None;
            if apart {
                impact = self.car_ball_time_of_impact(geometry, pair, time_step, true);
                if impact.is_some() {
                    r.push(pair);
                }
            }
            i = i + 1;
            proof {
                assert forall|out: Seq<(usize, usize)>| #[trigger]
                    self.awaits(geometry, pairs@, i as nat, time_step, r@, out) implies self.awaits(
                    geometry,
                    pairs@,
                    0,
                    time_step,
                    none,
                    out,
                ) by {
                    if apart {
                        assert(self.pair_impact(geometry, pairs@[at as int], time_step, true, impact));
                    }
                    assert(self.awaits(geometry, pairs@, at, time_step, here, out));
                }
            }
        }
        proof {
            assert(self.awaits(geometry, pairs@, i as nat, time_step, r@, r@));
        }
        r
    }
}

/// Four rays in the frame of a body. A mesh of triangles is in the frame of the world.
pub open spec fn rays_in(co: RigidBody, rays: [Vec3A; 4]) -> [Vec3A; 4] {
    if co.collision_shape is TriangleMesh {
        rays
    } else {
        let to_body = co.world_trans.transpose();
        [
            to_body.transform_point3a(rays[0]),
            to_body.transform_point3a(rays[1]),
            to_body.transform_point3a(rays[2]),
            to_body.transform_point3a(rays[3]),
        ]
    }
}

fn localized(co: &RigidBody, rays: &[Vec3A; 4]) -> (r: [Vec3A; 4])
    ensures
        r == rays_in(*co, *rays),
{
    match co.collision_shape {
        CollisionShapes::TriangleMesh(_) => *rays,
        _ => {
            let to_body = co.world_trans.transpose();
            [
                to_body.transform_point3a(rays[0]),
                to_body.transform_point3a(rays[1]),
                to_body.transform_point3a(rays[2]),
                to_body.transform_point3a(rays[3]),
            ]
        },
    }
}

/// Casts rays at shapes, and keeps what they hit in a `Q`.
///
/// The methods promise nothing. The rays of a vehicle ask in their contract that they hit only bodies
/// that are there.
pub trait Raycast<Q> {
    /// The parts of the rays that are free as far as is known.
    fn closest_hit_fraction(&self, hits: &Q) -> [Single; 4];

    /// Casts four rays in the frame of a body at its shape, no farther than `lambda_max`.
    fn perform_quad_raycast(
        &self,
        co: &RigidBody,
        obj_idx: usize,
        from: [Vec3A; 4],
        to: [Vec3A; 4],
        lambda_max: [Single; 4],
        hits: Q,
    ) -> Q;

    /// Casts four rays at the bodies in their way.
    fn ray_test(
        &self,
        broadphase: &GridBroadphase,
        collision_objs: &Vec<RigidBody>,
        from: &[Vec3A; 4],
        to: &[Vec3A; 4],
        hits: Q,
    ) -> Q;
}

impl CollisionWorld {
    /// Casts four rays at a body, in its frame, as far as nothing closer is known to be hit.
    pub fn quad_ray_test<Q, C: Raycast<Q>>(
        raycast: &C,
        ray_from: &[Vec3A; 4],
        ray_to: &[Vec3A; 4],
        co: &RigidBody,
        obj_idx: usize,
        hits: Q,
    ) -> (r: Q)
        ensures
            exists|lambda_max: [Single; 4]| #[trigger]
                call_ensures(C::closest_hit_fraction, (raycast, &hits), lambda_max) && call_ensures(
                    C::perform_quad_raycast,
                    (raycast, co, obj_idx, rays_in(*co, *ray_from), rays_in(*co, *ray_to), lambda_max, hits),
                    r,
                ),
    {
        let from_local = localized(co, ray_from);
        let to_local = localized(co, ray_to);
        let lambda_max = raycast.closest_hit_fraction(&hits);
        raycast.perform_quad_raycast(co, obj_idx, from_local, to_local, lambda_max, hits)
    }
}

} // verus!
