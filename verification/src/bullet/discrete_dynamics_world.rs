//! Steps a world of rigid bodies.
use crate::bullet::body::RigidBody;
use crate::bullet::broadphase::{
    BroadphaseProxy, GridBroadphase, ALL_BUT_STATIC, ALL_GROUPS, DEFAULT_GROUP, STATIC_GROUP,
};
use crate::bullet::collision_world::{CollisionWorld, Raycast};
use crate::bullet::geometry::{Aabb, Geometry};
use crate::bullet::motion::{
    akin, asleep, lemma_all_moved, lemma_movers_same, lemma_next_is_still, lemma_one_more, movers, partly, put, Motion,
    Place,
};
use crate::bullet::seq_impulse_constraint_solver::{numbered, SeqImpulseConstraintSolver};
use crate::math::{Affine3A, Vec3A};
use crate::single::Single;
use vstd::prelude::*;

verus! {

#[derive(Debug)]
pub struct DiscreteDynamicsWorld {
    pub collision_world: CollisionWorld,
    pub solver: SeqImpulseConstraintSolver,
    /// The bodies that can move.
    pub dynamic_body_idcs: Vec<usize>,
    pub gravity: Vec3A,
}

/// A body that can move has a mass.
pub open spec fn has_mass(body: RigidBody) -> bool {
    !body.is_static ==> !body.inv_mass.same(Single { bits: 0 })
}

/// Gravity pulls a body that is awake.
pub open spec fn pulled<M: Motion>(motion: &M, gravity: Vec3A, time_step: Single, a: RigidBody, b: RigidBody) -> bool {
    if a.is_static || !a.active {
        b == a
    } else {
        call_ensures(M::with_impulse, (motion, &a, gravity.scale(time_step)), b.accum_lin_vel) && b == (RigidBody {
            accum_lin_vel: b.accum_lin_vel,
            ..a
        })
    }
}

/// A body with other velocities.
pub open spec fn with_velocities(a: RigidBody, lin_vel: Vec3A, ang_vel: Vec3A) -> RigidBody {
    RigidBody { lin_vel, ang_vel, ..a }
}

/// The velocity of a body is damped, and its way predicted from that.
pub open spec fn foreseen<M: Motion>(motion: &M, time_step: Single, a: RigidBody, b: RigidBody) -> bool {
    if a.is_static {
        b == a
    } else {
        call_ensures(M::damped, (motion, &a, time_step), (b.lin_vel, b.ang_vel)) && call_ensures(
            M::predicted,
            (motion, &with_velocities(a, b.lin_vel, b.ang_vel), time_step),
            b.interp_world_trans,
        ) && b == (RigidBody {
            lin_vel: b.lin_vel,
            ang_vel: b.ang_vel,
            interp_world_trans: b.interp_world_trans,
            ..a
        })
    }
}

/// A body that is awake goes where it is predicted to be.
pub open spec fn gone<M: Motion>(motion: &M, time_step: Single, a: RigidBody, b: RigidBody) -> bool {
    if a.is_static || !a.active {
        b == a
    } else {
        exists|trans: Affine3A, place: Place| #[trigger]
            call_ensures(M::predicted, (motion, &a, time_step), trans) && #[trigger] call_ensures(
                M::placed,
                (motion, &a, trans),
                place,
            ) && b == put(a, place)
    }
}

/// What forces add to the velocity of a body is gone.
pub open spec fn spent(a: RigidBody, b: RigidBody) -> bool {
    b == if a.is_static {
        a
    } else {
        RigidBody { accum_lin_vel: Vec3A::zero(), accum_ang_vel: Vec3A::zero(), ..a }
    }
}

/// A body falls asleep or stays awake.
pub open spec fn nodded<M: Motion>(motion: &M, time_step: Single, a: RigidBody, b: RigidBody) -> bool {
    if a.is_static {
        b == a
    } else {
        call_ensures(M::stays_active, (motion, &a, time_step), b.active) && b == (RigidBody { active: b.active, ..a })
    }
}

/// Gravity pulls every body that is awake.
pub open spec fn all_pulled<M: Motion>(
    motion: &M,
    gravity: Vec3A,
    time_step: Single,
    objs: Seq<RigidBody>,
    out: Seq<RigidBody>,
) -> bool {
    &&& out.len() == objs.len()
    &&& forall|i: int| 0 <= i < objs.len() ==> pulled(motion, gravity, time_step, objs[i], #[trigger] out[i])
}

/// The ways of all bodies are predicted.
pub open spec fn all_foreseen<M: Motion>(
    motion: &M,
    time_step: Single,
    objs: Seq<RigidBody>,
    out: Seq<RigidBody>,
) -> bool {
    &&& out.len() == objs.len()
    &&& forall|i: int| 0 <= i < objs.len() ==> foreseen(motion, time_step, objs[i], #[trigger] out[i])
}

/// All bodies that are awake go on.
pub open spec fn all_gone<M: Motion>(
    motion: &M,
    time_step: Single,
    objs: Seq<RigidBody>,
    out: Seq<RigidBody>,
) -> bool {
    &&& out.len() == objs.len()
    &&& forall|i: int| 0 <= i < objs.len() ==> gone(motion, time_step, objs[i], #[trigger] out[i])
}

/// What forces add to the velocities is gone.
pub open spec fn all_spent(
    objs: Seq<RigidBody>,
    out: Seq<RigidBody>,
) -> bool {
    &&& out.len() == objs.len()
    &&& forall|i: int| 0 <= i < objs.len() ==> spent(objs[i], #[trigger] out[i])
}

/// All bodies fall asleep or stay awake.
pub open spec fn all_nodded<M: Motion>(
    motion: &M,
    time_step: Single,
    objs: Seq<RigidBody>,
    out: Seq<RigidBody>,
) -> bool {
    &&& out.len() == objs.len()
    &&& forall|i: int| 0 <= i < objs.len() ==> nodded(motion, time_step, objs[i], #[trigger] out[i])
}

impl DiscreteDynamicsWorld {
    /// The bodies.
    pub open spec fn objs(self) -> Seq<RigidBody> {
        self.collision_world.collision_objs@
    }

    /// The bodies are numbered, have masses if they can move and are not awake if they cannot,
    /// those that can are listed, no manifold waits and the solver is idle.
    pub open spec fn wf(self) -> bool {
        &&& self.collision_world.wf()
        &&& numbered(self.objs())
        &&& asleep(self.objs())
        &&& self.dynamic_body_idcs@ == movers(self.objs(), self.objs().len() as int)
        &&& self.solver.group().idle()
        &&& self.collision_world.dispatcher1.manifolds@.len() == 0
    }

    /// Everything but the bodies is the same.
    pub open spec fn same_but_bodies(self, after: DiscreteDynamicsWorld) -> bool {
        &&& after.collision_world.dispatcher1 == self.collision_world.dispatcher1
        &&& after.collision_world.broadphase_pair_cache == self.collision_world.broadphase_pair_cache
        &&& after.collision_world.num_skippable_statics == self.collision_world.num_skippable_statics
        &&& after.solver == self.solver
        &&& after.dynamic_body_idcs == self.dynamic_body_idcs
        &&& after.gravity == self.gravity
    }

    pub fn new(pair_cache: GridBroadphase, gravity: Vec3A) -> (r: DiscreteDynamicsWorld)
        ensures
            r.objs().len() == 0,
            r.dynamic_body_idcs@.len() == 0,
            r.gravity == gravity,
            r.collision_world.broadphase_pair_cache == pair_cache,
            r.collision_world.dispatcher1.manifolds@.len() == 0,
            r.collision_world.num_skippable_statics == 0,
            r.solver.group().idle(),
            pair_cache.proxies@.len() == 0 ==> r.wf(),
    {
        DiscreteDynamicsWorld {
            collision_world: CollisionWorld::new(pair_cache),
            solver: SeqImpulseConstraintSolver::default(),
            dynamic_body_idcs: Vec::new(),
            gravity,
        }
    }

    /// The bodies, to be changed.
    pub fn bodies_mut(&mut self) -> (r: &mut Vec<RigidBody>)
        ensures
            *r == old(self).collision_world.collision_objs,
            final(self).collision_world.collision_objs == *final(r),
            old(self).same_but_bodies(*final(self)),
    {
        &mut self.collision_world.collision_objs
    }

    pub fn bodies(&self) -> (r: &Vec<RigidBody>)
        ensures
            *r == self.collision_world.collision_objs,
    {
        &self.collision_world.collision_objs
    }

    pub fn set_gravity(&mut self, gravity: Vec3A)
        ensures
            *final(self) == (DiscreteDynamicsWorld { gravity, ..*old(self) }),
    {
        self.gravity = gravity;
    }

    /// Casts four rays at the bodies in their way.
    pub fn ray_test<Q, C: Raycast<Q>>(
        &self,
        raycast: &C,
        ray_from_world: &[Vec3A; 4],
        ray_to_world: &[Vec3A; 4],
        hits: Q,
    ) -> (r: Q)
        ensures
            call_ensures(
                C::ray_test,
                (
                    raycast,
                    &self.collision_world.broadphase_pair_cache,
                    &self.collision_world.collision_objs,
                    ray_from_world,
                    ray_to_world,
                    hits,
                ),
                r,
            ),
    {
        raycast.ray_test(
            &self.collision_world.broadphase_pair_cache,
            &self.collision_world.collision_objs,
            ray_from_world,
            ray_to_world,
            hits,
        )
    }

    /// A body was added with this group and mask: with its number, asleep if it cannot move and
    /// listed if it can.
    pub open spec fn added<G: Geometry>(
        self,
        geometry: &G,
        body: RigidBody,
        group: u8,
        mask: u8,
        after: DiscreteDynamicsWorld,
        idx: usize,
    ) -> bool {
        &&& idx == self.objs().len()
        &&& after.objs() == self.objs().push(
            RigidBody {
                world_array_idx: idx,
                broadphase_handle: self.collision_world.broadphase_pair_cache.proxies@.len() as usize,
                active: body.active && !body.is_static,
                ..body
            },
        )
        &&& after.dynamic_body_idcs@ == if body.is_static {
            self.dynamic_body_idcs@
        } else {
            self.dynamic_body_idcs@.push(idx)
        }
        &&& exists|aabb: Aabb| #[trigger]
            call_ensures(G::aabb, (geometry, &body.collision_shape, &body.world_trans), aabb)
                && after.collision_world.broadphase_pair_cache.proxies@
                == self.collision_world.broadphase_pair_cache.proxies@.push(
                BroadphaseProxy { aabb, filter_group: group, filter_mask: mask },
            )
        &&& after.collision_world.dispatcher1 == self.collision_world.dispatcher1
        &&& after.collision_world.num_skippable_statics == self.collision_world.num_skippable_statics
        &&& after.solver == self.solver
        &&& after.gravity == self.gravity
    }

    /// Adds a body, with the groups that it may touch: those of what moves touch all, the others
    /// all but their own.
    pub fn add_rigid_body_default<G: Geometry>(&mut self, geometry: &G, body: RigidBody) -> (r: usize)
        ensures
            old(self).added(
                geometry,
                body,
                if body.is_static {
                    STATIC_GROUP
                } else {
                    DEFAULT_GROUP
                },
                if body.is_static {
                    ALL_BUT_STATIC
                } else {
                    ALL_GROUPS
                },
                *final(self),
                r,
            ),
            old(self).wf() && has_mass(body) ==> final(self).wf(),
    {
        let (group, mask): (u8, u8) = if body.is_static {
            (STATIC_GROUP, ALL_BUT_STATIC)
        } else {
            (DEFAULT_GROUP, ALL_GROUPS)
        };
        self.add_rigid_body(geometry, body, group, mask)
    }

    /// Adds a body, and gives its number.
    pub fn add_rigid_body<G: Geometry>(&mut self, geometry: &G, body: RigidBody, group: u8, mask: u8) -> (r: usize)
        ensures
            old(self).added(geometry, body, group, mask, *final(self), r),
            old(self).wf() && has_mass(body) ==> final(self).wf(),
    {
        let ghost before = *self;
        let rb_idx: usize = self.collision_world.add_collision_obj(geometry, body, group, mask);
        let rb = self.collision_world.collision_objs[rb_idx];
        if rb.is_static {
            self.collision_world.collision_objs.set(rb_idx, RigidBody { active: false, ..rb });
        } else {
            self.dynamic_body_idcs.push(rb_idx);
        }
        proof {
            let n = before.objs().len() as int;
            lemma_movers_same(before.objs(), self.objs(), n);
            assert(self.objs() =~= before.objs().push(
                RigidBody {
                    world_array_idx: rb_idx,
                    broadphase_handle: before.collision_world.broadphase_pair_cache.proxies@.len() as usize,
                    active: body.active && !body.is_static,
                    ..body
                },
            ));
            assert(self.objs().drop_last() =~= before.objs());
            assert forall|i: int| 0 <= i < n implies #[trigger] self.objs()[i] == before.objs()[i] by {
                assert(self.objs().drop_last()[i] == self.objs()[i]);
            }
        }
        rb_idx
    }

    /// Gravity pulls every body that is awake.
    pub(crate) fn apply_gravity<M: Motion>(&mut self, motion: &M, time_step: Single)
        requires
            old(self).collision_world.wf(),
            old(self).dynamic_body_idcs@ == movers(old(self).objs(), old(self).objs().len() as int),
        ensures
            all_pulled(motion, old(self).gravity, time_step, old(self).objs(), final(self).objs()),
            old(self).same_but_bodies(*final(self)),
            akin(old(self).objs(), final(self).objs()),
            old(self).wf() ==> final(self).wf(),
    {
        let ghost before = *self;
        let ghost objs = self.objs();
        let ghost list = self.dynamic_body_idcs@;
        let ghost step = |a: RigidBody, b: RigidBody| pulled(motion, before.gravity, time_step, a, b);
        proof {
            assert(self.collision_world.collision_objs.len() <= usize::MAX);
        }
        let mut k: usize = 0;
        while k < self.dynamic_body_idcs.len()
            invariant
                k <= list.len(),
                list == before.dynamic_body_idcs@,
                list == movers(objs, objs.len() as int),
                objs.len() <= usize::MAX,
                before.same_but_bodies(*self),
                forall|a: RigidBody, b: RigidBody| #[trigger] step(a, b) == pulled(motion, before.gravity, time_step, a, b),
                partly(step, objs, self.objs(), list, k as int),
            decreases list.len() - k,
        {
            let ghost here = self.objs();
            proof {
                lemma_next_is_still(step, objs, here, k as int);
            }
            let idx: usize = self.dynamic_body_idcs[k];
            let body = self.collision_world.collision_objs[idx];
            if body.active {
                let accum_lin_vel = motion.with_impulse(&body, self.gravity.scale(time_step));
                self.collision_world.collision_objs.set(idx, RigidBody { accum_lin_vel, ..body });
            }
            proof {
                assert(self.objs() =~= here.update(idx as int, self.objs()[idx as int]));
                assert(step(objs[idx as int], self.objs()[idx as int]));
                lemma_one_more(step, objs, here, self.objs(), k as int);
            }
            k = k + 1;
        }
        proof {
            lemma_all_moved(step, objs, self.objs());
            assert forall|i: int| 0 <= i < objs.len() implies pulled(motion, before.gravity, time_step, objs[i], #[trigger] self.objs()[i]) by {
                assert(step(objs[i], self.objs()[i]));
            }
        }
    }

    /// Damps the velocities, and predicts the ways of the bodies.
    pub(crate) fn predict_unconstraint_motion<M: Motion>(&mut self, motion: &M, time_step: Single)
        requires
            old(self).collision_world.wf(),
            old(self).dynamic_body_idcs@ == movers(old(self).objs(), old(self).objs().len() as int),
        ensures
            all_foreseen(motion, time_step, old(self).objs(), final(self).objs()),
            old(self).same_but_bodies(*final(self)),
            akin(old(self).objs(), final(self).objs()),
            old(self).wf() ==> final(self).wf(),
    {
        let ghost before = *self;
        let ghost objs = self.objs();
        let ghost list = self.dynamic_body_idcs@;
        let ghost step = |a: RigidBody, b: RigidBody| foreseen(motion, time_step, a, b);
        proof {
            assert(self.collision_world.collision_objs.len() <= usize::MAX);
        }
        let mut k: usize = 0;
        while k < self.dynamic_body_idcs.len()
            invariant
                k <= list.len(),
                list == before.dynamic_body_idcs@,
                list == movers(objs, objs.len() as int),
                objs.len() <= usize::MAX,
                before.same_but_bodies(*self),
                forall|a: RigidBody, b: RigidBody| #[trigger] step(a, b) == foreseen(motion, time_step, a, b),
                partly(step, objs, self.objs(), list, k as int),
            decreases list.len() - k,
        {
            let ghost here = self.objs();
            proof {
                lemma_next_is_still(step, objs, here, k as int);
            }
            let idx: usize = self.dynamic_body_idcs[k];
            let body = self.collision_world.collision_objs[idx];
            let (lin_vel, ang_vel) = motion.damped(&body, time_step);
            let damped = RigidBody { lin_vel, ang_vel, ..body };
            let interp_world_trans = motion.predicted(&damped, time_step);
            self.collision_world.collision_objs.set(idx, RigidBody { interp_world_trans, ..damped });
            proof {
                assert(self.objs() =~= here.update(idx as int, self.objs()[idx as int]));
                assert(step(objs[idx as int], self.objs()[idx as int]));
                lemma_one_more(step, objs, here, self.objs(), k as int);
            }
            k = k + 1;
        }
        proof {
            lemma_all_moved(step, objs, self.objs());
            assert forall|i: int| 0 <= i < objs.len() implies foreseen(motion, time_step, objs[i], #[trigger] self.objs()[i]) by {
                assert(step(objs[i], self.objs()[i]));
            }
        }
    }

    /// All bodies that are awake go on.
    pub(crate) fn integrate_trans<M: Motion>(&mut self, motion: &M, time_step: Single)
        requires
            old(self).collision_world.wf(),
            old(self).dynamic_body_idcs@ == movers(old(self).objs(), old(self).objs().len() as int),
        ensures
            all_gone(motion, time_step, old(self).objs(), final(self).objs()),
            old(self).same_but_bodies(*final(self)),
            akin(old(self).objs(), final(self).objs()),
            old(self).wf() ==> final(self).wf(),
    {
        let ghost before = *self;
        let ghost objs = self.objs();
        let ghost list = self.dynamic_body_idcs@;
        let ghost step = |a: RigidBody, b: RigidBody| gone(motion, time_step, a, b);
        proof {
            assert(self.collision_world.collision_objs.len() <= usize::MAX);
        }
        let mut k: usize = 0;
        while k < self.dynamic_body_idcs.len()
            invariant
                k <= list.len(),
                list == before.dynamic_body_idcs@,
                list == movers(objs, objs.len() as int),
                objs.len() <= usize::MAX,
                before.same_but_bodies(*self),
                forall|a: RigidBody, b: RigidBody| #[trigger] step(a, b) == gone(motion, time_step, a, b),
                partly(step, objs, self.objs(), list, k as int),
            decreases list.len() - k,
        {
            let ghost here = self.objs();
            proof {
                lemma_next_is_still(step, objs, here, k as int);
            }
            let idx: usize = self.dynamic_body_idcs[k];
            let body = self.collision_world.collision_objs[idx];
            if body.active {
                let predicted_trans = motion.predicted(&body, time_step);
                let place = motion.placed(&body, predicted_trans);
                self.collision_world.collision_objs.set(
                    idx,
                    RigidBody {
                        world_trans: place.world_trans,
                        world_rot: place.world_rot,
                        interp_world_trans: place.interp_world_trans,
                        inv_inertia_tensor_world: place.inv_inertia_tensor_world,
                        ..body
                    },
                );
            }
            proof {
                assert(self.objs() =~= here.update(idx as int, self.objs()[idx as int]));
                assert(step(objs[idx as int], self.objs()[idx as int]));
                lemma_one_more(step, objs, here, self.objs(), k as int);
            }
            k = k + 1;
        }
        proof {
            lemma_all_moved(step, objs, self.objs());
            assert forall|i: int| 0 <= i < objs.len() implies gone(motion, time_step, objs[i], #[trigger] self.objs()[i]) by {
                assert(step(objs[i], self.objs()[i]));
            }
        }
    }

    /// What forces add to the velocities is used up.
    pub(crate) fn consume_accumulated_velocities(&mut self)
        requires
            old(self).collision_world.wf(),
            old(self).dynamic_body_idcs@ == movers(old(self).objs(), old(self).objs().len() as int),
        ensures
            all_spent(old(self).objs(), final(self).objs()),
            old(self).same_but_bodies(*final(self)),
            akin(old(self).objs(), final(self).objs()),
            old(self).wf() ==> final(self).wf(),
    {
        let ghost before = *self;
        let ghost objs = self.objs();
        let ghost list = self.dynamic_body_idcs@;
        let ghost step = |a: RigidBody, b: RigidBody| spent(a, b);
        proof {
            assert(self.collision_world.collision_objs.len() <= usize::MAX);
        }
        let mut k: usize = 0;
        while k < self.dynamic_body_idcs.len()
            invariant
                k <= list.len(),
                list == before.dynamic_body_idcs@,
                list == movers(objs, objs.len() as int),
                objs.len() <= usize::MAX,
                before.same_but_bodies(*self),
                forall|a: RigidBody, b: RigidBody| #[trigger] step(a, b) == spent(a, b),
                partly(step, objs, self.objs(), list, k as int),
            decreases list.len() - k,
        {
            let ghost here = self.objs();
            proof {
                lemma_next_is_still(step, objs, here, k as int);
            }
            let idx: usize = self.dynamic_body_idcs[k];
            let body = self.collision_world.collision_objs[idx];
            self.collision_world.collision_objs.set(
                idx,
                RigidBody { accum_lin_vel: Vec3A::zero(), accum_ang_vel: Vec3A::zero(), ..body },
            );
            proof {
                assert(self.objs() =~= here.update(idx as int, self.objs()[idx as int]));
                assert(step(objs[idx as int], self.objs()[idx as int]));
                lemma_one_more(step, objs, here, self.objs(), k as int);
            }
            k = k + 1;
        }
        proof {
            lemma_all_moved(step, objs, self.objs());
            assert forall|i: int| 0 <= i < objs.len() implies spent(objs[i], #[trigger] self.objs()[i]) by {
                assert(step(objs[i], self.objs()[i]));
            }
        }
    }

    /// Bodies fall asleep or stay awake.
    pub(crate) fn update_activation_state<M: Motion>(&mut self, motion: &M, time_step: Single)
        requires
            old(self).collision_world.wf(),
            old(self).dynamic_body_idcs@ == movers(old(self).objs(), old(self).objs().len() as int),
        ensures
            all_nodded(motion, time_step, old(self).objs(), final(self).objs()),
            old(self).same_but_bodies(*final(self)),
            akin(old(self).objs(), final(self).objs()),
            old(self).wf() ==> final(self).wf(),
    {
        let ghost before = *self;
        let ghost objs = self.objs();
        let ghost list = self.dynamic_body_idcs@;
        let ghost step = |a: RigidBody, b: RigidBody| nodded(motion, time_step, a, b);
        proof {
            assert(self.collision_world.collision_objs.len() <= usize::MAX);
        }
        let mut k: usize = 0;
        while k < self.dynamic_body_idcs.len()
            invariant
                k <= list.len(),
                list == before.dynamic_body_idcs@,
                list == movers(objs, objs.len() as int),
                objs.len() <= usize::MAX,
                before.same_but_bodies(*self),
                forall|a: RigidBody, b: RigidBody| #[trigger] step(a, b) == nodded(motion, time_step, a, b),
                partly(step, objs, self.objs(), list, k as int),
            decreases list.len() - k,
        {
            let ghost here = self.objs();
            proof {
                lemma_next_is_still(step, objs, here, k as int);
            }
            let idx: usize = self.dynamic_body_idcs[k];
            let body = self.collision_world.collision_objs[idx];
            let active: bool = motion.stays_active(&body, time_step);
            self.collision_world.collision_objs.set(idx, RigidBody { active, ..body });
            proof {
                assert(self.objs() =~= here.update(idx as int, self.objs()[idx as int]));
                assert(step(objs[idx as int], self.objs()[idx as int]));
                lemma_one_more(step, objs, here, self.objs(), k as int);
            }
            k = k + 1;
        }
        proof {
            lemma_all_moved(step, objs, self.objs());
            assert forall|i: int| 0 <= i < objs.len() implies nodded(motion, time_step, objs[i], #[trigger] self.objs()[i]) by {
                assert(step(objs[i], self.objs()[i]));
            }
        }
    }

    /// What forces add to the velocities is forgotten.
    pub fn clear_accum_forces(&mut self)
        requires
            old(self).collision_world.wf(),
            old(self).dynamic_body_idcs@ == movers(old(self).objs(), old(self).objs().len() as int),
        ensures
            all_spent(old(self).objs(), final(self).objs()),
            old(self).same_but_bodies(*final(self)),
            akin(old(self).objs(), final(self).objs()),
            old(self).wf() ==> final(self).wf(),
    {
        self.consume_accumulated_velocities();
    }
}

} // verus!
