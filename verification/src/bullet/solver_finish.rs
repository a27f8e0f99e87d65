//! What the solver reports, and what it does to the bodies.
use crate::bullet::body::{lemma_noted, lemma_noted_again, RigidBody};
use crate::bullet::contact_solver_info::SPLIT_IMPULSE_TURN_ERP;
use crate::bullet::geometry::Geometry;
use crate::bullet::manifold::PersistentManifold;
use crate::bullet::motion::{put, Place};
use crate::bullet::seq_impulse_constraint_solver::{
    acquainted, movable, numbered, same_bodies, solvable, Group, SeqImpulseConstraintSolver,
};
use crate::bullet::solver_body::SolverBody;
use crate::bullet::solver_constraint::{
    ContactAddedCallback, ContactSolveInfo, Rows, SpecialContactSolveInfo, SpecialContactSolvePoint,
};
use crate::bullet::solver_iterations::lemma_shape_fits;
use crate::bullet::special_contact::{SpecialResolveInfo, SpecialSums};
use crate::math::{Affine3A, Quat, Vec3A};
use crate::single::Single;
use vstd::prelude::*;

verus! {

broadcast use {lemma_noted, lemma_noted_again};

/// The same body, wherever it is and however it moves.
pub open spec fn carried(a: RigidBody, b: RigidBody) -> bool {
    b == (RigidBody {
        lin_vel: b.lin_vel,
        ang_vel: b.ang_vel,
        world_trans: b.world_trans,
        world_rot: b.world_rot,
        interp_world_trans: b.interp_world_trans,
        inv_inertia_tensor_world: b.inv_inertia_tensor_world,
        companion_id: b.companion_id,
        ..a
    })
}

/// The same bodies, wherever they are and however they move; those that do not move are where they
/// were.
pub open spec fn all_carried(a: Seq<RigidBody>, b: Seq<RigidBody>) -> bool {
    &&& b.len() == a.len()
    &&& forall|i: int|
        0 <= i < a.len() ==> carried(a[i], #[trigger] b[i]) && (a[i].is_static ==> b[i] == a[i].noted(
            b[i].companion_id,
        ))
}

impl Group {
    /// The listener hears of the `i`th contact: of the ball's contact with the world if it asked for
    /// that, and of every contact that stands for a point.
    pub open spec fn reports<R: Rows, T: ContactAddedCallback>(
        self,
        rows: &R,
        objs: Seq<RigidBody>,
        i: int,
        listener: T,
        told: T,
    ) -> bool {
        let c = self.contacts[i];
        let a = self.bodies[c.solver_body_id_a as int];
        let b = self.bodies[c.solver_body_id_b as int];
        match c.special_contact_info {
            Some(info) => exists|vel: Vec3A, points: Vec<SpecialContactSolvePoint>|
                points@ == self.points && #[trigger] call_ensures(R::velocity_after, (rows, &a, c.rel_pos_a), vel)
                    && #[trigger] call_ensures(
                    T::special_contact_solved,
                    (
                        listener,
                        SpecialContactSolveInfo {
                            normal_impulse: c.row.applied_impulse,
                            push_impulse: c.row.applied_push_impulse,
                            relative_velocity_after: vel,
                            ..info
                        },
                        &points,
                        &objs[c.body_idx_a as int],
                    ),
                    told,
                ),
            None => match c.manifold_point {
                Some(manifold_point) => exists|vel_a: Vec3A, vel_b: Vec3A| #[trigger]
                    call_ensures(R::velocity_after, (rows, &a, c.rel_pos_a), vel_a) && #[trigger] call_ensures(
                        R::velocity_after,
                        (rows, &b, c.rel_pos_b),
                        vel_b,
                    ) && call_ensures(
                        T::contact_solved,
                        (
                            listener,
                            ContactSolveInfo {
                                manifold_point,
                                normal_impulse: c.row.applied_impulse,
                                push_impulse: c.row.applied_push_impulse,
                                relative_velocity_before: c.relative_velocity_before,
                                relative_velocity_after: vel_a.minus(vel_b),
                            },
                            &objs[c.body_idx_a as int],
                            &objs[c.body_idx_b as int],
                        ),
                        told,
                    ),
                None => told == listener,
            },
        }
    }

    /// The listener hears of the contacts from the `i`th on.
    pub open spec fn reports_all<R: Rows, T: ContactAddedCallback>(
        self,
        rows: &R,
        objs: Seq<RigidBody>,
        i: nat,
        listener: T,
        told: T,
    ) -> bool
        decreases self.contacts.len() - i,
    {
        if i >= self.contacts.len() {
            told == listener
        } else {
            exists|next: T| #[trigger]
                self.reports(rows, objs, i as int, listener, next) && self.reports_all(rows, objs, i + 1, next, told)
        }
    }
}

/// The body is pushed or turned out of a penetration.
pub open spec fn shifts(body: SolverBody) -> bool {
    !body.push_vel.length_squared().same(Single { bits: 0 }) || !body.turn_vel.length_squared().same(Single { bits: 0 })
}

/// The place of a solver's body after its push may be `place`.
pub open spec fn shifted<G: Geometry>(
    geometry: &G,
    body: SolverBody,
    no_turn: bool,
    time_step: Single,
    place: (Affine3A, Quat),
) -> bool {
    if !shifts(body) {
        place == (body.world_trans, body.world_rot)
    } else if no_turn {
        exists|pos: Vec3A| #[trigger]
            call_ensures(
                G::integrate_trans_no_rot,
                (geometry, body.world_trans.translation, body.push_vel, time_step),
                pos,
            ) && place == (Affine3A { translation: pos, ..body.world_trans }, body.world_rot)
    } else {
        call_ensures(
            G::integrate_trans,
            (
                geometry,
                body.world_trans,
                body.world_rot,
                body.push_vel,
                body.turn_vel.scale(Single { bits: SPLIT_IMPULSE_TURN_ERP }),
                time_step,
            ),
            place,
        )
    }
}

/// A body with the velocity of its solver's body.
pub open spec fn released(rb: RigidBody, body: SolverBody) -> RigidBody {
    RigidBody {
        lin_vel: body.lin_vel.plus(body.delta_lin_vel).plus(body.external_force_impulse),
        ang_vel: body.ang_vel.plus(body.delta_ang_vel).plus(body.external_torque_impulse),
        ..rb
    }
}

/// A body takes over the velocity and the place of its solver's body: it may end up as `out`.
pub open spec fn takes_over<G: Geometry>(
    geometry: &G,
    body: SolverBody,
    rb: RigidBody,
    time_step: Single,
    out: RigidBody,
) -> bool {
    exists|place: (Affine3A, Quat), there: Place| #[trigger]
        shifted(geometry, body, rb.no_angular_motion, time_step, place) && #[trigger] call_ensures(
            G::put_at,
            (geometry, &released(rb, body), place.0),
            there,
        ) && out == put(released(rb, body), there)
}

/// The solver's bodies from the `k`th on give their velocity and place to the bodies that they stand
/// for.
pub open spec fn writes_back<G: Geometry>(
    geometry: &G,
    bodies: Seq<SolverBody>,
    objs: Seq<RigidBody>,
    k: nat,
    time_step: Single,
    out: Seq<RigidBody>,
) -> bool
    decreases bodies.len() - k,
{
    if k >= bodies.len() {
        out == objs
    } else {
        match bodies[k as int].original_body {
            None => writes_back(geometry, bodies, objs, k + 1, time_step, out),
            Some(i) => exists|rb: RigidBody| #[trigger]
                takes_over(geometry, bodies[k as int], objs[i as int], time_step, rb) && writes_back(
                    geometry,
                    bodies,
                    objs.update(i as int, rb),
                    k + 1,
                    time_step,
                    out,
                ),
        }
    }
}

/// Where a solver's body is after its push.
fn shift<G: Geometry>(geometry: &G, body: &SolverBody, no_turn: bool, time_step: Single) -> (r: (Affine3A, Quat))
    ensures
        shifted(geometry, *body, no_turn, time_step, r),
{
    let still: bool = body.push_vel.length_squared().equals(Single::zero()) && body.turn_vel.length_squared().equals(
        Single::zero(),
    );
    if still {
        (body.world_trans, body.world_rot)
    } else if no_turn {
        let pos = geometry.integrate_trans_no_rot(body.world_trans.translation, body.push_vel, time_step);
        (Affine3A { matrix3: body.world_trans.matrix3, translation: pos }, body.world_rot)
    } else {
        geometry.integrate_trans(
            body.world_trans,
            body.world_rot,
            body.push_vel,
            body.turn_vel.scale(Single::of(SPLIT_IMPULSE_TURN_ERP)),
            time_step,
        )
    }
}

impl SeqImpulseConstraintSolver {
    /// Tells the listener of a contact.
    fn report<R: Rows, T: ContactAddedCallback>(
        &self,
        rows: &R,
        collision_objs: &Vec<RigidBody>,
        i: usize,
        listener: T,
    ) -> (told: T)
        requires
            self.group().fits(collision_objs@),
            i < self.tmp_solver_contact_constraint_pool@.len(),
        ensures
            self.group().reports(rows, collision_objs@, i as int, listener, told),
    {
        let contact = self.tmp_solver_contact_constraint_pool[i];
        let solver_body_a = self.tmp_solver_body_pool[contact.solver_body_id_a];
        let solver_body_b = self.tmp_solver_body_pool[contact.solver_body_id_b];
        match contact.special_contact_info {
            Some(info) => {
                let vel = rows.velocity_after(&solver_body_a, contact.rel_pos_a);
                listener.special_contact_solved(
                    SpecialContactSolveInfo {
                        normal_impulse: contact.row.applied_impulse,
                        push_impulse: contact.row.applied_push_impulse,
                        relative_velocity_after: vel,
                        ..info
                    },
                    &self.special_points,
                    &collision_objs[contact.body_idx_a],
                )
            },
            None => match contact.manifold_point {
                Some(manifold_point) => {
                    let vel_a = rows.velocity_after(&solver_body_a, contact.rel_pos_a);
                    let vel_b = rows.velocity_after(&solver_body_b, contact.rel_pos_b);
                    listener.contact_solved(
                        ContactSolveInfo {
                            manifold_point,
                            normal_impulse: contact.row.applied_impulse,
                            push_impulse: contact.row.applied_push_impulse,
                            relative_velocity_before: contact.relative_velocity_before,
                            relative_velocity_after: vel_a.minus(vel_b),
                        },
                        &collision_objs[contact.body_idx_a],
                        &collision_objs[contact.body_idx_b],
                    )
                },
                None => listener,
            },
        }
    }

    /// Tells the listener of every contact.
    fn report_all<R: Rows, T: ContactAddedCallback>(
        &self,
        rows: &R,
        collision_objs: &Vec<RigidBody>,
        listener: T,
    ) -> (told: T)
        requires
            self.group().fits(collision_objs@),
        ensures
            self.group().reports_all(rows, collision_objs@, 0, listener, told),
    {
        let ghost first = listener;
        let mut told = listener;
        let mut i: usize = 0;
        while i < self.tmp_solver_contact_constraint_pool.len()
            invariant
                i <= self.tmp_solver_contact_constraint_pool@.len(),
                self.group().fits(collision_objs@),
                forall|end: T| #[trigger]
                    self.group().reports_all(rows, collision_objs@, i as nat, told, end) ==> self.group().reports_all(
                        rows,
                        collision_objs@,
                        0,
                        first,
                        end,
                    ),
            decreases self.tmp_solver_contact_constraint_pool@.len() - i,
        {
            let ghost here = told;
            let ghost at = i as nat;
            told = self.report(rows, collision_objs, i, told);
            i = i + 1;
            proof {
                assert forall|end: T| #[trigger]
                    self.group().reports_all(
                        rows,
                        collision_objs@,
                        i as nat,
                        told,
                        end,
                    ) implies self.group().reports_all(rows, collision_objs@, 0, first, end) by {
                    assert(self.group().reports(rows, collision_objs@, at as int, here, told));
                    assert(self.group().reports_all(rows, collision_objs@, at, here, end));
                }
            }
        }
        proof {
            assert(self.group().reports_all(rows, collision_objs@, i as nat, told, told));
        }
        told
    }

    /// Gives the bodies the velocities and places of their solver's bodies.
    fn write_back_bodies<G: Geometry>(&self, geometry: &G, collision_objs: &mut Vec<RigidBody>, time_step: Single)
        requires
            self.group().fits(old(collision_objs)@),
        ensures
            writes_back(
                geometry,
                self.tmp_solver_body_pool@,
                old(collision_objs)@,
                0,
                time_step,
                final(collision_objs)@,
            ),
            all_carried(old(collision_objs)@, final(collision_objs)@),
    {
        let ghost bodies = self.tmp_solver_body_pool@;
        let ghost objs = collision_objs@;
        proof {
            lemma_carried_same(objs);
        }
        let mut k: usize = 0;
        while k < self.tmp_solver_body_pool.len()
            invariant
                k <= bodies.len(),
                bodies == self.tmp_solver_body_pool@,
                acquainted(bodies, self.fixed_body_id, objs),
                all_carried(objs, collision_objs@),
                forall|out: Seq<RigidBody>| #[trigger]
                    writes_back(geometry, bodies, collision_objs@, k as nat, time_step, out) ==> writes_back(
                        geometry,
                        bodies,
                        objs,
                        0,
                        time_step,
                        out,
                    ),
            decreases bodies.len() - k,
        {
            let ghost here = collision_objs@;
            let ghost at = k as nat;
            let solver = self.tmp_solver_body_pool[k];
            if let Some(i) = solver.original_body {
                proof {
                    assert(bodies[k as int].original_body == Some(i));
                    assert(i < objs.len());
                    assert(objs[i as int].companion_id == Some(k));
                    assert(!objs[i as int].is_static);
                    assert(carried(objs[i as int], here[i as int]));
                }
                let rb = collision_objs[i];
                let place = shift(geometry, &solver, rb.no_angular_motion, time_step);
                let moving = RigidBody {
                    lin_vel: solver.lin_vel.plus(solver.delta_lin_vel).plus(solver.external_force_impulse),
                    ang_vel: solver.ang_vel.plus(solver.delta_ang_vel).plus(solver.external_torque_impulse),
                    ..rb
                };
                let there = geometry.put_at(&moving, place.0);
                let done = RigidBody {
                    world_trans: there.world_trans,
                    world_rot: there.world_rot,
                    interp_world_trans: there.interp_world_trans,
                    inv_inertia_tensor_world: there.inv_inertia_tensor_world,
                    ..moving
                };
                collision_objs.set(i, done);
                proof {
                    assert(moving == released(rb, solver));
                    assert(shifted(geometry, solver, rb.no_angular_motion, time_step, place));
                    assert(done == put(moving, there));
                    assert(takes_over(geometry, bodies[at as int], here[i as int], time_step, done));
                    assert(collision_objs@ == here.update(i as int, done));
                }
            }
            k = k + 1;
            proof {
                assert forall|out: Seq<RigidBody>| #[trigger]
                    writes_back(geometry, bodies, collision_objs@, k as nat, time_step, out) implies writes_back(
                    geometry,
                    bodies,
                    objs,
                    0,
                    time_step,
                    out,
                ) by {
                    assert(writes_back(geometry, bodies, here, at, time_step, out));
                }
            }
        }
        proof {
            assert(writes_back(geometry, bodies, collision_objs@, k as nat, time_step, collision_objs@));
        }
    }

    /// Tells the listener of the contacts, moves the bodies, and forgets the group.
    pub(crate) fn solve_group_finish<R: Rows, G: Geometry, T: ContactAddedCallback>(
        &mut self,
        rows: &R,
        geometry: &G,
        collision_objs: &mut Vec<RigidBody>,
        time_step: Single,
        listener: T,
    ) -> (told: T)
        requires
            old(self).group().fits(old(collision_objs)@),
            old(self).group().special == SpecialSums::none(),
        ensures
            old(self).group().reports_all(rows, old(collision_objs)@, 0, listener, told),
            writes_back(
                geometry,
                old(self).group().bodies,
                old(collision_objs)@,
                0,
                time_step,
                final(collision_objs)@,
            ),
            all_carried(old(collision_objs)@, final(collision_objs)@),
            final(self).group().idle(),
            final(self).group().fixed == old(self).group().fixed,
            final(self).group().residual == old(self).group().residual,
    {
        let told = self.report_all(rows, collision_objs, listener);
        self.write_back_bodies(geometry, collision_objs, time_step);
        self.tmp_solver_body_pool.clear();
        self.tmp_solver_contact_constraint_pool.clear();
        self.tmp_solver_contact_friction_constraint_pool.clear();
        told
    }
}

/// Bodies are the same as themselves.
proof fn lemma_carried_same(objs: Seq<RigidBody>)
    ensures
        all_carried(objs, objs),
{
    assert forall|i: int| 0 <= i < objs.len() implies carried(objs[i], #[trigger] objs[i]) && (objs[i].is_static ==> objs[i]
        == objs[i].noted(objs[i].companion_id)) by {
        crate::bullet::body::lemma_noted_same(objs[i]);
    }
}

impl Group {
    /// A group of bodies and their manifolds is solved: it may leave the bodies as `out`, and the
    /// listener `told`.
    pub open spec fn handles<R: Rows, G: Geometry, T: ContactAddedCallback>(
        self,
        rows: &R,
        geometry: &G,
        objs: Seq<RigidBody>,
        list: Seq<usize>,
        manifolds: Seq<PersistentManifold>,
        time_step: Single,
        listener: T,
        out: Seq<RigidBody>,
        told: T,
    ) -> bool {
        exists|track: bool, full: Group, noted: Seq<RigidBody>, solved: Group|
            call_ensures(T::tracks_special_contacts, (&listener,), track) && #[trigger] self.sets_up(
                rows,
                objs,
                list,
                manifolds,
                time_step,
                track,
                full,
                noted,
            ) && #[trigger] full.works_out(rows, solved) && solved.reports_all(rows, noted, 0, listener, told)
                && writes_back(geometry, solved.bodies, noted, 0, time_step, out)
    }
}

impl SeqImpulseConstraintSolver {
    /// Solves the contacts of a group of bodies, moves the bodies accordingly, and tells a listener
    /// of the contacts. The manifolds are used up.
    pub fn solve_group<R: Rows, G: Geometry, T: ContactAddedCallback>(
        &mut self,
        rows: &R,
        geometry: &G,
        collision_objs: &mut Vec<RigidBody>,
        non_static_bodies: &Vec<usize>,
        manifolds: &mut Vec<PersistentManifold>,
        time_step: Single,
        listener: T,
    ) -> (told: T)
        requires
            old(self).group().idle(),
            numbered(old(collision_objs)@),
            movable(old(collision_objs)@, non_static_bodies@),
            forall|i: int| 0 <= i < old(manifolds)@.len() ==> solvable(#[trigger] old(manifolds)@[i], old(collision_objs)@),
        ensures
            old(self).group().handles(
                rows,
                geometry,
                old(collision_objs)@,
                non_static_bodies@,
                old(manifolds)@,
                time_step,
                listener,
                final(collision_objs)@,
                told,
            ),
            final(self).group().idle(),
            final(manifolds)@.len() == 0,
            all_carried(old(collision_objs)@, final(collision_objs)@),
    {
        let ghost objs = collision_objs@;
        let track: bool = listener.tracks_special_contacts();
        self.solve_group_setup(rows, collision_objs, non_static_bodies, manifolds, time_step, track);
        let ghost full = self.group();
        let ghost noted = collision_objs@;
        self.solve_group_iterations(rows, Ghost(collision_objs@.len()));
        let ghost solved = self.group();
        proof {
            lemma_shape_fits(full, solved, noted);
            assert(full.works_out(rows, solved));
        }
        let told = self.solve_group_finish(rows, geometry, collision_objs, time_step, listener);
        proof {
            lemma_carried_noted(objs, noted, collision_objs@);
        }
        told
    }
}

/// Bodies with other notes that are carried are carried.
proof fn lemma_carried_noted(a: Seq<RigidBody>, b: Seq<RigidBody>, c: Seq<RigidBody>)
    requires
        same_bodies(a, b),
        all_carried(b, c),
    ensures
        all_carried(a, c),
{
    assert forall|i: int| 0 <= i < a.len() implies carried(a[i], #[trigger] c[i]) && (a[i].is_static ==> c[i] == a[i].noted(
        c[i].companion_id,
    )) by {
        reveal(RigidBody::noted);
        assert(b[i] == a[i].noted(b[i].companion_id));
        assert(carried(b[i], c[i]));
    }
}

impl Default for SeqImpulseConstraintSolver {
    fn default() -> (r: SeqImpulseConstraintSolver)
        ensures
            r.group().idle(),
            r.group().fixed is None,
            r.group().residual == (Single { bits: 0 }),
            r.group().points.len() == 0,
    {
        SeqImpulseConstraintSolver {
            tmp_solver_body_pool: Vec::new(),
            tmp_solver_contact_constraint_pool: Vec::new(),
            tmp_solver_contact_friction_constraint_pool: Vec::new(),
            fixed_body_id: None,
            least_squares_residual: Single::zero(),
            special_resolve_info: SpecialResolveInfo::default(),
            special_points: Vec::new(),
        }
    }
}

/// Whatever the rows do, in a group that was set up every row joins two different bodies of the
/// solver, and each row of friction belongs to a contact.
pub proof fn law_rows_join_two_bodies(group: Group, objs: Seq<RigidBody>, c: int)
    requires
        group.fits(objs),
        0 <= c < group.contacts.len(),
    ensures
        group.contacts[c].solver_body_id_a != group.contacts[c].solver_body_id_b,
        group.contacts[c].solver_body_id_a < group.bodies.len(),
        group.contacts[c].solver_body_id_b < group.bodies.len(),
        group.frictions[c].solver_body_id_a != group.frictions[c].solver_body_id_b,
        group.frictions[c].solver_body_id_a < group.bodies.len(),
        group.frictions[c].solver_body_id_b < group.bodies.len(),
        group.frictions[c].friction_idx == c,
{
    assert(crate::bullet::seq_impulse_constraint_solver::joins(group.contacts[c], group.bodies.len()));
    assert(crate::bullet::seq_impulse_constraint_solver::joins(group.frictions[c], group.bodies.len()));
}

} // verus!
