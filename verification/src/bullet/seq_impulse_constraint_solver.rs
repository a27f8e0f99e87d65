//! Solves the contacts of a group of bodies, one after the other and again and again.
use crate::bullet::body::{lemma_noted, lemma_noted_again, lemma_noted_same, RigidBody};
use crate::bullet::manifold::{ManifoldPoint, PersistentManifold};
use crate::bullet::solver_body::SolverBody;
use crate::bullet::solver_constraint::{
    Row, Rows, SolverConstraint, SpecialContactSolveInfo, SpecialContactSolvePoint,
};
use crate::bullet::special_contact::{
    get_special_contact_row, get_special_friction_row, lateral, lateral_dir, special_contact_row, special_friction_row,
    SpecialContact, SpecialResolveInfo, SpecialSums,
};
use crate::math::Vec3A;
use crate::single::Single;
use vstd::prelude::*;

verus! {

broadcast use {lemma_noted, lemma_noted_again};

#[derive(Debug)]
pub struct SeqImpulseConstraintSolver {
    pub tmp_solver_body_pool: Vec<SolverBody>,
    pub tmp_solver_contact_constraint_pool: Vec<SolverConstraint>,
    pub tmp_solver_contact_friction_constraint_pool: Vec<SolverConstraint>,
    /// The solver's body for everything that does not move.
    pub fixed_body_id: Option<usize>,
    pub least_squares_residual: Single,
    pub special_resolve_info: SpecialResolveInfo,
    /// The points of the contact of the ball with the world, if someone wants to hear of them.
    pub special_points: Vec<SpecialContactSolvePoint>,
}

/// The solver's state.
pub ghost struct Group {
    pub bodies: Seq<SolverBody>,
    pub contacts: Seq<SolverConstraint>,
    pub frictions: Seq<SolverConstraint>,
    pub fixed: Option<usize>,
    pub residual: Single,
    pub special: SpecialSums,
    pub points: Seq<SpecialContactSolvePoint>,
}

/// Two bodies of a manifold, their solver's bodies, and how close their points may be and
/// coincide.
pub ghost struct Pair {
    pub ids: (usize, usize),
    pub idcs: (usize, usize),
    pub body0: RigidBody,
    pub body1: RigidBody,
    pub threshold: Single,
}

impl Pair {
    /// The ways from the centres of the bodies to a point.
    pub open spec fn rel_pos(self, cp: ManifoldPoint) -> (Vec3A, Vec3A) {
        (
            cp.pos_world_on_a.minus(self.body0.world_trans.translation),
            cp.pos_world_on_b.minus(self.body1.world_trans.translation),
        )
    }
}

/// A body that the solver may move.
pub open spec fn moves(rb: RigidBody) -> bool {
    !rb.is_static && !rb.inv_mass.same(Single { bits: 0 })
}

/// A row joins two different bodies of the solver.
pub open spec fn joins(c: SolverConstraint, bodies: nat) -> bool {
    &&& c.solver_body_id_a < bodies
    &&& c.solver_body_id_b < bodies
    &&& c.solver_body_id_a != c.solver_body_id_b
}

/// The bodies are numbered, and those that can move have a mass.
pub open spec fn numbered(objs: Seq<RigidBody>) -> bool {
    forall|i: int|
        0 <= i < objs.len() ==> (#[trigger] objs[i]).world_array_idx == i && (!objs[i].is_static ==> !objs[i].inv_mass.same(
            Single { bits: 0 },
        ))
}

/// A manifold that the solver can take: of two bodies of which one can move, with points within
/// the threshold.
pub open spec fn solvable(m: PersistentManifold, objs: Seq<RigidBody>) -> bool {
    &&& m.body0_idx < objs.len()
    &&& m.body1_idx < objs.len()
    &&& m.body0_idx != m.body1_idx
    &&& !(objs[m.body0_idx as int].is_static && objs[m.body1_idx as int].is_static)
    &&& forall|j: int|
        0 <= j < m.point_cache@.len() ==> (#[trigger] m.point_cache@[j]).distance_1.at_most(m.contact_processing_threshold)
}

/// The same bodies, whatever the solver has noted in them.
pub open spec fn same_bodies(a: Seq<RigidBody>, b: Seq<RigidBody>) -> bool {
    &&& a.len() == b.len()
    &&& forall|i: int| 0 <= i < a.len() ==> #[trigger] b[i] == a[i].noted(b[i].companion_id)
}

/// A body's note is the solver's body that stands for it, and every solver's body but the fixed
/// one stands for one body.
pub open spec fn acquainted(bodies: Seq<SolverBody>, fixed: Option<usize>, objs: Seq<RigidBody>) -> bool {
    &&& forall|i: int|
        #![trigger objs[i]]
        0 <= i < objs.len() ==> (objs[i].companion_id matches Some(k) ==> k < bodies.len() && if objs[i].is_static {
            fixed == Some(k)
        } else {
            bodies[k as int].original_body == Some(i as usize)
        })
    &&& fixed matches Some(k) ==> k < bodies.len() && bodies[k as int].original_body is None
    &&& forall|k: int|
        #![trigger bodies[k]]
        0 <= k < bodies.len() ==> (bodies[k].original_body matches Some(i) ==> i < objs.len()
            && objs[i as int].companion_id == Some(k as usize))
}

/// Every row joins two different solver's bodies, and each row of friction belongs to the contact
/// in the same place.
pub open spec fn rows_fit(
    contacts: Seq<SolverConstraint>,
    frictions: Seq<SolverConstraint>,
    bodies: nat,
    objs: nat,
) -> bool {
    &&& forall|c: int|
        0 <= c < contacts.len() ==> joins(#[trigger] contacts[c], bodies) && contacts[c].body_idx_a < objs
            && contacts[c].body_idx_b < objs
    &&& forall|c: int|
        0 <= c < frictions.len() ==> joins(#[trigger] frictions[c], bodies) && frictions[c].friction_idx == c
    &&& frictions.len() == contacts.len()
}

/// The points of the ball's contact are counted, and belong to a body that takes part.
pub open spec fn special_fits(special: SpecialSums, objs: Seq<RigidBody>) -> bool {
    &&& special.num == special.contacts.len()
    &&& special.num == 0 ==> special == SpecialSums::none()
    &&& special.num > 0 ==> special.obj_idx < objs.len() && objs[special.obj_idx as int].companion_id is Some
        && !objs[special.obj_idx as int].is_static
}

impl Group {
    /// Nothing to solve.
    pub open spec fn idle(self) -> bool {
        &&& self.bodies.len() == 0
        &&& self.contacts.len() == 0
        &&& self.frictions.len() == 0
        &&& self.special == SpecialSums::none()
    }

    /// The bodies and the solver know each other, every row joins two different solver's bodies,
    /// and the points of the ball's contact belong to a body that takes part.
    pub open spec fn fits(self, objs: Seq<RigidBody>) -> bool {
        &&& numbered(objs)
        &&& acquainted(self.bodies, self.fixed, objs)
        &&& rows_fit(self.contacts, self.frictions, self.bodies.len(), objs.len())
        &&& special_fits(self.special, objs)
    }

    /// A body that takes part may be seen as `made` by the solver, if it is not known yet.
    pub open spec fn asks<R: Rows>(self, rows: &R, rb: RigidBody, made: SolverBody) -> bool {
        rb.companion_id is None ==> if moves(rb) {
            call_ensures(R::solver_body, (rows, &rb.noted(Some(self.bodies.len() as usize))), made)
        } else {
            self.asks_fixed(rows, made)
        }
    }

    /// Everything that does not move may be seen as `made`, if it is not known yet.
    pub open spec fn asks_fixed<R: Rows>(self, rows: &R, made: SolverBody) -> bool {
        self.fixed is None ==> call_ensures(R::fixed_body, (rows,), made)
    }

    /// A body takes part: it gets the solver's body `made`, unless it has one or does not move and the
    /// fixed one is there. The state after that, the body, and its solver's body.
    #[verifier::opaque]
    pub open spec fn admitted(self, rb: RigidBody, made: SolverBody) -> (Group, RigidBody, usize) {
        let next = self.bodies.len() as usize;
        match rb.companion_id {
            Some(id) => (self, rb, id),
            None => if moves(rb) {
                (
                    Group { bodies: self.bodies.push(made.standing(Some(rb.world_array_idx))), ..self },
                    rb.noted(Some(next)),
                    next,
                )
            } else {
                match self.fixed {
                    Some(id) => (self, rb, id),
                    None => (
                        Group { bodies: self.bodies.push(made.standing(None)), fixed: Some(next), ..self },
                        rb.noted(Some(next)),
                        next,
                    ),
                }
            },
        }
    }

    /// The active ones among the first `n` bodies of a list take part, each with its solver's body.
    pub open spec fn enlisted(
        self,
        objs: Seq<RigidBody>,
        list: Seq<usize>,
        n: int,
        made: Seq<SolverBody>,
    ) -> (Group, Seq<RigidBody>)
        decreases n,
    {
        if n <= 0 {
            (self, objs)
        } else {
            let (group, bodies) = self.enlisted(objs, list, n - 1, made);
            let i = list[n - 1] as int;
            if bodies[i].active {
                (
                    Group {
                        bodies: group.bodies.push(made[n - 1].standing(Some(bodies[i].world_array_idx))),
                        ..group
                    },
                    bodies.update(i, bodies[i].noted(Some(group.bodies.len() as usize))),
                )
            } else {
                (group, bodies)
            }
        }
    }

    /// The active ones among the first `n` bodies of a list may be seen as `made` by the solver.
    pub open spec fn answered<R: Rows>(
        self,
        rows: &R,
        objs: Seq<RigidBody>,
        list: Seq<usize>,
        n: int,
        made: Seq<SolverBody>,
    ) -> bool
        decreases n,
    {
        n > 0 ==> self.answered(rows, objs, list, n - 1, made) && {
            let (group, bodies) = self.enlisted(objs, list, n - 1, made);
            let rb = bodies[list[n - 1] as int];
            rb.active ==> call_ensures(
                R::solver_body,
                (rows, &rb.noted(Some(group.bodies.len() as usize))),
                made[n - 1],
            )
        }
    }

    /// The active ones among a list of bodies take part: that may lead to `out` and the bodies `noted`.
    pub open spec fn enlists<R: Rows>(
        self,
        rows: &R,
        objs: Seq<RigidBody>,
        list: Seq<usize>,
        out: Group,
        noted: Seq<RigidBody>,
    ) -> bool {
        exists|made: Seq<SolverBody>| #[trigger]
            self.answered(rows, objs, list, list.len() as int, made) && (out, noted) == self.enlisted(
                objs,
                list,
                list.len() as int,
                made,
            )
    }
}

/// Who takes part first does not depend on how the later ones are seen.
proof fn lemma_enlisted_prefix<R: Rows>(
    group: Group,
    rows: &R,
    objs: Seq<RigidBody>,
    list: Seq<usize>,
    n: int,
    made: Seq<SolverBody>,
    more: SolverBody,
)
    requires
        0 <= n <= made.len(),
    ensures
        group.enlisted(objs, list, n, made.push(more)) == group.enlisted(objs, list, n, made),
        group.answered(rows, objs, list, n, made.push(more)) == group.answered(rows, objs, list, n, made),
    decreases n,
{
    if n > 0 {
        lemma_enlisted_prefix(group, rows, objs, list, n - 1, made, more);
    }
}

/// No body has a solver's body.
pub open spec fn forgotten(objs: Seq<RigidBody>) -> Seq<RigidBody> {
    Seq::new(objs.len(), |i: int| objs[i].noted(None))
}

/// A list of different bodies that can move.
pub open spec fn movable(objs: Seq<RigidBody>, list: Seq<usize>) -> bool {
    &&& forall|j: int| 0 <= j < list.len() ==> #[trigger] list[j] < objs.len() && !objs[list[j] as int].is_static
    &&& forall|j: int, k: int| 0 <= j < k < list.len() ==> #[trigger] list[j] != #[trigger] list[k]
}

/// A body that takes part is known, and the others stay so.
pub proof fn lemma_admitted_fits(group: Group, objs: Seq<RigidBody>, i: int, made: SolverBody)
    requires
        group.fits(objs),
        0 <= i < objs.len() <= usize::MAX,
        group.bodies.len() <= usize::MAX,
    ensures
        ({
            let (after, rb, id) = group.admitted(objs[i], made);
            let noted = objs.update(i, rb.noted(Some(id)));
            &&& after.fits(noted)
            &&& same_bodies(objs, noted)
            &&& id < after.bodies.len()
            &&& objs[i].is_static ==> after.fixed == Some(id)
            &&& !objs[i].is_static ==> after.bodies[id as int].original_body == Some(i as usize)
            &&& after.contacts == group.contacts
            &&& after.frictions == group.frictions
            &&& after.special == group.special
            &&& group.bodies.is_prefix_of(after.bodies)
            &&& group.fixed is Some ==> after.fixed == group.fixed
        }),
{
    reveal(Group::admitted);
    let (after, rb, id) = group.admitted(objs[i], made);
    let noted = objs.update(i, rb.noted(Some(id)));
    lemma_all_noted(objs);
    if objs[i].companion_id is Some {
        assert(noted =~= objs);
    } else {
        lemma_note(objs, i, id);
        lemma_acquainted(group.bodies, group.fixed, objs, i, made);
        lemma_rows_fit_grow(group.contacts, group.frictions, group.bodies.len(), after.bodies.len(), objs.len());
    }
}

/// Bodies have the notes that they have.
proof fn lemma_all_noted(objs: Seq<RigidBody>)
    ensures
        forall|i: int| 0 <= i < objs.len() ==> (#[trigger] objs[i]).noted(objs[i].companion_id) == objs[i],
{
    assert forall|i: int| 0 <= i < objs.len() implies (#[trigger] objs[i]).noted(objs[i].companion_id) == objs[i] by {
        lemma_noted_same(objs[i]);
    }
}

/// A note changes nothing else about the bodies.
proof fn lemma_note(objs: Seq<RigidBody>, i: int, id: usize)
    requires
        0 <= i < objs.len(),
        numbered(objs),
    ensures
        numbered(objs.update(i, objs[i].noted(Some(id)))),
        same_bodies(objs, objs.update(i, objs[i].noted(Some(id)))),
{
    lemma_all_noted(objs);
}

/// A body without a note may be noted: a body that can move with a new solver's body of its own,
/// another with the fixed one, which may be new.
proof fn lemma_acquainted(
    bodies: Seq<SolverBody>,
    fixed: Option<usize>,
    objs: Seq<RigidBody>,
    i: int,
    made: SolverBody,
)
    requires
        acquainted(bodies, fixed, objs),
        numbered(objs),
        0 <= i < objs.len() <= usize::MAX,
        bodies.len() <= usize::MAX,
        objs[i].companion_id is None,
    ensures
        !objs[i].is_static ==> acquainted(
            bodies.push(made.standing(Some(objs[i].world_array_idx))),
            fixed,
            objs.update(i, objs[i].noted(Some(bodies.len() as usize))),
        ),
        objs[i].is_static && fixed is Some ==> acquainted(
            bodies,
            fixed,
            objs.update(i, objs[i].noted(fixed)),
        ),
        objs[i].is_static && fixed is None ==> acquainted(
            bodies.push(made.standing(None)),
            Some(bodies.len() as usize),
            objs.update(i, objs[i].noted(Some(bodies.len() as usize))),
        ),
{
}

/// Rows fit still when there are more solver's bodies.
proof fn lemma_rows_fit_grow(
    contacts: Seq<SolverConstraint>,
    frictions: Seq<SolverConstraint>,
    bodies: nat,
    more: nat,
    objs: nat,
)
    requires
        rows_fit(contacts, frictions, bodies, objs),
        bodies <= more,
    ensures
        rows_fit(contacts, frictions, more, objs),
{
    assert forall|c: int| 0 <= c < contacts.len() implies joins(#[trigger] contacts[c], more) by {
        assert(joins(contacts[c], bodies));
    }
    assert forall|c: int| 0 <= c < frictions.len() implies joins(#[trigger] frictions[c], more) by {
        assert(joins(frictions[c], bodies));
    }
}

/// Rows fit still with another contact and its friction.
proof fn lemma_rows_fit_push(
    contacts: Seq<SolverConstraint>,
    frictions: Seq<SolverConstraint>,
    bodies: nat,
    objs: nat,
    contact: SolverConstraint,
    friction: SolverConstraint,
)
    requires
        rows_fit(contacts, frictions, bodies, objs),
        joins(contact, bodies),
        joins(friction, bodies),
        contact.body_idx_a < objs,
        contact.body_idx_b < objs,
        friction.friction_idx == contacts.len(),
    ensures
        rows_fit(contacts.push(contact), frictions.push(friction), bodies, objs),
{
}

/// Two bodies of which one can move have different solver's bodies.
pub proof fn lemma_ids_differ(group: Group, objs: Seq<RigidBody>, i: int, j: int)
    requires
        group.fits(objs),
        0 <= i < objs.len() <= usize::MAX,
        0 <= j < objs.len(),
        i != j,
        objs[i].companion_id is Some,
        objs[j].companion_id is Some,
        !(objs[i].is_static && objs[j].is_static),
    ensures
        objs[i].companion_id->Some_0 != objs[j].companion_id->Some_0,
        objs[i].companion_id->Some_0 < group.bodies.len(),
        objs[j].companion_id->Some_0 < group.bodies.len(),
{
}

/// A list of bodies that take part is known.
pub proof fn lemma_enlisted_fits(
    group: Group,
    objs: Seq<RigidBody>,
    list: Seq<usize>,
    n: int,
    made: Seq<SolverBody>,
)
    requires
        group.fits(objs),
        group.bodies.len() + list.len() <= usize::MAX,
        objs.len() <= usize::MAX,
        movable(objs, list),
        0 <= n <= list.len(),
        forall|j: int| 0 <= j < list.len() ==> objs[(#[trigger] list[j]) as int].companion_id is None,
    ensures
        group.enlisted(objs, list, n, made).0.fits(group.enlisted(objs, list, n, made).1),
        same_bodies(objs, group.enlisted(objs, list, n, made).1),
        group.enlisted(objs, list, n, made).0.bodies.len() <= group.bodies.len() + n,
        group.enlisted(objs, list, n, made).0.special == group.special,
        forall|j: int|
            n <= j < list.len() ==> group.enlisted(objs, list, n, made).1[(#[trigger] list[j]) as int].companion_id is None,
    decreases n,
{
    lemma_all_noted(objs);
    if n > 0 {
        lemma_enlisted_fits(group, objs, list, n - 1, made);
        let (near, noted) = group.enlisted(objs, list, n - 1, made);
        let i = list[n - 1] as int;
        assert(noted[i].companion_id is None);
        assert(noted[i] == objs[i].noted(noted[i].companion_id));
        if noted[i].active {
            reveal(Group::admitted);
            lemma_admitted_fits(near, noted, i, made[n - 1]);
            let (after, rb, id) = near.admitted(noted[i], made[n - 1]);
            assert(group.enlisted(objs, list, n, made).0 == after);
            assert(group.enlisted(objs, list, n, made).1 == noted.update(i, rb.noted(Some(id))));
        }
    }
}

impl SeqImpulseConstraintSolver {
    pub open spec fn group(self) -> Group {
        Group {
            bodies: self.tmp_solver_body_pool@,
            contacts: self.tmp_solver_contact_constraint_pool@,
            frictions: self.tmp_solver_contact_friction_constraint_pool@,
            fixed: self.fixed_body_id,
            residual: self.least_squares_residual,
            special: self.special_resolve_info.sums(),
            points: self.special_points@,
        }
    }

    /// The solver's body for a body, which is made if need be.
    pub fn get_or_init_solver_body<R: Rows>(&mut self, rows: &R, rb: &mut RigidBody) -> (r: usize)
        ensures
            exists|made: SolverBody| #[trigger]
                old(self).group().asks(rows, *old(rb), made) && (final(self).group(), *final(rb), r) == old(
                    self,
                ).group().admitted(*old(rb), made),
    {
        proof {
            reveal(Group::admitted);
        }
        let ghost before = self.group();
        let ghost body = *rb;
        let ghost any = before.bodies[0];
        if let Some(companion_id) = rb.companion_id {
            proof {
                assert(before.asks(rows, body, any));
            }
            return companion_id;
        }
        if !rb.is_static && !rb.inv_mass.equals(Single::zero()) {
            let solver_body_id: usize = self.tmp_solver_body_pool.len();
            *rb = rb.note(Some(solver_body_id));
            let made = rows.solver_body(rb);
            self.tmp_solver_body_pool.push(made.stand_for(Some(rb.world_array_idx)));
            proof {
                assert(before.asks(rows, body, made));
            }
            return solver_body_id;
        }
        if let Some(fixed_body_id) = self.fixed_body_id {
            proof {
                assert(before.asks(rows, body, any));
            }
            fixed_body_id
        } else {
            let solver_body_id: usize = self.tmp_solver_body_pool.len();
            *rb = rb.note(Some(solver_body_id));
            self.fixed_body_id = Some(solver_body_id);
            let made = rows.fixed_body();
            self.tmp_solver_body_pool.push(made.stand_for(None));
            proof {
                assert(before.asks(rows, body, made));
            }
            solver_body_id
        }
    }

    /// Forgets the last group, and gives every active body that can move a solver's body.
    pub fn setup_solver_bodies<R: Rows>(
        &mut self,
        rows: &R,
        collision_objs: &mut Vec<RigidBody>,
        non_static_bodies: &Vec<usize>,
    )
        requires
            forall|j: int| 0 <= j < non_static_bodies@.len() ==> #[trigger] non_static_bodies@[j] < old(collision_objs)@.len(),
        ensures
            (Group { fixed: None, ..old(self).group() }).enlists(
                rows,
                forgotten(old(collision_objs)@),
                non_static_bodies@,
                final(self).group(),
                final(collision_objs)@,
            ),
    {
        self.fixed_body_id = None;
        let ghost before = old(collision_objs)@;
        let mut i: usize = 0;
        while i < collision_objs.len()
            invariant
                i <= collision_objs@.len(),
                collision_objs@.len() == before.len(),
                forall|j: int| 0 <= j < i ==> #[trigger] collision_objs@[j] == before[j].noted(None),
                forall|j: int| i <= j < before.len() ==> #[trigger] collision_objs@[j] == before[j],
            decreases collision_objs@.len() - i,
        {
            let rb = collision_objs[i];
            collision_objs.set(i, rb.note(None));
            i = i + 1;
        }
        let ghost start = self.group();
        let ghost blank = forgotten(before);
        proof {
            assert(collision_objs@ =~= blank);
        }
        let ghost mut made: Seq<SolverBody> = Seq::empty();
        let mut j: usize = 0;
        while j < non_static_bodies.len()
            invariant
                j <= non_static_bodies@.len(),
                collision_objs@.len() == before.len(),
                made.len() == j,
                (self.group(), collision_objs@) == start.enlisted(blank, non_static_bodies@, j as int, made),
                start.answered(rows, blank, non_static_bodies@, j as int, made),
                forall|j: int| 0 <= j < non_static_bodies@.len() ==> #[trigger] non_static_bodies@[j] < before.len(),
            decreases non_static_bodies@.len() - j,
        {
            let rb_idx: usize = non_static_bodies[j];
            let rb = collision_objs[rb_idx];
            let ghost mut seen: SolverBody = self.group().bodies[0];
            if rb.active {
                let solver_body_id: usize = self.tmp_solver_body_pool.len();
                let noted = rb.note(Some(solver_body_id));
                let solver_body = rows.solver_body(&noted);
                proof {
                    seen = solver_body;
                }
                self.tmp_solver_body_pool.push(solver_body.stand_for(Some(rb.world_array_idx)));
                collision_objs.set(rb_idx, noted);
            }
            proof {
                lemma_enlisted_prefix(start, rows, blank, non_static_bodies@, j as int, made, seen);
                made = made.push(seen);
            }
            j = j + 1;
        }
        proof {
            assert(start.answered(rows, blank, non_static_bodies@, non_static_bodies@.len() as int, made));
        }
    }
}

/// The body behind a solver's body, if it has one.
pub open spec fn behind(solver_body: SolverBody, rb: &RigidBody) -> Option<&RigidBody> {
    if solver_body.original_body is Some {
        Some(rb)
    } else {
        None
    }
}

/// The row of a contact point, with what is told of it later.
pub open spec fn contact_of(
    pair: Pair,
    cp: ManifoldPoint,
    friction_idx: usize,
    row: Row,
    relative_velocity_before: Vec3A,
) -> SolverConstraint {
    SolverConstraint {
        body_idx_a: pair.idcs.0,
        body_idx_b: pair.idcs.1,
        rel_pos_a: pair.rel_pos(cp).0,
        rel_pos_b: pair.rel_pos(cp).1,
        manifold_point: Some(cp),
        relative_velocity_before,
        ..SolverConstraint::bare(pair.ids, friction_idx, row)
    }
}

impl Group {
    /// A point of a manifold is taken in: a point of the ball's contact with the world adds to
    /// that contact, any other becomes a row for the contact and one for its friction.
    pub open spec fn takes_point<R: Rows>(
        self,
        rows: &R,
        pair: Pair,
        cp: ManifoldPoint,
        time_step: Single,
        out: Group,
    ) -> bool {
        let rel_pos = pair.rel_pos(cp);
        if cp.is_special {
            out == (Group {
                special: self.special.with_collision(
                    pair.body0,
                    pair.body1,
                    cp,
                    rel_pos.0,
                    rel_pos.1,
                    pair.threshold,
                ),
                ..self
            })
        } else {
            let a = self.bodies[pair.ids.0 as int];
            let b = self.bodies[pair.ids.1 as int];
            let moving = (behind(a, &pair.body0), behind(b, &pair.body1));
            let friction_idx = self.frictions.len() as usize;
            exists|row: Row, vel_a: Vec3A, vel_b: Vec3A, aimed: ManifoldPoint, drag: Row|
                #[trigger] call_ensures(R::contact_row, (rows, (&a, &b), moving, rel_pos, &cp, time_step), row)
                    && #[trigger] call_ensures(R::velocity_before, (rows, &a, rel_pos.0), vel_a)
                    && #[trigger] call_ensures(R::velocity_before, (rows, &b, rel_pos.1), vel_b)
                    && #[trigger] call_ensures(R::with_friction_dir, (rows, &cp, (&a, &b), rel_pos), aimed)
                    && #[trigger] call_ensures(R::friction_row, (rows, (&a, &b), moving, rel_pos, &aimed), drag)
                    && out == (Group {
                    contacts: self.contacts.push(contact_of(pair, cp, friction_idx, row, vel_a.minus(vel_b))),
                    frictions: self.frictions.push(SolverConstraint::bare(pair.ids, friction_idx, drag)),
                    ..self
                })
        }
    }

    /// The points of a manifold from the `j`th on are taken in.
    pub open spec fn takes_points<R: Rows>(
        self,
        rows: &R,
        pair: Pair,
        points: Seq<ManifoldPoint>,
        j: nat,
        time_step: Single,
        out: Group,
    ) -> bool
        decreases points.len() - j,
    {
        if j >= points.len() {
            out == self
        } else {
            exists|next: Group| #[trigger]
                self.takes_point(rows, pair, points[j as int], time_step, next) && next.takes_points(
                    rows,
                    pair,
                    points,
                    j + 1,
                    time_step,
                    out,
                )
        }
    }

    /// The two bodies of a manifold take part: the state after that, the bodies with their notes,
    /// and the pair.
    pub open spec fn introduced(
        self,
        objs: Seq<RigidBody>,
        m: PersistentManifold,
        made: (SolverBody, SolverBody),
    ) -> (Group, Seq<RigidBody>, Pair) {
        let (group, rb0, id0) = self.admitted(objs[m.body0_idx as int], made.0);
        let body0 = rb0.noted(Some(id0));
        let noted = objs.update(m.body0_idx as int, body0);
        let (after, rb1, id1) = group.admitted(noted[m.body1_idx as int], made.1);
        let body1 = rb1.noted(Some(id1));
        (
            after,
            noted.update(m.body1_idx as int, body1),
            Pair {
                ids: (id0, id1),
                idcs: (m.body0_idx, m.body1_idx),
                body0,
                body1,
                threshold: m.contact_breaking_threshold,
            },
        )
    }

    /// The two bodies of a manifold may be seen as `made` by the solver.
    pub open spec fn asks_both<R: Rows>(
        self,
        rows: &R,
        objs: Seq<RigidBody>,
        m: PersistentManifold,
        made: (SolverBody, SolverBody),
    ) -> bool {
        let (group, rb0, id0) = self.admitted(objs[m.body0_idx as int], made.0);
        let noted = objs.update(m.body0_idx as int, rb0.noted(Some(id0)));
        self.asks(rows, objs[m.body0_idx as int], made.0) && group.asks(rows, noted[m.body1_idx as int], made.1)
    }

    /// A manifold is taken in: its two bodies take part, and then its points.
    pub open spec fn takes_manifold<R: Rows>(
        self,
        rows: &R,
        objs: Seq<RigidBody>,
        m: PersistentManifold,
        time_step: Single,
        out: Group,
        noted: Seq<RigidBody>,
    ) -> bool {
        exists|made: (SolverBody, SolverBody)| #[trigger]
            self.asks_both(rows, objs, m, made) && {
                let (group, bodies, pair) = self.introduced(objs, m, made);
                noted == bodies && group.takes_points(rows, pair, m.point_cache@, 0, time_step, out)
            }
    }

    /// The manifolds from the `i`th on are taken in.
    pub open spec fn takes_manifolds<R: Rows>(
        self,
        rows: &R,
        objs: Seq<RigidBody>,
        manifolds: Seq<PersistentManifold>,
        i: nat,
        time_step: Single,
        out: Group,
        noted: Seq<RigidBody>,
    ) -> bool
        decreases manifolds.len() - i,
    {
        if i >= manifolds.len() {
            out == self && noted == objs
        } else {
            exists|next: Group, bodies: Seq<RigidBody>| #[trigger]
                self.takes_manifold(rows, objs, manifolds[i as int], time_step, next, bodies) && next.takes_manifolds(
                    rows,
                    bodies,
                    manifolds,
                    i + 1,
                    time_step,
                    out,
                    noted,
                )
        }
    }
}

/// A pair of known bodies.
pub open spec fn known(group: Group, objs: Seq<RigidBody>, pair: Pair) -> bool {
    &&& pair.idcs.0 < objs.len()
    &&& pair.idcs.1 < objs.len()
    &&& pair.idcs.0 != pair.idcs.1
    &&& objs[pair.idcs.0 as int] == pair.body0
    &&& objs[pair.idcs.1 as int] == pair.body1
    &&& pair.body0.companion_id == Some(pair.ids.0)
    &&& pair.body1.companion_id == Some(pair.ids.1)
    &&& !(pair.body0.is_static && pair.body1.is_static)
}

/// After a point was taken in the bodies and the solver still know each other.
pub proof fn lemma_point_fits<R: Rows>(
    group: Group,
    objs: Seq<RigidBody>,
    rows: &R,
    pair: Pair,
    cp: ManifoldPoint,
    time_step: Single,
    out: Group,
)
    requires
        group.fits(objs),
        objs.len() <= usize::MAX,
        known(group, objs, pair),
        group.takes_point(rows, pair, cp, time_step, out),
        group.frictions.len() <= usize::MAX,
    ensures
        out.fits(objs),
        out.bodies == group.bodies,
        out.fixed == group.fixed,
{
    lemma_ids_differ(group, objs, pair.idcs.0 as int, pair.idcs.1 as int);
    if !cp.is_special {
        lemma_rows_fit_push(
            group.contacts,
            group.frictions,
            group.bodies.len(),
            objs.len(),
            out.contacts.last(),
            out.frictions.last(),
        );
        assert(out.contacts =~= group.contacts.push(out.contacts.last()));
        assert(out.frictions =~= group.frictions.push(out.frictions.last()));
    }
}

/// The two bodies of a manifold are known once they take part.
pub proof fn lemma_introduced_fits(group: Group, objs: Seq<RigidBody>, m: PersistentManifold, made: (SolverBody, SolverBody))
    requires
        group.fits(objs),
        objs.len() <= usize::MAX,
        group.bodies.len() <= usize::MAX,
        group.admitted(objs[m.body0_idx as int], made.0).0.bodies.len() <= usize::MAX,
        solvable(m, objs),
    ensures
        ({
            let (after, noted, pair) = group.introduced(objs, m, made);
            &&& after.fits(noted)
            &&& same_bodies(objs, noted)
            &&& known(after, noted, pair)
            &&& after.special == group.special
            &&& after.frictions == group.frictions
        }),
{
    lemma_admitted_fits(group, objs, m.body0_idx as int, made.0);
    let (first, rb0, id0) = group.admitted(objs[m.body0_idx as int], made.0);
    let body0 = rb0.noted(Some(id0));
    let noted = objs.update(m.body0_idx as int, body0);
    lemma_admitted_fits(first, noted, m.body1_idx as int, made.1);
}

impl SeqImpulseConstraintSolver {
    /// Takes in a point of a manifold.
    fn take_point<R: Rows>(
        &mut self,
        rows: &R,
        ids: (usize, usize),
        idcs: (usize, usize),
        body0: &RigidBody,
        body1: &RigidBody,
        threshold: Single,
        cp: &ManifoldPoint,
        time_step: Single,
    )
        requires
            ids.0 < old(self).tmp_solver_body_pool@.len(),
            ids.1 < old(self).tmp_solver_body_pool@.len(),
            old(self).special_resolve_info.wf(),
        ensures
            old(self).group().takes_point(
                rows,
                (Pair { ids, idcs, body0: *body0, body1: *body1, threshold }),
                *cp,
                time_step,
                final(self).group(),
            ),
    {
        let ghost pair = Pair { ids, idcs, body0: *body0, body1: *body1, threshold };
        let rel_pos1 = cp.pos_world_on_a.minus(body0.world_trans.translation);
        let rel_pos2 = cp.pos_world_on_b.minus(body1.world_trans.translation);
        proof {
            assert(pair.rel_pos(*cp) == (rel_pos1, rel_pos2));
        }
        if cp.is_special {
            self.special_resolve_info.add_special_collision(body0, body1, cp, rel_pos1, rel_pos2, threshold);
            return ;
        }
        let solver_body_a = self.tmp_solver_body_pool[ids.0];
        let solver_body_b = self.tmp_solver_body_pool[ids.1];
        let rb0: Option<&RigidBody> = if solver_body_a.original_body.is_some() { Some(body0) } else { None };
        let rb1: Option<&RigidBody> = if solver_body_b.original_body.is_some() { Some(body1) } else { None };
        let friction_idx: usize = self.tmp_solver_contact_friction_constraint_pool.len();
        let row = rows.contact_row(
            (&solver_body_a, &solver_body_b),
            (rb0, rb1),
            (rel_pos1, rel_pos2),
            cp,
            time_step,
        );
        let vel_a = rows.velocity_before(&solver_body_a, rel_pos1);
        let vel_b = rows.velocity_before(&solver_body_b, rel_pos2);
        let contact_constraint = SolverConstraint {
            body_idx_a: idcs.0,
            body_idx_b: idcs.1,
            rel_pos_a: rel_pos1,
            rel_pos_b: rel_pos2,
            manifold_point: Some(*cp),
            relative_velocity_before: vel_a.minus(vel_b),
            ..SolverConstraint::bare(ids, friction_idx, row)
        };
        self.tmp_solver_contact_constraint_pool.push(contact_constraint);
        let aimed = rows.with_friction_dir(cp, (&solver_body_a, &solver_body_b), (rel_pos1, rel_pos2));
        let drag = rows.friction_row(
            (&solver_body_a, &solver_body_b),
            (rb0, rb1),
            (rel_pos1, rel_pos2),
            &aimed,
        );
        self.tmp_solver_contact_friction_constraint_pool.push(SolverConstraint::bare(ids, friction_idx, drag));
        proof {
            let a = solver_body_a;
            let b = solver_body_b;
            let rel_pos = pair.rel_pos(*cp);
            let moving = (behind(a, body0), behind(b, body1));
            assert(moving == (rb0, rb1));
            assert(call_ensures(R::contact_row, (rows, (&a, &b), moving, rel_pos, cp, time_step), row));
            assert(call_ensures(R::velocity_before, (rows, &a, rel_pos.0), vel_a));
            assert(call_ensures(R::velocity_before, (rows, &b, rel_pos.1), vel_b));
            assert(call_ensures(R::with_friction_dir, (rows, cp, (&a, &b), rel_pos), aimed));
            assert(call_ensures(R::friction_row, (rows, (&a, &b), moving, rel_pos, &aimed), drag));
            assert(contact_constraint == contact_of(pair, *cp, friction_idx, row, vel_a.minus(vel_b)));
        }
    }
}

/// The friction of the ball with the world acts against its motion across the surface, or in
/// some direction along it.
pub open spec fn heads<R: Rows>(rows: &R, vel: Vec3A, normal: Vec3A, dir: Vec3A) -> bool {
    match lateral(vel, normal) {
        Some(across) => dir == across,
        None => call_ensures(R::sideways, (rows, normal), dir),
    }
}

/// A point as it is told of.
pub open spec fn told_point(contact: SpecialContact) -> SpecialContactSolvePoint {
    SpecialContactSolvePoint {
        pos_world_on_b: contact.pos_world_on_b,
        normal_world_on_b: contact.normal_world_on_b,
        distance: contact.distance,
    }
}

impl Group {
    /// The solver's body for everything that does not move is there.
    pub open spec fn with_fixed(self, made: SolverBody) -> (Group, usize) {
        match self.fixed {
            Some(id) => (self, id),
            None => {
                let next = self.bodies.len() as usize;
                (Group { bodies: self.bodies.push(made.standing(None)), fixed: Some(next), ..self }, next)
            },
        }
    }

    /// The contact of the ball with the world, as the average of its points, becomes a row and a
    /// row for its friction.
    pub open spec fn converts<R: Rows>(
        self,
        rows: &R,
        body: RigidBody,
        time_step: Single,
        track: bool,
        out: Group,
    ) -> bool {
        exists|made: SolverBody| #[trigger]
            self.asks_fixed(rows, made) && self.converts_against(rows, body, made, time_step, track, out)
    }

    /// The same, where everything that does not move is seen as `made`.
    pub open spec fn converts_against<R: Rows>(
        self,
        rows: &R,
        body: RigidBody,
        made: SolverBody,
        time_step: Single,
        track: bool,
        out: Group,
    ) -> bool {
        let average = self.special.average();
        let (grown, id_b) = self.with_fixed(made);
        let id_a = body.companion_id->Some_0;
        let a = grown.bodies[id_a as int];
        exists|vel: Vec3A, bounce: Single, vel_before: Vec3A, dir: Vec3A|
            #[trigger] call_ensures(R::point_velocity, (rows, &body, average.rel_pos), vel)
                && #[trigger] call_ensures(
                R::restitution,
                (rows, average.normal.dot(vel), self.special.restitution),
                bounce,
            ) && #[trigger] call_ensures(R::velocity_before, (rows, &a, average.rel_pos), vel_before)
                && #[trigger] heads(rows, vel_before, average.normal, dir) && out == (Group {
                contacts: grown.contacts.push(
                    SolverConstraint {
                        body_idx_a: self.special.obj_idx,
                        rel_pos_a: average.rel_pos,
                        special_contact_info: if track {
                            Some(
                                SpecialContactSolveInfo {
                                    effective_normal: average.normal,
                                    mean_penetration: average.penetration,
                                    restitution_velocity: bounce.greater_of(Single { bits: 0 }),
                                    normal_impulse: Single { bits: 0 },
                                    push_impulse: Single { bits: 0 },
                                    relative_velocity_before: vel,
                                    relative_velocity_after: Vec3A::zero(),
                                },
                            )
                        } else {
                            None
                        },
                        ..SolverConstraint::bare(
                            (id_a, id_b),
                            0,
                            special_contact_row(
                                average,
                                self.special.friction,
                                body,
                                a,
                                time_step,
                                bounce.greater_of(Single { bits: 0 }),
                            ),
                        )
                    },
                ),
                frictions: grown.frictions.push(
                    SolverConstraint::bare(
                        (id_a, id_b),
                        grown.contacts.len() as usize,
                        special_friction_row(average, self.special.friction, body, a, dir),
                    ),
                ),
                points: if track {
                    self.special.contacts.map_values(|c: SpecialContact| told_point(c))
                } else {
                    self.points
                },
                ..grown
            })
    }

    /// A group is set up: its active bodies take part, its manifolds are taken in, and the contact
    /// of the ball with the world is converted.
    pub open spec fn sets_up<R: Rows>(
        self,
        rows: &R,
        objs: Seq<RigidBody>,
        list: Seq<usize>,
        manifolds: Seq<PersistentManifold>,
        time_step: Single,
        track: bool,
        out: Group,
        noted: Seq<RigidBody>,
    ) -> bool {
        exists|start: Group, bodies: Seq<RigidBody>, full: Group| #[trigger]
            (Group { fixed: None, ..self }).enlists(rows, forgotten(objs), list, start, bodies) && #[trigger]
            start.takes_manifolds(rows, bodies, manifolds, 0, time_step, full, noted) && if full.special.num > 0 {
                exists|whole: Group| #[trigger]
                    full.converts(rows, noted[full.special.obj_idx as int], time_step, track, whole) && out == (Group {
                        special: SpecialSums::none(),
                        ..whole
                    })
            } else {
                out == full
            }
    }
}

/// After the contact of the ball with the world was converted the bodies and the solver still
/// know each other.
pub proof fn lemma_converts_fits<R: Rows>(
    group: Group,
    objs: Seq<RigidBody>,
    rows: &R,
    time_step: Single,
    track: bool,
    out: Group,
)
    requires
        group.fits(objs),
        objs.len() <= usize::MAX,
        group.special.num > 0,
        group.bodies.len() <= usize::MAX,
        group.contacts.len() <= usize::MAX,
        group.converts(rows, objs[group.special.obj_idx as int], time_step, track, out),
    ensures
        (Group { special: SpecialSums::none(), ..out }).fits(objs),
{
    let body = objs[group.special.obj_idx as int];
    let made = choose|made: SolverBody| #[trigger]
        group.asks_fixed(rows, made) && group.converts_against(rows, body, made, time_step, track, out);
    let (grown, id_b) = group.with_fixed(made);
    let done = Group { special: SpecialSums::none(), ..out };
    assert(grown.bodies[body.companion_id->Some_0 as int].original_body == Some(group.special.obj_idx));
    assert(grown.bodies[id_b as int].original_body is None);
    assert(body.companion_id->Some_0 != id_b);
    assert(acquainted(done.bodies, done.fixed, objs)) by {
        assert(forall|k: int| 0 <= k < group.bodies.len() ==> #[trigger] done.bodies[k] == group.bodies[k]);
    }
    lemma_rows_fit_grow(group.contacts, group.frictions, group.bodies.len(), done.bodies.len(), objs.len());
    lemma_rows_fit_push(
        group.contacts,
        group.frictions,
        done.bodies.len(),
        objs.len(),
        done.contacts.last(),
        done.frictions.last(),
    );
    assert(done.contacts =~= group.contacts.push(done.contacts.last()));
    assert(done.frictions =~= group.frictions.push(done.frictions.last()));
}

impl SeqImpulseConstraintSolver {
    /// Takes in the points of a manifold.
    fn take_points<R: Rows>(
        &mut self,
        rows: &R,
        ids: (usize, usize),
        idcs: (usize, usize),
        body0: &RigidBody,
        body1: &RigidBody,
        manifold: &PersistentManifold,
        time_step: Single,
        Ghost(objs): Ghost<Seq<RigidBody>>,
    )
        requires
            old(self).group().fits(objs),
            objs.len() <= usize::MAX,
            known(
                old(self).group(),
                objs,
                (Pair {
                    ids,
                    idcs,
                    body0: *body0,
                    body1: *body1,
                    threshold: manifold.contact_breaking_threshold,
                }),
            ),
        ensures
            old(self).group().takes_points(
                rows,
                (Pair {
                    ids,
                    idcs,
                    body0: *body0,
                    body1: *body1,
                    threshold: manifold.contact_breaking_threshold,
                }),
                manifold.point_cache@,
                0,
                time_step,
                final(self).group(),
            ),
            final(self).group().fits(objs),
    {
        let threshold = manifold.contact_breaking_threshold;
        let ghost pair = Pair { ids, idcs, body0: *body0, body1: *body1, threshold };
        let ghost start = self.group();
        let mut j: usize = 0;
        while j < manifold.point_cache.len()
            invariant
                j <= manifold.point_cache@.len(),
                threshold == manifold.contact_breaking_threshold,
                pair == (Pair { ids, idcs, body0: *body0, body1: *body1, threshold }),
                objs.len() <= usize::MAX,
                self.group().fits(objs),
                known(self.group(), objs, pair),
                forall|out: Group| #[trigger]
                    self.group().takes_points(rows, pair, manifold.point_cache@, j as nat, time_step, out)
                        ==> start.takes_points(rows, pair, manifold.point_cache@, 0, time_step, out),
            decreases manifold.point_cache@.len() - j,
        {
            let ghost here = self.group();
            let ghost at = j as nat;
            let cp = manifold.point_cache[j];
            proof {
                lemma_ids_differ(here, objs, idcs.0 as int, idcs.1 as int);
                assert(self.tmp_solver_contact_friction_constraint_pool.len() <= usize::MAX);
            }
            self.take_point(rows, ids, idcs, body0, body1, threshold, &cp, time_step);
            proof {
                lemma_point_fits(here, objs, rows, pair, cp, time_step, self.group());
            }
            j = j + 1;
            proof {
                assert forall|out: Group| #[trigger]
                    self.group().takes_points(
                        rows,
                        pair,
                        manifold.point_cache@,
                        j as nat,
                        time_step,
                        out,
                    ) implies start.takes_points(rows, pair, manifold.point_cache@, 0, time_step, out) by {
                    assert(here.takes_point(rows, pair, manifold.point_cache@[at as int], time_step, self.group()));
                    assert(here.takes_points(rows, pair, manifold.point_cache@, at, time_step, out));
                }
            }
        }
        proof {
            assert(self.group().takes_points(
                rows,
                pair,
                manifold.point_cache@,
                j as nat,
                time_step,
                self.group(),
            ));
        }
    }

    /// Takes in a manifold.
    fn take_manifold<R: Rows>(
        &mut self,
        rows: &R,
        collision_objs: &mut Vec<RigidBody>,
        manifold: &PersistentManifold,
        time_step: Single,
    )
        requires
            old(self).group().fits(old(collision_objs)@),
            solvable(*manifold, old(collision_objs)@),
        ensures
            old(self).group().takes_manifold(
                rows,
                old(collision_objs)@,
                *manifold,
                time_step,
                final(self).group(),
                final(collision_objs)@,
            ),
            final(self).group().fits(final(collision_objs)@),
            same_bodies(old(collision_objs)@, final(collision_objs)@),
    {
        let ghost before = self.group();
        let ghost objs = collision_objs@;
        proof {
            assert(self.tmp_solver_body_pool.len() <= usize::MAX);
            assert(collision_objs.len() <= usize::MAX);
        }
        let idx0: usize = manifold.body0_idx;
        let idx1: usize = manifold.body1_idx;
        let mut body0 = collision_objs[idx0];
        let id0: usize = self.get_or_init_solver_body(rows, &mut body0);
        let ghost made0 = choose|made: SolverBody| #[trigger]
            before.asks(rows, objs[idx0 as int], made) && (self.group(), body0, id0) == before.admitted(
                objs[idx0 as int],
                made,
            );
        let body0 = body0.note(Some(id0));
        collision_objs.set(idx0, body0);
        proof {
            assert(self.tmp_solver_body_pool.len() <= usize::MAX);
        }
        let ghost near = self.group();
        let ghost there = collision_objs@;
        let mut body1 = collision_objs[idx1];
        let id1: usize = self.get_or_init_solver_body(rows, &mut body1);
        let ghost made1 = choose|made: SolverBody| #[trigger]
            near.asks(rows, there[idx1 as int], made) && (self.group(), body1, id1) == near.admitted(
                there[idx1 as int],
                made,
            );
        let body1 = body1.note(Some(id1));
        collision_objs.set(idx1, body1);
        proof {
            lemma_introduced_fits(before, objs, *manifold, (made0, made1));
            assert(before.asks_both(rows, objs, *manifold, (made0, made1)));
        }
        self.take_points(
            rows,
            (id0, id1),
            (idx0, idx1),
            &body0,
            &body1,
            manifold,
            time_step,
            Ghost(collision_objs@),
        );
    }
}

/// What holds of a body as the solver needs it holds of the same body with another note.
pub proof fn lemma_same_bodies(objs: Seq<RigidBody>, noted: Seq<RigidBody>, m: PersistentManifold)
    requires
        same_bodies(objs, noted),
        solvable(m, objs),
    ensures
        solvable(m, noted),
{
    assert(noted[m.body0_idx as int].is_static == objs[m.body0_idx as int].is_static);
    assert(noted[m.body1_idx as int].is_static == objs[m.body1_idx as int].is_static);
}

impl SeqImpulseConstraintSolver {
    /// Turns the contact of the ball with the world into a row and a row for its friction.
    pub fn convert_contact_special<R: Rows>(
        &mut self,
        rows: &R,
        body: &RigidBody,
        time_step: Single,
        track_special_contacts: bool,
    )
        requires
            body.companion_id is Some,
            body.companion_id->Some_0 < old(self).tmp_solver_body_pool@.len(),
        ensures
            old(self).group().converts(rows, *body, time_step, track_special_contacts, final(self).group()),
    {
        let ghost before = self.group();
        let average = self.special_resolve_info.average();
        let friction = self.special_resolve_info.friction;
        let friction_idx: usize = self.tmp_solver_contact_constraint_pool.len();
        let solver_body_id_a: usize = match body.companion_id {
            Some(id) => id,
            None => 0,
        };
        let ghost mut made: SolverBody = before.bodies[0];
        let solver_body_id_b: usize = match self.fixed_body_id {
            Some(fixed_body_id) => fixed_body_id,
            None => {
                let solver_body_id: usize = self.tmp_solver_body_pool.len();
                self.fixed_body_id = Some(solver_body_id);
                let fixed_body = rows.fixed_body();
                proof {
                    made = fixed_body;
                }
                self.tmp_solver_body_pool.push(fixed_body.stand_for(None));
                solver_body_id
            },
        };
        let ghost grown = before.with_fixed(made).0;
        proof {
            assert(self.group() == grown);
            assert(solver_body_id_b == before.with_fixed(made).1);
            assert(before.asks_fixed(rows, made));
        }
        let solver_body_a = self.tmp_solver_body_pool[solver_body_id_a];
        let vel = rows.point_velocity(body, average.rel_pos);
        let bounce = rows.restitution(average.normal.dot(vel), self.special_resolve_info.restitution);
        let restitution = bounce.max(Single::zero());
        let row = get_special_contact_row(average, friction, body, &solver_body_a, time_step, restitution);
        let special_contact_info: Option<SpecialContactSolveInfo> = if track_special_contacts {
            self.special_points.clear();
            let mut i: usize = 0;
            while i < self.special_resolve_info.special_contacts.len()
                invariant
                    i <= self.special_resolve_info.special_contacts@.len(),
                    self.group() == (Group { points: self.special_points@, ..grown }),
                    self.special_points@ =~= grown.special.contacts.take(i as int).map_values(
                        |c: SpecialContact| told_point(c),
                    ),
                decreases self.special_resolve_info.special_contacts@.len() - i,
            {
                let contact = self.special_resolve_info.special_contacts[i];
                self.special_points.push(
                    SpecialContactSolvePoint {
                        pos_world_on_b: contact.pos_world_on_b,
                        normal_world_on_b: contact.normal_world_on_b,
                        distance: contact.distance,
                    },
                );
                i = i + 1;
            }
            proof {
                assert(grown.special.contacts.take(i as int) =~= before.special.contacts);
            }
            Some(
                SpecialContactSolveInfo {
                    effective_normal: average.normal,
                    mean_penetration: average.penetration,
                    restitution_velocity: restitution,
                    normal_impulse: Single::zero(),
                    push_impulse: Single::zero(),
                    relative_velocity_before: vel,
                    relative_velocity_after: Vec3A::zero(),
                },
            )
        } else {
            None
        };
        self.tmp_solver_contact_constraint_pool.push(
            SolverConstraint {
                body_idx_a: self.special_resolve_info.obj_idx,
                rel_pos_a: average.rel_pos,
                special_contact_info,
                ..SolverConstraint::bare((solver_body_id_a, solver_body_id_b), 0, row)
            },
        );
        let vel_before = rows.velocity_before(&solver_body_a, average.rel_pos);
        let dir = match lateral_dir(vel_before, average.normal) {
            Some(across) => across,
            None => rows.sideways(average.normal),
        };
        let drag = get_special_friction_row(average, friction, body, &solver_body_a, dir);
        self.tmp_solver_contact_friction_constraint_pool.push(
            SolverConstraint::bare((solver_body_id_a, solver_body_id_b), friction_idx, drag),
        );
        proof {
            assert(heads(rows, vel_before, average.normal, dir));
            assert(call_ensures(R::point_velocity, (rows, body, average.rel_pos), vel));
            assert(call_ensures(
                R::restitution,
                (rows, average.normal.dot(vel), before.special.restitution),
                bounce,
            ));
            assert(call_ensures(R::velocity_before, (rows, &solver_body_a, average.rel_pos), vel_before));
            assert(before.converts_against(rows, *body, made, time_step, track_special_contacts, self.group()));
        }
    }

    /// Takes in all manifolds.
    fn take_manifolds<R: Rows>(
        &mut self,
        rows: &R,
        collision_objs: &mut Vec<RigidBody>,
        manifolds: &Vec<PersistentManifold>,
        time_step: Single,
    )
        requires
            old(self).group().fits(old(collision_objs)@),
            old(self).special_resolve_info.num_special_collisions == 0,
            forall|i: int| 0 <= i < manifolds@.len() ==> solvable(#[trigger] manifolds@[i], old(collision_objs)@),
        ensures
            old(self).group().takes_manifolds(
                rows,
                old(collision_objs)@,
                manifolds@,
                0,
                time_step,
                final(self).group(),
                final(collision_objs)@,
            ),
            final(self).group().fits(final(collision_objs)@),
            same_bodies(old(collision_objs)@, final(collision_objs)@),
    {
        let ghost start = self.group();
        let ghost objs = collision_objs@;
        proof {
            lemma_all_noted(objs);
        }
        let mut i: usize = 0;
        while i < manifolds.len()
            invariant
                i <= manifolds@.len(),
                self.group().fits(collision_objs@),
                same_bodies(objs, collision_objs@),
                forall|k: int| 0 <= k < manifolds@.len() ==> solvable(#[trigger] manifolds@[k], objs),
                forall|out: Group, noted: Seq<RigidBody>| #[trigger]
                    self.group().takes_manifolds(rows, collision_objs@, manifolds@, i as nat, time_step, out, noted)
                        ==> start.takes_manifolds(rows, objs, manifolds@, 0, time_step, out, noted),
            decreases manifolds@.len() - i,
        {
            let ghost here = self.group();
            let ghost there = collision_objs@;
            let ghost at = i as nat;
            proof {
                lemma_same_bodies(objs, there, manifolds@[i as int]);
            }
            self.take_manifold(rows, collision_objs, &manifolds[i], time_step);
            i = i + 1;
            proof {
                assert forall|out: Group, noted: Seq<RigidBody>| #[trigger]
                    self.group().takes_manifolds(
                        rows,
                        collision_objs@,
                        manifolds@,
                        i as nat,
                        time_step,
                        out,
                        noted,
                    ) implies start.takes_manifolds(rows, objs, manifolds@, 0, time_step, out, noted) by {
                    assert(here.takes_manifold(
                        rows,
                        there,
                        manifolds@[at as int],
                        time_step,
                        self.group(),
                        collision_objs@,
                    ));
                    assert(here.takes_manifolds(rows, there, manifolds@, at, time_step, out, noted));
                }
            }
        }
        proof {
            assert(self.group().takes_manifolds(
                rows,
                collision_objs@,
                manifolds@,
                i as nat,
                time_step,
                self.group(),
                collision_objs@,
            ));
        }
    }

    /// Sets up a group: which bodies take part, and the rows of their contacts. The manifolds are
    /// used up.
    pub fn solve_group_setup<R: Rows>(
        &mut self,
        rows: &R,
        collision_objs: &mut Vec<RigidBody>,
        non_static_bodies: &Vec<usize>,
        manifolds: &mut Vec<PersistentManifold>,
        time_step: Single,
        track_special_contacts: bool,
    )
        requires
            old(self).group().idle(),
            numbered(old(collision_objs)@),
            movable(old(collision_objs)@, non_static_bodies@),
            forall|i: int| 0 <= i < old(manifolds)@.len() ==> solvable(#[trigger] old(manifolds)@[i], old(collision_objs)@),
        ensures
            old(self).group().sets_up(
                rows,
                old(collision_objs)@,
                non_static_bodies@,
                old(manifolds)@,
                time_step,
                track_special_contacts,
                final(self).group(),
                final(collision_objs)@,
            ),
            final(self).group().fits(final(collision_objs)@),
            same_bodies(old(collision_objs)@, final(collision_objs)@),
            final(manifolds)@.len() == 0,
            final(self).special_resolve_info.sums() == SpecialSums::none(),
    {
        let ghost objs = collision_objs@;
        let ghost all = manifolds@;
        let ghost blank = Group { fixed: None, ..self.group() };
        proof {
            assert(collision_objs.len() <= usize::MAX);
            assert(non_static_bodies.len() <= usize::MAX);
        }
        self.setup_solver_bodies(rows, collision_objs, non_static_bodies);
        let ghost first = self.group();
        proof {
            assert(blank.enlists(rows, forgotten(objs), non_static_bodies@, first, collision_objs@));
            lemma_blank_fits(blank, rows, objs, non_static_bodies@, first, collision_objs@);
            assert forall|i: int| 0 <= i < all.len() implies solvable(#[trigger] all[i], collision_objs@) by {
                lemma_same_bodies(objs, collision_objs@, all[i]);
            }
        }
        let ghost bodies = collision_objs@;
        self.take_manifolds(rows, collision_objs, manifolds, time_step);
        manifolds.clear();
        proof {
            lemma_same_bodies_chain(objs, bodies, collision_objs@);
        }
        if self.special_resolve_info.num_special_collisions > 0 {
            let ghost full = self.group();
            let body = collision_objs[self.special_resolve_info.obj_idx];
            proof {
                assert(self.tmp_solver_body_pool.len() <= usize::MAX);
                assert(self.tmp_solver_contact_constraint_pool.len() <= usize::MAX);
                assert(collision_objs.len() <= usize::MAX);
            }
            self.convert_contact_special(rows, &body, time_step, track_special_contacts);
            let ghost whole = self.group();
            proof {
                lemma_converts_fits(full, collision_objs@, rows, time_step, track_special_contacts, whole);
            }
            self.special_resolve_info.reset();
            proof {
                assert(full.converts(
                    rows,
                    collision_objs@[full.special.obj_idx as int],
                    time_step,
                    track_special_contacts,
                    whole,
                ));
                assert(self.group() == (Group { special: SpecialSums::none(), ..whole }));
            }
        }
    }
}

/// The same bodies as the same bodies are the same bodies.
proof fn lemma_same_bodies_chain(a: Seq<RigidBody>, b: Seq<RigidBody>, c: Seq<RigidBody>)
    requires
        same_bodies(a, b),
        same_bodies(b, c),
    ensures
        same_bodies(a, c),
{
    assert forall|i: int| 0 <= i < a.len() implies #[trigger] c[i] == a[i].noted(c[i].companion_id) by {
        assert(b[i] == a[i].noted(b[i].companion_id));
        assert(c[i] == b[i].noted(c[i].companion_id));
    }
}

/// A group with nothing in it and a list of bodies that can move fit, and so they do once those
/// take part.
proof fn lemma_blank_fits<R: Rows>(
    blank: Group,
    rows: &R,
    objs: Seq<RigidBody>,
    list: Seq<usize>,
    out: Group,
    noted: Seq<RigidBody>,
)
    requires
        blank.idle(),
        blank.fixed is None,
        numbered(objs),
        movable(objs, list),
        objs.len() <= usize::MAX,
        list.len() <= usize::MAX,
        blank.enlists(rows, forgotten(objs), list, out, noted),
    ensures
        out.fits(noted),
        same_bodies(objs, noted),
        out.special == blank.special,
{
    let before = forgotten(objs);
    assert(numbered(before));
    assert(blank.fits(before));
    assert(same_bodies(objs, before));
    let made = choose|made: Seq<SolverBody>| #[trigger]
        blank.answered(rows, before, list, list.len() as int, made) && (out, noted) == blank.enlisted(
            before,
            list,
            list.len() as int,
            made,
        );
    lemma_enlisted_fits(blank, before, list, list.len() as int, made);
    lemma_same_bodies_chain(objs, before, noted);
}

} // verus!
