//! The solver's iterations over the rows of a group.
use crate::bullet::body::RigidBody;
use crate::bullet::contact_solver_info::NUM_ITERATIONS;
use crate::bullet::seq_impulse_constraint_solver::{acquainted, joins, rows_fit, Group, SeqImpulseConstraintSolver};
use crate::bullet::solver_body::SolverBody;
use crate::bullet::solver_constraint::{Row, RowOutcome, Rows, SolverConstraint};
use crate::single::Single;
use vstd::prelude::*;

verus! {

/// Up to this many contacts the solver keeps track of which ones still move.
pub const MASK_BITS: usize = 128;

/// The same two bodies and the same contact.
pub open spec fn same_place(a: SolverConstraint, b: SolverConstraint) -> bool {
    b == (SolverConstraint { row: b.row, ..a })
}

/// The same solver's bodies and rows, whatever their numbers.
pub open spec fn same_shape(a: Group, b: Group) -> bool {
    &&& b.fixed == a.fixed
    &&& b.special == a.special
    &&& b.points == a.points
    &&& b.bodies.len() == a.bodies.len()
    &&& b.contacts.len() == a.contacts.len()
    &&& b.frictions.len() == a.frictions.len()
    &&& forall|k: int|
        #![trigger b.bodies[k]]
        0 <= k < a.bodies.len() ==> b.bodies[k].original_body == a.bodies[k].original_body
    &&& forall|c: int| 0 <= c < a.contacts.len() ==> same_place(a.contacts[c], #[trigger] b.contacts[c])
    &&& forall|c: int| 0 <= c < a.frictions.len() ==> same_place(a.frictions[c], #[trigger] b.frictions[c])
}

/// What holds of the shape of a group holds of every group of the same shape.
pub proof fn lemma_shape_fits(a: Group, b: Group, objs: Seq<RigidBody>)
    requires
        a.fits(objs),
        same_shape(a, b),
    ensures
        b.fits(objs),
{
    assert forall|k: int|
        #![trigger b.bodies[k]]
        0 <= k < b.bodies.len() implies (b.bodies[k].original_body matches Some(i) ==> i < objs.len()
        && objs[i as int].companion_id == Some(k as usize)) by {
        assert(b.bodies[k].original_body == a.bodies[k].original_body);
    }
    assert forall|i: int|
        #![trigger objs[i]]
        0 <= i < objs.len() implies (objs[i].companion_id matches Some(k) ==> k < b.bodies.len()
        && if objs[i].is_static {
        b.fixed == Some(k)
    } else {
        b.bodies[k as int].original_body == Some(i as usize)
    }) by {
        if let Some(k) = objs[i].companion_id {
            assert(b.bodies[k as int].original_body == a.bodies[k as int].original_body);
        }
    }
    if let Some(k) = b.fixed {
        assert(b.bodies[k as int].original_body == a.bodies[k as int].original_body);
    }
    assert(acquainted(b.bodies, b.fixed, objs));
    lemma_shape_rows(a, b, objs.len());
}

/// Rows fit still in a group of the same shape.
pub proof fn lemma_shape_rows(a: Group, b: Group, objs: nat)
    requires
        rows_fit(a.contacts, a.frictions, a.bodies.len(), objs),
        same_shape(a, b),
    ensures
        rows_fit(b.contacts, b.frictions, b.bodies.len(), objs),
{
    assert forall|c: int| 0 <= c < b.contacts.len() implies joins(#[trigger] b.contacts[c], b.bodies.len())
        && b.contacts[c].body_idx_a < objs && b.contacts[c].body_idx_b < objs by {
        assert(same_place(a.contacts[c], b.contacts[c]));
        assert(joins(a.contacts[c], a.bodies.len()));
    }
    assert forall|c: int| 0 <= c < b.frictions.len() implies joins(#[trigger] b.frictions[c], b.bodies.len())
        && b.frictions[c].friction_idx == c by {
        assert(same_place(a.frictions[c], b.frictions[c]));
        assert(joins(a.frictions[c], a.bodies.len()));
    }
}

pub proof fn lemma_shape_chain(a: Group, b: Group, c: Group)
    requires
        same_shape(a, b),
        same_shape(b, c),
    ensures
        same_shape(a, c),
{
    assert forall|k: int| #![trigger c.bodies[k]] 0 <= k < a.bodies.len() implies c.bodies[k].original_body
        == a.bodies[k].original_body by {
        assert(b.bodies[k].original_body == a.bodies[k].original_body);
    }
    assert forall|i: int| 0 <= i < a.contacts.len() implies same_place(a.contacts[i], #[trigger] c.contacts[i]) by {
        assert(same_place(a.contacts[i], b.contacts[i]));
    }
    assert forall|i: int| 0 <= i < a.frictions.len() implies same_place(a.frictions[i], #[trigger] c.frictions[i]) by {
        assert(same_place(a.frictions[i], b.frictions[i]));
    }
}

/// A solver's body that is pushed.
pub open spec fn pushed(body: SolverBody, o: RowOutcome, first: bool) -> SolverBody {
    if first {
        SolverBody { push_vel: o.lin_a, turn_vel: o.ang_a, ..body }
    } else {
        SolverBody { push_vel: o.lin_b, turn_vel: o.ang_b, ..body }
    }
}

/// A solver's body whose velocity is changed.
pub open spec fn driven(body: SolverBody, o: RowOutcome, first: bool) -> SolverBody {
    if first {
        SolverBody { delta_lin_vel: o.lin_a, delta_ang_vel: o.ang_a, ..body }
    } else {
        SolverBody { delta_lin_vel: o.lin_b, delta_ang_vel: o.ang_b, ..body }
    }
}

impl Group {
    /// The bodies that a row joins.
    pub open spec fn joined(self, c: SolverConstraint) -> (SolverBody, SolverBody) {
        (self.bodies[c.solver_body_id_a as int], self.bodies[c.solver_body_id_b as int])
    }

    /// The `i`th contact is pushed apart, with this residual.
    pub open spec fn pushes<R: Rows>(self, rows: &R, i: int, residual: Single, out: Group) -> bool {
        let c = self.contacts[i];
        let (a, b) = self.joined(c);
        exists|o: RowOutcome| #[trigger]
            call_ensures(R::push_apart, (rows, &c.row, &a, &b), o) && residual == o.residual && out == (Group {
                bodies: self.bodies.update(c.solver_body_id_a as int, pushed(a, o, true)).update(
                    c.solver_body_id_b as int,
                    pushed(b, o, false),
                ),
                contacts: self.contacts.update(
                    i,
                    SolverConstraint { row: Row { applied_push_impulse: o.impulse, ..c.row }, ..c },
                ),
                ..self
            })
    }

    /// The solver keeps track of which contacts still move.
    pub open spec fn masked(self) -> bool {
        self.contacts.len() <= MASK_BITS
    }

    /// The contacts from the `i`th on that still move are pushed apart. Those that a push does not
    /// correct do not move any longer.
    pub open spec fn pushes_all<R: Rows>(self, rows: &R, run: Seq<bool>, i: nat, out: Group, left: Seq<bool>) -> bool
        decreases self.contacts.len() - i,
    {
        if i >= self.contacts.len() {
            out == self && left == run
        } else if self.masked() && !run[i as int] {
            self.pushes_all(rows, run, i + 1, out, left)
        } else {
            exists|next: Group, residual: Single| #[trigger]
                self.pushes(rows, i as int, residual, next) && next.contacts.len() == self.contacts.len()
                    && next.pushes_all(
                    rows,
                    if self.masked() && residual.times(residual).same(Single { bits: 0 }) {
                        run.update(i as int, false)
                    } else {
                        run
                    },
                    i + 1,
                    out,
                    left,
                )
        }
    }

    /// Contacts are pushed apart for some rounds, or until none moves.
    pub open spec fn splits<R: Rows>(self, rows: &R, run: Seq<bool>, rounds: nat, out: Group) -> bool
        decreases rounds,
    {
        if rounds == 0 {
            out == self
        } else {
            exists|next: Group, left: Seq<bool>| #[trigger]
                self.pushes_all(rows, run, 0, next, left) && if self.masked() && none_of(left) {
                    out == next
                } else {
                    next.splits(rows, left, (rounds - 1) as nat, out)
                }
        }
    }
}

/// No contact moves.
pub open spec fn none_of(run: Seq<bool>) -> bool {
    forall|i: int| 0 <= i < run.len() ==> !#[trigger] run[i]
}

/// Every contact moves.
pub open spec fn all_of(n: nat) -> Seq<bool> {
    Seq::new(n, |i: int| true)
}

/// A contact that has come to rest is not taken up again.
pub proof fn law_rested_contacts_rest<R: Rows>(
    group: Group,
    rows: &R,
    run: Seq<bool>,
    i: nat,
    out: Group,
    left: Seq<bool>,
)
    requires
        group.pushes_all(rows, run, i, out, left),
        run.len() == group.contacts.len(),
    ensures
        left.len() == run.len(),
        forall|j: int| 0 <= j < run.len() && #[trigger] left[j] ==> run[j],
    decreases group.contacts.len() - i,
{
    if i < group.contacts.len() {
        if group.masked() && !run[i as int] {
            law_rested_contacts_rest(group, rows, run, i + 1, out, left);
        } else {
            let (next, residual) = choose|next: Group, residual: Single| #[trigger]
                group.pushes(rows, i as int, residual, next) && next.contacts.len() == group.contacts.len()
                    && next.pushes_all(
                    rows,
                    if group.masked() && residual.times(residual).same(Single { bits: 0 }) {
                        run.update(i as int, false)
                    } else {
                        run
                    },
                    i + 1,
                    out,
                    left,
                );
            let after = if group.masked() && residual.times(residual).same(Single { bits: 0 }) {
                run.update(i as int, false)
            } else {
                run
            };
            law_rested_contacts_rest(next, rows, after, i + 1, out, left);
            assert forall|j: int| 0 <= j < run.len() && #[trigger] left[j] implies run[j] by {
                assert(after[j]);
            }
        }
    }
}

/// Once no contact moves, another round changes nothing: to stop early is to go on.
pub proof fn law_stopping_early_is_going_on<R: Rows>(
    group: Group,
    rows: &R,
    run: Seq<bool>,
    i: nat,
    out: Group,
    left: Seq<bool>,
)
    requires
        group.masked(),
        run.len() == group.contacts.len(),
        none_of(run),
        group.pushes_all(rows, run, i, out, left),
    ensures
        out == group,
        left == run,
    decreases group.contacts.len() - i,
{
    if i < group.contacts.len() {
        law_stopping_early_is_going_on(group, rows, run, i + 1, out, left);
    }
}

/// The contacts that still move, by the bits of a number.
pub open spec fn mask_shows(mask: u128, run: Seq<bool>) -> bool {
    &&& run.len() <= MASK_BITS
    &&& forall|i: int| 0 <= i < run.len() ==> (#[trigger] run[i] <==> mask & (1u128 << (i as u128)) != 0)
    &&& run.len() < MASK_BITS ==> mask < 1u128 << (run.len() as u128)
}

/// A number below a power of two without any bit below that is zero.
proof fn lemma_no_bits(mask: u128, n: nat)
    requires
        n <= MASK_BITS,
        n < MASK_BITS ==> mask < 1u128 << (n as u128),
        forall|i: nat| i < n ==> mask & #[trigger] (1u128 << (i as u128)) == 0,
    ensures
        mask == 0,
    decreases n,
{
    if n == 0 {
        assert(1u128 << 0u128 == 1) by (bit_vector);
    } else {
        let top = (n - 1) as u128;
        assert(mask & (1u128 << top) == 0) by {
            assert(mask & (1u128 << (((n - 1) as nat) as u128)) == 0);
        }
        if n == MASK_BITS {
            assert(top == 127);
            assert(mask & (1u128 << 127u128) == 0 ==> mask < (1u128 << 127u128)) by (bit_vector);
        } else {
            let whole = n as u128;
            assert(whole == top + 1);
            assert(0 < whole < 128 && top == whole - 1 && mask < (1u128 << whole) && mask & (1u128 << top) == 0
                ==> mask < (1u128 << top)) by (bit_vector);
        }
        lemma_no_bits(mask, (n - 1) as nat);
    }
}

/// The number is zero when no contact moves, and only then.
proof fn lemma_mask_zero(mask: u128, run: Seq<bool>)
    requires
        mask_shows(mask, run),
    ensures
        mask == 0 <==> none_of(run),
{
    if none_of(run) {
        assert forall|i: nat| i < run.len() implies mask & #[trigger] (1u128 << (i as u128)) == 0 by {
            assert(!run[i as int]);
        }
        lemma_no_bits(mask, run.len());
    }
    if mask == 0 {
        assert forall|i: int| 0 <= i < run.len() implies !#[trigger] run[i] by {
            let b = i as u128;
            assert(0u128 & (1u128 << b) == 0) by (bit_vector);
        }
    }
}

/// A bit that is set and then turned is off, and the others stay.
proof fn lemma_mask_off(mask: u128, run: Seq<bool>, i: int)
    requires
        mask_shows(mask, run),
        0 <= i < run.len(),
        run[i],
    ensures
        mask_shows(mask ^ (1u128 << (i as u128)), run.update(i, false)),
{
    let bit = i as u128;
    let after = mask ^ (1u128 << bit);
    assert forall|j: int| 0 <= j < run.len() implies (#[trigger] run.update(i, false)[j] <==> after & (1u128 << (
    j as u128)) != 0) by {
        let other = j as u128;
        if j == i {
            assert(mask & (1u128 << bit) != 0 ==> (mask ^ (1u128 << bit)) & (1u128 << bit) == 0) by (bit_vector);
        } else {
            assert(bit < 128 && other < 128 && bit != other ==> (mask ^ (1u128 << bit)) & (1u128 << other) == mask & (
            1u128 << other)) by (bit_vector);
            assert(run[j] <==> mask & (1u128 << other) != 0);
        }
    }
    if run.len() < MASK_BITS {
        let n = run.len() as u128;
        assert(bit < n && n < 128 && mask < (1u128 << n) ==> mask ^ (1u128 << bit) < (1u128 << n)) by (bit_vector);
    }
}

/// At first every contact moves.
proof fn lemma_mask_full(n: nat, mask: u128)
    requires
        n <= MASK_BITS,
        n < MASK_BITS ==> mask == (1u128 << (n as u128)) - 1,
        n == MASK_BITS ==> mask == u128::MAX,
    ensures
        mask_shows(mask, all_of(n)),
{
    let run = all_of(n);
    assert forall|i: int| 0 <= i < run.len() implies (#[trigger] run[i] <==> mask & (1u128 << (i as u128)) != 0) by {
        let bit = i as u128;
        if n < MASK_BITS {
            let whole = n as u128;
            assert(bit < whole && whole < 128 && mask + 1 == (1u128 << whole) ==> mask & (1u128 << bit) != 0)
                by (bit_vector);
            assert(whole < 128 ==> (1u128 << whole) >= 1) by (bit_vector);
        } else {
            assert(bit < 128 ==> 0xffff_ffff_ffff_ffff_ffff_ffff_ffff_ffffu128 & (1u128 << bit) != 0) by (bit_vector);
        }
    }
}

impl Group {
    /// A row drives its two bodies.
    pub open spec fn driven_by(self, c: SolverConstraint, o: RowOutcome) -> Seq<SolverBody> {
        let (a, b) = self.joined(c);
        self.bodies.update(c.solver_body_id_a as int, driven(a, o, true)).update(
            c.solver_body_id_b as int,
            driven(b, o, false),
        )
    }

    /// The `i`th contact is solved, with this residual.
    pub open spec fn meets<R: Rows>(self, rows: &R, i: int, residual: Single, out: Group) -> bool {
        let c = self.contacts[i];
        let (a, b) = self.joined(c);
        exists|o: RowOutcome| #[trigger]
            call_ensures(R::solve_contact, (rows, &c.row, &a, &b), o) && residual == o.residual && out == (Group {
                bodies: self.driven_by(c, o),
                contacts: self.contacts.update(
                    i,
                    SolverConstraint { row: Row { applied_impulse: o.impulse, ..c.row }, ..c },
                ),
                ..self
            })
    }

    /// The contacts from the `i`th on are solved, but for those whose velocities are resolved
    /// elsewhere; the largest squared residual becomes `least`.
    pub open spec fn meets_all<R: Rows>(self, rows: &R, i: nat, worst: Single, out: Group, least: Single) -> bool
        decreases self.contacts.len() - i,
    {
        if i >= self.contacts.len() {
            out == self && least == worst
        } else if self.contacts[i as int].row.is_special {
            self.meets_all(rows, i + 1, worst, out, least)
        } else {
            exists|next: Group, residual: Single| #[trigger]
                self.meets(rows, i as int, residual, next) && next.contacts.len() == self.contacts.len()
                    && next.meets_all(rows, i + 1, residual.times(residual).greater_of(worst), out, least)
        }
    }

    /// A row of friction with the limits that its contact allows.
    pub open spec fn limited(self, c: SolverConstraint) -> Row {
        let limit = c.row.friction.times(self.contacts[c.friction_idx as int].row.applied_impulse);
        Row { lower_limit: limit.negate(), upper_limit: limit, ..c.row }
    }

    /// The `i`th row of friction is solved, with this residual.
    pub open spec fn rubs<R: Rows>(self, rows: &R, i: int, residual: Single, out: Group) -> bool {
        let c = self.frictions[i];
        let (a, b) = self.joined(c);
        exists|o: RowOutcome| #[trigger]
            call_ensures(R::solve_friction, (rows, &self.limited(c), &a, &b), o) && residual == o.residual && out == (
            Group {
                bodies: self.driven_by(c, o),
                frictions: self.frictions.update(
                    i,
                    SolverConstraint { row: Row { applied_impulse: o.impulse, ..self.limited(c) }, ..c },
                ),
                ..self
            })
    }

    /// The rows of friction from the `i`th on are solved, but for those whose contact does not
    /// press.
    pub open spec fn rubs_all<R: Rows>(self, rows: &R, i: nat, worst: Single, out: Group, least: Single) -> bool
        decreases self.frictions.len() - i,
    {
        if i >= self.frictions.len() {
            out == self && least == worst
        } else if self.contacts[self.frictions[i as int].friction_idx as int].row.applied_impulse.at_most(
            Single { bits: 0 },
        ) {
            self.rubs_all(rows, i + 1, worst, out, least)
        } else {
            exists|next: Group, residual: Single| #[trigger]
                self.rubs(rows, i as int, residual, next) && next.frictions.len() == self.frictions.len()
                    && next.rubs_all(rows, i + 1, residual.times(residual).greater_of(worst), out, least)
        }
    }

    /// One iteration: all contacts, and then all friction.
    pub open spec fn iterates<R: Rows>(self, rows: &R, out: Group, least: Single) -> bool {
        exists|met: Group, worst: Single| #[trigger]
            self.meets_all(rows, 0, Single { bits: 0 }, met, worst) && met.rubs_all(rows, 0, worst, out, least)
    }

    /// Iterations, until nothing is corrected any longer.
    pub open spec fn solves<R: Rows>(self, rows: &R, iterations: nat, out: Group) -> bool
        decreases iterations,
    {
        if iterations == 0 {
            out == self
        } else {
            exists|next: Group, least: Single| #[trigger]
                self.iterates(rows, next, least) && if least.same(Single { bits: 0 }) {
                    out == (Group { residual: least, ..next })
                } else {
                    (Group { residual: least, ..next }).solves(rows, (iterations - 1) as nat, out)
                }
        }
    }

    /// The penetrations are pushed apart, and then the velocities are solved.
    pub open spec fn works_out<R: Rows>(self, rows: &R, out: Group) -> bool {
        exists|apart: Group| #[trigger]
            self.splits(rows, all_of(self.contacts.len()), NUM_ITERATIONS as nat, apart) && apart.solves(
                rows,
                NUM_ITERATIONS as nat,
                out,
            )
    }
}

impl SeqImpulseConstraintSolver {
    /// Pushes a contact apart.
    fn push_contact<R: Rows>(&mut self, rows: &R, i: usize) -> (residual: Single)
        requires
            i < old(self).tmp_solver_contact_constraint_pool@.len(),
            joins(old(self).tmp_solver_contact_constraint_pool@[i as int], old(self).tmp_solver_body_pool@.len()),
        ensures
            old(self).group().pushes(rows, i as int, residual, final(self).group()),
            same_shape(old(self).group(), final(self).group()),
    {
        let contact = self.tmp_solver_contact_constraint_pool[i];
        let body_a = self.tmp_solver_body_pool[contact.solver_body_id_a];
        let body_b = self.tmp_solver_body_pool[contact.solver_body_id_b];
        let o = rows.push_apart(&contact.row, &body_a, &body_b);
        self.tmp_solver_body_pool.set(
            contact.solver_body_id_a,
            SolverBody { push_vel: o.lin_a, turn_vel: o.ang_a, ..body_a },
        );
        self.tmp_solver_body_pool.set(
            contact.solver_body_id_b,
            SolverBody { push_vel: o.lin_b, turn_vel: o.ang_b, ..body_b },
        );
        self.tmp_solver_contact_constraint_pool.set(
            i,
            SolverConstraint { row: Row { applied_push_impulse: o.impulse, ..contact.row }, ..contact },
        );
        o.residual
    }

    /// Solves a contact.
    fn meet_contact<R: Rows>(&mut self, rows: &R, i: usize) -> (residual: Single)
        requires
            i < old(self).tmp_solver_contact_constraint_pool@.len(),
            joins(old(self).tmp_solver_contact_constraint_pool@[i as int], old(self).tmp_solver_body_pool@.len()),
        ensures
            old(self).group().meets(rows, i as int, residual, final(self).group()),
            same_shape(old(self).group(), final(self).group()),
    {
        let contact = self.tmp_solver_contact_constraint_pool[i];
        let body_a = self.tmp_solver_body_pool[contact.solver_body_id_a];
        let body_b = self.tmp_solver_body_pool[contact.solver_body_id_b];
        let o = rows.solve_contact(&contact.row, &body_a, &body_b);
        self.tmp_solver_body_pool.set(
            contact.solver_body_id_a,
            SolverBody { delta_lin_vel: o.lin_a, delta_ang_vel: o.ang_a, ..body_a },
        );
        self.tmp_solver_body_pool.set(
            contact.solver_body_id_b,
            SolverBody { delta_lin_vel: o.lin_b, delta_ang_vel: o.ang_b, ..body_b },
        );
        self.tmp_solver_contact_constraint_pool.set(
            i,
            SolverConstraint { row: Row { applied_impulse: o.impulse, ..contact.row }, ..contact },
        );
        o.residual
    }

    /// Solves a row of friction.
    fn rub<R: Rows>(&mut self, rows: &R, i: usize) -> (residual: Single)
        requires
            i < old(self).tmp_solver_contact_friction_constraint_pool@.len(),
            joins(
                old(self).tmp_solver_contact_friction_constraint_pool@[i as int],
                old(self).tmp_solver_body_pool@.len(),
            ),
            old(self).tmp_solver_contact_friction_constraint_pool@[i as int].friction_idx
                < old(self).tmp_solver_contact_constraint_pool@.len(),
        ensures
            old(self).group().rubs(rows, i as int, residual, final(self).group()),
            same_shape(old(self).group(), final(self).group()),
    {
        let friction = self.tmp_solver_contact_friction_constraint_pool[i];
        let total_impulse = self.tmp_solver_contact_constraint_pool[friction.friction_idx].row.applied_impulse;
        let limit = friction.row.friction.times(total_impulse);
        let row = Row { lower_limit: limit.negate(), upper_limit: limit, ..friction.row };
        let body_a = self.tmp_solver_body_pool[friction.solver_body_id_a];
        let body_b = self.tmp_solver_body_pool[friction.solver_body_id_b];
        let o = rows.solve_friction(&row, &body_a, &body_b);
        self.tmp_solver_body_pool.set(
            friction.solver_body_id_a,
            SolverBody { delta_lin_vel: o.lin_a, delta_ang_vel: o.ang_a, ..body_a },
        );
        self.tmp_solver_body_pool.set(
            friction.solver_body_id_b,
            SolverBody { delta_lin_vel: o.lin_b, delta_ang_vel: o.ang_b, ..body_b },
        );
        self.tmp_solver_contact_friction_constraint_pool.set(
            i,
            SolverConstraint { row: Row { applied_impulse: o.impulse, ..row }, ..friction },
        );
        proof {
            assert(row == old(self).group().limited(friction));
        }
        o.residual
    }

    /// Pushes the contacts that still move apart, once.
    fn push_contacts<R: Rows>(
        &mut self,
        rows: &R,
        should_run: u128,
        Ghost(run): Ghost<Seq<bool>>,
        Ghost(objs): Ghost<nat>,
    ) -> (r: (u128, Ghost<Seq<bool>>))
        requires
            rows_fit(
                old(self).group().contacts,
                old(self).group().frictions,
                old(self).group().bodies.len(),
                objs,
            ),
            run.len() == old(self).group().contacts.len(),
            old(self).group().masked() ==> mask_shows(should_run, run),
        ensures
            old(self).group().pushes_all(rows, run, 0, final(self).group(), r.1@),
            same_shape(old(self).group(), final(self).group()),
            r.1@.len() == run.len(),
            old(self).group().masked() ==> mask_shows(r.0, r.1@),
    {
        let ghost start = self.group();
        let ghost mut left = run;
        let n: usize = self.tmp_solver_contact_constraint_pool.len();
        let masked: bool = n <= MASK_BITS;
        let mut mask: u128 = should_run;
        let mut i: usize = 0;
        while i < n
            invariant
                i <= n,
                n == start.contacts.len(),
                masked == start.masked(),
                masked == (n <= MASK_BITS),
                start == old(self).group(),
                same_shape(start, self.group()),
                rows_fit(start.contacts, start.frictions, start.bodies.len(), objs),
                left.len() == n,
                masked ==> mask_shows(mask, left),
                forall|out: Group, end: Seq<bool>| #[trigger]
                    self.group().pushes_all(rows, left, i as nat, out, end) ==> start.pushes_all(rows, run, 0, out, end),
            decreases n - i,
        {
            let ghost here = self.group();
            let ghost moving = left;
            let ghost at = i as nat;
            if masked {
                let bit: u128 = 1u128 << (i as u128);
                if mask & bit == 0 {
                    proof {
                        assert(!left[i as int]);
                    }
                    i = i + 1;
                    proof {
                        assert forall|out: Group, end: Seq<bool>| #[trigger]
                            self.group().pushes_all(rows, left, i as nat, out, end) implies start.pushes_all(
                            rows,
                            run,
                            0,
                            out,
                            end,
                        ) by {
                            assert(here.pushes_all(rows, moving, at, out, end));
                        }
                    }
                    continue ;
                }
                proof {
                    assert(left[i as int]);
                }
            }
            proof {
                lemma_shape_rows(start, here, objs);
                assert(joins(here.contacts[i as int], here.bodies.len()));
            }
            let residual = self.push_contact(rows, i);
            proof {
                lemma_shape_chain(start, here, self.group());
            }
            if masked && residual.times(residual).equals(Single::zero()) {
                proof {
                    lemma_mask_off(mask, left, i as int);
                    left = left.update(i as int, false);
                }
                mask = mask ^ (1u128 << (i as u128));
            }
            i = i + 1;
            proof {
                assert forall|out: Group, end: Seq<bool>| #[trigger]
                    self.group().pushes_all(rows, left, i as nat, out, end) implies start.pushes_all(
                    rows,
                    run,
                    0,
                    out,
                    end,
                ) by {
                    assert(here.pushes(rows, at as int, residual, self.group()));
                    assert(here.pushes_all(rows, moving, at, out, end));
                }
            }
        }
        proof {
            assert(self.group().pushes_all(rows, left, i as nat, self.group(), left));
        }
        (mask, Ghost(left))
    }

    /// Pushes penetrations apart, without touching the velocities. Up to [`MASK_BITS`] contacts, one
    /// that is not corrected any longer is left alone; with more, every contact is pushed in every
    /// round.
    fn solve_group_split_impulse_iterations<R: Rows>(&mut self, rows: &R, Ghost(objs): Ghost<nat>)
        requires
            rows_fit(
                old(self).group().contacts,
                old(self).group().frictions,
                old(self).group().bodies.len(),
                objs,
            ),
        ensures
            old(self).group().splits(
                rows,
                all_of(old(self).group().contacts.len()),
                NUM_ITERATIONS as nat,
                final(self).group(),
            ),
            same_shape(old(self).group(), final(self).group()),
    {
        let ghost start = self.group();
        let n: usize = self.tmp_solver_contact_constraint_pool.len();
        let masked: bool = n <= MASK_BITS;
        let ghost all = all_of(n as nat);
        let ghost mut run = all;
        let mut should_run: u128 = if n >= MASK_BITS {
            u128::MAX
        } else {
            proof {
                let whole = n as u128;
                assert(whole < 128 ==> (1u128 << whole) >= 1) by (bit_vector);
            }
            (1u128 << (n as u128)) - 1
        };
        proof {
            if masked {
                lemma_mask_full(n as nat, should_run);
            }
        }
        let mut left: u32 = NUM_ITERATIONS;
        while left > 0
            invariant
                left <= NUM_ITERATIONS,
                n == start.contacts.len(),
                masked == start.masked(),
                masked == (n <= MASK_BITS),
                start == old(self).group(),
                all == all_of(n as nat),
                same_shape(start, self.group()),
                rows_fit(start.contacts, start.frictions, start.bodies.len(), objs),
                run.len() == n,
                masked ==> mask_shows(should_run, run),
                forall|out: Group| #[trigger]
                    self.group().splits(rows, run, left as nat, out) ==> start.splits(
                        rows,
                        all,
                        NUM_ITERATIONS as nat,
                        out,
                    ),
            decreases left,
        {
            let ghost here = self.group();
            let ghost moving = run;
            let ghost ahead = left as nat;
            proof {
                lemma_shape_rows(start, here, objs);
            }
            let (mask, rest) = self.push_contacts(rows, should_run, Ghost(run), Ghost(objs));
            should_run = mask;
            proof {
                run = rest@;
                lemma_shape_chain(start, here, self.group());
                assert(here.pushes_all(rows, moving, 0, self.group(), run));
                if masked {
                    lemma_mask_zero(should_run, run);
                }
            }
            if masked && should_run == 0 {
                proof {
                    assert(here.splits(rows, moving, ahead, self.group()));
                }
                return ;
            }
            left = left - 1;
            proof {
                assert forall|out: Group| #[trigger]
                    self.group().splits(rows, run, left as nat, out) implies start.splits(
                    rows,
                    all,
                    NUM_ITERATIONS as nat,
                    out,
                ) by {
                    assert(here.splits(rows, moving, ahead, out));
                }
            }
        }
        proof {
            assert(self.group().splits(rows, run, 0, self.group()));
        }
    }
}

impl SeqImpulseConstraintSolver {
    /// Solves every contact once.
    fn meet_contacts<R: Rows>(&mut self, rows: &R, Ghost(objs): Ghost<nat>) -> (least: Single)
        requires
            rows_fit(
                old(self).group().contacts,
                old(self).group().frictions,
                old(self).group().bodies.len(),
                objs,
            ),
        ensures
            old(self).group().meets_all(rows, 0, Single { bits: 0 }, final(self).group(), least),
            same_shape(old(self).group(), final(self).group()),
    {
        let ghost start = self.group();
        let ghost zero = Single { bits: 0 };
        let n: usize = self.tmp_solver_contact_constraint_pool.len();
        let mut worst = Single::zero();
        let mut i: usize = 0;
        while i < n
            invariant
                i <= n,
                n == start.contacts.len(),
                zero == (Single { bits: 0 }),
                start == old(self).group(),
                same_shape(start, self.group()),
                rows_fit(start.contacts, start.frictions, start.bodies.len(), objs),
                forall|out: Group, end: Single| #[trigger]
                    self.group().meets_all(rows, i as nat, worst, out, end) ==> start.meets_all(rows, 0, zero, out, end),
            decreases n - i,
        {
            let ghost here = self.group();
            let ghost until = worst;
            let ghost at = i as nat;
            if self.tmp_solver_contact_constraint_pool[i].row.is_special {
                i = i + 1;
                proof {
                    assert forall|out: Group, end: Single| #[trigger]
                        self.group().meets_all(rows, i as nat, worst, out, end) implies start.meets_all(
                        rows,
                        0,
                        zero,
                        out,
                        end,
                    ) by {
                        assert(here.meets_all(rows, at, until, out, end));
                    }
                }
                continue ;
            }
            proof {
                lemma_shape_rows(start, here, objs);
                assert(joins(here.contacts[i as int], here.bodies.len()));
            }
            let residual = self.meet_contact(rows, i);
            worst = residual.times(residual).max(worst);
            i = i + 1;
            proof {
                lemma_shape_chain(start, here, self.group());
                assert forall|out: Group, end: Single| #[trigger]
                    self.group().meets_all(rows, i as nat, worst, out, end) implies start.meets_all(
                    rows,
                    0,
                    zero,
                    out,
                    end,
                ) by {
                    assert(here.meets(rows, at as int, residual, self.group()));
                    assert(here.meets_all(rows, at, until, out, end));
                }
            }
        }
        proof {
            assert(self.group().meets_all(rows, i as nat, worst, self.group(), worst));
        }
        worst
    }

    /// Solves every row of friction once.
    fn rub_all<R: Rows>(&mut self, rows: &R, from: Single, Ghost(objs): Ghost<nat>) -> (least: Single)
        requires
            rows_fit(
                old(self).group().contacts,
                old(self).group().frictions,
                old(self).group().bodies.len(),
                objs,
            ),
        ensures
            old(self).group().rubs_all(rows, 0, from, final(self).group(), least),
            same_shape(old(self).group(), final(self).group()),
    {
        let ghost start = self.group();
        let n: usize = self.tmp_solver_contact_friction_constraint_pool.len();
        let mut worst = from;
        let mut i: usize = 0;
        while i < n
            invariant
                i <= n,
                n == start.frictions.len(),
                start == old(self).group(),
                same_shape(start, self.group()),
                rows_fit(start.contacts, start.frictions, start.bodies.len(), objs),
                forall|out: Group, end: Single| #[trigger]
                    self.group().rubs_all(rows, i as nat, worst, out, end) ==> start.rubs_all(rows, 0, from, out, end),
            decreases n - i,
        {
            let ghost here = self.group();
            let ghost until = worst;
            let ghost at = i as nat;
            proof {
                lemma_shape_rows(start, here, objs);
                assert(joins(here.frictions[i as int], here.bodies.len()));
            }
            let friction_idx: usize = self.tmp_solver_contact_friction_constraint_pool[i].friction_idx;
            if self.tmp_solver_contact_constraint_pool[friction_idx].row.applied_impulse.le(Single::zero()) {
                i = i + 1;
                proof {
                    assert forall|out: Group, end: Single| #[trigger]
                        self.group().rubs_all(rows, i as nat, worst, out, end) implies start.rubs_all(
                        rows,
                        0,
                        from,
                        out,
                        end,
                    ) by {
                        assert(here.rubs_all(rows, at, until, out, end));
                    }
                }
                continue ;
            }
            let residual = self.rub(rows, i);
            worst = residual.times(residual).max(worst);
            i = i + 1;
            proof {
                lemma_shape_chain(start, here, self.group());
                assert forall|out: Group, end: Single| #[trigger]
                    self.group().rubs_all(rows, i as nat, worst, out, end) implies start.rubs_all(
                    rows,
                    0,
                    from,
                    out,
                    end,
                ) by {
                    assert(here.rubs(rows, at as int, residual, self.group()));
                    assert(here.rubs_all(rows, at, until, out, end));
                }
            }
        }
        proof {
            assert(self.group().rubs_all(rows, i as nat, worst, self.group(), worst));
        }
        worst
    }

    /// One iteration over all rows; the largest squared residual.
    fn solve_single_iteration<R: Rows>(&mut self, rows: &R, Ghost(objs): Ghost<nat>) -> (least: Single)
        requires
            rows_fit(
                old(self).group().contacts,
                old(self).group().frictions,
                old(self).group().bodies.len(),
                objs,
            ),
        ensures
            old(self).group().iterates(rows, final(self).group(), least),
            same_shape(old(self).group(), final(self).group()),
    {
        let ghost start = self.group();
        let worst = self.meet_contacts(rows, Ghost(objs));
        let ghost met = self.group();
        proof {
            lemma_shape_rows(start, met, objs);
        }
        let least = self.rub_all(rows, worst, Ghost(objs));
        proof {
            lemma_shape_chain(start, met, self.group());
            assert(start.meets_all(rows, 0, Single { bits: 0 }, met, worst));
        }
        least
    }

    /// Pushes penetrations apart, and then solves the velocities until nothing is corrected any
    /// longer or the iterations are used up.
    pub(crate) fn solve_group_iterations<R: Rows>(&mut self, rows: &R, Ghost(objs): Ghost<nat>)
        requires
            rows_fit(
                old(self).group().contacts,
                old(self).group().frictions,
                old(self).group().bodies.len(),
                objs,
            ),
        ensures
            old(self).group().works_out(rows, final(self).group()),
            same_shape(old(self).group(), final(self).group()),
    {
        let ghost start = self.group();
        self.solve_group_split_impulse_iterations(rows, Ghost(objs));
        let ghost apart = self.group();
        let mut left: u32 = NUM_ITERATIONS;
        while left > 0
            invariant
                left <= NUM_ITERATIONS,
                start == old(self).group(),
                same_shape(start, self.group()),
                rows_fit(start.contacts, start.frictions, start.bodies.len(), objs),
                start.splits(rows, all_of(start.contacts.len()), NUM_ITERATIONS as nat, apart),
                forall|out: Group| #[trigger]
                    self.group().solves(rows, left as nat, out) ==> apart.solves(rows, NUM_ITERATIONS as nat, out),
            decreases left,
        {
            let ghost here = self.group();
            let ghost ahead = left as nat;
            proof {
                lemma_shape_rows(start, here, objs);
            }
            let least = self.solve_single_iteration(rows, Ghost(objs));
            let ghost next = self.group();
            self.least_squares_residual = least;
            proof {
                lemma_shape_chain(start, here, self.group());
                assert(here.iterates(rows, next, least));
                assert(self.group() == (Group { residual: least, ..next }));
            }
            if least.equals(Single::zero()) {
                proof {
                    assert(here.solves(rows, ahead, self.group()));
                }
                return ;
            }
            left = left - 1;
            proof {
                assert forall|out: Group| #[trigger]
                    self.group().solves(rows, left as nat, out) implies apart.solves(
                    rows,
                    NUM_ITERATIONS as nat,
                    out,
                ) by {
                    assert(here.solves(rows, ahead, out));
                }
            }
        }
        proof {
            assert(self.group().solves(rows, 0, self.group()));
        }
    }
}

} // verus!
