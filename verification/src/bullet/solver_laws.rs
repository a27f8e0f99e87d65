//! What solving a group changes, and what it leaves alone.
use crate::bounds::{added, lemma_vector_plus, near, point, sized};
use crate::bullet::body::RigidBody;
use crate::bullet::geometry::Geometry;
use crate::bullet::manifold::PersistentManifold;
use crate::bullet::seq_impulse_constraint_solver::{acquainted, joins, Group};
use crate::bullet::solver_body::SolverBody;
use crate::bullet::solver_constraint::{ContactAddedCallback, Row, RowOutcome, Rows, SolverConstraint};
use crate::bullet::solver_finish::{carried, takes_over, writes_back};
use crate::bullet::contact_solver_info::NUM_ITERATIONS;
use crate::bullet::solver_iterations::{all_of, none_of, pushed};
use crate::math::Vec3A;
use crate::single::Single;
use vstd::prelude::*;

verus! {

/// Of what the solver gave to the bodies from the `k`th on, a body that one of them stands for got that one's, and
/// any other body got nothing.
proof fn lemma_written<G: Geometry>(
    geometry: &G,
    bodies: Seq<SolverBody>,
    objs: Seq<RigidBody>,
    k: nat,
    time_step: Single,
    out: Seq<RigidBody>,
    i: int,
)
    requires
        writes_back(geometry, bodies, objs, k, time_step, out),
        forall|a: int| 0 <= a < bodies.len() ==> (#[trigger] bodies[a].original_body matches Some(o) ==> o < objs.len()),
        forall|a: int, b: int|
            0 <= a < b < bodies.len() && #[trigger] bodies[a].original_body is Some ==> bodies[a].original_body
                != #[trigger] bodies[b].original_body,
        0 <= i < objs.len() <= usize::MAX,
    ensures
        out.len() == objs.len(),
        forall|a: int|
            k <= a < bodies.len() && #[trigger] bodies[a].original_body == Some(i as usize) ==> takes_over(
                geometry,
                bodies[a],
                objs[i],
                time_step,
                out[i],
            ),
        (forall|a: int| k <= a < bodies.len() ==> #[trigger] bodies[a].original_body != Some(i as usize)) ==> out[i]
            == objs[i],
    decreases bodies.len() - k,
{
    if k < bodies.len() {
        match bodies[k as int].original_body {
            None => {
                lemma_written(geometry, bodies, objs, k + 1, time_step, out, i);
            },
            Some(o) => {
                let rb = choose|rb: RigidBody| #[trigger]
                    takes_over(geometry, bodies[k as int], objs[o as int], time_step, rb) && writes_back(
                        geometry,
                        bodies,
                        objs.update(o as int, rb),
                        k + 1,
                        time_step,
                        out,
                    );
                lemma_written(geometry, bodies, objs.update(o as int, rb), k + 1, time_step, out, i);
                if o == i {
                    assert forall|a: int| k + 1 <= a < bodies.len() implies #[trigger] bodies[a].original_body != Some(
                        i as usize,
                    ) by {
                        assert(bodies[k as int].original_body != bodies[a].original_body);
                    }
                    assert(out[i] == rb);
                }
            },
        }
    }
}

/// No two of the solver's bodies stand for the same body.
proof fn lemma_stand_ins(bodies: Seq<SolverBody>, fixed: Option<usize>, objs: Seq<RigidBody>)
    requires
        acquainted(bodies, fixed, objs),
        bodies.len() <= usize::MAX,
    ensures
        forall|a: int| 0 <= a < bodies.len() ==> (#[trigger] bodies[a].original_body matches Some(o) ==> o < objs.len()),
        forall|a: int, b: int|
            0 <= a < b < bodies.len() && #[trigger] bodies[a].original_body is Some ==> bodies[a].original_body
                != #[trigger] bodies[b].original_body,
{
    assert forall|a: int, b: int|
        0 <= a < b < bodies.len() && #[trigger] bodies[a].original_body is Some implies bodies[a].original_body
        != #[trigger] bodies[b].original_body by {
        assert(a as usize == a && b as usize == b);
    }
}

/// The velocities of a solver's body, and what was added to them, are no larger than a game allows.
pub open spec fn moderate(body: SolverBody) -> bool {
    &&& body.lin_vel.finite() && sized(point(body.lin_vel), 1000real)
    &&& body.ang_vel.finite() && sized(point(body.ang_vel), 1000real)
    &&& body.delta_lin_vel.finite() && sized(point(body.delta_lin_vel), 1000real)
    &&& body.delta_ang_vel.finite() && sized(point(body.delta_ang_vel), 1000real)
    &&& body.external_force_impulse.finite() && sized(point(body.external_force_impulse), 1000real)
    &&& body.external_torque_impulse.finite() && sized(point(body.external_torque_impulse), 1000real)
}

/// The sum of three velocities.
proof fn lemma_three(a: Vec3A, b: Vec3A, c: Vec3A)
    requires
        a.finite() && sized(point(a), 1000real),
        b.finite() && sized(point(b), 1000real),
        c.finite() && sized(point(c), 1000real),
    ensures
        near(a.plus(b).plus(c), added(added(point(a), point(b)), point(c)), 1real / 2500real),
{
    lemma_vector_plus(a, point(a), 0real, b, point(b), 0real, 2000real);
    lemma_vector_plus(a.plus(b), added(point(a), point(b)), 2000real / 16000000real, c, point(c), 0real, 3000real);
}

/// A body that takes part leaves with the velocity that it came with, and what the rows and the forces added to it, and
/// likewise with its spin; wherever it is put, nothing else about it changes. A body that takes no part stays as it is.
pub proof fn law_bodies_leave_with_what_was_added<G: Geometry>(
    geometry: &G,
    bodies: Seq<SolverBody>,
    fixed: Option<usize>,
    objs: Seq<RigidBody>,
    time_step: Single,
    out: Seq<RigidBody>,
    i: int,
)
    requires
        acquainted(bodies, fixed, objs),
        bodies.len() <= usize::MAX,
        objs.len() <= usize::MAX,
        writes_back(geometry, bodies, objs, 0, time_step, out),
        0 <= i < objs.len(),
    ensures
        out.len() == objs.len(),
        forall|k: int|
            0 <= k < bodies.len() && #[trigger] bodies[k].original_body == Some(i as usize) ==> {
                let body = bodies[k];
                &&& carried(objs[i], out[i]) && out[i].companion_id == objs[i].companion_id
                &&& moderate(body) ==> near(
                    out[i].lin_vel,
                    added(
                        added(point(body.lin_vel), point(body.delta_lin_vel)),
                        point(body.external_force_impulse),
                    ),
                    1real / 2500real,
                )
                &&& moderate(body) ==> near(
                    out[i].ang_vel,
                    added(
                        added(point(body.ang_vel), point(body.delta_ang_vel)),
                        point(body.external_torque_impulse),
                    ),
                    1real / 2500real,
                )
            },
        (forall|k: int| 0 <= k < bodies.len() ==> #[trigger] bodies[k].original_body != Some(i as usize)) ==> out[i]
            == objs[i],
{
    lemma_stand_ins(bodies, fixed, objs);
    lemma_written(geometry, bodies, objs, 0, time_step, out, i);
    assert forall|k: int| 0 <= k < bodies.len() && #[trigger] bodies[k].original_body == Some(i as usize) implies {
        let body = bodies[k];
        &&& carried(objs[i], out[i]) && out[i].companion_id == objs[i].companion_id
        &&& moderate(body) ==> near(
            out[i].lin_vel,
            added(added(point(body.lin_vel), point(body.delta_lin_vel)), point(body.external_force_impulse)),
            1real / 2500real,
        )
        &&& moderate(body) ==> near(
            out[i].ang_vel,
            added(added(point(body.ang_vel), point(body.delta_ang_vel)), point(body.external_torque_impulse)),
            1real / 2500real,
        )
    } by {
        let body = bodies[k];
        assert(takes_over(geometry, body, objs[i], time_step, out[i]));
        if moderate(body) {
            lemma_three(body.lin_vel, body.delta_lin_vel, body.external_force_impulse);
            lemma_three(body.ang_vel, body.delta_ang_vel, body.external_torque_impulse);
        }
    }
}

/// Every row joins two different bodies of the group.
pub open spec fn tied(g: Group) -> bool {
    &&& forall|c: int| 0 <= c < g.contacts.len() ==> joins(#[trigger] g.contacts[c], g.bodies.len())
    &&& forall|c: int| 0 <= c < g.frictions.len() ==> joins(#[trigger] g.frictions[c], g.bodies.len())
}

/// The same body, but for how the push moves it.
pub open spec fn only_pushed(a: SolverBody, b: SolverBody) -> bool {
    b == (SolverBody { push_vel: b.push_vel, turn_vel: b.turn_vel, ..a })
}

/// The same body, but for what the rows added to its velocities.
pub open spec fn only_driven(a: SolverBody, b: SolverBody) -> bool {
    b == (SolverBody { delta_lin_vel: b.delta_lin_vel, delta_ang_vel: b.delta_ang_vel, ..a })
}

/// The same row, but for the impulses and, of a row of friction, its limits.
pub open spec fn only_impulses(a: SolverConstraint, b: SolverConstraint) -> bool {
    b == (SolverConstraint {
        row: Row {
            applied_impulse: b.row.applied_impulse,
            applied_push_impulse: b.row.applied_push_impulse,
            lower_limit: b.row.lower_limit,
            upper_limit: b.row.upper_limit,
            ..a.row
        },
        ..a
    })
}

/// The same group, but for its bodies and the impulses of its rows.
pub open spec fn same_rows(a: Group, b: Group) -> bool {
    &&& b.bodies.len() == a.bodies.len()
    &&& b.contacts.len() == a.contacts.len()
    &&& b.frictions.len() == a.frictions.len()
    &&& forall|c: int| 0 <= c < a.contacts.len() ==> only_impulses(a.contacts[c], #[trigger] b.contacts[c])
    &&& forall|c: int| 0 <= c < a.frictions.len() ==> only_impulses(a.frictions[c], #[trigger] b.frictions[c])
    &&& b.fixed == a.fixed && b.special == a.special && b.points == a.points
}

/// Pushing leaves the velocities of the bodies alone, and their rows but for the impulses.
pub open spec fn pushes_only(a: Group, b: Group) -> bool {
    same_rows(a, b) && forall|k: int| 0 <= k < a.bodies.len() ==> only_pushed(a.bodies[k], #[trigger] b.bodies[k])
}

/// Solving leaves the pushes of the bodies alone, and their rows but for the impulses.
pub open spec fn drives_only(a: Group, b: Group) -> bool {
    same_rows(a, b) && forall|k: int| 0 <= k < a.bodies.len() ==> only_driven(a.bodies[k], #[trigger] b.bodies[k])
}

proof fn lemma_tied(a: Group, b: Group)
    requires
        tied(a),
        same_rows(a, b),
    ensures
        tied(b),
{
    assert forall|c: int| 0 <= c < b.contacts.len() implies joins(#[trigger] b.contacts[c], b.bodies.len()) by {
        assert(only_impulses(a.contacts[c], b.contacts[c]));
    }
    assert forall|c: int| 0 <= c < b.frictions.len() implies joins(#[trigger] b.frictions[c], b.bodies.len()) by {
        assert(only_impulses(a.frictions[c], b.frictions[c]));
    }
}

proof fn lemma_rows_chain(a: Group, b: Group, c: Group)
    requires
        same_rows(a, b),
        same_rows(b, c),
    ensures
        same_rows(a, c),
{
    assert forall|i: int| 0 <= i < a.contacts.len() implies only_impulses(a.contacts[i], #[trigger] c.contacts[i]) by {
        assert(only_impulses(a.contacts[i], b.contacts[i]));
    }
    assert forall|i: int| 0 <= i < a.frictions.len() implies only_impulses(a.frictions[i], #[trigger] c.frictions[i]) by {
        assert(only_impulses(a.frictions[i], b.frictions[i]));
    }
}

proof fn lemma_pushes_chain(a: Group, b: Group, c: Group)
    requires
        pushes_only(a, b),
        pushes_only(b, c),
    ensures
        pushes_only(a, c),
{
    lemma_rows_chain(a, b, c);
    assert forall|k: int| 0 <= k < a.bodies.len() implies only_pushed(a.bodies[k], #[trigger] c.bodies[k]) by {
        assert(only_pushed(a.bodies[k], b.bodies[k]));
    }
}

proof fn lemma_drives_chain(a: Group, b: Group, c: Group)
    requires
        drives_only(a, b),
        drives_only(b, c),
    ensures
        drives_only(a, c),
{
    lemma_rows_chain(a, b, c);
    assert forall|k: int| 0 <= k < a.bodies.len() implies only_driven(a.bodies[k], #[trigger] c.bodies[k]) by {
        assert(only_driven(a.bodies[k], b.bodies[k]));
    }
}

/// Pushing a contact apart moves its two bodies as the row says, and nothing else: the first by the row's outcome for the first,
/// the second by that for the second.
pub proof fn law_a_push_moves_two_bodies<R: Rows>(g: Group, rows: &R, i: int, residual: Single, out: Group) -> (o: RowOutcome)
    requires
        tied(g),
        0 <= i < g.contacts.len(),
        g.pushes(rows, i, residual, out),
    ensures
        pushes_only(g, out),
        ({
            let c = g.contacts[i];
            let (a, b) = (c.solver_body_id_a as int, c.solver_body_id_b as int);
            &&& call_ensures(R::push_apart, (rows, &c.row, &g.bodies[a], &g.bodies[b]), o)
            &&& out.bodies[a].push_vel == o.lin_a && out.bodies[a].turn_vel == o.ang_a
            &&& out.bodies[b].push_vel == o.lin_b && out.bodies[b].turn_vel == o.ang_b
            &&& forall|k: int| 0 <= k < g.bodies.len() && k != a && k != b ==> #[trigger] out.bodies[k] == g.bodies[k]
            &&& out.contacts[i].row.applied_push_impulse == o.impulse
            &&& out.contacts[i].row.applied_impulse == c.row.applied_impulse
            &&& forall|k: int| 0 <= k < g.contacts.len() && k != i ==> #[trigger] out.contacts[k] == g.contacts[k]
            &&& out.frictions == g.frictions
        }),
{
    let c = g.contacts[i];
    let (a, b) = g.joined(c);
    assert(joins(g.contacts[i], g.bodies.len()));
    choose|o: RowOutcome| #[trigger]
        call_ensures(R::push_apart, (rows, &c.row, &a, &b), o) && residual == o.residual && out == (Group {
            bodies: g.bodies.update(c.solver_body_id_a as int, pushed(a, o, true)).update(
                c.solver_body_id_b as int,
                pushed(b, o, false),
            ),
            contacts: g.contacts.update(
                i,
                SolverConstraint { row: Row { applied_push_impulse: o.impulse, ..c.row }, ..c },
            ),
            ..g
        })
}

/// Solving a contact changes the velocities of its two bodies as the row says, and nothing else.
pub proof fn law_a_contact_drives_two_bodies<R: Rows>(g: Group, rows: &R, i: int, residual: Single, out: Group) -> (o: RowOutcome)
    requires
        tied(g),
        0 <= i < g.contacts.len(),
        g.meets(rows, i, residual, out),
    ensures
        drives_only(g, out),
        ({
            let c = g.contacts[i];
            let (a, b) = (c.solver_body_id_a as int, c.solver_body_id_b as int);
            &&& call_ensures(R::solve_contact, (rows, &c.row, &g.bodies[a], &g.bodies[b]), o)
            &&& out.bodies[a].delta_lin_vel == o.lin_a && out.bodies[a].delta_ang_vel == o.ang_a
            &&& out.bodies[b].delta_lin_vel == o.lin_b && out.bodies[b].delta_ang_vel == o.ang_b
            &&& forall|k: int| 0 <= k < g.bodies.len() && k != a && k != b ==> #[trigger] out.bodies[k] == g.bodies[k]
            &&& out.contacts[i].row == (Row { applied_impulse: o.impulse, ..c.row })
            &&& forall|k: int| 0 <= k < g.contacts.len() && k != i ==> #[trigger] out.contacts[k] == g.contacts[k]
            &&& out.frictions == g.frictions
        }),
{
    let c = g.contacts[i];
    let (a, b) = g.joined(c);
    assert(joins(g.contacts[i], g.bodies.len()));
    choose|o: RowOutcome| #[trigger]
        call_ensures(R::solve_contact, (rows, &c.row, &a, &b), o) && residual == o.residual && out == (Group {
            bodies: g.driven_by(c, o),
            contacts: g.contacts.update(i, SolverConstraint { row: Row { applied_impulse: o.impulse, ..c.row }, ..c }),
            ..g
        })
}

/// Solving a row of friction changes the velocities of its two bodies as the row says, within what the friction allows of the
/// impulse that its contact has, and nothing else.
pub proof fn law_friction_drives_two_bodies<R: Rows>(g: Group, rows: &R, i: int, residual: Single, out: Group) -> (o: RowOutcome)
    requires
        tied(g),
        0 <= i < g.frictions.len(),
        g.rubs(rows, i, residual, out),
    ensures
        drives_only(g, out),
        ({
            let c = g.frictions[i];
            let (a, b) = (c.solver_body_id_a as int, c.solver_body_id_b as int);
            let most = c.row.friction.times(g.contacts[c.friction_idx as int].row.applied_impulse);
            let row = Row { lower_limit: most.negate(), upper_limit: most, ..c.row };
            &&& call_ensures(R::solve_friction, (rows, &row, &g.bodies[a], &g.bodies[b]), o)
            &&& out.bodies[a].delta_lin_vel == o.lin_a && out.bodies[a].delta_ang_vel == o.ang_a
            &&& out.bodies[b].delta_lin_vel == o.lin_b && out.bodies[b].delta_ang_vel == o.ang_b
            &&& forall|k: int| 0 <= k < g.bodies.len() && k != a && k != b ==> #[trigger] out.bodies[k] == g.bodies[k]
            &&& out.frictions[i].row == (Row { applied_impulse: o.impulse, ..row })
            &&& forall|k: int| 0 <= k < g.frictions.len() && k != i ==> #[trigger] out.frictions[k] == g.frictions[k]
            &&& out.contacts == g.contacts
        }),
{
    let c = g.frictions[i];
    let (a, b) = g.joined(c);
    assert(joins(g.frictions[i], g.bodies.len()));
    choose|o: RowOutcome| #[trigger]
        call_ensures(R::solve_friction, (rows, &g.limited(c), &a, &b), o) && residual == o.residual && out == (Group {
            bodies: g.driven_by(c, o),
            frictions: g.frictions.update(
                i,
                SolverConstraint { row: Row { applied_impulse: o.impulse, ..g.limited(c) }, ..c },
            ),
            ..g
        })
}

proof fn lemma_pushes_all<R: Rows>(g: Group, rows: &R, run: Seq<bool>, i: nat, out: Group, left: Seq<bool>)
    requires
        tied(g),
        g.pushes_all(rows, run, i, out, left),
    ensures
        pushes_only(g, out),
    decreases g.contacts.len() - i,
{
    if i < g.contacts.len() {
        if g.masked() && !run[i as int] {
            lemma_pushes_all(g, rows, run, i + 1, out, left);
        } else {
            let (next, residual) = choose|next: Group, residual: Single| #[trigger]
                g.pushes(rows, i as int, residual, next) && next.contacts.len() == g.contacts.len() && next.pushes_all(
                    rows,
                    if g.masked() && residual.times(residual).same(Single { bits: 0 }) {
                        run.update(i as int, false)
                    } else {
                        run
                    },
                    i + 1,
                    out,
                    left,
                );
            let o = law_a_push_moves_two_bodies(g, rows, i as int, residual, next);
            lemma_tied(g, next);
            let rest = if g.masked() && residual.times(residual).same(Single { bits: 0 }) {
                run.update(i as int, false)
            } else {
                run
            };
            lemma_pushes_all(next, rows, rest, i + 1, out, left);
            lemma_pushes_chain(g, next, out);
        }
    }
}

proof fn lemma_splits<R: Rows>(g: Group, rows: &R, run: Seq<bool>, rounds: nat, out: Group)
    requires
        tied(g),
        g.splits(rows, run, rounds, out),
    ensures
        pushes_only(g, out),
    decreases rounds,
{
    if rounds > 0 {
        let (next, left) = choose|next: Group, left: Seq<bool>| #[trigger]
            g.pushes_all(rows, run, 0, next, left) && if g.masked() && none_of(left) {
                out == next
            } else {
                next.splits(rows, left, (rounds - 1) as nat, out)
            };
        lemma_pushes_all(g, rows, run, 0, next, left);
        if !(g.masked() && none_of(left)) {
            lemma_tied(g, next);
            lemma_splits(next, rows, left, (rounds - 1) as nat, out);
            lemma_pushes_chain(g, next, out);
        }
    }
}

proof fn lemma_meets_all<R: Rows>(g: Group, rows: &R, i: nat, worst: Single, out: Group, least: Single)
    requires
        tied(g),
        g.meets_all(rows, i, worst, out, least),
    ensures
        drives_only(g, out),
    decreases g.contacts.len() - i,
{
    if i < g.contacts.len() {
        if g.contacts[i as int].row.is_special {
            lemma_meets_all(g, rows, i + 1, worst, out, least);
        } else {
            let (next, residual) = choose|next: Group, residual: Single| #[trigger]
                g.meets(rows, i as int, residual, next) && next.contacts.len() == g.contacts.len() && next.meets_all(
                    rows,
                    i + 1,
                    residual.times(residual).greater_of(worst),
                    out,
                    least,
                );
            let o = law_a_contact_drives_two_bodies(g, rows, i as int, residual, next);
            lemma_tied(g, next);
            lemma_meets_all(next, rows, i + 1, residual.times(residual).greater_of(worst), out, least);
            lemma_drives_chain(g, next, out);
        }
    }
}

proof fn lemma_rubs_all<R: Rows>(g: Group, rows: &R, i: nat, worst: Single, out: Group, least: Single)
    requires
        tied(g),
        g.rubs_all(rows, i, worst, out, least),
    ensures
        drives_only(g, out),
    decreases g.frictions.len() - i,
{
    if i < g.frictions.len() {
        if g.contacts[g.frictions[i as int].friction_idx as int].row.applied_impulse.at_most(Single { bits: 0 }) {
            lemma_rubs_all(g, rows, i + 1, worst, out, least);
        } else {
            let (next, residual) = choose|next: Group, residual: Single| #[trigger]
                g.rubs(rows, i as int, residual, next) && next.frictions.len() == g.frictions.len() && next.rubs_all(
                    rows,
                    i + 1,
                    residual.times(residual).greater_of(worst),
                    out,
                    least,
                );
            let o = law_friction_drives_two_bodies(g, rows, i as int, residual, next);
            lemma_tied(g, next);
            lemma_rubs_all(next, rows, i + 1, residual.times(residual).greater_of(worst), out, least);
            lemma_drives_chain(g, next, out);
        }
    }
}

proof fn lemma_solves<R: Rows>(g: Group, rows: &R, iterations: nat, out: Group)
    requires
        tied(g),
        g.solves(rows, iterations, out),
    ensures
        drives_only(g, out),
    decreases iterations,
{
    if iterations > 0 {
        let (next, least) = choose|next: Group, least: Single| #[trigger]
            g.iterates(rows, next, least) && if least.same(Single { bits: 0 }) {
                out == (Group { residual: least, ..next })
            } else {
                (Group { residual: least, ..next }).solves(rows, (iterations - 1) as nat, out)
            };
        let (met, worst) = choose|met: Group, worst: Single| #[trigger]
            g.meets_all(rows, 0, Single { bits: 0 }, met, worst) && met.rubs_all(rows, 0, worst, next, least);
        lemma_meets_all(g, rows, 0, Single { bits: 0 }, met, worst);
        lemma_tied(g, met);
        lemma_rubs_all(met, rows, 0, worst, next, least);
        lemma_drives_chain(g, met, next);
        let marked = Group { residual: least, ..next };
        assert(drives_only(g, marked));
        if !least.same(Single { bits: 0 }) {
            lemma_tied(g, marked);
            lemma_solves(marked, rows, (iterations - 1) as nat, out);
            lemma_drives_chain(g, marked, out);
        }
    }
}

/// Working a group out changes nothing about its bodies but the pushes and what the rows add to the velocities, and nothing
/// about its rows but the impulses and the limits of friction. The velocities are worked out after the pushes, which leave
/// them alone, and leave the pushes alone in turn.
pub proof fn law_working_out_only_adds<R: Rows>(g: Group, rows: &R, out: Group) -> (apart: Group)
    requires
        tied(g),
        g.works_out(rows, out),
    ensures
        pushes_only(g, apart),
        drives_only(apart, out),
        same_rows(g, out),
{
    let n = NUM_ITERATIONS as nat;
    let apart = choose|apart: Group| #[trigger]
        g.splits(rows, all_of(g.contacts.len()), NUM_ITERATIONS as nat, apart) && apart.solves(
            rows,
            NUM_ITERATIONS as nat,
            out,
        );
    lemma_splits(g, rows, all_of(g.contacts.len()), n, apart);
    lemma_tied(g, apart);
    lemma_solves(apart, rows, n, out);
    lemma_rows_chain(g, apart, out);
    apart
}

/// A body that takes part in a group leaves with the velocity and the spin that it came with, and with what the rows of the
/// group made of them, and what the forces of the step add.
pub proof fn law_solving_adds_to_the_velocities<R: Rows, G: Geometry>(
    g: Group,
    rows: &R,
    geometry: &G,
    objs: Seq<RigidBody>,
    solved: Group,
    time_step: Single,
    out: Seq<RigidBody>,
    k: int,
    i: usize,
)
    requires
        g.fits(objs),
        g.bodies.len() <= usize::MAX,
        objs.len() <= usize::MAX,
        g.works_out(rows, solved),
        writes_back(geometry, solved.bodies, objs, 0, time_step, out),
        0 <= k < g.bodies.len(),
        g.bodies[k].original_body == Some(i),
        moderate(solved.bodies[k]),
    ensures
        i < objs.len(),
        out.len() == objs.len(),
        near(
            out[i as int].lin_vel,
            added(
                added(point(g.bodies[k].lin_vel), point(solved.bodies[k].delta_lin_vel)),
                point(g.bodies[k].external_force_impulse),
            ),
            1real / 2500real,
        ),
        near(
            out[i as int].ang_vel,
            added(
                added(point(g.bodies[k].ang_vel), point(solved.bodies[k].delta_ang_vel)),
                point(g.bodies[k].external_torque_impulse),
            ),
            1real / 2500real,
        ),
{
    assert(tied(g));
    let apart = law_working_out_only_adds(g, rows, solved);
    assert forall|b: int| 0 <= b < g.bodies.len() implies (#[trigger] solved.bodies[b]).original_body
        == g.bodies[b].original_body && solved.bodies[b].lin_vel == g.bodies[b].lin_vel && solved.bodies[b].ang_vel
        == g.bodies[b].ang_vel && solved.bodies[b].external_force_impulse == g.bodies[b].external_force_impulse
        && solved.bodies[b].external_torque_impulse == g.bodies[b].external_torque_impulse by {
        assert(only_pushed(g.bodies[b], apart.bodies[b]));
        assert(only_driven(apart.bodies[b], solved.bodies[b]));
    }
    assert(acquainted(solved.bodies, g.fixed, objs)) by {
        assert forall|b: int| #![trigger solved.bodies[b]]
            0 <= b < solved.bodies.len() implies (solved.bodies[b].original_body matches Some(o) ==> o < objs.len()
            && objs[o as int].companion_id == Some(b as usize)) by {
            assert(g.bodies[b].original_body == solved.bodies[b].original_body);
        }
    }
    assert(g.bodies[k].original_body == Some(i));
    law_bodies_leave_with_what_was_added(geometry, solved.bodies, g.fixed, objs, time_step, out, i as int);
    assert(solved.bodies[k].original_body == Some(i));
}

/// Solving a group ends as it has to: the bodies take over what was worked out of the group as it was set up. So a body that takes part
/// leaves with its velocity and its spin, what the rows made of them, and what the forces of the step add; and one that takes no part stays
/// as it was. The result is the group as it was set up, the bodies with their notes, the group as it was worked out, and
/// whether the listener asked for the ball's contact with the world.
pub proof fn law_a_solved_group_adds_to_the_velocities<R: Rows, G: Geometry, T: ContactAddedCallback>(
    blank: Group,
    rows: &R,
    geometry: &G,
    objs: Seq<RigidBody>,
    list: Seq<usize>,
    manifolds: Seq<PersistentManifold>,
    time_step: Single,
    listener: T,
    out: Seq<RigidBody>,
    told: T,
) -> (r: (Group, Seq<RigidBody>, Group, bool))
    requires
        blank.handles(rows, geometry, objs, list, manifolds, time_step, listener, out, told),
    ensures
        call_ensures(T::tracks_special_contacts, (&listener,), r.3),
        blank.sets_up(rows, objs, list, manifolds, time_step, r.3, r.0, r.1),
        r.0.works_out(rows, r.2),
        r.0.fits(r.1) && r.0.bodies.len() <= usize::MAX && r.1.len() <= usize::MAX ==> {
            &&& out.len() == r.1.len()
            &&& forall|k: int| #![trigger r.0.bodies[k]]
                0 <= k < r.0.bodies.len() && r.0.bodies[k].original_body is Some && moderate(r.2.bodies[k]) ==> {
                    let (i, body, made) = (r.0.bodies[k].original_body->Some_0 as int, r.0.bodies[k], r.2.bodies[k]);
                    &&& near(
                        out[i].lin_vel,
                        added(added(point(body.lin_vel), point(made.delta_lin_vel)), point(body.external_force_impulse)),
                        1real / 2500real,
                    )
                    &&& near(
                        out[i].ang_vel,
                        added(added(point(body.ang_vel), point(made.delta_ang_vel)), point(body.external_torque_impulse)),
                        1real / 2500real,
                    )
                }
            &&& forall|i: int| #![trigger out[i]]
                0 <= i < out.len() && (forall|k: int|
                    0 <= k < r.0.bodies.len() ==> #[trigger] r.0.bodies[k].original_body != Some(i as usize)) ==> out[i] == r.1[i]
        },
{
    let (track, full, noted, solved) = choose|track: bool, full: Group, noted: Seq<RigidBody>, solved: Group|
        call_ensures(T::tracks_special_contacts, (&listener,), track) && #[trigger] blank.sets_up(
            rows,
            objs,
            list,
            manifolds,
            time_step,
            track,
            full,
            noted,
        ) && #[trigger] full.works_out(rows, solved) && solved.reports_all(rows, noted, 0, listener, told) && writes_back(
            geometry,
            solved.bodies,
            noted,
            0,
            time_step,
            out,
        );
    assert(blank.sets_up(rows, objs, list, manifolds, time_step, track, full, noted) && full.works_out(rows, solved));
    if full.fits(noted) && full.bodies.len() <= usize::MAX && noted.len() <= usize::MAX {
        assert(tied(full));
        let apart = law_working_out_only_adds(full, rows, solved);
        assert forall|b: int| 0 <= b < full.bodies.len() implies (#[trigger] solved.bodies[b]).original_body
            == full.bodies[b].original_body by {
            assert(only_pushed(full.bodies[b], apart.bodies[b]));
            assert(only_driven(apart.bodies[b], solved.bodies[b]));
        }
        assert(acquainted(solved.bodies, full.fixed, noted)) by {
            assert forall|b: int| #![trigger solved.bodies[b]]
                0 <= b < solved.bodies.len() implies (solved.bodies[b].original_body matches Some(o) ==> o < noted.len()
                && noted[o as int].companion_id == Some(b as usize)) by {
                assert(full.bodies[b].original_body == solved.bodies[b].original_body);
            }
        }
        if noted.len() > 0 {
            law_bodies_leave_with_what_was_added(geometry, solved.bodies, full.fixed, noted, time_step, out, 0);
        } else {
            lemma_nobody_is_written(geometry, solved.bodies, full.fixed, noted, time_step, out);
        }
        assert forall|k: int| #![trigger full.bodies[k]]
            0 <= k < full.bodies.len() && full.bodies[k].original_body is Some && moderate(solved.bodies[k]) implies {
            let (i, body, made) = (full.bodies[k].original_body->Some_0 as int, full.bodies[k], solved.bodies[k]);
            &&& near(
                out[i].lin_vel,
                added(added(point(body.lin_vel), point(made.delta_lin_vel)), point(body.external_force_impulse)),
                1real / 2500real,
            )
            &&& near(
                out[i].ang_vel,
                added(added(point(body.ang_vel), point(made.delta_ang_vel)), point(body.external_torque_impulse)),
                1real / 2500real,
            )
        } by {
            law_solving_adds_to_the_velocities(
                full,
                rows,
                geometry,
                noted,
                solved,
                time_step,
                out,
                k,
                full.bodies[k].original_body->Some_0,
            );
        }
        assert forall|i: int| #![trigger out[i]]
            0 <= i < out.len() && (forall|k: int|
                0 <= k < full.bodies.len() ==> #[trigger] full.bodies[k].original_body != Some(i as usize)) implies out[i]
            == noted[i] by {
            law_bodies_leave_with_what_was_added(geometry, solved.bodies, full.fixed, noted, time_step, out, i);
            assert forall|k: int| 0 <= k < solved.bodies.len() implies #[trigger] solved.bodies[k].original_body != Some(
                i as usize,
            ) by {
                assert(full.bodies[k].original_body != Some(i as usize));
            }
        }
    }
    (full, noted, solved, track)
}

/// Without bodies nothing is written.
proof fn lemma_nobody_is_written<G: Geometry>(
    geometry: &G,
    bodies: Seq<SolverBody>,
    fixed: Option<usize>,
    objs: Seq<RigidBody>,
    time_step: Single,
    out: Seq<RigidBody>,
)
    requires
        acquainted(bodies, fixed, objs),
        objs.len() == 0,
        writes_back(geometry, bodies, objs, 0, time_step, out),
    ensures
        out == objs,
{
    lemma_nobody_from(geometry, bodies, objs, 0, time_step, out);
}

proof fn lemma_nobody_from<G: Geometry>(
    geometry: &G,
    bodies: Seq<SolverBody>,
    objs: Seq<RigidBody>,
    k: nat,
    time_step: Single,
    out: Seq<RigidBody>,
)
    requires
        forall|b: int| 0 <= b < bodies.len() ==> (#[trigger] bodies[b]).original_body is None,
        writes_back(geometry, bodies, objs, k, time_step, out),
    ensures
        out == objs,
    decreases bodies.len() - k,
{
    if k < bodies.len() {
        assert(bodies[k as int].original_body is None);
        lemma_nobody_from(geometry, bodies, objs, k + 1, time_step, out);
    }
}

} // verus!
