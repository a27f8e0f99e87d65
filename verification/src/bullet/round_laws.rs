//! How often the rows of a group are taken up.
use crate::bullet::contact_solver_info::NUM_ITERATIONS;
use crate::bullet::seq_impulse_constraint_solver::Group;
use crate::bullet::solver_constraint::Rows;
use crate::bullet::solver_iterations::{all_of, none_of};
use crate::single::Single;
use vstd::prelude::*;

verus! {

/// The largest squared residual so far takes a residual into account.
pub open spec fn heard(residual: Single, least: Single) -> bool {
    residual.times(residual).is_a_nan() || residual.times(residual).at_most(least)
}

proof fn lemma_heard(residual: Single, worst: Single, least: Single)
    requires
        ({
            let more = residual.times(residual).greater_of(worst);
            more.is_a_nan() || more.at_most(least)
        }),
    ensures
        heard(residual, least),
        worst.is_a_nan() || worst.at_most(least),
{
}

/// An iteration solves every contact once, in turn, each with the bodies as the one before left them, but for the special ones; the largest squared
/// residual takes each into account.
pub proof fn law_contacts_are_solved_in_turn<R: Rows>(g: Group, rows: &R, i: nat, worst: Single, out: Group, least: Single) -> (way: Seq<Group>)
    requires
        g.meets_all(rows, i, worst, out, least),
        i <= g.contacts.len(),
    ensures
        way.len() == g.contacts.len() - i + 1,
        way[0] == g && way.last() == out,
        worst.is_a_nan() || worst.at_most(least),
        forall|k: int|
            #![trigger way[k]]
            0 <= k < g.contacts.len() - i ==> if way[k].contacts[i + k].row.is_special {
                way[k + 1] == way[k]
            } else {
                exists|residual: Single| #[trigger]
                    way[k].meets(rows, i + k, residual, way[k + 1]) && heard(residual, least)
            },
    decreases g.contacts.len() - i,
{
    if i >= g.contacts.len() {
        seq![g]
    } else if g.contacts[i as int].row.is_special {
        let rest = law_contacts_are_solved_in_turn(g, rows, i + 1, worst, out, least);
        let way = seq![g] + rest;
        assert forall|k: int|
            #![trigger way[k]]
            0 <= k < g.contacts.len() - i implies if way[k].contacts[i + k].row.is_special {
            way[k + 1] == way[k]
        } else {
            exists|residual: Single| #[trigger] way[k].meets(rows, i + k, residual, way[k + 1]) && heard(residual, least)
        } by {
            assert(way[1] == rest[0]);
            if k > 0 {
                assert(way[k] == rest[k - 1] && way[k + 1] == rest[k - 1 + 1]);
                assert(i + 1 + (k - 1) == i + k);
            }
        }
        assert(way.last() == rest.last());
        way
    } else {
        let (next, residual) = choose|next: Group, residual: Single| #[trigger]
            g.meets(rows, i as int, residual, next) && next.contacts.len() == g.contacts.len() && next.meets_all(
                rows,
                i + 1,
                residual.times(residual).greater_of(worst),
                out,
                least,
            );
        let more = residual.times(residual).greater_of(worst);
        let rest = law_contacts_are_solved_in_turn(next, rows, i + 1, more, out, least);
        lemma_heard(residual, worst, least);
        let way = seq![g] + rest;
        assert forall|k: int|
            #![trigger way[k]]
            0 <= k < g.contacts.len() - i implies if way[k].contacts[i + k].row.is_special {
            way[k + 1] == way[k]
        } else {
            exists|residual: Single| #[trigger] way[k].meets(rows, i + k, residual, way[k + 1]) && heard(residual, least)
        } by {
            assert(way[1] == rest[0]);
            if k > 0 {
                assert(way[k] == rest[k - 1] && way[k + 1] == rest[k - 1 + 1]);
                assert(i + 1 + (k - 1) == i + k);
            } else {
                assert(way[k].meets(rows, i + k, residual, way[k + 1]));
            }
        }
        assert(way.last() == rest.last());
        way
    }
}

/// An iteration solves every row of friction once, in turn, but for those whose contact does not press; the largest squared residual takes each
/// into account.
pub proof fn law_friction_is_solved_in_turn<R: Rows>(g: Group, rows: &R, i: nat, worst: Single, out: Group, least: Single) -> (way: Seq<Group>)
    requires
        g.rubs_all(rows, i, worst, out, least),
        i <= g.frictions.len(),
    ensures
        way.len() == g.frictions.len() - i + 1,
        way[0] == g && way.last() == out,
        worst.is_a_nan() || worst.at_most(least),
        forall|k: int|
            #![trigger way[k]]
            0 <= k < g.frictions.len() - i ==> if way[k].contacts[way[k].frictions[i + k].friction_idx as int].row.applied_impulse.at_most(Single { bits: 0 }) {
                way[k + 1] == way[k]
            } else {
                exists|residual: Single| #[trigger]
                    way[k].rubs(rows, i + k, residual, way[k + 1]) && heard(residual, least)
            },
    decreases g.frictions.len() - i,
{
    if i >= g.frictions.len() {
        seq![g]
    } else if g.contacts[g.frictions[i as int].friction_idx as int].row.applied_impulse.at_most(Single { bits: 0 }) {
        let rest = law_friction_is_solved_in_turn(g, rows, i + 1, worst, out, least);
        let way = seq![g] + rest;
        assert forall|k: int|
            #![trigger way[k]]
            0 <= k < g.frictions.len() - i implies if way[k].contacts[way[k].frictions[i + k].friction_idx as int].row.applied_impulse.at_most(Single { bits: 0 }) {
            way[k + 1] == way[k]
        } else {
            exists|residual: Single| #[trigger] way[k].rubs(rows, i + k, residual, way[k + 1]) && heard(residual, least)
        } by {
            assert(way[1] == rest[0]);
            if k > 0 {
                assert(way[k] == rest[k - 1] && way[k + 1] == rest[k - 1 + 1]);
                assert(i + 1 + (k - 1) == i + k);
            }
        }
        assert(way.last() == rest.last());
        way
    } else {
        let (next, residual) = choose|next: Group, residual: Single| #[trigger]
            g.rubs(rows, i as int, residual, next) && next.frictions.len() == g.frictions.len() && next.rubs_all(
                rows,
                i + 1,
                residual.times(residual).greater_of(worst),
                out,
                least,
            );
        let more = residual.times(residual).greater_of(worst);
        let rest = law_friction_is_solved_in_turn(next, rows, i + 1, more, out, least);
        lemma_heard(residual, worst, least);
        let way = seq![g] + rest;
        assert forall|k: int|
            #![trigger way[k]]
            0 <= k < g.frictions.len() - i implies if way[k].contacts[way[k].frictions[i + k].friction_idx as int].row.applied_impulse.at_most(Single { bits: 0 }) {
            way[k + 1] == way[k]
        } else {
            exists|residual: Single| #[trigger] way[k].rubs(rows, i + k, residual, way[k + 1]) && heard(residual, least)
        } by {
            assert(way[1] == rest[0]);
            if k > 0 {
                assert(way[k] == rest[k - 1] && way[k + 1] == rest[k - 1 + 1]);
                assert(i + 1 + (k - 1) == i + k);
            } else {
                assert(way[k].rubs(rows, i + k, residual, way[k + 1]));
            }
        }
        assert(way.last() == rest.last());
        way
    }
}

/// Contacts are solved in iterations, each with all contacts and then all friction: in as many as there are, or until one corrects nothing.
pub proof fn law_iterations_go_on_until_nothing_is_corrected<R: Rows>(g: Group, rows: &R, iterations: nat, out: Group) -> (way: Seq<Group>)
    requires
        g.solves(rows, iterations, out),
    ensures
        1 <= way.len() <= iterations + 1,
        way[0] == g && way.last() == out,
        way.len() == iterations + 1 || way.last().residual.same(Single { bits: 0 }),
        iterations > 0 ==> way.len() > 1,
        forall|k: int|
            #![trigger way[k]]
            0 <= k < way.len() - 1 ==> exists|next: Group, least: Single| #[trigger]
                way[k].iterates(rows, next, least) && way[k + 1] == (Group { residual: least, ..next }),
    decreases iterations,
{
    if iterations == 0 {
        seq![g]
    } else {
        let (next, least) = choose|next: Group, least: Single| #[trigger]
            g.iterates(rows, next, least) && if least.same(Single { bits: 0 }) {
                out == (Group { residual: least, ..next })
            } else {
                (Group { residual: least, ..next }).solves(rows, (iterations - 1) as nat, out)
            };
        let marked = Group { residual: least, ..next };
        let rest = if least.same(Single { bits: 0 }) {
            seq![marked]
        } else {
            law_iterations_go_on_until_nothing_is_corrected(marked, rows, (iterations - 1) as nat, out)
        };
        let way = seq![g] + rest;
        assert(way.last() == rest.last());
        assert forall|k: int|
            #![trigger way[k]]
            0 <= k < way.len() - 1 implies exists|next: Group, least: Single| #[trigger]
                way[k].iterates(rows, next, least) && way[k + 1] == (Group { residual: least, ..next }) by {
            if k > 0 {
                assert(way[k] == rest[k - 1] && way[k + 1] == rest[k - 1 + 1]);
            } else {
                assert(way[0].iterates(rows, next, least) && way[1] == marked);
            }
        }
        way
    }
}

/// What a round does with one contact: one that does not move is left alone, any other is pushed apart, and moves on unless it was not corrected
/// and the solver keeps track of that.
pub open spec fn taken_up<R: Rows>(g: Group, rows: &R, i: int, moves: bool, next: Group, goes_on: bool) -> bool {
    if g.masked() && !moves {
        next == g && !goes_on
    } else {
        exists|residual: Single| #[trigger]
            g.pushes(rows, i, residual, next) && (goes_on <==> moves && !(g.masked() && residual.times(residual).same(
                Single { bits: 0 },
            )))
    }
}

/// The first contact of what is left of a round, and the rest of it.
proof fn lemma_one_push<R: Rows>(g: Group, rows: &R, run: Seq<bool>, i: nat, out: Group, left: Seq<bool>) -> (r: (Group, Seq<bool>))
    requires
        g.pushes_all(rows, run, i, out, left),
        i < g.contacts.len() == run.len(),
    ensures
        r.0.contacts.len() == g.contacts.len(),
        r.1.len() == run.len(),
        forall|j: int| 0 <= j < run.len() && j != i ==> #[trigger] r.1[j] == run[j],
        taken_up(g, rows, i as int, run[i as int], r.0, r.1[i as int]),
        r.0.pushes_all(rows, r.1, i + 1, out, left),
{
    if g.masked() && !run[i as int] {
        (g, run)
    } else {
        let (next, residual) = choose|next: Group, residual: Single| #[trigger]
            g.pushes(rows, i as int, residual, next) && next.contacts.len() == g.contacts.len() && next.pushes_all(
                rows,
                if g.masked() && residual.times(residual).same(Single { bits: 0 }) {
                    run.update(i as int, false)
                } else {
                    run
                },
                i + 1,
                out,
                left,
            );
        if g.masked() && residual.times(residual).same(Single { bits: 0 }) {
            (next, run.update(i as int, false))
        } else {
            (next, run)
        }
    }
}

/// A round takes up every contact once and in turn, with the bodies as the one before left them.
#[verifier::spinoff_prover]
pub proof fn law_contacts_are_pushed_in_turn<R: Rows>(g: Group, rows: &R, run: Seq<bool>, i: nat, out: Group, left: Seq<bool>) -> (way: Seq<
    Group,
>)
    requires
        g.pushes_all(rows, run, i, out, left),
        run.len() == g.contacts.len(),
        i <= g.contacts.len(),
    ensures
        way.len() == g.contacts.len() - i + 1,
        way[0] == g && way.last() == out,
        left.len() == run.len(),
        forall|j: int| 0 <= j < i ==> #[trigger] left[j] == run[j],
        forall|k: int|
            #![trigger way[k]]
            0 <= k < g.contacts.len() - i ==> taken_up(way[k], rows, i + k, run[i + k], way[k + 1], left[i + k]),
    decreases g.contacts.len() - i,
{
    if i >= g.contacts.len() {
        seq![g]
    } else {
        let (next, after) = lemma_one_push(g, rows, run, i, out, left);
        let rest = law_contacts_are_pushed_in_turn(next, rows, after, i + 1, out, left);
        let way = seq![g] + rest;
        assert(way.last() == rest.last());
        assert(left[i as int] == after[i as int]);
        assert forall|j: int| 0 <= j < i implies #[trigger] left[j] == run[j] by {
            assert(left[j] == after[j]);
        }
        assert forall|k: int|
            #![trigger way[k]]
            0 <= k < g.contacts.len() - i implies taken_up(way[k], rows, i + k, run[i + k], way[k + 1], left[i + k]) by {
            if k > 0 {
                assert(way[k] == rest[k - 1] && way[k + 1] == rest[k - 1 + 1]);
                assert(i + 1 + (k - 1) == i + k);
                assert(after[i + k] == run[i + k]);
                assert(taken_up(rest[k - 1], rows, i + 1 + (k - 1), after[i + 1 + (k - 1)], rest[k - 1 + 1], left[i + 1 + (k - 1)]));
            } else {
                assert(way[1] == rest[0]);
            }
        }
        way
    }
}

/// Contacts are pushed apart in rounds, at first all of them: in as many rounds as there are, or until none moves any longer.
pub proof fn law_rounds_go_on_until_nothing_moves<R: Rows>(g: Group, rows: &R, run: Seq<bool>, rounds: nat, out: Group) -> (r: (
    Seq<Group>,
    Seq<Seq<bool>>,
))
    requires
        g.splits(rows, run, rounds, out),
    ensures
        ({
            let (way, moving) = r;
            &&& 1 <= way.len() <= rounds + 1 && moving.len() == way.len()
            &&& way[0] == g && way.last() == out && moving[0] == run
            &&& way.len() == rounds + 1 || none_of(moving.last())
            &&& rounds > 0 ==> way.len() > 1
            &&& forall|k: int|
                #![trigger way[k]]
                0 <= k < way.len() - 1 ==> way[k].pushes_all(rows, moving[k], 0, way[k + 1], moving[k + 1])
        }),
    decreases rounds,
{
    if rounds == 0 {
        (seq![g], seq![run])
    } else {
        let (next, left) = choose|next: Group, left: Seq<bool>| #[trigger]
            g.pushes_all(rows, run, 0, next, left) && if g.masked() && none_of(left) {
                out == next
            } else {
                next.splits(rows, left, (rounds - 1) as nat, out)
            };
        let (rest, still) = if g.masked() && none_of(left) {
            (seq![next], seq![left])
        } else {
            law_rounds_go_on_until_nothing_moves(next, rows, left, (rounds - 1) as nat, out)
        };
        let (way, moving) = (seq![g] + rest, seq![run] + still);
        assert(way.last() == rest.last() && moving.last() == still.last());
        assert forall|k: int|
            #![trigger way[k]]
            0 <= k < way.len() - 1 implies way[k].pushes_all(rows, moving[k], 0, way[k + 1], moving[k + 1]) by {
            if k > 0 {
                assert(way[k] == rest[k - 1] && way[k + 1] == rest[k - 1 + 1]);
                assert(moving[k] == still[k - 1] && moving[k + 1] == still[k - 1 + 1]);
            }
        }
        (way, moving)
    }
}

/// Working a group out takes at least one round over all contacts and one iteration, and no more than ten of each.
pub proof fn law_working_out_takes_up_all_rows<R: Rows>(g: Group, rows: &R, out: Group) -> (r: (
    Seq<Group>,
    Seq<Group>,
    Seq<bool>,
    Seq<bool>,
))
    requires
        g.works_out(rows, out),
    ensures
        ({
            let (apart, solved, run, left) = r;
            &&& 2 <= apart.len() <= 11 && 2 <= solved.len() <= 11
            &&& apart[0] == g && solved[0] == apart.last() && solved.last() == out
            &&& run.len() == g.contacts.len() && forall|i: int| 0 <= i < run.len() ==> #[trigger] run[i]
            &&& g.pushes_all(rows, run, 0, apart[1], left)
            &&& solved.len() == 11 || out.residual.same(Single { bits: 0 })
        }),
{
    let n = NUM_ITERATIONS as nat;
    let apart = choose|apart: Group| #[trigger]
        g.splits(rows, all_of(g.contacts.len()), NUM_ITERATIONS as nat, apart) && apart.solves(rows, NUM_ITERATIONS as nat, out);
    let (way, moving) = law_rounds_go_on_until_nothing_moves(g, rows, all_of(g.contacts.len()), n, apart);
    let solved = law_iterations_go_on_until_nothing_is_corrected(apart, rows, n, out);
    let first = 0int;
    assert(way[first].pushes_all(rows, moving[first], 0, way[first + 1], moving[first + 1]));
    (way, solved, moving[0], moving[1])
}

} // verus!
