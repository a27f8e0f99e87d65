//! What holds of every step of a world, whatever its engine answers.
use crate::bullet::body::RigidBody;
use crate::bullet::discrete_dynamics_step::{
    at_least_epsilon, or_earlier, swap_removed, time_left, unmet, without, Engine, Turn,
};
use crate::bullet::discrete_dynamics_world::{foreseen, gone, nodded, pulled, spent, DiscreteDynamicsWorld};
use crate::bullet::solver_constraint::ContactAddedCallback;
use crate::bullet::solver_finish::carried;
use crate::math::Vec3A;
use crate::single::Single;
use vstd::prelude::*;

verus! {

/// Forces add nothing to the velocity of any body that can move.
pub open spec fn drained(objs: Seq<RigidBody>) -> bool {
    forall|i: int|
        0 <= i < objs.len() && !(#[trigger] objs[i]).is_static ==> objs[i].accum_lin_vel == Vec3A::zero()
            && objs[i].accum_ang_vel == Vec3A::zero()
}

/// Without a pair to play out everything just moves on, and nobody hears of anything.
pub proof fn law_without_pairs_everything_moves_on<T: ContactAddedCallback, E: Engine<T>>(
    world: DiscreteDynamicsWorld,
    engine: &E,
    time_step: Single,
    listener: T,
    end: DiscreteDynamicsWorld,
    told: T,
)
    ensures
        world.plays_out(engine, Seq::empty(), time_step, listener, end, told) <==> world.goes(engine, time_step, end)
            && told == listener,
{
}

proof fn lemma_goes_drained<T: ContactAddedCallback, E: Engine<T>>(
    world: DiscreteDynamicsWorld,
    engine: &E,
    time_step: Single,
    next: DiscreteDynamicsWorld,
)
    requires
        world.goes(engine, time_step, next),
        drained(world.objs()),
    ensures
        drained(next.objs()),
{
    assert forall|i: int| 0 <= i < next.objs().len() && !(#[trigger] next.objs()[i]).is_static implies next.objs()[i].accum_lin_vel
        == Vec3A::zero() && next.objs()[i].accum_ang_vel == Vec3A::zero() by {
        assert(gone(engine, time_step, world.objs()[i], next.objs()[i]));
    }
}

proof fn lemma_settles_drained<T: ContactAddedCallback, E: Engine<T>>(
    world: DiscreteDynamicsWorld,
    engine: &E,
    time_step: Single,
    listener: T,
    next: DiscreteDynamicsWorld,
    told: T,
)
    requires
        world.settles(engine, time_step, listener, next, told),
        drained(world.objs()),
    ensures
        drained(next.objs()),
{
    assert forall|i: int| 0 <= i < next.objs().len() && !(#[trigger] next.objs()[i]).is_static implies next.objs()[i].accum_lin_vel
        == Vec3A::zero() && next.objs()[i].accum_ang_vel == Vec3A::zero() by {
        assert(carried(world.objs()[i], next.objs()[i]));
    }
}

/// Looking for contacts moves nothing, and those that touch are listed in their order.
proof fn lemma_tries_all<T: ContactAddedCallback, E: Engine<T>>(
    world: DiscreteDynamicsWorld,
    engine: &E,
    pairs: Seq<(usize, usize)>,
    k: nat,
    resolved: Seq<usize>,
    listener: T,
    end: DiscreteDynamicsWorld,
    told: T,
    all: Seq<usize>,
)
    requires
        world.tries_all(engine, pairs, k, resolved, listener, end, told, all),
        pairs.len() <= usize::MAX,
        k <= pairs.len(),
        forall|j: int| 0 <= j < resolved.len() ==> #[trigger] resolved[j] < k,
        forall|j: int, l: int| 0 <= j < l < resolved.len() ==> #[trigger] resolved[j] < #[trigger] resolved[l],
    ensures
        end.objs() == world.objs(),
        forall|j: int| 0 <= j < all.len() ==> #[trigger] all[j] < pairs.len(),
        forall|j: int, l: int| 0 <= j < l < all.len() ==> #[trigger] all[j] < #[trigger] all[l],
    decreases pairs.len() - k,
{
    if k < pairs.len() {
        let (next, heard, touched) = choose|next: DiscreteDynamicsWorld, heard: T, touched: bool| #[trigger]
            world.tries(engine, pairs[k as int], listener, next, heard, touched) && next.tries_all(
                engine,
                pairs,
                k + 1,
                if touched {
                    resolved.push(k as usize)
                } else {
                    resolved
                },
                heard,
                end,
                told,
                all,
            );
        let more = if touched {
            resolved.push(k as usize)
        } else {
            resolved
        };
        lemma_tries_all(next, engine, pairs, k + 1, more, heard, end, told, all);
    }
}

/// The pair that comes first is one of the pairs.
proof fn lemma_comes_first<T: ContactAddedCallback, E: Engine<T>>(
    world: DiscreteDynamicsWorld,
    engine: &E,
    pairs: Seq<(usize, usize)>,
    k: nat,
    remaining: Single,
    best: Option<(usize, Single)>,
    found: Option<(usize, Single)>,
)
    requires
        world.comes_first(engine, pairs, k, remaining, best, found),
        pairs.len() <= usize::MAX,
        best is Some ==> best->Some_0.0 < pairs.len(),
    ensures
        found is Some ==> found->Some_0.0 < pairs.len(),
    decreases pairs.len() - k,
{
    if k < pairs.len() {
        let toi = choose|toi: Option<Single>| #[trigger]
            world.touch_time(engine, pairs[k as int], remaining, toi) && world.comes_first(
                engine,
                pairs,
                k + 1,
                remaining,
                or_earlier(best, k as usize, toi),
                found,
            );
        lemma_comes_first::<T, E>(
            world,
            engine,
            pairs,
            k + 1,
            remaining,
            or_earlier(best, k as usize, toi),
            found,
        );
    }
}

proof fn lemma_turns_drained<T: ContactAddedCallback, E: Engine<T>>(
    world: DiscreteDynamicsWorld,
    engine: &E,
    pairs: Seq<(usize, usize)>,
    remaining: Single,
    listener: T,
    turn: Turn<T>,
)
    requires
        world.turns(engine, pairs, remaining, listener, turn),
        pairs.len() <= usize::MAX,
        drained(world.objs()),
    ensures
        drained(turn.world.objs()),
{
    reveal(DiscreteDynamicsWorld::turns);
    let found = choose|found: Option<(usize, Single)>| #[trigger]
        world.comes_first(engine, pairs, 0, remaining, None, found) && match found {
            None => world.stalls(engine, pairs, remaining, listener, turn),
            Some((k, toi)) => world.strikes(engine, pairs, remaining, k, toi, listener, turn),
        };
    match found {
        None => {
            lemma_stalls(world, engine, pairs, remaining, listener, turn);
        },
        Some((k, toi)) => {
            lemma_strikes_drained(world, engine, pairs, remaining, k, toi, listener, turn);
        },
    }
}

/// A turn without a time at which a pair touches takes out the pairs that touch.
proof fn lemma_stalls<T: ContactAddedCallback, E: Engine<T>>(
    world: DiscreteDynamicsWorld,
    engine: &E,
    pairs: Seq<(usize, usize)>,
    remaining: Single,
    listener: T,
    turn: Turn<T>,
)
    requires
        world.stalls(engine, pairs, remaining, listener, turn),
        pairs.len() <= usize::MAX,
    ensures
        drained(world.objs()) ==> drained(turn.world.objs()),
        pairs.no_duplicates() ==> fewer(pairs, turn.pairs),
        pairs.no_duplicates() && !turn.over ==> turn.pairs.len() < pairs.len(),
{
    reveal(DiscreteDynamicsWorld::stalls);
    let none: Seq<usize> = Seq::empty();
    let (next, heard, resolved) = choose|next: DiscreteDynamicsWorld, heard: T, resolved: Seq<usize>| #[trigger]
        world.tries_all(engine, pairs, 0, Seq::empty(), listener, next, heard, resolved) && if resolved.len() == 0 {
            turn == (Turn { world: next, pairs, remaining, told: heard, over: true })
        } else {
            next.settles(
                engine,
                at_least_epsilon(remaining),
                heard,
                turn.world,
                turn.told,
            ) && turn == (Turn {
                world: turn.world,
                pairs: without(pairs, resolved),
                remaining,
                told: turn.told,
                over: false,
            })
        };
    lemma_tries_all(world, engine, pairs, 0, none, listener, next, heard, resolved);
    if pairs.no_duplicates() {
        law_pairs_taken_out_are_gone(pairs, resolved);
    }
    if drained(world.objs()) && resolved.len() > 0 {
        lemma_settles_drained(
            next,
            engine,
            at_least_epsilon(remaining),
            heard,
            turn.world,
            turn.told,
        );
    }
}

proof fn lemma_strikes_drained<T: ContactAddedCallback, E: Engine<T>>(
    world: DiscreteDynamicsWorld,
    engine: &E,
    pairs: Seq<(usize, usize)>,
    remaining: Single,
    k: usize,
    toi: Single,
    listener: T,
    turn: Turn<T>,
)
    requires
        world.strikes(engine, pairs, remaining, k, toi, listener, turn),
        drained(world.objs()),
    ensures
        drained(turn.world.objs()),
{
    reveal(DiscreteDynamicsWorld::strikes);
    let left = at_least_epsilon(
        time_left(remaining, toi),
    );
    let (there, next, heard, touched) = choose|
        there: DiscreteDynamicsWorld,
        next: DiscreteDynamicsWorld,
        heard: T,
        touched: bool,
    | #[trigger]
        world.reaches(engine, toi, there) && #[trigger] there.tries(
            engine,
            pairs[k as int],
            listener,
            next,
            heard,
            touched,
        ) && if touched {
            next.settles(engine, left, heard, turn.world, turn.told)
        } else {
            turn.world == next && turn.told == heard
        };
    if (Single { bits: 0 }).less(toi) {
        lemma_goes_drained::<T, E>(world, engine, toi, there);
    }
    if touched {
        lemma_settles_drained(next, engine, left, heard, turn.world, turn.told);
    }
}

proof fn lemma_plays_out_drained<T: ContactAddedCallback, E: Engine<T>>(
    world: DiscreteDynamicsWorld,
    engine: &E,
    pairs: Seq<(usize, usize)>,
    remaining: Single,
    listener: T,
    end: DiscreteDynamicsWorld,
    told: T,
)
    requires
        world.plays_out(engine, pairs, remaining, listener, end, told),
        pairs.len() <= usize::MAX,
        drained(world.objs()),
    ensures
        drained(end.objs()),
    decreases pairs.len(),
{
    if pairs.len() == 0 {
        lemma_goes_drained::<T, E>(world, engine, remaining, end);
    } else {
        let turn = choose|turn: Turn<T>| #[trigger]
            world.turns(engine, pairs, remaining, listener, turn) && if turn.over {
                turn.world.goes(engine, turn.remaining, end) && told == turn.told
            } else {
                turn.pairs.len() < pairs.len() && turn.world.plays_out(
                    engine,
                    turn.pairs,
                    turn.remaining,
                    turn.told,
                    end,
                    told,
                )
            };
        lemma_turns_drained(world, engine, pairs, remaining, listener, turn);
        if turn.over {
            lemma_goes_drained::<T, E>(turn.world, engine, turn.remaining, end);
        } else {
            lemma_plays_out_drained(turn.world, engine, turn.pairs, turn.remaining, turn.told, end, told);
        }
    }
}

/// Late contacts do not use what forces add to the velocities a second time: where a pair that waits
/// has met after the contacts were solved, nothing of it is left at the end of the step.
pub proof fn law_late_contacts_leave_no_forces<T: ContactAddedCallback, E: Engine<T>>(
    settled: DiscreteDynamicsWorld,
    engine: &E,
    pending: Seq<(usize, usize)>,
    time_step: Single,
    listener: T,
    there: DiscreteDynamicsWorld,
    told: T,
    end: DiscreteDynamicsWorld,
)
    requires
        settled.meets(pending),
        pending.len() <= usize::MAX,
        settled.ends(engine, pending, time_step, listener, there, told),
        there.nods(engine, time_step, end),
    ensures
        drained(there.objs()),
        drained(end.objs()),
{
    reveal(DiscreteDynamicsWorld::ends);
    let bare = choose|bare: DiscreteDynamicsWorld| #[trigger]
        settled.spends(bare) && bare.plays_out(engine, pending, time_step, listener, there, told);
    assert forall|i: int| 0 <= i < bare.objs().len() && !(#[trigger] bare.objs()[i]).is_static implies bare.objs()[i].accum_lin_vel
        == Vec3A::zero() && bare.objs()[i].accum_ang_vel == Vec3A::zero() by {
        assert(spent(settled.objs()[i], bare.objs()[i]));
    }
    lemma_plays_out_drained(bare, engine, pending, time_step, listener, there, told);
    assert forall|i: int| 0 <= i < end.objs().len() && !(#[trigger] end.objs()[i]).is_static implies end.objs()[i].accum_lin_vel
        == Vec3A::zero() && end.objs()[i].accum_ang_vel == Vec3A::zero() by {
        assert(nodded(engine, time_step, there.objs()[i], end.objs()[i]));
    }
}

/// Some of some pairs, none of them twice.
pub open spec fn fewer(pairs: Seq<(usize, usize)>, some: Seq<(usize, usize)>) -> bool {
    &&& some.no_duplicates()
    &&& some.len() <= pairs.len()
    &&& forall|i: int| 0 <= i < some.len() ==> pairs.contains(#[trigger] some[i])
}

/// A pair that was played out is gone.
pub proof fn law_pair_taken_out_is_gone(pairs: Seq<(usize, usize)>, k: int)
    requires
        0 <= k < pairs.len(),
        pairs.no_duplicates(),
    ensures
        fewer(pairs, swap_removed(pairs, k)),
        swap_removed(pairs, k).len() == pairs.len() - 1,
        !swap_removed(pairs, k).contains(pairs[k]),
{
    let rest = swap_removed(pairs, k);
    assert forall|i: int| 0 <= i < rest.len() implies pairs.contains(#[trigger] rest[i]) && rest[i] != pairs[k] by {
        if i == k {
            assert(rest[i] == pairs[pairs.len() - 1]);
        } else {
            assert(rest[i] == pairs[i]);
        }
    }
}

/// Pairs that were solved are gone, each of them, and no others.
pub proof fn law_pairs_taken_out_are_gone(pairs: Seq<(usize, usize)>, resolved: Seq<usize>)
    requires
        pairs.no_duplicates(),
        forall|j: int| 0 <= j < resolved.len() ==> #[trigger] resolved[j] < pairs.len(),
        forall|j: int, l: int| 0 <= j < l < resolved.len() ==> #[trigger] resolved[j] < #[trigger] resolved[l],
    ensures
        fewer(pairs, without(pairs, resolved)),
        without(pairs, resolved).len() == pairs.len() - resolved.len(),
        forall|j: int|
            0 <= j < resolved.len() ==> !without(pairs, resolved).contains(pairs[(#[trigger] resolved[j]) as int]),
    decreases resolved.len(),
{
    if resolved.len() > 0 {
        let last = resolved.last() as int;
        let rest = swap_removed(pairs, last);
        let before = resolved.drop_last();
        law_pair_taken_out_is_gone(pairs, last);
        assert forall|j: int| 0 <= j < before.len() implies #[trigger] before[j] < rest.len() by {
            assert(resolved[j] < resolved[resolved.len() - 1]);
        }
        law_pairs_taken_out_are_gone(rest, before);
        let left = without(pairs, resolved);
        assert forall|i: int| 0 <= i < left.len() implies pairs.contains(#[trigger] left[i]) by {
            assert(rest.contains(left[i]));
            let l = choose|l: int| 0 <= l < rest.len() && rest[l] == left[i];
            assert(pairs.contains(rest[l]));
        }
        assert forall|j: int| 0 <= j < resolved.len() implies !left.contains(pairs[(#[trigger] resolved[j]) as int]) by {
            if j < before.len() {
                assert(before[j] == resolved[j]);
                assert(resolved[j] < resolved[resolved.len() - 1]);
                assert(rest[resolved[j] as int] == pairs[resolved[j] as int]);
            } else if left.contains(pairs[last]) {
                let i = choose|i: int| 0 <= i < left.len() && left[i] == pairs[last];
                assert(rest.contains(left[i]));
            }
        }
    }
}

/// Every turn of playing out pairs takes some of them out, and brings none back, until a turn finds
/// that no pair touches; so playing them out comes to an end, and solves no pair twice.
pub proof fn law_turns_use_up_pairs<T: ContactAddedCallback, E: Engine<T>>(
    world: DiscreteDynamicsWorld,
    engine: &E,
    pairs: Seq<(usize, usize)>,
    remaining: Single,
    listener: T,
    turn: Turn<T>,
)
    requires
        world.turns(engine, pairs, remaining, listener, turn),
        pairs.no_duplicates(),
        pairs.len() <= usize::MAX,
    ensures
        fewer(pairs, turn.pairs),
        !turn.over ==> turn.pairs.len() < pairs.len(),
{
    reveal(DiscreteDynamicsWorld::turns);
    reveal(DiscreteDynamicsWorld::strikes);
    let found = choose|found: Option<(usize, Single)>| #[trigger]
        world.comes_first(engine, pairs, 0, remaining, None, found) && match found {
            None => world.stalls(engine, pairs, remaining, listener, turn),
            Some((k, toi)) => world.strikes(engine, pairs, remaining, k, toi, listener, turn),
        };
    match found {
        None => {
            lemma_stalls(world, engine, pairs, remaining, listener, turn);
        },
        Some((k, toi)) => {
            lemma_comes_first::<T, E>(world, engine, pairs, 0, remaining, None, found);
            law_pair_taken_out_is_gone(pairs, k as int);
        },
    }
}

/// What a step does to one body, in this order: gravity pulls it, its velocity is damped and its way predicted, contacts change how it moves
/// and push it, it goes on, and it falls asleep or stays awake. It goes on in one piece where no pair that waits has met by then; the result
/// is the body after each part.
pub proof fn law_every_body_goes_through_the_step<T: ContactAddedCallback, E: Engine<T>>(
    world: DiscreteDynamicsWorld,
    engine: &E,
    time_step: Single,
    listener: T,
    end: DiscreteDynamicsWorld,
    told: T,
    i: int,
) -> (r: (RigidBody, RigidBody, RigidBody, RigidBody, bool))
    requires
        world.steps(engine, time_step, listener, end, told),
        0 <= i < world.objs().len(),
    ensures
        pulled(engine, world.gravity, time_step, world.objs()[i], r.0),
        foreseen(engine, time_step, r.0, r.1),
        carried(r.1, r.2),
        !r.4 ==> gone(engine, time_step, r.2, r.3),
        !r.4 ==> nodded(engine, time_step, r.3, end.objs()[i]),
        !r.4 ==> end.objs().len() == world.objs().len(),
        r.4 ==> exists|settled: DiscreteDynamicsWorld, late: Seq<(usize, usize)>|
            settled.objs().len() == world.objs().len() && #[trigger] settled.meets(late),
{
    let start = choose|start: DiscreteDynamicsWorld| #[trigger]
        world.pulls(engine, time_step, start) && start.steps_inside(engine, time_step, listener, end, told);
    let (seen, skipped, pending, found, heard, settled, last, there) = choose|
        seen: DiscreteDynamicsWorld,
        skipped: Vec<(usize, usize)>,
        pending: Seq<(usize, usize)>,
        found: DiscreteDynamicsWorld,
        heard: T,
        settled: DiscreteDynamicsWorld,
        last: T,
        there: DiscreteDynamicsWorld,
    |
        skipped@.len() == 0 && #[trigger] start.foresees(engine, time_step, seen) && #[trigger] seen.expects::<T, E>(
            engine,
            skipped@,
            pending,
        ) && #[trigger] seen.finds(engine, &skipped, listener, found, heard) && #[trigger] found.settles(
            engine,
            time_step,
            heard,
            settled,
            last,
        ) && #[trigger] settled.ends(
            engine,
            unmet(found.objs(), pending, found.manifolds(), found.manifolds().len() as int),
            time_step,
            last,
            there,
            told,
        ) && there.nods(engine, time_step, end);
    let late = unmet(found.objs(), pending, found.manifolds(), found.manifolds().len() as int);
    reveal(DiscreteDynamicsWorld::ends);
    assert(pulled(engine, world.gravity, time_step, world.objs()[i], start.objs()[i]));
    assert(foreseen(engine, time_step, start.objs()[i], seen.objs()[i]));
    assert(carried(found.objs()[i], settled.objs()[i]));
    let met = settled.meets(late);
    if !met {
        assert(gone(engine, time_step, settled.objs()[i], there.objs()[i]));
        assert(nodded(engine, time_step, there.objs()[i], end.objs()[i]));
    }
    (start.objs()[i], seen.objs()[i], settled.objs()[i], there.objs()[i], met)
}

} // verus!
