//! What is kept of the events of a step.
use crate::bounds::{lemma_times, lemma_vector_minus, near, point, sized, slack, taken, within};
use crate::bridge::arena_wrapper::{rolled, stepped, ticked, RsArena, RsBallArena, Tally, PHYSICS_RATE};
use crate::bridge::conversions::ffi_to_vec3a;
use crate::bridge::{car_added, fresh, hit_forgotten, hit_of, kicked_off};
use crate::math::Vec3A;
use crate::sim::arena::base::{Arena, ArenaEvent, Physics};
use crate::sim::types::{CarBodyConfig, CarState, Team};
use crate::single::Single;
use crate::single_errors::{lemma_constant, lemma_units, real_value, units};
use crate::single_laws::{law_product_sign, lemma_value};
use vstd::arithmetic::power2::{lemma2_to64, pow2};
use vstd::prelude::*;

verus! {

/// An event is heard once: a hit of the ball is listed with those of the ball, a hit of a car with those of cars, at the end, and nothing
/// listed before changes. The last hit of every car but the one that hit the ball stays; that one's becomes the hit: where it was as seen
/// from the ball, with the ball where it is after the tick, and in that tick.
pub proof fn law_an_event_is_heard_once(tally: Tally, event: ArenaEvent, tick_count: u64, ball_pos: Vec3A)
    ensures
        ({
            let next = tally.heard(event, tick_count, ball_pos);
            &&& next.hits.len() == tally.hits.len()
            &&& match event {
                ArenaEvent::CarHitBall(e) => {
                    let told = next.ball_events.last();
                    &&& next.ball_events.len() == tally.ball_events.len() + 1
                    &&& next.ball_events.drop_last() == tally.ball_events
                    &&& next.car_events == tally.car_events
                    &&& e.car_idx <= u32::MAX ==> told.car_idx == e.car_idx
                    &&& ffi_to_vec3a(&told.contact_point) == e.contact_point
                    &&& ffi_to_vec3a(&told.extra_hit_vel) == e.extra_hit_vel
                    &&& forall|i: int|
                        0 <= i < tally.hits.len() && i != e.car_idx ==> #[trigger] next.hits[i] == tally.hits[i]
                    &&& e.car_idx < tally.hits.len() ==> {
                        let hit = next.hits[e.car_idx as int];
                        &&& hit.is_valid
                        &&& ffi_to_vec3a(&hit.ball_pos) == ball_pos
                        &&& ffi_to_vec3a(&hit.extra_hit_vel) == e.extra_hit_vel
                        &&& hit.tick_count_when_hit == tick_count
                        &&& hit.tick_count_when_extra_impulse_applied == tick_count
                        &&& e.contact_point.finite() && sized(point(e.contact_point), 10000real) && ball_pos.finite() && sized(
                            point(ball_pos),
                            10000real,
                        ) ==> near(
                            ffi_to_vec3a(&hit.relative_pos_on_ball),
                            taken(point(e.contact_point), point(ball_pos)),
                            1real / 500real,
                        )
                    }
                },
                ArenaEvent::CarHitCar(e) => {
                    let told = next.car_events.last();
                    &&& next.car_events.len() == tally.car_events.len() + 1
                    &&& next.car_events.drop_last() == tally.car_events
                    &&& next.ball_events == tally.ball_events
                    &&& next.hits == tally.hits
                    &&& e.bumper_car_idx <= u32::MAX ==> told.bumper_car_idx == e.bumper_car_idx
                    &&& e.victim_car_idx <= u32::MAX ==> told.victim_car_idx == e.victim_car_idx
                    &&& ffi_to_vec3a(&told.contact_point) == e.contact_point
                    &&& told.is_demo == e.is_demo
                },
                ArenaEvent::Other => next == tally,
            }
        }),
{
    let next = tally.heard(event, tick_count, ball_pos);
    match event {
        ArenaEvent::CarHitBall(e) => {
            assert(next.ball_events.drop_last() =~= tally.ball_events);
            if e.contact_point.finite() && sized(point(e.contact_point), 10000real) && ball_pos.finite() && sized(
                point(ball_pos),
                10000real,
            ) {
                lemma_vector_minus(
                    e.contact_point,
                    point(e.contact_point),
                    0real,
                    ball_pos,
                    point(ball_pos),
                    0real,
                    20000real,
                );
            }
        },
        ArenaEvent::CarHitCar(e) => {
            assert(next.car_events.drop_last() =~= tally.car_events);
        },
        ArenaEvent::Other => {},
    }
}

/// How many of some events are hits of the ball, and how many hits of a car.
pub open spec fn hits_among(events: Seq<ArenaEvent>) -> (nat, nat)
    decreases events.len(),
{
    if events.len() == 0 {
        (0, 0)
    } else {
        let (ball, car) = hits_among(events.drop_last());
        match events.last() {
            ArenaEvent::CarHitBall(e) => (ball + 1, car),
            ArenaEvent::CarHitCar(e) => (ball, car + 1),
            ArenaEvent::Other => (ball, car),
        }
    }
}

/// Every event of a tick is heard once: as many are listed as there were, after those before. A car that did not hit the ball in the tick
/// keeps its last hit.
pub proof fn law_every_event_is_heard_once(tally: Tally, events: Seq<ArenaEvent>, tick_count: u64, ball_pos: Vec3A, car: int)
    requires
        0 <= car < tally.hits.len(),
    ensures
        ({
            let next = tally.heard_all(events, tick_count, ball_pos);
            let (ball_hits, car_hits) = hits_among(events);
            &&& next.ball_events.len() == tally.ball_events.len() + ball_hits
            &&& next.car_events.len() == tally.car_events.len() + car_hits
            &&& next.ball_events.take(tally.ball_events.len() as int) == tally.ball_events
            &&& next.car_events.take(tally.car_events.len() as int) == tally.car_events
            &&& next.hits.len() == tally.hits.len()
            &&& (forall|k: int| 0 <= k < events.len() ==> !(#[trigger] events[k] matches ArenaEvent::CarHitBall(e) && e.car_idx == car))
                ==> next.hits[car] == tally.hits[car]
        }),
    decreases events.len(),
{
    let next = tally.heard_all(events, tick_count, ball_pos);
    if events.len() > 0 {
        let before = tally.heard_all(events.drop_last(), tick_count, ball_pos);
        law_every_event_is_heard_once(tally, events.drop_last(), tick_count, ball_pos, car);
        law_an_event_is_heard_once(before, events.last(), tick_count, ball_pos);
        let (n, m) = (tally.ball_events.len() as int, tally.car_events.len() as int);
        assert(next.ball_events.take(n) =~= before.ball_events.take(n));
        assert(next.car_events.take(m) =~= before.car_events.take(m));
        if forall|k: int| 0 <= k < events.len() ==> !(#[trigger] events[k] matches ArenaEvent::CarHitBall(e) && e.car_idx == car) {
            assert forall|k: int| 0 <= k < events.drop_last().len() implies !(#[trigger] events.drop_last()[k] matches ArenaEvent::CarHitBall(
                e,
            ) && e.car_idx == car) by {
                assert(events.drop_last()[k] == events[k]);
            }
            assert(!(events[events.len() - 1] matches ArenaEvent::CarHitBall(e) && e.car_idx == car));
        }
    } else {
        assert(next.ball_events.take(tally.ball_events.len() as int) =~= tally.ball_events);
        assert(next.car_events.take(tally.car_events.len() as int) =~= tally.car_events);
    }
}

/// A step of some ticks is as many ticks of the physics, each from where the one before led.
pub proof fn law_a_step_is_so_many_ticks<P: Physics>(
    physics: &P,
    arena: Arena,
    tally: Tally,
    ticks: nat,
    after: Arena,
    told: Tally,
) -> (way: Seq<Arena>)
    requires
        ticked(physics, arena, tally, ticks, after, told),
    ensures
        way.len() == ticks + 1,
        way[0] == arena,
        way[ticks as int] == after,
        forall|k: int|
            #![trigger way[k]]
            0 <= k < ticks ==> exists|events: Vec<ArenaEvent>| #[trigger]
                call_ensures(P::step_tick, (physics, way[k]), (way[k + 1], events)),
        rolled(physics, arena, ticks, after),
    decreases ticks,
{
    if ticks == 0 {
        seq![arena]
    } else {
        let (next, events) = choose|next: Arena, events: Vec<ArenaEvent>| #[trigger]
            call_ensures(P::step_tick, (physics, arena), (next, events)) && ticked(
                physics,
                next,
                tally.heard_all(events@, next.tick_count, next.ball.phys.pos),
                (ticks - 1) as nat,
                after,
                told,
            );
        let rest = law_a_step_is_so_many_ticks(
            physics,
            next,
            tally.heard_all(events@, next.tick_count, next.ball.phys.pos),
            (ticks - 1) as nat,
            after,
            told,
        );
        let way = seq![arena] + rest;
        assert forall|k: int|
            #![trigger way[k]]
            0 <= k < ticks implies exists|e: Vec<ArenaEvent>| #[trigger]
            call_ensures(P::step_tick, (physics, way[k]), (way[k + 1], e)) by {
            if k == 0 {
                assert(way[1] == rest[0]);
                assert(call_ensures(P::step_tick, (physics, way[k]), (way[k + 1], events)));
            } else {
                assert(way[k] == rest[k - 1] && way[k + 1] == rest[k]);
            }
        }
        way
    }
}

/// The ball goes through as many ticks of the physics as there are whole ones in a tick of a step, at 120 a second, and through at least
/// one.
pub proof fn law_whole_ticks_of_the_physics(arena: RsBallArena)
    requires
        arena.tick_time.finite(),
        0real < real_value(arena.tick_time) <= 1000real,
    ensures
        ({
            let x = 120real * real_value(arena.tick_time);
            let n = arena.scale() as real;
            &&& n >= 1real
            &&& n <= 1real || n <= x + 1real / 100real
            &&& x < n + 1real + 1real / 100real
        }),
{
    lemma2_to64();
    lemma_units();
    let rate = Single { bits: PHYSICS_RATE };
    lemma_constant(PHYSICS_RATE, 0xf0_0000, 17, 0x2_0000);
    assert(within(rate, 120real, 0real));
    let t = real_value(arena.tick_time);
    assert(slack(120real, 0real, 1000real, 0real) <= 1real / 100real && (120real + 0real) * (1000real + 0real) == 120000real)
        by (nonlinear_arith);
    lemma_times(rate, 120real, 0real, arena.tick_time, t, 0real, 120real, 1000real, 1real / 100real);
    let p = rate.times(arena.tick_time);
    lemma_value(p);
    lemma_value(rate);
    lemma_value(arena.tick_time);
    law_product_sign(rate, arena.tick_time);
    assert(!p.negative());
    let (v, w) = (p.value(), pow2(149) as int);
    let q = v / w;
    assert(q * w <= v < q * w + w) by (nonlinear_arith)
        requires
            q == v / w,
            w > 0,
    ;
    let one = 0x20_0000_0000_0000_0000_0000_0000_0000_0000_0000int;
    assert(w == one);
    assert(q as real <= v as real / units() && v as real / units() < q as real + 1real) by {
        assert(q * one <= v < q * one + one);
    }
}

/// A step does not depend on what the step before listed, and goes through as many ticks of the physics as its ticks times the scale; without
/// ticks it only forgets what was listed.
pub proof fn law_a_step_starts_a_new_list<P: Physics>(physics: &P, a: RsArena, b: RsArena, ticks: nat, after: RsArena) -> (way: Seq<
    Arena,
>)
    requires
        b.arena == a.arena,
        b.ball_hit_infos@ == a.ball_hit_infos@,
        b.tick_rate_scale == a.tick_rate_scale,
        stepped(physics, a, ticks, after),
    ensures
        stepped(physics, b, ticks, after),
        way.len() == ticks * a.tick_rate_scale + 1,
        way[0] == a.arena && way.last() == after.arena,
        forall|k: int|
            #![trigger way[k]]
            0 <= k < way.len() - 1 ==> exists|events: Vec<ArenaEvent>| #[trigger]
                call_ensures(P::step_tick, (physics, way[k]), (way[k + 1], events)),
        ticks == 0 ==> {
            &&& after.arena == a.arena
            &&& after.last_car_hit_ball_events@.len() == 0 && after.last_car_hit_car_events@.len() == 0
            &&& after.ball_hit_infos@ == a.ball_hit_infos@
        },
        after.tick_rate_scale == a.tick_rate_scale,
{
    let silence = Tally { ball_events: Seq::empty(), car_events: Seq::empty(), ..a.tally() };
    assert(silence == (Tally { ball_events: Seq::empty(), car_events: Seq::empty(), ..b.tally() }));
    let n = ticks * a.tick_rate_scale as nat;
    assert(ticks == 0 ==> n == 0) by (nonlinear_arith)
        requires
            n == ticks * a.tick_rate_scale as nat,
    ;
    law_a_step_is_so_many_ticks(physics, a.arena, silence, n, after.arena, after.tally())
}

/// Placing a car changes that car and nothing else in the arena, and forgets its last hit of the ball but no other; what the last step listed
/// stays.
pub proof fn law_placing_a_car_forgets_its_hit(before: RsArena, car: int, state: CarState, after: RsArena, other: int)
    requires
        before.arena.with_car_state(car, state, after.arena),
        hit_forgotten(before, car, after),
        0 <= car < before.arena.cars@.len(),
        0 <= other,
        other != car,
    ensures
        after.arena.cars@.len() == before.arena.cars@.len(),
        after.arena.cars@[car].state == state,
        after.arena.cars@[car].info == before.arena.cars@[car].info,
        other < before.arena.cars@.len() ==> after.arena.cars@[other] == before.arena.cars@[other],
        after.arena.ball == before.arena.ball && after.arena.tick_count == before.arena.tick_count,
        after.ball_hit_infos@.len() == before.ball_hit_infos@.len(),
        car < before.ball_hit_infos@.len() ==> !after.ball_hit_infos@[car].is_valid,
        other < before.ball_hit_infos@.len() ==> after.ball_hit_infos@[other] == before.ball_hit_infos@[other],
        after.last_car_hit_ball_events@ == before.last_car_hit_ball_events@,
        after.last_car_hit_car_events@ == before.last_car_hit_car_events@,
{
}

/// A kickoff forgets the last hits of all cars; it uses a seed that is not negative, and chance without one.
pub proof fn law_a_kickoff_forgets_all_hits<P: Physics>(physics: &P, before: RsArena, seed: i64, after: RsArena, car: int)
    requires
        kicked_off(physics, before, seed, after),
        0 <= car < before.ball_hit_infos@.len(),
    ensures
        after.ball_hit_infos@.len() == before.ball_hit_infos@.len(),
        !after.ball_hit_infos@[car].is_valid,
        seed >= 0 ==> call_ensures(P::kickoff, (physics, before.arena, Some(seed as u64)), after.arena),
        seed < 0 ==> call_ensures(P::kickoff, (physics, before.arena, None), after.arena),
        after.last_car_hit_ball_events@ == before.last_car_hit_ball_events@,
        after.last_car_hit_car_events@ == before.last_car_hit_car_events@,
{
}

/// A new car comes last, with the next number and without a hit; the cars that were there keep their state and their hits.
pub proof fn law_a_new_car_comes_last<P: Physics>(
    physics: &P,
    before: RsArena,
    team: Team,
    config: CarBodyConfig,
    after: RsArena,
    car: int,
)
    requires
        car_added(physics, before, team, config, after),
        before.ball_hit_infos@.len() == before.arena.cars@.len() <= usize::MAX,
        0 <= car < before.arena.cars@.len(),
    ensures
        ({
            let n = before.arena.cars@.len() as int;
            &&& after.arena.cars@.len() == n + 1
            &&& after.arena.cars@[n].info.idx == n && after.arena.cars@[n].info.team == team
            &&& after.arena.cars@[n].info.config == config
            &&& after.ball_hit_infos@.len() == n + 1
            &&& !after.ball_hit_infos@[n].is_valid
            &&& after.arena.cars@[car] == before.arena.cars@[car]
            &&& after.ball_hit_infos@[car] == before.ball_hit_infos@[car]
            &&& after.arena.ball == before.arena.ball
        }),
{
    let n = before.arena.cars@.len() as int;
    assert(after.arena.cars@.drop_last()[car] == after.arena.cars@[car]);
}

/// Nothing is told of a car that has not hit the ball: in a new arena, after its hit was forgotten, or without such a car. What is told of
/// another is what was kept.
pub proof fn law_hits_are_told_as_they_are_kept(arena: Arena, scale: u32, new: RsArena, before: RsArena, car: int, after: RsArena, other: int)
    requires
        fresh(arena, scale, new),
        hit_forgotten(before, car, after),
        0 <= car,
        0 <= other,
    ensures
        !hit_of(new, other).is_valid,
        new.last_car_hit_ball_events@.len() == 0 && new.last_car_hit_car_events@.len() == 0,
        new.arena == arena && new.tick_rate_scale == scale,
        !hit_of(after, car).is_valid,
        other != car ==> hit_of(after, other) == hit_of(before, other),
        other >= before.ball_hit_infos@.len() ==> !hit_of(before, other).is_valid,
        other < before.ball_hit_infos@.len() ==> {
            let (hit, kept) = (hit_of(before, other), before.ball_hit_infos@[other]);
            &&& hit.is_valid == kept.is_valid
            &&& hit.relative_pos_on_ball == kept.relative_pos_on_ball
            &&& hit.ball_pos == kept.ball_pos
            &&& hit.extra_hit_vel == kept.extra_hit_vel
            &&& hit.tick_count_when_hit == kept.tick_count_when_hit
            &&& hit.tick_count_when_extra_impulse_applied == kept.tick_count_when_extra_impulse_applied
        },
{
}

} // verus!
