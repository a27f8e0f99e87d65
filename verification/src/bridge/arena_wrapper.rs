//! Arenas that collect what happens while they are stepped.
use crate::bridge::conversions::vec3a_to_ffi;
use crate::bridge::ffi::{FfiCarHitBallEvent, FfiCarHitCarEvent, FfiVec};
use crate::math::Vec3A;
use crate::sim::arena::base::{Arena, ArenaEvent, Physics};
use crate::sim::types::GameMode;
use crate::single::{Single, ONE_BITS};
use vstd::prelude::*;

verus! {

/// The ticks per second of the physics, 120.
pub const PHYSICS_RATE: u32 = 0x42f0_0000;

/// The last hit of the ball by a car.
#[derive(Clone, Copy, Debug, PartialEq, Eq, Structural)]
pub struct SynthBallHitInfo {
    pub is_valid: bool,
    pub relative_pos_on_ball: FfiVec,
    pub ball_pos: FfiVec,
    pub extra_hit_vel: FfiVec,
    pub tick_count_when_hit: u64,
    pub tick_count_when_extra_impulse_applied: u64,
}

/// Before any hit.
pub open spec fn no_synth_hit() -> SynthBallHitInfo {
    let zero = FfiVec { x: Single { bits: 0 }, y: Single { bits: 0 }, z: Single { bits: 0 } };
    SynthBallHitInfo {
        is_valid: false,
        relative_pos_on_ball: zero,
        ball_pos: zero,
        extra_hit_vel: zero,
        tick_count_when_hit: 0,
        tick_count_when_extra_impulse_applied: 0,
    }
}

impl Default for SynthBallHitInfo {
    fn default() -> (r: SynthBallHitInfo)
        ensures
            r == no_synth_hit(),
    {
        SynthBallHitInfo {
            is_valid: false,
            relative_pos_on_ball: FfiVec::default(),
            ball_pos: FfiVec::default(),
            extra_hit_vel: FfiVec::default(),
            tick_count_when_hit: 0,
            tick_count_when_extra_impulse_applied: 0,
        }
    }
}

/// An arena, with the last hit of each car and the events of the last step.
#[derive(Debug)]
pub struct RsArena {
    pub arena: Arena,
    /// The last hit of each car, by the index of the car.
    pub ball_hit_infos: Vec<SynthBallHitInfo>,
    /// The hits of the ball in the last step, over all its ticks.
    pub last_car_hit_ball_events: Vec<FfiCarHitBallEvent>,
    /// The hits of cars in the last step, over all its ticks.
    pub last_car_hit_car_events: Vec<FfiCarHitCarEvent>,
    /// Ticks of the physics per tick of a step.
    pub tick_rate_scale: u32,
}

/// What an [`RsArena`] has collected.
pub ghost struct Tally {
    pub hits: Seq<SynthBallHitInfo>,
    pub ball_events: Seq<FfiCarHitBallEvent>,
    pub car_events: Seq<FfiCarHitCarEvent>,
}

/// What is kept of a hit at `contact_point`, with the ball at `ball_pos`.
pub open spec fn hit_info(contact_point: Vec3A, extra_hit_vel: Vec3A, tick_count: u64, ball_pos: Vec3A) -> SynthBallHitInfo {
    SynthBallHitInfo {
        is_valid: true,
        relative_pos_on_ball: vec3a_to_ffi(contact_point.minus(ball_pos)),
        ball_pos: vec3a_to_ffi(ball_pos),
        extra_hit_vel: vec3a_to_ffi(extra_hit_vel),
        tick_count_when_hit: tick_count,
        tick_count_when_extra_impulse_applied: tick_count,
    }
}

impl Tally {
    /// After an event: a hit of the ball replaces the last hit of the car, if that car is known,
    /// and is listed; a hit of a car is listed; nothing else counts.
    pub open spec fn heard(self, event: ArenaEvent, tick_count: u64, ball_pos: Vec3A) -> Tally {
        match event {
            ArenaEvent::CarHitBall(e) => Tally {
                hits: if e.car_idx < self.hits.len() {
                    self.hits.update(e.car_idx as int, hit_info(e.contact_point, e.extra_hit_vel, tick_count, ball_pos))
                } else {
                    self.hits
                },
                ball_events: self.ball_events.push(
                    FfiCarHitBallEvent {
                        car_idx: e.car_idx as u32,
                        contact_point: vec3a_to_ffi(e.contact_point),
                        extra_hit_vel: vec3a_to_ffi(e.extra_hit_vel),
                    },
                ),
                car_events: self.car_events,
            },
            ArenaEvent::CarHitCar(e) => Tally {
                car_events: self.car_events.push(
                    FfiCarHitCarEvent {
                        bumper_car_idx: e.bumper_car_idx as u32,
                        victim_car_idx: e.victim_car_idx as u32,
                        contact_point: vec3a_to_ffi(e.contact_point),
                        is_demo: e.is_demo,
                    },
                ),
                ..self
            },
            ArenaEvent::Other => self,
        }
    }

    /// After the events of a tick, in their order.
    pub open spec fn heard_all(self, events: Seq<ArenaEvent>, tick_count: u64, ball_pos: Vec3A) -> Tally
        decreases events.len(),
    {
        if events.len() == 0 {
            self
        } else {
            self.heard_all(events.drop_last(), tick_count, ball_pos).heard(events.last(), tick_count, ball_pos)
        }
    }
}

/// `ticks` ticks of the physics lead from one arena and tally to another. The events of a tick
/// are heard with the tick count and the ball of the arena after the tick.
pub open spec fn ticked<P: Physics>(physics: &P, arena: Arena, tally: Tally, ticks: nat, after: Arena, told: Tally) -> bool
    decreases ticks,
{
    if ticks == 0 {
        after == arena && told == tally
    } else {
        exists|next: Arena, events: Vec<ArenaEvent>| #[trigger]
            call_ensures(P::step_tick, (physics, arena), (next, events)) && ticked(
                physics,
                next,
                tally.heard_all(events@, next.tick_count, next.ball.phys.pos),
                (ticks - 1) as nat,
                after,
                told,
            )
    }
}

/// A step of some ticks leads from an arena to another: the events of the step before are forgotten, and each tick is as many ticks
/// of the physics as the scale says.
pub open spec fn stepped<P: Physics>(physics: &P, before: RsArena, ticks: nat, after: RsArena) -> bool {
    &&& ticked(
        physics,
        before.arena,
        Tally { ball_events: Seq::empty(), car_events: Seq::empty(), ..before.tally() },
        ticks * before.tick_rate_scale as nat,
        after.arena,
        after.tally(),
    )
    &&& after.tick_rate_scale == before.tick_rate_scale
}

/// An arena with nothing in it, to stand in while the arena is handed to the physics.
pub fn vacant(arena: &Arena) -> (r: Arena)
    ensures
        r.cars@.len() == 0,
        r.boost_pads@.len() == 0,
        r.game_mode == arena.game_mode,
        r.mutators == arena.mutators,
        r.tick_count == arena.tick_count,
        r.ball == arena.ball,
{
    Arena {
        game_mode: arena.game_mode,
        mutators: arena.mutators,
        tick_count: arena.tick_count,
        ball: arena.ball,
        cars: Vec::new(),
        boost_pads: Vec::new(),
    }
}

/// One tick of the physics.
fn tick<P: Physics>(physics: &P, arena: &mut Arena) -> (events: Vec<ArenaEvent>)
    ensures
        call_ensures(P::step_tick, (physics, *old(arena)), (*final(arena), events)),
{
    let mut before = vacant(&*arena);
    std::mem::swap(&mut before, arena);
    let (after, events) = physics.step_tick(before);
    *arena = after;
    events
}

impl RsArena {
    pub open spec fn tally(self) -> Tally {
        Tally {
            hits: self.ball_hit_infos@,
            ball_events: self.last_car_hit_ball_events@,
            car_events: self.last_car_hit_car_events@,
        }
    }

    pub fn new(arena: Arena, tick_rate_scale: u32) -> (r: RsArena)
        ensures
            r.arena == arena,
            r.tick_rate_scale == tick_rate_scale,
            r.tally() == (Tally {
                hits: Seq::new(arena.cars@.len(), |i: int| no_synth_hit()),
                ball_events: Seq::empty(),
                car_events: Seq::empty(),
            }),
    {
        let mut r = RsArena {
            arena,
            ball_hit_infos: Vec::new(),
            last_car_hit_ball_events: Vec::new(),
            last_car_hit_car_events: Vec::new(),
            tick_rate_scale,
        };
        r.ensure_ball_hit_info_size();
        r
    }

    /// Hears the events of the tick that led to the arena as it is.
    pub fn collect_events(&mut self, events: &Vec<ArenaEvent>)
        ensures
            final(self).tally() == old(self).tally().heard_all(
                events@,
                old(self).arena.tick_count,
                old(self).arena.ball.phys.pos,
            ),
            final(self).arena == old(self).arena,
            final(self).tick_rate_scale == old(self).tick_rate_scale,
    {
        let tick_count: u64 = self.arena.tick_count;
        let ball_pos = self.arena.ball.phys.pos;
        let ghost before = *self;
        let mut i: usize = 0;
        while i < events.len()
            invariant
                i <= events@.len(),
                before == *old(self),
                tick_count == before.arena.tick_count,
                ball_pos == before.arena.ball.phys.pos,
                self.arena == before.arena,
                self.tick_rate_scale == before.tick_rate_scale,
                self.tally() == before.tally().heard_all(events@.take(i as int), tick_count, ball_pos),
            decreases events@.len() - i,
        {
            let ghost here = self.tally();
            match events[i] {
                ArenaEvent::CarHitBall(e) => {
                    if e.car_idx < self.ball_hit_infos.len() {
                        let contact_point = vec3a_to_ffi(e.contact_point);
                        let ball_pos_ffi = vec3a_to_ffi(ball_pos);
                        self.ball_hit_infos.set(
                            e.car_idx,
                            SynthBallHitInfo {
                                is_valid: true,
                                relative_pos_on_ball: FfiVec {
                                    x: contact_point.x.minus(ball_pos_ffi.x),
                                    y: contact_point.y.minus(ball_pos_ffi.y),
                                    z: contact_point.z.minus(ball_pos_ffi.z),
                                },
                                ball_pos: ball_pos_ffi,
                                extra_hit_vel: vec3a_to_ffi(e.extra_hit_vel),
                                tick_count_when_hit: tick_count,
                                tick_count_when_extra_impulse_applied: tick_count,
                            },
                        );
                    }
                    self.last_car_hit_ball_events.push(
                        FfiCarHitBallEvent {
                            car_idx: e.car_idx as u32,
                            contact_point: vec3a_to_ffi(e.contact_point),
                            extra_hit_vel: vec3a_to_ffi(e.extra_hit_vel),
                        },
                    );
                },
                ArenaEvent::CarHitCar(e) => {
                    self.last_car_hit_car_events.push(
                        FfiCarHitCarEvent {
                            bumper_car_idx: e.bumper_car_idx as u32,
                            victim_car_idx: e.victim_car_idx as u32,
                            contact_point: vec3a_to_ffi(e.contact_point),
                            is_demo: e.is_demo,
                        },
                    );
                },
                ArenaEvent::Other => {},
            }
            proof {
                let heard = here.heard(events@[i as int], tick_count, ball_pos);
                assert(self.tally().hits =~= heard.hits);
                assert(self.tally().ball_events =~= heard.ball_events);
                assert(self.tally().car_events =~= heard.car_events);
                assert(events@.take(i + 1).drop_last() =~= events@.take(i as int));
                assert(events@.take(i + 1).last() == events@[i as int]);
            }
            i = i + 1;
        }
        proof {
            assert(events@.take(i as int) =~= events@);
        }
    }

    /// Steps the arena by a number of ticks, each of `tick_rate_scale` ticks of the physics, and
    /// collects what happens. The events of the step before are forgotten.
    pub fn step<P: Physics>(&mut self, physics: &P, ticks: u32)
        requires
            ticks * old(self).tick_rate_scale <= u32::MAX,
        ensures
            stepped(physics, *old(self), ticks as nat, *final(self)),
    {
        let actual_ticks: u32 = ticks * self.tick_rate_scale;
        self.last_car_hit_ball_events.clear();
        self.last_car_hit_car_events.clear();
        let ghost start = self.arena;
        let ghost silence = Tally { ball_events: Seq::empty(), car_events: Seq::empty(), ..old(self).tally() };
        proof {
            assert(self.tally().ball_events =~= silence.ball_events);
            assert(self.tally().car_events =~= silence.car_events);
        }
        let mut left: u32 = actual_ticks;
        while left > 0
            invariant
                left <= actual_ticks,
                self.tick_rate_scale == old(self).tick_rate_scale,
                forall|after: Arena, told: Tally| #[trigger]
                    ticked(physics, self.arena, self.tally(), left as nat, after, told) ==> ticked(
                        physics,
                        start,
                        silence,
                        actual_ticks as nat,
                        after,
                        told,
                    ),
            decreases left,
        {
            let ghost here = self.arena;
            let ghost heard = self.tally();
            let ghost ahead = left as nat;
            let events = tick(physics, &mut self.arena);
            self.collect_events(&events);
            left = left - 1;
            proof {
                assert forall|after: Arena, told: Tally| #[trigger]
                    ticked(physics, self.arena, self.tally(), left as nat, after, told) implies ticked(
                    physics,
                    start,
                    silence,
                    actual_ticks as nat,
                    after,
                    told,
                ) by {
                    assert(call_ensures(P::step_tick, (physics, here), (self.arena, events)));
                    assert(ticked(physics, here, heard, ahead, after, told));
                }
            }
        }
        proof {
            assert(ticked(physics, self.arena, self.tally(), 0, self.arena, self.tally()));
        }
    }

    /// Makes room for the last hit of every car.
    pub fn ensure_ball_hit_info_size(&mut self)
        ensures
            final(self).tally() == (Tally {
                hits: old(self).tally().hits + Seq::new(
                    if old(self).tally().hits.len() < old(self).arena.cars@.len() {
                        (old(self).arena.cars@.len() - old(self).tally().hits.len()) as nat
                    } else {
                        0
                    },
                    |i: int| no_synth_hit(),
                ),
                ..old(self).tally()
            }),
            final(self).arena == old(self).arena,
            final(self).tick_rate_scale == old(self).tick_rate_scale,
    {
        let num_cars: usize = self.arena.num_cars();
        let ghost before = *self;
        let ghost known = self.ball_hit_infos@.len();
        while self.ball_hit_infos.len() < num_cars
            invariant
                before == *old(self),
                known == before.ball_hit_infos@.len(),
                num_cars == before.arena.cars@.len(),
                self.arena == before.arena,
                self.tick_rate_scale == before.tick_rate_scale,
                self.last_car_hit_ball_events == before.last_car_hit_ball_events,
                self.last_car_hit_car_events == before.last_car_hit_car_events,
                known <= self.ball_hit_infos@.len(),
                known < self.ball_hit_infos@.len() ==> self.ball_hit_infos@.len() <= num_cars,
                self.ball_hit_infos@ == before.ball_hit_infos@ + Seq::new(
                    (self.ball_hit_infos@.len() - known) as nat,
                    |i: int| no_synth_hit(),
                ),
            decreases num_cars - self.ball_hit_infos@.len(),
        {
            let ghost here = self.ball_hit_infos@;
            self.ball_hit_infos.push(SynthBallHitInfo::default());
            proof {
                assert(self.ball_hit_infos@ =~= before.ball_hit_infos@ + Seq::new(
                    (here.len() + 1 - known) as nat,
                    |i: int| no_synth_hit(),
                ));
            }
        }
    }
}

/// An arena without cars, to predict the way of the ball.
#[derive(Debug)]
pub struct RsBallArena {
    pub arena: Arena,
    /// Seconds per tick of a step.
    pub tick_time: Single,
}

/// `ticks` ticks of the physics lead from one arena to another.
pub open spec fn rolled<P: Physics>(physics: &P, arena: Arena, ticks: nat, after: Arena) -> bool
    decreases ticks,
{
    if ticks == 0 {
        after == arena
    } else {
        exists|next: Arena, events: Vec<ArenaEvent>| #[trigger]
            call_ensures(P::step_tick, (physics, arena), (next, events)) && rolled(
                physics,
                next,
                (ticks - 1) as nat,
                after,
            )
    }
}

impl RsBallArena {
    /// An arena for the ball alone, which is in the void: without walls or boost pads, whatever the
    /// game mode.
    pub fn new<P: Physics>(physics: &P, game_mode: GameMode, tick_rate: Single) -> (r: RsBallArena)
        ensures
            call_ensures(P::arena, (physics, GameMode::TheVoid), r.arena),
            r.tick_time == (Single { bits: ONE_BITS }).over(tick_rate),
    {
        RsBallArena { arena: physics.arena(GameMode::TheVoid), tick_time: Single::one().over(tick_rate) }
    }

    /// The whole ticks of the physics in a tick of a step, and at least one.
    pub open spec fn scale(self) -> int {
        let whole = (Single { bits: PHYSICS_RATE }).times(self.tick_time).truncated();
        if whole < 1 {
            1
        } else {
            whole
        }
    }

    /// The ticks of the physics in a step of some ticks.
    pub fn physics_ticks(&self, ticks: u32) -> (r: u64)
        ensures
            r == ticks * self.scale(),
    {
        let whole: u32 = Single::of(PHYSICS_RATE).times(self.tick_time).truncate();
        let scale: u32 = if whole < 1 { 1 } else { whole };
        proof {
            assert(ticks * scale <= u32::MAX * u32::MAX) by (nonlinear_arith)
                requires
                    ticks <= u32::MAX,
                    scale <= u32::MAX,
            ;
        }
        (ticks as u64) * (scale as u64)
    }

    pub fn step<P: Physics>(&mut self, physics: &P, ticks: u32)
        requires
            ticks * old(self).scale() <= u32::MAX,
        ensures
            rolled(physics, old(self).arena, (ticks * old(self).scale()) as nat, final(self).arena),
            final(self).tick_time == old(self).tick_time,
    {
        let actual_ticks: u32 = self.physics_ticks(ticks) as u32;
        let ghost start = self.arena;
        let mut left: u32 = actual_ticks;
        while left > 0
            invariant
                left <= actual_ticks,
                self.tick_time == old(self).tick_time,
                forall|after: Arena| #[trigger]
                    rolled(physics, self.arena, left as nat, after) ==> rolled(
                        physics,
                        start,
                        actual_ticks as nat,
                        after,
                    ),
            decreases left,
        {
            let ghost here = self.arena;
            let ghost ahead = left as nat;
            let _events = tick(physics, &mut self.arena);
            left = left - 1;
            proof {
                assert forall|after: Arena| #[trigger]
                    rolled(physics, self.arena, left as nat, after) implies rolled(
                    physics,
                    start,
                    actual_ticks as nat,
                    after,
                ) by {
                    assert(call_ensures(P::step_tick, (physics, here), (self.arena, _events)));
                    assert(rolled(physics, here, ahead, after));
                }
            }
        }
        proof {
            assert(rolled(physics, self.arena, 0, self.arena));
        }
    }
}

/// A tick keeps as many last hits as there were.
pub proof fn lemma_hits_len(tally: Tally, events: Seq<ArenaEvent>, tick_count: u64, ball_pos: Vec3A)
    ensures
        tally.heard_all(events, tick_count, ball_pos).hits.len() == tally.hits.len(),
    decreases events.len(),
{
    if events.len() > 0 {
        lemma_hits_len(tally, events.drop_last(), tick_count, ball_pos);
    }
}

/// However many ticks pass, and whatever happens in them, as many last hits are kept as there
/// were.
pub proof fn law_step_keeps_hit_count<P: Physics>(
    physics: &P,
    arena: Arena,
    tally: Tally,
    ticks: nat,
    after: Arena,
    told: Tally,
)
    requires
        ticked(physics, arena, tally, ticks, after, told),
    ensures
        told.hits.len() == tally.hits.len(),
    decreases ticks,
{
    if ticks > 0 {
        let (next, events) = choose|next: Arena, events: Vec<ArenaEvent>| #[trigger]
            call_ensures(P::step_tick, (physics, arena), (next, events)) && ticked(
                physics,
                next,
                tally.heard_all(events@, next.tick_count, next.ball.phys.pos),
                (ticks - 1) as nat,
                after,
                told,
            );
        lemma_hits_len(tally, events@, next.tick_count, next.ball.phys.pos);
        law_step_keeps_hit_count(
            physics,
            next,
            tally.heard_all(events@, next.tick_count, next.ball.phys.pos),
            (ticks - 1) as nat,
            after,
            told,
        );
    }
}

/// Steps add up: a step of `first` ticks and then one of `second` ticks, without the events
/// being forgotten between them, is a step of `first + second` ticks.
pub proof fn law_ticks_add_up<P: Physics>(
    physics: &P,
    arena: Arena,
    tally: Tally,
    first: nat,
    middle: Arena,
    heard: Tally,
    second: nat,
    after: Arena,
    told: Tally,
)
    requires
        ticked(physics, arena, tally, first, middle, heard),
        ticked(physics, middle, heard, second, after, told),
    ensures
        ticked(physics, arena, tally, first + second, after, told),
    decreases first,
{
    if first > 0 {
        let (next, events) = choose|next: Arena, events: Vec<ArenaEvent>| #[trigger]
            call_ensures(P::step_tick, (physics, arena), (next, events)) && ticked(
                physics,
                next,
                tally.heard_all(events@, next.tick_count, next.ball.phys.pos),
                (first - 1) as nat,
                middle,
                heard,
            );
        let near = tally.heard_all(events@, next.tick_count, next.ball.phys.pos);
        law_ticks_add_up(physics, next, near, (first - 1) as nat, middle, heard, second, after, told);
        assert(call_ensures(P::step_tick, (physics, arena), (next, events)));
        assert((first + second - 1) as nat == (first - 1) as nat + second);
    }
}

} // verus!
