//! The functions that other languages call.
//!
//! An index of a car or a boost pad crosses as 32 bits. Where a function needs the car or the
//! pad to exist, its contract says so.
use crate::bridge::arena_wrapper::{RsArena, RsBallArena, SynthBallHitInfo};
use crate::bridge::conversions::{
    ball_state_to_ffi, car_body_config_to_ffi, car_state_to_ffi, ffi_to_arena_config, ffi_to_ball_state,
    ffi_to_car_body_config, ffi_to_car_state, ffi_to_controls, ffi_to_mutator_config, game_mode_to_u8,
    mutator_config_to_ffi, team_to_u8, u8_to_game_mode, u8_to_team, vec3a_to_ffi,
};
use crate::bridge::ffi::{
    FfiArenaConfig, FfiBallHitInfo, FfiBallState, FfiBoostPadConfig, FfiBoostPadState, FfiCarBodyConfig,
    FfiCarControls, FfiCarHitBallEvent, FfiCarHitCarEvent, FfiCarInfo, FfiCarState, FfiMutatorConfig,
};
use crate::sim::arena::base::{Arena, Physics};
use crate::sim::types::{BoostPadState, CarBodyConfig, CarInfo, CarState, Team};
use crate::single::{Single, ONE_BITS};
use vstd::prelude::*;

pub mod arena_wrapper;
pub mod conversions;
pub mod ffi;
pub mod wrapper_laws;

verus! {

/// A new arena in which nothing has happened.
pub open spec fn fresh(arena: Arena, tick_rate_scale: u32, r: RsArena) -> bool {
    &&& r.arena == arena
    &&& r.tick_rate_scale == tick_rate_scale
    &&& r.ball_hit_infos@ == Seq::new(arena.cars@.len(), |i: int| arena_wrapper::no_synth_hit())
    &&& r.last_car_hit_ball_events@ == Seq::<FfiCarHitBallEvent>::empty()
    &&& r.last_car_hit_car_events@ == Seq::<FfiCarHitCarEvent>::empty()
}

/// What an arena has collected is the same.
pub open spec fn same_collected(before: RsArena, after: RsArena) -> bool {
    &&& after.tick_rate_scale == before.tick_rate_scale
    &&& after.ball_hit_infos@ == before.ball_hit_infos@
    &&& after.last_car_hit_ball_events@ == before.last_car_hit_ball_events@
    &&& after.last_car_hit_car_events@ == before.last_car_hit_car_events@
}

/// The lists of events and the scale are the same.
pub open spec fn same_events(before: RsArena, after: RsArena) -> bool {
    &&& after.tick_rate_scale == before.tick_rate_scale
    &&& after.last_car_hit_ball_events@ == before.last_car_hit_ball_events@
    &&& after.last_car_hit_car_events@ == before.last_car_hit_car_events@
}

/// The last hit of the ball by a car is forgotten, and what else was collected stays.
pub open spec fn hit_forgotten(before: RsArena, car: int, after: RsArena) -> bool {
    &&& after.ball_hit_infos@ == if car < before.ball_hit_infos@.len() {
        before.ball_hit_infos@.update(car, arena_wrapper::no_synth_hit())
    } else {
        before.ball_hit_infos@
    }
    &&& same_events(before, after)
}

/// The game begins anew, with a seed unless it is negative, and the last hits are forgotten.
pub open spec fn kicked_off<P: Physics>(physics: &P, before: RsArena, seed: i64, after: RsArena) -> bool {
    &&& call_ensures(
        P::kickoff,
        (
            physics,
            before.arena,
            if seed < 0 {
                None
            } else {
                Some(seed as u64)
            },
        ),
        after.arena,
    )
    &&& after.ball_hit_infos@ == Seq::new(before.ball_hit_infos@.len(), |i: int| arena_wrapper::no_synth_hit())
    &&& same_events(before, after)
}

/// A car of a team joins, after those that are there, without a hit so far.
pub open spec fn car_added<P: Physics>(physics: &P, before: RsArena, team: Team, config: CarBodyConfig, after: RsArena) -> bool {
    &&& after.arena.cars@.len() == before.arena.cars@.len() + 1
    &&& after.arena.cars@.drop_last() == before.arena.cars@
    &&& after.arena.cars@.last().info == (CarInfo { idx: before.arena.cars@.len() as usize, team, config })
    &&& call_ensures(P::spawn, (physics, &before.arena, team, &config), after.arena.cars@.last().state)
    &&& before.arena.same_but_cars(after.arena)
    &&& after.ball_hit_infos@.len() >= after.arena.cars@.len()
    &&& before.ball_hit_infos@.is_prefix_of(after.ball_hit_infos@)
    &&& forall|i: int|
        before.ball_hit_infos@.len() <= i < after.ball_hit_infos@.len() ==> #[trigger] after.ball_hit_infos@[i]
            == arena_wrapper::no_synth_hit()
    &&& before.ball_hit_infos@.len() <= before.arena.cars@.len() ==> after.ball_hit_infos@.len() == after.arena.cars@.len()
    &&& same_events(before, after)
}

pub fn rs_arena_new<P: Physics>(physics: &P, game_mode: u8) -> (r: Box<RsArena>)
    ensures
        call_ensures(P::arena, (physics, u8_to_game_mode(game_mode)), r.arena),
        fresh(r.arena, 1, *r),
{
    let gm = u8_to_game_mode(game_mode);
    let arena = physics.arena(gm);
    Box::new(RsArena::new(arena, 1))
}

/// An arena with settings, and with the mutators of its game mode.
pub fn rs_arena_new_with_config<P: Physics>(physics: &P, game_mode: u8, config: &FfiArenaConfig) -> (r: Box<RsArena>)
    ensures
        exists|mutators| #[trigger]
            call_ensures(P::mutators, (physics, u8_to_game_mode(game_mode)), mutators) && call_ensures(
                P::arena_with_config,
                (physics, ffi_to_arena_config(u8_to_game_mode(game_mode), mutators, config)),
                r.arena,
            ),
        fresh(r.arena, 1, *r),
{
    let gm = u8_to_game_mode(game_mode);
    let mutators = physics.mutators(gm);
    let arena = physics.arena_with_config(ffi_to_arena_config(gm, mutators, config));
    Box::new(RsArena::new(arena, 1))
}

/// An arena whose ticks are `tick_rate_scale` ticks of the physics.
pub fn rs_arena_new_prediction<P: Physics>(physics: &P, game_mode: u8, tick_rate_scale: u32) -> (r: Box<RsArena>)
    ensures
        call_ensures(P::arena, (physics, u8_to_game_mode(game_mode)), r.arena),
        fresh(r.arena, tick_rate_scale, *r),
{
    let gm = u8_to_game_mode(game_mode);
    let arena = physics.arena(gm);
    Box::new(RsArena::new(arena, tick_rate_scale))
}

pub fn rs_arena_step<P: Physics>(physics: &P, arena: &mut RsArena, ticks: u32)
    requires
        ticks * old(arena).tick_rate_scale <= u32::MAX,
    ensures
        arena_wrapper::stepped(physics, *old(arena), ticks as nat, *final(arena)),
{
    arena.step(physics, ticks);
}

/// Adds a car, and gives its index. Whether it has hit the ball is known from then on.
pub fn rs_arena_add_car<P: Physics>(physics: &P, arena: &mut RsArena, team: u8, config: &FfiCarBodyConfig) -> (r: u32)
    ensures
        r == old(arena).arena.cars@.len() as u32,
        car_added(physics, *old(arena), u8_to_team(team), ffi_to_car_body_config(config), *final(arena)),
{
    let t = u8_to_team(team);
    let cfg = ffi_to_car_body_config(config);
    let idx: usize = arena.arena.add_car(physics, t, cfg);
    let ghost known = arena.tally();
    arena.ensure_ball_hit_info_size();
    proof {
        assert(arena.tally().ball_events == known.ball_events);
        assert(arena.tally().car_events == known.car_events);
        assert(known.hits.is_prefix_of(arena.tally().hits));
    }
    idx as u32
}

pub fn rs_arena_num_cars(arena: &RsArena) -> (r: u32)
    ensures
        r == arena.arena.cars@.len() as u32,
{
    arena.arena.num_cars() as u32
}

pub fn rs_arena_num_boost_pads(arena: &RsArena) -> (r: u32)
    ensures
        r == arena.arena.boost_pads@.len() as u32,
{
    arena.arena.num_boost_pads() as u32
}

pub fn rs_arena_is_ball_scored<P: Physics>(physics: &P, arena: &RsArena) -> (r: bool)
    ensures
        call_ensures(P::is_ball_scored, (physics, &arena.arena), r),
{
    physics.is_ball_scored(&arena.arena)
}

/// A kickoff, which forgets the last hits. A negative seed stands for none.
pub fn rs_arena_reset_to_random_kickoff<P: Physics>(physics: &P, arena: &mut RsArena, seed: i64)
    ensures
        kicked_off(physics, *old(arena), seed, *final(arena)),
{
    let seed_opt: Option<u64> = if seed < 0 { None } else { Some(seed as u64) };
    let mut before = arena_wrapper::vacant(&arena.arena);
    std::mem::swap(&mut before, &mut arena.arena);
    arena.arena = physics.kickoff(before, seed_opt);
    let count: usize = arena.ball_hit_infos.len();
    let ghost reset = arena.arena;
    let mut i: usize = 0;
    while i < count
        invariant
            i <= count,
            count == arena.ball_hit_infos@.len(),
            count == old(arena).ball_hit_infos@.len(),
            arena.arena == reset,
            same_events(*old(arena), *arena),
            forall|j: int| 0 <= j < i ==> #[trigger] arena.ball_hit_infos@[j] == arena_wrapper::no_synth_hit(),
        decreases count - i,
    {
        arena.ball_hit_infos.set(i, SynthBallHitInfo::default());
        i = i + 1;
    }
    proof {
        assert(arena.ball_hit_infos@ =~= Seq::new(count as nat, |i: int| arena_wrapper::no_synth_hit()));
    }
}

pub fn rs_arena_tick_count(arena: &RsArena) -> (r: u64)
    ensures
        r == arena.arena.tick_count,
{
    arena.arena.tick_count
}

pub fn rs_arena_game_mode(arena: &RsArena) -> (r: u8)
    ensures
        r == game_mode_to_u8(arena.arena.game_mode),
{
    game_mode_to_u8(arena.arena.game_mode)
}

pub fn rs_arena_get_car_state(arena: &RsArena, car_idx: u32) -> (r: FfiCarState)
    requires
        car_idx < arena.arena.cars@.len(),
    ensures
        r == car_state_to_ffi(&arena.arena.cars@[car_idx as int].state),
{
    let state = *arena.arena.get_car_state(car_idx as usize);
    car_state_to_ffi(&state)
}

/// Sets the state of a car, and forgets its last hit.
pub fn rs_arena_set_car_state(arena: &mut RsArena, car_idx: u32, state: &FfiCarState)
    requires
        car_idx < old(arena).arena.cars@.len(),
    ensures
        old(arena).arena.with_car_state(car_idx as int, ffi_to_car_state(state), final(arena).arena),
        hit_forgotten(*old(arena), car_idx as int, *final(arena)),
{
    let rs_state = ffi_to_car_state(state);
    arena.arena.set_car_state(car_idx as usize, rs_state);
    if (car_idx as usize) < arena.ball_hit_infos.len() {
        arena.ball_hit_infos.set(car_idx as usize, SynthBallHitInfo::default());
    }
}

pub fn rs_arena_set_car_controls(arena: &mut RsArena, car_idx: u32, controls: &FfiCarControls)
    requires
        car_idx < old(arena).arena.cars@.len(),
    ensures
        old(arena).arena.with_car_state(
            car_idx as int,
            (CarState {
                controls: ffi_to_controls(controls),
                ..old(arena).arena.cars@[car_idx as int].state
            }),
            final(arena).arena,
        ),
        same_collected(*old(arena), *final(arena)),
{
    let ctrl = ffi_to_controls(controls);
    arena.arena.set_car_controls(car_idx as usize, ctrl);
}

pub fn rs_arena_get_car_info(arena: &RsArena, car_idx: u32) -> (r: FfiCarInfo)
    requires
        car_idx < arena.arena.cars@.len(),
    ensures
        r == (FfiCarInfo {
            idx: arena.arena.cars@[car_idx as int].info.idx as u32,
            team: team_to_u8(arena.arena.cars@[car_idx as int].info.team),
        }),
{
    let info = arena.arena.get_car_info(car_idx as usize);
    FfiCarInfo { idx: info.idx as u32, team: team_to_u8(info.team) }
}

pub fn rs_arena_get_car_body_config(arena: &RsArena, car_idx: u32) -> (r: FfiCarBodyConfig)
    requires
        car_idx < arena.arena.cars@.len(),
    ensures
        r == car_body_config_to_ffi(&arena.arena.cars@[car_idx as int].info.config),
{
    let info = arena.arena.get_car_info(car_idx as usize);
    car_body_config_to_ffi(&info.config)
}

pub fn rs_arena_get_ball_state(arena: &RsArena) -> (r: FfiBallState)
    ensures
        r == ball_state_to_ffi(&arena.arena.ball),
{
    ball_state_to_ffi(&arena.arena.ball)
}

pub fn rs_arena_set_ball_state(arena: &mut RsArena, state: &FfiBallState)
    ensures
        final(arena).arena == (Arena { ball: ffi_to_ball_state(state), ..old(arena).arena }),
        same_collected(*old(arena), *final(arena)),
{
    arena.arena.ball = ffi_to_ball_state(state);
}

pub fn rs_arena_get_boost_pad_state<P: Physics>(physics: &P, arena: &RsArena, idx: u32) -> (r: FfiBoostPadState)
    requires
        idx < arena.arena.boost_pads@.len(),
    ensures
        r.cooldown == arena.arena.boost_pads@[idx as int].state.cooldown,
        call_ensures(P::is_pad_active, (physics, &arena.arena.boost_pads@[idx as int].state), r.is_active),
{
    let state = *arena.arena.get_boost_pad_state(idx as usize);
    FfiBoostPadState { cooldown: state.cooldown, is_active: physics.is_pad_active(&state) }
}

/// Sets the cooldown of a pad; whether it is active follows from that.
pub fn rs_arena_set_boost_pad_state(arena: &mut RsArena, idx: u32, state: &FfiBoostPadState)
    requires
        idx < old(arena).arena.boost_pads@.len(),
    ensures
        old(arena).arena.with_pad_state(
            idx as int,
            (BoostPadState { cooldown: state.cooldown }),
            final(arena).arena,
        ),
        same_collected(*old(arena), *final(arena)),
{
    arena.arena.set_boost_pad_state(idx as usize, BoostPadState { cooldown: state.cooldown });
}

pub fn rs_arena_get_boost_pad_config(arena: &RsArena, idx: u32) -> (r: FfiBoostPadConfig)
    requires
        idx < arena.arena.boost_pads@.len(),
    ensures
        r == (FfiBoostPadConfig {
            pos: vec3a_to_ffi(arena.arena.boost_pads@[idx as int].config.pos),
            is_big: arena.arena.boost_pads@[idx as int].config.is_big,
        }),
{
    let config = arena.arena.get_boost_pad_config(idx as usize);
    FfiBoostPadConfig { pos: vec3a_to_ffi(config.pos), is_big: config.is_big }
}

pub fn rs_arena_get_mutator_config(arena: &RsArena) -> (r: FfiMutatorConfig)
    ensures
        r == mutator_config_to_ffi(&arena.arena.mutators),
{
    mutator_config_to_ffi(&arena.arena.mutators)
}

pub fn rs_arena_set_mutator_config(arena: &mut RsArena, config: &FfiMutatorConfig)
    ensures
        final(arena).arena == (Arena { mutators: ffi_to_mutator_config(config), ..old(arena).arena }),
        same_collected(*old(arena), *final(arena)),
{
    arena.arena.mutators = ffi_to_mutator_config(config);
}

/// The hits of the ball in the last step.
pub fn rs_arena_get_car_hit_ball_events(arena: &RsArena) -> (r: Vec<FfiCarHitBallEvent>)
    ensures
        r@ == arena.last_car_hit_ball_events@,
{
    let mut r: Vec<FfiCarHitBallEvent> = Vec::new();
    let mut i: usize = 0;
    while i < arena.last_car_hit_ball_events.len()
        invariant
            i <= arena.last_car_hit_ball_events@.len(),
            r@ == arena.last_car_hit_ball_events@.take(i as int),
        decreases arena.last_car_hit_ball_events@.len() - i,
    {
        r.push(arena.last_car_hit_ball_events[i]);
        i = i + 1;
        proof {
            assert(r@ =~= arena.last_car_hit_ball_events@.take(i as int));
        }
    }
    proof {
        assert(r@ =~= arena.last_car_hit_ball_events@);
    }
    r
}

/// The hits of cars in the last step.
pub fn rs_arena_get_car_hit_car_events(arena: &RsArena) -> (r: Vec<FfiCarHitCarEvent>)
    ensures
        r@ == arena.last_car_hit_car_events@,
{
    let mut r: Vec<FfiCarHitCarEvent> = Vec::new();
    let mut i: usize = 0;
    while i < arena.last_car_hit_car_events.len()
        invariant
            i <= arena.last_car_hit_car_events@.len(),
            r@ == arena.last_car_hit_car_events@.take(i as int),
        decreases arena.last_car_hit_car_events@.len() - i,
    {
        r.push(arena.last_car_hit_car_events[i]);
        i = i + 1;
        proof {
            assert(r@ =~= arena.last_car_hit_car_events@.take(i as int));
        }
    }
    proof {
        assert(r@ =~= arena.last_car_hit_car_events@);
    }
    r
}

/// A last hit as it crosses.
pub open spec fn told_hit(info: SynthBallHitInfo) -> FfiBallHitInfo {
    FfiBallHitInfo {
        is_valid: info.is_valid,
        relative_pos_on_ball: info.relative_pos_on_ball,
        ball_pos: info.ball_pos,
        extra_hit_vel: info.extra_hit_vel,
        tick_count_when_hit: info.tick_count_when_hit,
        tick_count_when_extra_impulse_applied: info.tick_count_when_extra_impulse_applied,
    }
}

/// The last hit of a car as it crosses.
pub open spec fn hit_of(arena: RsArena, car: int) -> FfiBallHitInfo {
    if car < arena.ball_hit_infos@.len() {
        told_hit(arena.ball_hit_infos@[car])
    } else {
        ffi::no_hit()
    }
}

/// The last hit of a car, and no hit for a car that is not known.
pub fn rs_arena_get_ball_hit_info(arena: &RsArena, car_idx: u32) -> (r: FfiBallHitInfo)
    ensures
        r == hit_of(*arena, car_idx as int),
{
    let idx: usize = car_idx as usize;
    if idx < arena.ball_hit_infos.len() {
        let info = &arena.ball_hit_infos[idx];
        FfiBallHitInfo {
            is_valid: info.is_valid,
            relative_pos_on_ball: info.relative_pos_on_ball,
            ball_pos: info.ball_pos,
            extra_hit_vel: info.extra_hit_vel,
            tick_count_when_hit: info.tick_count_when_hit,
            tick_count_when_extra_impulse_applied: info.tick_count_when_extra_impulse_applied,
        }
    } else {
        FfiBallHitInfo::default()
    }
}

pub fn rs_ball_arena_new<P: Physics>(physics: &P, game_mode: u8, tick_rate: Single) -> (r: Box<RsBallArena>)
    ensures
        call_ensures(P::arena, (physics, crate::sim::types::GameMode::TheVoid), r.arena),
        r.tick_time == (Single { bits: ONE_BITS }).over(tick_rate),
{
    let gm = u8_to_game_mode(game_mode);
    Box::new(RsBallArena::new(physics, gm, tick_rate))
}

pub fn rs_ball_arena_step<P: Physics>(physics: &P, arena: &mut RsBallArena, ticks: u32)
    requires
        ticks * old(arena).scale() <= u32::MAX,
    ensures
        arena_wrapper::rolled(
            physics,
            old(arena).arena,
            (ticks * old(arena).scale()) as nat,
            final(arena).arena,
        ),
        final(arena).tick_time == old(arena).tick_time,
{
    arena.step(physics, ticks);
}

pub fn rs_ball_arena_get_ball_state(arena: &RsBallArena) -> (r: FfiBallState)
    ensures
        r == ball_state_to_ffi(&arena.arena.ball),
{
    ball_state_to_ffi(&arena.arena.ball)
}

pub fn rs_ball_arena_set_ball_state(arena: &mut RsBallArena, state: &FfiBallState)
    ensures
        final(arena).arena == (Arena { ball: ffi_to_ball_state(state), ..old(arena).arena }),
        final(arena).tick_time == old(arena).tick_time,
{
    arena.arena.ball = ffi_to_ball_state(state);
}

/// What is read of a car after its state was set is what was set, but for the fields that are
/// not tracked and the normal of a contact that is not there. The other cars read as before.
pub proof fn law_set_then_get_car_state(before: Arena, car_idx: int, state: FfiCarState, after: Arena, other: int)
    requires
        0 <= car_idx < before.cars@.len(),
        0 <= other < before.cars@.len(),
        before.with_car_state(car_idx, ffi_to_car_state(&state), after),
    ensures
        car_state_to_ffi(&after.cars@[car_idx].state) == (FfiCarState {
            world_contact_normal: if state.has_world_contact {
                state.world_contact_normal
            } else {
                ffi::zero_vec()
            },
            bump_cooldown_other_car_idx_valid: false,
            bump_cooldown_other_car_idx: 0,
            last_extra_hit_tick_valid: false,
            last_extra_hit_tick: 0,
            ..state
        }),
        other != car_idx ==> after.cars@[other] == before.cars@[other],
{
    conversions::law_flat_car_state_round_trip(state);
}

} // verus!
