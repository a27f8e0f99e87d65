use rocketsim::bridge::arena_wrapper::{RsArena, RsBallArena, SynthBallHitInfo};
use rocketsim::bridge::conversions::{
    ball_state_to_ffi, car_body_config_to_ffi, car_state_to_ffi, controls_to_ffi, ffi_to_arena_config,
    ffi_to_ball_state, ffi_to_car_body_config, ffi_to_car_state, ffi_to_controls, ffi_to_mat3a,
    ffi_to_mutator_config, ffi_to_phys, ffi_to_vec3a, game_mode_to_u8, mat3a_to_ffi, mutator_config_to_ffi,
    phys_to_ffi, team_to_u8, u8_to_game_mode, u8_to_team, vec3a_to_ffi,
};
use rocketsim::bridge::ffi::{
    FfiArenaConfig, FfiBallHitInfo, FfiBallState, FfiBoostPadConfig, FfiBoostPadState, FfiCarBodyConfig, FfiCarControls, FfiCarHitBallEvent, FfiCarHitCarEvent, FfiCarInfo, FfiCarState, FfiMutatorConfig, FfiPhysState, FfiRotMat, FfiVec,
};
use rocketsim::bridge::{
    rs_arena_add_car, rs_arena_game_mode, rs_arena_get_ball_hit_info, rs_arena_get_ball_state,
    rs_arena_get_boost_pad_config, rs_arena_get_boost_pad_state, rs_arena_get_car_body_config,
    rs_arena_get_car_hit_ball_events, rs_arena_get_car_hit_car_events, rs_arena_get_car_info,
    rs_arena_get_car_state, rs_arena_get_mutator_config, rs_arena_is_ball_scored, rs_arena_new,
    rs_arena_new_prediction, rs_arena_new_with_config, rs_arena_num_boost_pads, rs_arena_num_cars,
    rs_arena_reset_to_random_kickoff, rs_arena_set_ball_state, rs_arena_set_boost_pad_state,
    rs_arena_set_car_controls, rs_arena_set_car_state, rs_arena_set_mutator_config, rs_arena_step,
    rs_arena_tick_count, rs_ball_arena_get_ball_state, rs_ball_arena_new, rs_ball_arena_set_ball_state,
    rs_ball_arena_step,
};
use rocketsim::math::Vec3A;
use rocketsim::sim::arena::base::{
    Arena, ArenaConfig, ArenaEvent, ArenaMemWeightMode, BoostPad, CarHitBallEvent, CarHitCarEvent, Physics,
};
use rocketsim::sim::types::{BoostPadConfig, BoostPadState, CarBodyConfig, CarState, GameMode, MutatorConfig, Team};
use rocketsim::single::Single;

fn single(x: f32) -> Single {
    Single::of(x.to_bits())
}

fn vec(x: f32, y: f32, z: f32) -> Vec3A {
    Vec3A::new(single(x), single(y), single(z))
}

fn ffi_vec(x: f32, y: f32, z: f32) -> FfiVec {
    FfiVec { x: single(x), y: single(y), z: single(z) }
}

fn ffi_phys(base: f32) -> FfiPhysState {
    FfiPhysState {
        pos: ffi_vec(base, base + 1.0, base + 2.0),
        rot_mat: FfiRotMat {
            forward_x: single(base + 3.0),
            forward_y: single(base + 4.0),
            forward_z: single(base + 5.0),
            right_x: single(base + 6.0),
            right_y: single(base + 7.0),
            right_z: single(base + 8.0),
            up_x: single(base + 9.0),
            up_y: single(base + 10.0),
            up_z: single(base + 11.0),
        },
        vel: ffi_vec(base + 12.0, base + 13.0, base + 14.0),
        ang_vel: ffi_vec(base + 15.0, base + 16.0, base + 17.0),
    }
}

fn ffi_controls(base: f32, jump: bool) -> FfiCarControls {
    FfiCarControls {
        throttle: single(base),
        steer: single(base + 0.1),
        pitch: single(base + 0.2),
        yaw: single(base + 0.3),
        roll: single(base + 0.4),
        jump,
        boost: !jump,
        handbrake: jump,
    }
}

fn ffi_car() -> FfiCarState {
    FfiCarState {
        phys: ffi_phys(100.0),
        controls: ffi_controls(0.5, true),
        prev_controls: ffi_controls(-0.5, false),
        is_on_ground: true,
        wheels_with_contact_0: true,
        wheels_with_contact_1: false,
        wheels_with_contact_2: true,
        wheels_with_contact_3: false,
        has_jumped: true,
        has_double_jumped: false,
        has_flipped: true,
        flip_rel_torque: ffi_vec(0.1, 0.2, 0.3),
        jump_time: single(1.0),
        flip_time: single(2.0),
        is_flipping: false,
        is_jumping: true,
        air_time: single(3.0),
        air_time_since_jump: single(4.0),
        boost_amount: single(33.3),
        time_since_boosted: single(5.0),
        is_boosting: true,
        boosting_time: single(6.0),
        is_supersonic: true,
        supersonic_time: single(7.0),
        handbrake_val: single(0.25),
        is_auto_flipping: false,
        auto_flip_timer: single(8.0),
        auto_flip_torque_scale: single(9.0),
        bump_cooldown_timer: single(10.0),
        has_world_contact: true,
        world_contact_normal: ffi_vec(0.0, 0.6, 0.8),
        is_demoed: false,
        demo_respawn_timer: single(11.0),
        bump_cooldown_other_car_idx_valid: true,
        bump_cooldown_other_car_idx: 3,
        last_extra_hit_tick_valid: true,
        last_extra_hit_tick: 77,
    }
}

fn ffi_ball() -> FfiBallState {
    FfiBallState {
        phys: ffi_phys(-50.0),
        hs_y_target_dir: -1,
        hs_cur_target_speed: single(2900.0),
        hs_time_since_hit: single(0.5),
        ds_charge_level: 2,
        ds_accumulated_hit_force: single(5000.0),
        ds_y_target_dir: 1,
        ds_has_damaged: true,
        ds_last_damage_tick: 1234,
        tick_count_since_kickoff: 99,
        last_extra_hit_tick_valid: true,
        last_extra_hit_tick: 42,
    }
}

fn ffi_body() -> FfiCarBodyConfig {
    FfiCarBodyConfig {
        hitbox_size: ffi_vec(120.507, 86.6994, 38.6591),
        hitbox_pos_offset: ffi_vec(13.8757, 0.0, 20.755),
        front_wheel_radius: single(12.5),
        front_suspension_rest: single(38.755),
        front_connection_offset: ffi_vec(51.25, 25.9, 20.755),
        back_wheel_radius: single(15.0),
        back_suspension_rest: single(37.055),
        back_connection_offset: ffi_vec(-33.75, 29.5, 20.755),
        three_wheels: false,
        dodge_deadzone: single(0.5),
    }
}

fn ffi_mutators() -> FfiMutatorConfig {
    FfiMutatorConfig {
        gravity: ffi_vec(0.0, 0.0, -650.0),
        car_mass: single(180.0),
        ball_mass: single(30.0),
        ball_max_speed: single(6000.0),
        ball_drag: single(0.03),
        jump_accel: single(1458.3),
        jump_immediate_force: single(291.7),
        boost_accel_ground: single(991.7),
        boost_accel_air: single(1058.3),
        boost_used_per_second: single(33.3),
        respawn_delay: single(3.0),
        bump_cooldown_time: single(0.25),
        car_max_boost_amount: single(100.0),
        car_spawn_boost_amount: single(33.0),
        boost_pad_amount_small: single(12.0),
        boost_pad_amount_big: single(100.0),
        boost_pad_cooldown_big: single(10.0),
        boost_pad_cooldown_small: single(4.0),
        ball_hit_extra_force_scale: single(1.0),
        bump_force_scale: single(1.5),
        bump_requires_front_hit: false,
        ball_radius: single(91.25),
        unlimited_flips: true,
        unlimited_double_jumps: false,
        recharge_boost_enabled: true,
        recharge_boost_per_second: single(10.0),
        recharge_boost_delay: single(0.25),
        demo_mode: 1,
        enable_team_demos: true,
        goal_base_threshold_y: single(5124.25),
    }
}

/// Each tick moves the ball one unit along x. On the ticks 2 and 3 a car hits the ball, and on
/// the tick 3 cars hit each other.
struct Toy;

impl Physics for Toy {
    fn arena(&self, game_mode: GameMode) -> Arena {
        Arena {
            game_mode,
            mutators: self.mutators(game_mode),
            tick_count: 0,
            ball: ffi_to_ball_state(&ffi_ball()),
            cars: Vec::new(),
            boost_pads: vec![BoostPad {
                config: BoostPadConfig { pos: vec(1.0, 2.0, 3.0), is_big: true },
                state: BoostPadState { cooldown: single(0.0) },
            }],
        }
    }

    fn arena_with_config(&self, config: ArenaConfig) -> Arena {
        let mut arena = self.arena(config.game_mode);
        arena.mutators = config.mutators;
        arena.ball.phys.pos = config.max_pos;
        arena
    }

    fn mutators(&self, game_mode: GameMode) -> MutatorConfig {
        let mut m = ffi_to_mutator_config(&ffi_mutators());
        if game_mode == GameMode::Snowday {
            m.ball_radius = single(114.25);
        }
        m
    }

    fn spawn(&self, arena: &Arena, _team: Team, _config: &CarBodyConfig) -> CarState {
        let mut state = ffi_to_car_state(&ffi_car());
        state.boost = Single::from_u64(arena.cars.len() as u64);
        state
    }

    fn step_tick(&self, mut arena: Arena) -> (Arena, Vec<ArenaEvent>) {
        arena.tick_count += 1;
        arena.ball.phys.pos.x = arena.ball.phys.pos.x.plus(Single::one());
        let mut events = vec![ArenaEvent::Other];
        if arena.tick_count == 2 || arena.tick_count == 3 {
            events.push(ArenaEvent::CarHitBall(CarHitBallEvent {
                car_idx: (arena.tick_count - 2) as usize,
                contact_point: vec(10.0, 20.0, 30.0),
                extra_hit_vel: vec(1.0, 2.0, 3.0),
            }));
        }
        if arena.tick_count == 3 {
            events.push(ArenaEvent::CarHitCar(CarHitCarEvent {
                bumper_car_idx: 1,
                victim_car_idx: 0,
                contact_point: vec(4.0, 5.0, 6.0),
                is_demo: true,
            }));
            events.push(ArenaEvent::CarHitBall(CarHitBallEvent {
                car_idx: 9,
                contact_point: vec(0.0, 0.0, 0.0),
                extra_hit_vel: vec(0.0, 0.0, 0.0),
            }));
        }
        (arena, events)
    }

    fn kickoff(&self, mut arena: Arena, seed: Option<u64>) -> Arena {
        arena.ball.phys.pos = vec(0.0, 0.0, 93.15);
        arena.ball.phys.vel.x = match seed {
            Some(seed) => Single::from_u64(seed),
            None => single(-1.0),
        };
        arena
    }

    fn is_ball_scored(&self, arena: &Arena) -> bool {
        arena.ball.phys.pos.y.gt(single(5124.25))
    }

    fn is_pad_active(&self, pad: &BoostPadState) -> bool {
        pad.cooldown.le(Single::zero())
    }
}

fn arena_with_two_cars() -> Box<RsArena> {
    let mut arena = rs_arena_new(&Toy, 0);
    assert_eq!(rs_arena_add_car(&Toy, &mut arena, 0, &ffi_body()), 0);
    assert_eq!(rs_arena_add_car(&Toy, &mut arena, 1, &ffi_body()), 1);
    arena
}

#[test]
fn numbers_stand_for_game_modes_and_teams() {
    let modes = [
        GameMode::Soccar,
        GameMode::Hoops,
        GameMode::Heatseeker,
        GameMode::Snowday,
        GameMode::Dropshot,
        GameMode::TheVoid,
    ];
    for (i, &mode) in modes.iter().enumerate() {
        assert_eq!(u8_to_game_mode(i as u8), mode);
        assert_eq!(game_mode_to_u8(mode), i as u8);
    }
    assert_eq!(u8_to_game_mode(200), GameMode::Soccar);
    assert_eq!(u8_to_team(0), Team::Blue);
    assert_eq!(u8_to_team(1), Team::Orange);
    assert_eq!(u8_to_team(7), Team::Blue);
    assert_eq!(team_to_u8(Team::Orange), 1);
}

#[test]
fn states_come_back_unchanged() {
    let v = ffi_vec(1.0, 2.0, 3.0);
    assert_eq!(vec3a_to_ffi(ffi_to_vec3a(&v)), v);
    let p = ffi_phys(7.0);
    assert_eq!(phys_to_ffi(&ffi_to_phys(&p)), p);
    assert_eq!(mat3a_to_ffi(ffi_to_mat3a(&p.rot_mat)), p.rot_mat);
    let c = ffi_controls(0.25, true);
    assert_eq!(controls_to_ffi(&ffi_to_controls(&c)), c);
    assert_eq!(ball_state_to_ffi(&ffi_to_ball_state(&ffi_ball())), ffi_ball());
    assert_eq!(car_body_config_to_ffi(&ffi_to_car_body_config(&ffi_body())), ffi_body());
    assert_eq!(mutator_config_to_ffi(&ffi_to_mutator_config(&ffi_mutators())), ffi_mutators());
}

#[test]
fn a_car_comes_back_without_what_is_not_tracked() {
    let back = car_state_to_ffi(&ffi_to_car_state(&ffi_car()));
    let want = FfiCarState {
        bump_cooldown_other_car_idx_valid: false,
        bump_cooldown_other_car_idx: 0,
        last_extra_hit_tick_valid: false,
        last_extra_hit_tick: 0,
        ..ffi_car()
    };
    assert_eq!(back, want);
    let aloft = FfiCarState { has_world_contact: false, ..ffi_car() };
    assert_eq!(ffi_to_car_state(&aloft).world_contact_normal, None);
    assert_eq!(car_state_to_ffi(&ffi_to_car_state(&aloft)).world_contact_normal, FfiVec::default());
}

#[test]
fn a_ball_without_hits_has_none() {
    let quiet = FfiBallState { ds_has_damaged: false, last_extra_hit_tick_valid: false, ..ffi_ball() };
    let state = ffi_to_ball_state(&quiet);
    assert_eq!(state.ds_info.last_damage_tick, None);
    assert_eq!(state.last_extra_hit_tick, None);
    let back = ball_state_to_ffi(&state);
    assert_eq!((back.ds_last_damage_tick, back.last_extra_hit_tick), (0, 0));
    assert!(!back.ds_has_damaged && !back.last_extra_hit_tick_valid);
}

#[test]
fn a_new_arena_is_quiet() {
    let arena = rs_arena_new(&Toy, 1);
    assert_eq!(rs_arena_game_mode(&arena), 1);
    assert_eq!(rs_arena_num_cars(&arena), 0);
    assert_eq!(rs_arena_num_boost_pads(&arena), 1);
    assert_eq!(rs_arena_tick_count(&arena), 0);
    assert!(!rs_arena_is_ball_scored(&Toy, &arena));
    assert_eq!(rs_arena_get_ball_hit_info(&arena, 0), FfiBallHitInfo::default());
    assert!(rs_arena_get_car_hit_ball_events(&arena).is_empty());
}

#[test]
fn an_arena_with_settings_has_the_mutators_of_its_mode() {
    let config = FfiArenaConfig {
        mem_weight_mode: 1,
        min_pos: ffi_vec(-1.0, -2.0, -3.0),
        max_pos: ffi_vec(1.0, 2.0, 3.0),
        max_aabb_len: single(370.0),
        no_ball_rot: true,
    };
    let arena = rs_arena_new_with_config(&Toy, 3, &config);
    assert_eq!(rs_arena_game_mode(&arena), 3);
    assert_eq!(rs_arena_get_mutator_config(&arena).ball_radius, single(114.25));
    assert_eq!(rs_arena_get_ball_state(&arena).phys.pos, ffi_vec(1.0, 2.0, 3.0));
    let mutators = Toy.mutators(GameMode::Snowday);
    let parsed = ffi_to_arena_config(GameMode::Snowday, mutators, &config);
    assert_eq!(parsed.mem_weight_mode, ArenaMemWeightMode::Light);
    assert_eq!(parsed.max_aabb_len, single(370.0));
    assert!(parsed.no_ball_rot);
    assert!(parsed.custom_boost_pads.is_none());
    let heavy = FfiArenaConfig { mem_weight_mode: 0, ..config };
    let parsed = ffi_to_arena_config(GameMode::Snowday, mutators, &heavy);
    assert_eq!(parsed.mem_weight_mode, ArenaMemWeightMode::Heavy);
}

#[test]
fn a_step_collects_what_happens() {
    let mut arena = arena_with_two_cars();
    rs_arena_step(&Toy, &mut arena, 4);
    assert_eq!(rs_arena_tick_count(&arena), 4);
    let hits = rs_arena_get_car_hit_ball_events(&arena);
    assert_eq!(hits.iter().map(|e| e.car_idx).collect::<Vec<_>>(), vec![0, 1, 9]);
    assert_eq!(hits[0].contact_point, ffi_vec(10.0, 20.0, 30.0));
    let bumps = rs_arena_get_car_hit_car_events(&arena);
    assert_eq!(bumps.len(), 1);
    assert_eq!((bumps[0].bumper_car_idx, bumps[0].victim_car_idx, bumps[0].is_demo), (1, 0, true));

    // The ball was at -50 and moves by one in each tick; the hit of car 0 was in the second one.
    let info = rs_arena_get_ball_hit_info(&arena, 0);
    assert!(info.is_valid);
    assert_eq!(info.ball_pos, ffi_vec(-48.0, -49.0, -48.0));
    assert_eq!(info.relative_pos_on_ball, ffi_vec(58.0, 69.0, 78.0));
    assert_eq!(info.extra_hit_vel, ffi_vec(1.0, 2.0, 3.0));
    assert_eq!((info.tick_count_when_hit, info.tick_count_when_extra_impulse_applied), (2, 2));
    assert_eq!(rs_arena_get_ball_hit_info(&arena, 1).tick_count_when_hit, 3);
    // A car that is not there has no hit, though it was heard of.
    assert_eq!(rs_arena_get_ball_hit_info(&arena, 9), FfiBallHitInfo::default());

    // Another step forgets the events, but not the last hits.
    rs_arena_step(&Toy, &mut arena, 1);
    assert!(rs_arena_get_car_hit_ball_events(&arena).is_empty());
    assert!(rs_arena_get_car_hit_car_events(&arena).is_empty());
    assert!(rs_arena_get_ball_hit_info(&arena, 0).is_valid);
}

#[test]
fn steps_add_up() {
    let (mut once, mut twice) = (arena_with_two_cars(), arena_with_two_cars());
    rs_arena_step(&Toy, &mut once, 4);
    rs_arena_step(&Toy, &mut twice, 2);
    rs_arena_step(&Toy, &mut twice, 2);
    assert_eq!(rs_arena_tick_count(&once), rs_arena_tick_count(&twice));
    assert_eq!(rs_arena_get_ball_state(&once), rs_arena_get_ball_state(&twice));
    for car in 0..2 {
        assert_eq!(rs_arena_get_ball_hit_info(&once, car), rs_arena_get_ball_hit_info(&twice, car));
    }
}

#[test]
fn a_prediction_scales_its_ticks() {
    let mut arena = rs_arena_new_prediction(&Toy, 0, 8);
    rs_arena_step(&Toy, &mut arena, 3);
    assert_eq!(rs_arena_tick_count(&arena), 24);
}

#[test]
fn room_is_made_for_the_hits_of_new_cars() {
    let mut arena = arena_with_two_cars();
    assert_eq!(arena.ball_hit_infos.len(), 2);
    rs_arena_step(&Toy, &mut arena, 4);
    let known = rs_arena_get_ball_hit_info(&arena, 1);
    rs_arena_add_car(&Toy, &mut arena, 0, &ffi_body());
    assert_eq!(arena.ball_hit_infos.len(), 3);
    assert_eq!(rs_arena_get_ball_hit_info(&arena, 1), known);
    assert_eq!(arena.ball_hit_infos[2], SynthBallHitInfo::default());
    assert_eq!(rs_arena_get_car_info(&arena, 1).team, 1);
    assert_eq!(rs_arena_get_car_info(&arena, 2).idx, 2);
    assert_eq!(rs_arena_get_car_body_config(&arena, 2), ffi_body());
    assert_eq!(rs_arena_get_car_state(&arena, 2).boost_amount, single(2.0));
}

#[test]
fn setting_a_car_forgets_its_last_hit_alone() {
    let mut arena = arena_with_two_cars();
    rs_arena_step(&Toy, &mut arena, 4);
    let other = rs_arena_get_car_state(&arena, 1);
    let state = FfiCarState { boost_amount: single(12.5), ..ffi_car() };
    rs_arena_set_car_state(&mut arena, 0, &state);
    assert_eq!(rs_arena_get_car_state(&arena, 0).boost_amount, single(12.5));
    assert_eq!(rs_arena_get_car_state(&arena, 1), other);
    assert!(!rs_arena_get_ball_hit_info(&arena, 0).is_valid);
    assert!(rs_arena_get_ball_hit_info(&arena, 1).is_valid);

    rs_arena_set_car_controls(&mut arena, 1, &ffi_controls(0.75, false));
    assert_eq!(rs_arena_get_car_state(&arena, 1).controls, ffi_controls(0.75, false));
    assert!(rs_arena_get_ball_hit_info(&arena, 1).is_valid);
}

#[test]
fn a_kickoff_forgets_all_last_hits() {
    let mut arena = arena_with_two_cars();
    rs_arena_step(&Toy, &mut arena, 4);
    rs_arena_reset_to_random_kickoff(&Toy, &mut arena, 17);
    assert_eq!(rs_arena_get_ball_state(&arena).phys.vel.x, single(17.0));
    assert!(!rs_arena_get_ball_hit_info(&arena, 0).is_valid);
    assert!(!rs_arena_get_ball_hit_info(&arena, 1).is_valid);
    assert_eq!(rs_arena_num_cars(&arena), 2);
    rs_arena_reset_to_random_kickoff(&Toy, &mut arena, -5);
    assert_eq!(rs_arena_get_ball_state(&arena).phys.vel.x, single(-1.0));
}

#[test]
fn pads_balls_and_mutators_are_set() {
    let mut arena = rs_arena_new(&Toy, 0);
    assert!(rs_arena_get_boost_pad_state(&Toy, &arena, 0).is_active);
    rs_arena_set_boost_pad_state(&mut arena, 0, &FfiBoostPadState { cooldown: single(4.0), is_active: true });
    let pad = rs_arena_get_boost_pad_state(&Toy, &arena, 0);
    assert_eq!(pad.cooldown, single(4.0));
    assert!(!pad.is_active);
    let config = rs_arena_get_boost_pad_config(&arena, 0);
    assert_eq!(config.pos, ffi_vec(1.0, 2.0, 3.0));
    assert!(config.is_big);

    let mut ball = ffi_ball();
    ball.phys.pos.y = single(6000.0);
    rs_arena_set_ball_state(&mut arena, &ball);
    assert_eq!(rs_arena_get_ball_state(&arena), ball);
    assert!(rs_arena_is_ball_scored(&Toy, &arena));

    let mutators = FfiMutatorConfig { demo_mode: 2, bump_requires_front_hit: true, ..ffi_mutators() };
    rs_arena_set_mutator_config(&mut arena, &mutators);
    let back = rs_arena_get_mutator_config(&arena);
    assert_eq!(back, FfiMutatorConfig { bump_requires_front_hit: false, ..mutators });
}

#[test]
fn a_ball_arena_is_in_the_void() {
    let arena = rs_ball_arena_new(&Toy, 1, single(15.0));
    assert_eq!(arena.arena.game_mode, GameMode::TheVoid);
    assert_eq!(arena.tick_time, single(1.0 / 15.0));
}

#[test]
fn a_ball_arena_at_15_hz_takes_8_ticks() {
    let mut arena = rs_ball_arena_new(&Toy, 0, single(15.0));
    assert_eq!(arena.physics_ticks(2), 16);
    assert_eq!(arena.physics_ticks(u32::MAX), 8 * u64::from(u32::MAX));
    rs_ball_arena_step(&Toy, &mut arena, 2);
    assert_eq!(arena.arena.tick_count, 16);
    let mut fine = rs_ball_arena_new(&Toy, 0, single(120.0));
    rs_ball_arena_step(&Toy, &mut fine, 3);
    assert_eq!(fine.arena.tick_count, 3);
    // Faster than the physics there is still one tick.
    let mut finer = RsBallArena::new(&Toy, GameMode::Soccar, single(240.0));
    finer.step(&Toy, 5);
    assert_eq!(finer.arena.tick_count, 5);
    rs_ball_arena_set_ball_state(&mut finer, &ffi_ball());
    assert_eq!(rs_ball_arena_get_ball_state(&finer), ffi_ball());
}

#[test]
fn flat_structures_start_out_as_zeros() {
    let zero = FfiVec { x: Single::zero(), y: Single::zero(), z: Single::zero() };
    assert_eq!(FfiVec::default(), zero);
    assert_eq!(FfiRotMat::default().up_z, Single::zero());
    assert_eq!(FfiPhysState::default().rot_mat, FfiRotMat::default());
    assert_eq!(FfiPhysState::default().ang_vel, zero);
    let controls = FfiCarControls::default();
    assert_eq!((controls.throttle, controls.jump), (Single::zero(), false));
    let car = FfiCarState::default();
    assert_eq!((car.phys, car.controls), (FfiPhysState::default(), controls));
    assert_eq!((car.boost_amount, car.is_on_ground, car.last_extra_hit_tick), (Single::zero(), false, 0));
    let ball = FfiBallState::default();
    assert_eq!((ball.hs_y_target_dir, ball.ds_charge_level, ball.tick_count_since_kickoff), (0, 0, 0));
    let pad = FfiBoostPadState::default();
    assert_eq!((pad.cooldown, pad.is_active), (Single::zero(), false));
    let pad = FfiBoostPadConfig::default();
    assert_eq!((pad.pos, pad.is_big), (zero, false));
    let info = FfiCarInfo::default();
    assert_eq!((info.idx, info.team), (0, 0));
    let body = FfiCarBodyConfig::default();
    assert_eq!((body.hitbox_size, body.three_wheels, body.dodge_deadzone), (zero, false, Single::zero()));
    let arena = FfiArenaConfig::default();
    assert_eq!((arena.mem_weight_mode, arena.max_pos, arena.no_ball_rot), (0, zero, false));
    let mutators = FfiMutatorConfig::default();
    assert_eq!((mutators.gravity, mutators.ball_radius, mutators.demo_mode), (zero, Single::zero(), 0));
    let hit = FfiCarHitBallEvent::default();
    assert_eq!((hit.car_idx, hit.contact_point, hit.extra_hit_vel), (0, zero, zero));
    let bump = FfiCarHitCarEvent::default();
    assert_eq!((bump.bumper_car_idx, bump.victim_car_idx, bump.is_demo), (0, 0, false));
    assert!(!FfiBallHitInfo::default().is_valid);
}
