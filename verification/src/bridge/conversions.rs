//! Conversions between the simulation's types and the flat structures of the boundary.
//!
//! A matrix crosses as its axes: `x_axis` is forward, `y_axis` right and `z_axis` up.
use crate::bridge::ffi::{
    FfiArenaConfig, FfiBallState, FfiCarBodyConfig, FfiCarControls, FfiCarState, FfiMutatorConfig, FfiPhysState,
    FfiRotMat, FfiVec,
};
use crate::math::{Mat3A, Vec3A};
use crate::sim::arena::base::{ArenaConfig, ArenaMemWeightMode};
use crate::sim::types::{
    BallState, CarBodyConfig, CarControls, CarState, DemoMode, DropshotInfo, GameMode, HeatseekerInfo, MutatorConfig,
    PhysState, Team, WheelPairConfig,
};
use crate::single::Single;
use vstd::prelude::*;

verus! {

#[verifier::allow_in_spec]
pub fn vec3a_to_ffi(v: Vec3A) -> (r: FfiVec)
    returns
        (FfiVec { x: v.x, y: v.y, z: v.z }),
{
    FfiVec { x: v.x, y: v.y, z: v.z }
}

#[verifier::allow_in_spec]
pub fn ffi_to_vec3a(v: &FfiVec) -> (r: Vec3A)
    returns
        (Vec3A { x: v.x, y: v.y, z: v.z }),
{
    Vec3A { x: v.x, y: v.y, z: v.z }
}

#[verifier::allow_in_spec]
pub fn mat3a_to_ffi(m: Mat3A) -> (r: FfiRotMat)
    returns
        (FfiRotMat {
            forward_x: m.x_axis.x,
            forward_y: m.x_axis.y,
            forward_z: m.x_axis.z,
            right_x: m.y_axis.x,
            right_y: m.y_axis.y,
            right_z: m.y_axis.z,
            up_x: m.z_axis.x,
            up_y: m.z_axis.y,
            up_z: m.z_axis.z,
        }),
{
    FfiRotMat {
        forward_x: m.x_axis.x,
        forward_y: m.x_axis.y,
        forward_z: m.x_axis.z,
        right_x: m.y_axis.x,
        right_y: m.y_axis.y,
        right_z: m.y_axis.z,
        up_x: m.z_axis.x,
        up_y: m.z_axis.y,
        up_z: m.z_axis.z,
    }
}

#[verifier::allow_in_spec]
pub fn ffi_to_mat3a(m: &FfiRotMat) -> (r: Mat3A)
    returns
        (Mat3A {
            x_axis: Vec3A { x: m.forward_x, y: m.forward_y, z: m.forward_z },
            y_axis: Vec3A { x: m.right_x, y: m.right_y, z: m.right_z },
            z_axis: Vec3A { x: m.up_x, y: m.up_y, z: m.up_z },
        }),
{
    Mat3A {
        x_axis: Vec3A { x: m.forward_x, y: m.forward_y, z: m.forward_z },
        y_axis: Vec3A { x: m.right_x, y: m.right_y, z: m.right_z },
        z_axis: Vec3A { x: m.up_x, y: m.up_y, z: m.up_z },
    }
}

#[verifier::allow_in_spec]
pub fn phys_to_ffi(p: &PhysState) -> (r: FfiPhysState)
    returns
        (FfiPhysState {
            pos: vec3a_to_ffi(p.pos),
            rot_mat: mat3a_to_ffi(p.rot_mat),
            vel: vec3a_to_ffi(p.vel),
            ang_vel: vec3a_to_ffi(p.ang_vel),
        }),
{
    FfiPhysState {
        pos: vec3a_to_ffi(p.pos),
        rot_mat: mat3a_to_ffi(p.rot_mat),
        vel: vec3a_to_ffi(p.vel),
        ang_vel: vec3a_to_ffi(p.ang_vel),
    }
}

#[verifier::allow_in_spec]
pub fn ffi_to_phys(p: &FfiPhysState) -> (r: PhysState)
    returns
        (PhysState {
            pos: ffi_to_vec3a(&p.pos),
            rot_mat: ffi_to_mat3a(&p.rot_mat),
            vel: ffi_to_vec3a(&p.vel),
            ang_vel: ffi_to_vec3a(&p.ang_vel),
        }),
{
    PhysState {
        pos: ffi_to_vec3a(&p.pos),
        rot_mat: ffi_to_mat3a(&p.rot_mat),
        vel: ffi_to_vec3a(&p.vel),
        ang_vel: ffi_to_vec3a(&p.ang_vel),
    }
}

#[verifier::allow_in_spec]
pub fn controls_to_ffi(c: &CarControls) -> (r: FfiCarControls)
    returns
        (FfiCarControls {
            throttle: c.throttle,
            steer: c.steer,
            pitch: c.pitch,
            yaw: c.yaw,
            roll: c.roll,
            jump: c.jump,
            boost: c.boost,
            handbrake: c.handbrake,
        }),
{
    FfiCarControls {
        throttle: c.throttle,
        steer: c.steer,
        pitch: c.pitch,
        yaw: c.yaw,
        roll: c.roll,
        jump: c.jump,
        boost: c.boost,
        handbrake: c.handbrake,
    }
}

#[verifier::allow_in_spec]
pub fn ffi_to_controls(c: &FfiCarControls) -> (r: CarControls)
    returns
        (CarControls {
            throttle: c.throttle,
            steer: c.steer,
            pitch: c.pitch,
            yaw: c.yaw,
            roll: c.roll,
            jump: c.jump,
            boost: c.boost,
            handbrake: c.handbrake,
        }),
{
    CarControls {
        throttle: c.throttle,
        steer: c.steer,
        pitch: c.pitch,
        yaw: c.yaw,
        roll: c.roll,
        jump: c.jump,
        boost: c.boost,
        handbrake: c.handbrake,
    }
}

/// The normal of a contact with the world crosses as zero where there is none. The last four
/// fields are not tracked and cross as false and 0.
#[verifier::allow_in_spec]
pub fn car_state_to_ffi(s: &CarState) -> (r: FfiCarState)
    returns
        (FfiCarState {
            phys: phys_to_ffi(&s.phys),
            controls: controls_to_ffi(&s.controls),
            prev_controls: controls_to_ffi(&s.prev_controls),
            is_on_ground: s.is_on_ground,
            wheels_with_contact_0: s.wheels_with_contact[0],
            wheels_with_contact_1: s.wheels_with_contact[1],
            wheels_with_contact_2: s.wheels_with_contact[2],
            wheels_with_contact_3: s.wheels_with_contact[3],
            has_jumped: s.has_jumped,
            has_double_jumped: s.has_double_jumped,
            has_flipped: s.has_flipped,
            flip_rel_torque: vec3a_to_ffi(s.flip_rel_torque),
            jump_time: s.jump_time,
            flip_time: s.flip_time,
            is_flipping: s.is_flipping,
            is_jumping: s.is_jumping,
            air_time: s.air_time,
            air_time_since_jump: s.air_time_since_jump,
            boost_amount: s.boost,
            time_since_boosted: s.time_since_boosted,
            is_boosting: s.is_boosting,
            boosting_time: s.boosting_time,
            is_supersonic: s.is_supersonic,
            supersonic_time: s.supersonic_time,
            handbrake_val: s.handbrake_val,
            is_auto_flipping: s.is_auto_flipping,
            auto_flip_timer: s.auto_flip_timer,
            auto_flip_torque_scale: s.auto_flip_torque_scale,
            bump_cooldown_timer: s.bump_cooldown_timer,
            has_world_contact: s.world_contact_normal.is_some(),
            world_contact_normal: match s.world_contact_normal {
                Some(n) => vec3a_to_ffi(n),
                None => FfiVec { x: Single { bits: 0 }, y: Single { bits: 0 }, z: Single { bits: 0 } },
            },
            is_demoed: s.is_demoed,
            demo_respawn_timer: s.demo_respawn_timer,
            bump_cooldown_other_car_idx_valid: false,
            bump_cooldown_other_car_idx: 0,
            last_extra_hit_tick_valid: false,
            last_extra_hit_tick: 0,
        }),
{
    FfiCarState {
        phys: phys_to_ffi(&s.phys),
        controls: controls_to_ffi(&s.controls),
        prev_controls: controls_to_ffi(&s.prev_controls),
        is_on_ground: s.is_on_ground,
        wheels_with_contact_0: s.wheels_with_contact[0],
        wheels_with_contact_1: s.wheels_with_contact[1],
        wheels_with_contact_2: s.wheels_with_contact[2],
        wheels_with_contact_3: s.wheels_with_contact[3],
        has_jumped: s.has_jumped,
        has_double_jumped: s.has_double_jumped,
        has_flipped: s.has_flipped,
        flip_rel_torque: vec3a_to_ffi(s.flip_rel_torque),
        jump_time: s.jump_time,
        flip_time: s.flip_time,
        is_flipping: s.is_flipping,
        is_jumping: s.is_jumping,
        air_time: s.air_time,
        air_time_since_jump: s.air_time_since_jump,
        boost_amount: s.boost,
        time_since_boosted: s.time_since_boosted,
        is_boosting: s.is_boosting,
        boosting_time: s.boosting_time,
        is_supersonic: s.is_supersonic,
        supersonic_time: s.supersonic_time,
        handbrake_val: s.handbrake_val,
        is_auto_flipping: s.is_auto_flipping,
        auto_flip_timer: s.auto_flip_timer,
        auto_flip_torque_scale: s.auto_flip_torque_scale,
        bump_cooldown_timer: s.bump_cooldown_timer,
        has_world_contact: s.world_contact_normal.is_some(),
        world_contact_normal: match s.world_contact_normal {
            Some(n) => vec3a_to_ffi(n),
            None => FfiVec { x: Single { bits: 0 }, y: Single { bits: 0 }, z: Single { bits: 0 } },
        },
        is_demoed: s.is_demoed,
        demo_respawn_timer: s.demo_respawn_timer,
        bump_cooldown_other_car_idx_valid: false,
        bump_cooldown_other_car_idx: 0,
        last_extra_hit_tick_valid: false,
        last_extra_hit_tick: 0,
    }
}

#[verifier::allow_in_spec]
pub fn ffi_to_car_state(s: &FfiCarState) -> (r: CarState)
    returns
        (CarState {
            phys: ffi_to_phys(&s.phys),
            controls: ffi_to_controls(&s.controls),
            prev_controls: ffi_to_controls(&s.prev_controls),
            is_on_ground: s.is_on_ground,
            wheels_with_contact: [
                s.wheels_with_contact_0,
                s.wheels_with_contact_1,
                s.wheels_with_contact_2,
                s.wheels_with_contact_3,
            ],
            has_jumped: s.has_jumped,
            has_double_jumped: s.has_double_jumped,
            has_flipped: s.has_flipped,
            flip_rel_torque: ffi_to_vec3a(&s.flip_rel_torque),
            jump_time: s.jump_time,
            flip_time: s.flip_time,
            is_flipping: s.is_flipping,
            is_jumping: s.is_jumping,
            air_time: s.air_time,
            air_time_since_jump: s.air_time_since_jump,
            boost: s.boost_amount,
            time_since_boosted: s.time_since_boosted,
            is_boosting: s.is_boosting,
            boosting_time: s.boosting_time,
            is_supersonic: s.is_supersonic,
            supersonic_time: s.supersonic_time,
            handbrake_val: s.handbrake_val,
            is_auto_flipping: s.is_auto_flipping,
            auto_flip_timer: s.auto_flip_timer,
            auto_flip_torque_scale: s.auto_flip_torque_scale,
            bump_cooldown_timer: s.bump_cooldown_timer,
            world_contact_normal: if s.has_world_contact {
                Some(ffi_to_vec3a(&s.world_contact_normal))
            } else {
                None
            },
            is_demoed: s.is_demoed,
            demo_respawn_timer: s.demo_respawn_timer,
        }),
{
    CarState {
        phys: ffi_to_phys(&s.phys),
        controls: ffi_to_controls(&s.controls),
        prev_controls: ffi_to_controls(&s.prev_controls),
        is_on_ground: s.is_on_ground,
        wheels_with_contact: [
            s.wheels_with_contact_0,
            s.wheels_with_contact_1,
            s.wheels_with_contact_2,
            s.wheels_with_contact_3,
        ],
        has_jumped: s.has_jumped,
        has_double_jumped: s.has_double_jumped,
        has_flipped: s.has_flipped,
        flip_rel_torque: ffi_to_vec3a(&s.flip_rel_torque),
        jump_time: s.jump_time,
        flip_time: s.flip_time,
        is_flipping: s.is_flipping,
        is_jumping: s.is_jumping,
        air_time: s.air_time,
        air_time_since_jump: s.air_time_since_jump,
        boost: s.boost_amount,
        time_since_boosted: s.time_since_boosted,
        is_boosting: s.is_boosting,
        boosting_time: s.boosting_time,
        is_supersonic: s.is_supersonic,
        supersonic_time: s.supersonic_time,
        handbrake_val: s.handbrake_val,
        is_auto_flipping: s.is_auto_flipping,
        auto_flip_timer: s.auto_flip_timer,
        auto_flip_torque_scale: s.auto_flip_torque_scale,
        bump_cooldown_timer: s.bump_cooldown_timer,
        world_contact_normal: if s.has_world_contact {
            Some(ffi_to_vec3a(&s.world_contact_normal))
        } else {
            None
        },
        is_demoed: s.is_demoed,
        demo_respawn_timer: s.demo_respawn_timer,
    }
}

#[verifier::allow_in_spec]
pub fn ball_state_to_ffi(s: &BallState) -> (r: FfiBallState)
    returns
        (FfiBallState {
            phys: phys_to_ffi(&s.phys),
            hs_y_target_dir: s.hs_info.y_target_dir,
            hs_cur_target_speed: s.hs_info.cur_target_speed,
            hs_time_since_hit: s.hs_info.time_since_hit,
            ds_charge_level: s.ds_info.charge_level as i32,
            ds_accumulated_hit_force: s.ds_info.accumulated_hit_force,
            ds_y_target_dir: s.ds_info.y_target_dir,
            ds_has_damaged: s.ds_info.last_damage_tick.is_some(),
            ds_last_damage_tick: match s.ds_info.last_damage_tick {
                Some(t) => t,
                None => 0,
            },
            tick_count_since_kickoff: s.tick_count_since_kickoff,
            last_extra_hit_tick_valid: s.last_extra_hit_tick.is_some(),
            last_extra_hit_tick: match s.last_extra_hit_tick {
                Some(t) => t,
                None => 0,
            },
        }),
{
    FfiBallState {
        phys: phys_to_ffi(&s.phys),
        hs_y_target_dir: s.hs_info.y_target_dir,
        hs_cur_target_speed: s.hs_info.cur_target_speed,
        hs_time_since_hit: s.hs_info.time_since_hit,
        ds_charge_level: s.ds_info.charge_level as i32,
        ds_accumulated_hit_force: s.ds_info.accumulated_hit_force,
        ds_y_target_dir: s.ds_info.y_target_dir,
        ds_has_damaged: s.ds_info.last_damage_tick.is_some(),
        ds_last_damage_tick: match s.ds_info.last_damage_tick {
            Some(t) => t,
            None => 0,
        },
        tick_count_since_kickoff: s.tick_count_since_kickoff,
        last_extra_hit_tick_valid: s.last_extra_hit_tick.is_some(),
        last_extra_hit_tick: match s.last_extra_hit_tick {
            Some(t) => t,
            None => 0,
        },
    }
}

/// The charge level is moved into the range of a byte.
#[verifier::allow_in_spec]
pub fn ffi_to_ball_state(s: &FfiBallState) -> (r: BallState)
    returns
        (BallState {
            phys: ffi_to_phys(&s.phys),
            hs_info: HeatseekerInfo {
                y_target_dir: s.hs_y_target_dir,
                cur_target_speed: s.hs_cur_target_speed,
                time_since_hit: s.hs_time_since_hit,
            },
            ds_info: DropshotInfo {
                charge_level: if s.ds_charge_level < 0 {
                    0
                } else if s.ds_charge_level > 255 {
                    255
                } else {
                    s.ds_charge_level as u8
                },
                accumulated_hit_force: s.ds_accumulated_hit_force,
                y_target_dir: s.ds_y_target_dir,
                last_damage_tick: if s.ds_has_damaged {
                    Some(s.ds_last_damage_tick)
                } else {
                    None
                },
            },
            last_extra_hit_tick: if s.last_extra_hit_tick_valid {
                Some(s.last_extra_hit_tick)
            } else {
                None
            },
            tick_count_since_kickoff: s.tick_count_since_kickoff,
        }),
{
    BallState {
        phys: ffi_to_phys(&s.phys),
        hs_info: HeatseekerInfo {
            y_target_dir: s.hs_y_target_dir,
            cur_target_speed: s.hs_cur_target_speed,
            time_since_hit: s.hs_time_since_hit,
        },
        ds_info: DropshotInfo {
            charge_level: if s.ds_charge_level < 0 {
                0
            } else if s.ds_charge_level > 255 {
                255
            } else {
                s.ds_charge_level as u8
            },
            accumulated_hit_force: s.ds_accumulated_hit_force,
            y_target_dir: s.ds_y_target_dir,
            last_damage_tick: if s.ds_has_damaged {
                Some(s.ds_last_damage_tick)
            } else {
                None
            },
        },
        last_extra_hit_tick: if s.last_extra_hit_tick_valid {
            Some(s.last_extra_hit_tick)
        } else {
            None
        },
        tick_count_since_kickoff: s.tick_count_since_kickoff,
    }
}

/// Soccar for every number that stands for no game mode.
#[verifier::allow_in_spec]
pub fn u8_to_game_mode(v: u8) -> (r: GameMode)
    returns
        (match v {
            0 => GameMode::Soccar,
            1 => GameMode::Hoops,
            2 => GameMode::Heatseeker,
            3 => GameMode::Snowday,
            4 => GameMode::Dropshot,
            5 => GameMode::TheVoid,
            _ => GameMode::Soccar,
        }),
{
    match v {
        0 => GameMode::Soccar,
        1 => GameMode::Hoops,
        2 => GameMode::Heatseeker,
        3 => GameMode::Snowday,
        4 => GameMode::Dropshot,
        5 => GameMode::TheVoid,
        _ => GameMode::Soccar,
    }
}

#[verifier::allow_in_spec]
pub fn game_mode_to_u8(gm: GameMode) -> (r: u8)
    returns
        (match gm {
            GameMode::Soccar => 0u8,
            GameMode::Hoops => 1u8,
            GameMode::Heatseeker => 2u8,
            GameMode::Snowday => 3u8,
            GameMode::Dropshot => 4u8,
            GameMode::TheVoid => 5u8,
        }),
{
    match gm {
        GameMode::Soccar => 0u8,
        GameMode::Hoops => 1u8,
        GameMode::Heatseeker => 2u8,
        GameMode::Snowday => 3u8,
        GameMode::Dropshot => 4u8,
        GameMode::TheVoid => 5u8,
    }
}

/// Blue for every number that stands for no team.
#[verifier::allow_in_spec]
pub fn u8_to_team(v: u8) -> (r: Team)
    returns
        (match v {
            0 => Team::Blue,
            1 => Team::Orange,
            _ => Team::Blue,
        }),
{
    match v {
        0 => Team::Blue,
        1 => Team::Orange,
        _ => Team::Blue,
    }
}

#[verifier::allow_in_spec]
pub fn team_to_u8(t: Team) -> (r: u8)
    returns
        (match t {
            Team::Blue => 0u8,
            Team::Orange => 1u8,
        }),
{
    match t {
        Team::Blue => 0u8,
        Team::Orange => 1u8,
    }
}

#[verifier::allow_in_spec]
pub fn ffi_to_car_body_config(c: &FfiCarBodyConfig) -> (r: CarBodyConfig)
    returns
        (CarBodyConfig {
            hitbox_size: ffi_to_vec3a(&c.hitbox_size),
            hitbox_pos_offset: ffi_to_vec3a(&c.hitbox_pos_offset),
            front_wheels: WheelPairConfig {
                wheel_radius: c.front_wheel_radius,
                suspension_rest_length: c.front_suspension_rest,
                connection_point_offset: ffi_to_vec3a(&c.front_connection_offset),
            },
            back_wheels: WheelPairConfig {
                wheel_radius: c.back_wheel_radius,
                suspension_rest_length: c.back_suspension_rest,
                connection_point_offset: ffi_to_vec3a(&c.back_connection_offset),
            },
            three_wheels: c.three_wheels,
            dodge_deadzone: c.dodge_deadzone,
        }),
{
    CarBodyConfig {
        hitbox_size: ffi_to_vec3a(&c.hitbox_size),
        hitbox_pos_offset: ffi_to_vec3a(&c.hitbox_pos_offset),
        front_wheels: WheelPairConfig {
            wheel_radius: c.front_wheel_radius,
            suspension_rest_length: c.front_suspension_rest,
            connection_point_offset: ffi_to_vec3a(&c.front_connection_offset),
        },
        back_wheels: WheelPairConfig {
            wheel_radius: c.back_wheel_radius,
            suspension_rest_length: c.back_suspension_rest,
            connection_point_offset: ffi_to_vec3a(&c.back_connection_offset),
        },
        three_wheels: c.three_wheels,
        dodge_deadzone: c.dodge_deadzone,
    }
}

#[verifier::allow_in_spec]
pub fn car_body_config_to_ffi(c: &CarBodyConfig) -> (r: FfiCarBodyConfig)
    returns
        (FfiCarBodyConfig {
            hitbox_size: vec3a_to_ffi(c.hitbox_size),
            hitbox_pos_offset: vec3a_to_ffi(c.hitbox_pos_offset),
            front_wheel_radius: c.front_wheels.wheel_radius,
            front_suspension_rest: c.front_wheels.suspension_rest_length,
            front_connection_offset: vec3a_to_ffi(c.front_wheels.connection_point_offset),
            back_wheel_radius: c.back_wheels.wheel_radius,
            back_suspension_rest: c.back_wheels.suspension_rest_length,
            back_connection_offset: vec3a_to_ffi(c.back_wheels.connection_point_offset),
            three_wheels: c.three_wheels,
            dodge_deadzone: c.dodge_deadzone,
        }),
{
    FfiCarBodyConfig {
        hitbox_size: vec3a_to_ffi(c.hitbox_size),
        hitbox_pos_offset: vec3a_to_ffi(c.hitbox_pos_offset),
        front_wheel_radius: c.front_wheels.wheel_radius,
        front_suspension_rest: c.front_wheels.suspension_rest_length,
        front_connection_offset: vec3a_to_ffi(c.front_wheels.connection_point_offset),
        back_wheel_radius: c.back_wheels.wheel_radius,
        back_suspension_rest: c.back_wheels.suspension_rest_length,
        back_connection_offset: vec3a_to_ffi(c.back_wheels.connection_point_offset),
        three_wheels: c.three_wheels,
        dodge_deadzone: c.dodge_deadzone,
    }
}

/// The settings of an arena. `FfiArenaConfig` carries neither the game mode nor mutators, so the
/// caller gives both.
#[verifier::allow_in_spec]
pub fn ffi_to_arena_config(game_mode: GameMode, mutators: MutatorConfig, c: &FfiArenaConfig) -> (r: ArenaConfig)
    returns
        (ArenaConfig {
            game_mode,
            mutators,
            mem_weight_mode: match c.mem_weight_mode {
                1 => ArenaMemWeightMode::Light,
                _ => ArenaMemWeightMode::Heavy,
            },
            min_pos: ffi_to_vec3a(&c.min_pos),
            max_pos: ffi_to_vec3a(&c.max_pos),
            max_aabb_len: c.max_aabb_len,
            no_ball_rot: c.no_ball_rot,
            custom_boost_pads: None,
            rng_seed: None,
        }),
{
    ArenaConfig {
        game_mode,
        mutators,
        mem_weight_mode: match c.mem_weight_mode {
            1 => ArenaMemWeightMode::Light,
            _ => ArenaMemWeightMode::Heavy,
        },
        min_pos: ffi_to_vec3a(&c.min_pos),
        max_pos: ffi_to_vec3a(&c.max_pos),
        max_aabb_len: c.max_aabb_len,
        no_ball_rot: c.no_ball_rot,
        custom_boost_pads: None,
        rng_seed: None,
    }
}

#[verifier::allow_in_spec]
pub fn ffi_to_mutator_config(m: &FfiMutatorConfig) -> (r: MutatorConfig)
    returns
        (MutatorConfig {
            gravity: ffi_to_vec3a(&m.gravity),
            car_mass: m.car_mass,
            ball_mass: m.ball_mass,
            ball_max_speed: m.ball_max_speed,
            ball_drag: m.ball_drag,
            jump_accel: m.jump_accel,
            jump_immediate_force: m.jump_immediate_force,
            boost_accel_ground: m.boost_accel_ground,
            boost_accel_air: m.boost_accel_air,
            boost_used_per_second: m.boost_used_per_second,
            respawn_delay: m.respawn_delay,
            bump_cooldown_time: m.bump_cooldown_time,
            car_max_boost_amount: m.car_max_boost_amount,
            car_spawn_boost_amount: m.car_spawn_boost_amount,
            boost_pad_amount_small: m.boost_pad_amount_small,
            boost_pad_amount_big: m.boost_pad_amount_big,
            boost_pad_cooldown_big: m.boost_pad_cooldown_big,
            boost_pad_cooldown_small: m.boost_pad_cooldown_small,
            ball_hit_extra_force_scale: m.ball_hit_extra_force_scale,
            bump_force_scale: m.bump_force_scale,
            ball_radius: m.ball_radius,
            unlimited_flips: m.unlimited_flips,
            unlimited_double_jumps: m.unlimited_double_jumps,
            recharge_boost_enabled: m.recharge_boost_enabled,
            recharge_boost_per_second: m.recharge_boost_per_second,
            recharge_boost_delay: m.recharge_boost_delay,
            demo_mode: match m.demo_mode {
                1 => DemoMode::OnContact,
                2 => DemoMode::Disabled,
                _ => DemoMode::Normal,
            },
            enable_team_demos: m.enable_team_demos,
            goal_base_threshold_y: m.goal_base_threshold_y,
        }),
{
    MutatorConfig {
        gravity: ffi_to_vec3a(&m.gravity),
        car_mass: m.car_mass,
        ball_mass: m.ball_mass,
        ball_max_speed: m.ball_max_speed,
        ball_drag: m.ball_drag,
        jump_accel: m.jump_accel,
        jump_immediate_force: m.jump_immediate_force,
        boost_accel_ground: m.boost_accel_ground,
        boost_accel_air: m.boost_accel_air,
        boost_used_per_second: m.boost_used_per_second,
        respawn_delay: m.respawn_delay,
        bump_cooldown_time: m.bump_cooldown_time,
        car_max_boost_amount: m.car_max_boost_amount,
        car_spawn_boost_amount: m.car_spawn_boost_amount,
        boost_pad_amount_small: m.boost_pad_amount_small,
        boost_pad_amount_big: m.boost_pad_amount_big,
        boost_pad_cooldown_big: m.boost_pad_cooldown_big,
        boost_pad_cooldown_small: m.boost_pad_cooldown_small,
        ball_hit_extra_force_scale: m.ball_hit_extra_force_scale,
        bump_force_scale: m.bump_force_scale,
        ball_radius: m.ball_radius,
        unlimited_flips: m.unlimited_flips,
        unlimited_double_jumps: m.unlimited_double_jumps,
        recharge_boost_enabled: m.recharge_boost_enabled,
        recharge_boost_per_second: m.recharge_boost_per_second,
        recharge_boost_delay: m.recharge_boost_delay,
        demo_mode: match m.demo_mode {
            1 => DemoMode::OnContact,
            2 => DemoMode::Disabled,
            _ => DemoMode::Normal,
        },
        enable_team_demos: m.enable_team_demos,
        goal_base_threshold_y: m.goal_base_threshold_y,
    }
}

#[verifier::allow_in_spec]
pub fn mutator_config_to_ffi(c: &MutatorConfig) -> (r: FfiMutatorConfig)
    returns
        (FfiMutatorConfig {
            gravity: vec3a_to_ffi(c.gravity),
            car_mass: c.car_mass,
            ball_mass: c.ball_mass,
            ball_max_speed: c.ball_max_speed,
            ball_drag: c.ball_drag,
            jump_accel: c.jump_accel,
            jump_immediate_force: c.jump_immediate_force,
            boost_accel_ground: c.boost_accel_ground,
            boost_accel_air: c.boost_accel_air,
            boost_used_per_second: c.boost_used_per_second,
            respawn_delay: c.respawn_delay,
            bump_cooldown_time: c.bump_cooldown_time,
            car_max_boost_amount: c.car_max_boost_amount,
            car_spawn_boost_amount: c.car_spawn_boost_amount,
            boost_pad_amount_small: c.boost_pad_amount_small,
            boost_pad_amount_big: c.boost_pad_amount_big,
            boost_pad_cooldown_big: c.boost_pad_cooldown_big,
            boost_pad_cooldown_small: c.boost_pad_cooldown_small,
            ball_hit_extra_force_scale: c.ball_hit_extra_force_scale,
            bump_force_scale: c.bump_force_scale,
            bump_requires_front_hit: false,
            ball_radius: c.ball_radius,
            unlimited_flips: c.unlimited_flips,
            unlimited_double_jumps: c.unlimited_double_jumps,
            recharge_boost_enabled: c.recharge_boost_enabled,
            recharge_boost_per_second: c.recharge_boost_per_second,
            recharge_boost_delay: c.recharge_boost_delay,
            demo_mode: match c.demo_mode {
                DemoMode::Normal => 0,
                DemoMode::OnContact => 1,
                DemoMode::Disabled => 2,
            },
            enable_team_demos: c.enable_team_demos,
            goal_base_threshold_y: c.goal_base_threshold_y,
        }),
{
    FfiMutatorConfig {
        gravity: vec3a_to_ffi(c.gravity),
        car_mass: c.car_mass,
        ball_mass: c.ball_mass,
        ball_max_speed: c.ball_max_speed,
        ball_drag: c.ball_drag,
        jump_accel: c.jump_accel,
        jump_immediate_force: c.jump_immediate_force,
        boost_accel_ground: c.boost_accel_ground,
        boost_accel_air: c.boost_accel_air,
        boost_used_per_second: c.boost_used_per_second,
        respawn_delay: c.respawn_delay,
        bump_cooldown_time: c.bump_cooldown_time,
        car_max_boost_amount: c.car_max_boost_amount,
        car_spawn_boost_amount: c.car_spawn_boost_amount,
        boost_pad_amount_small: c.boost_pad_amount_small,
        boost_pad_amount_big: c.boost_pad_amount_big,
        boost_pad_cooldown_big: c.boost_pad_cooldown_big,
        boost_pad_cooldown_small: c.boost_pad_cooldown_small,
        ball_hit_extra_force_scale: c.ball_hit_extra_force_scale,
        bump_force_scale: c.bump_force_scale,
        bump_requires_front_hit: false,
        ball_radius: c.ball_radius,
        unlimited_flips: c.unlimited_flips,
        unlimited_double_jumps: c.unlimited_double_jumps,
        recharge_boost_enabled: c.recharge_boost_enabled,
        recharge_boost_per_second: c.recharge_boost_per_second,
        recharge_boost_delay: c.recharge_boost_delay,
        demo_mode: match c.demo_mode {
            DemoMode::Normal => 0,
            DemoMode::OnContact => 1,
            DemoMode::Disabled => 2,
        },
        enable_team_demos: c.enable_team_demos,
        goal_base_threshold_y: c.goal_base_threshold_y,
    }
}

/// A vector comes back unchanged, whichever way it crosses first.
pub proof fn law_vec_round_trip(v: Vec3A, f: FfiVec)
    ensures
        ffi_to_vec3a(&vec3a_to_ffi(v)) == v,
        vec3a_to_ffi(ffi_to_vec3a(&f)) == f,
{
}

/// A matrix comes back unchanged, whichever way it crosses first.
pub proof fn law_mat_round_trip(m: Mat3A, f: FfiRotMat)
    ensures
        ffi_to_mat3a(&mat3a_to_ffi(m)) == m,
        mat3a_to_ffi(ffi_to_mat3a(&f)) == f,
{
}

/// A position and motion come back unchanged, whichever way they cross first.
pub proof fn law_phys_round_trip(p: PhysState, f: FfiPhysState)
    ensures
        ffi_to_phys(&phys_to_ffi(&p)) == p,
        phys_to_ffi(&ffi_to_phys(&f)) == f,
{
}

/// Controls come back unchanged, whichever way they cross first.
pub proof fn law_controls_round_trip(c: CarControls, f: FfiCarControls)
    ensures
        ffi_to_controls(&controls_to_ffi(&c)) == c,
        controls_to_ffi(&ffi_to_controls(&f)) == f,
{
}

/// The state of a car comes back unchanged.
pub proof fn law_car_state_round_trip(s: CarState)
    ensures
        ffi_to_car_state(&car_state_to_ffi(&s)) == s,
{
    let back = ffi_to_car_state(&car_state_to_ffi(&s));
    assert(back.wheels_with_contact =~= s.wheels_with_contact);
}

/// The flat state of a car comes back unchanged, but for the fields that are not tracked and for
/// the normal of a contact that is not there.
pub proof fn law_flat_car_state_round_trip(f: FfiCarState)
    ensures
        car_state_to_ffi(&ffi_to_car_state(&f)) == (FfiCarState {
            world_contact_normal: if f.has_world_contact {
                f.world_contact_normal
            } else {
                FfiVec { x: Single { bits: 0 }, y: Single { bits: 0 }, z: Single { bits: 0 } }
            },
            bump_cooldown_other_car_idx_valid: false,
            bump_cooldown_other_car_idx: 0,
            last_extra_hit_tick_valid: false,
            last_extra_hit_tick: 0,
            ..f
        }),
{
    let state = ffi_to_car_state(&f);
    law_phys_round_trip(state.phys, f.phys);
    law_controls_round_trip(state.controls, f.controls);
    law_controls_round_trip(state.prev_controls, f.prev_controls);
    law_vec_round_trip(state.flip_rel_torque, f.flip_rel_torque);
    law_vec_round_trip(state.flip_rel_torque, f.world_contact_normal);
    assert(state.wheels_with_contact[0] == f.wheels_with_contact_0);
    assert(state.wheels_with_contact[1] == f.wheels_with_contact_1);
    assert(state.wheels_with_contact[2] == f.wheels_with_contact_2);
    assert(state.wheels_with_contact[3] == f.wheels_with_contact_3);
    assert(car_state_to_ffi(&state).phys == f.phys);
    assert(car_state_to_ffi(&state).controls == f.controls);
    assert(car_state_to_ffi(&state).prev_controls == f.prev_controls);
}

/// The state of the ball comes back unchanged.
pub proof fn law_ball_state_round_trip(s: BallState)
    ensures
        ffi_to_ball_state(&ball_state_to_ffi(&s)) == s,
{
}

/// The flat state of the ball comes back unchanged, but for a charge level outside the range of a
/// byte and for ticks that are marked as absent.
pub proof fn law_flat_ball_state_round_trip(f: FfiBallState)
    ensures
        ball_state_to_ffi(&ffi_to_ball_state(&f)) == (FfiBallState {
            ds_charge_level: if f.ds_charge_level < 0 {
                0
            } else if f.ds_charge_level > 255 {
                255
            } else {
                f.ds_charge_level
            },
            ds_last_damage_tick: if f.ds_has_damaged {
                f.ds_last_damage_tick
            } else {
                0
            },
            last_extra_hit_tick: if f.last_extra_hit_tick_valid {
                f.last_extra_hit_tick
            } else {
                0
            },
            ..f
        }),
{
}

/// A game mode and a team survive the crossing, and so does a number that stands for one.
pub proof fn law_numbers_round_trip(gm: GameMode, t: Team, v: u8)
    ensures
        u8_to_game_mode(game_mode_to_u8(gm)) == gm,
        u8_to_team(team_to_u8(t)) == t,
        game_mode_to_u8(u8_to_game_mode(v)) == if v <= 5 {
            v
        } else {
            0
        },
        team_to_u8(u8_to_team(v)) == if v <= 1 {
            v
        } else {
            0
        },
{
}

/// The body of a car comes back unchanged, whichever way it crosses first.
pub proof fn law_car_body_config_round_trip(c: CarBodyConfig, f: FfiCarBodyConfig)
    ensures
        ffi_to_car_body_config(&car_body_config_to_ffi(&c)) == c,
        car_body_config_to_ffi(&ffi_to_car_body_config(&f)) == f,
{
}

/// Mutators come back unchanged. The other way, the field that is not tracked is cleared and a
/// number that stands for no mode of demolition becomes 0.
pub proof fn law_mutator_config_round_trip(c: MutatorConfig, f: FfiMutatorConfig)
    ensures
        ffi_to_mutator_config(&mutator_config_to_ffi(&c)) == c,
        mutator_config_to_ffi(&ffi_to_mutator_config(&f)) == (FfiMutatorConfig {
            bump_requires_front_hit: false,
            demo_mode: if f.demo_mode <= 2 {
                f.demo_mode
            } else {
                0
            },
            ..f
        }),
{
}

} // verus!
