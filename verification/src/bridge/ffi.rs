//! The flat structures that cross the boundary to other languages.
use crate::single::Single;
use vstd::prelude::*;

verus! {

#[derive(Clone, Copy, Debug, PartialEq, Eq, Structural)]
pub struct FfiVec {
    pub x: Single,
    pub y: Single,
    pub z: Single,
}

#[derive(Clone, Copy, Debug, PartialEq, Eq, Structural)]
pub struct FfiRotMat {
    pub forward_x: Single,
    pub forward_y: Single,
    pub forward_z: Single,
    pub right_x: Single,
    pub right_y: Single,
    pub right_z: Single,
    pub up_x: Single,
    pub up_y: Single,
    pub up_z: Single,
}

#[derive(Clone, Copy, Debug, PartialEq, Eq, Structural)]
pub struct FfiPhysState {
    pub pos: FfiVec,
    pub rot_mat: FfiRotMat,
    pub vel: FfiVec,
    pub ang_vel: FfiVec,
}

#[derive(Clone, Copy, Debug, PartialEq, Eq, Structural)]
pub struct FfiCarControls {
    pub throttle: Single,
    pub steer: Single,
    pub pitch: Single,
    pub yaw: Single,
    pub roll: Single,
    pub jump: bool,
    pub boost: bool,
    pub handbrake: bool,
}

#[derive(Clone, Copy, Debug, PartialEq, Eq, Structural)]
pub struct FfiCarState {
    pub phys: FfiPhysState,
    pub controls: FfiCarControls,
    pub prev_controls: FfiCarControls,
    pub is_on_ground: bool,
    pub wheels_with_contact_0: bool,
    pub wheels_with_contact_1: bool,
    pub wheels_with_contact_2: bool,
    pub wheels_with_contact_3: bool,
    pub has_jumped: bool,
    pub has_double_jumped: bool,
    pub has_flipped: bool,
    pub flip_rel_torque: FfiVec,
    pub jump_time: Single,
    pub flip_time: Single,
    pub is_flipping: bool,
    pub is_jumping: bool,
    pub air_time: Single,
    pub air_time_since_jump: Single,
    pub boost_amount: Single,
    pub time_since_boosted: Single,
    pub is_boosting: bool,
    pub boosting_time: Single,
    pub is_supersonic: bool,
    pub supersonic_time: Single,
    pub handbrake_val: Single,
    pub is_auto_flipping: bool,
    pub auto_flip_timer: Single,
    pub auto_flip_torque_scale: Single,
    pub bump_cooldown_timer: Single,
    pub has_world_contact: bool,
    pub world_contact_normal: FfiVec,
    pub is_demoed: bool,
    pub demo_respawn_timer: Single,
    /// Kept for the layout; never set.
    pub bump_cooldown_other_car_idx_valid: bool,
    pub bump_cooldown_other_car_idx: u32,
    pub last_extra_hit_tick_valid: bool,
    pub last_extra_hit_tick: u64,
}

#[derive(Clone, Copy, Debug, PartialEq)]
pub struct FfiBallState {
    pub phys: FfiPhysState,
    pub hs_y_target_dir: i8,
    pub hs_cur_target_speed: Single,
    pub hs_time_since_hit: Single,
    pub ds_charge_level: i32,
    pub ds_accumulated_hit_force: Single,
    pub ds_y_target_dir: i8,
    pub ds_has_damaged: bool,
    pub ds_last_damage_tick: u64,
    pub tick_count_since_kickoff: u64,
    pub last_extra_hit_tick_valid: bool,
    pub last_extra_hit_tick: u64,
}

#[derive(Clone, Copy, Debug, PartialEq, Eq, Structural)]
pub struct FfiBoostPadState {
    pub cooldown: Single,
    pub is_active: bool,
}

#[derive(Clone, Copy, Debug, PartialEq, Eq, Structural)]
pub struct FfiBoostPadConfig {
    pub pos: FfiVec,
    pub is_big: bool,
}

#[derive(Clone, Copy, Debug, PartialEq, Eq, Structural)]
pub struct FfiCarInfo {
    pub idx: u32,
    pub team: u8,
}

#[derive(Clone, Copy, Debug, PartialEq, Eq, Structural)]
pub struct FfiCarBodyConfig {
    pub hitbox_size: FfiVec,
    pub hitbox_pos_offset: FfiVec,
    pub front_wheel_radius: Single,
    pub front_suspension_rest: Single,
    pub front_connection_offset: FfiVec,
    pub back_wheel_radius: Single,
    pub back_suspension_rest: Single,
    pub back_connection_offset: FfiVec,
    pub three_wheels: bool,
    pub dodge_deadzone: Single,
}

#[derive(Clone, Copy, Debug, PartialEq, Eq, Structural)]
pub struct FfiArenaConfig {
    pub mem_weight_mode: u8,
    pub min_pos: FfiVec,
    pub max_pos: FfiVec,
    pub max_aabb_len: Single,
    pub no_ball_rot: bool,
}

#[derive(Clone, Copy, Debug, PartialEq, Eq, Structural)]
pub struct FfiMutatorConfig {
    pub gravity: FfiVec,
    pub car_mass: Single,
    pub ball_mass: Single,
    pub ball_max_speed: Single,
    pub ball_drag: Single,
    pub jump_accel: Single,
    pub jump_immediate_force: Single,
    pub boost_accel_ground: Single,
    pub boost_accel_air: Single,
    pub boost_used_per_second: Single,
    pub respawn_delay: Single,
    pub bump_cooldown_time: Single,
    pub car_max_boost_amount: Single,
    pub car_spawn_boost_amount: Single,
    pub boost_pad_amount_small: Single,
    pub boost_pad_amount_big: Single,
    pub boost_pad_cooldown_big: Single,
    pub boost_pad_cooldown_small: Single,
    pub ball_hit_extra_force_scale: Single,
    pub bump_force_scale: Single,
    /// Kept for the layout; never set.
    pub bump_requires_front_hit: bool,
    pub ball_radius: Single,
    pub unlimited_flips: bool,
    pub unlimited_double_jumps: bool,
    pub recharge_boost_enabled: bool,
    pub recharge_boost_per_second: Single,
    pub recharge_boost_delay: Single,
    pub demo_mode: u8,
    pub enable_team_demos: bool,
    pub goal_base_threshold_y: Single,
}

#[derive(Clone, Copy, Debug, PartialEq, Eq, Structural)]
pub struct FfiCarHitBallEvent {
    pub car_idx: u32,
    pub contact_point: FfiVec,
    pub extra_hit_vel: FfiVec,
}

#[derive(Clone, Copy, Debug, PartialEq, Eq, Structural)]
pub struct FfiCarHitCarEvent {
    pub bumper_car_idx: u32,
    pub victim_car_idx: u32,
    pub contact_point: FfiVec,
    pub is_demo: bool,
}

#[derive(Clone, Copy, Debug, PartialEq, Eq, Structural)]
pub struct FfiBallHitInfo {
    pub is_valid: bool,
    pub relative_pos_on_ball: FfiVec,
    pub ball_pos: FfiVec,
    pub extra_hit_vel: FfiVec,
    pub tick_count_when_hit: u64,
    pub tick_count_when_extra_impulse_applied: u64,
}

/// The zero vector.
pub open spec fn zero_vec() -> FfiVec {
    FfiVec { x: Single { bits: 0 }, y: Single { bits: 0 }, z: Single { bits: 0 } }
}

impl Default for FfiVec {
    fn default() -> (r: FfiVec)
        ensures
            r == zero_vec(),
    {
        FfiVec { x: Single { bits: 0 }, y: Single { bits: 0 }, z: Single { bits: 0 } }
    }
}

/// No hit.
pub open spec fn no_hit() -> FfiBallHitInfo {
    FfiBallHitInfo {
        is_valid: false,
        relative_pos_on_ball: zero_vec(),
        ball_pos: zero_vec(),
        extra_hit_vel: zero_vec(),
        tick_count_when_hit: 0,
        tick_count_when_extra_impulse_applied: 0,
    }
}

impl Default for FfiBallHitInfo {
    fn default() -> (r: FfiBallHitInfo)
        ensures
            r == no_hit(),
    {
        FfiBallHitInfo {
            is_valid: false,
            relative_pos_on_ball: FfiVec::default(),
            ball_pos: FfiVec::default(),
            extra_hit_vel: FfiVec::default(),
            tick_count_when_hit: 0,
            tick_count_when_extra_impulse_applied: 0,
        }
    }
}

/// Nothing but zeros.
pub open spec fn zero_rot_mat() -> FfiRotMat {
    FfiRotMat {
        forward_x: Single { bits: 0 },
        forward_y: Single { bits: 0 },
        forward_z: Single { bits: 0 },
        right_x: Single { bits: 0 },
        right_y: Single { bits: 0 },
        right_z: Single { bits: 0 },
        up_x: Single { bits: 0 },
        up_y: Single { bits: 0 },
        up_z: Single { bits: 0 },
    }
}

impl Default for FfiRotMat {
    fn default() -> (r: FfiRotMat)
        ensures
            r == zero_rot_mat(),
    {
        FfiRotMat {
            forward_x: Single { bits: 0 },
            forward_y: Single { bits: 0 },
            forward_z: Single { bits: 0 },
            right_x: Single { bits: 0 },
            right_y: Single { bits: 0 },
            right_z: Single { bits: 0 },
            up_x: Single { bits: 0 },
            up_y: Single { bits: 0 },
            up_z: Single { bits: 0 },
        }
    }
}

/// Nothing but zeros.
pub open spec fn zero_phys_state() -> FfiPhysState {
    FfiPhysState {
        pos: zero_vec(),
        rot_mat: zero_rot_mat(),
        vel: zero_vec(),
        ang_vel: zero_vec(),
    }
}

impl Default for FfiPhysState {
    fn default() -> (r: FfiPhysState)
        ensures
            r == zero_phys_state(),
    {
        FfiPhysState {
            pos: FfiVec::default(),
            rot_mat: FfiRotMat::default(),
            vel: FfiVec::default(),
            ang_vel: FfiVec::default(),
        }
    }
}

/// Nothing but zeros.
pub open spec fn no_controls() -> FfiCarControls {
    FfiCarControls {
        throttle: Single { bits: 0 },
        steer: Single { bits: 0 },
        pitch: Single { bits: 0 },
        yaw: Single { bits: 0 },
        roll: Single { bits: 0 },
        jump: false,
        boost: false,
        handbrake: false,
    }
}

impl Default for FfiCarControls {
    fn default() -> (r: FfiCarControls)
        ensures
            r == no_controls(),
    {
        FfiCarControls {
            throttle: Single { bits: 0 },
            steer: Single { bits: 0 },
            pitch: Single { bits: 0 },
            yaw: Single { bits: 0 },
            roll: Single { bits: 0 },
            jump: false,
            boost: false,
            handbrake: false,
        }
    }
}

/// Nothing but zeros.
pub open spec fn zero_car_state() -> FfiCarState {
    FfiCarState {
        phys: zero_phys_state(),
        controls: no_controls(),
        prev_controls: no_controls(),
        is_on_ground: false,
        wheels_with_contact_0: false,
        wheels_with_contact_1: false,
        wheels_with_contact_2: false,
        wheels_with_contact_3: false,
        has_jumped: false,
        has_double_jumped: false,
        has_flipped: false,
        flip_rel_torque: zero_vec(),
        jump_time: Single { bits: 0 },
        flip_time: Single { bits: 0 },
        is_flipping: false,
        is_jumping: false,
        air_time: Single { bits: 0 },
        air_time_since_jump: Single { bits: 0 },
        boost_amount: Single { bits: 0 },
        time_since_boosted: Single { bits: 0 },
        is_boosting: false,
        boosting_time: Single { bits: 0 },
        is_supersonic: false,
        supersonic_time: Single { bits: 0 },
        handbrake_val: Single { bits: 0 },
        is_auto_flipping: false,
        auto_flip_timer: Single { bits: 0 },
        auto_flip_torque_scale: Single { bits: 0 },
        bump_cooldown_timer: Single { bits: 0 },
        has_world_contact: false,
        world_contact_normal: zero_vec(),
        is_demoed: false,
        demo_respawn_timer: Single { bits: 0 },
        bump_cooldown_other_car_idx_valid: false,
        bump_cooldown_other_car_idx: 0,
        last_extra_hit_tick_valid: false,
        last_extra_hit_tick: 0,
    }
}

impl Default for FfiCarState {
    fn default() -> (r: FfiCarState)
        ensures
            r == zero_car_state(),
    {
        FfiCarState {
            phys: FfiPhysState::default(),
            controls: FfiCarControls::default(),
            prev_controls: FfiCarControls::default(),
            is_on_ground: false,
            wheels_with_contact_0: false,
            wheels_with_contact_1: false,
            wheels_with_contact_2: false,
            wheels_with_contact_3: false,
            has_jumped: false,
            has_double_jumped: false,
            has_flipped: false,
            flip_rel_torque: FfiVec::default(),
            jump_time: Single { bits: 0 },
            flip_time: Single { bits: 0 },
            is_flipping: false,
            is_jumping: false,
            air_time: Single { bits: 0 },
            air_time_since_jump: Single { bits: 0 },
            boost_amount: Single { bits: 0 },
            time_since_boosted: Single { bits: 0 },
            is_boosting: false,
            boosting_time: Single { bits: 0 },
            is_supersonic: false,
            supersonic_time: Single { bits: 0 },
            handbrake_val: Single { bits: 0 },
            is_auto_flipping: false,
            auto_flip_timer: Single { bits: 0 },
            auto_flip_torque_scale: Single { bits: 0 },
            bump_cooldown_timer: Single { bits: 0 },
            has_world_contact: false,
            world_contact_normal: FfiVec::default(),
            is_demoed: false,
            demo_respawn_timer: Single { bits: 0 },
            bump_cooldown_other_car_idx_valid: false,
            bump_cooldown_other_car_idx: 0,
            last_extra_hit_tick_valid: false,
            last_extra_hit_tick: 0,
        }
    }
}

/// Nothing but zeros.
pub open spec fn zero_ball_state() -> FfiBallState {
    FfiBallState {
        phys: zero_phys_state(),
        hs_y_target_dir: 0,
        hs_cur_target_speed: Single { bits: 0 },
        hs_time_since_hit: Single { bits: 0 },
        ds_charge_level: 0,
        ds_accumulated_hit_force: Single { bits: 0 },
        ds_y_target_dir: 0,
        ds_has_damaged: false,
        ds_last_damage_tick: 0,
        tick_count_since_kickoff: 0,
        last_extra_hit_tick_valid: false,
        last_extra_hit_tick: 0,
    }
}

impl Default for FfiBallState {
    fn default() -> (r: FfiBallState)
        ensures
            r == zero_ball_state(),
    {
        FfiBallState {
            phys: FfiPhysState::default(),
            hs_y_target_dir: 0,
            hs_cur_target_speed: Single { bits: 0 },
            hs_time_since_hit: Single { bits: 0 },
            ds_charge_level: 0,
            ds_accumulated_hit_force: Single { bits: 0 },
            ds_y_target_dir: 0,
            ds_has_damaged: false,
            ds_last_damage_tick: 0,
            tick_count_since_kickoff: 0,
            last_extra_hit_tick_valid: false,
            last_extra_hit_tick: 0,
        }
    }
}

/// Nothing but zeros.
pub open spec fn zero_boost_pad_state() -> FfiBoostPadState {
    FfiBoostPadState {
        cooldown: Single { bits: 0 },
        is_active: false,
    }
}

impl Default for FfiBoostPadState {
    fn default() -> (r: FfiBoostPadState)
        ensures
            r == zero_boost_pad_state(),
    {
        FfiBoostPadState {
            cooldown: Single { bits: 0 },
            is_active: false,
        }
    }
}

/// Nothing but zeros.
pub open spec fn zero_boost_pad_config() -> FfiBoostPadConfig {
    FfiBoostPadConfig {
        pos: zero_vec(),
        is_big: false,
    }
}

impl Default for FfiBoostPadConfig {
    fn default() -> (r: FfiBoostPadConfig)
        ensures
            r == zero_boost_pad_config(),
    {
        FfiBoostPadConfig {
            pos: FfiVec::default(),
            is_big: false,
        }
    }
}

/// Nothing but zeros.
pub open spec fn zero_car_info() -> FfiCarInfo {
    FfiCarInfo {
        idx: 0,
        team: 0,
    }
}

impl Default for FfiCarInfo {
    fn default() -> (r: FfiCarInfo)
        ensures
            r == zero_car_info(),
    {
        FfiCarInfo {
            idx: 0,
            team: 0,
        }
    }
}

/// Nothing but zeros.
pub open spec fn zero_car_body_config() -> FfiCarBodyConfig {
    FfiCarBodyConfig {
        hitbox_size: zero_vec(),
        hitbox_pos_offset: zero_vec(),
        front_wheel_radius: Single { bits: 0 },
        front_suspension_rest: Single { bits: 0 },
        front_connection_offset: zero_vec(),
        back_wheel_radius: Single { bits: 0 },
        back_suspension_rest: Single { bits: 0 },
        back_connection_offset: zero_vec(),
        three_wheels: false,
        dodge_deadzone: Single { bits: 0 },
    }
}

impl Default for FfiCarBodyConfig {
    fn default() -> (r: FfiCarBodyConfig)
        ensures
            r == zero_car_body_config(),
    {
        FfiCarBodyConfig {
            hitbox_size: FfiVec::default(),
            hitbox_pos_offset: FfiVec::default(),
            front_wheel_radius: Single { bits: 0 },
            front_suspension_rest: Single { bits: 0 },
            front_connection_offset: FfiVec::default(),
            back_wheel_radius: Single { bits: 0 },
            back_suspension_rest: Single { bits: 0 },
            back_connection_offset: FfiVec::default(),
            three_wheels: false,
            dodge_deadzone: Single { bits: 0 },
        }
    }
}

/// Nothing but zeros.
pub open spec fn zero_arena_config() -> FfiArenaConfig {
    FfiArenaConfig {
        mem_weight_mode: 0,
        min_pos: zero_vec(),
        max_pos: zero_vec(),
        max_aabb_len: Single { bits: 0 },
        no_ball_rot: false,
    }
}

impl Default for FfiArenaConfig {
    fn default() -> (r: FfiArenaConfig)
        ensures
            r == zero_arena_config(),
    {
        FfiArenaConfig {
            mem_weight_mode: 0,
            min_pos: FfiVec::default(),
            max_pos: FfiVec::default(),
            max_aabb_len: Single { bits: 0 },
            no_ball_rot: false,
        }
    }
}

/// Nothing but zeros.
pub open spec fn zero_mutator_config() -> FfiMutatorConfig {
    FfiMutatorConfig {
        gravity: zero_vec(),
        car_mass: Single { bits: 0 },
        ball_mass: Single { bits: 0 },
        ball_max_speed: Single { bits: 0 },
        ball_drag: Single { bits: 0 },
        jump_accel: Single { bits: 0 },
        jump_immediate_force: Single { bits: 0 },
        boost_accel_ground: Single { bits: 0 },
        boost_accel_air: Single { bits: 0 },
        boost_used_per_second: Single { bits: 0 },
        respawn_delay: Single { bits: 0 },
        bump_cooldown_time: Single { bits: 0 },
        car_max_boost_amount: Single { bits: 0 },
        car_spawn_boost_amount: Single { bits: 0 },
        boost_pad_amount_small: Single { bits: 0 },
        boost_pad_amount_big: Single { bits: 0 },
        boost_pad_cooldown_big: Single { bits: 0 },
        boost_pad_cooldown_small: Single { bits: 0 },
        ball_hit_extra_force_scale: Single { bits: 0 },
        bump_force_scale: Single { bits: 0 },
        bump_requires_front_hit: false,
        ball_radius: Single { bits: 0 },
        unlimited_flips: false,
        unlimited_double_jumps: false,
        recharge_boost_enabled: false,
        recharge_boost_per_second: Single { bits: 0 },
        recharge_boost_delay: Single { bits: 0 },
        demo_mode: 0,
        enable_team_demos: false,
        goal_base_threshold_y: Single { bits: 0 },
    }
}

impl Default for FfiMutatorConfig {
    fn default() -> (r: FfiMutatorConfig)
        ensures
            r == zero_mutator_config(),
    {
        FfiMutatorConfig {
            gravity: FfiVec::default(),
            car_mass: Single { bits: 0 },
            ball_mass: Single { bits: 0 },
            ball_max_speed: Single { bits: 0 },
            ball_drag: Single { bits: 0 },
            jump_accel: Single { bits: 0 },
            jump_immediate_force: Single { bits: 0 },
            boost_accel_ground: Single { bits: 0 },
            boost_accel_air: Single { bits: 0 },
            boost_used_per_second: Single { bits: 0 },
            respawn_delay: Single { bits: 0 },
            bump_cooldown_time: Single { bits: 0 },
            car_max_boost_amount: Single { bits: 0 },
            car_spawn_boost_amount: Single { bits: 0 },
            boost_pad_amount_small: Single { bits: 0 },
            boost_pad_amount_big: Single { bits: 0 },
            boost_pad_cooldown_big: Single { bits: 0 },
            boost_pad_cooldown_small: Single { bits: 0 },
            ball_hit_extra_force_scale: Single { bits: 0 },
            bump_force_scale: Single { bits: 0 },
            bump_requires_front_hit: false,
            ball_radius: Single { bits: 0 },
            unlimited_flips: false,
            unlimited_double_jumps: false,
            recharge_boost_enabled: false,
            recharge_boost_per_second: Single { bits: 0 },
            recharge_boost_delay: Single { bits: 0 },
            demo_mode: 0,
            enable_team_demos: false,
            goal_base_threshold_y: Single { bits: 0 },
        }
    }
}

/// Nothing but zeros.
pub open spec fn zero_car_hit_ball_event() -> FfiCarHitBallEvent {
    FfiCarHitBallEvent {
        car_idx: 0,
        contact_point: zero_vec(),
        extra_hit_vel: zero_vec(),
    }
}

impl Default for FfiCarHitBallEvent {
    fn default() -> (r: FfiCarHitBallEvent)
        ensures
            r == zero_car_hit_ball_event(),
    {
        FfiCarHitBallEvent {
            car_idx: 0,
            contact_point: FfiVec::default(),
            extra_hit_vel: FfiVec::default(),
        }
    }
}

/// Nothing but zeros.
pub open spec fn zero_car_hit_car_event() -> FfiCarHitCarEvent {
    FfiCarHitCarEvent {
        bumper_car_idx: 0,
        victim_car_idx: 0,
        contact_point: zero_vec(),
        is_demo: false,
    }
}

impl Default for FfiCarHitCarEvent {
    fn default() -> (r: FfiCarHitCarEvent)
        ensures
            r == zero_car_hit_car_event(),
    {
        FfiCarHitCarEvent {
            bumper_car_idx: 0,
            victim_car_idx: 0,
            contact_point: FfiVec::default(),
            is_demo: false,
        }
    }
}

} // verus!
