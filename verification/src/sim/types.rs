//! The state of cars, the ball, boost pads and their settings.
use crate::math::{Mat3A, Vec3A};
use crate::single::Single;
use vstd::prelude::*;

verus! {

/// The rules that an arena plays by.
#[derive(Clone, Copy, Debug, PartialEq, Eq, Structural)]
pub enum GameMode {
    Soccar,
    Hoops,
    Heatseeker,
    Snowday,
    Dropshot,
    TheVoid,
}

#[derive(Clone, Copy, Debug, PartialEq, Eq, Structural)]
pub enum Team {
    Blue,
    Orange,
}

/// Where a body is and how it moves.
#[derive(Clone, Copy, Debug, PartialEq, Eq, Structural)]
pub struct PhysState {
    pub pos: Vec3A,
    pub rot_mat: Mat3A,
    pub vel: Vec3A,
    pub ang_vel: Vec3A,
}

#[derive(Clone, Copy, Debug, PartialEq, Eq, Structural)]
pub struct CarControls {
    pub throttle: Single,
    pub steer: Single,
    pub pitch: Single,
    pub yaw: Single,
    pub roll: Single,
    pub jump: bool,
    pub boost: bool,
    pub handbrake: bool,
}

#[derive(Clone, Copy, Debug, PartialEq)]
pub struct CarState {
    pub phys: PhysState,
    pub controls: CarControls,
    pub prev_controls: CarControls,
    pub is_on_ground: bool,
    pub wheels_with_contact: [bool; 4],
    pub has_jumped: bool,
    pub has_double_jumped: bool,
    pub has_flipped: bool,
    pub flip_rel_torque: Vec3A,
    pub jump_time: Single,
    pub flip_time: Single,
    pub is_flipping: bool,
    pub is_jumping: bool,
    pub air_time: Single,
    pub air_time_since_jump: Single,
    pub boost: Single,
    pub time_since_boosted: Single,
    pub is_boosting: bool,
    pub boosting_time: Single,
    pub is_supersonic: bool,
    pub supersonic_time: Single,
    pub handbrake_val: Single,
    pub is_auto_flipping: bool,
    pub auto_flip_timer: Single,
    pub auto_flip_torque_scale: Single,
    pub bump_cooldown_timer: Single,
    pub world_contact_normal: Option<Vec3A>,
    pub is_demoed: bool,
    pub demo_respawn_timer: Single,
}

#[derive(Clone, Copy, Debug, PartialEq)]
pub struct HeatseekerInfo {
    pub y_target_dir: i8,
    pub cur_target_speed: Single,
    pub time_since_hit: Single,
}

#[derive(Clone, Copy, Debug, PartialEq)]
pub struct DropshotInfo {
    pub charge_level: u8,
    pub accumulated_hit_force: Single,
    pub y_target_dir: i8,
    pub last_damage_tick: Option<u64>,
}

#[derive(Clone, Copy, Debug, PartialEq)]
pub struct BallState {
    pub phys: PhysState,
    pub hs_info: HeatseekerInfo,
    pub ds_info: DropshotInfo,
    pub last_extra_hit_tick: Option<u64>,
    pub tick_count_since_kickoff: u64,
}

#[derive(Clone, Copy, Debug, PartialEq, Eq, Structural)]
pub struct WheelPairConfig {
    pub wheel_radius: Single,
    pub suspension_rest_length: Single,
    pub connection_point_offset: Vec3A,
}

#[derive(Clone, Copy, Debug, PartialEq, Eq, Structural)]
pub struct CarBodyConfig {
    pub hitbox_size: Vec3A,
    pub hitbox_pos_offset: Vec3A,
    pub front_wheels: WheelPairConfig,
    pub back_wheels: WheelPairConfig,
    pub three_wheels: bool,
    pub dodge_deadzone: Single,
}

#[derive(Clone, Copy, Debug, PartialEq, Eq, Structural)]
pub struct CarInfo {
    pub idx: usize,
    pub team: Team,
    pub config: CarBodyConfig,
}

#[derive(Clone, Copy, Debug, PartialEq, Eq, Structural)]
pub enum DemoMode {
    Normal,
    OnContact,
    Disabled,
}

#[derive(Clone, Copy, Debug, PartialEq, Eq, Structural)]
pub struct MutatorConfig {
    pub gravity: Vec3A,
    pub car_mass: Single,
    pub ball_mass: Single,
    pub ball_max_speed: Single,
    pub ball_drag: Single,
    pub jump_accel: Single,
    pub jump_immediate_force: Single,
    pub boost_accel_ground: Single,
    pub boost_accel_air: Single,
    pub boost_used_per_second: Single,
    pub respawn_delay: Single,
    pub bump_cooldown_time: Single,
    pub car_max_boost_amount: Single,
    pub car_spawn_boost_amount: Single,
    pub boost_pad_amount_small: Single,
    pub boost_pad_amount_big: Single,
    pub boost_pad_cooldown_big: Single,
    pub boost_pad_cooldown_small: Single,
    pub ball_hit_extra_force_scale: Single,
    pub bump_force_scale: Single,
    pub ball_radius: Single,
    pub unlimited_flips: bool,
    pub unlimited_double_jumps: bool,
    pub recharge_boost_enabled: bool,
    pub recharge_boost_per_second: Single,
    pub recharge_boost_delay: Single,
    pub demo_mode: DemoMode,
    pub enable_team_demos: bool,
    pub goal_base_threshold_y: Single,
}

#[derive(Clone, Copy, Debug, PartialEq, Eq, Structural)]
pub struct BoostPadState {
    /// Seconds until the pad can be taken.
    pub cooldown: Single,
}

#[derive(Clone, Copy, Debug, PartialEq, Eq, Structural)]
pub struct BoostPadConfig {
    pub pos: Vec3A,
    pub is_big: bool,
}

} // verus!
