//! What a recording holds for each tick, as far as it matters here.
use crate::math::Vec3A;
use crate::single::Single;
use vstd::prelude::*;

verus! {

/// The buttons that were applied over the step into a tick.
#[derive(Clone, Copy, Debug, PartialEq, Eq, Structural)]
pub struct ControlsRecord {
    pub jump: bool,
    pub handbrake: bool,
}

#[derive(Clone, Copy, Debug, PartialEq, Eq, Structural)]
pub struct PhysRecord {
    pub physics_frame: u32,
    pub pos: Vec3A,
    pub lin_vel: Vec3A,
}

#[derive(Clone, Copy, Debug, PartialEq, Eq, Structural)]
pub struct CarRecord {
    pub phys: PhysRecord,
    pub is_on_ground: bool,
    pub is_jumping: bool,
    pub is_flipping: bool,
    pub jump_time: Single,
    pub prev_controls: ControlsRecord,
    pub is_demoed: bool,
    pub handbrake_val: Single,
}

/// One tick of a recording.
#[derive(Debug)]
pub struct TickRecord {
    pub car_records: Vec<CarRecord>,
    pub ball_record: PhysRecord,
}

} // verus!
