//! Numbers of the game, as bits of singles.
use vstd::prelude::*;

verus! {

/// Game units per physics unit, 50.
pub const BT_TO_UU: u32 = 0x4248_0000;

/// Physics units per game unit, 1 / 50.
pub const UU_TO_BT: u32 = 0x3ca3_d70a;

/// Where a goal begins along the field, 5124.25.
pub const SOCCAR_GOAL_SCORE_BASE_THRESHOLD_Y: u32 = 0x45a0_2200;

/// Half the width of a goal, 892.755.
pub const SOCCAR_GOAL_HALF_WIDTH: u32 = 0x445f_3052;

/// The height of a goal, 642.775.
pub const SOCCAR_GOAL_HEIGHT: u32 = 0x4420_b19a;

/// The difference between 1 and the next single, 2^-23.
pub const EPSILON: u32 = 0x3400_0000;

/// The largest finite single.
pub const MAX: u32 = 0x7f7f_ffff;

} // verus!
