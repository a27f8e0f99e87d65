//! The constants of the extra impulse, in one place to tune.
use crate::sim::linear_piece_curve::LinearPieceCurve;
use crate::single::Single;
use vstd::prelude::*;

verus! {

/// How often the impulse may fire while the ball stays in contact with a car.
#[derive(Clone, Copy, Debug, PartialEq, Eq, Structural)]
pub enum HitCadence {
    /// On every tick of contact.
    EveryTick,
    /// On every other tick at most.
    EveryOtherTick,
    /// Once per contact; it re-arms after a tick without contact.
    OncePerEpisode,
}

/// Scale of the upward part of the hit direction, 0.35.
pub const Z_SCALE_NORMAL: u32 = 0x3eb3_3333;

/// The same for a grounded car in hoops, 0.5425.
pub const Z_SCALE_HOOPS_GROUND: u32 = 0x3f0a_e147;

/// How upright a car in hoops has to be for that scale, 0.1.
pub const Z_SCALE_HOOPS_NORMAL_Z_THRESH: u32 = 0x3dcc_cccd;

/// How little the hit direction is nudged forward, 0.65.
pub const FORWARD_SCALE: u32 = 0x3f26_6666;

/// The greatest relative speed that counts, 4600.
pub const MAX_DELTA_VEL_UU: u32 = 0x458f_c000;

/// The tunable constants of the extra impulse.
#[derive(Clone, Copy, Debug)]
pub struct BallHitConfig {
    /// The upward part of the hit direction is scaled by this.
    pub z_scale: Single,
    /// In hoops, the scale while the car is grounded and upright.
    pub z_scale_hoops_ground: Single,
    /// In hoops, the upward part of the car's up direction has to exceed this.
    pub z_scale_hoops_normal_z_thresh: Single,
    /// The hit direction is nudged toward the car's forward axis by what this leaves of 1: a
    /// smaller value gives a more forward-biased impulse.
    pub forward_scale: Single,
    /// Greater relative speeds count as this one.
    pub max_delta_vel_uu: Single,
    /// The impulse per relative speed, by relative speed.
    pub factor_curve: LinearPieceCurve<4>,
    /// How often the impulse may fire.
    pub cadence: HitCadence,
}

impl Default for BallHitConfig {
    fn default() -> (r: Self)
        ensures
            r.z_scale.bits == Z_SCALE_NORMAL,
            r.z_scale_hoops_ground.bits == Z_SCALE_HOOPS_GROUND,
            r.z_scale_hoops_normal_z_thresh.bits == Z_SCALE_HOOPS_NORMAL_Z_THRESH,
            r.forward_scale.bits == FORWARD_SCALE,
            r.max_delta_vel_uu.bits == MAX_DELTA_VEL_UU,
            r.factor_curve.value_mappings@ == seq![
                (Single { bits: 0 }, Single { bits: 0x3f26_6666 }),
                (Single { bits: 0x43fa_0000 }, Single { bits: 0x3f26_6666 }),
                (Single { bits: 0x450f_c000 }, Single { bits: 0x3f0c_cccd }),
                (Single { bits: 0x458f_c000 }, Single { bits: 0x3e99_999a }),
            ],
            r.cadence == HitCadence::EveryOtherTick,
    {
        // 0.65 up to a speed of 500, then down to 0.55 at 2300 and to 0.3 at 4600.
        let points: [(Single, Single); 4] = [
            (Single { bits: 0 }, Single { bits: 0x3f26_6666 }),
            (Single { bits: 0x43fa_0000 }, Single { bits: 0x3f26_6666 }),
            (Single { bits: 0x450f_c000 }, Single { bits: 0x3f0c_cccd }),
            (Single { bits: 0x458f_c000 }, Single { bits: 0x3e99_999a }),
        ];
        BallHitConfig {
            z_scale: Single { bits: Z_SCALE_NORMAL },
            z_scale_hoops_ground: Single { bits: Z_SCALE_HOOPS_GROUND },
            z_scale_hoops_normal_z_thresh: Single { bits: Z_SCALE_HOOPS_NORMAL_Z_THRESH },
            forward_scale: Single { bits: FORWARD_SCALE },
            max_delta_vel_uu: Single { bits: MAX_DELTA_VEL_UU },
            factor_curve: LinearPieceCurve { value_mappings: points },
            cadence: HitCadence::EveryOtherTick,
        }
    }
}

} // verus!
