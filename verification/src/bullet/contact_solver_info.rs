//! Settings of the constraint solver, the fractions as bits of singles.
use vstd::prelude::*;

verus! {

/// How often the solver goes over all constraints.
pub const NUM_ITERATIONS: u32 = 10;

/// The part of each correction that is applied, 1.
pub const SOR: u32 = 0x3f80_0000;

/// The part of the penetration of a suspension ray that is pushed back, 0.1.
pub const WHEEL_PUSHBACK_ERP: u32 = 0x3dcc_cccd;

/// The part of a penetration that is pushed apart in a step, 0.8.
pub const ERP_2: u32 = 0x3f4c_cccd;

/// Beyond this penetration the push is part of the velocity, 1e30.
pub const SPLIT_IMPULSE_PENETRATION_THRESHOLD: u32 = 0x7149_f2ca;

/// The part of a turn out of a penetration that is applied, 0.1.
pub const SPLIT_IMPULSE_TURN_ERP: u32 = 0x3dcc_cccd;

/// The part of the last impulse to start from, 0.85.
pub const WARMSTARTING_FACTOR: u32 = 0x3f59_999a;

/// Below this speed along the normal a contact does not bounce, 0.2.
pub const RESTITUTION_VELOCITY_THRESHOLD: u32 = 0x3e4c_cccd;

} // verus!
