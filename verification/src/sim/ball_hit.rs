//! The extra impulse on the ball when a car hits it.
//!
//! The contact machinery only detects that a car and the ball touch. The extra impulse is a
//! function of how they touch and of a [`config::BallHitConfig`]; how often it may fire is a
//! [`config::HitCadence`].
pub mod config;
pub mod forward_bias;
pub mod impulse;
pub mod impulse_laws;
pub mod state;
