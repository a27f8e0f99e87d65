//! The game rules on top of the physics.
pub mod arena;
pub mod ball_hit;
pub mod linear_piece_curve;
pub mod types;
