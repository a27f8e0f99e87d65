//! Recordings of a running game, and how they are brought onto the simulation's terms.
pub mod laws;
pub mod normalize;
pub mod records;
