//! The logic of a car-football simulation, proved: contacts and their solution, the step of a world
//! of bodies, the rules of a hit, recordings, and the functions that other languages call.
pub mod bounds;
pub mod bridge;
pub mod bullet;
pub mod consts;
pub mod math;
pub mod math_errors;
pub mod reals;
pub mod recording;
pub mod rounding;
pub mod sim;
pub mod single;
pub mod single_errors;
pub mod single_laws;
