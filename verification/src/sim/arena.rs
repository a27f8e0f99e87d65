//! Arenas, and what they keep track of.
pub mod arena_contact_tracker;
pub mod base;
pub mod tracker_laws;
