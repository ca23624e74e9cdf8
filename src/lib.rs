//! The core of a 2D arcade shooter: an entity store with deferred
//! destruction, and the per-tick systems that move the player and its
//! lasers, spawn enemies, resolve hits and run explosions.
//!
//! Positions are integers in sub-pixel units, so that a tick moves an entity
//! by an exact amount and every contract can speak of exact values.
pub mod geometry;
pub mod laws;
pub mod store;
pub mod world;
