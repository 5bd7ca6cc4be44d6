//! Deterministic collision and kinematics core of a tile-based 2D platform
//! simulation: a bit-packed cell store, a region-bucketed broadphase with
//! reference-counted pairs, exact box intersection, the player state machine
//! with its terrain correction, and the fixed per-tick pipeline of a world.

pub mod body;
pub mod cells;
pub mod clock;
pub mod engine;
pub mod grid;
pub mod world;

pub use crate::engine::Direction;
pub use crate::world::World;
