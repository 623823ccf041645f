//! A turn-based dungeon simulation: room-and-corridor map generation, a
//! bounds-checked map query surface, field of view with a remembered-cells
//! mask, a monster policy, and the melee, damage and removal passes of one
//! simulation step.

pub mod rect;
pub mod map;
pub mod rng;
pub mod components;
pub mod visibility;
pub mod ai;
pub mod combat;
pub mod world;
pub mod connect;
