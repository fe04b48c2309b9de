//! A turn-based dungeon simulation core: grid maps, level builders, the
//! entity world and its lifecycle, and the run-state scheduler.

pub mod grid;
pub mod common;
pub mod rng;
pub mod builder;
pub mod state;
pub mod world;
pub mod systems;
pub mod scheduler;
pub mod save_load;
pub mod player;
