//! Seed-driven procedural dungeon generation: a tile grid, builders that lay
//! out rooms or caves, and modifiers that refine the layout and choose what
//! to spawn where.

pub mod map;
pub mod map_builder;
mod rng;
