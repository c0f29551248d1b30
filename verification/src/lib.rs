//! Voxel-editing core: a fixed 8x8x8 occupancy grid, an autotiling
//! classifier that matches a cell's neighborhood against the 24 cube
//! rotations, an exact voxel ray caster, and the edit / scene-sync rules
//! built on them.

pub mod autotile;
pub mod chunk;
pub mod classify;
pub mod picking;
pub mod tileset;
pub mod tile_kind;
pub mod world;
