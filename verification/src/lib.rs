//! A sparse voxel world and what is derived from it.
//!
//! The world is a coarse grid of macro-chunks. A mapping holds one entry for
//! each macro-chunk: 0 where the chunk was never populated, else the slot of
//! the voxel storage that holds the chunk's voxels. Slot 0 is the air
//! sentinel, so that unpopulated space reads as air without taking storage.
//!
//! - `pos_to_index`: coordinates and linear indices of a cubic grid.
//! - `shared`: the dimensions, the mapping, the voxel storage, the vertices.
//! - `clear`: the reset of a world.
//! - `claim`: the protocol by which a generator takes a slot for a chunk.
//! - `place_one_sphere`, `worlds`: the generators.
//! - `create_vertex_buffer`: the bounding geometry of the populated chunks.
//! - `trace`: the ray caster.

pub mod pos_to_index;
pub mod shared;
pub mod clear;
pub mod claim;
pub mod place_one_sphere;
pub mod worlds;
pub mod create_vertex_buffer;
pub mod trace;
mod random;
