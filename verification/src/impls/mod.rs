//! Voxel payload types.

pub mod surface_vertex;
