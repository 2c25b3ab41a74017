//! Voxel data types and the sparse octree that stores them.

use vstd::prelude::*;

pub mod bounds;
pub mod brush;
pub mod impls;
pub mod scale;
pub mod tree;

verus! {

/// The interface provided by Voxels: what a tree asks of its payload. A
/// voxel type has it for every kind of mosaic that can paint it.
pub trait T<Mosaic>: Sized {
    /// Apply a brush to this voxel, which is stored for `bounds`.
    fn brush(this: &mut Self, bounds: &bounds::T, brush: &mut brush::T<Mosaic>);
}

} // verus!
