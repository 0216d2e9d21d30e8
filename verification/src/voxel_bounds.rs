use vstd::prelude::*;

verus! {

/// Identity of one axis-aligned cube: a position given as a multiple of the
/// cube's edge length, plus the base-2 logarithm of that edge length.
/// Two bounds are equal exactly when all four fields match; a coarse cube is
/// a different key than any of the finer cubes it geometrically contains.
#[derive(Debug, Copy, Clone, PartialEq, Eq, Structural)]
pub struct VoxelBounds {
    /// x-coordinate as a multiple of 2^lg_size.
    pub x: i32,
    /// y-coordinate as a multiple of 2^lg_size.
    pub y: i32,
    /// z-coordinate as a multiple of 2^lg_size.
    pub z: i32,
    /// The log_2 of the voxel's edge length; negative for sub-unit cubes.
    pub lg_size: i16,
}

impl VoxelBounds {
    /// Builds a `VoxelBounds`. The coordinates are expressed in units of
    /// `2^lg_size`, i.e. they are the world position divided by `2^lg_size`.
    pub fn new(x: i32, y: i32, z: i32, lg_size: i16) -> (r: VoxelBounds)
        ensures
            r == (VoxelBounds { x, y, z, lg_size }),
    {
        VoxelBounds { x, y, z, lg_size }
    }
}

} // verus!
