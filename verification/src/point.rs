use vstd::prelude::*;

verus! {

/// A point of the world in fixed-point coordinates: x, y and z, each in
/// units of 1/65536 of the edge of the smallest voxel.
pub type Point = [i32; 3];

/// The number of fixed-point units in the edge of the smallest voxel.
pub const UNIT: i32 = 65536;

} // verus!
