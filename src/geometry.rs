use vstd::prelude::*;

verus! {

/// World units covered by one grid cell, along each axis.
pub const CELL_SIZE: i64 = 2;

/// A vector on the ground plane (the world's X/Z plane), in whole world units.
/// Used both for positions and for sizes.
#[derive(Clone, Copy, Debug, PartialEq, Eq, Structural)]
pub struct GroundVec {
    pub x: i32,
    pub z: i32,
}

impl GroundVec {
    pub fn new(x: i32, z: i32) -> (r: GroundVec)
        ensures
            r.x == x,
            r.z == z,
    {
        GroundVec { x, z }
    }
}

/// A world-space point produced from a grid cell, in half world units:
/// `x2` and `z2` are twice the world coordinates, so that the corners of
/// regions with odd extents are exact. They can lie beyond the range of the
/// inputs, so they are wider.
#[derive(Clone, Copy, Debug, PartialEq, Eq, Structural)]
pub struct Waypoint {
    pub x2: i64,
    pub z2: i64,
}

/// `p` lies within `center ± extent / 2`, both ends included.
/// Doubling both sides keeps the comparison exact for odd extents.
pub open spec fn within_axis(center: int, extent: int, p: int) -> bool {
    2 * center - extent <= 2 * p && 2 * p <= 2 * center + extent
}

pub fn is_within_axis(center: i32, extent: i32, p: i32) -> (r: bool)
    ensures
        r == within_axis(center as int, extent as int, p as int),
{
    let c = center as i64;
    let e = extent as i64;
    let q = p as i64;
    2 * c - e <= 2 * q && 2 * q <= 2 * c + e
}

/// Twice the world coordinate of the region's minimum corner along an axis,
/// `center - extent / 2`, exact for odd extents.
pub open spec fn axis_origin2(center: int, extent: int) -> int {
    2 * center - extent
}

pub fn origin2_on_axis(center: i32, extent: i32) -> (r: i64)
    ensures
        r == axis_origin2(center as int, extent as int),
{
    2 * (center as i64) - extent as i64
}

/// The cell that holds a world coordinate, given as twice its offset from
/// the axis origin (so that half units are exact): the offset divided by the
/// cell size and rounded down, then clamped to `0 ..= count - 1`; `-1`,
/// off the grid, when there are no cells along the axis.
pub open spec fn cell_index(offset2: int, count: int) -> int {
    if count <= 0 {
        -1
    } else if offset2 < 0 {
        0
    } else if offset2 / (2 * CELL_SIZE) >= count {
        count - 1
    } else {
        offset2 / (2 * CELL_SIZE)
    }
}

pub fn to_cell(offset2: i64, count: i64) -> (r: i64)
    requires
        count >= 0,
    ensures
        r == cell_index(offset2 as int, count as int),
        count >= 1 ==> 0 <= r < count,
        count == 0 ==> r == -1,
{
    if count == 0 {
        -1
    } else if offset2 < 0 {
        0
    } else if offset2 / (2 * CELL_SIZE) >= count {
        count - 1
    } else {
        offset2 / (2 * CELL_SIZE)
    }
}

/// Twice the world coordinate of a cell's lower edge, from twice the
/// axis origin.
pub open spec fn cell_world2(origin2: int, cell: int) -> int {
    origin2 + 2 * CELL_SIZE * cell
}

pub fn to_world2(origin2: i64, cell: i32) -> (r: i64)
    requires
        -0x2_0000_0000 <= origin2 <= 0x2_0000_0000,
    ensures
        r == cell_world2(origin2 as int, cell as int),
{
    let per_cell: i64 = 2 * CELL_SIZE;
    assert(per_cell == 4);
    origin2 + per_cell * (cell as i64)
}

} // verus!
