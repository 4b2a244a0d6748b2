//! The T-intersection road next to the city and the zone above it where
//! nothing may be built.
use vstd::prelude::*;
use crate::sparse3d::{Slot, SlotCoord};

verus! {

/// Width of each road arm in grid units.
pub const ROAD_WIDTH: i32 = 4;

/// The lowest `y` at which construction is permitted above column `(x, z)`;
/// lower `y` are forbidden. The east-west road covers `0 <= z < ROAD_WIDTH`
/// for every `x`; the north arm covers `0 <= x < ROAD_WIDTH` for
/// `z >= ROAD_WIDTH`. Edge rows/columns of an arm are 3 high, interior ones 4;
/// columns off the road are unrestricted (0).
pub open spec fn spec_road_forbidden_height(x: int, z: int) -> int {
    let w = ROAD_WIDTH as int;
    if 0 <= z < w {
        if z == 0 || z == w - 1 { 3 } else { 4 }
    } else if 0 <= x < w && z >= w {
        if x == 0 || x == w - 1 { 3 } else { 4 }
    } else {
        0
    }
}

/// Whether the cube at `(x, y, z)` lies in the forbidden zone.
pub open spec fn cube_forbidden(x: int, y: int, z: int) -> bool {
    y < spec_road_forbidden_height(x, z)
}

/// Whether a slot is in the forbidden zone: a room or floor when its cube is;
/// a wall, which lies between two cubes, only when both are.
pub open spec fn spec_in_road_forbidden_zone(loc: SlotCoord) -> bool {
    let (x, y, z) = (loc.cube.x as int, loc.cube.y as int, loc.cube.z as int);
    match loc.slot {
        Slot::Room | Slot::Floor => cube_forbidden(x, y, z),
        Slot::ZLoWall => cube_forbidden(x, y, z - 1) && cube_forbidden(x, y, z),
        Slot::XLoWall => cube_forbidden(x - 1, y, z) && cube_forbidden(x, y, z),
    }
}

/// Returns the lowest `y` at which construction is permitted above this
/// `(x, z)` column.
pub fn road_forbidden_height(x: i32, z: i32) -> (h: i32)
    ensures
        h == spec_road_forbidden_height(x as int, z as int),
{
    let in_ew = 0 <= z && z < ROAD_WIDTH;
    let in_north = 0 <= x && x < ROAD_WIDTH && z >= ROAD_WIDTH;

    if in_ew {
        if z == 0 || z == ROAD_WIDTH - 1 {
            3
        } else {
            4
        }
    } else if in_north {
        if x == 0 || x == ROAD_WIDTH - 1 {
            3
        } else {
            4
        }
    } else {
        0
    }
}

/// Returns true if `loc` is inside the road's forbidden zone, taking slot
/// geometry into account so that walls flush with the road edge are allowed.
pub fn is_in_road_forbidden_zone(loc: SlotCoord) -> (b: bool)
    requires
        loc.slot is ZLoWall ==> loc.cube.z > i32::MIN,
        loc.slot is XLoWall ==> loc.cube.x > i32::MIN,
    ensures
        b == spec_in_road_forbidden_zone(loc),
{
    let x = loc.cube.x;
    let y = loc.cube.y;
    let z = loc.cube.z;

    match loc.slot {
        Slot::Room | Slot::Floor => y < road_forbidden_height(x, z),
        Slot::ZLoWall => y < road_forbidden_height(x, z - 1) && y < road_forbidden_height(x, z),
        Slot::XLoWall => y < road_forbidden_height(x - 1, z) && y < road_forbidden_height(x, z),
    }
}

/// Above the road the zone is never lower than the edge height 3, and never
/// higher than 4 anywhere.
pub proof fn lemma_road_height_bounds(x: int, z: int)
    ensures
        0 <= spec_road_forbidden_height(x, z) <= 4,
        (0 <= z < ROAD_WIDTH as int) ==> spec_road_forbidden_height(x, z) >= 3,
        z < 0 ==> spec_road_forbidden_height(x, z) == 0,
{
}


/// Each road arm is exactly `ROAD_WIDTH` (4) columns wide: a column is
/// restricted exactly when it lies on the east-west road (`0 <= z < 4`) or
/// on the north arm (`0 <= x < 4`, `z >= 4`); beside the north arm, and
/// south of the road, nothing is restricted.
pub proof fn lemma_road_arms_are_road_width(x: int, z: int)
    ensures
        ROAD_WIDTH == 4,
        (spec_road_forbidden_height(x, z) != 0) <==> ((0 <= z < 4) || (z >= 4 && 0 <= x < 4)),
        z >= 4 && (x < 0 || x >= 4) ==> spec_road_forbidden_height(x, z) == 0,
{
}

} // verus!
