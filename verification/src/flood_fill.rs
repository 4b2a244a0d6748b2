//! Seeds for fills that spread from the open sky.
use vstd::prelude::*;
use crate::city::Cell;
use crate::sparse3d::{IVec3, Slot, SlotCoord, Sparse3D};

verus! {

/// No floor lies in the column of `cube` above it, up to and including
/// layer `top_y`.
pub open spec fn open_to_sky(contents: Sparse3D<Cell>, cube: IVec3, top_y: i32) -> bool {
    forall|y: int| cube.y < y <= top_y ==>
        (#[trigger] contents.at(SlotCoord { cube: IVec3 { x: cube.x, y: y as i32, z: cube.z }, slot: Slot::Floor })) is None
}

/// Whether `cube` sees the sky straight up: no floor above it up to layer
/// `top_y` (see `open_to_sky`).
pub fn has_sky_above(contents: &Sparse3D<Cell>, cube: IVec3, top_y: i32) -> (b: bool)
    requires
        contents.wf(),
        cube.y < i32::MAX,
    ensures
        b == open_to_sky(*contents, cube, top_y),
{
    let mut y: i64 = cube.y as i64 + 1;
    while y <= top_y as i64
        invariant
            cube.y + 1 <= y <= i32::MAX as int + 1,
            y <= top_y + 1 || y == cube.y + 1,
            contents.wf(),
            forall|v: int| cube.y < v < y ==>
                (#[trigger] contents.at(SlotCoord { cube: IVec3 { x: cube.x, y: v as i32, z: cube.z }, slot: Slot::Floor })) is None,
        decreases top_y + 1 - y,
    {
        let loc = SlotCoord { cube: IVec3 { x: cube.x, y: y as i32, z: cube.z }, slot: Slot::Floor };
        proof {
            crate::sparse3d::lemma_slot_position(contents.entries(), loc);
        }
        if contents.get(loc).is_some() {
            return false;
        }
        y += 1;
    }
    true
}

} // verus!
