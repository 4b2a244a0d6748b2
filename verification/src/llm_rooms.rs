//! A set of room designs sketched as building scripts. The sketches did not
//! hold up, so none of them is offered as an example.
use vstd::prelude::*;
use crate::city::Cell;
use crate::sparse3d::Sparse3D;

verus! {

/// The sketched rooms that are offered as examples: none.
pub fn rooms() -> (r: Vec<Sparse3D<Cell>>)
    ensures
        r@.len() == 0,
{
    Vec::new()
}

} // verus!
