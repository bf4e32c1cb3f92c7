use vstd::prelude::*;

use crate::transform::direction::Direction;

verus! {

/// A cell of a flood-fill flow field: the direction it is best entered in, the cost of getting
/// there and how many forward moves in a row end there.
#[derive(Clone, Copy, Debug, PartialEq, Eq, Structural)]
pub struct FlowFieldCell {
    enter_in_direction: Direction,
    total_cost: usize,
    fwd_streak: usize,
}

} // verus!
