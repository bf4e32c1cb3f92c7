use vstd::prelude::*;

use vstd::string::StringExecFns;

use crate::comm::text::{append_decimal, decimal};
use crate::transform::direction::Direction;
use crate::transform::position::Position;

verus! {

/// What a distance sensor reported.
#[derive(Copy, Clone, Debug, PartialEq, Eq, Hash, Structural)]
pub enum MeasurementValue {
    /// The sensor saw no wall within its range: there is free space for at least
    /// `at_least_cells` cells (0 means no information beyond the current cell).
    OutsideRange { at_least_cells: u32 },
    /// The sensor saw a wall after `cells` free cells (0 means a wall right at the
    /// border of the current cell).
    Value { cells: u32 },
}

/// A sensor reading taken at a cell, looking in an absolute direction.
#[derive(Copy, Clone, Debug, PartialEq, Eq, Hash, Structural)]
pub struct Measurement {
    pub value: MeasurementValue,
    pub direction: Direction,
    pub position: Position,
}

/// Number of free cells a measurement value reports.
pub open spec fn measurement_depth(v: MeasurementValue) -> u32 {
    match v {
        MeasurementValue::OutsideRange { at_least_cells } => at_least_cells,
        MeasurementValue::Value { cells } => cells,
    }
}

/// Whether a measurement value reports a wall at the end of the free cells.
pub open spec fn measurement_hits_wall(v: MeasurementValue) -> bool {
    v is Value
}

/// The text of a measurement value: the number of cells, then `|` for a wall seen there or
/// `+` for free space beyond.
pub open spec fn measurement_value_text(v: MeasurementValue) -> Seq<char> {
    match v {
        MeasurementValue::OutsideRange { at_least_cells } => decimal(at_least_cells as nat) + seq!['+'],
        MeasurementValue::Value { cells } => decimal(cells as nat) + seq!['|'],
    }
}

impl MeasurementValue {
    /// The value as text (see `measurement_value_text`).
    pub fn to_text(&self) -> (r: String)
        ensures
            r@ == measurement_value_text(*self),
    {
        proof {
            reveal_strlit("+");
            reveal_strlit("|");
        }
        let mut s = String::new();
        match self {
            MeasurementValue::OutsideRange { at_least_cells } => {
                append_decimal(&mut s, *at_least_cells as u64);
                s.append("+");
            },
            MeasurementValue::Value { cells } => {
                append_decimal(&mut s, *cells as u64);
                s.append("|");
            },
        }
        proof {
            assert(s@ =~= measurement_value_text(*self));
        }
        s
    }
}

} // verus!
