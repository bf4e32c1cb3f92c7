use vstd::prelude::*;

use crate::transform::position::PositionOffset;

verus! {

/// One of the four axis directions of the maze grid. The y-axis points down,
/// as rows grow downward in the usual 2D-array layout.
#[derive(Debug, Clone, Copy, PartialEq, Eq, Hash, Structural)]
pub enum Direction {
    PosX,
    PosY,
    NegX,
    NegY,
}

/// A direction as a unit vector of the grid.
#[derive(Debug, Clone, Copy, PartialEq, Eq, Hash, Structural)]
pub struct DirectionNormalizedVector {
    pub x: i8,
    pub y: i8,
}

/// A direction relative to the way the mouse is facing.
#[derive(Debug, Clone, Copy, PartialEq, Eq, Hash, Structural)]
pub enum RelativeDirection {
    Forward,
    Left,
    Right,
}

/// x-component of the unit vector of a direction.
pub open spec fn dir_dx(d: Direction) -> int {
    match d {
        Direction::PosX => 1,
        Direction::NegX => -1,
        _ => 0,
    }
}

/// y-component of the unit vector of a direction.
pub open spec fn dir_dy(d: Direction) -> int {
    match d {
        Direction::PosY => 1,
        Direction::NegY => -1,
        _ => 0,
    }
}

/// Position of a direction in the counter-clockwise cycle
/// `PosX, NegY, NegX, PosY` (with y pointing down, `NegY` is "up").
pub open spec fn rotation_index_spec(d: Direction) -> int {
    match d {
        Direction::PosX => 0,
        Direction::NegY => 1,
        Direction::NegX => 2,
        Direction::PosY => 3,
    }
}

/// The direction at a (non-negative, reduced) index of the counter-clockwise cycle.
pub open spec fn direction_at_rotation_index(i: int) -> Direction {
    if i == 0 {
        Direction::PosX
    } else if i == 1 {
        Direction::NegY
    } else if i == 2 {
        Direction::NegX
    } else {
        Direction::PosY
    }
}

/// The direction reached by turning `d` by `k` quarter turns counter-clockwise
/// (negative `k` turns clockwise).
pub open spec fn rotated_spec(d: Direction, k: int) -> Direction {
    direction_at_rotation_index((rotation_index_spec(d) + k) % 4)
}

/// Which absolute direction a relative direction points to when the mouse faces `fwd`.
pub open spec fn transform_by_spec(r: RelativeDirection, fwd: Direction) -> Direction {
    match r {
        RelativeDirection::Forward => fwd,
        RelativeDirection::Left => rotated_spec(fwd, 1),
        RelativeDirection::Right => rotated_spec(fwd, -1),
    }
}

impl From<Direction> for DirectionNormalizedVector {
    fn from(value: Direction) -> (r: Self) {
        match value {
            Direction::PosX => Self { x: 1, y: 0 },
            Direction::PosY => Self { x: 0, y: 1 },
            Direction::NegX => Self { x: -1, y: 0 },
            Direction::NegY => Self { x: 0, y: -1 },
        }
    }
}

impl vstd::std_specs::convert::FromSpecImpl<Direction> for DirectionNormalizedVector {
    open spec fn obeys_from_spec() -> bool {
        true
    }

    open spec fn from_spec(v: Direction) -> Self {
        DirectionNormalizedVector { x: dir_dx(v) as i8, y: dir_dy(v) as i8 }
    }
}

impl RelativeDirection {
    /// The absolute direction this relative direction points to, for a mouse facing
    /// `forward_direction`.
    pub fn transform_by(&self, forward_direction: &Direction) -> (r: Direction)
        ensures
            r == transform_by_spec(*self, *forward_direction),
    {
        match self {
            RelativeDirection::Forward => *forward_direction,
            RelativeDirection::Left => match forward_direction {
                Direction::PosX => Direction::NegY,
                Direction::PosY => Direction::PosX,
                Direction::NegX => Direction::PosY,
                Direction::NegY => Direction::NegX,
            },
            RelativeDirection::Right => match forward_direction {
                Direction::PosX => Direction::PosY,
                Direction::PosY => Direction::NegX,
                Direction::NegX => Direction::NegY,
                Direction::NegY => Direction::PosX,
            },
        }
    }

    /// The one-letter wire name of the direction: `F`, `L` or `R`.
    pub fn as_str(&self) -> (s: &'static str)
        ensures
            s@ == relative_direction_text(*self),
    {
        proof {
            reveal_strlit("F");
            reveal_strlit("L");
            reveal_strlit("R");
        }
        match self {
            RelativeDirection::Forward => "F",
            RelativeDirection::Left => "L",
            RelativeDirection::Right => "R",
        }
    }
}

/// The one-letter wire name of a relative direction.
pub open spec fn relative_direction_text(r: RelativeDirection) -> Seq<char> {
    match r {
        RelativeDirection::Forward => seq!['F'],
        RelativeDirection::Left => seq!['L'],
        RelativeDirection::Right => seq!['R'],
    }
}

impl Direction {
    /// The position of this direction in the counter-clockwise cycle
    /// `PosX, NegY, NegX, PosY`.
    pub fn rotation_index(&self) -> (i: usize)
        ensures
            i as int == rotation_index_spec(*self),
    {
        match self {
            Direction::PosX => 0,
            Direction::NegY => 1,
            Direction::NegX => 2,
            Direction::PosY => 3,
        }
    }

    /// The direction at an index of the counter-clockwise cycle `PosX, NegY, NegX, PosY`.
    pub fn counter_clockwise_rotation(i: usize) -> (d: Direction)
        requires
            i < 4,
        ensures
            d == direction_at_rotation_index(i as int),
            rotation_index_spec(d) == i,
    {
        if i == 0 {
            Direction::PosX
        } else if i == 1 {
            Direction::NegY
        } else if i == 2 {
            Direction::NegX
        } else {
            Direction::PosY
        }
    }

    /// Turns the direction by `interval_counter_clockwise` quarter turns
    /// (negative values turn clockwise). The index arithmetic is done in `i8`, so
    /// the turned index must stay within `-127..=127`.
    pub fn rotated(&self, interval_counter_clockwise: i8) -> (r: Self)
        requires
            -127 <= rotation_index_spec(*self) + interval_counter_clockwise <= 127,
        ensures
            r == rotated_spec(*self, interval_counter_clockwise as int),
    {
        let rot_idx = self.rotation_index();
        let transformed_rot_idx: i8 = rot_idx as i8 + interval_counter_clockwise;
        let idx: usize = if transformed_rot_idx >= 0 {
            transformed_rot_idx as usize % 4
        } else {
            let from_last: i8 = (-transformed_rot_idx - 1) % 4;
            3 - from_last as usize
        };
        assert(idx as int == (rotation_index_spec(*self) + interval_counter_clockwise) % 4);
        Self::counter_clockwise_rotation(idx)
    }

    /// The offset of walking `steps` cells in this direction.
    pub fn steps_in_dir(self, steps: u8) -> (o: PositionOffset)
        ensures
            o.d_x == dir_dx(self) * steps,
            o.d_y == dir_dy(self) * steps,
    {
        let dir_vec: DirectionNormalizedVector = DirectionNormalizedVector::from(self);
        let d_x = dir_vec.x;
        let d_y = dir_vec.y;
        assert(d_x == dir_dx(self) && d_y == dir_dy(self));
        assert(-255 <= d_x as i32 * steps as i32 <= 255) by (nonlinear_arith)
            requires -1 <= d_x <= 1;
        assert(-255 <= d_y as i32 * steps as i32 <= 255) by (nonlinear_arith)
            requires -1 <= d_y <= 1;
        PositionOffset { d_x: d_x as i32 * steps as i32, d_y: d_y as i32 * steps as i32 }
    }

    /// Short text of the direction: `+X`, `+Y`, `-X` or `-Y`.
    pub fn as_str(&self) -> (s: &'static str)
        ensures
            s@ == direction_text(*self),
    {
        proof {
            reveal_strlit("+X");
            reveal_strlit("+Y");
            reveal_strlit("-X");
            reveal_strlit("-Y");
        }
        match self {
            Direction::PosX => "+X",
            Direction::PosY => "+Y",
            Direction::NegX => "-X",
            Direction::NegY => "-Y",
        }
    }
}

/// Short text of a direction.
pub open spec fn direction_text(d: Direction) -> Seq<char> {
    match d {
        Direction::PosX => seq!['+', 'X'],
        Direction::PosY => seq!['+', 'Y'],
        Direction::NegX => seq!['-', 'X'],
        Direction::NegY => seq!['-', 'Y'],
    }
}

} // verus!
