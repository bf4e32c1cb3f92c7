use vstd::prelude::*;

use vstd::string::StringExecFns;

use crate::comm::micromouse_message::MovementType;
use crate::comm::text::{append_decimal, decimal};
use crate::transform::direction::{
    dir_dx, dir_dy, rotated_spec, rotation_index_spec, Direction, DirectionNormalizedVector,
};

verus! {

/// A cell of the maze grid.
#[derive(Copy, Clone, Debug, PartialEq, Eq, Hash, Structural)]
pub struct Position {
    pub x: u32,
    pub y: u32,
}

/// A signed displacement on the grid.
#[derive(Copy, Clone, Debug, PartialEq, Eq, Hash, Structural)]
pub struct PositionOffset {
    pub d_x: i32,
    pub d_y: i32,
}

/// Where the mouse is and which way it faces.
#[derive(Copy, Clone, Debug, PartialEq, Eq, Hash, Structural)]
pub struct MouseTransform {
    pub pos: Position,
    pub dir: Direction,
}

impl From<DirectionNormalizedVector> for PositionOffset {
    fn from(value: DirectionNormalizedVector) -> (r: Self) {
        Self { d_x: value.x as i32, d_y: value.y as i32 }
    }
}

impl vstd::std_specs::convert::FromSpecImpl<DirectionNormalizedVector> for PositionOffset {
    open spec fn obeys_from_spec() -> bool {
        true
    }

    open spec fn from_spec(v: DirectionNormalizedVector) -> Self {
        PositionOffset { d_x: v.x as i32, d_y: v.y as i32 }
    }
}

/// The sum of a position and an offset, or `None` when a coordinate would be negative.
pub open spec fn add_offset_spec(p: Position, o: PositionOffset) -> Option<Position> {
    if p.x + o.d_x >= 0 && p.y + o.d_y >= 0 {
        Some(Position { x: (p.x + o.d_x) as u32, y: (p.y + o.d_y) as u32 })
    } else {
        None
    }
}

/// The addition is carried out in `i32`: the coordinates have to be `i32` values and
/// the sums must not overflow.
pub open spec fn add_offset_req(p: Position, o: PositionOffset) -> bool {
    &&& p.x <= i32::MAX
    &&& p.y <= i32::MAX
    &&& p.x + o.d_x <= i32::MAX
    &&& p.y + o.d_y <= i32::MAX
}

impl std::ops::Add<PositionOffset> for Position {
    type Output = Option<Position>;

    fn add(self, rhs: PositionOffset) -> (r: Option<Position>) {
        let x: i32 = self.x as i32 + rhs.d_x;
        let y: i32 = self.y as i32 + rhs.d_y;
        if x >= 0 && y >= 0 {
            Some(Position { x: x as u32, y: y as u32 })
        } else {
            None
        }
    }
}

impl vstd::std_specs::ops::AddSpecImpl<PositionOffset> for Position {
    open spec fn obeys_add_spec() -> bool {
        true
    }

    open spec fn add_req(self, rhs: PositionOffset) -> bool {
        add_offset_req(self, rhs)
    }

    open spec fn add_spec(self, rhs: PositionOffset) -> Option<Position> {
        add_offset_spec(self, rhs)
    }
}

/// `p` moved `steps` cells in direction `d` (or `None` if that leaves the non-negative quadrant).
pub open spec fn step_pos_spec(p: Position, d: Direction, steps: int) -> Option<Position> {
    if p.x + dir_dx(d) * steps >= 0 && p.y + dir_dy(d) * steps >= 0 {
        Some(
            Position {
                x: (p.x + dir_dx(d) * steps) as u32,
                y: (p.y + dir_dy(d) * steps) as u32,
            },
        )
    } else {
        None
    }
}

/// Moving forward by `steps` keeps every intermediate `i32` computation in range.
pub open spec fn moved_req(t: MouseTransform, steps: int) -> bool {
    &&& t.pos.x + steps <= i32::MAX
    &&& t.pos.y + steps <= i32::MAX
}

/// The transform after moving `steps` cells forward.
pub open spec fn moved_spec(t: MouseTransform, steps: int) -> Option<MouseTransform> {
    match step_pos_spec(t.pos, t.dir, steps) {
        Some(p) => Some(MouseTransform { pos: p, dir: t.dir }),
        None => None,
    }
}

/// Sign of an integer.
pub open spec fn signum(i: int) -> int {
    if i > 0 {
        1
    } else if i < 0 {
        -1
    } else {
        0
    }
}

/// The transform after performing one step of a movement: a quarter turn in the turning
/// direction, or one cell forward.
pub open spec fn step_once_spec(t: MouseTransform, m: MovementType) -> Option<MouseTransform> {
    match m {
        MovementType::Turn(i) => Some(MouseTransform { pos: t.pos, dir: rotated_spec(t.dir, signum(i as int)) }),
        MovementType::Move(_) => moved_spec(t, 1),
    }
}

impl Default for MouseTransform {
    fn default() -> (r: Self)
        ensures
            r == (MouseTransform { pos: Position { x: 0, y: 0 }, dir: Direction::PosX }),
    {
        Self { pos: Position { x: 0, y: 0 }, dir: Direction::PosX }
    }
}

impl MouseTransform {
    /// The same position, turned by `intervals_counter_clockwise` quarter turns.
    pub fn rotated(self, intervals_counter_clockwise: i8) -> (r: Self)
        requires
            -127 <= rotation_index_spec(self.dir) + intervals_counter_clockwise <= 127,
        ensures
            r.pos == self.pos,
            r.dir == rotated_spec(self.dir, intervals_counter_clockwise as int),
    {
        MouseTransform { pos: self.pos, dir: self.dir.rotated(intervals_counter_clockwise) }
    }

    /// The transform after driving `fwd_steps` cells forward; `None` if a coordinate
    /// would become negative.
    pub fn moved(self, fwd_steps: u8) -> (r: Option<Self>)
        requires
            moved_req(self, fwd_steps as int),
        ensures
            r == moved_spec(self, fwd_steps as int),
    {
        let off = self.dir.steps_in_dir(fwd_steps);
        let new_pos = (self.pos + off)?;
        Some(MouseTransform { pos: new_pos, dir: self.dir })
    }

    /// The transform after one step of `movement`.
    pub fn step_once(self, movement: MovementType) -> (r: Option<Self>)
        requires
            moved_req(self, 1),
        ensures
            r == step_once_spec(self, movement),
    {
        match movement {
            MovementType::Turn(i) => {
                let s: i8 = if i > 0 {
                    1
                } else if i < 0 {
                    -1
                } else {
                    0
                };
                Some(self.rotated(s))
            },
            MovementType::Move(_) => self.moved(1),
        }
    }
}

/// The text of a position: `(x, y)`.
pub open spec fn position_text(p: Position) -> Seq<char> {
    seq!['('] + decimal(p.x as nat) + seq![',', ' '] + decimal(p.y as nat) + seq![')']
}

impl Position {
    /// The position as text (see `position_text`).
    pub fn to_text(&self) -> (r: String)
        ensures
            r@ == position_text(*self),
    {
        proof {
            reveal_strlit("(");
            reveal_strlit(", ");
            reveal_strlit(")");
        }
        let mut s = <String as StringExecFns>::from_str("(");
        append_decimal(&mut s, self.x as u64);
        s.append(", ");
        append_decimal(&mut s, self.y as u64);
        s.append(")");
        proof {
            assert(s@ =~= position_text(*self));
        }
        s
    }
}

} // verus!
