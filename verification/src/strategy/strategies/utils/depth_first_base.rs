use vstd::prelude::*;

use crate::comm::micromouse_message::{movement_at_step_req, movement_at_step_spec, Command, MovementType, TransformedMovement};
use crate::map::map::{in_map, CellDiscoveryStatus, MazeMap, WallDiscoveryStatus};
use crate::strategy::strategy::GoalPosition;
use crate::transform::direction::Direction;
use crate::transform::position::{moved_req, MouseTransform, Position};

verus! {

/// A junction the search may come back to, with the directions still to explore from it.
#[derive(Clone, Debug)]
pub struct Intersection {
    /// Holds no direction twice.
    pub visitable_directions: Vec<Direction>,
}

/// One way out of an intersection.
#[derive(Clone, Copy, Debug, PartialEq, Eq, Hash, Structural)]
pub struct IntersectionPath {
    pub at_intersection: Position,
    pub in_direction: Direction,
}

/// How the search orders the ways it may take next.
#[derive(Clone, Copy, Debug, PartialEq, Eq, Structural)]
pub enum PathRanking {
    Undefined,
    LowestMoves,
    LowestCost { turn_value: usize, move_value: usize },
    TowardsGoal,
}

/// A command and the transform it is performed from.
#[derive(Clone, Debug)]
pub struct TaskExecution {
    pub from_pos: MouseTransform,
    pub do_cmd: Command,
}

/// How far a straight drive from `from` goes, from step `i` on (see `max_steps_in_direction`).
pub open spec fn steps_in_direction_from<const N: usize>(map: MazeMap<N>, from: MouseTransform, goal: Position, i: int) -> int
    decreases N - i,
{
    match movement_at_step_spec(from, MovementType::Move(N as u8), i) {
        None => i - 1,
        Some(c) => if c.pos == goal {
            i
        } else {
            match map.spec_cell(c.pos) {
                None => i - 1,
                Some(cell) => if i != 0 && cell == CellDiscoveryStatus::Visited {
                    i - 1
                } else {
                    match map.spec_wall(c.pos, c.dir) {
                        None => i,
                        Some(w) => if w == WallDiscoveryStatus::Exists(true) {
                            i
                        } else if i >= N {
                            N as int
                        } else {
                            steps_in_direction_from(map, from, goal, i + 1)
                        },
                    }
                },
            }
        },
    }
}

/// The number of cells worth driving straight from `from_origin`: up to the goal, up to a
/// wall or the map border, or up to the cell before one the mouse has visited (and at most
/// `N`, the size of the map).
pub fn max_steps_in_direction<const N: usize>(map: &MazeMap<N>, from_origin: MouseTransform, goal: GoalPosition) -> (r: usize)
    requires
        in_map(N as int, from_origin.pos.x as int, from_origin.pos.y as int) || from_origin.pos == goal.0,
        moved_req(from_origin, (N as u8) as int),
    ensures
        r == steps_in_direction_from(*map, from_origin, goal.0, 0),
{
    let transf_moves = TransformedMovement::new(MovementType::Move(N as u8), from_origin);
    let mut i: usize = 0;
    assert(movement_at_step_spec(from_origin, MovementType::Move(N as u8), 0) == Some(from_origin));
    while i <= N
        invariant
            transf_moves.start_spec() == from_origin,
            transf_moves.movement_spec() == MovementType::Move(N as u8),
            moved_req(from_origin, (N as u8) as int),
            i <= N,
            i <= (N as u8) as int + 1,
            i == 0 ==> movement_at_step_spec(from_origin, MovementType::Move(N as u8), 0) == Some(from_origin),
            i == 0 ==> (in_map(N as int, from_origin.pos.x as int, from_origin.pos.y as int) || from_origin.pos == goal.0),
            steps_in_direction_from(*map, from_origin, goal.0, 0) == steps_in_direction_from(*map, from_origin, goal.0, i as int),
        decreases N - i,
    {
        assert(movement_at_step_req(from_origin, MovementType::Move(N as u8), i as int));
        let current = match transf_moves.at_step(i) {
            Some(c) => c,
            None => {
                return i - 1;
            },
        };
        if current.pos == goal.0 {
            return i;
        }
        let current_cell = match map.cell(&current.pos) {
            Some(c) => c,
            None => {
                return i - 1;
            },
        };
        if i != 0 && *current_cell == CellDiscoveryStatus::Visited {
            return i - 1;
        }
        let wall_ahead = match map.wall(&current.pos, &current.dir) {
            Some(w) => w,
            None => {
                return i;
            },
        };
        if *wall_ahead == WallDiscoveryStatus::Exists(true) {
            return i;
        }
        if i == N {
            return N;
        }
        i = i + 1;
    }
    N
}

} // verus!
