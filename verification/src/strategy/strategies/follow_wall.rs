use vstd::prelude::*;
use vstd::string::StringExecFns;

use crate::comm::micromouse_message::{
    Command, InterruptAction, InterruptStep, MeasurementInterrupt, MovementType,
};
use crate::map::world_data::{PartialWorldData, WorldData};
use crate::strategy::strategy::{
    ComputedAction, ComputedActions, FromConfig, GoalPosition, Strategy, StrategyComputationResult,
    StrategyEndState,
};
use crate::transform::direction::RelativeDirection;
use crate::transform::position::MouseTransform;

verus! {

/// Explores by keeping a wall on one side, cycling through four commands.
#[derive(Debug)]
pub struct FollowWall<const N: usize> {
    next_move_id: usize,
    follow: WallDirection,
    /// The transforms at which the forward command (id 0) was issued; meeting one again
    /// means the mouse runs in a loop. Holds no transform twice.
    visited: Vec<MouseTransform>,
}

/// The side on which the wall is kept.
#[derive(Clone, Copy, Debug, PartialEq, Eq, Structural)]
pub enum WallDirection {
    Left,
    Right,
}

/// Configuration of a wall-following strategy.
#[derive(Clone, Copy, Debug, PartialEq, Eq, Structural)]
pub struct FollowWallConfig {
    pub follow_wall: WallDirection,
}

impl From<WallDirection> for RelativeDirection {
    fn from(value: WallDirection) -> (r: Self) {
        match value {
            WallDirection::Left => RelativeDirection::Left,
            WallDirection::Right => RelativeDirection::Right,
        }
    }
}

impl vstd::std_specs::convert::FromSpecImpl<WallDirection> for RelativeDirection {
    open spec fn obeys_from_spec() -> bool {
        true
    }

    open spec fn from_spec(v: WallDirection) -> Self {
        match v {
            WallDirection::Left => RelativeDirection::Left,
            WallDirection::Right => RelativeDirection::Right,
        }
    }
}

/// The side the wall is on, as a relative direction.
pub open spec fn side_spec(follow: WallDirection) -> RelativeDirection {
    match follow {
        WallDirection::Left => RelativeDirection::Left,
        WallDirection::Right => RelativeDirection::Right,
    }
}

/// The movement of command `idx` (0 to 3) of the cycle in an `n`×`n` map: drive forward
/// (at most across the map), turn towards the wall, turn around, step forward.
pub open spec fn follow_command_ty(follow: WallDirection, idx: int, n: int) -> MovementType {
    let mirror = follow == WallDirection::Left;
    if idx == 0 {
        MovementType::Move(n as u8)
    } else if idx == 1 {
        MovementType::Turn(if mirror { 1i8 } else { -1i8 })
    } else if idx == 2 {
        MovementType::Turn(if mirror { -2i8 } else { 2i8 })
    } else {
        MovementType::Move(1)
    }
}

/// The interrupts of command `idx` of the cycle: moving forward stops at a wall ahead or an
/// opening on the wall side; the first turn stops if the wall side is blocked; turning
/// around stops as soon as the way ahead is open.
pub open spec fn follow_command_interrupts(follow: WallDirection, idx: int) -> Seq<MeasurementInterrupt> {
    let side = side_spec(follow);
    if idx == 0 {
        seq![
            MeasurementInterrupt {
                direction: RelativeDirection::Forward,
                at_step: InterruptStep::Each,
                action: InterruptAction::StopIfBlocked,
            },
            MeasurementInterrupt { direction: side, at_step: InterruptStep::Each, action: InterruptAction::StopIfOpen },
        ]
    } else if idx == 1 {
        seq![MeasurementInterrupt { direction: side, at_step: InterruptStep::At(0), action: InterruptAction::StopIfBlocked }]
    } else if idx == 2 {
        seq![
            MeasurementInterrupt {
                direction: RelativeDirection::Forward,
                at_step: InterruptStep::Each,
                action: InterruptAction::StopIfOpen,
            },
        ]
    } else {
        Seq::empty()
    }
}

/// The message with which the strategy gives up when it runs in a loop.
pub open spec fn loop_message() -> Seq<char> {
    "Already encountered this exact program state --> LOOP cannot be handled by only following one wall"@
}

impl<const N: usize> Clone for FollowWall<N> {
    fn clone(&self) -> (r: Self)
        ensures
            r.move_id_spec() == self.move_id_spec(),
            r.follow_spec() == self.follow_spec(),
            r.visited_spec() == self.visited_spec(),
    {
        let visited = self.visited.clone();
        assert(visited@ =~= self.visited@);
        FollowWall { next_move_id: self.next_move_id, follow: self.follow, visited }
    }
}

impl<const N: usize> FollowWall<N> {
    /// The index of the next command of the cycle.
    pub closed spec fn move_id_spec(&self) -> usize {
        self.next_move_id
    }

    /// The side the wall is kept on.
    pub closed spec fn follow_spec(&self) -> WallDirection {
        self.follow
    }

    /// The transforms at which a forward command was issued.
    pub closed spec fn visited_spec(&self) -> Seq<MouseTransform> {
        self.visited@
    }

    /// `r` holds the one next command of the cycle and the state after it, in which the
    /// transform `mouse` is remembered if a forward command is issued.
    pub open spec fn is_next_step(&self, mouse: MouseTransform, r: StrategyComputationResult<N, Self>) -> bool {
        match r {
            StrategyComputationResult::Computed(Ok(actions)) => {
                &&& actions.0@.len() == 1
                &&& actions.0@[0].after_command.ty == follow_command_ty(self.follow_spec(), (self.move_id_spec() % 4) as int, N as int)
                &&& actions.0@[0].after_command.interrupts@ == follow_command_interrupts(self.follow_spec(), (self.move_id_spec() % 4) as int)
                &&& match actions.0@[0].next_strategy_state {
                    Some(s) => {
                        &&& s.move_id_spec() == (self.move_id_spec() + 1) % 4
                        &&& s.follow_spec() == self.follow_spec()
                        &&& s.visited_spec() == if self.move_id_spec() % 4 == 0 {
                            self.visited_spec().push(mouse)
                        } else {
                            self.visited_spec()
                        }
                    },
                    None => false,
                }
            },
            _ => false,
        }
    }

    /// Command `index % 4` of the cycle for the configured side: the commands for keeping the
    /// wall on the right, mirrored for the left.
    pub fn command(&self, index: usize) -> (r: Command)
        ensures
            r.ty == follow_command_ty(self.follow_spec(), (index % 4) as int, N as int),
            r.interrupts@ == follow_command_interrupts(self.follow_spec(), (index % 4) as int),
    {
        let right = RelativeDirection::Right;
        let mut cmd = if index % 4 == 0 {
            // Go forward until blocked ahead or open on the right.
            Command {
                ty: MovementType::Move(N as u8),
                interrupts: vec![
                    MeasurementInterrupt {
                        direction: RelativeDirection::Forward,
                        at_step: InterruptStep::Each,
                        action: InterruptAction::StopIfBlocked,
                    },
                    MeasurementInterrupt {
                        direction: right,
                        at_step: InterruptStep::Each,
                        action: InterruptAction::StopIfOpen,
                    },
                ],
            }
        } else if index % 4 == 1 {
            Command {
                ty: MovementType::Turn(-1),
                interrupts: vec![
                    MeasurementInterrupt {
                        direction: right,
                        at_step: InterruptStep::At(0),
                        action: InterruptAction::StopIfBlocked,
                    },
                ],
            }
        } else if index % 4 == 2 {
            Command {
                ty: MovementType::Turn(2),
                interrupts: vec![
                    MeasurementInterrupt {
                        direction: RelativeDirection::Forward,
                        at_step: InterruptStep::Each,
                        action: InterruptAction::StopIfOpen,
                    },
                ],
            }
        } else {
            // Escape from the turning point.
            Command { ty: MovementType::Move(1), interrupts: Vec::new() }
        };
        assert(cmd.ty == follow_command_ty(WallDirection::Right, (index % 4) as int, N as int));
        let ghost right_ints = cmd.interrupts@;
        proof {
            assert(right_ints =~= follow_command_interrupts(WallDirection::Right, (index % 4) as int));
        }
        if self.follow == WallDirection::Left {
            // Mirror
            let mut k: usize = 0;
            while k < cmd.interrupts.len()
                invariant
                    k <= cmd.interrupts.len(),
                    cmd.ty == follow_command_ty(WallDirection::Right, (index % 4) as int, N as int),
                    cmd.interrupts@.len() == right_ints.len(),
                    forall|j: int|
                        0 <= j < right_ints.len() ==> #[trigger] cmd.interrupts@[j] == if j < k
                            && right_ints[j].direction == RelativeDirection::Right {
                            MeasurementInterrupt { direction: RelativeDirection::Left, ..right_ints[j] }
                        } else {
                            right_ints[j]
                        },
                decreases cmd.interrupts.len() - k,
            {
                let i = cmd.interrupts[k];
                if i.direction == RelativeDirection::Right {
                    cmd.interrupts.set(k, MeasurementInterrupt { direction: RelativeDirection::Left, ..i });
                }
                k = k + 1;
            }
            match cmd.ty {
                MovementType::Turn(i) => {
                    cmd.ty = MovementType::Turn(i * -1);
                },
                _ => {},
            }
            proof {
                assert(cmd.interrupts@ =~= follow_command_interrupts(WallDirection::Left, (index % 4) as int));
            }
        }
        cmd
    }
}

impl<const N: usize> FromConfig<N> for FollowWall<N> {
    type Config = FollowWallConfig;

    /// A strategy that starts its cycle with the forward command and has visited nothing.
    fn from_config(config: &FollowWallConfig, _starting_state: &WorldData<N>) -> (r: Self)
        ensures
            r.move_id_spec() == 0,
            r.follow_spec() == config.follow_wall,
            r.visited_spec().len() == 0,
    {
        Self { next_move_id: 0, follow: config.follow_wall, visited: Vec::new() }
    }
}

impl<const N: usize> Strategy<N> for FollowWall<N> {
    /// The next command of the cycle, with the strategy state after it; gives up when a
    /// forward command would be issued again at a transform where one was issued before.
    fn next_cmd(&self, world: &PartialWorldData<N>, goal: &GoalPosition) -> (r: StrategyComputationResult<N, Self>)
        ensures
            (self.move_id_spec() % 4 == 0 && self.visited_spec().contains(world.0.mouse)) ==> (r matches StrategyComputationResult::Computed(Err(StrategyEndState::NoPossibleAction(msg)))
                && msg@ == loop_message()),
            !(self.move_id_spec() % 4 == 0 && self.visited_spec().contains(world.0.mouse)) ==> self.is_next_step(world.0.mouse, r),
    {
        if self.next_move_id % 4 == 0 {
            let current_pos = world.0.mouse;
            let mut j: usize = 0;
            while j < self.visited.len()
                invariant
                    j <= self.visited.len(),
                    self.next_move_id % 4 == 0,
                    current_pos == world.0.mouse,
                    forall|m: int| 0 <= m < j ==> self.visited@[m] != current_pos,
                decreases self.visited.len() - j,
            {
                if self.visited[j] == current_pos {
                    proof {
                        assert(self.visited@.contains(current_pos));
                    }
                    let msg = <String as StringExecFns>::from_str(
                        "Already encountered this exact program state --> LOOP cannot be handled by only following one wall",
                    );
                    return StrategyComputationResult::Computed(Err(StrategyEndState::NoPossibleAction(msg)));
                }
                j = j + 1;
            }
        }
        let mut successor = self.clone();
        if self.next_move_id % 4 == 0 {
            successor.visited.push(world.0.mouse);
        }
        successor.next_move_id = (self.next_move_id % 4 + 1) % 4;
        let do_command = self.command(self.next_move_id);
        StrategyComputationResult::Computed(
            Ok(ComputedActions(vec![ComputedAction { next_strategy_state: Some(successor), after_command: do_command }])),
        )
    }
}

} // verus!
