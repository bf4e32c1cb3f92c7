use vstd::prelude::*;

use crate::comm::micromouse_message::{
    max_step_count_spec, movement_at_step_spec, step_matches_spec, Command, MovementType, InterruptAction, MeasurementInterrupt,
    StepNum,
};
use crate::comm::website::DiscoveryMessage;
use crate::map::check::PotentiallyEq;
use crate::map::map::{in_map, MapInconsistencyError, MazeMap, PartialMap, WallDiscoveryStatus};
use crate::map::measurement::{Measurement, MeasurementValue};
use crate::map::upgrade::wall_upgrade_spec;
use crate::transform::direction::{transform_by_spec, Direction, RelativeDirection};
use crate::transform::position::{moved_req, step_once_spec, step_pos_spec, MouseTransform, Position};

verus! {

/// The maze as far as it is known, and where the mouse stands in it.
#[derive(Clone, Copy, Debug)]
pub struct WorldData<const N: usize> {
    pub map: MazeMap<N>,
    pub mouse: MouseTransform,
}

/// A look into the future: the map holds only what must hold for the mouse to reach its
/// transform, not everything it would have measured on the way.
#[derive(Clone, Copy, Debug)]
pub struct PartialWorldData<const N: usize>(pub WorldData<N>);

/// How far the simulated sensors reach, in cells.
pub const SIM_MAX_DEPTH: u8 = 4;

/// The wall of `p` in direction `d` is the outer border on a negative side.
pub open spec fn is_negative_border(p: Position, d: Direction) -> bool {
    (p.x == 0 && d == Direction::NegX) || (p.y == 0 && d == Direction::NegY)
}

/// Whether a wall in state `w` makes an interrupt with `action` stop the command.
pub open spec fn triggers(w: WallDiscoveryStatus, action: InterruptAction) -> bool {
    ||| (w == WallDiscoveryStatus::Exists(true) && action == InterruptAction::StopIfBlocked)
    ||| ((w == WallDiscoveryStatus::Exists(false) || w == WallDiscoveryStatus::Visited) && action
        == InterruptAction::StopIfOpen)
}

/// The wall state that makes an interrupt with `action` stop (`should_trigger`) or not stop
/// the command, starting from the known state `w`: an unknown wall is decided, a known one
/// is kept if it agrees; `None` if the known wall, or a `Continue` interrupt, cannot give the
/// wished outcome.
pub open spec fn termination_wall(w: WallDiscoveryStatus, should_trigger: bool, action: InterruptAction) -> Option<WallDiscoveryStatus> {
    match action {
        InterruptAction::Continue => if should_trigger {
            None
        } else {
            Some(w)
        },
        InterruptAction::StopIfBlocked => match w {
            WallDiscoveryStatus::Undiscovered => Some(WallDiscoveryStatus::Exists(should_trigger)),
            WallDiscoveryStatus::Exists(true) => if should_trigger {
                Some(w)
            } else {
                None
            },
            _ => if should_trigger {
                None
            } else {
                Some(w)
            },
        },
        InterruptAction::StopIfOpen => match w {
            WallDiscoveryStatus::Undiscovered => Some(WallDiscoveryStatus::Exists(!should_trigger)),
            WallDiscoveryStatus::Exists(true) => if should_trigger {
                None
            } else {
                Some(w)
            },
            _ => if should_trigger {
                Some(w)
            } else {
                None
            },
        },
    }
}

/// Some interrupt of `ints` measures at step `step`.
pub open spec fn any_step_matches(ints: Seq<MeasurementInterrupt>, step: int) -> bool {
    exists|i: int| 0 <= i < ints.len() && #[trigger] step_matches_spec(ints[i].at_step, step)
}

impl<const N: usize> Default for WorldData<N> {
    fn default() -> (r: Self)
        ensures
            r.map.is_fresh(),
            r.mouse == (MouseTransform { pos: Position { x: 0, y: 0 }, dir: Direction::PosX }),
    {
        Self { map: MazeMap::<N>::new(), mouse: MouseTransform::default() }
    }
}

impl<const N: usize> WorldData<N> {
    /// The mouse's transform in a map of which nothing is known yet.
    pub fn only_pos(&self) -> (r: WorldData<N>)
        ensures
            r.map.is_fresh(),
            r.mouse == self.mouse,
    {
        WorldData { map: MazeMap::<N>::new(), mouse: self.mouse }
    }

    /// The wall the mouse would sense in `rel`: the outer border on a negative side counts as
    /// a wall, anything else is read from the map.
    pub open spec fn measure_one_spec(&self, rel: RelativeDirection) -> WallDiscoveryStatus {
        let d = transform_by_spec(rel, self.mouse.dir);
        if is_negative_border(self.mouse.pos, d) {
            WallDiscoveryStatus::Exists(true)
        } else {
            self.map.spec_wall(self.mouse.pos, d).unwrap()
        }
    }

    /// What a sensor ray in direction `d` from the mouse reports, from sample `i` on, looking
    /// at most `max` cells ahead: it stops at the map border or a wall (`Value`), at an unknown
    /// wall (`OutsideRange`), and at the last sample if the way on is open (`OutsideRange`).
    pub open spec fn ray_value(&self, d: Direction, i: int, max: int) -> MeasurementValue
        decreases max - i,
    {
        match step_pos_spec(self.mouse.pos, d, i) {
            None => MeasurementValue::Value { cells: i as u32 },
            Some(q) => match self.map.spec_wall(q, d) {
                None => MeasurementValue::Value { cells: i as u32 },
                Some(WallDiscoveryStatus::Exists(true)) => MeasurementValue::Value { cells: i as u32 },
                Some(WallDiscoveryStatus::Undiscovered) => MeasurementValue::OutsideRange {
                    at_least_cells: i as u32,
                },
                Some(_) => if i >= max {
                    MeasurementValue::OutsideRange { at_least_cells: i as u32 }
                } else {
                    self.ray_value(d, i + 1, max)
                },
            },
        }
    }

    /// The measurement a sensor pointing in `rel` would take, looking at most `max` cells ahead.
    pub open spec fn measure_spec(&self, rel: RelativeDirection, max: int) -> Measurement {
        let d = transform_by_spec(rel, self.mouse.dir);
        Measurement { value: self.ray_value(d, 0, max), direction: d, position: self.mouse.pos }
    }

    /// The interrupt measures at `step` and its wall makes it stop the command.
    pub open spec fn interrupt_triggered_spec(&self, interrupt: MeasurementInterrupt, step: int) -> bool {
        step_matches_spec(interrupt.at_step, step) && triggers(
            self.measure_one_spec(interrupt.direction),
            interrupt.action,
        )
    }

    /// Index of the first interrupt of `ints`, from `k` on, that stops the command at `step`,
    /// or `ints.len()` if none does.
    pub open spec fn first_triggered(&self, ints: Seq<MeasurementInterrupt>, step: int, k: int) -> int
        decreases ints.len() - k,
    {
        if k >= ints.len() {
            ints.len() as int
        } else if self.interrupt_triggered_spec(ints[k], step) {
            k
        } else {
            self.first_triggered(ints, step, k + 1)
        }
    }

    /// The first interrupt from `k` on that stops the command is an index of `ints` from `k` on,
    /// or `ints.len()` if none does.
    pub proof fn lemma_first_triggered_range(&self, ints: Seq<MeasurementInterrupt>, step: int, k: int)
        requires
            0 <= k,
        ensures
            k <= self.first_triggered(ints, step, k) <= ints.len() || (k > ints.len() && self.first_triggered(ints, step, k)
                == ints.len()),
        decreases ints.len() - k,
    {
        if k < ints.len() && !self.interrupt_triggered_spec(ints[k], step) {
            self.lemma_first_triggered_range(ints, step, k + 1);
        }
    }

    /// The measurements the first `k` interrupts of `ints` take at `step`, in order.
    pub open spec fn step_measurements(&self, ints: Seq<MeasurementInterrupt>, step: int, k: int) -> Seq<Measurement>
        decreases k,
    {
        if k <= 0 {
            Seq::empty()
        } else {
            let prev = self.step_measurements(ints, step, k - 1);
            if step_matches_spec(ints[k - 1].at_step, step) {
                prev.push(self.measure_spec(ints[k - 1].direction, SIM_MAX_DEPTH as int))
            } else {
                prev
            }
        }
    }

    /// Applies a measurement to the map (see `MazeMap::apply_measurement`).
    pub fn apply_measurement(&mut self, measurement: &Measurement) -> (r: Result<DiscoveryMessage, MapInconsistencyError>)
        requires
            N <= u32::MAX,
        ensures
            final(self).mouse == old(self).mouse,
            final(self).map.upgrade_of(&old(self).map),
            final(self).map.apply_outcome(&old(self).map, *measurement, r),
    {
        self.map.apply_measurement(measurement)
    }

    /// The wall the mouse senses in `relative_direction`; the outer border on a negative side
    /// is a wall.
    pub fn measure_one(&self, relative_direction: RelativeDirection) -> (r: &WallDiscoveryStatus)
        requires
            in_map(N as int, self.mouse.pos.x as int, self.mouse.pos.y as int),
        ensures
            *r == self.measure_one_spec(relative_direction),
    {
        let measure_dir = relative_direction.transform_by(&self.mouse.dir);
        if (self.mouse.pos.x == 0 && measure_dir == Direction::NegX) || (self.mouse.pos.y == 0
            && measure_dir == Direction::NegY) {
            return &WallDiscoveryStatus::Exists(true);
        }
        self.map.wall(&self.mouse.pos, &measure_dir).unwrap()
    }

    /// Simulates a sensor pointing in `relative_direction` that sees at most `max_depth`
    /// cells ahead, on what the map knows.
    pub fn measure(&self, relative_direction: RelativeDirection, max_depth: u8) -> (r: Measurement)
        requires
            moved_req(self.mouse, max_depth as int),
        ensures
            r == self.measure_spec(relative_direction, max_depth as int),
    {
        let start_transform = self.mouse;
        let measure_dir = relative_direction.transform_by(&start_transform.dir);
        let ray_transform = MouseTransform { pos: start_transform.pos, dir: measure_dir };
        let mut i: u8 = 0;
        loop
            invariant
                i <= max_depth,
                ray_transform.pos == self.mouse.pos,
                ray_transform.dir == measure_dir,
                measure_dir == transform_by_spec(relative_direction, self.mouse.dir),
                moved_req(self.mouse, max_depth as int),
                self.ray_value(measure_dir, 0, max_depth as int) == self.ray_value(
                    measure_dir,
                    i as int,
                    max_depth as int,
                ),
            decreases max_depth - i,
        {
            let current_pos = ray_transform.moved(i);
            if current_pos.is_none() {
                return Measurement {
                    value: MeasurementValue::Value { cells: i as u32 },
                    direction: measure_dir,
                    position: ray_transform.pos,
                };
            }
            let current_pos = current_pos.unwrap();
            let next_wall = self.map.wall(&current_pos.pos, &measure_dir);
            if next_wall.is_none() {
                return Measurement {
                    value: MeasurementValue::Value { cells: i as u32 },
                    direction: measure_dir,
                    position: ray_transform.pos,
                };
            }
            let next_wall = next_wall.unwrap();
            match next_wall {
                WallDiscoveryStatus::Exists(true) => {
                    return Measurement {
                        value: MeasurementValue::Value { cells: i as u32 },
                        direction: measure_dir,
                        position: ray_transform.pos,
                    };
                },
                WallDiscoveryStatus::Undiscovered => {
                    return Measurement {
                        value: MeasurementValue::OutsideRange { at_least_cells: i as u32 },
                        direction: measure_dir,
                        position: ray_transform.pos,
                    };
                },
                _ => {
                    // The way on is open: the ray goes on, unless this was its last cell.
                    if i == max_depth {
                        return Measurement {
                            value: MeasurementValue::OutsideRange { at_least_cells: i as u32 },
                            direction: measure_dir,
                            position: ray_transform.pos,
                        };
                    }
                },
            }
            i = i + 1;
        }
    }

    /// Whether the interrupt measures at `at_step` and stops the command there, judged on what
    /// the map knows.
    pub fn is_interrupt_triggered(&self, interrupt: MeasurementInterrupt, at_step: StepNum) -> (r: bool)
        requires
            step_matches_spec(interrupt.at_step, at_step as int) ==> in_map(
                N as int,
                self.mouse.pos.x as int,
                self.mouse.pos.y as int,
            ),
        ensures
            r == self.interrupt_triggered_spec(interrupt, at_step as int),
    {
        if !interrupt.at_step.matches(at_step as usize) {
            return false;
        }
        let wall = self.measure_one(interrupt.direction);
        match (wall, interrupt.action) {
            (WallDiscoveryStatus::Exists(true), InterruptAction::StopIfBlocked) => true,
            (WallDiscoveryStatus::Exists(false), InterruptAction::StopIfOpen) => true,
            (WallDiscoveryStatus::Visited, InterruptAction::StopIfOpen) => true,
            _ => false,
        }
    }
}

impl<const N: usize> PotentiallyEq for WorldData<N> {
    type Other = PartialWorldData<N>;

    /// Whether `self` could be the world that `other` looks ahead to: the walls agree and the
    /// mouse stands at the same transform.
    fn potentially_eq(&self, other: &PartialWorldData<N>) -> (r: bool)
        ensures
            r == (self.map.walls_potentially_eq(&other.0.map) && self.mouse == other.0.mouse),
    {
        if !self.map.potentially_eq(&other.map()) {
            return false;
        }
        if self.mouse != other.0.mouse {
            return false;
        }
        true
    }
}

impl<const N: usize> From<WorldData<N>> for PartialWorldData<N> {
    fn from(value: WorldData<N>) -> (r: Self) {
        Self(value)
    }
}

impl<const N: usize> vstd::std_specs::convert::FromSpecImpl<WorldData<N>> for PartialWorldData<N> {
    open spec fn obeys_from_spec() -> bool {
        true
    }

    open spec fn from_spec(v: WorldData<N>) -> Self {
        PartialWorldData(v)
    }
}

impl<const N: usize> Default for PartialWorldData<N> {
    fn default() -> (r: Self)
        ensures
            r.0.map.is_fresh(),
            r.0.mouse == (MouseTransform { pos: Position { x: 0, y: 0 }, dir: Direction::PosX }),
    {
        Self(WorldData::default())
    }
}

impl<const N: usize> PartialWorldData<N> {
    /// The variant of this world in which the interrupt measuring in `dir` with `action` stops
    /// the command at the current transform (`should_trigger`) or does not (see
    /// `termination_wall`). The outer border on a negative side is a wall that the map does not
    /// store: there the world stays as it is, or the outcome cannot be had. `None` where the
    /// outcome cannot be had or the mouse stands outside the map.
    pub open spec fn termination_variant(&self, should_trigger: bool, dir: RelativeDirection, action: InterruptAction) -> Option<Self> {
        let pos = self.0.mouse.pos;
        let d = transform_by_spec(dir, self.0.mouse.dir);
        if in_map(N as int, pos.x as int, pos.y as int) && is_negative_border(pos, d) {
            match termination_wall(WallDiscoveryStatus::Exists(true), should_trigger, action) {
                None => None,
                Some(_) => Some(*self),
            }
        } else {
            match self.0.map.spec_wall(pos, d) {
                None => None,
                Some(w) => match termination_wall(w, should_trigger, action) {
                    None => None,
                    Some(nw) => Some(
                        PartialWorldData(WorldData { map: self.0.map.with_wall(pos, d, nw), mouse: self.0.mouse }),
                    ),
                },
            }
        }
    }

    /// A variant of this world in which the interrupt measuring in `interrupt_dir` with
    /// `condition` stops the command at the current transform (`should_trigger`) or does not:
    /// an unknown wall there is decided accordingly, a known one has to agree, and the outer
    /// border on a negative side counts as a wall. `None` if that cannot be, or if the mouse
    /// stands outside the map.
    pub fn with_interrupt_termination_triggered(
        self,
        should_trigger: bool,
        interrupt_dir: RelativeDirection,
        condition: InterruptAction,
    ) -> (r: Option<Self>)
        ensures
            r == self.termination_variant(should_trigger, interrupt_dir, condition),
            r matches Some(q) ==> q.0.map.upgrade_of(&self.0.map),
            r matches Some(q) ==> triggers(q.0.measure_one_spec(interrupt_dir), condition)
                == should_trigger,
    {
        let mut this = self;
        let current_pos = this.0.mouse.pos;
        let checked_dir = interrupt_dir.transform_by(&this.0.mouse.dir);
        let ghost base = this.0.map;
        let on_border = (current_pos.x == 0 && checked_dir == Direction::NegX) || (current_pos.y
            == 0 && checked_dir == Direction::NegY);
        if on_border && this.0.map.cell(&current_pos).is_some() {
            let border_fits = match condition {
                InterruptAction::Continue => !should_trigger,
                InterruptAction::StopIfBlocked => should_trigger,
                InterruptAction::StopIfOpen => !should_trigger,
            };
            if border_fits {
                return Some(this);
            } else {
                return None;
            }
        }
        let deciding_wall = match this.0.map.wall_mut(&current_pos, &checked_dir) {
            Some(w) => w,
            None => return None,
        };
        let new_wall = match (*deciding_wall, condition) {
            (_, InterruptAction::Continue) => {
                if should_trigger {
                    return None;
                } else {
                    *deciding_wall
                }
            },
            (WallDiscoveryStatus::Undiscovered, InterruptAction::StopIfBlocked) => {
                WallDiscoveryStatus::Exists(should_trigger)
            },
            (WallDiscoveryStatus::Undiscovered, InterruptAction::StopIfOpen) => {
                WallDiscoveryStatus::Exists(!should_trigger)
            },
            (WallDiscoveryStatus::Exists(true), InterruptAction::StopIfBlocked) => {
                if should_trigger {
                    *deciding_wall
                } else {
                    return None;
                }
            },
            (WallDiscoveryStatus::Exists(true), InterruptAction::StopIfOpen) => {
                if !should_trigger {
                    *deciding_wall
                } else {
                    return None;
                }
            },
            (_, InterruptAction::StopIfOpen) => {
                if should_trigger {
                    *deciding_wall
                } else {
                    return None;
                }
            },
            (_, InterruptAction::StopIfBlocked) => {
                if !should_trigger {
                    *deciding_wall
                } else {
                    return None;
                }
            },
        };
        *deciding_wall = new_wall;
        proof {
            assert(this.0.map.is_wall_update(&base, current_pos, checked_dir, new_wall));
            MazeMap::lemma_wall_update_is_with_wall(this.0.map, base, current_pos, checked_dir, new_wall);
        }
        Some(this)
    }

    /// The mouse's transform in a map of which nothing is known yet.
    pub fn only_pos(&self) -> (r: WorldData<N>)
        ensures
            r.map.is_fresh(),
            r.mouse == self.0.mouse,
    {
        self.0.only_pos()
    }

    /// A world made of what is known of the map and the mouse's transform.
    pub fn new(partial_map: PartialMap<N>, mouse_transform: MouseTransform) -> (r: Self)
        ensures
            r.0.map == partial_map.0,
            r.0.mouse == mouse_transform,
    {
        Self(WorldData { map: partial_map.0, mouse: mouse_transform })
    }

    /// The map, marked as partial.
    pub fn map(&self) -> (r: PartialMap<N>)
        ensures
            r.0 == self.0.map,
    {
        PartialMap(self.0.map)
    }
}

/// A command being carried out step by step in a simulated world.
pub struct CommandExecution<const N: usize> {
    pub world: WorldData<N>,
    pub command: Command,
    pub next_step: usize,
}

/// Whether a command execution goes on after a step.
pub enum EndState<const N: usize> {
    Ongoing(CommandExecution<N>),
    Finished(WorldData<N>),
}

/// What one step of a command execution did.
pub struct CommandStepResult<const N: usize> {
    /// The number of steps completed (0 if the command stopped before moving at all).
    pub num_of_finished_steps: usize,
    pub is_continuing: EndState<N>,
    pub measurements: Vec<Measurement>,
}

/// An execution of `cmd` from `start` that has taken its first `e.next_step` steps: it keeps
/// the map and the command, and the mouse stands where that many steps of the movement lead.
pub open spec fn on_track<const N: usize>(e: CommandExecution<N>, start: WorldData<N>, cmd: Command) -> bool {
    &&& e.command == cmd
    &&& e.world.map == start.map
    &&& e.next_step <= max_step_count_spec(cmd.ty)
    &&& movement_at_step_spec(start.mouse, cmd.ty, e.next_step as int) == Some(e.world.mouse)
}

/// A fresh execution is on track, and each step that `next` lets the execution go on keeps it
/// on track: after `k` calls of `next` that each went on, the execution has taken `k` steps
/// and the mouse stands where `k` steps of the movement lead; a call that finishes leaves the
/// mouse there too. Positions are taken to stay within `u32`.
pub proof fn execution_follows_movement<const N: usize>(e: CommandExecution<N>, start: WorldData<N>, cmd: Command)
    requires
        e.next_step == 0 && e.world == start && e.command == cmd || on_track(e, start, cmd),
        e.next_step < max_step_count_spec(cmd.ty) ==> {
            &&& start.mouse.pos.x + e.next_step + 1 <= u32::MAX
            &&& start.mouse.pos.y + e.next_step + 1 <= u32::MAX
            &&& step_once_spec(e.world.mouse, cmd.ty) is Some
        },
    ensures
        on_track(e, start, cmd),
        e.next_step < max_step_count_spec(cmd.ty) ==> on_track(
            CommandExecution {
                world: WorldData { map: e.world.map, mouse: step_once_spec(e.world.mouse, cmd.ty).unwrap() },
                command: e.command,
                next_step: (e.next_step + 1) as usize,
            },
            start,
            cmd,
        ),
{
    if e.next_step == 0 && e.world == start && e.command == cmd {
        assert(movement_at_step_spec(start.mouse, cmd.ty, 0) == Some(start.mouse)) by {
            crate::transform::laws::full_turn_is_identity(start.mouse.dir);
            match cmd.ty {
                MovementType::Turn(i) => {
                    assert(crate::transform::position::signum(i as int) * 0 == 0);
                },
                MovementType::Move(_) => {},
            }
        }
    }
    let k = e.next_step as int;
    if k < max_step_count_spec(cmd.ty) {
        if let MovementType::Move(_) = cmd.ty {
            let dx = crate::transform::direction::dir_dx(start.mouse.dir);
            let dy = crate::transform::direction::dir_dy(start.mouse.dir);
            assert(dx * (k + 1) == dx * k + dx && -k <= dx * k <= k) by (nonlinear_arith)
                requires
                    -1 <= dx <= 1,
                    0 <= k,
            ;
            assert(dy * (k + 1) == dy * k + dy && -k <= dy * k <= k) by (nonlinear_arith)
                requires
                    -1 <= dy <= 1,
                    0 <= k,
            ;
        }
        assert(movement_at_step_spec(start.mouse, cmd.ty, k + 1) is Some);
        crate::transform::laws::step_once_follows_movement(start.mouse, cmd.ty, k);
    }
}

impl<const N: usize> CommandExecution<N> {
    /// An execution of `command` that has not taken a step yet.
    pub fn new(world: WorldData<N>, command: Command) -> (r: Self)
        ensures
            r.world == world,
            r.command == command,
            r.next_step == 0,
    {
        Self { world, command, next_step: 0 }
    }

    /// Performs the next step: every interrupt that measures at this step takes a simulated
    /// measurement, in order, and the first one that stops the command finishes it; otherwise
    /// the command finishes after its last step, or the mouse takes the step.
    #[verifier::rlimit(30)]
    pub fn next(self) -> (r: CommandStepResult<N>)
        requires
            self.next_step <= u32::MAX,
            any_step_matches(self.command.interrupts@, self.next_step as int) ==> {
                &&& in_map(N as int, self.world.mouse.pos.x as int, self.world.mouse.pos.y as int)
                &&& moved_req(self.world.mouse, SIM_MAX_DEPTH as int)
            },
            ({
                let ints = self.command.interrupts@;
                (self.world.first_triggered(ints, self.next_step as int, 0) == ints.len()
                    && self.next_step < max_step_count_spec(self.command.ty)) ==> {
                    &&& moved_req(self.world.mouse, 1)
                    &&& step_once_spec(self.world.mouse, self.command.ty) is Some
                }
            }),
        ensures
            self.world.first_triggered(self.command.interrupts@, self.next_step as int, 0) <= self.command.interrupts@.len(),
            ({
                let ints = self.command.interrupts@;
                let step = self.next_step as int;
                let t = self.world.first_triggered(ints, step, 0);
                &&& r.measurements@ == self.world.step_measurements(
                    ints,
                    step,
                    if t < ints.len() {
                        t + 1
                    } else {
                        ints.len() as int
                    },
                )
                &&& (t < ints.len() || self.next_step >= max_step_count_spec(self.command.ty)) ==> {
                    &&& r.num_of_finished_steps == self.next_step
                    &&& r.is_continuing == EndState::Finished(self.world)
                }
                &&& (t == ints.len() && self.next_step < max_step_count_spec(self.command.ty)) ==> {
                    &&& r.num_of_finished_steps == self.next_step + 1
                    &&& r.is_continuing == EndState::Ongoing(
                        CommandExecution {
                            world: WorldData {
                                map: self.world.map,
                                mouse: step_once_spec(self.world.mouse, self.command.ty).unwrap(),
                            },
                            command: self.command,
                            next_step: (self.next_step + 1) as usize,
                        },
                    )
                }
            }),
    {
        proof {
            self.world.lemma_first_triggered_range(self.command.interrupts@, self.next_step as int, 0);
        }
        let mut this = self;
        let max_steps = this.command.ty.max_step_count();
        let mut measurements: Vec<Measurement> = Vec::new();
        let ghost ints = this.command.interrupts@;
        let ghost step = this.next_step as int;
        let mut i: usize = 0;
        while i < this.command.interrupts.len()
            invariant
                this == self,
                ints == this.command.interrupts@,
                step == this.next_step,
                this.next_step <= u32::MAX,
                i <= ints.len(),
                any_step_matches(ints, step) ==> {
                    &&& in_map(N as int, this.world.mouse.pos.x as int, this.world.mouse.pos.y as int)
                    &&& moved_req(this.world.mouse, SIM_MAX_DEPTH as int)
                },
                this.world.first_triggered(ints, step, 0) == this.world.first_triggered(ints, step, i as int),
                measurements@ == this.world.step_measurements(ints, step, i as int),
            decreases ints.len() - i,
        {
            let interrupt = this.command.interrupts[i];
            if interrupt.at_step.matches(this.next_step) {
                proof {
                    assert(step_matches_spec(ints[i as int].at_step, step));
                }
                let measurement = this.world.measure(interrupt.direction, SIM_MAX_DEPTH);
                measurements.push(measurement);
                if this.world.is_interrupt_triggered(interrupt, this.next_step as u32) {
                    return CommandStepResult {
                        num_of_finished_steps: this.next_step,
                        is_continuing: EndState::Finished(this.world),
                        measurements,
                    };
                }
            }
            i = i + 1;
        }
        if this.next_step >= max_steps {
            return CommandStepResult {
                num_of_finished_steps: this.next_step,
                is_continuing: EndState::Finished(this.world),
                measurements,
            };
        }
        this.world.mouse = this.world.mouse.step_once(this.command.ty).unwrap();
        this.next_step = this.next_step + 1;
        CommandStepResult {
            num_of_finished_steps: this.next_step,
            is_continuing: EndState::Ongoing(this),
            measurements,
        }
    }
}


/// The wall states `a` and `b` agree, or `a` is a wall the mouse drove through where `b` is
/// open.
pub open spec fn same_or_visited_for_open(a: Option<WallDiscoveryStatus>, b: Option<WallDiscoveryStatus>) -> bool {
    a == b || (a == Some(WallDiscoveryStatus::Visited) && b == Some(WallDiscoveryStatus::Exists(false)))
}

proof fn lemma_ray_visited_open<const N: usize>(a: WorldData<N>, b: WorldData<N>, d: Direction, i: int, max: int)
    requires
        a.mouse == b.mouse,
        forall|p: Position, e: Direction| #[trigger] same_or_visited_for_open(a.map.spec_wall(p, e), b.map.spec_wall(p, e)),
    ensures
        a.ray_value(d, i, max) == b.ray_value(d, i, max),
    decreases max - i,
{
    if let Some(q) = step_pos_spec(a.mouse.pos, d, i) {
        assert(same_or_visited_for_open(a.map.spec_wall(q, d), b.map.spec_wall(q, d)));
        if i < max {
            lemma_ray_visited_open(a, b, d, i + 1, max);
        }
    }
}

/// The simulated sensor treats a wall the mouse drove through like an open one: two worlds
/// with the mouse at the same transform, whose maps differ only where one has a `Visited` wall
/// and the other an open one, measure the same in every direction and depth.
pub proof fn measure_sees_visited_as_open<const N: usize>(a: WorldData<N>, b: WorldData<N>, rel: RelativeDirection, max: int)
    requires
        a.mouse == b.mouse,
        forall|p: Position, e: Direction| #[trigger] same_or_visited_for_open(a.map.spec_wall(p, e), b.map.spec_wall(p, e)),
    ensures
        a.measure_spec(rel, max) == b.measure_spec(rel, max),
{
    lemma_ray_visited_open(a, b, transform_by_spec(rel, a.mouse.dir), 0, max);
}

} // verus!
