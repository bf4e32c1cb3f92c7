use vstd::prelude::*;
use vstd::std_specs::cmp::PartialEqSpecImpl;
use vstd::string::StringExecFns;

use core::marker::PhantomData;

use crate::map::map::{in_map, PartialMap, WallDiscoveryStatus};
use crate::map::measurement::{Measurement, MeasurementValue};
use crate::map::world_data::{triggers, PartialWorldData, WorldData};
use crate::transform::direction::{rotated_spec, rotation_index_spec, transform_by_spec, RelativeDirection};
use crate::transform::position::{moved_req, moved_spec, signum, MouseTransform};

verus! {

/// Identifier of a command sent to the mouse.
#[derive(Hash, Clone, Copy, PartialEq, Eq, PartialOrd, Ord, Debug, Structural)]
pub struct CommandId(pub u32);

/// Number of a step within the execution of a command.
pub type StepNum = u32;

/// Battery charge in percent (0-100).
pub type Battery = u8;

/// Measured depth in cells.
pub type Depth = u32;

/// A message of the protocol, in either direction.
pub enum MicromouseMessage {
    MicromouseCommand(CommandMessage),
    MicromouseResponse(MicromouseResponse),
}

/// A message the mouse sends.
#[derive(Debug, Clone)]
pub enum MicromouseResponse {
    Debug(String),
    Measurement(MeasurementMessage),
    CommandFinished(CommandFinishedMessage),
    Desync(Vec<CommandId>),
    Stop,
    Continue,
    Restart,
    Battery(Battery),
}

/// Text that could not be read as a `T`.
#[derive(Debug)]
pub struct FormatError<T> {
    pub faulty_text: String,
    _ty: PhantomData<T>,
}

/// The text of a `FormatError` after being passed on as the cause of another one.
pub open spec fn caused_by_text(inner: Seq<char>) -> Seq<char> {
    seq!['E', 'r', 'r', ' ', 'c', 'a', 'u', 's', 'e', 'd', ' ', 'b', 'y', ' ', '(', 'F', 'o', 'r', 'm', 'a', 't', 'E', 'r', 'r', 'o', 'r', ':', ' '] + inner + seq![')']
}

impl<T> Clone for FormatError<T> {
    fn clone(&self) -> (r: Self)
        ensures
            r.text() == self.text(),
    {
        FormatError { faulty_text: self.faulty_text.clone(), _ty: PhantomData }
    }
}

impl<T> FormatError<T> {
    /// The text that could not be read.
    pub closed spec fn text(&self) -> Seq<char> {
        self.faulty_text@
    }

    /// An error for the given text.
    pub fn new(faulty_text: String) -> (r: Self)
        ensures
            r.text() == faulty_text@,
    {
        Self { faulty_text, _ty: PhantomData }
    }

    /// The text of the error.
    pub fn into_text(self) -> (r: String)
        ensures
            r@ == self.text(),
    {
        self.faulty_text
    }

    /// The same text, read as an error of a type that can be derived from `T`.
    pub fn map<U>(self) -> (r: FormatError<U>) where U: From<T>
        ensures
            r.text() == self.text(),
    {
        FormatError::new(self.faulty_text)
    }

    /// Turns an error of a part into an error of the whole, naming the part's error as the cause.
    pub fn caused_by<U, A>(from_result: Result<A, FormatError<U>>) -> (r: Result<A, Self>)
        ensures
            match from_result {
                Ok(a) => r == Ok::<A, Self>(a),
                Err(e) => r matches Err(e2) && e2.text() == caused_by_text(e.text()),
            },
    {
        match from_result {
            Ok(a) => Ok(a),
            Err(e) => {
                let mut text = <String as StringExecFns>::from_str("Err caused by (FormatError: ");
                text.append(e.faulty_text.as_str());
                text.append(")");
                proof {
                    reveal_strlit("Err caused by (FormatError: ");
                    reveal_strlit(")");
                    assert(text@ =~= caused_by_text(e.faulty_text@));
                }
                Err(Self::new(text))
            },
        }
    }
}

/// A command: a movement and the measurements to take while performing it.
#[derive(Debug)]
pub struct Command {
    pub ty: MovementType,
    pub interrupts: Vec<MeasurementInterrupt>,
}

impl PartialEq for Command {
    fn eq(&self, other: &Self) -> (r: bool) {
        if self.ty != other.ty || self.interrupts.len() != other.interrupts.len() {
            return false;
        }
        let mut k: usize = 0;
        while k < self.interrupts.len()
            invariant
                k <= self.interrupts.len(),
                self.interrupts@.len() == other.interrupts@.len(),
                forall|j: int| 0 <= j < k ==> self.interrupts@[j] == other.interrupts@[j],
            decreases self.interrupts.len() - k,
        {
            if self.interrupts[k] != other.interrupts[k] {
                return false;
            }
            k = k + 1;
        }
        assert(self.interrupts@ =~= other.interrupts@);
        true
    }
}

impl PartialEqSpecImpl for Command {
    open spec fn obeys_eq_spec() -> bool {
        true
    }

    open spec fn eq_spec(&self, other: &Self) -> bool {
        self.ty == other.ty && self.interrupts@ == other.interrupts@
    }
}

impl Clone for Command {
    fn clone(&self) -> (r: Self)
        ensures
            r.ty == self.ty,
            r.interrupts@ == self.interrupts@,
    {
        let interrupts = self.interrupts.clone();
        assert(interrupts@ =~= self.interrupts@);
        Command { ty: self.ty, interrupts }
    }
}

/// How the mouse moves in a command: turning by quarter turns (positive is
/// counter-clockwise) or driving forward a number of cells.
#[derive(Clone, Copy, Debug, PartialEq, Eq, Structural)]
pub enum MovementType {
    Turn(i8),
    Move(u8),
}

/// A measurement the mouse performs during a command, and what to do with its result.
#[derive(Clone, Copy, Debug, PartialEq, Eq, Structural)]
pub struct MeasurementInterrupt {
    pub direction: RelativeDirection,
    pub at_step: InterruptStep,
    pub action: InterruptAction,
}

/// What and how to measure, without saying when.
#[derive(Clone, Copy, Debug, PartialEq, Eq, Structural)]
pub struct InterruptType {
    pub direction: RelativeDirection,
    pub action: InterruptAction,
}

/// Direction and step number at which a measurement took place.
#[derive(Clone, Copy, Debug, PartialEq, Eq, Structural)]
pub struct MeasurementOccurrence {
    pub direction: RelativeDirection,
    pub at_step: StepNum,
}

/// A measurement occurrence together with the action that followed from it.
#[derive(Clone, Copy, Debug, PartialEq, Eq, Structural)]
pub struct InterruptOccurence {
    pub occurence: MeasurementOccurrence,
    pub action: InterruptAction,
}

/// The mouse finished a command, possibly because of an interrupt.
#[derive(Clone, Copy, Debug, PartialEq, Eq, Structural)]
pub struct CommandFinishedMessage {
    pub cmd_id: CommandId,
    pub reason: Option<InterruptOccurence>,
}

/// What a measurement during a command may cause.
#[derive(Clone, Copy, Debug, PartialEq, Eq, Structural)]
pub enum InterruptAction {
    Continue,
    StopIfBlocked,
    StopIfOpen,
}

/// At which steps of a command a measurement is taken.
#[derive(Clone, Copy, Debug, PartialEq, Eq, Structural)]
pub enum InterruptStep {
    Each,
    At(StepNum),
}

/// A command together with its identifier, as sent to the mouse.
#[derive(Debug)]
pub struct CommandMessage {
    pub cmd: Command,
    pub cmd_id: CommandId,
}

/// `a` and `b` are the same message: same id, same movement, same interrupts.
pub open spec fn same_message(a: CommandMessage, b: CommandMessage) -> bool {
    &&& a.cmd_id == b.cmd_id
    &&& a.cmd.ty == b.cmd.ty
    &&& a.cmd.interrupts@ == b.cmd.interrupts@
}

impl Clone for CommandMessage {
    fn clone(&self) -> (r: Self)
        ensures
            same_message(r, *self),
    {
        CommandMessage { cmd: self.cmd.clone(), cmd_id: self.cmd_id }
    }
}

/// A measurement the mouse reports while executing a command.
#[derive(Debug, Clone, Copy, PartialEq, Eq, Structural)]
pub struct MeasurementMessage {
    pub from_cmd: CommandId,
    pub interrupt: MeasurementOccurrence,
    pub depth: Depth,
    pub is_sensorlimit: bool,
}

/// A movement in the context of its starting transform; it assumes that no interrupt stops it.
#[derive(Debug, Clone, Copy)]
pub struct TransformedMovement {
    start_transform: MouseTransform,
    pub movement: MovementType,
}

/// Number of steps a movement takes: the number of quarter turns or of cells.
pub open spec fn max_step_count_spec(m: MovementType) -> nat {
    match m {
        MovementType::Turn(x) => if x < 0 {
            (-x) as nat
        } else {
            x as nat
        },
        MovementType::Move(x) => x as nat,
    }
}

/// Whether interrupt step `s` fires at step `n`.
pub open spec fn step_matches_spec(s: InterruptStep, n: int) -> bool {
    match s {
        InterruptStep::Each => true,
        InterruptStep::At(x) => x == n,
    }
}

/// The transform after `n` steps of movement `m` from `start`, or `None` if `n` exceeds the
/// movement or the move leaves the non-negative quadrant.
pub open spec fn movement_at_step_spec(start: MouseTransform, m: MovementType, n: int) -> Option<MouseTransform> {
    if n > max_step_count_spec(m) {
        None
    } else {
        match m {
            MovementType::Turn(i) => Some(
                MouseTransform { pos: start.pos, dir: rotated_spec(start.dir, signum(i as int) * n) },
            ),
            MovementType::Move(_) => moved_spec(start, n),
        }
    }
}

/// `n` steps of the movement can be computed without overflowing the machine integers the
/// computation uses.
pub open spec fn movement_at_step_req(start: MouseTransform, m: MovementType, n: int) -> bool {
    n > max_step_count_spec(m) || match m {
        MovementType::Turn(i) => n < 128 && -127 <= rotation_index_spec(start.dir) + signum(i as int) * n
            <= 127,
        MovementType::Move(_) => moved_req(start, n),
    }
}

impl MovementType {
    /// Number of steps of the movement.
    pub fn max_step_count(&self) -> (r: usize)
        ensures
            r == max_step_count_spec(*self),
    {
        match self {
            Self::Turn(x) => {
                if *x < 0 {
                    (-(*x as i16)) as usize
                } else {
                    *x as usize
                }
            },
            Self::Move(x) => *x as usize,
        }
    }
}

impl TransformedMovement {
    /// The transform the movement starts from.
    pub closed spec fn start_spec(&self) -> MouseTransform {
        self.start_transform
    }

    /// The movement performed.
    pub closed spec fn movement_spec(&self) -> MovementType {
        self.movement
    }

    /// A movement that starts at `current_transform`.
    pub fn new(movement: MovementType, current_transform: MouseTransform) -> (r: Self)
        ensures
            r.start_spec() == current_transform,
            r.movement_spec() == movement,
    {
        Self { start_transform: current_transform, movement }
    }

    /// The transform after `n` steps; `None` beyond the last step or when a move would leave
    /// the non-negative quadrant.
    pub fn at_step(&self, n: usize) -> (r: Option<MouseTransform>)
        requires
            movement_at_step_req(self.start_spec(), self.movement_spec(), n as int),
        ensures
            r == movement_at_step_spec(self.start_spec(), self.movement_spec(), n as int),
    {
        if n > self.max_step_count() {
            return None;
        }
        match self.movement {
            MovementType::Turn(i) => {
                assert(n < 128);
                let k: i8 = if i > 0 {
                    n as i8
                } else if i < 0 {
                    -(n as i8)
                } else {
                    0
                };
                assert(k == signum(i as int) * n);
                Some(self.start_transform.rotated(k))
            },
            MovementType::Move(_) => self.start_transform.moved(n as u8),
        }
    }

    /// Number of steps of the movement.
    pub fn max_step_count(&self) -> (r: usize)
        ensures
            r == max_step_count_spec(self.movement_spec()),
    {
        self.movement.max_step_count()
    }
}

impl InterruptStep {
    /// Whether the measurement is taken at step `step_number`.
    pub fn matches(&self, step_number: usize) -> (r: bool)
        ensures
            r == step_matches_spec(*self, step_number as int),
    {
        match self {
            InterruptStep::Each => true,
            InterruptStep::At(x) => *x as usize == step_number,
        }
    }
}

impl Command {
    /// Number of steps of the command's movement.
    pub fn max_step_count(&self) -> (r: usize)
        ensures
            r == max_step_count_spec(self.ty),
    {
        self.ty.max_step_count()
    }
}

impl MeasurementInterrupt {
    /// Whether the interrupt could stop the command (only `Continue` cannot).
    pub fn could_interrupt(&self) -> (r: bool)
        ensures
            r == (self.action != InterruptAction::Continue),
    {
        self.action.could_interrupt()
    }
}

impl InterruptAction {
    /// Whether the action could stop the command (only `Continue` cannot).
    pub fn could_interrupt(&self) -> (r: bool)
        ensures
            r == (*self != InterruptAction::Continue),
    {
        *self != Self::Continue
    }
}

impl From<MeasurementInterrupt> for InterruptType {
    fn from(value: MeasurementInterrupt) -> (r: Self) {
        Self { direction: value.direction, action: value.action }
    }
}

impl vstd::std_specs::convert::FromSpecImpl<MeasurementInterrupt> for InterruptType {
    open spec fn obeys_from_spec() -> bool {
        true
    }

    open spec fn from_spec(v: MeasurementInterrupt) -> Self {
        InterruptType { direction: v.direction, action: v.action }
    }
}

/// The measurement a measurement message describes, taken from `from_transform`.
pub open spec fn transform_measurement_spec(m: MeasurementMessage, from_transform: MouseTransform) -> Measurement {
    Measurement {
        value: if m.is_sensorlimit {
            MeasurementValue::OutsideRange { at_least_cells: m.depth }
        } else {
            MeasurementValue::Value { cells: m.depth }
        },
        direction: transform_by_spec(m.interrupt.direction, from_transform.dir),
        position: from_transform.pos,
    }
}

impl MeasurementMessage {
    /// The absolute measurement the message describes when the mouse stood at `from_transform`:
    /// a sensor limit becomes `OutsideRange`, otherwise the depth is the distance to a wall.
    pub fn transform_by(&self, from_transform: &MouseTransform) -> (r: Measurement)
        ensures
            r == transform_measurement_spec(*self, *from_transform),
    {
        let pos = from_transform.pos;
        let occurence = self.interrupt;
        let rel_dir = occurence.direction;
        let dir = rel_dir.transform_by(&from_transform.dir);
        let value = if self.is_sensorlimit {
            MeasurementValue::OutsideRange { at_least_cells: self.depth }
        } else {
            MeasurementValue::Value { cells: self.depth }
        };
        Measurement { value, direction: dir, position: pos }
    }
}

/// A command in the context of the world it starts in: the mouse's transform and what is
/// known of the map then.
pub struct TransformedCommand<const N: usize> {
    start_transform: MouseTransform,
    command: Command,
    starting_map: PartialMap<N>,
}

/// One way a transformed command can end: the world at its end, holding what must be true of
/// the map for this end to happen, and the number of steps completed.
#[derive(Clone, Copy, Debug)]
pub struct TransformedCommandResult<const N: usize>(pub PartialWorldData<N>, pub StepNum);


impl<const N: usize> TransformedCommand<N> {
    /// The transform the command starts from.
    pub closed spec fn start_spec(&self) -> MouseTransform {
        self.start_transform
    }

    /// The command.
    pub closed spec fn command_spec(&self) -> Command {
        self.command
    }

    /// What is known of the map when the command starts.
    pub closed spec fn map_spec(&self) -> PartialMap<N> {
        self.starting_map
    }

    /// Effect of interrupt `it` at step `step` on the enumeration state `st` (results so far,
    /// the world in which the command goes on, whether it surely ended): a known wall either
    /// ends the command there or lets it go on; an unknown one forks the world into one where
    /// the command ends (a result) and one where it goes on.
    pub open spec fn interrupt_outcome(
        st: (Seq<TransformedCommandResult<N>>, PartialWorldData<N>, bool),
        it: MeasurementInterrupt,
        step: int,
    ) -> (Seq<TransformedCommandResult<N>>, PartialWorldData<N>, bool) {
        if st.2 || !step_matches_spec(it.at_step, step) || it.action == InterruptAction::Continue {
            st
        } else {
            let w = st.1.0.measure_one_spec(it.direction);
            if triggers(w, it.action) {
                (st.0.push(TransformedCommandResult(st.1, step as u32)), st.1, true)
            } else if w == WallDiscoveryStatus::Undiscovered {
                (
                    st.0.push(
                        TransformedCommandResult(
                            st.1.termination_variant(true, it.direction, it.action).unwrap(),
                            step as u32,
                        ),
                    ),
                    st.1.termination_variant(false, it.direction, it.action).unwrap(),
                    false,
                )
            } else {
                st
            }
        }
    }

    /// The state after the first `k` interrupts of `ints` at step `step`.
    pub open spec fn after_interrupts(
        st: (Seq<TransformedCommandResult<N>>, PartialWorldData<N>, bool),
        ints: Seq<MeasurementInterrupt>,
        step: int,
        k: int,
    ) -> (Seq<TransformedCommandResult<N>>, PartialWorldData<N>, bool)
        decreases k,
    {
        if k <= 0 {
            st
        } else {
            Self::interrupt_outcome(Self::after_interrupts(st, ints, step, k - 1), ints[k - 1], step)
        }
    }

    /// The enumeration state `st` with the mouse moved to `t`, the transform at which the next
    /// step's interrupts measure; unchanged once the command surely ended.
    pub open spec fn moved_to(
        st: (Seq<TransformedCommandResult<N>>, PartialWorldData<N>, bool),
        t: MouseTransform,
    ) -> (Seq<TransformedCommandResult<N>>, PartialWorldData<N>, bool) {
        if st.2 {
            st
        } else {
            (st.0, PartialWorldData(WorldData { map: st.1.0.map, mouse: t }), st.2)
        }
    }

    /// The state after all interrupts of the first `i` steps of the movement `ty` from
    /// `start`; the interrupts of step `j` measure at the transform after `j` steps.
    pub open spec fn after_steps(
        st: (Seq<TransformedCommandResult<N>>, PartialWorldData<N>, bool),
        start: MouseTransform,
        ty: MovementType,
        ints: Seq<MeasurementInterrupt>,
        i: int,
    ) -> (Seq<TransformedCommandResult<N>>, PartialWorldData<N>, bool)
        decreases i,
    {
        if i <= 0 {
            st
        } else {
            Self::after_interrupts(
                Self::moved_to(
                    Self::after_steps(st, start, ty, ints, i - 1),
                    movement_at_step_spec(start, ty, i - 1).unwrap(),
                ),
                ints,
                i - 1,
                ints.len() as int,
            )
        }
    }

    /// The ways the command can end, in the order of the steps and interrupts that end it,
    /// the regular end after its last step included unless a known wall surely ends it
    /// earlier. Each comes with the world that has to hold for it, in which the mouse stands
    /// where the command ends: at the transform after the step it ends at.
    pub open spec fn possible_results_spec(&self) -> Seq<TransformedCommandResult<N>> {
        let max = max_step_count_spec(self.command_spec().ty) as int;
        let start = self.start_spec();
        let ty = self.command_spec().ty;
        let init = (
            Seq::<TransformedCommandResult<N>>::empty(),
            PartialWorldData(WorldData { map: self.map_spec().0, mouse: start }),
            false,
        );
        let st = Self::after_steps(init, start, ty, self.command_spec().interrupts@, max);
        if st.2 {
            st.0
        } else {
            st.0.push(
                TransformedCommandResult(
                    PartialWorldData(
                        WorldData { map: st.1.0.map, mouse: movement_at_step_spec(start, ty, max).unwrap() },
                    ),
                    max as u32,
                ),
            )
        }
    }

    /// The movement of the command can be followed step by step, and every step at which an
    /// interrupt that may stop the command measures lies inside the map.
    pub open spec fn results_computable(&self) -> bool {
        let start = self.start_spec();
        let ty = self.command_spec().ty;
        let ints = self.command_spec().interrupts@;
        let max = max_step_count_spec(ty) as int;
        &&& forall|j: int| 0 <= j <= max ==> #[trigger] movement_at_step_req(start, ty, j)
        &&& forall|j: int| 0 <= j <= max ==> #[trigger] movement_at_step_spec(start, ty, j) is Some
        &&& forall|j: int, k: int|
            0 <= j < max && 0 <= k < ints.len() && #[trigger] step_matches_spec(ints[k].at_step, j)
                && ints[k].action != InterruptAction::Continue ==> in_map(
                N as int,
                movement_at_step_spec(start, ty, j).unwrap().pos.x as int,
                movement_at_step_spec(start, ty, j).unwrap().pos.y as int,
            )
    }

    proof fn lemma_ended_stays(
        st: (Seq<TransformedCommandResult<N>>, PartialWorldData<N>, bool),
        ints: Seq<MeasurementInterrupt>,
        step: int,
        k: int,
    )
        requires
            st.2,
        ensures
            Self::after_interrupts(st, ints, step, k) == st,
        decreases k,
    {
        if k > 0 {
            Self::lemma_ended_stays(st, ints, step, k - 1);
        }
    }

    proof fn lemma_ended_prefix(
        st: (Seq<TransformedCommandResult<N>>, PartialWorldData<N>, bool),
        ints: Seq<MeasurementInterrupt>,
        step: int,
        j: int,
        n: int,
    )
        requires
            0 <= j <= n,
            Self::after_interrupts(st, ints, step, j).2,
        ensures
            Self::after_interrupts(st, ints, step, n) == Self::after_interrupts(st, ints, step, j),
        decreases n - j,
    {
        if n > j {
            Self::lemma_ended_prefix(st, ints, step, j, n - 1);
        }
    }

    proof fn lemma_ended_steps(
        st: (Seq<TransformedCommandResult<N>>, PartialWorldData<N>, bool),
        start: MouseTransform,
        ty: MovementType,
        ints: Seq<MeasurementInterrupt>,
        i: int,
        j: int,
    )
        requires
            0 <= i <= j,
            Self::after_steps(st, start, ty, ints, i).2,
        ensures
            Self::after_steps(st, start, ty, ints, j) == Self::after_steps(st, start, ty, ints, i),
        decreases j - i,
    {
        if j > i {
            Self::lemma_ended_steps(st, start, ty, ints, i, j - 1);
            Self::lemma_ended_stays(Self::after_steps(st, start, ty, ints, j - 1), ints, j - 1, ints.len() as int);
        }
    }

    /// The command `cmd`, starting in `current_world`.
    pub fn new(cmd: Command, current_world: WorldData<N>) -> (r: Self)
        ensures
            r.start_spec() == current_world.mouse,
            r.command_spec() == cmd,
            r.map_spec() == PartialMap(current_world.map),
    {
        TransformedCommand {
            start_transform: current_world.mouse,
            command: cmd,
            starting_map: PartialMap(current_world.map),
        }
    }

    /// Enumerates the ways the command can end, each with the world that has to hold for it
    /// and the mouse where the command ends (see `possible_results_spec`).
    #[verifier::rlimit(60)]
    pub fn possible_results(&self) -> (r: Vec<TransformedCommandResult<N>>)
        requires
            self.results_computable(),
        ensures
            r@ == self.possible_results_spec(),
    {
        let movement = TransformedMovement::new(self.command.ty, self.start_transform);
        let max_step = self.command.ty.max_step_count();
        let ghost ints = self.command.interrupts@;
        let ghost start = self.start_transform;
        let ghost ty = self.command.ty;
        let ghost init = (
            Seq::<TransformedCommandResult<N>>::empty(),
            PartialWorldData(WorldData { map: self.starting_map.0, mouse: self.start_transform }),
            false,
        );
        let mut results: Vec<TransformedCommandResult<N>> = Vec::new();
        let mut step_start = PartialWorldData::new(self.starting_map, self.start_transform);
        let mut i: usize = 0;
        while i < max_step
            invariant
                self.results_computable(),
                movement.start_spec() == start,
                movement.movement_spec() == ty,
                start == self.start_transform,
                ty == self.command.ty,
                max_step == max_step_count_spec(self.command.ty),
                max_step <= 255,
                ints == self.command.interrupts@,
                init == (
                    Seq::<TransformedCommandResult<N>>::empty(),
                    PartialWorldData(WorldData { map: self.starting_map.0, mouse: self.start_transform }),
                    false,
                ),
                i <= max_step,
                Self::after_steps(init, start, ty, ints, i as int) == (results@, step_start, false),
            decreases max_step - i,
        {
            assert(movement_at_step_req(start, ty, i as int));
            assert(movement_at_step_spec(start, ty, i as int) is Some);
            let at = movement.at_step(i).unwrap();
            step_start = PartialWorldData(WorldData { map: step_start.0.map, mouse: at });
            let mut k: usize = 0;
            while k < self.command.interrupts.len()
                invariant
                    self.results_computable(),
                    start == self.start_transform,
                    ty == self.command.ty,
                    max_step == max_step_count_spec(self.command.ty),
                    max_step <= 255,
                    ints == self.command.interrupts@,
                    init == (
                        Seq::<TransformedCommandResult<N>>::empty(),
                        PartialWorldData(WorldData { map: self.starting_map.0, mouse: self.start_transform }),
                        false,
                    ),
                    i < max_step,
                    k <= ints.len(),
                    at == movement_at_step_spec(start, ty, i as int).unwrap(),
                    step_start.0.mouse == at,
                    Self::after_interrupts(
                        Self::moved_to(Self::after_steps(init, start, ty, ints, i as int), at),
                        ints,
                        i as int,
                        k as int,
                    ) == (results@, step_start, false),
                decreases ints.len() - k,
            {
                let interrupt = self.command.interrupts[k];
                let ghost st = (results@, step_start, false);
                if interrupt.at_step.matches(i) && interrupt.action != InterruptAction::Continue {
                    assert(step_matches_spec(ints[k as int].at_step, i as int));
                    let measurement = *step_start.0.measure_one(interrupt.direction);
                    match (measurement, interrupt.action) {
                        (WallDiscoveryStatus::Exists(true), InterruptAction::StopIfBlocked)
                        | (WallDiscoveryStatus::Exists(false), InterruptAction::StopIfOpen)
                        | (WallDiscoveryStatus::Visited, InterruptAction::StopIfOpen) => {
                            results.push(TransformedCommandResult(step_start, i as u32));
                            proof {
                                let pre = Self::moved_to(Self::after_steps(init, start, ty, ints, i as int), at);
                                assert(triggers(measurement, interrupt.action));
                                assert(Self::interrupt_outcome(st, ints[k as int], i as int) == (results@, step_start, true));
                                assert(Self::after_interrupts(pre, ints, i as int, k as int + 1) == (results@, step_start, true));
                                Self::lemma_ended_prefix(pre, ints, i as int, k as int + 1, ints.len() as int);
                                assert(Self::after_steps(init, start, ty, ints, i + 1) == Self::after_interrupts(
                                    pre,
                                    ints,
                                    i as int,
                                    ints.len() as int,
                                ));
                                Self::lemma_ended_steps(init, start, ty, ints, i + 1, max_step as int);
                                assert(Self::after_steps(init, start, ty, ints, max_step as int).2);
                            }
                            return results;
                        },
                        (WallDiscoveryStatus::Undiscovered, _) => {
                            let terminating_world = step_start.with_interrupt_termination_triggered(
                                true,
                                interrupt.direction,
                                interrupt.action,
                            ).unwrap();
                            results.push(TransformedCommandResult(terminating_world, i as u32));
                            step_start = step_start.with_interrupt_termination_triggered(
                                false,
                                interrupt.direction,
                                interrupt.action,
                            ).unwrap();
                        },
                        _ => {},
                    }
                }
                k = k + 1;
            }
            i = i + 1;
        }
        assert(movement_at_step_req(start, ty, max_step as int));
        assert(movement_at_step_spec(start, ty, max_step as int) is Some);
        let end = movement.at_step(max_step).unwrap();
        results.push(
            TransformedCommandResult(PartialWorldData(WorldData { map: step_start.0.map, mouse: end }), max_step as u32),
        );
        results
    }
}

} // verus!
