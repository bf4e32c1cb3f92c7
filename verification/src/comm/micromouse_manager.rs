use vstd::prelude::*;

use crate::comm::protocol::response_parsed;
use crate::comm::micromouse_message::{
    same_message, transform_measurement_spec, Command, CommandId, CommandMessage, FormatError,
    MeasurementMessage, MicromouseResponse, StepNum,
};
use crate::comm::website::DiscoveryMessage;
use crate::map::command_world_state::{
    build_ok, id_difference, lemma_build_ok_upgrade, CannotReachStep, CertainStepError, FilterMeasurementUpgradeError,
    FilterUpdate, FilteredCommandApplication, RejectedOutcomes,
};
use crate::map::map::MazeMap;
use crate::map::world_data::WorldData;
use crate::transform::position::MouseTransform;

verus! {

/// What an update of the current command told about the world: where the mouse now is (if it
/// moved), what was discovered and which outcomes were ruled out; each `None` if nothing.
#[derive(Debug)]
pub struct InternalMapUpdate {
    new_transf: Option<MouseTransform>,
    discoveries: Option<DiscoveryMessage>,
    rejected_outcomes: Option<RejectedOutcomes>,
}

/// Whether the mouse runs.
#[derive(Debug, PartialEq, Eq, Clone, Copy, Structural)]
pub enum MicromouseMode {
    Stopped,
    Running,
}

/// What happened with the mouse, as reported onwards.
#[derive(Debug)]
pub enum MicromouseEvent {
    UpdatePosition(MouseTransform),
    /// Never empty.
    UpdatedMap(DiscoveryMessage),
    FinishedCommand { cmd_id: CommandId, require_new: bool },
    Stop,
    Restart,
    Continue,
    Error(MicromouseManagerError),
    DebugMessage(String),
    /// Never empty.
    RejectedOutcomes(RejectedOutcomes),
}

/// A command could not be sent.
#[derive(Debug, Clone, Copy, PartialEq, Eq, Structural)]
pub enum CommandSendError {
    /// The strategy was stopped by hand; the command is dropped.
    StoppedExecution,
}

/// What went wrong while following the mouse.
#[derive(Debug)]
pub enum MicromouseManagerError {
    ConnectionClosedPermanently,
    UnknownResponse(FormatError<MicromouseResponse>),
    CmdConfirmThenReqested(CommandId),
    CmdStartBeforeFinish { new_cmd: CommandId, unfinished_cmd: CommandId },
    CmdNotKnown(CommandId),
    MeasurementWithoutAssociatedCmd,
    CmdTooLong(CommandId),
    ImpossiblePosition(CommandId),
    CannotReachStep(CannotReachStep),
    MapInconsistency(FilterMeasurementUpgradeError),
    PathNotProven(CertainStepError),
    WrongProcessOrder { expected: CommandId, received: CommandId },
}

impl From<FormatError<MicromouseResponse>> for MicromouseManagerError {
    fn from(value: FormatError<MicromouseResponse>) -> (r: Self) {
        Self::UnknownResponse(value)
    }
}

impl vstd::std_specs::convert::FromSpecImpl<FormatError<MicromouseResponse>> for MicromouseManagerError {
    open spec fn obeys_from_spec() -> bool {
        true
    }

    open spec fn from_spec(v: FormatError<MicromouseResponse>) -> Self {
        MicromouseManagerError::UnknownResponse(v)
    }
}

impl From<CannotReachStep> for MicromouseManagerError {
    fn from(value: CannotReachStep) -> (r: Self) {
        Self::CannotReachStep(value)
    }
}

impl vstd::std_specs::convert::FromSpecImpl<CannotReachStep> for MicromouseManagerError {
    open spec fn obeys_from_spec() -> bool {
        true
    }

    open spec fn from_spec(v: CannotReachStep) -> Self {
        MicromouseManagerError::CannotReachStep(v)
    }
}

impl From<FilterMeasurementUpgradeError> for MicromouseManagerError {
    fn from(value: FilterMeasurementUpgradeError) -> (r: Self) {
        Self::MapInconsistency(value)
    }
}

impl vstd::std_specs::convert::FromSpecImpl<FilterMeasurementUpgradeError> for MicromouseManagerError {
    open spec fn obeys_from_spec() -> bool {
        true
    }

    open spec fn from_spec(v: FilterMeasurementUpgradeError) -> Self {
        MicromouseManagerError::MapInconsistency(v)
    }
}

impl From<CertainStepError> for MicromouseManagerError {
    /// The measurements received do not prove that the command got this far.
    fn from(value: CertainStepError) -> (r: Self) {
        Self::PathNotProven(value)
    }
}

impl vstd::std_specs::convert::FromSpecImpl<CertainStepError> for MicromouseManagerError {
    open spec fn obeys_from_spec() -> bool {
        true
    }

    open spec fn from_spec(v: CertainStepError) -> Self {
        MicromouseManagerError::PathNotProven(v)
    }
}

impl InternalMapUpdate {
    /// The update made of its parts.
    pub fn new(
        new_transf: Option<MouseTransform>,
        discoveries: Option<DiscoveryMessage>,
        rejected_outcomes: Option<RejectedOutcomes>,
    ) -> (r: Self)
        ensures
            r.new_transf_spec() == new_transf,
            r.discoveries_spec() == discoveries,
            r.rejected_spec() == rejected_outcomes,
    {
        InternalMapUpdate { new_transf, discoveries, rejected_outcomes }
    }

    /// The transform the mouse moved to, if it moved.
    pub closed spec fn new_transf_spec(&self) -> Option<MouseTransform> {
        self.new_transf
    }

    /// What was discovered, if anything.
    pub closed spec fn discoveries_spec(&self) -> Option<DiscoveryMessage> {
        self.discoveries
    }

    /// The outcomes ruled out, if any.
    pub closed spec fn rejected_spec(&self) -> Option<RejectedOutcomes> {
        self.rejected_outcomes
    }

    /// The events the update is reported as, in this order: the new position, the discoveries,
    /// the ruled-out outcomes, each where present.
    pub open spec fn events_spec(&self) -> Seq<MicromouseEvent> {
        (match self.new_transf_spec() {
            Some(t) => seq![MicromouseEvent::UpdatePosition(t)],
            None => Seq::empty(),
        }) + (match self.discoveries_spec() {
            Some(d) => seq![MicromouseEvent::UpdatedMap(d)],
            None => Seq::empty(),
        }) + (match self.rejected_spec() {
            Some(x) => seq![MicromouseEvent::RejectedOutcomes(x)],
            None => Seq::empty(),
        })
    }

    /// The events the update is reported as (see `events_spec`).
    pub fn into_events(self) -> (r: Vec<MicromouseEvent>)
        ensures
            r@ == self.events_spec(),
    {
        let mut v: Vec<MicromouseEvent> = Vec::new();
        match self.new_transf {
            Some(x) => {
                v.push(MicromouseEvent::UpdatePosition(x));
            },
            None => {},
        }
        match self.discoveries {
            Some(x) => {
                v.push(MicromouseEvent::UpdatedMap(x));
            },
            None => {},
        }
        match self.rejected_outcomes {
            Some(x) => {
                v.push(MicromouseEvent::RejectedOutcomes(x));
            },
            None => {},
        }
        assert(v@ =~= self.events_spec());
        v
    }
}

/// How many commands may wait for the mouse before no new one is asked for.
pub const TARGET_QUEUE_LENGTH: usize = 3;

/// The single event `e`.
fn one_event(e: MicromouseEvent) -> (r: Vec<MicromouseEvent>)
    ensures
        r@ == seq![e],
{
    let mut v = Vec::new();
    v.push(e);
    assert(v@ =~= seq![e]);
    v
}

/// The first `k` at or after `from` for which `ids[k]` is not queued in `q`, or `ids.len()`.
pub open spec fn first_missing(q: Seq<CommandMessage>, ids: Seq<CommandId>, from: int) -> int
    decreases ids.len() - from,
{
    if from >= ids.len() {
        ids.len() as int
    } else if !has_id(q, ids[from]) {
        from
    } else {
        first_missing(q, ids, from + 1)
    }
}

/// No two messages of `q` have the same id.
pub open spec fn ids_unique(q: Seq<CommandMessage>) -> bool {
    forall|i: int, j: int| 0 <= i < q.len() && 0 <= j < q.len() && i != j ==> q[i].cmd_id != q[j].cmd_id
}

/// A message of `q` has id `id`.
pub open spec fn has_id(q: Seq<CommandMessage>, id: CommandId) -> bool {
    exists|i: int| 0 <= i < q.len() && q[i].cmd_id == id
}

/// The index of the message of `q` with id `id` (meaningful where `has_id`).
pub open spec fn id_index(q: Seq<CommandMessage>, id: CommandId) -> int {
    choose|i: int| 0 <= i < q.len() && q[i].cmd_id == id
}

/// What the manager knows about the mouse, apart from its connection: the commands sent and
/// not yet started, the command being executed with what it may do, the world as far as it is
/// known, and the ids expected next.
pub struct ManagerState<const N: usize> {
    /// The id the next command sent gets.
    pub next_cmd_send_id: u32,
    /// The commands sent that the mouse has not started yet, no id twice.
    pub unconfirmed_cmd: Vec<CommandMessage>,
    /// The id of the command the mouse is expected to start next.
    pub next_cmd_process_id: u32,
    pub mode: MicromouseMode,
    /// The command the mouse executes, with what it may do from where it started.
    pub current_command: Option<(FilteredCommandApplication<N>, CommandId)>,
    /// The world at the last step reported.
    pub current_world: WorldData<N>,
    /// Battery charge in percent, as last reported.
    pub battery: u8,
    pub start_marker: bool,
}

/// Why following the mouse cannot go on.
#[derive(Debug, Clone, Copy, PartialEq, Eq, Structural)]
pub enum HaltReason {
    /// The command the mouse started cannot be enumerated from the current world (see
    /// `FilteredCommandApplication::try_new`).
    CommandNotEnumerable(CommandId),
    /// The id of the command expected next does not fit in 32 bits.
    IdOverflow,
}

/// What the manager does on a message of the mouse.
#[derive(Debug)]
pub enum ManagerStep {
    /// Send `resend` again, in this order, and report `result`.
    Done { resend: Vec<CommandMessage>, result: Result<Vec<MicromouseEvent>, MicromouseManagerError> },
    /// Following the mouse cannot go on.
    Halt(HaltReason),
}

impl<const N: usize> ManagerState<N> {
    /// The invariant: no queued id twice, and the current command can be enumerated in every
    /// map refining what it knows.
    pub open spec fn wf(&self) -> bool {
        &&& N <= u32::MAX
        &&& ids_unique(self.unconfirmed_cmd@)
        &&& (self.current_command matches Some((a, _)) ==> {
            &&& a.wf()
            &&& build_ok(a.filter_spec(), a.transform_at_spec(0), a.command_spec())
        })
    }

    /// `new` is `old` restarted: nothing sent, nothing executing, the default world, running.
    pub open spec fn restarted(new: Self, old: Self) -> bool {
        &&& new.next_cmd_send_id == 0
        &&& new.mode == MicromouseMode::Running
        &&& new.current_command is None
        &&& new.current_world.map.is_fresh()
        &&& new.current_world.mouse == (MouseTransform {
            pos: crate::transform::position::Position { x: 0, y: 0 },
            dir: crate::transform::direction::Direction::PosX,
        })
        &&& new.unconfirmed_cmd@.len() == 0
        &&& new.start_marker
        &&& new.next_cmd_process_id == old.next_cmd_process_id
        &&& new.battery == old.battery
    }

    /// A manager that has sent nothing: stopped, in the default world, with a full battery.
    pub fn new() -> (r: Self)
        requires
            N <= u32::MAX,
        ensures
            r.wf(),
            r.next_cmd_send_id == 0,
            r.next_cmd_process_id == 0,
            r.unconfirmed_cmd@.len() == 0,
            r.mode == MicromouseMode::Stopped,
            r.current_command is None,
            r.current_world.map.is_fresh(),
            r.current_world.mouse == (MouseTransform {
                pos: crate::transform::position::Position { x: 0, y: 0 },
                dir: crate::transform::direction::Direction::PosX,
            }),
            r.battery == 100,
            r.start_marker,
    {
        ManagerState {
            next_cmd_send_id: 0,
            unconfirmed_cmd: Vec::new(),
            next_cmd_process_id: 0,
            mode: MicromouseMode::Stopped,
            current_command: None,
            current_world: WorldData::default(),
            battery: 100,
            start_marker: true,
        }
    }

    /// The index of the queued message with id `id`, if any.
    fn find_unconfirmed(&self, id: CommandId) -> (r: Option<usize>)
        requires
            ids_unique(self.unconfirmed_cmd@),
        ensures
            r is Some <==> has_id(self.unconfirmed_cmd@, id),
            r matches Some(i) ==> i < self.unconfirmed_cmd@.len() && self.unconfirmed_cmd@[i as int].cmd_id == id
                && i == id_index(self.unconfirmed_cmd@, id),
    {
        let mut i: usize = 0;
        while i < self.unconfirmed_cmd.len()
            invariant
                i <= self.unconfirmed_cmd@.len(),
                ids_unique(self.unconfirmed_cmd@),
                forall|k: int| 0 <= k < i ==> self.unconfirmed_cmd@[k].cmd_id != id,
            decreases self.unconfirmed_cmd.len() - i,
        {
            if self.unconfirmed_cmd[i].cmd_id == id {
                let ghost q = self.unconfirmed_cmd@;
                assert(has_id(q, id));
                let ghost c = id_index(q, id);
                assert(q[c].cmd_id == id);
                assert(c == i as int);
                return Some(i);
            }
            i = i + 1;
        }
        None
    }

    /// Gives `cmd` the next id and queues it; returns the message to send. The next id is one
    /// more, wrapping around; a queued message with the same id is replaced.
    pub fn send_command(&mut self, cmd: Command) -> (r: CommandMessage)
        requires
            old(self).wf(),
        ensures
            final(self).wf(),
            r.cmd_id == CommandId(old(self).next_cmd_send_id),
            r.cmd == cmd,
            final(self).next_cmd_send_id == old(self).next_cmd_send_id.wrapping_add(1),
            has_id(old(self).unconfirmed_cmd@, r.cmd_id) ==> {
                let j = id_index(old(self).unconfirmed_cmd@, r.cmd_id);
                &&& final(self).unconfirmed_cmd@.len() == old(self).unconfirmed_cmd@.len()
                &&& same_message(final(self).unconfirmed_cmd@[j], r)
                &&& forall|k: int| 0 <= k < old(self).unconfirmed_cmd@.len() && k != j ==> final(self).unconfirmed_cmd@[k]
                    == old(self).unconfirmed_cmd@[k]
            },
            !has_id(old(self).unconfirmed_cmd@, r.cmd_id) ==> {
                &&& final(self).unconfirmed_cmd@.len() == old(self).unconfirmed_cmd@.len() + 1
                &&& same_message(final(self).unconfirmed_cmd@.last(), r)
                &&& forall|k: int| 0 <= k < old(self).unconfirmed_cmd@.len() ==> final(self).unconfirmed_cmd@[k]
                    == old(self).unconfirmed_cmd@[k]
            },
            final(self).next_cmd_process_id == old(self).next_cmd_process_id,
            final(self).mode == old(self).mode,
            final(self).current_command == old(self).current_command,
            final(self).current_world == old(self).current_world,
            final(self).battery == old(self).battery,
            final(self).start_marker == old(self).start_marker,
    {
        let cmd_id = CommandId(self.next_cmd_send_id);
        self.next_cmd_send_id = self.next_cmd_send_id.wrapping_add(1);
        let msg = CommandMessage { cmd, cmd_id };
        let stored = msg.clone();
        match self.find_unconfirmed(cmd_id) {
            Some(j) => {
                self.unconfirmed_cmd.set(j, stored);
            },
            None => {
                self.unconfirmed_cmd.push(stored);
            },
        }
        msg
    }

    /// A copy of the queued message with id `id`, if there is one.
    pub fn unconfirmed(&self, id: CommandId) -> (r: Option<CommandMessage>)
        requires
            self.wf(),
        ensures
            r is Some <==> has_id(self.unconfirmed_cmd@, id),
            r matches Some(m) ==> same_message(m, self.unconfirmed_cmd@[id_index(self.unconfirmed_cmd@, id)]),
    {
        match self.find_unconfirmed(id) {
            Some(i) => Some(self.unconfirmed_cmd[i].clone()),
            None => None,
        }
    }

    /// Forgets everything sent and executing and starts over from the default world, running.
    /// The id expected next and the battery charge are kept.
    pub fn restart(&mut self)
        requires
            old(self).wf(),
        ensures
            final(self).wf(),
            Self::restarted(*final(self), *old(self)),
    {
        self.next_cmd_send_id = 0;
        self.mode = MicromouseMode::Running;
        self.current_command = None;
        self.current_world = WorldData::default();
        self.unconfirmed_cmd = Vec::new();
        self.start_marker = true;
    }

    /// Removes the queued command `id`, which the mouse skipped.
    pub fn remove_unordered(&mut self, cmd_to_remove: CommandId) -> (r: Result<(), MicromouseManagerError>)
        requires
            old(self).wf(),
        ensures
            final(self).wf(),
            !has_id(old(self).unconfirmed_cmd@, cmd_to_remove) ==> r == Err::<(), MicromouseManagerError>(
                MicromouseManagerError::CmdNotKnown(cmd_to_remove),
            ) && *final(self) == *old(self),
            has_id(old(self).unconfirmed_cmd@, cmd_to_remove) ==> r is Ok && final(self).unconfirmed_cmd@
                == old(self).unconfirmed_cmd@.remove(id_index(old(self).unconfirmed_cmd@, cmd_to_remove)),
            final(self).next_cmd_send_id == old(self).next_cmd_send_id,
            final(self).next_cmd_process_id == old(self).next_cmd_process_id,
            final(self).mode == old(self).mode,
            final(self).current_command == old(self).current_command,
            final(self).current_world == old(self).current_world,
    {
        match self.find_unconfirmed(cmd_to_remove) {
            Some(i) => {
                self.unconfirmed_cmd.remove(i);
                Ok(())
            },
            None => Err(MicromouseManagerError::CmdNotKnown(cmd_to_remove)),
        }
    }

    /// Whether fewer commands wait than are wanted, so that a new one should be computed.
    pub fn queue_below_target(&self) -> (r: bool)
        ensures
            r == (self.unconfirmed_cmd@.len() < TARGET_QUEUE_LENGTH),
    {
        self.unconfirmed_cmd.len() < TARGET_QUEUE_LENGTH
    }

    /// How `update_current_command_id` with `id` takes `old` to `new` with result `r`.
    pub open spec fn command_started(
        old: Self,
        id: CommandId,
        new: Self,
        r: Result<Result<(), MicromouseManagerError>, HaltReason>,
    ) -> bool {
        &&& new.next_cmd_send_id == old.next_cmd_send_id
        &&& new.mode == old.mode
        &&& new.current_world == old.current_world
        &&& new.battery == old.battery
        &&& new.start_marker == old.start_marker
        &&& match old.current_command {
            None => if !has_id(old.unconfirmed_cmd@, id) {
                &&& r == Ok::<Result<(), MicromouseManagerError>, HaltReason>(
                    Err(MicromouseManagerError::CmdNotKnown(id)),
                )
                &&& new.unconfirmed_cmd@ == old.unconfirmed_cmd@
                &&& new.next_cmd_process_id == old.next_cmd_process_id
                &&& new.current_command is None
            } else {
                let j = id_index(old.unconfirmed_cmd@, id);
                let cmd = old.unconfirmed_cmd@[j].cmd;
                &&& new.unconfirmed_cmd@ == old.unconfirmed_cmd@.remove(j)
                &&& if !build_ok(old.current_world.map, old.current_world.mouse, cmd) {
                    r == Err::<Result<(), MicromouseManagerError>, HaltReason>(HaltReason::CommandNotEnumerable(id))
                } else if id.0 == u32::MAX {
                    r == Err::<Result<(), MicromouseManagerError>, HaltReason>(HaltReason::IdOverflow)
                } else {
                    &&& new.current_command matches Some((a, cid)) && {
                        &&& cid == id
                        &&& a.consistent_with(old.current_world.map)
                        &&& a.filter_spec() == old.current_world.map
                        &&& a.start_spec() == old.current_world.mouse
                        &&& a.command_spec() == cmd
                    }
                    &&& new.next_cmd_process_id == id.0 + 1
                    &&& r == if old.next_cmd_process_id == id.0 {
                        Ok::<Result<(), MicromouseManagerError>, HaltReason>(Ok(()))
                    } else {
                        Ok(
                            Err(
                                MicromouseManagerError::WrongProcessOrder {
                                    expected: CommandId(old.next_cmd_process_id),
                                    received: id,
                                },
                            ),
                        )
                    }
                }
            },
            Some((_, cid)) => {
                &&& new.unconfirmed_cmd@ == old.unconfirmed_cmd@
                &&& new.current_command == old.current_command
                &&& if cid == id {
                    &&& r == Ok::<Result<(), MicromouseManagerError>, HaltReason>(Ok(()))
                    &&& new.next_cmd_process_id == old.next_cmd_process_id
                } else if id.0 == u32::MAX {
                    r == Err::<Result<(), MicromouseManagerError>, HaltReason>(HaltReason::IdOverflow)
                } else {
                    &&& new.next_cmd_process_id == id.0 + 1
                    &&& r == Ok::<Result<(), MicromouseManagerError>, HaltReason>(
                        Err(MicromouseManagerError::CmdStartBeforeFinish { new_cmd: id, unfinished_cmd: cid }),
                    )
                }
            },
        }
    }

    /// Checks whether the id a message of the mouse carries starts a new command. With none
    /// executing, the command with that id leaves the queue and is enumerated from the current
    /// world; the id expected next becomes the one after it, and it is an error if it was not
    /// the one expected. With one executing, another id means that command was not reported
    /// finished: the id after the new one is expected next.
    fn update_current_command_id(&mut self, response_cmd_id: CommandId) -> (r: Result<
        Result<(), MicromouseManagerError>,
        HaltReason,
    >)
        requires
            old(self).wf(),
        ensures
            final(self).wf(),
            Self::command_started(*old(self), response_cmd_id, *final(self), r),
    {
        match &self.current_command {
            None => {
                let j = match self.find_unconfirmed(response_cmd_id) {
                    Some(j) => j,
                    None => {
                        return Ok(Err(MicromouseManagerError::CmdNotKnown(response_cmd_id)));
                    },
                };
                let ghost q = self.unconfirmed_cmd@;
                let msg = self.unconfirmed_cmd.remove(j);
                proof {
                    assert forall|a: int, b: int|
                        0 <= a < self.unconfirmed_cmd@.len() && 0 <= b < self.unconfirmed_cmd@.len() && a != b implies self.unconfirmed_cmd@[a].cmd_id
                        != self.unconfirmed_cmd@[b].cmd_id by {
                        let a2 = if a < j { a } else { a + 1 };
                        let b2 = if b < j { b } else { b + 1 };
                        assert(self.unconfirmed_cmd@[a] == q[a2]);
                        assert(self.unconfirmed_cmd@[b] == q[b2]);
                    }
                }
                let world = self.current_world;
                let app = match FilteredCommandApplication::try_new(Some(world), msg.cmd) {
                    Some(a) => a,
                    None => {
                        return Err(HaltReason::CommandNotEnumerable(response_cmd_id));
                    },
                };
                proof {
                    app.lemma_build_ok_at_start(world.map);
                }
                self.current_command = Some((app, response_cmd_id));
                if response_cmd_id.0 == u32::MAX {
                    return Err(HaltReason::IdOverflow);
                }
                let expected_next_id = self.next_cmd_process_id;
                self.next_cmd_process_id = response_cmd_id.0 + 1;
                if expected_next_id == response_cmd_id.0 {
                    Ok(Ok(()))
                } else {
                    Ok(
                        Err(
                            MicromouseManagerError::WrongProcessOrder {
                                expected: CommandId(expected_next_id),
                                received: response_cmd_id,
                            },
                        ),
                    )
                }
            },
            Some((_, current_cmd_id)) => {
                let current_cmd_id = *current_cmd_id;
                if current_cmd_id == response_cmd_id {
                    Ok(Ok(()))
                } else if response_cmd_id.0 == u32::MAX {
                    Err(HaltReason::IdOverflow)
                } else {
                    self.next_cmd_process_id = response_cmd_id.0 + 1;
                    Ok(
                        Err(
                            MicromouseManagerError::CmdStartBeforeFinish {
                                new_cmd: response_cmd_id,
                                unfinished_cmd: current_cmd_id,
                            },
                        ),
                    )
                }
            },
        }
    }

    /// How `update_cmd_application` at `step` with `measurement` takes `old` to `new` with
    /// result `r`.
    pub open spec fn cmd_application_updated(
        old: Self,
        step: StepNum,
        measurement: Option<MeasurementMessage>,
        new: Self,
        r: Result<InternalMapUpdate, MicromouseManagerError>,
    ) -> bool {
        &&& new.next_cmd_send_id == old.next_cmd_send_id
        &&& new.unconfirmed_cmd == old.unconfirmed_cmd
        &&& new.next_cmd_process_id == old.next_cmd_process_id
        &&& new.mode == old.mode
        &&& new.battery == old.battery
        &&& new.start_marker == old.start_marker
        &&& match old.current_command {
            None => {
                &&& r == Err::<InternalMapUpdate, MicromouseManagerError>(
                    MicromouseManagerError::MeasurementWithoutAssociatedCmd,
                )
                &&& new == old
            },
            Some((a, id)) => if step > a.termination_step_spec() {
                &&& r == Err::<InternalMapUpdate, MicromouseManagerError>(MicromouseManagerError::CmdTooLong(id))
                &&& new == old
            } else {
                match a.certain_step_spec(step as int) {
                    Err(e) => {
                        &&& r == Err::<InternalMapUpdate, MicromouseManagerError>(
                            MicromouseManagerError::PathNotProven(e),
                        )
                        &&& new == old
                    },
                    Ok(w) => {
                        let moved = if w.0.mouse != old.current_world.mouse {
                            Some(w.0.mouse)
                        } else {
                            None
                        };
                        match measurement {
                            None => {
                                &&& new.current_command == old.current_command
                                &&& new.current_world == w.0
                                &&& r matches Ok(u) && u.new_transf_spec() == moved && u.discoveries_spec() is None
                                    && u.rejected_spec() is None
                            },
                            Some(m) => Self::measurement_applied(a, id, w, moved, transform_measurement_spec(m, w.0.mouse), step, old, new, r),
                        }
                    },
                }
            },
        }
    }

    /// The measurement `tm`, taken at the start of step `step` of the command `a` (id `id`),
    /// in world `w`, was applied to what `a` knows, taking `old` to `new` with result `r`:
    /// either it contradicts what is known, or the command is enumerated anew in what is then
    /// known and the world at the step is read again.
    pub open spec fn measurement_applied(
        a: FilteredCommandApplication<N>,
        id: CommandId,
        w: crate::map::world_data::PartialWorldData<N>,
        moved: Option<MouseTransform>,
        tm: crate::map::measurement::Measurement,
        step: StepNum,
        old: Self,
        new: Self,
        r: Result<InternalMapUpdate, MicromouseManagerError>,
    ) -> bool {
        &&& new.current_command matches Some((a2, id2)) && id2 == id && {
            &&& a2.filter_spec().upgrade_of(&a.filter_spec())
            &&& (r matches Err(MicromouseManagerError::MapInconsistency(err)) ==> {
                &&& err matches FilterMeasurementUpgradeError::NotValidMeasurement(e) && a2.filter_spec().apply_outcome(
                    &a.filter_spec(),
                    tm,
                    Err(e),
                )
                &&& a2.same_enumeration(&a)
                &&& new.current_world == old.current_world
            })
            &&& (!(r matches Err(MicromouseManagerError::MapInconsistency(_))) ==> {
                &&& a2.consistent_with(a2.filter_spec())
                &&& a2.start_spec() == a.transform_at_spec(0)
                &&& a2.command_spec().ty == a.command_spec().ty
                &&& a2.command_spec().interrupts@ == a.command_spec().interrupts@
                &&& exists|d: DiscoveryMessage|
                    {
                        &&& a2.filter_spec().apply_outcome(&a.filter_spec(), tm, Ok(d))
                        &&& (r matches Ok(u) ==> u.discoveries_spec() == if d.cell_discoveries@.len() == 0
                            && d.wall_discoveries@.len() == 0 {
                            None
                        } else {
                            Some(d)
                        })
                    }
                &&& match a2.certain_step_spec(step as int) {
                    Err(e2) => {
                        &&& r == Err::<InternalMapUpdate, MicromouseManagerError>(
                            MicromouseManagerError::PathNotProven(e2),
                        )
                        &&& new.current_world == old.current_world
                    },
                    Ok(nm) => {
                        let rej = id_difference(a.outcome_ids_spec(), a2.outcome_ids_spec());
                        &&& new.current_world == nm.0
                        &&& r matches Ok(u) && u.new_transf_spec() == moved && (rej.len() == 0
                            ==> u.rejected_spec() is None) && (rej.len() > 0 ==> (u.rejected_spec() matches Some(
                            x,
                        ) && x.rejected_outcome_ids@ == rej))
                    },
                }
            })
        }
    }

    /// Brings the world up to date with a message of the mouse that carries a step number: a
    /// measurement (`Some`) or the end of the command (`None`). The world becomes the one at
    /// the start of that step, which must be certain; a measurement is first applied to what
    /// the command knows, and the command is enumerated anew.
    fn update_cmd_application(&mut self, step_number: StepNum, measurement: Option<MeasurementMessage>) -> (r: Result<
        InternalMapUpdate,
        MicromouseManagerError,
    >)
        requires
            old(self).wf(),
        ensures
            final(self).wf(),
            Self::cmd_application_updated(*old(self), step_number, measurement, *final(self), r),
    {
        let ghost pre = *self;
        let (mut app, id) = match self.current_command.take() {
            Some(x) => x,
            None => {
                return Err(MicromouseManagerError::MeasurementWithoutAssociatedCmd);
            },
        };
        let ghost a = app;
        if step_number as usize > app.step_with_termination() {
            self.current_command = Some((app, id));
            return Err(MicromouseManagerError::CmdTooLong(id));
        }
        let world_at_step = match app.at_start_certain_step(step_number) {
            Ok(w) => w,
            Err(e) => {
                self.current_command = Some((app, id));
                return Err(MicromouseManagerError::PathNotProven(e));
            },
        };
        let new_transf = if world_at_step.0.mouse != self.current_world.mouse {
            Some(world_at_step.0.mouse)
        } else {
            None
        };
        let filter_update = match measurement {
            Some(m) => {
                let t = world_at_step.0.mouse;
                let tm = m.transform_by(&t);
                proof {
                    assert forall|better: MazeMap<N>| #[trigger] better.upgrade_of(&a.filter_spec()) implies build_ok(
                        better,
                        a.transform_at_spec(0),
                        a.command_spec(),
                    ) by {
                        lemma_build_ok_upgrade(a.filter_spec(), better, a.transform_at_spec(0), a.command_spec());
                    }
                }
                let fu = match app.apply_measurement_to_filter(tm) {
                    Ok(fu) => fu,
                    Err(e) => {
                        proof {
                            lemma_build_ok_upgrade(a.filter_spec(), app.filter_spec(), a.transform_at_spec(0), a.command_spec());
                        }
                        self.current_command = Some((app, id));
                        return Err(MicromouseManagerError::MapInconsistency(e));
                    },
                };
                proof {
                    app.lemma_build_ok_at_start(app.filter_spec());
                }
                let new_map = match app.at_start_certain_step(step_number) {
                    Ok(w) => w,
                    Err(e) => {
                        self.current_command = Some((app, id));
                        return Err(MicromouseManagerError::PathNotProven(e));
                    },
                };
                self.current_world = new_map.0;
                fu
            },
            None => {
                self.current_world = world_at_step.0;
                FilterUpdate { discoveries: None, rejections: None }
            },
        };
        self.current_command = Some((app, id));
        Ok(InternalMapUpdate::new(new_transf, filter_update.discoveries, filter_update.rejections))
    }

    /// `new` is `old` with the mode set to `mode`.
    pub open spec fn with_mode(new: Self, old: Self, mode: MicromouseMode) -> bool {
        new == (Self { mode, ..old })
    }

    /// `out` resends nothing and reports `events`.
    pub open spec fn reports(out: ManagerStep, events: Seq<MicromouseEvent>) -> bool {
        &&& out matches ManagerStep::Done { resend, result }
        &&& resend@.len() == 0
        &&& result matches Ok(v) && v@ == events
    }

    /// `out` resends nothing and reports the error `e`.
    pub open spec fn fails(out: ManagerStep, e: MicromouseManagerError) -> bool {
        &&& out matches ManagerStep::Done { resend, result }
        &&& resend@.len() == 0
        &&& result == Err::<Vec<MicromouseEvent>, MicromouseManagerError>(e)
    }

    /// The outcome of a start check `r1` that did not let the handling go on.
    pub open spec fn start_failed(r1: Result<Result<(), MicromouseManagerError>, HaltReason>, mid: Self, new: Self, out: ManagerStep) -> bool {
        match r1 {
            Err(h) => new == mid && out == ManagerStep::Halt(h),
            Ok(Err(e)) => new == mid && Self::fails(out, e),
            Ok(Ok(())) => false,
        }
    }

    /// The step at which a command `a` finished for `reason`: that of the interrupt, or else
    /// the step at which it surely ends.
    pub open spec fn finished_at_step(reason: Option<crate::comm::micromouse_message::InterruptOccurence>, a: FilteredCommandApplication<N>) -> StepNum {
        match reason {
            Some(i) => i.occurence.at_step,
            None => a.termination_step_spec() as u32,
        }
    }

    /// How the manager, in state `old`, handles the response `resp` of the mouse, ending in
    /// state `new` and doing `out`.
    pub open spec fn response_handled(old: Self, resp: MicromouseResponse, new: Self, out: ManagerStep) -> bool {
        match resp {
            MicromouseResponse::Debug(m) => new == old && Self::reports(out, seq![MicromouseEvent::DebugMessage(m)]),
            MicromouseResponse::Stop => Self::with_mode(new, old, MicromouseMode::Stopped) && Self::reports(
                out,
                seq![MicromouseEvent::Stop],
            ),
            MicromouseResponse::Continue => Self::with_mode(new, old, MicromouseMode::Running) && Self::reports(
                out,
                seq![MicromouseEvent::Continue],
            ),
            MicromouseResponse::Restart => Self::restarted(new, old) && Self::reports(out, seq![MicromouseEvent::Restart]),
            MicromouseResponse::Battery(b) => new == (Self { battery: b, ..old }) && Self::reports(out, Seq::empty()),
            MicromouseResponse::Desync(ids) => {
                let q = old.unconfirmed_cmd@;
                let k = first_missing(q, ids@, 0);
                &&& new == old
                &&& out matches ManagerStep::Done { resend, result } && {
                    &&& resend@.len() == k
                    &&& forall|i: int| 0 <= i < k ==> same_message(#[trigger] resend@[i], q[id_index(q, ids@[i])])
                    &&& k < ids@.len() ==> result == Err::<Vec<MicromouseEvent>, MicromouseManagerError>(
                        MicromouseManagerError::CmdConfirmThenReqested(ids@[k]),
                    )
                    &&& k >= ids@.len() ==> (result matches Ok(v) && v@.len() == 0)
                }
            },
            MicromouseResponse::Measurement(mm) => exists|mid: Self, r1: Result<Result<(), MicromouseManagerError>, HaltReason>|
                #![trigger Self::command_started(old, mm.from_cmd, mid, r1)]
                {
                    &&& Self::command_started(old, mm.from_cmd, mid, r1)
                    &&& mid.wf()
                    &&& (r1 != Ok::<Result<(), MicromouseManagerError>, HaltReason>(Ok(())) ==> Self::start_failed(
                        r1,
                        mid,
                        new,
                        out,
                    ))
                    &&& (r1 == Ok::<Result<(), MicromouseManagerError>, HaltReason>(Ok(())) ==> exists|
                        r2: Result<InternalMapUpdate, MicromouseManagerError>,
                    |
                        #![trigger Self::cmd_application_updated(mid, mm.interrupt.at_step, Some(mm), new, r2)]
                        {
                            &&& Self::cmd_application_updated(mid, mm.interrupt.at_step, Some(mm), new, r2)
                            &&& match r2 {
                                Ok(u) => Self::reports(out, u.events_spec()),
                                Err(e) => Self::fails(out, e),
                            }
                        })
                },
            MicromouseResponse::CommandFinished(cf) => exists|
                mid: Self,
                r1: Result<Result<(), MicromouseManagerError>, HaltReason>,
            |
                #![trigger Self::command_started(old, cf.cmd_id, mid, r1)]
                {
                    &&& Self::command_started(old, cf.cmd_id, mid, r1)
                    &&& mid.wf()
                    &&& (r1 != Ok::<Result<(), MicromouseManagerError>, HaltReason>(Ok(())) ==> Self::start_failed(
                        r1,
                        mid,
                        new,
                        out,
                    ))
                    &&& (r1 == Ok::<Result<(), MicromouseManagerError>, HaltReason>(Ok(())) ==> match mid.current_command {
                        None => new == mid && Self::fails(out, MicromouseManagerError::CmdNotKnown(cf.cmd_id)),
                        Some((a, fid)) => {
                            exists|mid2: Self, r2: Result<InternalMapUpdate, MicromouseManagerError>|
                                #![trigger Self::cmd_application_updated(mid, Self::finished_at_step(cf.reason, a), None, mid2, r2)]
                                {
                                    &&& Self::cmd_application_updated(mid, Self::finished_at_step(cf.reason, a), None, mid2, r2)
                                    &&& new == (Self { current_command: None, ..mid2 })
                                    &&& match r2 {
                                        Ok(u) => Self::reports(
                                            out,
                                            seq![
                                                MicromouseEvent::FinishedCommand {
                                                    cmd_id: fid,
                                                    require_new: mid2.unconfirmed_cmd@.len() == 0,
                                                },
                                            ] + u.events_spec(),
                                        ),
                                        Err(e) => Self::fails(out, e),
                                    }
                                }
                        },
                    })
                },
        }
    }

    /// Handles a response of the mouse: follows the command it reports on, records its mode
    /// and battery, and answers a desynchronisation by resending the commands asked for.
    pub fn handle_response(&mut self, resp: MicromouseResponse) -> (out: ManagerStep)
        requires
            old(self).wf(),
        ensures
            final(self).wf(),
            Self::response_handled(*old(self), resp, *final(self), out),
    {
        match resp {
            MicromouseResponse::Debug(msg) => ManagerStep::Done {
                resend: Vec::new(),
                result: Ok(one_event(MicromouseEvent::DebugMessage(msg))),
            },
            MicromouseResponse::Measurement(measurement_message) => {
                let ghost pre = *self;
                let r1 = self.update_current_command_id(measurement_message.from_cmd);
                let ghost mid = *self;
                match r1 {
                    Err(h) => {
                        let out = ManagerStep::Halt(h);
                        proof {
                            assert(Self::command_started(pre, measurement_message.from_cmd, mid, r1));
                            assert(Self::start_failed(r1, mid, *self, out));
                        }
                        return out;
                    },
                    Ok(Err(e)) => {
                        let out = ManagerStep::Done { resend: Vec::new(), result: Err(e) };
                        proof {
                            assert(Self::command_started(pre, measurement_message.from_cmd, mid, r1));
                            assert(Self::start_failed(r1, mid, *self, out));
                        }
                        return out;
                    },
                    Ok(Ok(())) => {},
                }
                let r2 = self.update_cmd_application(measurement_message.interrupt.at_step, Some(measurement_message));
                let ghost r2g = r2;
                let out = match r2 {
                    Ok(u) => ManagerStep::Done { resend: Vec::new(), result: Ok(u.into_events()) },
                    Err(e) => ManagerStep::Done { resend: Vec::new(), result: Err(e) },
                };
                proof {
                    assert(Self::command_started(pre, measurement_message.from_cmd, mid, r1));
                    assert(Self::cmd_application_updated(
                        mid,
                        measurement_message.interrupt.at_step,
                        Some(measurement_message),
                        *self,
                        r2g,
                    ));
                    assert(match r2g {
                        Ok(u) => Self::reports(out, u.events_spec()),
                        Err(e) => Self::fails(out, e),
                    });
                }
                out
            },
            MicromouseResponse::CommandFinished(command_finished_message) => {
                let ghost pre = *self;
                let r1 = self.update_current_command_id(command_finished_message.cmd_id);
                let ghost mid = *self;
                match r1 {
                    Err(h) => {
                        let out = ManagerStep::Halt(h);
                        proof {
                            assert(Self::command_started(pre, command_finished_message.cmd_id, mid, r1));
                            assert(Self::start_failed(r1, mid, *self, out));
                        }
                        return out;
                    },
                    Ok(Err(e)) => {
                        let out = ManagerStep::Done { resend: Vec::new(), result: Err(e) };
                        proof {
                            assert(Self::command_started(pre, command_finished_message.cmd_id, mid, r1));
                            assert(Self::start_failed(r1, mid, *self, out));
                        }
                        return out;
                    },
                    Ok(Ok(())) => {},
                }
                let (step_num, finished_cmd_id) = match &self.current_command {
                    None => {
                        return ManagerStep::Done {
                            resend: Vec::new(),
                            result: Err(MicromouseManagerError::CmdNotKnown(command_finished_message.cmd_id)),
                        };
                    },
                    Some((app, fid)) => {
                        let step: StepNum = match command_finished_message.reason {
                            Some(i) => i.occurence.at_step,
                            None => app.step_with_termination() as u32,
                        };
                        (step, *fid)
                    },
                };
                let r2 = self.update_cmd_application(step_num, None);
                let ghost mid2 = *self;
                let ghost r2g = r2;
                self.clear_current_command();
                let out = match r2 {
                    Err(e) => ManagerStep::Done { resend: Vec::new(), result: Err(e) },
                    Ok(u) => {
                        let require_new = self.unconfirmed_cmd.len() == 0;
                        let mut events = one_event(MicromouseEvent::FinishedCommand { cmd_id: finished_cmd_id, require_new });
                        let mut more = u.into_events();
                        events.append(&mut more);
                        ManagerStep::Done { resend: Vec::new(), result: Ok(events) }
                    },
                };
                proof {
                    assert(Self::command_started(pre, command_finished_message.cmd_id, mid, r1));
                    assert(Self::cmd_application_updated(mid, step_num, None, mid2, r2g));
                    assert(step_num == Self::finished_at_step(command_finished_message.reason, mid.current_command.unwrap().0));
                    assert(*self == (Self { current_command: None, ..mid2 }));
                    assert(match r2g {
                        Ok(u) => Self::reports(
                            out,
                            seq![
                                MicromouseEvent::FinishedCommand {
                                    cmd_id: finished_cmd_id,
                                    require_new: mid2.unconfirmed_cmd@.len() == 0,
                                },
                            ] + u.events_spec(),
                        ),
                        Err(e) => Self::fails(out, e),
                    });
                }
                out
            },
            MicromouseResponse::Desync(command_ids) => {
                let ghost q = self.unconfirmed_cmd@;
                let ghost pre = *self;
                let mut resend: Vec<CommandMessage> = Vec::new();
                let mut k: usize = 0;
                while k < command_ids.len()
                    invariant
                        self.wf(),
                        *self == pre,
                        (resp matches MicromouseResponse::Desync(ids) && ids@ == command_ids@),
                        self.unconfirmed_cmd@ == q,
                        k <= command_ids@.len(),
                        resend@.len() == k,
                        first_missing(q, command_ids@, 0) == first_missing(q, command_ids@, k as int),
                        forall|i: int| 0 <= i < k ==> same_message(#[trigger] resend@[i], q[id_index(q, command_ids@[i])]),
                    decreases command_ids.len() - k,
                {
                    match self.unconfirmed(command_ids[k]) {
                        Some(m) => {
                            resend.push(m);
                        },
                        None => {
                            proof {
                                assert(first_missing(q, command_ids@, k as int) == k);
                            }
                            let out = ManagerStep::Done {
                                resend,
                                result: Err(MicromouseManagerError::CmdConfirmThenReqested(command_ids[k])),
                            };
                            return out;
                        },
                    }
                    k = k + 1;
                }
                ManagerStep::Done { resend, result: Ok(Vec::new()) }
            },
            MicromouseResponse::Stop => {
                self.mode = MicromouseMode::Stopped;
                ManagerStep::Done { resend: Vec::new(), result: Ok(one_event(MicromouseEvent::Stop)) }
            },
            MicromouseResponse::Restart => {
                self.restart();
                self.mode = MicromouseMode::Running;
                ManagerStep::Done { resend: Vec::new(), result: Ok(one_event(MicromouseEvent::Restart)) }
            },
            MicromouseResponse::Continue => {
                self.mode = MicromouseMode::Running;
                ManagerStep::Done { resend: Vec::new(), result: Ok(one_event(MicromouseEvent::Continue)) }
            },
            MicromouseResponse::Battery(b_100) => {
                self.battery = b_100;
                ManagerStep::Done { resend: Vec::new(), result: Ok(Vec::new()) }
            },
        }
    }

    /// Handles the next text read from the mouse's connection (`None`: it was closed for good):
    /// a text that is no response of the mouse is an error, any other is handled as
    /// `handle_response` does.
    pub fn next(&mut self, read: Option<String>) -> (out: ManagerStep)
        requires
            old(self).wf(),
        ensures
            final(self).wf(),
            read is None ==> *final(self) == *old(self) && Self::fails(out, MicromouseManagerError::ConnectionClosedPermanently),
            read matches Some(t) ==> exists|p: Result<MicromouseResponse, FormatError<MicromouseResponse>>|
                #![trigger response_parsed(t@, p)]
                {
                    &&& response_parsed(t@, p)
                    &&& match p {
                        Err(e) => *final(self) == *old(self) && Self::fails(out, MicromouseManagerError::UnknownResponse(e)),
                        Ok(resp) => Self::response_handled(*old(self), resp, *final(self), out),
                    }
                },
    {
        let text = match read {
            None => {
                return ManagerStep::Done { resend: Vec::new(), result: Err(MicromouseManagerError::ConnectionClosedPermanently) };
            },
            Some(t) => t,
        };
        let ghost tv = text@;
        let parsed = MicromouseResponse::try_from_text(text);
        let ghost pg = parsed;
        let ghost pre = *self;
        let out = match parsed {
            Err(e) => ManagerStep::Done { resend: Vec::new(), result: Err(MicromouseManagerError::UnknownResponse(e)) },
            Ok(resp) => self.handle_response(resp),
        };
        proof {
            assert(response_parsed(tv, pg));
        }
        out
    }

    /// Sets the current command to none and returns its application.
    fn clear_current_command(&mut self) -> (r: Option<FilteredCommandApplication<N>>)
        requires
            old(self).wf(),
        ensures
            final(self).wf(),
            final(self).current_command is None,
            r == match old(self).current_command {
                Some((a, _)) => Some(a),
                None => None::<FilteredCommandApplication<N>>,
            },
            final(self).unconfirmed_cmd == old(self).unconfirmed_cmd,
            final(self).next_cmd_send_id == old(self).next_cmd_send_id,
            final(self).next_cmd_process_id == old(self).next_cmd_process_id,
            final(self).mode == old(self).mode,
            final(self).current_world == old(self).current_world,
            final(self).battery == old(self).battery,
            final(self).start_marker == old(self).start_marker,
    {
        let old_cmd = self.current_command.take();
        match old_cmd {
            Some((a, _)) => Some(a),
            None => None,
        }
    }
}

} // verus!
