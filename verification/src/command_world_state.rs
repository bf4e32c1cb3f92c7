//! The plain form of a command's application to a world: for every step, the interrupts that
//! measure there with the world in which each of them lets the command go on, up to the first
//! interrupt that cannot let it go on.

use vstd::prelude::*;

use crate::comm::micromouse_message::{
    max_step_count_spec, movement_at_step_req, movement_at_step_spec, step_matches_spec, Command,
    InterruptOccurence, InterruptType, MeasurementInterrupt, MeasurementOccurrence, MovementType,
    StepNum, TransformedMovement,
};
use crate::map::map::MazeMap;
use crate::map::world_data::{PartialWorldData, WorldData};
use crate::transform::position::MouseTransform;

verus! {

/// A command applied to a world: the recorded steps, why it ends, and what is known of the map.
pub struct CommandApplication<const N: usize> {
    execution_steps: Vec<ExecutionStep<N>>,
    execution_end: CommandTerminationReason,
    filter: MazeMap<N>,
}

/// The interrupts that measure at one step, each with the world that lets the command go on.
pub struct ExecutionStep<const N: usize> {
    pub potential_ends: Vec<PotentialExecutionEnd<N>>,
}

/// An interrupt that measures at a step (possibly a `Continue` one), with what the world has to
/// look like, at least, for it not to stop the command.
#[derive(Clone, Copy)]
pub struct PotentialExecutionEnd<const N: usize> {
    pub potential_end_reason: InterruptType,
    pub world_if_not_triggered: PartialWorldData<N>,
}

/// Why the application of a command ends: an interrupt that cannot let it go on, or the end of
/// its movement after the given number of steps.
#[derive(Clone, Copy)]
pub enum CommandTerminationReason {
    Interrupted(InterruptOccurence),
    MaxStep(usize),
}

/// The state while applying a command: the finished steps, the potential ends of the current
/// step, the world in which the command goes on, and the interrupt that ended it, if one did.
pub type ApplicationState<const N: usize> = (
    Seq<Seq<PotentialExecutionEnd<N>>>,
    Seq<PotentialExecutionEnd<N>>,
    PartialWorldData<N>,
    Option<InterruptOccurence>,
);

/// Interrupt `it` at step `i`: if it measures there, the command goes on in the world where it
/// does not stop it, or, if there is no such world, ends with it.
pub open spec fn apply_interrupt<const N: usize>(st: ApplicationState<N>, it: MeasurementInterrupt, i: int) -> ApplicationState<N> {
    if st.3 is Some || !step_matches_spec(it.at_step, i) {
        st
    } else {
        match st.2.termination_variant(false, it.direction, it.action) {
            None => (
                st.0,
                st.1,
                st.2,
                Some(
                    InterruptOccurence {
                        occurence: MeasurementOccurrence { direction: it.direction, at_step: i as StepNum },
                        action: it.action,
                    },
                ),
            ),
            Some(w) => (
                st.0,
                st.1.push(
                    PotentialExecutionEnd {
                        potential_end_reason: InterruptType { direction: it.direction, action: it.action },
                        world_if_not_triggered: w,
                    },
                ),
                w,
                None,
            ),
        }
    }
}

/// The state after the first `k` interrupts of `ints` at step `i`.
pub open spec fn apply_interrupts<const N: usize>(st: ApplicationState<N>, ints: Seq<MeasurementInterrupt>, i: int, k: int) -> ApplicationState<N>
    decreases k,
{
    if k <= 0 {
        st
    } else {
        apply_interrupt(apply_interrupts(st, ints, i, k - 1), ints[k - 1], i)
    }
}

/// The state after the first `n` steps of the movement `ty` from `start`: each step starts
/// with the mouse at that step's transform and is recorded once all its interrupts let the
/// command go on.
pub open spec fn apply_steps<const N: usize>(
    st: ApplicationState<N>,
    start: MouseTransform,
    ty: MovementType,
    ints: Seq<MeasurementInterrupt>,
    n: int,
) -> ApplicationState<N>
    decreases n,
{
    if n <= 0 {
        st
    } else {
        let prev = apply_steps(st, start, ty, ints, n - 1);
        if prev.3 is Some {
            prev
        } else {
            let entered = (
                prev.0,
                Seq::<PotentialExecutionEnd<N>>::empty(),
                PartialWorldData(
                    WorldData { map: prev.2.0.map, mouse: movement_at_step_spec(start, ty, n - 1).unwrap() },
                ),
                None,
            );
            let done = apply_interrupts(entered, ints, n - 1, ints.len() as int);
            if done.3 is Some {
                done
            } else {
                (done.0.push(done.1), done.1, done.2, None)
            }
        }
    }
}

/// The application of `cmd` to `world`.
pub open spec fn application_spec<const N: usize>(world: WorldData<N>, cmd: Command) -> ApplicationState<N> {
    let init = (Seq::empty(), Seq::empty(), PartialWorldData(world), None);
    apply_steps(init, world.mouse, cmd.ty, cmd.interrupts@, max_step_count_spec(cmd.ty) as int + 1)
}

/// Every step of the movement of `cmd` from `start` can be computed and stays in the
/// non-negative quadrant.
pub open spec fn steps_in_range(start: MouseTransform, cmd: Command) -> bool {
    forall|j: int|
        0 <= j <= max_step_count_spec(cmd.ty) ==> #[trigger] movement_at_step_req(start, cmd.ty, j)
            && movement_at_step_spec(start, cmd.ty, j) is Some
}

impl<const N: usize> CommandApplication<N> {
    /// The interrupt lists of the recorded steps.
    pub closed spec fn steps_spec(&self) -> Seq<Seq<PotentialExecutionEnd<N>>> {
        self.execution_steps@.map_values(|s: ExecutionStep<N>| s.potential_ends@)
    }

    /// Why the application ends.
    pub closed spec fn end_spec(&self) -> CommandTerminationReason {
        self.execution_end
    }

    /// What is known of the map.
    pub closed spec fn filter_spec(&self) -> MazeMap<N> {
        self.filter
    }

    /// Applies `command` to `world_at_start`: step by step, every interrupt that measures at a
    /// step is recorded with the world in which it lets the command go on, until one cannot;
    /// that one ends the application (its step is not recorded), otherwise it ends after the
    /// last step of the movement.
    pub fn new(world_at_start: WorldData<N>, command: Command) -> (r: Self)
        requires
            steps_in_range(world_at_start.mouse, command),
        ensures
            r.filter_spec() == world_at_start.map,
            r.steps_spec() == application_spec(world_at_start, command).0,
            r.end_spec() == match application_spec(world_at_start, command).3 {
                Some(o) => CommandTerminationReason::Interrupted(o),
                None => CommandTerminationReason::MaxStep(max_step_count_spec(command.ty) as usize),
            },
    {
        let filter = world_at_start.map;
        let start_transform = world_at_start.mouse;
        let transformed_move = TransformedMovement::new(command.ty, start_transform);
        let max_step_count = transformed_move.max_step_count();
        let ghost ints = command.interrupts@;
        let ghost init: ApplicationState<N> = (Seq::empty(), Seq::empty(), PartialWorldData(world_at_start), None);
        let mut execution_steps: Vec<ExecutionStep<N>> = Vec::new();
        let mut next_step_start_requirements = PartialWorldData(world_at_start);
        let mut i: usize = 0;
        while i <= max_step_count
            invariant
                steps_in_range(start_transform, command),
                transformed_move.start_spec() == start_transform,
                transformed_move.movement_spec() == command.ty,
                max_step_count == max_step_count_spec(command.ty),
                max_step_count <= 255,
                ints == command.interrupts@,
                start_transform == world_at_start.mouse,
                filter == world_at_start.map,
                init == (
                    Seq::<Seq<PotentialExecutionEnd<N>>>::empty(),
                    Seq::<PotentialExecutionEnd<N>>::empty(),
                    PartialWorldData(world_at_start),
                    None::<InterruptOccurence>,
                ),
                i <= max_step_count + 1,
                apply_steps(init, start_transform, command.ty, ints, i as int).3 is None,
                apply_steps(init, start_transform, command.ty, ints, i as int).0 == execution_steps@.map_values(
                    |s: ExecutionStep<N>| s.potential_ends@,
                ),
                apply_steps(init, start_transform, command.ty, ints, i as int).2.0.map
                    == next_step_start_requirements.0.map,
            decreases max_step_count + 1 - i,
        {
            assert(movement_at_step_req(start_transform, command.ty, i as int));
            let transform_at_step = transformed_move.at_step(i).unwrap();
            next_step_start_requirements = PartialWorldData(
                WorldData { map: next_step_start_requirements.0.map, mouse: transform_at_step },
            );
            let ghost prev = apply_steps(init, start_transform, command.ty, ints, i as int);
            let ghost entered: ApplicationState<N> = (
                prev.0,
                Seq::<PotentialExecutionEnd<N>>::empty(),
                next_step_start_requirements,
                None,
            );
            let mut step_potential_ends: Vec<PotentialExecutionEnd<N>> = Vec::new();
            let mut k: usize = 0;
            while k < command.interrupts.len()
                invariant
                    ints == command.interrupts@,
                    k <= ints.len(),
                    max_step_count == max_step_count_spec(command.ty),
                    i <= max_step_count,
                    start_transform == world_at_start.mouse,
                    filter == world_at_start.map,
                    init == (
                        Seq::<Seq<PotentialExecutionEnd<N>>>::empty(),
                        Seq::<PotentialExecutionEnd<N>>::empty(),
                        PartialWorldData(world_at_start),
                        None::<InterruptOccurence>,
                    ),
                    prev == apply_steps(init, start_transform, command.ty, ints, i as int),
                    prev.3 is None,
                    prev.0 == execution_steps@.map_values(|s: ExecutionStep<N>| s.potential_ends@),
                    entered == (
                        prev.0,
                        Seq::<PotentialExecutionEnd<N>>::empty(),
                        PartialWorldData(
                            WorldData {
                                map: prev.2.0.map,
                                mouse: movement_at_step_spec(start_transform, command.ty, i as int).unwrap(),
                            },
                        ),
                        None::<InterruptOccurence>,
                    ),
                    apply_interrupts(entered, ints, i as int, k as int) == (
                        prev.0,
                        step_potential_ends@,
                        next_step_start_requirements,
                        None::<InterruptOccurence>,
                    ),
                    i <= 255,
                decreases ints.len() - k,
            {
                let interrupt = command.interrupts[k];
                if interrupt.at_step.matches(i) {
                    let potential_end_reason = InterruptType { direction: interrupt.direction, action: interrupt.action };
                    let world_if_not_triggered = next_step_start_requirements.with_interrupt_termination_triggered(
                        false,
                        potential_end_reason.direction,
                        potential_end_reason.action,
                    );
                    match world_if_not_triggered {
                        None => {
                            let end_of_command = CommandTerminationReason::Interrupted(
                                InterruptOccurence {
                                    occurence: MeasurementOccurrence {
                                        direction: interrupt.direction,
                                        at_step: i as StepNum,
                                    },
                                    action: interrupt.action,
                                },
                            );
                            proof {
                                let ended = apply_interrupts(entered, ints, i as int, k as int + 1);
                                assert(ended.3 is Some);
                                lemma_ended_interrupts(entered, ints, i as int, k as int + 1, ints.len() as int);
                                assert(apply_steps(init, start_transform, command.ty, ints, i as int + 1) == ended);
                                lemma_ended_steps(init, start_transform, command.ty, ints, i as int + 1, max_step_count as int + 1);
                            }
                            return Self { execution_steps, execution_end: end_of_command, filter };
                        },
                        Some(w) => {
                            next_step_start_requirements = w;
                            step_potential_ends.push(PotentialExecutionEnd { potential_end_reason, world_if_not_triggered: w });
                        },
                    }
                }
                k = k + 1;
            }
            execution_steps.push(ExecutionStep { potential_ends: step_potential_ends });
            proof {
                assert(execution_steps@.map_values(|s: ExecutionStep<N>| s.potential_ends@) =~= prev.0.push(
                    step_potential_ends@,
                ));
            }
            i = i + 1;
        }
        Self { execution_steps, execution_end: CommandTerminationReason::MaxStep(max_step_count), filter }
    }

    /// The number of recorded steps.
    pub fn max_step(&self) -> (r: usize)
        ensures
            r == self.steps_spec().len(),
    {
        self.execution_steps.len()
    }
}

proof fn lemma_ended_interrupts<const N: usize>(st: ApplicationState<N>, ints: Seq<MeasurementInterrupt>, i: int, j: int, n: int)
    requires
        0 <= j <= n,
        apply_interrupts(st, ints, i, j).3 is Some,
    ensures
        apply_interrupts(st, ints, i, n) == apply_interrupts(st, ints, i, j),
    decreases n - j,
{
    if n > j {
        lemma_ended_interrupts(st, ints, i, j, n - 1);
    }
}

proof fn lemma_ended_steps<const N: usize>(
    st: ApplicationState<N>,
    start: MouseTransform,
    ty: MovementType,
    ints: Seq<MeasurementInterrupt>,
    j: int,
    n: int,
)
    requires
        0 <= j <= n,
        apply_steps(st, start, ty, ints, j).3 is Some,
    ensures
        apply_steps(st, start, ty, ints, n) == apply_steps(st, start, ty, ints, j),
    decreases n - j,
{
    if n > j {
        lemma_ended_steps(st, start, ty, ints, j, n - 1);
    }
}

} // verus!
