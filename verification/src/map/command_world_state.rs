use vstd::prelude::*;

use crate::comm::micromouse_message::{
    max_step_count_spec, movement_at_step_req, movement_at_step_spec, step_matches_spec, Command,
    InterruptAction, InterruptType, MeasurementInterrupt, MovementType, StepNum,
    TransformedMovement,
};
use crate::comm::website::DiscoveryMessage;
use crate::map::map::{in_map, CellDiscoveryStatus, MapInconsistencyError, MazeMap, WallDiscoveryStatus};
use crate::map::upgrade::wall_upgrade_spec;
use crate::map::world_data::{is_negative_border, termination_wall};
use crate::map::measurement::Measurement;
use crate::map::upgrade::IsUpgradeable;
use crate::map::world_data::{PartialWorldData, WorldData};
use crate::transform::direction::{rotated_spec, Direction, RelativeDirection};
use crate::transform::position::{MouseTransform, Position};

verus! {

/// Which way a command ends within its own execution: by running out of steps or by the
/// interrupt at an index of its interrupt list.
#[derive(Copy, Clone, PartialEq, Eq, Hash, Debug, Structural)]
pub enum PathLocalInterruptId {
    MaxStep,
    InterruptAtIndex(usize),
}

/// One way a command can end: at which step and why.
#[derive(Copy, Clone, PartialEq, Eq, Hash, Debug, Structural)]
pub struct PathLocalOutcomeId {
    pub at_step: usize,
    pub from_interrupt: PathLocalInterruptId,
}

/// An interrupt of a step that may stop the command or let it go on.
#[derive(Copy, Clone, Debug)]
pub struct PotentialCommandInterruptTermination<const N: usize> {
    /// What the interrupt measures and does (possibly `Continue`).
    pub potentially_terminating_interrupt: InterruptType,
    pub interrupt_index: usize,
    /// What the world has to look like (at least) for the interrupt not to stop the command.
    pub continuing_world: PartialWorldData<N>,
    /// What it has to look like for the interrupt to stop it; `None` if it cannot.
    pub terminating_world: Option<PartialWorldData<N>>,
}

/// The interrupts of one step that could end the command; empty if the step surely passes.
#[derive(Debug)]
pub struct ExecutionStep<const N: usize> {
    pub interrupts: Vec<PotentialCommandInterruptTermination<N>>,
}

/// An interrupt that surely ends the command.
#[derive(Copy, Clone, Debug)]
pub struct CommandInterruptEnd<const N: usize> {
    pub terminating_interrupt: InterruptType,
    pub interrupt_index: usize,
    pub terminating_world: PartialWorldData<N>,
}

/// Why a command surely ends where it does: an interrupt forces it to, or its movement is done.
#[derive(Copy, Clone, Debug)]
pub enum CommandTerminationReason<const N: usize> {
    Interrupted(CommandInterruptEnd<N>),
    MaxStep(usize),
}

/// The set of ways a command can end.
#[derive(Clone, Debug)]
pub struct CommandOutcomeIds {
    /// Holds no element twice.
    pub potential_outcome_ids: Vec<PathLocalOutcomeId>,
}

/// Ways a command could end before an update of what is known, and cannot any more.
#[derive(Clone, Debug)]
pub struct RejectedOutcomes {
    /// Holds no element twice.
    pub rejected_outcome_ids: Vec<PathLocalOutcomeId>,
}

/// The ways a command can end, each with the world that has to hold for it.
pub struct CommandOutcomes<const N: usize> {
    /// Holds no identifier twice.
    pub potential_outcomes: Vec<(PathLocalOutcomeId, PartialWorldData<N>)>,
}

/// The execution of a command in the context of what is known about the map (its filter):
/// for each step, the interrupts that may stop it, with the worlds in which they do and do
/// not, up to the step at which the command surely ends.
#[derive(Debug)]
pub struct FilteredCommandApplication<const N: usize> {
    execution_steps: Vec<ExecutionStep<N>>,
    execution_termination: CommandTerminationReason<N>,
    last_possible_state: PartialWorldData<N>,
    filter: MazeMap<N>,
    transformed_move: TransformedMovement,
    potential_outcome_ids: CommandOutcomeIds,
    command: Command,
}

/// The state while enumerating a command's steps: the interrupt lists of the finished steps,
/// that of the current step, the world in which the command goes on, the outcome ids so far,
/// the interrupt that surely ends the command if one was met, and whether the enumeration
/// cannot be done (a step outside the quadrant, or an interrupt whose wall is not stored).
pub type BuildState<const N: usize> = (
    Seq<Seq<PotentialCommandInterruptTermination<N>>>,
    Seq<PotentialCommandInterruptTermination<N>>,
    PartialWorldData<N>,
    Seq<PathLocalOutcomeId>,
    Option<CommandInterruptEnd<N>>,
    bool,
);

/// `s` with `id` added unless it is there already.
pub open spec fn id_insert(s: Seq<PathLocalOutcomeId>, id: PathLocalOutcomeId) -> Seq<PathLocalOutcomeId> {
    if s.contains(id) {
        s
    } else {
        s.push(id)
    }
}

/// The enumeration ended, surely or because it cannot be done.
pub open spec fn build_done<const N: usize>(st: BuildState<N>) -> bool {
    st.4 is Some || st.5
}

/// The world at the start of step `i` at transform `t`: the cell is visited and, for a move
/// after its first step, the wall just driven through is visited too.
pub open spec fn step_start_world<const N: usize>(next: PartialWorldData<N>, t: MouseTransform, i: int, ty: MovementType) -> PartialWorldData<N> {
    let m0 = next.0.map;
    let m1 = if in_map(N as int, t.pos.x as int, t.pos.y as int) {
        m0.with_cell(t.pos, CellDiscoveryStatus::Visited)
    } else {
        m0
    };
    let back = rotated_spec(t.dir, 2);
    let m2 = if i >= 1 && ty is Move && m1.spec_wall(t.pos, back) is Some {
        m1.with_wall(t.pos, back, WallDiscoveryStatus::Visited)
    } else {
        m1
    };
    PartialWorldData(WorldData { map: m2, mouse: t })
}

/// Enters step `i`, at transform `t` (`None`: the step leaves the quadrant).
pub open spec fn build_step_start<const N: usize>(st: BuildState<N>, t: Option<MouseTransform>, i: int, ty: MovementType) -> BuildState<N> {
    if build_done(st) {
        st
    } else {
        match t {
            None => (st.0, st.1, st.2, st.3, st.4, true),
            Some(t) => (st.0, Seq::empty(), step_start_world(st.2, t, i, ty), st.3, st.4, st.5),
        }
    }
}

/// Leaves the current step, recording its interrupts.
pub open spec fn build_step_end<const N: usize>(st: BuildState<N>) -> BuildState<N> {
    if build_done(st) {
        st
    } else {
        (st.0.push(st.1), st.1, st.2, st.3, st.4, st.5)
    }
}

/// Processes interrupt `it` (at index `k`) in step `i`: if the command cannot go on without it
/// stopping, it surely ends here; otherwise it goes on in the world where it does not stop,
/// and the interrupt is recorded, as an outcome too if it can stop the command.
pub open spec fn build_interrupt<const N: usize>(st: BuildState<N>, it: MeasurementInterrupt, k: int, i: int) -> BuildState<N> {
    if build_done(st) || !step_matches_spec(it.at_step, i) {
        st
    } else {
        let ty = InterruptType { direction: it.direction, action: it.action };
        let cont = st.2.termination_variant(false, it.direction, it.action);
        let term = st.2.termination_variant(true, it.direction, it.action);
        let id = PathLocalOutcomeId {
            at_step: i as usize,
            from_interrupt: PathLocalInterruptId::InterruptAtIndex(k as usize),
        };
        match cont {
            None => match term {
                None => (st.0, st.1, st.2, st.3, st.4, true),
                Some(tw) => (
                    st.0.push(st.1),
                    st.1,
                    st.2,
                    id_insert(st.3, id),
                    Some(
                        CommandInterruptEnd {
                            terminating_interrupt: ty,
                            interrupt_index: k as usize,
                            terminating_world: tw,
                        },
                    ),
                    false,
                ),
            },
            Some(cw) => (
                st.0,
                st.1.push(
                    PotentialCommandInterruptTermination {
                        potentially_terminating_interrupt: ty,
                        interrupt_index: k as usize,
                        continuing_world: cw,
                        terminating_world: term,
                    },
                ),
                cw,
                if term is Some {
                    id_insert(st.3, id)
                } else {
                    st.3
                },
                st.4,
                st.5,
            ),
        }
    }
}

/// The state after the first `k` interrupts of step `i`.
pub open spec fn build_interrupts<const N: usize>(st: BuildState<N>, ints: Seq<MeasurementInterrupt>, i: int, k: int) -> BuildState<N>
    decreases k,
{
    if k <= 0 {
        st
    } else {
        build_interrupt(build_interrupts(st, ints, i, k - 1), ints[k - 1], k - 1, i)
    }
}

/// The state after the first `n` steps of a movement `ty` from `start`.
pub open spec fn build_steps<const N: usize>(
    st: BuildState<N>,
    start: MouseTransform,
    ty: MovementType,
    ints: Seq<MeasurementInterrupt>,
    n: int,
) -> BuildState<N>
    decreases n,
{
    if n <= 0 {
        st
    } else {
        let prev = build_steps(st, start, ty, ints, n - 1);
        build_step_end(
            build_interrupts(
                build_step_start(prev, movement_at_step_spec(start, ty, n - 1), n - 1, ty),
                ints,
                n - 1,
                ints.len() as int,
            ),
        )
    }
}

/// The full enumeration of `cmd` from `start` in the known map `filter`.
pub open spec fn build_spec<const N: usize>(filter: MazeMap<N>, start: MouseTransform, cmd: Command) -> BuildState<N> {
    let max = max_step_count_spec(cmd.ty) as int;
    let init: BuildState<N> = (
        Seq::empty(),
        Seq::empty(),
        PartialWorldData(WorldData { map: filter, mouse: start }),
        Seq::empty(),
        None,
        false,
    );
    let st = build_steps(init, start, cmd.ty, cmd.interrupts@, max + 1);
    if build_done(st) {
        st
    } else {
        (st.0, st.1, st.2, id_insert(st.3, PathLocalOutcomeId { at_step: max as usize, from_interrupt: PathLocalInterruptId::MaxStep }), st.4, st.5)
    }
}

/// The enumeration of `cmd` from `start` in `filter` can be done: no step leaves the quadrant
/// and every interrupt met is measured from a cell inside the map (the outer border on a
/// negative side counts as a wall there). Every step can also be computed without
/// overflowing.
pub open spec fn build_ok<const N: usize>(filter: MazeMap<N>, start: MouseTransform, cmd: Command) -> bool {
    &&& !build_spec(filter, start, cmd).5
    &&& forall|i: int| 0 <= i <= max_step_count_spec(cmd.ty) ==> #[trigger] movement_at_step_req(start, cmd.ty, i)
}

/// The world a command application starts from when given `with_filter`.
pub open spec fn start_world_spec<const N: usize>(with_filter: Option<WorldData<N>>) -> WorldData<N> {
    match with_filter {
        Some(w) => w,
        None => WorldData {
            map: MazeMap::<N>::fresh_spec(),
            mouse: MouseTransform { pos: Position { x: 0, y: 0 }, dir: Direction::PosX },
        },
    }
}

proof fn lemma_done_interrupts<const N: usize>(st: BuildState<N>, ints: Seq<MeasurementInterrupt>, i: int, j: int, n: int)
    requires
        0 <= j <= n,
        build_done(build_interrupts(st, ints, i, j)),
    ensures
        build_interrupts(st, ints, i, n) == build_interrupts(st, ints, i, j),
    decreases n - j,
{
    if n > j {
        lemma_done_interrupts(st, ints, i, j, n - 1);
    }
}

proof fn lemma_done_stays_interrupts<const N: usize>(st: BuildState<N>, ints: Seq<MeasurementInterrupt>, i: int, n: int)
    requires
        build_done(st),
    ensures
        build_interrupts(st, ints, i, n) == st,
    decreases n,
{
    if n > 0 {
        lemma_done_stays_interrupts(st, ints, i, n - 1);
    }
}

proof fn lemma_done_steps<const N: usize>(
    st: BuildState<N>,
    start: MouseTransform,
    ty: MovementType,
    ints: Seq<MeasurementInterrupt>,
    j: int,
    n: int,
)
    requires
        0 <= j <= n,
        build_done(build_steps(st, start, ty, ints, j)),
    ensures
        build_steps(st, start, ty, ints, n) == build_steps(st, start, ty, ints, j),
    decreases n - j,
{
    if n > j {
        lemma_done_steps(st, start, ty, ints, j, n - 1);
        let prev = build_steps(st, start, ty, ints, n - 1);
        lemma_done_stays_interrupts(prev, ints, n - 1, ints.len() as int);
    }
}

/// A world whose map refines that of another, with the same mouse, has an outcome of an
/// interrupt only where the other has it, in a map that again refines the other's; and where
/// the other has neither outcome, it has neither either.
proof fn lemma_termination_variant_upgrade<const N: usize>(
    a: PartialWorldData<N>,
    b: PartialWorldData<N>,
    dir: RelativeDirection,
    action: InterruptAction,
)
    requires
        a.0.map.upgrade_of(&b.0.map),
        a.0.mouse == b.0.mouse,
    ensures
        forall|trig: bool|
            #[trigger] a.termination_variant(trig, dir, action) is Some ==> {
                &&& b.termination_variant(trig, dir, action) is Some
                &&& a.termination_variant(trig, dir, action).unwrap().0.map.upgrade_of(
                    &b.termination_variant(trig, dir, action).unwrap().0.map,
                )
                &&& a.termination_variant(trig, dir, action).unwrap().0.mouse == a.0.mouse
                &&& b.termination_variant(trig, dir, action).unwrap().0.mouse == b.0.mouse
            },
        a.termination_variant(false, dir, action) is None && a.termination_variant(true, dir, action) is None
            ==> b.termination_variant(false, dir, action) is None && b.termination_variant(true, dir, action) is None,
{
    let pos = a.0.mouse.pos;
    let d = crate::transform::direction::transform_by_spec(dir, a.0.mouse.dir);
    MazeMap::lemma_upgrade_spec_wall(a.0.map, b.0.map, pos, d);
    assert forall|trig: bool| #[trigger] a.termination_variant(trig, dir, action) is Some implies {
        &&& b.termination_variant(trig, dir, action) is Some
        &&& a.termination_variant(trig, dir, action).unwrap().0.map.upgrade_of(
            &b.termination_variant(trig, dir, action).unwrap().0.map,
        )
        &&& a.termination_variant(trig, dir, action).unwrap().0.mouse == a.0.mouse
        &&& b.termination_variant(trig, dir, action).unwrap().0.mouse == b.0.mouse
    } by {
        if !(in_map(N as int, pos.x as int, pos.y as int) && is_negative_border(pos, d)) {
            let wa = a.0.map.spec_wall(pos, d).unwrap();
            let wb = b.0.map.spec_wall(pos, d).unwrap();
            let na = termination_wall(wa, trig, action).unwrap();
            assert(termination_wall(wb, trig, action) is Some);
            let nb = termination_wall(wb, trig, action).unwrap();
            assert(wall_upgrade_spec(na, nb));
            MazeMap::lemma_with_wall_keeps_upgrade(a.0.map, b.0.map, pos, d, na, nb);
        }
    }
    if a.termination_variant(false, dir, action) is None && a.termination_variant(true, dir, action) is None {
        if !(in_map(N as int, pos.x as int, pos.y as int) && is_negative_border(pos, d)) {
            assert(a.0.map.spec_wall(pos, d) is None);
        }
    }
}

/// An interrupt of `ints` recorded at step `j` of the movement `ty` from `start`: it is the
/// interrupt at its index, measuring at that step, and its worlds hold the mouse at the
/// transform of that step.
pub open spec fn recorded_fits<const N: usize>(
    p: PotentialCommandInterruptTermination<N>,
    ints: Seq<MeasurementInterrupt>,
    start: MouseTransform,
    ty: MovementType,
    j: int,
) -> bool {
    let k = p.interrupt_index as int;
    let t = movement_at_step_spec(start, ty, j).unwrap();
    &&& 0 <= k < ints.len()
    &&& p.potentially_terminating_interrupt == (InterruptType { direction: ints[k].direction, action: ints[k].action })
    &&& step_matches_spec(ints[k].at_step, j)
    &&& p.continuing_world.0.mouse == t
    &&& (p.terminating_world matches Some(w) ==> w.0.mouse == t)
}

/// Every interrupt recorded in `steps` fits the step it is recorded at.
pub open spec fn steps_fit<const N: usize>(
    steps: Seq<Seq<PotentialCommandInterruptTermination<N>>>,
    ints: Seq<MeasurementInterrupt>,
    start: MouseTransform,
    ty: MovementType,
) -> bool {
    forall|j: int, q: int|
        0 <= j < steps.len() && 0 <= q < steps[j].len() ==> #[trigger] recorded_fits(steps[j][q], ints, start, ty, j)
}

/// The interrupt that surely ends the command at step `j`: one of `ints` that can stop it,
/// measuring at that step, in a world with the mouse at the transform of that step.
pub open spec fn end_fits<const N: usize>(
    e: CommandInterruptEnd<N>,
    ints: Seq<MeasurementInterrupt>,
    start: MouseTransform,
    ty: MovementType,
    j: int,
) -> bool {
    let k = e.interrupt_index as int;
    &&& 0 <= k < ints.len()
    &&& ints[k].action != InterruptAction::Continue
    &&& step_matches_spec(ints[k].at_step, j)
    &&& e.terminating_world.0.mouse == movement_at_step_spec(start, ty, j).unwrap()
}

/// What holds of an enumeration state inside step `i`.
spec fn in_step_fits<const N: usize>(
    st: BuildState<N>,
    ints: Seq<MeasurementInterrupt>,
    start: MouseTransform,
    ty: MovementType,
    i: int,
) -> bool {
    !st.5 ==> {
        &&& steps_fit(st.0, ints, start, ty)
        &&& match st.4 {
            None => {
                &&& st.0.len() == i
                &&& forall|q: int| 0 <= q < st.1.len() ==> #[trigger] recorded_fits(st.1[q], ints, start, ty, i)
                &&& st.2.0.mouse == movement_at_step_spec(start, ty, i).unwrap()
            },
            Some(e) => 0 < st.0.len() <= i + 1 && end_fits(e, ints, start, ty, st.0.len() - 1),
        }
    }
}

/// What holds of an enumeration state after `n` steps.
spec fn after_steps_fits<const N: usize>(
    st: BuildState<N>,
    ints: Seq<MeasurementInterrupt>,
    start: MouseTransform,
    ty: MovementType,
    n: int,
) -> bool {
    !st.5 ==> {
        &&& steps_fit(st.0, ints, start, ty)
        &&& match st.4 {
            None => st.0.len() == n && (n > 0 ==> st.2.0.mouse == movement_at_step_spec(start, ty, n - 1).unwrap()),
            Some(e) => 0 < st.0.len() <= n && end_fits(e, ints, start, ty, st.0.len() - 1),
        }
    }
}

proof fn lemma_interrupt_fits<const N: usize>(
    st: BuildState<N>,
    ints: Seq<MeasurementInterrupt>,
    k: int,
    start: MouseTransform,
    ty: MovementType,
    i: int,
)
    requires
        0 <= k < ints.len(),
        ints.len() <= usize::MAX,
        0 <= i,
        in_step_fits(st, ints, start, ty, i),
    ensures
        in_step_fits(build_interrupt(st, ints[k], k, i), ints, start, ty, i),
{
    let it = ints[k];
    if !(build_done(st) || !step_matches_spec(it.at_step, i)) {
        let cont = st.2.termination_variant(false, it.direction, it.action);
        let term = st.2.termination_variant(true, it.direction, it.action);
        let ty2 = InterruptType { direction: it.direction, action: it.action };
        let r = build_interrupt(st, it, k, i);
        if term is Some {
            assert(it.action != InterruptAction::Continue);
        }
        if cont is None && term is Some {
            let s0 = st.0.push(st.1);
            assert forall|j: int, q: int| 0 <= j < s0.len() && 0 <= q < s0[j].len() implies #[trigger] recorded_fits(
                s0[j][q],
                ints,
                start,
                ty,
                j,
            ) by {
                if j < st.0.len() {
                    assert(s0[j] == st.0[j]);
                } else {
                    assert(s0[j] == st.1);
                }
            }
            assert(r.0 == s0);
        } else if cont is Some {
            let p = PotentialCommandInterruptTermination {
                potentially_terminating_interrupt: ty2,
                interrupt_index: k as usize,
                continuing_world: cont.unwrap(),
                terminating_world: term,
            };
            assert(recorded_fits(p, ints, start, ty, i));
            let s1 = st.1.push(p);
            assert forall|q: int| 0 <= q < s1.len() implies #[trigger] recorded_fits(s1[q], ints, start, ty, i) by {
                if q < st.1.len() {
                    assert(s1[q] == st.1[q]);
                }
            }
            assert(r.1 == s1);
        }
    }
}

proof fn lemma_interrupts_fit<const N: usize>(
    st: BuildState<N>,
    ints: Seq<MeasurementInterrupt>,
    start: MouseTransform,
    ty: MovementType,
    i: int,
    n: int,
)
    requires
        0 <= i,
        n <= ints.len(),
        ints.len() <= usize::MAX,
        in_step_fits(st, ints, start, ty, i),
    ensures
        in_step_fits(build_interrupts(st, ints, i, n), ints, start, ty, i),
    decreases n,
{
    if n > 0 {
        lemma_interrupts_fit(st, ints, start, ty, i, n - 1);
        lemma_interrupt_fits(build_interrupts(st, ints, i, n - 1), ints, n - 1, start, ty, i);
    }
}

proof fn lemma_steps_fit<const N: usize>(
    st: BuildState<N>,
    start: MouseTransform,
    ty: MovementType,
    ints: Seq<MeasurementInterrupt>,
    n: int,
)
    requires
        0 <= n,
        ints.len() <= usize::MAX,
        after_steps_fits(st, ints, start, ty, 0),
    ensures
        after_steps_fits(build_steps(st, start, ty, ints, n), ints, start, ty, n),
    decreases n,
{
    if n > 0 {
        lemma_steps_fit(st, start, ty, ints, n - 1);
        let prev = build_steps(st, start, ty, ints, n - 1);
        let s1 = build_step_start(prev, movement_at_step_spec(start, ty, n - 1), n - 1, ty);
        assert(in_step_fits(s1, ints, start, ty, n - 1));
        lemma_interrupts_fit(s1, ints, start, ty, n - 1, ints.len() as int);
        let s2 = build_interrupts(s1, ints, n - 1, ints.len() as int);
        let s3 = build_step_end(s2);
        if !s3.5 && !build_done(s2) {
            let s0 = s2.0.push(s2.1);
            assert forall|j: int, q: int| 0 <= j < s0.len() && 0 <= q < s0[j].len() implies #[trigger] recorded_fits(
                s0[j][q],
                ints,
                start,
                ty,
                j,
            ) by {
                if j < s2.0.len() {
                    assert(s0[j] == s2.0[j]);
                } else {
                    assert(s0[j] == s2.1);
                }
            }
            assert(s3.0 == s0);
        }
    }
}


/// The world holds the wall behind the mouse at step `i` of the movement `ty` from `start` as
/// driven through: for a move, from its first step on, wherever the map stores that wall.
pub open spec fn passage_marked<const N: usize>(w: PartialWorldData<N>, start: MouseTransform, ty: MovementType, i: int) -> bool {
    let t = movement_at_step_spec(start, ty, i).unwrap();
    let back = rotated_spec(t.dir, 2);
    (ty is Move && i >= 1 && w.0.map.spec_wall(t.pos, back) is Some) ==> w.0.map.spec_wall(t.pos, back) == Some(
        WallDiscoveryStatus::Visited,
    )
}

/// Both worlds of an interrupt recorded at step `j` hold the passage of that step.
pub open spec fn recorded_marked<const N: usize>(p: PotentialCommandInterruptTermination<N>, start: MouseTransform, ty: MovementType, j: int) -> bool {
    &&& passage_marked(p.continuing_world, start, ty, j)
    &&& (p.terminating_world matches Some(w) ==> passage_marked(w, start, ty, j))
}

/// Every interrupt recorded in `steps` holds the passage of its step.
pub open spec fn steps_marked<const N: usize>(steps: Seq<Seq<PotentialCommandInterruptTermination<N>>>, start: MouseTransform, ty: MovementType) -> bool {
    forall|j: int, q: int| 0 <= j < steps.len() && 0 <= q < steps[j].len() ==> #[trigger] recorded_marked(steps[j][q], start, ty, j)
}

spec fn in_step_marked<const N: usize>(st: BuildState<N>, start: MouseTransform, ty: MovementType, i: int) -> bool {
    !st.5 ==> {
        &&& steps_marked(st.0, start, ty)
        &&& match st.4 {
            None => {
                &&& passage_marked(st.2, start, ty, i)
                &&& forall|q: int| 0 <= q < st.1.len() ==> #[trigger] recorded_marked(st.1[q], start, ty, i)
            },
            Some(e) => passage_marked(e.terminating_world, start, ty, st.0.len() - 1),
        }
    }
}

spec fn after_steps_marked<const N: usize>(st: BuildState<N>, start: MouseTransform, ty: MovementType, n: int) -> bool {
    !st.5 ==> {
        &&& steps_marked(st.0, start, ty)
        &&& match st.4 {
            None => n > 0 ==> passage_marked(st.2, start, ty, n - 1),
            Some(e) => passage_marked(e.terminating_world, start, ty, st.0.len() - 1),
        }
    }
}

proof fn lemma_back_is_not_measured(d: Direction, rel: RelativeDirection)
    ensures
        crate::transform::direction::transform_by_spec(rel, d) != rotated_spec(d, 2),
{
}

proof fn lemma_variant_keeps_passage<const N: usize>(
    w: PartialWorldData<N>,
    trig: bool,
    dir: RelativeDirection,
    action: InterruptAction,
    start: MouseTransform,
    ty: MovementType,
    i: int,
)
    requires
        passage_marked(w, start, ty, i),
        w.0.mouse == movement_at_step_spec(start, ty, i).unwrap(),
    ensures
        w.termination_variant(trig, dir, action) matches Some(v) ==> passage_marked(v, start, ty, i),
{
    let pos = w.0.mouse.pos;
    let dd = crate::transform::direction::transform_by_spec(dir, w.0.mouse.dir);
    let back = rotated_spec(w.0.mouse.dir, 2);
    lemma_back_is_not_measured(w.0.mouse.dir, dir);
    if !(in_map(N as int, pos.x as int, pos.y as int) && is_negative_border(pos, dd)) {
        if let Some(wall) = w.0.map.spec_wall(pos, dd) {
            if let Some(nw) = termination_wall(wall, trig, action) {
                MazeMap::lemma_with_wall_keeps_other(w.0.map, pos, dd, back, nw);
            }
        }
    }
}

proof fn lemma_step_start_marks<const N: usize>(world: PartialWorldData<N>, start: MouseTransform, ty: MovementType, i: int)
    requires
        movement_at_step_spec(start, ty, i) is Some,
    ensures
        passage_marked(step_start_world(world, movement_at_step_spec(start, ty, i).unwrap(), i, ty), start, ty, i),
        step_start_world(world, movement_at_step_spec(start, ty, i).unwrap(), i, ty).0.mouse == movement_at_step_spec(start, ty, i).unwrap(),
{
    let t = movement_at_step_spec(start, ty, i).unwrap();
    let back = rotated_spec(t.dir, 2);
    let m0 = world.0.map;
    let m1 = if in_map(N as int, t.pos.x as int, t.pos.y as int) {
        m0.with_cell(t.pos, CellDiscoveryStatus::Visited)
    } else {
        m0
    };
    if in_map(N as int, t.pos.x as int, t.pos.y as int) {
        MazeMap::lemma_with_cell_keeps_walls(m0, t.pos, CellDiscoveryStatus::Visited, t.pos, back);
    }
    if i >= 1 && ty is Move && m1.spec_wall(t.pos, back) is Some {
        MazeMap::lemma_with_wall_reads(m1, t.pos, back, WallDiscoveryStatus::Visited);
    }
}

proof fn lemma_interrupt_marks<const N: usize>(
    st: BuildState<N>,
    ints: Seq<MeasurementInterrupt>,
    k: int,
    start: MouseTransform,
    ty: MovementType,
    i: int,
)
    requires
        0 <= k < ints.len(),
        ints.len() <= usize::MAX,
        0 <= i,
        in_step_fits(st, ints, start, ty, i),
        in_step_marked(st, start, ty, i),
    ensures
        in_step_marked(build_interrupt(st, ints[k], k, i), start, ty, i),
{
    let it = ints[k];
    if !(build_done(st) || !step_matches_spec(it.at_step, i)) {
        let cont = st.2.termination_variant(false, it.direction, it.action);
        let term = st.2.termination_variant(true, it.direction, it.action);
        lemma_variant_keeps_passage(st.2, false, it.direction, it.action, start, ty, i);
        lemma_variant_keeps_passage(st.2, true, it.direction, it.action, start, ty, i);
        let ty2 = InterruptType { direction: it.direction, action: it.action };
        let r = build_interrupt(st, it, k, i);
        if cont is None && term is Some {
            let s0 = st.0.push(st.1);
            assert forall|j: int, q: int| 0 <= j < s0.len() && 0 <= q < s0[j].len() implies #[trigger] recorded_marked(
                s0[j][q],
                start,
                ty,
                j,
            ) by {
                if j < st.0.len() {
                    assert(s0[j] == st.0[j]);
                } else {
                    assert(s0[j] == st.1);
                }
            }
            assert(r.0 == s0);
        } else if cont is Some {
            let p = PotentialCommandInterruptTermination {
                potentially_terminating_interrupt: ty2,
                interrupt_index: k as usize,
                continuing_world: cont.unwrap(),
                terminating_world: term,
            };
            assert(recorded_marked(p, start, ty, i));
            let s1 = st.1.push(p);
            assert forall|q: int| 0 <= q < s1.len() implies #[trigger] recorded_marked(s1[q], start, ty, i) by {
                if q < st.1.len() {
                    assert(s1[q] == st.1[q]);
                }
            }
            assert(r.1 == s1);
        }
    }
}

proof fn lemma_interrupts_mark<const N: usize>(
    st: BuildState<N>,
    ints: Seq<MeasurementInterrupt>,
    start: MouseTransform,
    ty: MovementType,
    i: int,
    n: int,
)
    requires
        0 <= i,
        n <= ints.len(),
        ints.len() <= usize::MAX,
        in_step_fits(st, ints, start, ty, i),
        in_step_marked(st, start, ty, i),
    ensures
        in_step_marked(build_interrupts(st, ints, i, n), start, ty, i),
    decreases n,
{
    if n > 0 {
        lemma_interrupts_mark(st, ints, start, ty, i, n - 1);
        lemma_interrupts_fit(st, ints, start, ty, i, n - 1);
        lemma_interrupt_marks(build_interrupts(st, ints, i, n - 1), ints, n - 1, start, ty, i);
    }
}

proof fn lemma_steps_mark<const N: usize>(
    st: BuildState<N>,
    start: MouseTransform,
    ty: MovementType,
    ints: Seq<MeasurementInterrupt>,
    n: int,
)
    requires
        0 <= n,
        ints.len() <= usize::MAX,
        after_steps_fits(st, ints, start, ty, 0),
        after_steps_marked(st, start, ty, 0),
    ensures
        after_steps_marked(build_steps(st, start, ty, ints, n), start, ty, n),
    decreases n,
{
    if n > 0 {
        lemma_steps_mark(st, start, ty, ints, n - 1);
        lemma_steps_fit(st, start, ty, ints, n - 1);
        let prev = build_steps(st, start, ty, ints, n - 1);
        let s1 = build_step_start(prev, movement_at_step_spec(start, ty, n - 1), n - 1, ty);
        assert(in_step_fits(s1, ints, start, ty, n - 1));
        if !build_done(prev) && movement_at_step_spec(start, ty, n - 1) is Some {
            lemma_step_start_marks(prev.2, start, ty, n - 1);
        }
        assert(in_step_marked(s1, start, ty, n - 1));
        lemma_interrupts_mark(s1, ints, start, ty, n - 1, ints.len() as int);
        lemma_interrupts_fit(s1, ints, start, ty, n - 1, ints.len() as int);
        let s2 = build_interrupts(s1, ints, n - 1, ints.len() as int);
        let s3 = build_step_end(s2);
        if !s3.5 && !build_done(s2) {
            let s0 = s2.0.push(s2.1);
            assert forall|j: int, q: int| 0 <= j < s0.len() && 0 <= q < s0[j].len() implies #[trigger] recorded_marked(
                s0[j][q],
                start,
                ty,
                j,
            ) by {
                if j < s2.0.len() {
                    assert(s0[j] == s2.0[j]);
                } else {
                    assert(s0[j] == s2.1);
                }
            }
            assert(s3.0 == s0);
        }
    }
}

/// The relation between the enumeration states of a command in a map and in a map it refines,
/// kept by every step of the enumeration: where the first cannot be done, neither can the
/// second; while the first goes on, so does the second, in the same place, and the map of the
/// first refines that of the second.
pub open spec fn build_refines<const N: usize>(a: BuildState<N>, b: BuildState<N>) -> bool {
    &&& (a.5 ==> b.5)
    &&& (!build_done(a) ==> {
        &&& !build_done(b)
        &&& a.2.0.mouse == b.2.0.mouse
        &&& a.2.0.map.upgrade_of(&b.2.0.map)
    })
}

proof fn lemma_refines_step_start<const N: usize>(a: BuildState<N>, b: BuildState<N>, t: Option<MouseTransform>, i: int, ty: MovementType)
    requires
        build_refines(a, b),
    ensures
        build_refines(build_step_start(a, t, i, ty), build_step_start(b, t, i, ty)),
{
    if !build_done(a) {
        if let Some(t) = t {
            let ma = a.2.0.map;
            let mb = b.2.0.map;
            let ma1 = if in_map(N as int, t.pos.x as int, t.pos.y as int) {
                ma.with_cell(t.pos, CellDiscoveryStatus::Visited)
            } else {
                ma
            };
            let mb1 = if in_map(N as int, t.pos.x as int, t.pos.y as int) {
                mb.with_cell(t.pos, CellDiscoveryStatus::Visited)
            } else {
                mb
            };
            if in_map(N as int, t.pos.x as int, t.pos.y as int) {
                MazeMap::lemma_with_cell_keeps_upgrade(ma, mb, t.pos, CellDiscoveryStatus::Visited);
            }
            let back = rotated_spec(t.dir, 2);
            MazeMap::lemma_upgrade_spec_wall(ma1, mb1, t.pos, back);
            if i >= 1 && ty is Move && mb1.spec_wall(t.pos, back) is Some {
                MazeMap::lemma_with_wall_keeps_upgrade(
                    ma1,
                    mb1,
                    t.pos,
                    back,
                    WallDiscoveryStatus::Visited,
                    WallDiscoveryStatus::Visited,
                );
            }
        }
    }
}

proof fn lemma_refines_interrupt<const N: usize>(a: BuildState<N>, b: BuildState<N>, it: MeasurementInterrupt, k: int, i: int)
    requires
        build_refines(a, b),
    ensures
        build_refines(build_interrupt(a, it, k, i), build_interrupt(b, it, k, i)),
{
    if !build_done(a) && step_matches_spec(it.at_step, i) {
        lemma_termination_variant_upgrade(a.2, b.2, it.direction, it.action);
        assert(a.2.termination_variant(false, it.direction, it.action) is Some ==> b.2.termination_variant(
            false,
            it.direction,
            it.action,
        ) is Some);
    }
}

proof fn lemma_refines_interrupts<const N: usize>(
    a: BuildState<N>,
    b: BuildState<N>,
    ints: Seq<MeasurementInterrupt>,
    i: int,
    k: int,
)
    requires
        build_refines(a, b),
    ensures
        build_refines(build_interrupts(a, ints, i, k), build_interrupts(b, ints, i, k)),
    decreases k,
{
    if k > 0 {
        lemma_refines_interrupts(a, b, ints, i, k - 1);
        lemma_refines_interrupt(
            build_interrupts(a, ints, i, k - 1),
            build_interrupts(b, ints, i, k - 1),
            ints[k - 1],
            k - 1,
            i,
        );
    }
}

proof fn lemma_refines_steps<const N: usize>(
    a: BuildState<N>,
    b: BuildState<N>,
    start: MouseTransform,
    ty: MovementType,
    ints: Seq<MeasurementInterrupt>,
    n: int,
)
    requires
        build_refines(a, b),
    ensures
        build_refines(build_steps(a, start, ty, ints, n), build_steps(b, start, ty, ints, n)),
    decreases n,
{
    if n > 0 {
        lemma_refines_steps(a, b, start, ty, ints, n - 1);
        let pa = build_steps(a, start, ty, ints, n - 1);
        let pb = build_steps(b, start, ty, ints, n - 1);
        let t = movement_at_step_spec(start, ty, n - 1);
        lemma_refines_step_start(pa, pb, t, n - 1, ty);
        let sa = build_step_start(pa, t, n - 1, ty);
        let sb = build_step_start(pb, t, n - 1, ty);
        lemma_refines_interrupts(sa, sb, ints, n - 1, ints.len() as int);
    }
}

/// Whether every step of movement `ty` from `start` can be computed (see
/// `movement_at_step_req`).
fn steps_computable(start: MouseTransform, ty: MovementType) -> (r: bool)
    ensures
        r == forall|j: int| 0 <= j <= max_step_count_spec(ty) ==> #[trigger] movement_at_step_req(start, ty, j),
{
    match ty {
        MovementType::Turn(i) => {
            let idx = start.dir.rotation_index() as i32;
            let max: i32 = if i < 0 { -(i as i32) } else { i as i32 };
            let end: i32 = if i > 0 { idx + max } else if i < 0 { idx - max } else { idx };
            let ok = max < 128 && -127 <= end && end <= 127;
            proof {
                let m = max_step_count_spec(ty) as int;
                assert(m == max);
                if ok {
                    assert forall|j: int| 0 <= j <= m implies #[trigger] movement_at_step_req(start, ty, j) by {
                        assert(crate::transform::position::signum(i as int) * j == if i > 0 { j } else if i < 0 { -j } else { 0 });
                    }
                } else {
                    assert(crate::transform::position::signum(i as int) * m == end - idx);
                    assert(!movement_at_step_req(start, ty, m));
                }
            }
            ok
        },
        MovementType::Move(k) => {
            let ok = start.pos.x as u64 + k as u64 <= i32::MAX as u64 && start.pos.y as u64 + k as u64 <= i32::MAX as u64;
            proof {
                if !ok {
                    assert(!movement_at_step_req(start, ty, k as int));
                }
            }
            ok
        },
    }
}

/// Every step of the movement `ty` from `start` at which an interrupt of `ints` measures lies
/// inside the map.
pub open spec fn measured_steps_in_map<const N: usize>(start: MouseTransform, ty: MovementType, ints: Seq<MeasurementInterrupt>) -> bool {
    forall|j: int, k: int|
        0 <= j <= max_step_count_spec(ty) && 0 <= k < ints.len() && #[trigger] step_matches_spec(ints[k].at_step, j)
            ==> in_map(
            N as int,
            movement_at_step_spec(start, ty, j).unwrap().pos.x as int,
            movement_at_step_spec(start, ty, j).unwrap().pos.y as int,
        )
}

proof fn lemma_interrupts_no_fail<const N: usize>(
    st: BuildState<N>,
    ints: Seq<MeasurementInterrupt>,
    start: MouseTransform,
    ty: MovementType,
    i: int,
    n: int,
)
    requires
        0 <= i <= max_step_count_spec(ty),
        n <= ints.len(),
        ints.len() <= usize::MAX,
        !st.5,
        in_step_fits(st, ints, start, ty, i),
        measured_steps_in_map::<N>(start, ty, ints),
    ensures
        !build_interrupts(st, ints, i, n).5,
    decreases n,
{
    if n > 0 {
        lemma_interrupts_no_fail(st, ints, start, ty, i, n - 1);
        lemma_interrupts_fit(st, ints, start, ty, i, n - 1);
        let prev = build_interrupts(st, ints, i, n - 1);
        let it = ints[n - 1];
        if !build_done(prev) && step_matches_spec(it.at_step, i) {
            let pos = prev.2.0.mouse.pos;
            assert(in_map(N as int, pos.x as int, pos.y as int));
            let d = crate::transform::direction::transform_by_spec(it.direction, prev.2.0.mouse.dir);
            if !is_negative_border(pos, d) {
                assert(prev.2.0.map.spec_wall(pos, d) is Some);
            }
            assert(prev.2.termination_variant(false, it.direction, it.action) is Some
                || prev.2.termination_variant(true, it.direction, it.action) is Some);
        }
    }
}

proof fn lemma_steps_no_fail<const N: usize>(
    st: BuildState<N>,
    start: MouseTransform,
    ty: MovementType,
    ints: Seq<MeasurementInterrupt>,
    n: int,
)
    requires
        0 <= n <= max_step_count_spec(ty) + 1,
        ints.len() <= usize::MAX,
        !st.5,
        after_steps_fits(st, ints, start, ty, 0),
        forall|j: int| 0 <= j <= max_step_count_spec(ty) ==> #[trigger] movement_at_step_spec(start, ty, j) is Some,
        measured_steps_in_map::<N>(start, ty, ints),
    ensures
        !build_steps(st, start, ty, ints, n).5,
    decreases n,
{
    if n > 0 {
        lemma_steps_no_fail(st, start, ty, ints, n - 1);
        lemma_steps_fit(st, start, ty, ints, n - 1);
        let prev = build_steps(st, start, ty, ints, n - 1);
        assert(movement_at_step_spec(start, ty, n - 1) is Some);
        let s1 = build_step_start(prev, movement_at_step_spec(start, ty, n - 1), n - 1, ty);
        assert(in_step_fits(s1, ints, start, ty, n - 1));
        lemma_interrupts_no_fail(s1, ints, start, ty, n - 1, ints.len() as int);
    }
}

/// A command can be enumerated wherever every step of its movement can be computed and stays
/// in the non-negative quadrant, and every step at which one of its interrupts measures lies
/// inside the map.
pub proof fn lemma_build_ok_in_map<const N: usize>(filter: MazeMap<N>, start: MouseTransform, cmd: Command)
    requires
        forall|j: int|
            0 <= j <= max_step_count_spec(cmd.ty) ==> #[trigger] movement_at_step_req(start, cmd.ty, j)
                && movement_at_step_spec(start, cmd.ty, j) is Some,
        measured_steps_in_map::<N>(start, cmd.ty, cmd.interrupts@),
    ensures
        build_ok(filter, start, cmd),
{
    let max = max_step_count_spec(cmd.ty) as int;
    let init: BuildState<N> = (
        Seq::empty(),
        Seq::empty(),
        PartialWorldData(WorldData { map: filter, mouse: start }),
        Seq::empty(),
        None,
        false,
    );
    assert(cmd.interrupts@.len() == cmd.interrupts.len());
    assert forall|j: int| 0 <= j <= max implies #[trigger] movement_at_step_spec(start, cmd.ty, j) is Some by {
        assert(movement_at_step_req(start, cmd.ty, j));
    }
    lemma_steps_no_fail(init, start, cmd.ty, cmd.interrupts@, max + 1);
}

/// A command that can be enumerated in a map can be enumerated in every map refining it.
pub proof fn lemma_build_ok_upgrade<const N: usize>(filter: MazeMap<N>, better: MazeMap<N>, start: MouseTransform, cmd: Command)
    requires
        build_ok(filter, start, cmd),
        better.upgrade_of(&filter),
    ensures
        build_ok(better, start, cmd),
{
    let max = max_step_count_spec(cmd.ty) as int;
    let init_a: BuildState<N> = (
        Seq::empty(),
        Seq::empty(),
        PartialWorldData(WorldData { map: better, mouse: start }),
        Seq::empty(),
        None,
        false,
    );
    let init_b: BuildState<N> = (
        Seq::empty(),
        Seq::empty(),
        PartialWorldData(WorldData { map: filter, mouse: start }),
        Seq::empty(),
        None,
        false,
    );
    lemma_refines_steps(init_a, init_b, start, cmd.ty, cmd.interrupts@, max + 1);
}

/// The last sub-state of a step: the world at its last interrupt, and whether the command
/// goes on after it.
pub struct MaxSubstep<const N: usize> {
    pub potential_termination: MaxSubstepTermination,
    /// At the step's transform, with the map of its last continuing world.
    pub world_at_substep: PartialWorldData<N>,
}

/// Whether the command goes on after the last sub-state of a step.
#[derive(Clone, Copy, Debug, PartialEq, Eq, Structural)]
pub enum MaxSubstepTermination {
    Continuing,
    Terminated(PathLocalInterruptId),
}

/// The step lies beyond the one at which the command surely ends.
#[derive(Debug, Clone, Copy, PartialEq, Eq, Structural)]
pub struct CannotReachStep(pub StepNum);

/// The command could end before reaching the step.
#[derive(Debug, Clone, Copy, PartialEq, Eq, Structural)]
pub struct UncertainStepError {
    pub tried_to_reach_step: StepNum,
    pub but_could_terminate_at: StepNum,
}

/// Why the start of a step is not certain.
#[derive(Debug, Clone, Copy, PartialEq, Eq, Structural)]
pub enum CertainStepError {
    CannotReachStep(CannotReachStep),
    Uncertainty(UncertainStepError),
}

impl From<CannotReachStep> for CertainStepError {
    fn from(value: CannotReachStep) -> (r: Self) {
        Self::CannotReachStep(value)
    }
}

impl vstd::std_specs::convert::FromSpecImpl<CannotReachStep> for CertainStepError {
    open spec fn obeys_from_spec() -> bool {
        true
    }

    open spec fn from_spec(v: CannotReachStep) -> Self {
        CertainStepError::CannotReachStep(v)
    }
}

impl From<UncertainStepError> for CertainStepError {
    fn from(value: UncertainStepError) -> (r: Self) {
        Self::Uncertainty(value)
    }
}

impl vstd::std_specs::convert::FromSpecImpl<UncertainStepError> for CertainStepError {
    open spec fn obeys_from_spec() -> bool {
        true
    }

    open spec fn from_spec(v: UncertainStepError) -> Self {
        CertainStepError::Uncertainty(v)
    }
}

/// The new filter is no upgrade of the current one.
#[derive(Debug, Clone, Copy, PartialEq, Eq, Structural)]
pub struct FilterUpgradeError;

/// Why a measurement could not be applied to a filter.
#[derive(Debug, Clone)]
pub enum FilterMeasurementUpgradeError {
    NotValidUpgrade(FilterUpgradeError),
    NotValidMeasurement(MapInconsistencyError),
}

/// What applying a measurement to a filter changed: the discoveries it made and the outcomes
/// it ruled out, each `None` if there are none.
#[derive(Debug)]
pub struct FilterUpdate {
    pub discoveries: Option<DiscoveryMessage>,
    pub rejections: Option<RejectedOutcomes>,
}

/// A command waiting to be applied in a world.
pub struct LazyFilteredCommandApplication<const N: usize> {
    pub command: Command,
    pub in_world: WorldData<N>,
}

/// Walks through the steps of an application.
pub struct CommandApplicationIterator<const N: usize> {
    next_step: usize,
    application: FilteredCommandApplication<N>,
}

/// `s` with `d` added unless it is there already.
pub open spec fn dir_insert(s: Seq<RelativeDirection>, d: RelativeDirection) -> Seq<RelativeDirection> {
    if s.contains(d) {
        s
    } else {
        s.push(d)
    }
}

/// The directions measured at `step` by the first `n` interrupts, each once.
pub open spec fn step_directions(ints: Seq<MeasurementInterrupt>, step: int, n: int) -> Seq<RelativeDirection>
    decreases n,
{
    if n <= 0 {
        Seq::empty()
    } else {
        let prev = step_directions(ints, step, n - 1);
        if step_matches_spec(ints[n - 1].at_step, step) {
            dir_insert(prev, ints[n - 1].direction)
        } else {
            prev
        }
    }
}

/// The interrupts among the first `n` that measure at `step`: index and direction, in order.
pub open spec fn ordered_step_directions(ints: Seq<MeasurementInterrupt>, step: int, n: int) -> Seq<(usize, RelativeDirection)>
    decreases n,
{
    if n <= 0 {
        Seq::empty()
    } else {
        let prev = ordered_step_directions(ints, step, n - 1);
        if step_matches_spec(ints[n - 1].at_step, step) {
            prev.push(((n - 1) as usize, ints[n - 1].direction))
        } else {
            prev
        }
    }
}

/// The interrupt can stop the command in the world the enumeration found for it.
pub open spec fn is_outcome<const N: usize>(p: PotentialCommandInterruptTermination<N>) -> bool {
    p.potentially_terminating_interrupt.action != InterruptAction::Continue && p.terminating_world is Some
}

/// `acc` with the outcome ids of the first `n` interrupts of step `j` added.
pub open spec fn step_outcome_ids<const N: usize>(
    acc: Seq<PathLocalOutcomeId>,
    j: int,
    pcits: Seq<PotentialCommandInterruptTermination<N>>,
    n: int,
) -> Seq<PathLocalOutcomeId>
    decreases n,
{
    if n <= 0 {
        acc
    } else {
        let prev = step_outcome_ids(acc, j, pcits, n - 1);
        if is_outcome(pcits[n - 1]) {
            id_insert(
                prev,
                PathLocalOutcomeId {
                    at_step: j as usize,
                    from_interrupt: PathLocalInterruptId::InterruptAtIndex(pcits[n - 1].interrupt_index),
                },
            )
        } else {
            prev
        }
    }
}

/// The outcome ids of the interrupts of the first `m` steps.
pub open spec fn steps_outcome_ids<const N: usize>(steps: Seq<Seq<PotentialCommandInterruptTermination<N>>>, m: int) -> Seq<PathLocalOutcomeId>
    decreases m,
{
    if m <= 0 {
        Seq::empty()
    } else {
        step_outcome_ids(steps_outcome_ids(steps, m - 1), m - 1, steps[m - 1], steps[m - 1].len() as int)
    }
}

proof fn lemma_id_insert_unique(s: Seq<PathLocalOutcomeId>, id: PathLocalOutcomeId)
    requires
        s.no_duplicates(),
    ensures
        id_insert(s, id).no_duplicates(),
{
}

proof fn lemma_step_outcome_ids_unique<const N: usize>(
    acc: Seq<PathLocalOutcomeId>,
    j: int,
    pcits: Seq<PotentialCommandInterruptTermination<N>>,
    n: int,
)
    requires
        acc.no_duplicates(),
    ensures
        step_outcome_ids(acc, j, pcits, n).no_duplicates(),
    decreases n,
{
    if n > 0 {
        lemma_step_outcome_ids_unique(acc, j, pcits, n - 1);
        let prev = step_outcome_ids(acc, j, pcits, n - 1);
        lemma_id_insert_unique(
            prev,
            PathLocalOutcomeId {
                at_step: j as usize,
                from_interrupt: PathLocalInterruptId::InterruptAtIndex(pcits[n - 1].interrupt_index),
            },
        );
    }
}

proof fn lemma_steps_outcome_ids_unique<const N: usize>(steps: Seq<Seq<PotentialCommandInterruptTermination<N>>>, m: int)
    ensures
        steps_outcome_ids(steps, m).no_duplicates(),
    decreases m,
{
    if m > 0 {
        lemma_steps_outcome_ids_unique(steps, m - 1);
        lemma_step_outcome_ids_unique(steps_outcome_ids(steps, m - 1), m - 1, steps[m - 1], steps[m - 1].len() as int);
    }
}

/// An outcome id of a command with interrupts `ints` whose last step is `last` and whose
/// movement has `max` steps: at most at the last step; the regular end only at the last step,
/// and only if that is the end of the movement; an interrupt only if it is one of `ints` that
/// can stop the command and measures at that step.
pub open spec fn outcome_id_fits(id: PathLocalOutcomeId, ints: Seq<MeasurementInterrupt>, last: int, max: int) -> bool {
    &&& id.at_step <= last
    &&& match id.from_interrupt {
        PathLocalInterruptId::MaxStep => id.at_step == last && id.at_step == max,
        PathLocalInterruptId::InterruptAtIndex(i) => {
            &&& i < ints.len()
            &&& ints[i as int].action != InterruptAction::Continue
            &&& step_matches_spec(ints[i as int].at_step, id.at_step as int)
        },
    }
}

/// An outcome whose world holds the mouse at the transform after its step.
pub open spec fn outcome_at_its_step<const N: usize>(
    o: (PathLocalOutcomeId, PartialWorldData<N>),
    start: MouseTransform,
    ty: MovementType,
) -> bool {
    o.1.0.mouse == movement_at_step_spec(start, ty, o.0.at_step as int).unwrap()
}

proof fn lemma_step_ids_fit<const N: usize>(
    acc: Seq<PathLocalOutcomeId>,
    j: int,
    pcits: Seq<PotentialCommandInterruptTermination<N>>,
    n: int,
    ints: Seq<MeasurementInterrupt>,
    start: MouseTransform,
    ty: MovementType,
    last: int,
    max: int,
)
    requires
        0 <= j <= last <= max <= 255,
        n <= pcits.len(),
        forall|k: int| 0 <= k < acc.len() ==> #[trigger] outcome_id_fits(acc[k], ints, last, max),
        forall|q: int| 0 <= q < pcits.len() ==> #[trigger] recorded_fits(pcits[q], ints, start, ty, j),
    ensures
        forall|k: int|
            0 <= k < step_outcome_ids(acc, j, pcits, n).len() ==> #[trigger] outcome_id_fits(
                step_outcome_ids(acc, j, pcits, n)[k],
                ints,
                last,
                max,
            ),
    decreases n,
{
    if n > 0 {
        lemma_step_ids_fit(acc, j, pcits, n - 1, ints, start, ty, last, max);
        let prev = step_outcome_ids(acc, j, pcits, n - 1);
        let p = pcits[n - 1];
        assert(recorded_fits(p, ints, start, ty, j));
        if is_outcome(p) {
            let id = PathLocalOutcomeId {
                at_step: j as usize,
                from_interrupt: PathLocalInterruptId::InterruptAtIndex(p.interrupt_index),
            };
            assert(outcome_id_fits(id, ints, last, max));
            let r = id_insert(prev, id);
            assert forall|k: int| 0 <= k < r.len() implies #[trigger] outcome_id_fits(r[k], ints, last, max) by {
                if k < prev.len() {
                    assert(r[k] == prev[k]);
                }
            }
        }
    }
}

proof fn lemma_steps_ids_fit<const N: usize>(
    steps: Seq<Seq<PotentialCommandInterruptTermination<N>>>,
    m: int,
    ints: Seq<MeasurementInterrupt>,
    start: MouseTransform,
    ty: MovementType,
    last: int,
    max: int,
)
    requires
        m <= steps.len(),
        m - 1 <= last <= max <= 255,
        steps_fit(steps, ints, start, ty),
    ensures
        forall|k: int|
            0 <= k < steps_outcome_ids(steps, m).len() ==> #[trigger] outcome_id_fits(
                steps_outcome_ids(steps, m)[k],
                ints,
                last,
                max,
            ),
    decreases m,
{
    if m > 0 {
        lemma_steps_ids_fit(steps, m - 1, ints, start, ty, last, max);
        assert forall|q: int| 0 <= q < steps[m - 1].len() implies #[trigger] recorded_fits(steps[m - 1][q], ints, start, ty, m - 1) by {
            assert(recorded_fits(steps[m - 1][q], ints, start, ty, m - 1));
        }
        lemma_step_ids_fit(steps_outcome_ids(steps, m - 1), m - 1, steps[m - 1], steps[m - 1].len() as int, ints, start, ty, last, max);
    }
}

proof fn lemma_outcome_insert_at_step<const N: usize>(
    s: Seq<(PathLocalOutcomeId, PartialWorldData<N>)>,
    id: PathLocalOutcomeId,
    w: PartialWorldData<N>,
    start: MouseTransform,
    ty: MovementType,
)
    requires
        forall|k: int| 0 <= k < s.len() ==> #[trigger] outcome_at_its_step(s[k], start, ty),
        outcome_at_its_step((id, w), start, ty),
    ensures
        forall|k: int|
            0 <= k < outcome_insert(s, id, w).len() ==> #[trigger] outcome_at_its_step(outcome_insert(s, id, w)[k], start, ty),
{
    let r = outcome_insert(s, id, w);
    assert forall|k: int| 0 <= k < r.len() implies #[trigger] outcome_at_its_step(r[k], start, ty) by {
        if k < s.len() {
            assert(outcome_at_its_step(s[k], start, ty));
        }
    }
}

proof fn lemma_step_outcomes_at_step<const N: usize>(
    acc: Seq<(PathLocalOutcomeId, PartialWorldData<N>)>,
    j: int,
    pcits: Seq<PotentialCommandInterruptTermination<N>>,
    n: int,
    ints: Seq<MeasurementInterrupt>,
    start: MouseTransform,
    ty: MovementType,
)
    requires
        0 <= j <= 255,
        n <= pcits.len(),
        forall|k: int| 0 <= k < acc.len() ==> #[trigger] outcome_at_its_step(acc[k], start, ty),
        forall|q: int| 0 <= q < pcits.len() ==> #[trigger] recorded_fits(pcits[q], ints, start, ty, j),
    ensures
        forall|k: int|
            0 <= k < step_outcomes(acc, j, pcits, n).len() ==> #[trigger] outcome_at_its_step(
                step_outcomes(acc, j, pcits, n)[k],
                start,
                ty,
            ),
    decreases n,
{
    if n > 0 {
        lemma_step_outcomes_at_step(acc, j, pcits, n - 1, ints, start, ty);
        let p = pcits[n - 1];
        assert(recorded_fits(p, ints, start, ty, j));
        if is_outcome(p) {
            let id = PathLocalOutcomeId {
                at_step: j as usize,
                from_interrupt: PathLocalInterruptId::InterruptAtIndex(p.interrupt_index),
            };
            let prev = step_outcomes(acc, j, pcits, n - 1);
            let w = p.terminating_world.unwrap();
            assert(outcome_at_its_step((id, w), start, ty));
            lemma_outcome_insert_at_step(prev, id, w, start, ty);
            assert(step_outcomes(acc, j, pcits, n) == outcome_insert(prev, id, w));
        } else {
            assert(step_outcomes(acc, j, pcits, n) == step_outcomes(acc, j, pcits, n - 1));
        }
    }
}

proof fn lemma_steps_outcomes_at_step<const N: usize>(
    steps: Seq<Seq<PotentialCommandInterruptTermination<N>>>,
    m: int,
    ints: Seq<MeasurementInterrupt>,
    start: MouseTransform,
    ty: MovementType,
)
    requires
        m <= steps.len(),
        m <= 256,
        steps_fit(steps, ints, start, ty),
    ensures
        forall|k: int|
            0 <= k < steps_outcomes(steps, m).len() ==> #[trigger] outcome_at_its_step(steps_outcomes(steps, m)[k], start, ty),
    decreases m,
{
    if m > 0 {
        lemma_steps_outcomes_at_step(steps, m - 1, ints, start, ty);
        assert forall|q: int| 0 <= q < steps[m - 1].len() implies #[trigger] recorded_fits(steps[m - 1][q], ints, start, ty, m - 1) by {
            assert(recorded_fits(steps[m - 1][q], ints, start, ty, m - 1));
        }
        lemma_step_outcomes_at_step(steps_outcomes(steps, m - 1), m - 1, steps[m - 1], steps[m - 1].len() as int, ints, start, ty);
    }
}

/// The world of outcome `o` holds the passage of the step it lies at.
pub open spec fn outcome_marked<const N: usize>(o: (PathLocalOutcomeId, PartialWorldData<N>), start: MouseTransform, ty: MovementType) -> bool {
    passage_marked(o.1, start, ty, o.0.at_step as int)
}

proof fn lemma_outcome_insert_marked<const N: usize>(
    s: Seq<(PathLocalOutcomeId, PartialWorldData<N>)>,
    id: PathLocalOutcomeId,
    w: PartialWorldData<N>,
    start: MouseTransform,
    ty: MovementType,
)
    requires
        forall|k: int| 0 <= k < s.len() ==> #[trigger] outcome_marked(s[k], start, ty),
        outcome_marked((id, w), start, ty),
    ensures
        forall|k: int| 0 <= k < outcome_insert(s, id, w).len() ==> #[trigger] outcome_marked(outcome_insert(s, id, w)[k], start, ty),
{
    let r = outcome_insert(s, id, w);
    assert forall|k: int| 0 <= k < r.len() implies #[trigger] outcome_marked(r[k], start, ty) by {
        if k < s.len() {
            assert(outcome_marked(s[k], start, ty));
        }
    }
}

proof fn lemma_step_outcomes_marked<const N: usize>(
    acc: Seq<(PathLocalOutcomeId, PartialWorldData<N>)>,
    j: int,
    pcits: Seq<PotentialCommandInterruptTermination<N>>,
    n: int,
    start: MouseTransform,
    ty: MovementType,
)
    requires
        0 <= j <= 255,
        n <= pcits.len(),
        forall|k: int| 0 <= k < acc.len() ==> #[trigger] outcome_marked(acc[k], start, ty),
        forall|q: int| 0 <= q < pcits.len() ==> #[trigger] recorded_marked(pcits[q], start, ty, j),
    ensures
        forall|k: int|
            0 <= k < step_outcomes(acc, j, pcits, n).len() ==> #[trigger] outcome_marked(step_outcomes(acc, j, pcits, n)[k], start, ty),
    decreases n,
{
    if n > 0 {
        lemma_step_outcomes_marked(acc, j, pcits, n - 1, start, ty);
        let p = pcits[n - 1];
        assert(recorded_marked(p, start, ty, j));
        if is_outcome(p) {
            let id = PathLocalOutcomeId {
                at_step: j as usize,
                from_interrupt: PathLocalInterruptId::InterruptAtIndex(p.interrupt_index),
            };
            let prev = step_outcomes(acc, j, pcits, n - 1);
            let w = p.terminating_world.unwrap();
            assert(outcome_marked((id, w), start, ty));
            lemma_outcome_insert_marked(prev, id, w, start, ty);
            assert(step_outcomes(acc, j, pcits, n) == outcome_insert(prev, id, w));
        } else {
            assert(step_outcomes(acc, j, pcits, n) == step_outcomes(acc, j, pcits, n - 1));
        }
    }
}

proof fn lemma_steps_outcomes_marked<const N: usize>(
    steps: Seq<Seq<PotentialCommandInterruptTermination<N>>>,
    m: int,
    start: MouseTransform,
    ty: MovementType,
)
    requires
        m <= steps.len(),
        m <= 256,
        steps_marked(steps, start, ty),
    ensures
        forall|k: int| 0 <= k < steps_outcomes(steps, m).len() ==> #[trigger] outcome_marked(steps_outcomes(steps, m)[k], start, ty),
    decreases m,
{
    if m > 0 {
        lemma_steps_outcomes_marked(steps, m - 1, start, ty);
        assert forall|q: int| 0 <= q < steps[m - 1].len() implies #[trigger] recorded_marked(steps[m - 1][q], start, ty, m - 1) by {
            assert(recorded_marked(steps[m - 1][q], start, ty, m - 1));
        }
        lemma_step_outcomes_marked(steps_outcomes(steps, m - 1), m - 1, steps[m - 1], steps[m - 1].len() as int, start, ty);
    }
}

/// No two entries of `s` have the same id.
pub open spec fn keys_unique<const N: usize>(s: Seq<(PathLocalOutcomeId, PartialWorldData<N>)>) -> bool {
    forall|i: int, j: int| 0 <= i < j < s.len() ==> s[i].0 != s[j].0
}

/// `s` with the world of `id` set to `w`: replaced if `id` has an entry, appended otherwise.
pub open spec fn outcome_insert<const N: usize>(
    s: Seq<(PathLocalOutcomeId, PartialWorldData<N>)>,
    id: PathLocalOutcomeId,
    w: PartialWorldData<N>,
) -> Seq<(PathLocalOutcomeId, PartialWorldData<N>)> {
    if exists|i: int| 0 <= i < s.len() && s[i].0 == id {
        s.update(choose|i: int| 0 <= i < s.len() && s[i].0 == id, (id, w))
    } else {
        s.push((id, w))
    }
}

/// `acc` with the outcomes of the first `n` interrupts of step `j` set.
pub open spec fn step_outcomes<const N: usize>(
    acc: Seq<(PathLocalOutcomeId, PartialWorldData<N>)>,
    j: int,
    pcits: Seq<PotentialCommandInterruptTermination<N>>,
    n: int,
) -> Seq<(PathLocalOutcomeId, PartialWorldData<N>)>
    decreases n,
{
    if n <= 0 {
        acc
    } else {
        let prev = step_outcomes(acc, j, pcits, n - 1);
        if is_outcome(pcits[n - 1]) {
            outcome_insert(
                prev,
                PathLocalOutcomeId {
                    at_step: j as usize,
                    from_interrupt: PathLocalInterruptId::InterruptAtIndex(pcits[n - 1].interrupt_index),
                },
                pcits[n - 1].terminating_world.unwrap(),
            )
        } else {
            prev
        }
    }
}

/// The outcomes of the interrupts of the first `m` steps.
pub open spec fn steps_outcomes<const N: usize>(steps: Seq<Seq<PotentialCommandInterruptTermination<N>>>, m: int) -> Seq<(PathLocalOutcomeId, PartialWorldData<N>)>
    decreases m,
{
    if m <= 0 {
        Seq::empty()
    } else {
        step_outcomes(steps_outcomes(steps, m - 1), m - 1, steps[m - 1], steps[m - 1].len() as int)
    }
}

/// The index of the first step in `[i, n)` with an interrupt that can stop the command.
pub open spec fn first_branch<const N: usize>(steps: Seq<Seq<PotentialCommandInterruptTermination<N>>>, i: int, n: int) -> Option<int>
    decreases n - i,
{
    if i >= n {
        None
    } else if exists|p: int| 0 <= p < steps[i].len() && (#[trigger] steps[i][p]).terminating_world is Some {
        Some(i)
    } else {
        first_branch(steps, i + 1, n)
    }
}

/// The elements of `a` that are not in `b`, in order.
pub open spec fn id_difference(a: Seq<PathLocalOutcomeId>, b: Seq<PathLocalOutcomeId>) -> Seq<PathLocalOutcomeId> {
    a.filter(|x: PathLocalOutcomeId| !b.contains(x))
}

proof fn lemma_filter_unique(a: Seq<PathLocalOutcomeId>, pred: spec_fn(PathLocalOutcomeId) -> bool)
    requires
        a.no_duplicates(),
    ensures
        a.filter(pred).no_duplicates(),
    decreases a.len(),
{
    broadcast use vstd::seq_lib::group_filter_ensures;
    reveal(Seq::filter);
    if a.len() > 0 {
        let init = a.drop_last();
        assert(init.no_duplicates()) by {
            assert forall|i: int, j: int| 0 <= i < init.len() && 0 <= j < init.len() && i != j implies init[i] != init[j] by {
                assert(init[i] == a[i] && init[j] == a[j]);
            }
        }
        lemma_filter_unique(init, pred);
        let sub = init.filter(pred);
        if pred(a.last()) {
            assert(!sub.contains(a.last())) by {
                if sub.contains(a.last()) {
                    init.lemma_filter_contains_rev(pred, a.last());
                    let k = choose|k: int| 0 <= k < init.len() && init[k] == a.last();
                    assert(a[k] == a[a.len() - 1]);
                }
            }
            let r = sub.push(a.last());
            assert forall|i: int, j: int| 0 <= i < r.len() && 0 <= j < r.len() && i != j implies r[i] != r[j] by {
                if i < sub.len() && j < sub.len() {
                    assert(r[i] == sub[i] && r[j] == sub[j]);
                } else if i < sub.len() {
                    assert(r[i] == sub[i]);
                    assert(sub.contains(sub[i]));
                } else if j < sub.len() {
                    assert(r[j] == sub[j]);
                    assert(sub.contains(sub[j]));
                }
            }
        }
    }
}

/// The ids of `a` that `b` does not hold, hold no id twice where `a` does not.
proof fn lemma_id_difference_unique(a: Seq<PathLocalOutcomeId>, b: Seq<PathLocalOutcomeId>)
    requires
        a.no_duplicates(),
    ensures
        id_difference(a, b).no_duplicates(),
{
    lemma_filter_unique(a, |x: PathLocalOutcomeId| !b.contains(x));
}

/// The interrupt lists of a sequence of execution steps.
pub open spec fn steps_view<const N: usize>(v: Seq<ExecutionStep<N>>) -> Seq<Seq<PotentialCommandInterruptTermination<N>>> {
    v.map_values(|s: ExecutionStep<N>| s.interrupts@)
}

impl<const N: usize> FilteredCommandApplication<N> {
    /// The interrupt lists of the steps.
    pub closed spec fn steps_spec(&self) -> Seq<Seq<PotentialCommandInterruptTermination<N>>> {
        steps_view(self.execution_steps@)
    }

    /// Why the command surely ends where it does.
    pub closed spec fn termination_spec(&self) -> CommandTerminationReason<N> {
        self.execution_termination
    }

    /// The world in which the command gets furthest.
    pub closed spec fn last_state_spec(&self) -> PartialWorldData<N> {
        self.last_possible_state
    }

    /// What is known about the map.
    pub closed spec fn filter_spec(&self) -> MazeMap<N> {
        self.filter
    }

    /// The transform the command starts from.
    pub closed spec fn start_spec(&self) -> MouseTransform {
        self.transformed_move.start_spec()
    }

    /// The command.
    pub closed spec fn command_spec(&self) -> Command {
        self.command
    }

    /// The recorded ways the command can end.
    pub closed spec fn ids_spec(&self) -> Seq<PathLocalOutcomeId> {
        self.potential_outcome_ids.potential_outcome_ids@
    }

    /// The steps, termination and outcomes are those of the enumeration in the known map `base`.
    pub closed spec fn consistent_with(&self, base: MazeMap<N>) -> bool {
        let start = self.transformed_move.start_spec();
        let st = build_spec(base, start, self.command);
        let max = max_step_count_spec(self.command.ty) as int;
        &&& build_ok(base, start, self.command)
        &&& self.transformed_move.movement_spec() == self.command.ty
        &&& self.steps_spec() == st.0
        &&& self.last_possible_state == st.2
        &&& self.ids_spec() == st.3
        &&& self.execution_termination == match st.4 {
            Some(e) => CommandTerminationReason::Interrupted(e),
            None => CommandTerminationReason::MaxStep(max as usize),
        }
        &&& 1 <= self.execution_steps.len() <= max + 1
        &&& (st.4 is None ==> self.execution_steps.len() == max + 1)
        &&& forall|i: int| 0 <= i < self.execution_steps.len() ==> #[trigger] movement_at_step_spec(start, self.command.ty, i) is Some
    }

    /// The application was built by enumerating its command in some known map.
    pub closed spec fn wf(&self) -> bool {
        exists|base: MazeMap<N>| self.consistent_with(base)
    }

    /// Enumerates the steps of `command` in `with_filter` (the fresh map and the default
    /// transform if `None`): for every step, the interrupts that may stop it with the worlds in
    /// which they do and do not, until an interrupt surely stops it or its movement is done.
    /// `None` exactly where that cannot be done: a step would leave the non-negative
    /// quadrant, an interrupt met would be measured from outside the map, or a step could not
    /// be computed within the machine integers used for it. The outer border on a negative
    /// side counts as a wall.
    #[verifier::rlimit(60)]
    pub fn try_new(with_filter: Option<WorldData<N>>, command: Command) -> (r: Option<Self>)
        ensures
            r is Some <==> build_ok(start_world_spec(with_filter).map, start_world_spec(with_filter).mouse, command),
            r matches Some(a) ==> {
                &&& a.wf()
                &&& a.consistent_with(start_world_spec(with_filter).map)
                &&& a.filter_spec() == start_world_spec(with_filter).map
                &&& a.start_spec() == start_world_spec(with_filter).mouse
                &&& a.command_spec() == command
            },
    {
        let ghost sw = start_world_spec(with_filter);
        let world = match with_filter {
            Some(w) => w,
            None => {
                let d = WorldData::<N>::default();
                proof {
                    MazeMap::lemma_fresh_unique(d.map);
                }
                d
            },
        };
        assert(world == sw);
        let filter = world.map;
        let start_transform = world.mouse;
        let transformed_move = TransformedMovement::new(command.ty, start_transform);
        let max_step_count = transformed_move.max_step_count();
        if !steps_computable(start_transform, command.ty) {
            return None;
        }
        let mut execution_steps: Vec<ExecutionStep<N>> = Vec::new();
        let mut ids: Vec<PathLocalOutcomeId> = Vec::new();
        let mut next = PartialWorldData(world);
        let ghost ints = command.interrupts@;
        let ghost ty = command.ty;
        let ghost init: BuildState<N> = (
            Seq::empty(),
            Seq::empty(),
            PartialWorldData(WorldData { map: filter, mouse: start_transform }),
            Seq::empty(),
            None,
            false,
        );
        let mut i: usize = 0;
        while i <= max_step_count
            invariant
                ints == command.interrupts@,
                ty == command.ty,
                max_step_count == max_step_count_spec(ty),
                max_step_count <= 255,
                transformed_move.start_spec() == start_transform,
                transformed_move.movement_spec() == ty,
                init == (
                    Seq::<Seq<PotentialCommandInterruptTermination<N>>>::empty(),
                    Seq::<PotentialCommandInterruptTermination<N>>::empty(),
                    PartialWorldData(WorldData { map: filter, mouse: start_transform }),
                    Seq::<PathLocalOutcomeId>::empty(),
                    None::<CommandInterruptEnd<N>>,
                    false,
                ),
                forall|j: int| 0 <= j <= max_step_count_spec(command.ty) ==> #[trigger] movement_at_step_req(start_transform, command.ty, j),
                sw == start_world_spec(with_filter),
                filter == sw.map,
                start_transform == sw.mouse,
                i <= max_step_count + 1,
                execution_steps.len() == i,
                forall|j: int| 0 <= j < i ==> #[trigger] movement_at_step_spec(start_transform, ty, j) is Some,
                ({
                    let st = build_steps(init, start_transform, ty, ints, i as int);
                    &&& st.0 == steps_view(execution_steps@)
                    &&& st.2 == next
                    &&& st.3 == ids@
                    &&& st.4 is None
                    &&& !st.5
                }),
            decreases max_step_count + 1 - i,
        {
            let ghost pre = build_steps(init, start_transform, ty, ints, i as int);
            proof {
                assert(movement_at_step_req(start_transform, ty, i as int));
            }
            let t_opt = transformed_move.at_step(i);
            if t_opt.is_none() {
                proof {
                    let s1 = build_step_start(pre, movement_at_step_spec(start_transform, ty, i as int), i as int, ty);
                    assert(s1.5);
                    lemma_done_stays_interrupts(s1, ints, i as int, ints.len() as int);
                    lemma_done_steps(init, start_transform, ty, ints, i + 1, max_step_count + 1);
                }
                assert(build_spec(filter, start_transform, command).5);
                return None;
            }
            let t = t_opt.unwrap();
            let ghost m0 = next.0.map;
            // The mouse visits the cell of this step
            match next.0.map.cell_mut(&t.pos) {
                Some(cell) => {
                    *cell = CellDiscoveryStatus::Visited;
                },
                None => {},
            }
            let ghost m1 = next.0.map;
            proof {
                if in_map(N as int, t.pos.x as int, t.pos.y as int) {
                    assert(m1.is_cell_update(&m0, t.pos, CellDiscoveryStatus::Visited));
                    MazeMap::lemma_cell_update_is_with_cell(m1, m0, t.pos, CellDiscoveryStatus::Visited);
                }
            }
            // and, when moving, drives through the wall behind it.
            if i >= 1 {
                match command.ty {
                    MovementType::Move(_) => {
                        let mark_dir = t.dir.rotated(2);
                        match next.0.map.wall_mut(&t.pos, &mark_dir) {
                            Some(wall) => {
                                *wall = WallDiscoveryStatus::Visited;
                            },
                            None => {},
                        }
                    },
                    _ => {},
                }
            }
            let ghost m2 = next.0.map;
            proof {
                let back = rotated_spec(t.dir, 2);
                if i >= 1 && ty is Move && m1.spec_wall(t.pos, back) is Some {
                    assert(m2.is_wall_update(&m1, t.pos, back, WallDiscoveryStatus::Visited));
                    MazeMap::lemma_wall_update_is_with_wall(m2, m1, t.pos, back, WallDiscoveryStatus::Visited);
                }
            }
            next.0.mouse = t;
            assert(next == step_start_world(pre.2, t, i as int, ty));
            let mut step_potential_ends: Vec<PotentialCommandInterruptTermination<N>> = Vec::new();
            let mut k: usize = 0;
            while k < command.interrupts.len()
                invariant
                    ints == command.interrupts@,
                    ty == command.ty,
                    max_step_count == max_step_count_spec(ty),
                    max_step_count <= 255,
                    i <= max_step_count,
                    k <= ints.len(),
                    execution_steps.len() == i,
                    forall|j: int| 0 <= j <= max_step_count_spec(command.ty) ==> #[trigger] movement_at_step_req(start_transform, command.ty, j),
                    sw == start_world_spec(with_filter),
                    filter == sw.map,
                    start_transform == sw.mouse,
                    init == (
                        Seq::<Seq<PotentialCommandInterruptTermination<N>>>::empty(),
                        Seq::<PotentialCommandInterruptTermination<N>>::empty(),
                        PartialWorldData(WorldData { map: filter, mouse: start_transform }),
                        Seq::<PathLocalOutcomeId>::empty(),
                        None::<CommandInterruptEnd<N>>,
                        false,
                    ),
                    pre == build_steps(init, start_transform, ty, ints, i as int),
                    !build_done(pre),
                    movement_at_step_spec(start_transform, ty, i as int) == Some(t),
                    forall|j: int| 0 <= j < i ==> #[trigger] movement_at_step_spec(start_transform, ty, j) is Some,
                    transformed_move.start_spec() == start_transform,
                    transformed_move.movement_spec() == ty,
                    ({
                        let st = build_interrupts(
                            build_step_start(pre, Some(t), i as int, ty),
                            ints,
                            i as int,
                            k as int,
                        );
                        &&& st.0 == steps_view(execution_steps@)
                        &&& st.1 == step_potential_ends@
                        &&& st.2 == next
                        &&& st.3 == ids@
                        &&& st.4 is None
                        &&& !st.5
                    }),
                decreases ints.len() - k,
            {
                let interrupt = command.interrupts[k];
                let ghost st = build_interrupts(build_step_start(pre, Some(t), i as int, ty), ints, i as int, k as int);
                if interrupt.at_step.matches(i) {
                    let potential_end_reason = InterruptType::from(interrupt);
                    let continuing_world = next.with_interrupt_termination_triggered(
                        false,
                        potential_end_reason.direction,
                        potential_end_reason.action,
                    );
                    let terminating_world = next.with_interrupt_termination_triggered(
                        true,
                        potential_end_reason.direction,
                        potential_end_reason.action,
                    );
                    let id = PathLocalOutcomeId {
                        at_step: i,
                        from_interrupt: PathLocalInterruptId::InterruptAtIndex(k),
                    };
                    match continuing_world {
                        None => {
                            if terminating_world.is_none() {
                                proof {
                                    let s2 = build_interrupts(build_step_start(pre, Some(t), i as int, ty), ints, i as int, k as int + 1);
                                    assert(s2.5);
                                    lemma_done_interrupts(build_step_start(pre, Some(t), i as int, ty), ints, i as int, k as int + 1, ints.len() as int);
                                    lemma_done_steps(init, start_transform, ty, ints, i + 1, max_step_count + 1);
                                }
                                assert(build_spec(filter, start_transform, command).5);
                                return None;
                            }
                            let end_of_command = CommandTerminationReason::Interrupted(
                                CommandInterruptEnd {
                                    terminating_interrupt: potential_end_reason,
                                    interrupt_index: k,
                                    terminating_world: terminating_world.unwrap(),
                                },
                            );
                            execution_steps.push(ExecutionStep { interrupts: step_potential_ends });
                            insert_id(&mut ids, id);
                            proof {
                                let s1 = build_step_start(pre, Some(t), i as int, ty);
                                let s2 = build_interrupts(s1, ints, i as int, k as int + 1);
                                assert(s2.4 is Some);
                                lemma_done_interrupts(s1, ints, i as int, k as int + 1, ints.len() as int);
                                lemma_done_steps(init, start_transform, ty, ints, i + 1, max_step_count + 1);
                                assert(steps_view(execution_steps@) =~= s2.0);
                            }
                            let r = Self {
                                execution_steps,
                                execution_termination: end_of_command,
                                filter,
                                command,
                                transformed_move,
                                last_possible_state: next,
                                potential_outcome_ids: CommandOutcomeIds { potential_outcome_ids: ids },
                            };
                            proof {
                                let st = build_spec(filter, start_transform, r.command);
                                assert(st.0 == r.steps_spec());
                                assert(st.2 == r.last_possible_state);
                                assert(st.3 == r.ids_spec());
                                assert(st.4 is Some);
                                assert(r.execution_termination == CommandTerminationReason::Interrupted(st.4.unwrap()));
                                assert(r.consistent_with(filter));
                            }
                            return Some(r);
                        },
                        Some(cw) => {
                            next = cw;
                            if terminating_world.is_some() {
                                insert_id(&mut ids, id);
                            }
                            step_potential_ends.push(
                                PotentialCommandInterruptTermination {
                                    potentially_terminating_interrupt: potential_end_reason,
                                    interrupt_index: k,
                                    continuing_world: cw,
                                    terminating_world,
                                },
                            );
                        },
                    }
                }
                k = k + 1;
            }
            execution_steps.push(ExecutionStep { interrupts: step_potential_ends });
            proof {
                assert(steps_view(execution_steps@) =~= build_steps(init, start_transform, ty, ints, i + 1).0);
            }
            i = i + 1;
        }
        insert_id(&mut ids, PathLocalOutcomeId { at_step: max_step_count, from_interrupt: PathLocalInterruptId::MaxStep });
        let r = Self {
            execution_steps,
            execution_termination: CommandTerminationReason::MaxStep(max_step_count),
            filter,
            command,
            transformed_move,
            last_possible_state: next,
            potential_outcome_ids: CommandOutcomeIds { potential_outcome_ids: ids },
        };
        proof {
            assert(r.consistent_with(filter));
        }
        Some(r)
    }
    /// Enumerates the steps of `command` in `with_filter` (the fresh map and the default
    /// transform if `None`), where that can be done (see `try_new`).
    pub fn new(with_filter: Option<WorldData<N>>, command: Command) -> (r: Self)
        requires
            build_ok(start_world_spec(with_filter).map, start_world_spec(with_filter).mouse, command),
        ensures
            r.wf(),
            r.consistent_with(start_world_spec(with_filter).map),
            r.filter_spec() == start_world_spec(with_filter).map,
            r.start_spec() == start_world_spec(with_filter).mouse,
            r.command_spec() == command,
    {
        match Self::try_new(with_filter, command) {
            Some(r) => r,
            None => vstd::pervasive::unreached(),
        }
    }
}

impl<const N: usize> FilteredCommandApplication<N> {
    /// A map the application was enumerated in.
    proof fn lemma_wf(&self) -> (base: MazeMap<N>)
        requires
            self.wf(),
        ensures
            self.consistent_with(base),
            1 <= self.steps_spec().len() <= max_step_count_spec(self.command_spec().ty) + 1,
            self.steps_spec().len() == self.execution_steps.len(),
            forall|i: int| 0 <= i < self.steps_spec().len() ==> (#[trigger] self.steps_spec()[i]) == self.execution_steps@[i].interrupts@,
    {
        choose|b: MazeMap<N>| self.consistent_with(b)
    }

    /// An application consistent with `base` can be enumerated there from the transform of
    /// its step 0.
    pub proof fn lemma_build_ok_at_start(&self, base: MazeMap<N>)
        requires
            self.consistent_with(base),
        ensures
            build_ok(base, self.transform_at_spec(0), self.command_spec()),
    {
        assert(self.transform_at_spec(0) == self.start_spec());
    }

    /// The recorded interrupts and the sure end of the application fit its command and the
    /// steps of its movement.
    proof fn lemma_fits(&self)
        requires
            self.wf(),
        ensures
            steps_fit(self.steps_spec(), self.command_spec().interrupts@, self.start_spec(), self.command_spec().ty),
            self.termination_step_spec() <= max_step_count_spec(self.command_spec().ty) <= 255,
            match self.termination_spec() {
                CommandTerminationReason::Interrupted(e) => end_fits(
                    e,
                    self.command_spec().interrupts@,
                    self.start_spec(),
                    self.command_spec().ty,
                    self.termination_step_spec(),
                ),
                CommandTerminationReason::MaxStep(m) => {
                    &&& m == max_step_count_spec(self.command_spec().ty)
                    &&& self.termination_step_spec() == m
                    &&& self.last_state_spec().0.mouse == self.transform_at_spec(m as int)
                },
            },
    {
        let base = self.lemma_wf();
        let start = self.start_spec();
        let cmd = self.command_spec();
        let max = max_step_count_spec(cmd.ty) as int;
        let init: BuildState<N> = (
            Seq::empty(),
            Seq::empty(),
            PartialWorldData(WorldData { map: base, mouse: start }),
            Seq::empty(),
            None,
            false,
        );
        assert(cmd.interrupts@.len() == cmd.interrupts.len());
        lemma_steps_fit(init, start, cmd.ty, cmd.interrupts@, max + 1);
    }

    /// What an application enumerated in the known map `base` holds: the command can be
    /// enumerated there, and the steps, the furthest world, the recorded outcome ids and the
    /// sure end are those of the enumeration `build_spec(base, start, command)`, which has at
    /// most one step more than the movement.
    pub proof fn lemma_consistent_with_reveals(&self, base: MazeMap<N>)
        requires
            self.consistent_with(base),
        ensures
            build_ok(base, self.start_spec(), self.command_spec()),
            self.steps_spec() == build_spec(base, self.start_spec(), self.command_spec()).0,
            self.last_state_spec() == build_spec(base, self.start_spec(), self.command_spec()).2,
            self.ids_spec() == build_spec(base, self.start_spec(), self.command_spec()).3,
            self.termination_spec() == match build_spec(base, self.start_spec(), self.command_spec()).4 {
                Some(e) => CommandTerminationReason::Interrupted(e),
                None => CommandTerminationReason::MaxStep(max_step_count_spec(self.command_spec().ty) as usize),
            },
            1 <= self.steps_spec().len() <= max_step_count_spec(self.command_spec().ty) + 1,
            build_spec(base, self.start_spec(), self.command_spec()).4 is None ==> self.steps_spec().len()
                == max_step_count_spec(self.command_spec().ty) + 1,
            forall|i: int|
                0 <= i < self.steps_spec().len() ==> #[trigger] movement_at_step_spec(self.start_spec(), self.command_spec().ty, i) is Some,
    {
    }

    /// An application enumerated in a known map is determined by that map, the transform it
    /// starts from and its command: two such applications agree in every step, in how the
    /// command surely ends, in the furthest world and in the outcomes. So an application after
    /// a successful `upgrade_filter` agrees with one that `new` enumerates afresh in the
    /// upgraded filter, from the transform of step 0.
    pub proof fn lemma_same_enumeration(a: &Self, b: &Self, base: MazeMap<N>)
        requires
            a.consistent_with(base),
            b.consistent_with(base),
            a.start_spec() == b.start_spec(),
            a.command_spec().ty == b.command_spec().ty,
            a.command_spec().interrupts@ == b.command_spec().interrupts@,
        ensures
            a.steps_spec() == b.steps_spec(),
            a.termination_spec() == b.termination_spec(),
            a.termination_step_spec() == b.termination_step_spec(),
            a.last_state_spec() == b.last_state_spec(),
            a.outcome_ids_spec() == b.outcome_ids_spec(),
            a.outcomes_spec() == b.outcomes_spec(),
    {
        assert(build_spec(base, a.start_spec(), a.command_spec()) == build_spec(base, b.start_spec(), b.command_spec()));
    }

    /// The command can always end somehow, and every way it can end lies at a step the
    /// command can get to: an interrupt only where it is one of the command's interrupts that
    /// can stop it and measures at that step, the regular end only at the last step of the
    /// movement; and the world of every outcome holds the mouse at the transform after that
    /// outcome's step.
    pub proof fn lemma_outcomes_fit(&self)
        requires
            self.wf(),
        ensures
            self.outcome_ids_spec().contains(self.termination_id_spec()),
            forall|k: int|
                0 <= k < self.outcome_ids_spec().len() ==> #[trigger] outcome_id_fits(
                    self.outcome_ids_spec()[k],
                    self.command_spec().interrupts@,
                    self.termination_step_spec(),
                    max_step_count_spec(self.command_spec().ty) as int,
                ),
            forall|k: int|
                0 <= k < self.outcomes_spec().len() ==> #[trigger] outcome_at_its_step(
                    self.outcomes_spec()[k],
                    self.start_spec(),
                    self.command_spec().ty,
                ),
    {
        self.lemma_fits();
        let steps = self.steps_spec();
        let ints = self.command_spec().interrupts@;
        let start = self.start_spec();
        let ty = self.command_spec().ty;
        let last = self.termination_step_spec();
        let max = max_step_count_spec(ty) as int;
        lemma_steps_ids_fit(steps, steps.len() as int, ints, start, ty, last, max);
        let pre = steps_outcome_ids(steps, steps.len() as int);
        let tid = self.termination_id_spec();
        assert(outcome_id_fits(tid, ints, last, max));
        let ids = id_insert(pre, tid);
        if !pre.contains(tid) {
            assert(ids[pre.len() as int] == tid);
        }
        assert forall|k: int| 0 <= k < ids.len() implies #[trigger] outcome_id_fits(ids[k], ints, last, max) by {
            if k < pre.len() {
                assert(ids[k] == pre[k]);
            }
        }
        lemma_steps_outcomes_at_step(steps, steps.len() as int, ints, start, ty);
        assert(outcome_at_its_step((tid, self.termination_world_spec()), start, ty));
        lemma_outcome_insert_at_step(steps_outcomes(steps, steps.len() as int), tid, self.termination_world_spec(), start, ty);
    }

    /// The recorded interrupts, and the world in which the command surely ends, hold the
    /// passage of their step (see `passage_marked`).
    proof fn lemma_marks(&self)
        requires
            self.wf(),
        ensures
            steps_marked(self.steps_spec(), self.start_spec(), self.command_spec().ty),
            passage_marked(self.termination_world_spec(), self.start_spec(), self.command_spec().ty, self.termination_step_spec()),
    {
        let base = self.lemma_wf();
        self.lemma_fits();
        let start = self.start_spec();
        let cmd = self.command_spec();
        let max = max_step_count_spec(cmd.ty) as int;
        let init: BuildState<N> = (
            Seq::empty(),
            Seq::empty(),
            PartialWorldData(WorldData { map: base, mouse: start }),
            Seq::empty(),
            None,
            false,
        );
        assert(cmd.interrupts@.len() == cmd.interrupts.len());
        lemma_steps_fit(init, start, cmd.ty, cmd.interrupts@, max + 1);
        lemma_steps_mark(init, start, cmd.ty, cmd.interrupts@, max + 1);
    }

    /// A move drives through the wall between the cells of consecutive steps: for a move, the
    /// world at the start of every step `i >= 1` that the command surely gets to, the world of
    /// every way it can end (at its step), and both worlds of every recorded interrupt hold the
    /// wall behind the mouse at that step as visited, whatever the filter said of it.
    pub proof fn lemma_moves_mark_passages(&self)
        requires
            self.wf(),
        ensures
            forall|k: int|
                0 <= k < self.outcomes_spec().len() ==> #[trigger] passage_marked(
                    self.outcomes_spec()[k].1,
                    self.start_spec(),
                    self.command_spec().ty,
                    self.outcomes_spec()[k].0.at_step as int,
                ),
            forall|i: int|
                0 <= i ==> (#[trigger] self.certain_step_spec(i) matches Ok(w) ==> passage_marked(
                    w,
                    self.start_spec(),
                    self.command_spec().ty,
                    i,
                )),
            steps_marked(self.steps_spec(), self.start_spec(), self.command_spec().ty),
    {
        self.lemma_marks();
        self.lemma_fits();
        let base = self.lemma_wf();
        self.lemma_consistent_with_reveals(base);
        let steps = self.steps_spec();
        let start = self.start_spec();
        let ty = self.command_spec().ty;
        lemma_steps_outcomes_marked(steps, steps.len() as int, start, ty);
        let tid = self.termination_id_spec();
        assert(outcome_marked((tid, self.termination_world_spec()), start, ty));
        lemma_outcome_insert_marked(steps_outcomes(steps, steps.len() as int), tid, self.termination_world_spec(), start, ty);
        let outs = self.outcomes_spec();
        assert forall|k: int| 0 <= k < outs.len() implies #[trigger] passage_marked(
            outs[k].1,
            start,
            ty,
            outs[k].0.at_step as int,
        ) by {
            assert(outcome_marked(outs[k], start, ty));
        }
        assert forall|i: int| 0 <= i implies (#[trigger] self.certain_step_spec(i) matches Ok(w) ==> passage_marked(
            w,
            start,
            ty,
            i,
        )) by {
            if i >= 1 && i <= self.termination_step_spec() {
                assert(movement_at_step_spec(start, ty, i) is Some);
                lemma_step_start_marks(self.max_substep_spec(i - 1).world_at_substep, start, ty, i);
            }
        }
    }

    /// The step at which the command surely ends.
    pub open spec fn termination_step_spec(&self) -> int {
        self.steps_spec().len() - 1
    }

    /// The identifier of the way the command surely ends.
    pub open spec fn termination_id_spec(&self) -> PathLocalOutcomeId {
        match self.termination_spec() {
            CommandTerminationReason::Interrupted(e) => PathLocalOutcomeId {
                at_step: self.termination_step_spec() as usize,
                from_interrupt: PathLocalInterruptId::InterruptAtIndex(e.interrupt_index),
            },
            CommandTerminationReason::MaxStep(m) => PathLocalOutcomeId {
                at_step: m,
                from_interrupt: PathLocalInterruptId::MaxStep,
            },
        }
    }

    /// The ways the command can end in what is known: the interrupts that can stop it, by step
    /// and index, and the way it surely ends.
    pub open spec fn outcome_ids_spec(&self) -> Seq<PathLocalOutcomeId> {
        id_insert(steps_outcome_ids(self.steps_spec(), self.steps_spec().len() as int), self.termination_id_spec())
    }

    /// The world that holds for the way the command surely ends.
    pub open spec fn termination_world_spec(&self) -> PartialWorldData<N> {
        match self.termination_spec() {
            CommandTerminationReason::Interrupted(e) => e.terminating_world,
            CommandTerminationReason::MaxStep(_) => self.last_state_spec(),
        }
    }

    /// The ways the command can end, each with the world that has to hold for it.
    pub open spec fn outcomes_spec(&self) -> Seq<(PathLocalOutcomeId, PartialWorldData<N>)> {
        outcome_insert(
            steps_outcomes(self.steps_spec(), self.steps_spec().len() as int),
            self.termination_id_spec(),
            self.termination_world_spec(),
        )
    }

    /// The command applied.
    pub fn command(&self) -> (r: &Command)
        ensures
            *r == self.command_spec(),
    {
        &self.command
    }

    /// The number of steps of the command's movement, whatever the filter.
    pub fn command_unfiltered_max_step(&self) -> (r: usize)
        ensures
            r == max_step_count_spec(self.command_spec().ty),
    {
        self.command.max_step_count()
    }

    /// The last step that is (at least partly) carried out: where the movement ends or an
    /// interrupt surely stops the command.
    pub fn step_with_termination(&self) -> (r: usize)
        requires
            self.wf(),
        ensures
            r == self.termination_step_spec(),
    {
        proof {
            self.lemma_wf();
        }
        self.execution_steps.len() - 1
    }

    /// `Ok` if the command can get as far as step `step_number`.
    pub fn reach_step(&self, step_number: StepNum) -> (r: Result<(), CannotReachStep>)
        requires
            self.wf(),
        ensures
            r == if step_number > self.termination_step_spec() {
                Err::<(), CannotReachStep>(CannotReachStep(step_number))
            } else {
                Ok(())
            },
    {
        proof {
            self.lemma_wf();
        }
        if step_number as usize > self.step_with_termination() {
            Err(CannotReachStep(step_number))
        } else {
            Ok(())
        }
    }

    /// The directions measured at step `step_number`, each once.
    pub fn measurement_directions_at_step(&self, step_number: StepNum) -> (r: Result<Vec<RelativeDirection>, CannotReachStep>)
        requires
            self.wf(),
        ensures
            step_number > self.termination_step_spec() ==> r == Err::<Vec<RelativeDirection>, CannotReachStep>(CannotReachStep(step_number)),
            step_number <= self.termination_step_spec() ==> (r matches Ok(v) && v@ == step_directions(
                self.command_spec().interrupts@,
                step_number as int,
                self.command_spec().interrupts@.len() as int,
            )),
    {
        match self.reach_step(step_number) {
            Err(e) => {
                return Err(e);
            },
            Ok(()) => {},
        }
        let mut directions: Vec<RelativeDirection> = Vec::new();
        let mut k: usize = 0;
        while k < self.command.interrupts.len()
            invariant
                k <= self.command.interrupts.len(),
                directions@ == step_directions(self.command.interrupts@, step_number as int, k as int),
            decreases self.command.interrupts.len() - k,
        {
            let i = self.command.interrupts[k];
            if i.at_step.matches(step_number as usize) {
                let mut found = false;
                let mut j: usize = 0;
                while j < directions.len()
                    invariant
                        j <= directions.len(),
                        found == exists|m: int| 0 <= m < j && directions@[m] == i.direction,
                    decreases directions.len() - j,
                {
                    if directions[j] == i.direction {
                        found = true;
                    }
                    j = j + 1;
                }
                if !found {
                    directions.push(i.direction);
                }
            }
            k = k + 1;
        }
        Ok(directions)
    }

    /// The interrupts that measure at step `step_number`, with their index, in ascending order.
    pub fn ordered_measurement_directions_at_step(&self, step_number: StepNum) -> (r: Result<Vec<(usize, RelativeDirection)>, CannotReachStep>)
        requires
            self.wf(),
        ensures
            step_number > self.termination_step_spec() ==> r == Err::<Vec<(usize, RelativeDirection)>, CannotReachStep>(CannotReachStep(step_number)),
            step_number <= self.termination_step_spec() ==> (r matches Ok(v) && v@ == ordered_step_directions(
                self.command_spec().interrupts@,
                step_number as int,
                self.command_spec().interrupts@.len() as int,
            )),
    {
        match self.reach_step(step_number) {
            Err(e) => {
                return Err(e);
            },
            Ok(()) => {},
        }
        let mut directions: Vec<(usize, RelativeDirection)> = Vec::new();
        let mut k: usize = 0;
        while k < self.command.interrupts.len()
            invariant
                k <= self.command.interrupts.len(),
                directions@ == ordered_step_directions(self.command.interrupts@, step_number as int, k as int),
            decreases self.command.interrupts.len() - k,
        {
            let i = self.command.interrupts[k];
            if i.at_step.matches(step_number as usize) {
                directions.push((k, i.direction));
            }
            k = k + 1;
        }
        Ok(directions)
    }

    /// The ways the command can end, given what is known (see `outcome_ids_spec`).
    pub fn potential_outcome_ids(&self) -> (r: CommandOutcomeIds)
        requires
            self.wf(),
        ensures
            r.potential_outcome_ids@ == self.outcome_ids_spec(),
            r.potential_outcome_ids@.no_duplicates(),
    {
        proof {
            self.lemma_wf();
            lemma_steps_outcome_ids_unique(self.steps_spec(), self.steps_spec().len() as int);
            lemma_id_insert_unique(
                steps_outcome_ids(self.steps_spec(), self.steps_spec().len() as int),
                self.termination_id_spec(),
            );
        }
        let mut ids: Vec<PathLocalOutcomeId> = Vec::new();
        let mut step_num: usize = 0;
        while step_num < self.execution_steps.len()
            invariant
                step_num <= self.execution_steps.len(),
                self.steps_spec().len() == self.execution_steps.len(),
                forall|i: int| 0 <= i < self.steps_spec().len() ==> (#[trigger] self.steps_spec()[i]) == self.execution_steps@[i].interrupts@,
                ids@ == steps_outcome_ids(self.steps_spec(), step_num as int),
            decreases self.execution_steps.len() - step_num,
        {
            let step = &self.execution_steps[step_num];
            let ghost pcits = self.steps_spec()[step_num as int];
            let mut n: usize = 0;
            while n < step.interrupts.len()
                invariant
                    n <= step.interrupts.len(),
                    pcits == step.interrupts@,
                    ids@ == step_outcome_ids(steps_outcome_ids(self.steps_spec(), step_num as int), step_num as int, pcits, n as int),
                decreases step.interrupts.len() - n,
            {
                let pot_outcome = step.interrupts[n];
                if pot_outcome.potentially_terminating_interrupt.action.could_interrupt()
                    && pot_outcome.terminating_world.is_some() {
                    insert_id(
                        &mut ids,
                        PathLocalOutcomeId {
                            at_step: step_num,
                            from_interrupt: PathLocalInterruptId::InterruptAtIndex(pot_outcome.interrupt_index),
                        },
                    );
                }
                n = n + 1;
            }
            step_num = step_num + 1;
        }
        let last = match self.execution_termination {
            CommandTerminationReason::Interrupted(i) => PathLocalOutcomeId {
                at_step: self.step_with_termination(),
                from_interrupt: PathLocalInterruptId::InterruptAtIndex(i.interrupt_index),
            },
            CommandTerminationReason::MaxStep(max_step) => PathLocalOutcomeId {
                at_step: max_step,
                from_interrupt: PathLocalInterruptId::MaxStep,
            },
        };
        insert_id(&mut ids, last);
        CommandOutcomeIds { potential_outcome_ids: ids }
    }

    /// The ways the command can end given what is known, each with the world that has to hold
    /// for it (see `outcomes_spec`).
    pub fn potential_outcomes_given_filter(&self) -> (r: CommandOutcomes<N>)
        requires
            self.wf(),
        ensures
            r.potential_outcomes@ == self.outcomes_spec(),
            keys_unique(r.potential_outcomes@),
    {
        proof {
            self.lemma_wf();
        }
        let mut outcomes: Vec<(PathLocalOutcomeId, PartialWorldData<N>)> = Vec::new();
        let mut step_num: usize = 0;
        while step_num < self.execution_steps.len()
            invariant
                step_num <= self.execution_steps.len(),
                self.steps_spec().len() == self.execution_steps.len(),
                forall|i: int| 0 <= i < self.steps_spec().len() ==> (#[trigger] self.steps_spec()[i]) == self.execution_steps@[i].interrupts@,
                outcomes@ == steps_outcomes(self.steps_spec(), step_num as int),
                keys_unique(outcomes@),
            decreases self.execution_steps.len() - step_num,
        {
            let step = &self.execution_steps[step_num];
            let ghost pcits = self.steps_spec()[step_num as int];
            let mut n: usize = 0;
            while n < step.interrupts.len()
                invariant
                    n <= step.interrupts.len(),
                    pcits == step.interrupts@,
                    outcomes@ == step_outcomes(steps_outcomes(self.steps_spec(), step_num as int), step_num as int, pcits, n as int),
                    keys_unique(outcomes@),
                decreases step.interrupts.len() - n,
            {
                let end = step.interrupts[n];
                if end.potentially_terminating_interrupt.action.could_interrupt() {
                    match end.terminating_world {
                        Some(w) => {
                            insert_outcome(
                                &mut outcomes,
                                PathLocalOutcomeId {
                                    at_step: step_num,
                                    from_interrupt: PathLocalInterruptId::InterruptAtIndex(end.interrupt_index),
                                },
                                w,
                            );
                        },
                        None => {},
                    }
                }
                n = n + 1;
            }
            step_num = step_num + 1;
        }
        match self.execution_termination {
            CommandTerminationReason::Interrupted(e) => {
                insert_outcome(
                    &mut outcomes,
                    PathLocalOutcomeId {
                        at_step: self.step_with_termination(),
                        from_interrupt: PathLocalInterruptId::InterruptAtIndex(e.interrupt_index),
                    },
                    e.terminating_world,
                );
            },
            CommandTerminationReason::MaxStep(x) => {
                insert_outcome(
                    &mut outcomes,
                    PathLocalOutcomeId { at_step: x, from_interrupt: PathLocalInterruptId::MaxStep },
                    self.last_possible_state,
                );
            },
        }
        CommandOutcomes { potential_outcomes: outcomes }
    }
}

/// The map of the last world that lets the command go on among the interrupts of steps `0`
/// to `j`, looking from step `j` backwards; `filter` if none of these steps has one.
pub open spec fn last_continuing_map<const N: usize>(
    steps: Seq<Seq<PotentialCommandInterruptTermination<N>>>,
    filter: MazeMap<N>,
    j: int,
) -> MazeMap<N>
    decreases j + 1,
{
    if j < 0 {
        filter
    } else if steps[j].len() > 0 {
        steps[j].last().continuing_world.0.map
    } else {
        last_continuing_map(steps, filter, j - 1)
    }
}

impl<const N: usize> FilteredCommandApplication<N> {
    /// The transform of the mouse at step `i` of the command.
    pub open spec fn transform_at_spec(&self, i: int) -> MouseTransform {
        movement_at_step_spec(self.start_spec(), self.command_spec().ty, i).unwrap()
    }

    /// The last sub-state of step `step` (see `max_substep_in_step`).
    pub open spec fn max_substep_spec(&self, step: int) -> MaxSubstep<N> {
        let steps = self.steps_spec();
        let pcits = steps[step];
        let at = self.transform_at_spec(step);
        if pcits.len() == 0 {
            let term = if step == self.termination_step_spec() {
                MaxSubstepTermination::Terminated(PathLocalInterruptId::MaxStep)
            } else {
                MaxSubstepTermination::Continuing
            };
            let map = last_continuing_map(steps, self.filter_spec(), step - 1);
            MaxSubstep {
                potential_termination: term,
                world_at_substep: PartialWorldData(WorldData { map: map, mouse: at }),
            }
        } else if step == self.termination_step_spec() {
            MaxSubstep {
                potential_termination: MaxSubstepTermination::Terminated(
                    match self.termination_spec() {
                        CommandTerminationReason::Interrupted(i) => PathLocalInterruptId::InterruptAtIndex(i.interrupt_index),
                        CommandTerminationReason::MaxStep(_) => PathLocalInterruptId::MaxStep,
                    },
                ),
                world_at_substep: self.last_state_spec(),
            }
        } else {
            MaxSubstep {
                potential_termination: MaxSubstepTermination::Continuing,
                world_at_substep: pcits.last().continuing_world,
            }
        }
    }

    /// The start of step `step` if the command surely gets there (see `at_start_certain_step`).
    pub open spec fn certain_step_spec(&self, step: int) -> Result<PartialWorldData<N>, CertainStepError> {
        if step > self.termination_step_spec() {
            Err(CertainStepError::CannotReachStep(CannotReachStep(step as u32)))
        } else {
            match first_branch(self.steps_spec(), 0, step) {
                Some(i) => Err(
                    CertainStepError::Uncertainty(
                        UncertainStepError { tried_to_reach_step: step as u32, but_could_terminate_at: i as u32 },
                    ),
                ),
                None => Ok(
                    if step == 0 {
                        PartialWorldData(WorldData { map: self.filter_spec(), mouse: self.transform_at_spec(0) })
                    } else {
                        step_start_world(
                            self.max_substep_spec(step - 1).world_at_substep,
                            self.transform_at_spec(step),
                            step,
                            self.command_spec().ty,
                        )
                    },
                ),
            }
        }
    }

    /// The last sub-state of step `step_number`: the world of its last interrupt that lets the
    /// command go on (or, at the step where it surely ends, the world in which it gets furthest),
    /// with whether the command can go on after it.
    pub fn max_substep_in_step(&self, step_number: StepNum) -> (r: Result<MaxSubstep<N>, CannotReachStep>)
        requires
            self.wf(),
        ensures
            step_number > self.termination_step_spec() ==> (r matches Err(e) && e == CannotReachStep(step_number)),
            step_number <= self.termination_step_spec() ==> (r matches Ok(m) && m == self.max_substep_spec(step_number as int)),
    {
        let ghost base = self.lemma_wf();
        proof {
            assert(movement_at_step_req(self.start_spec(), self.command_spec().ty, step_number as int) || step_number > self.termination_step_spec());
        }
        match self.reach_step(step_number) {
            Err(e) => {
                return Err(e);
            },
            Ok(()) => {},
        }
        let step = &self.execution_steps[step_number as usize];
        let potential_terminations = &step.interrupts;
        if potential_terminations.len() == 0 {
            let term = if step_number as usize == self.step_with_termination() {
                MaxSubstepTermination::Terminated(PathLocalInterruptId::MaxStep)
            } else {
                MaxSubstepTermination::Continuing
            };
            if step_number == 0 {
                return Ok(
                    MaxSubstep {
                        potential_termination: term,
                        world_at_substep: PartialWorldData(
                            WorldData { map: self.filter, mouse: self.transformed_move.at_step(0).unwrap() },
                        ),
                    },
                );
            }
            // The map of the latest earlier step that has interrupts is all that is known of
            // the map at this step.
            let mut last_continuing = self.filter;
            let mut j: usize = step_number as usize;
            while j > 0
                invariant
                    self.wf(),
                    self.consistent_with(base),
                    j <= step_number,
                    (step_number as int) < self.execution_steps@.len(),
                    j > 0 ==> last_continuing == self.filter,
                    last_continuing_map(self.steps_spec(), self.filter_spec(), step_number - 1)
                        == if j == 0 {
                        last_continuing
                    } else {
                        last_continuing_map(self.steps_spec(), self.filter_spec(), j - 1)
                    },
                decreases j,
            {
                let before = &self.execution_steps[j - 1].interrupts;
                assert(self.steps_spec()[j - 1] == before@);
                if before.len() > 0 {
                    last_continuing = before[before.len() - 1].continuing_world.0.map;
                    j = 0;
                } else {
                    assert(last_continuing_map(self.steps_spec(), self.filter_spec(), j - 1)
                        == last_continuing_map(self.steps_spec(), self.filter_spec(), j - 2));
                    j = j - 1;
                }
            }
            Ok(
                MaxSubstep {
                    potential_termination: term,
                    world_at_substep: PartialWorldData(
                        WorldData {
                            map: last_continuing,
                            mouse: self.transformed_move.at_step(step_number as usize).unwrap(),
                        },
                    ),
                },
            )
        } else if step_number as usize == self.step_with_termination() {
            let t = match self.execution_termination {
                CommandTerminationReason::Interrupted(i) => PathLocalInterruptId::InterruptAtIndex(i.interrupt_index),
                CommandTerminationReason::MaxStep(_) => PathLocalInterruptId::MaxStep,
            };
            Ok(
                MaxSubstep {
                    potential_termination: MaxSubstepTermination::Terminated(t),
                    world_at_substep: self.last_possible_state,
                },
            )
        } else {
            Ok(
                MaxSubstep {
                    potential_termination: MaxSubstepTermination::Continuing,
                    world_at_substep: potential_terminations[potential_terminations.len() - 1].continuing_world,
                },
            )
        }
    }

    /// The start of step `step_number` (before its measurements), if the command surely gets
    /// there: it can reach it and no interrupt before it can stop it.
    pub fn at_start_certain_step(&self, step_number: StepNum) -> (r: Result<PartialWorldData<N>, CertainStepError>)
        requires
            self.wf(),
        ensures
            r == self.certain_step_spec(step_number as int),
    {
        proof {
            self.lemma_wf();
        }
        match self.reach_step(step_number) {
            Err(e) => {
                return Err(CertainStepError::from(e));
            },
            Ok(()) => {},
        }
        let mut i: u32 = 0;
        while i < step_number
            invariant
                i <= step_number,
                step_number <= self.termination_step_spec(),
                self.steps_spec().len() == self.execution_steps.len(),
                forall|j: int| 0 <= j < self.steps_spec().len() ==> (#[trigger] self.steps_spec()[j]) == self.execution_steps@[j].interrupts@,
                first_branch(self.steps_spec(), 0, step_number as int) == first_branch(self.steps_spec(), i as int, step_number as int),
            decreases step_number - i,
        {
            let step = &self.execution_steps[i as usize];
            assert(self.steps_spec()[i as int] == step.interrupts@);
            let mut n: usize = 0;
            while n < step.interrupts.len()
                invariant
                    n <= step.interrupts.len(),
                    forall|p: int| 0 <= p < n ==> step.interrupts@[p].terminating_world is None,
                    i < step_number,
                    step_number <= self.termination_step_spec(),
                    self.steps_spec()[i as int] == step.interrupts@,
                    first_branch(self.steps_spec(), 0, step_number as int) == first_branch(self.steps_spec(), i as int, step_number as int),
                decreases step.interrupts.len() - n,
            {
                if step.interrupts[n].terminating_world.is_some() {
                    proof {
                        assert(self.steps_spec()[i as int][n as int].terminating_world is Some);
                    }
                    return Err(
                        CertainStepError::from(
                            UncertainStepError { tried_to_reach_step: step_number, but_could_terminate_at: i },
                        ),
                    );
                }
                n = n + 1;
            }
            proof {
                assert(!exists|p: int| 0 <= p < self.steps_spec()[i as int].len() && (#[trigger] self.steps_spec()[i as int][p]).terminating_world is Some);
            }
            i = i + 1;
        }
        if step_number == 0 {
            return Ok(
                PartialWorldData(
                    WorldData { map: self.filter, mouse: self.transformed_move.at_step(0).unwrap() },
                ),
            );
        }
        let max_step_before = match self.max_substep_in_step(step_number - 1) {
            Ok(m) => m,
            Err(e) => {
                return Err(CertainStepError::from(e));
            },
        };
        let mut map_continued = max_step_before.world_at_substep.0.map;
        let ghost m0 = map_continued;
        let mouse_transf_at_step = self.transformed_move.at_step(step_number as usize).unwrap();
        match map_continued.cell_mut(&mouse_transf_at_step.pos) {
            Some(cell) => {
                *cell = CellDiscoveryStatus::Visited;
            },
            None => {},
        }
        let ghost m1 = map_continued;
        proof {
            if in_map(N as int, mouse_transf_at_step.pos.x as int, mouse_transf_at_step.pos.y as int) {
                assert(m1.is_cell_update(&m0, mouse_transf_at_step.pos, CellDiscoveryStatus::Visited));
                MazeMap::lemma_cell_update_is_with_cell(m1, m0, mouse_transf_at_step.pos, CellDiscoveryStatus::Visited);
            }
        }
        match self.command.ty {
            MovementType::Move(_) => {
                let backward = mouse_transf_at_step.dir.rotated(2);
                match map_continued.wall_mut(&mouse_transf_at_step.pos, &backward) {
                    Some(wall) => {
                        *wall = WallDiscoveryStatus::Visited;
                    },
                    None => {},
                }
            },
            _ => {},
        }
        let ghost m2 = map_continued;
        proof {
            let back = rotated_spec(mouse_transf_at_step.dir, 2);
            if self.command_spec().ty is Move && m1.spec_wall(mouse_transf_at_step.pos, back) is Some {
                assert(m2.is_wall_update(&m1, mouse_transf_at_step.pos, back, WallDiscoveryStatus::Visited));
                MazeMap::lemma_wall_update_is_with_wall(m2, m1, mouse_transf_at_step.pos, back, WallDiscoveryStatus::Visited);
            }
        }
        Ok(PartialWorldData(WorldData { map: map_continued, mouse: mouse_transf_at_step }))
    }
}

impl RejectedOutcomes {
    /// No outcome was ruled out.
    pub fn is_empty(&self) -> (r: bool)
        ensures
            r == (self.rejected_outcome_ids@.len() == 0),
    {
        self.rejected_outcome_ids.len() == 0
    }
}

impl CommandOutcomeIds {
    /// The ids of `self` that `rhs` lacks, in order.
    pub fn difference(self, rhs: Self) -> (r: RejectedOutcomes)
        ensures
            r.rejected_outcome_ids@ == id_difference(self.potential_outcome_ids@, rhs.potential_outcome_ids@),
            self.potential_outcome_ids@.no_duplicates() ==> r.rejected_outcome_ids@.no_duplicates(),
    {
        proof {
            if self.potential_outcome_ids@.no_duplicates() {
                lemma_id_difference_unique(self.potential_outcome_ids@, rhs.potential_outcome_ids@);
            }
        }
        let a = self.potential_outcome_ids;
        let b = rhs.potential_outcome_ids;
        let mut out: Vec<PathLocalOutcomeId> = Vec::new();
        let mut i: usize = 0;
        while i < a.len()
            invariant
                i <= a.len(),
                out@ == id_difference(a@.take(i as int), b@),
            decreases a.len() - i,
        {
            let x = a[i];
            let mut found = false;
            let mut j: usize = 0;
            while j < b.len()
                invariant
                    j <= b.len(),
                    found == exists|m: int| 0 <= m < j && b@[m] == x,
                decreases b.len() - j,
            {
                if b[j] == x {
                    found = true;
                }
                j = j + 1;
            }
            proof {
                assert(found == b@.contains(x));
                assert(a@.take(i + 1).drop_last() =~= a@.take(i as int));
                reveal(Seq::filter);
            }
            if !found {
                out.push(x);
            }
            i = i + 1;
        }
        proof {
            assert(a@.take(a.len() as int) =~= a@);
        }
        RejectedOutcomes { rejected_outcome_ids: out }
    }
}

impl<const N: usize> FilteredCommandApplication<N> {
    /// `self` and `other` hold the same enumeration of the same command.
    pub open spec fn same_enumeration(&self, other: &Self) -> bool {
        &&& self.steps_spec() == other.steps_spec()
        &&& self.termination_spec() == other.termination_spec()
        &&& self.last_state_spec() == other.last_state_spec()
        &&& self.ids_spec() == other.ids_spec()
        &&& self.start_spec() == other.start_spec()
        &&& self.command_spec() == other.command_spec()
    }

    /// Replaces what is known by `upgraded_filter` and enumerates the command anew in it, from
    /// the transform of step 0. Fails, changing nothing, unless the new filter refines the
    /// current one; otherwise returns the outcomes that are no longer possible.
    pub fn upgrade_filter(&mut self, upgraded_filter: MazeMap<N>) -> (r: Result<RejectedOutcomes, FilterUpgradeError>)
        requires
            old(self).wf(),
            upgraded_filter.upgrade_of(&old(self).filter_spec()) ==> build_ok(
                upgraded_filter,
                old(self).transform_at_spec(0),
                old(self).command_spec(),
            ),
        ensures
            !upgraded_filter.upgrade_of(&old(self).filter_spec()) ==> {
                &&& r == Err::<RejectedOutcomes, FilterUpgradeError>(FilterUpgradeError)
                &&& *final(self) == *old(self)
            },
            upgraded_filter.upgrade_of(&old(self).filter_spec()) ==> {
                &&& final(self).wf()
                &&& final(self).consistent_with(upgraded_filter)
                &&& final(self).filter_spec() == upgraded_filter
                &&& final(self).start_spec() == old(self).transform_at_spec(0)
                &&& final(self).command_spec().ty == old(self).command_spec().ty
                &&& final(self).command_spec().interrupts@ == old(self).command_spec().interrupts@
                &&& r matches Ok(rej) && rej.rejected_outcome_ids@ == id_difference(
                    old(self).outcome_ids_spec(),
                    final(self).outcome_ids_spec(),
                ) && rej.rejected_outcome_ids@.no_duplicates()
            },
    {
        proof {
            self.lemma_wf();
        }
        let is_upgrade_valid = upgraded_filter.could_be_upgrade_of(&self.filter);
        if !is_upgrade_valid {
            return Err(FilterUpgradeError);
        }
        let start = self.transformed_move.at_step(0).unwrap();
        let new_filter = WorldData { map: upgraded_filter, mouse: start };
        let old_outcomes = self.potential_outcome_ids();
        let command = self.command.clone();
        assert(build_spec(upgraded_filter, start, command) == build_spec(upgraded_filter, start, self.command));
        *self = Self::new(Some(new_filter), command);
        let new_outcomes = self.potential_outcome_ids();
        Ok(old_outcomes.difference(new_outcomes))
    }

    /// Applies a measurement to what is known and enumerates the command anew (see
    /// `upgrade_filter`). Reports the discoveries and the outcomes ruled out, each `None` if
    /// there are none. If the measurement cannot be applied, the error is returned; the filter
    /// then holds what was applied before the error was found, and the enumeration is the old one.
    pub fn apply_measurement_to_filter(&mut self, measurement: Measurement) -> (r: Result<FilterUpdate, FilterMeasurementUpgradeError>)
        requires
            old(self).wf(),
            N <= u32::MAX,
            forall|m: MazeMap<N>| #[trigger] m.upgrade_of(&old(self).filter_spec()) ==> build_ok(
                m,
                old(self).transform_at_spec(0),
                old(self).command_spec(),
            ),
        ensures
            final(self).wf(),
            final(self).filter_spec().upgrade_of(&old(self).filter_spec()),
            r !is Err || r matches Err(FilterMeasurementUpgradeError::NotValidMeasurement(_)),
            r matches Err(FilterMeasurementUpgradeError::NotValidMeasurement(e)) ==> {
                &&& final(self).filter_spec().apply_outcome(&old(self).filter_spec(), measurement, Err(e))
                &&& final(self).same_enumeration(old(self))
            },
            r matches Ok(u) ==> {
                &&& final(self).consistent_with(final(self).filter_spec())
                &&& final(self).start_spec() == old(self).transform_at_spec(0)
                &&& final(self).command_spec().ty == old(self).command_spec().ty
                &&& final(self).command_spec().interrupts@ == old(self).command_spec().interrupts@
                &&& exists|d: DiscoveryMessage| {
                    &&& final(self).filter_spec().apply_outcome(&old(self).filter_spec(), measurement, Ok(d))
                    &&& u.discoveries == if d.cell_discoveries@.len() == 0 && d.wall_discoveries@.len() == 0 {
                        None
                    } else {
                        Some(d)
                    }
                }
                &&& ({
                    let rej = id_difference(old(self).outcome_ids_spec(), final(self).outcome_ids_spec());
                    &&& (rej.len() == 0 ==> u.rejections is None)
                    &&& (rej.len() > 0 ==> (u.rejections matches Some(x) && x.rejected_outcome_ids@ == rej))
                    &&& rej.no_duplicates()
                })
            },
    {
        let ghost pre = *self;
        let ghost base = self.lemma_wf();
        let discoveries = match self.filter.apply_measurement(&measurement) {
            Ok(d) => d,
            Err(e) => {
                proof {
                    assert(self.consistent_with(base));
                }
                return Err(FilterMeasurementUpgradeError::NotValidMeasurement(e));
            },
        };
        let ghost d0 = discoveries;
        let f = self.filter;
        proof {
            assert(self.consistent_with(base));
            MazeMap::lemma_upgrade_reflexive(f);
            assert(f.upgrade_of(&pre.filter_spec()));
            assert(self.transform_at_spec(0) == pre.transform_at_spec(0));
        }
        let rejections = match self.upgrade_filter(f) {
            Ok(r) => r,
            Err(e) => {
                return Err(FilterMeasurementUpgradeError::NotValidUpgrade(e));
            },
        };
        let discoveries = if discoveries.is_empty() {
            None
        } else {
            Some(discoveries)
        };
        let rejections = if rejections.is_empty() {
            None
        } else {
            Some(rejections)
        };
        proof {
            assert(self.filter_spec().apply_outcome(&pre.filter_spec(), measurement, Ok(d0)));
        }
        Ok(FilterUpdate { discoveries, rejections })
    }
}

/// Sets the world of `id` in `v` to `w`: replaces its entry or appends one.
fn insert_outcome<const N: usize>(
    v: &mut Vec<(PathLocalOutcomeId, PartialWorldData<N>)>,
    id: PathLocalOutcomeId,
    w: PartialWorldData<N>,
)
    requires
        keys_unique(old(v)@),
    ensures
        final(v)@ == outcome_insert(old(v)@, id, w),
        keys_unique(final(v)@),
{
    let mut j: usize = 0;
    while j < v.len()
        invariant
            j <= v.len(),
            v@ == old(v)@,
            keys_unique(v@),
            forall|m: int| 0 <= m < j ==> v@[m].0 != id,
        decreases v.len() - j,
    {
        if v[j].0 == id {
            let ghost c = choose|i: int| 0 <= i < v@.len() && v@[i].0 == id;
            assert(c == j);
            v.set(j, (id, w));
            return;
        }
        j = j + 1;
    }
    v.push((id, w));
}

/// Adds `id` to `v` unless it is there already.
fn insert_id(v: &mut Vec<PathLocalOutcomeId>, id: PathLocalOutcomeId)
    ensures
        final(v)@ == id_insert(old(v)@, id),
{
    let mut j: usize = 0;
    while j < v.len()
        invariant
            j <= v.len(),
            forall|m: int| 0 <= m < j ==> v@[m] != id,
        decreases v.len() - j,
    {
        if v[j] == id {
            assert(v@.contains(id));
            return;
        }
        j = j + 1;
    }
    assert(!v@.contains(id));
    v.push(id);
}

} // verus!
