use micromouse::comm::micromouse_message::{
    Command, InterruptAction, InterruptStep, MeasurementInterrupt, MovementType, TransformedMovement,
};
use micromouse::command_world_state::CommandApplication;
use micromouse::comm::websocket::{mode_after_tick, WsChannelMode};
use micromouse::map::command_world_state::{
    FilteredCommandApplication, MaxSubstepTermination, PathLocalInterruptId, PathLocalOutcomeId,
};
use micromouse::map::map::{CellDiscoveryStatus, MazeMap, WallDiscoveryStatus};
use micromouse::map::measurement::{Measurement, MeasurementValue};
use micromouse::strategy::strategies::utils::capsule::as_capsule_map;
use micromouse::map::world_data::{CommandExecution, EndState, PartialWorldData, WorldData};
use micromouse::transform::direction::{Direction, RelativeDirection};
use micromouse::transform::position::{MouseTransform, Position};

fn world(x: u32, y: u32, dir: Direction) -> WorldData<4> {
    let mut w = WorldData::<4>::default();
    w.mouse = MouseTransform { pos: Position { x, y }, dir };
    w
}

fn cmd(ty: MovementType, interrupts: Vec<MeasurementInterrupt>) -> Command {
    Command { ty, interrupts }
}

#[test]
fn commands_inside_the_quadrant_can_be_enumerated() {
    assert!(FilteredCommandApplication::<4>::try_new(None, cmd(MovementType::Move(2), vec![])).is_some());
    assert!(FilteredCommandApplication::<4>::try_new(Some(world(1, 1, Direction::NegX)), cmd(MovementType::Move(1), vec![]))
        .is_some());
    assert!(FilteredCommandApplication::<4>::try_new(None, cmd(MovementType::Turn(127), vec![])).is_some());
}

#[test]
fn commands_leaving_the_quadrant_cannot() {
    assert!(FilteredCommandApplication::<4>::try_new(Some(world(0, 0, Direction::NegX)), cmd(MovementType::Move(1), vec![]))
        .is_none());
    assert!(FilteredCommandApplication::<4>::try_new(Some(world(0, 1, Direction::NegY)), cmd(MovementType::Move(2), vec![]))
        .is_none());
}

#[test]
fn steps_that_cannot_be_computed_fail() {
    assert!(FilteredCommandApplication::<4>::try_new(None, cmd(MovementType::Turn(-128), vec![])).is_none());
    assert!(FilteredCommandApplication::<4>::try_new(Some(world(0, 0, Direction::PosY)), cmd(MovementType::Turn(127), vec![]))
        .is_none());
}

#[test]
fn an_interrupt_measuring_the_border_sees_a_wall() {
    // Facing along the negative-x border, measuring to the right looks at the border, which
    // is a wall though the map does not store it.
    let right = MeasurementInterrupt {
        direction: RelativeDirection::Right,
        at_step: InterruptStep::At(0),
        action: InterruptAction::StopIfBlocked,
    };
    let app = FilteredCommandApplication::<4>::try_new(Some(world(0, 2, Direction::PosY)), cmd(MovementType::Move(1), vec![right]))
        .expect("enumerable");
    // The border surely stops the command before it moves.
    assert_eq!(app.step_with_termination(), 0);
    assert_eq!(
        app.potential_outcome_ids().potential_outcome_ids,
        vec![PathLocalOutcomeId { at_step: 0, from_interrupt: PathLocalInterruptId::InterruptAtIndex(0) }]
    );
    let left = MeasurementInterrupt { direction: RelativeDirection::Left, ..right };
    assert!(FilteredCommandApplication::<4>::try_new(Some(world(0, 2, Direction::PosY)), cmd(MovementType::Move(1), vec![left]))
        .is_some());
}

#[test]
fn a_continue_interrupt_at_the_border_is_enumerable() {
    let left = MeasurementInterrupt {
        direction: RelativeDirection::Left,
        at_step: InterruptStep::Each,
        action: InterruptAction::Continue,
    };
    let app = FilteredCommandApplication::<4>::new(None, cmd(MovementType::Move(1), vec![left]));
    assert_eq!(app.step_with_termination(), 1);
    assert_eq!(
        app.potential_outcome_ids().potential_outcome_ids,
        vec![PathLocalOutcomeId { at_step: 1, from_interrupt: PathLocalInterruptId::MaxStep }]
    );
}

#[test]
fn border_interrupt_variants() {
    let w = PartialWorldData(WorldData::<4>::default());
    let blocked = w.with_interrupt_termination_triggered(true, RelativeDirection::Left, InterruptAction::StopIfBlocked);
    let v = blocked.expect("the border blocks");
    assert_eq!(v.0.map, w.0.map);
    assert_eq!(v.0.mouse, w.0.mouse);
    assert!(w
        .with_interrupt_termination_triggered(false, RelativeDirection::Left, InterruptAction::StopIfBlocked)
        .is_none());
    assert!(w
        .with_interrupt_termination_triggered(false, RelativeDirection::Left, InterruptAction::StopIfOpen)
        .is_some());
    assert!(w
        .with_interrupt_termination_triggered(true, RelativeDirection::Left, InterruptAction::StopIfOpen)
        .is_none());
    assert!(w
        .with_interrupt_termination_triggered(true, RelativeDirection::Left, InterruptAction::Continue)
        .is_none());
}

#[test]
fn max_substep_takes_the_latest_continuing_map() {
    let forward = MeasurementInterrupt {
        direction: RelativeDirection::Forward,
        at_step: InterruptStep::At(1),
        action: InterruptAction::StopIfBlocked,
    };
    let app = FilteredCommandApplication::<4>::new(None, cmd(MovementType::Move(3), vec![forward]));
    let s = app.max_substep_in_step(2).expect("reachable");
    assert_eq!(s.potential_termination, MaxSubstepTermination::Continuing);
    assert_eq!(s.world_at_substep.0.mouse, MouseTransform { pos: Position { x: 2, y: 0 }, dir: Direction::PosX });
    assert_eq!(
        s.world_at_substep.0.map.wall(&Position { x: 1, y: 0 }, &Direction::PosX),
        Some(&WallDiscoveryStatus::Exists(false))
    );
    let s3 = app.max_substep_in_step(3).expect("reachable");
    assert_eq!(
        s3.world_at_substep.0.map.wall(&Position { x: 1, y: 0 }, &Direction::PosX),
        Some(&WallDiscoveryStatus::Exists(false))
    );
}

#[test]
fn outcome_ids_hold_no_duplicates() {
    let forward = MeasurementInterrupt {
        direction: RelativeDirection::Forward,
        at_step: InterruptStep::Each,
        action: InterruptAction::StopIfBlocked,
    };
    let app = FilteredCommandApplication::<4>::new(None, cmd(MovementType::Move(2), vec![forward, forward]));
    let ids = app.potential_outcome_ids().potential_outcome_ids;
    for i in 0..ids.len() {
        for j in (i + 1)..ids.len() {
            assert_ne!(ids[i], ids[j]);
        }
    }
}

#[test]
fn the_default_map_is_the_new_map() {
    assert_eq!(MazeMap::<4>::default(), MazeMap::<4>::new());
    assert_eq!(MazeMap::<1>::default(), MazeMap::<1>::new());
}

#[test]
fn enumeration_survives_refining_the_map() {
    let forward = MeasurementInterrupt {
        direction: RelativeDirection::Forward,
        at_step: InterruptStep::Each,
        action: InterruptAction::StopIfBlocked,
    };
    let mut app =
        FilteredCommandApplication::<4>::try_new(None, cmd(MovementType::Move(2), vec![forward])).expect("enumerable");
    let before = app.potential_outcome_ids().potential_outcome_ids.len();
    let seen = Measurement {
        value: MeasurementValue::Value { cells: 1 },
        direction: Direction::PosX,
        position: Position { x: 0, y: 0 },
    };
    let update = app.apply_measurement_to_filter(seen).expect("consistent measurement");
    let after = app.potential_outcome_ids().potential_outcome_ids.len();
    assert!(after < before);
    assert!(update.rejections.is_some());
    assert!(update.discoveries.is_some());
}

#[test]
fn channel_mode_after_a_tick() {
    assert_eq!(mode_after_tick(1_500, 300, 1_000), WsChannelMode::Stabilize);
    assert_eq!(mode_after_tick(1_300, 300, 1_000), WsChannelMode::Stable);
    assert_eq!(mode_after_tick(0, 0, 0), WsChannelMode::Stable);
}

#[test]
fn positions_and_values_as_text() {
    assert_eq!(Position { x: 3, y: 12 }.to_text(), "(3, 12)");
    assert_eq!(MeasurementValue::Value { cells: 2 }.to_text(), "2|");
    assert_eq!(MeasurementValue::OutsideRange { at_least_cells: 40 }.to_text(), "40+");
}

#[test]
fn capsule_map_walls_off_the_known_area() {
    let mut map = MazeMap::<3>::new();
    *map.cell_mut(&Position { x: 0, y: 0 }).unwrap() = CellDiscoveryStatus::Visited;
    *map.cell_mut(&Position { x: 1, y: 0 }).unwrap() = CellDiscoveryStatus::Discovered;
    *map.wall_mut(&Position { x: 1, y: 1 }, &Direction::PosX).unwrap() = WallDiscoveryStatus::Exists(false);
    let capsule = as_capsule_map(&map);
    let wall = |x: u32, y: u32, d: Direction| *capsule.wall(&Position { x, y }, &d).unwrap();
    assert_eq!(wall(0, 0, Direction::PosX), WallDiscoveryStatus::Exists(true));
    assert_eq!(wall(1, 0, Direction::PosX), WallDiscoveryStatus::Exists(true));
    assert_eq!(wall(0, 0, Direction::PosY), WallDiscoveryStatus::Exists(true));
    assert_eq!(wall(1, 0, Direction::PosY), WallDiscoveryStatus::Exists(true));
    assert_eq!(wall(0, 1, Direction::PosX), WallDiscoveryStatus::Undiscovered);
    assert_eq!(wall(1, 1, Direction::PosX), WallDiscoveryStatus::Exists(false));
    assert_eq!(wall(2, 2, Direction::PosX), WallDiscoveryStatus::Exists(true));
    assert_eq!(*capsule.cell(&Position { x: 0, y: 0 }).unwrap(), CellDiscoveryStatus::Visited);
}

#[test]
fn every_outcome_holds_the_mouse_of_its_step() {
    let forward = MeasurementInterrupt {
        direction: RelativeDirection::Forward,
        at_step: InterruptStep::Each,
        action: InterruptAction::StopIfBlocked,
    };
    let command = cmd(MovementType::Move(3), vec![forward]);
    let app = FilteredCommandApplication::<4>::new(None, command.clone());
    let movement = TransformedMovement::new(command.ty, MouseTransform::default());
    let outcomes = app.potential_outcomes_given_filter().potential_outcomes;
    // Each of the four steps may be stopped; at the last one the border surely stops it.
    assert_eq!(outcomes.len(), 4);
    for (id, world) in outcomes.iter() {
        assert!(id.at_step <= app.step_with_termination());
        assert_eq!(Some(world.0.mouse), movement.at_step(id.at_step));
        match id.from_interrupt {
            PathLocalInterruptId::MaxStep => assert_eq!(id.at_step, 3),
            PathLocalInterruptId::InterruptAtIndex(i) => assert_eq!(i, 0),
        }
    }
}

#[test]
fn upgrading_the_filter_equals_enumerating_afresh() {
    let forward = MeasurementInterrupt {
        direction: RelativeDirection::Forward,
        at_step: InterruptStep::Each,
        action: InterruptAction::StopIfBlocked,
    };
    let command = cmd(MovementType::Move(2), vec![forward]);
    let mut app = FilteredCommandApplication::<4>::new(None, command.clone());
    let mut better = MazeMap::<4>::new();
    *better.wall_mut(&Position { x: 1, y: 0 }, &Direction::PosX).unwrap() = WallDiscoveryStatus::Exists(true);
    let rejected = app.upgrade_filter(better).expect("a refinement");
    let fresh = FilteredCommandApplication::<4>::new(
        Some(WorldData { map: better, mouse: MouseTransform::default() }),
        command,
    );
    assert_eq!(app.potential_outcome_ids().potential_outcome_ids, fresh.potential_outcome_ids().potential_outcome_ids);
    assert_eq!(app.step_with_termination(), 1);
    assert_eq!(fresh.step_with_termination(), 1);
    let a = app.potential_outcomes_given_filter().potential_outcomes;
    let b = fresh.potential_outcomes_given_filter().potential_outcomes;
    assert_eq!(a.len(), b.len());
    for k in 0..a.len() {
        assert_eq!(a[k].0, b[k].0);
        assert_eq!(a[k].1 .0.map, b[k].1 .0.map);
        assert_eq!(a[k].1 .0.mouse, b[k].1 .0.mouse);
    }
    // The regular end after two steps and the stop at step 2 are no longer possible.
    assert_eq!(
        rejected.rejected_outcome_ids,
        vec![
            PathLocalOutcomeId { at_step: 2, from_interrupt: PathLocalInterruptId::InterruptAtIndex(0) },
            PathLocalOutcomeId { at_step: 2, from_interrupt: PathLocalInterruptId::MaxStep },
        ]
    );
}

#[test]
fn stepping_an_execution_follows_the_movement() {
    let command = cmd(MovementType::Move(3), vec![]);
    let start = world(0, 1, Direction::PosX);
    let movement = TransformedMovement::new(command.ty, start.mouse);
    let mut exec = CommandExecution::new(start, command);
    for k in 1..=3usize {
        let r = exec.next();
        assert_eq!(r.num_of_finished_steps, k);
        exec = match r.is_continuing {
            EndState::Ongoing(e) => e,
            EndState::Finished(_) => panic!("goes on"),
        };
        assert_eq!(exec.next_step, k);
        assert_eq!(Some(exec.world.mouse), movement.at_step(k));
        assert_eq!(exec.world.map, start.map);
    }
    let r = exec.next();
    assert_eq!(r.num_of_finished_steps, 3);
    match r.is_continuing {
        EndState::Finished(w) => assert_eq!(Some(w.mouse), movement.at_step(3)),
        EndState::Ongoing(_) => panic!("the movement is done"),
    }
}

#[test]
fn command_application_records_the_steps_until_an_interrupt_must_stop() {
    let forward = MeasurementInterrupt {
        direction: RelativeDirection::Forward,
        at_step: InterruptStep::Each,
        action: InterruptAction::StopIfBlocked,
    };
    let open = CommandApplication::<4>::new(WorldData::<4>::default(), cmd(MovementType::Move(2), vec![forward]));
    assert_eq!(open.max_step(), 3);
    let mut blocked = WorldData::<4>::default();
    *blocked.map.wall_mut(&Position { x: 1, y: 0 }, &Direction::PosX).unwrap() = WallDiscoveryStatus::Exists(true);
    let stopped = CommandApplication::<4>::new(blocked, cmd(MovementType::Move(2), vec![forward]));
    assert_eq!(stopped.max_step(), 1);
    let turn = CommandApplication::<4>::new(WorldData::<4>::default(), cmd(MovementType::Turn(-1), vec![]));
    assert_eq!(turn.max_step(), 2);
}
