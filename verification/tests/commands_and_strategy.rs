use micromouse::comm::micromouse_manager::{InternalMapUpdate, MicromouseEvent};
use micromouse::comm::micromouse_message::{
    Command, CommandId, InterruptAction, InterruptStep, MeasurementInterrupt, MovementType, TransformedCommand,
};
use micromouse::map::command_world_state::{
    CannotReachStep, CertainStepError, FilterMeasurementUpgradeError, FilterUpgradeError,
    FilteredCommandApplication, PathLocalInterruptId, PathLocalOutcomeId, UncertainStepError,
};
use micromouse::map::map::{MapInconsistencyError, MazeMap, WallDiscoveryStatus};
use micromouse::map::measurement::{Measurement, MeasurementValue};
use micromouse::map::world_data::{CommandExecution, EndState, PartialWorldData, WorldData};
use micromouse::nonempty::{NonEmptyVec, VecEmptyError};
use micromouse::strategy::strategies::follow_wall::{FollowWall, FollowWallConfig, WallDirection};
use micromouse::strategy::strategies::utils::depth_first_base::max_steps_in_direction;
use micromouse::strategy::strategies::utils::value_map::ValueMap;
use micromouse::strategy::strategy::{FromConfig, GoalPosition, Strategy, StrategyComputationResult, StrategyEndState};
use micromouse::strategy::strategy_tree::{AbsoluteLayerId, PruneError, RelativeNodeId, StrategyTreeLayer, StrategyTreeNode};
use micromouse::transform::direction::{Direction, RelativeDirection};
use micromouse::transform::position::{MouseTransform, Position};

fn pos(x: u32, y: u32) -> Position {
    Position { x, y }
}

fn stop_if_blocked_ahead(steps: u8) -> Command {
    Command {
        ty: MovementType::Move(steps),
        interrupts: vec![MeasurementInterrupt {
            direction: RelativeDirection::Forward,
            at_step: InterruptStep::Each,
            action: InterruptAction::StopIfBlocked,
        }],
    }
}

fn id(step: usize, from: PathLocalInterruptId) -> PathLocalOutcomeId {
    PathLocalOutcomeId { at_step: step, from_interrupt: from }
}

fn corridor() -> MazeMap<4> {
    let mut map = MazeMap::<4>::new();
    map.apply_measurement(&Measurement {
        position: pos(0, 0),
        direction: Direction::PosX,
        value: MeasurementValue::Value { cells: 2 },
    })
    .unwrap();
    map
}

#[test]
fn execution_moves_until_the_wall() {
    let world = WorldData { map: corridor(), mouse: MouseTransform::default() };
    let exec = CommandExecution::new(world, stop_if_blocked_ahead(3));
    let r = exec.next();
    assert_eq!(r.num_of_finished_steps, 1);
    assert_eq!(r.measurements.len(), 1);
    let exec = match r.is_continuing {
        EndState::Ongoing(e) => e,
        EndState::Finished(_) => panic!("should go on"),
    };
    assert_eq!(exec.world.mouse.pos, pos(1, 0));
    let r = exec.next();
    assert_eq!(r.num_of_finished_steps, 2);
    let exec = match r.is_continuing {
        EndState::Ongoing(e) => e,
        EndState::Finished(_) => panic!("should go on"),
    };
    let r = exec.next();
    assert_eq!(r.num_of_finished_steps, 2);
    assert_eq!(r.measurements.len(), 1);
    assert_eq!(r.measurements[0].value, MeasurementValue::Value { cells: 0 });
    match r.is_continuing {
        EndState::Finished(w) => assert_eq!(w.mouse.pos, pos(2, 0)),
        EndState::Ongoing(_) => panic!("the wall ahead stops the command"),
    }
}

#[test]
fn transformed_command_forks_on_unknown_walls() {
    let world = WorldData { map: MazeMap::<4>::new(), mouse: MouseTransform { pos: pos(1, 1), dir: Direction::PosX } };
    let results = TransformedCommand::new(stop_if_blocked_ahead(2), world).possible_results();
    // Each step measures the wall ahead of where the mouse stands then.
    assert_eq!(results.len(), 3);
    assert_eq!(results[0].1, 0);
    assert_eq!(results[0].0 .0.mouse.pos, pos(1, 1));
    assert_eq!(results[0].0 .0.map.wall(&pos(1, 1), &Direction::PosX), Some(&WallDiscoveryStatus::Exists(true)));
    assert_eq!(results[1].1, 1);
    assert_eq!(results[1].0 .0.mouse.pos, pos(2, 1));
    assert_eq!(results[1].0 .0.map.wall(&pos(1, 1), &Direction::PosX), Some(&WallDiscoveryStatus::Exists(false)));
    assert_eq!(results[1].0 .0.map.wall(&pos(2, 1), &Direction::PosX), Some(&WallDiscoveryStatus::Exists(true)));
    assert_eq!(results[2].1, 2);
    assert_eq!(results[2].0 .0.mouse, MouseTransform { pos: pos(3, 1), dir: Direction::PosX });
    assert_eq!(results[2].0 .0.map.wall(&pos(1, 1), &Direction::PosX), Some(&WallDiscoveryStatus::Exists(false)));
    assert_eq!(results[2].0 .0.map.wall(&pos(2, 1), &Direction::PosX), Some(&WallDiscoveryStatus::Exists(false)));
}

#[test]
fn transformed_command_result_holds_the_end_transform() {
    let cmd = Command { ty: MovementType::Move(2), interrupts: vec![] };
    let results = TransformedCommand::<4>::new(cmd, WorldData::<4>::default()).possible_results();
    assert_eq!(results.len(), 1);
    assert_eq!(results[0].1, 2);
    assert_eq!(results[0].0 .0.mouse, MouseTransform { pos: pos(2, 0), dir: Direction::PosX });
    assert_eq!(results[0].0 .0.map, MazeMap::<4>::new());
}

#[test]
fn transformed_command_stops_at_a_known_wall() {
    // The border to the left of the start is a wall: a turn that stops if blocked stops at once.
    let cmd = Command {
        ty: MovementType::Turn(2),
        interrupts: vec![MeasurementInterrupt {
            direction: RelativeDirection::Left,
            at_step: InterruptStep::At(0),
            action: InterruptAction::StopIfBlocked,
        }],
    };
    let results = TransformedCommand::<4>::new(cmd, WorldData::<4>::default()).possible_results();
    assert_eq!(results.len(), 1);
    assert_eq!(results[0].1, 0);
    assert_eq!(results[0].0 .0.mouse, MouseTransform { pos: pos(0, 0), dir: Direction::PosX });
}

#[test]
fn application_enumerates_outcomes() {
    let app = FilteredCommandApplication::<4>::new(None, stop_if_blocked_ahead(2));
    let ids = app.potential_outcome_ids().potential_outcome_ids;
    assert_eq!(
        ids,
        vec![
            id(0, PathLocalInterruptId::InterruptAtIndex(0)),
            id(1, PathLocalInterruptId::InterruptAtIndex(0)),
            id(2, PathLocalInterruptId::InterruptAtIndex(0)),
            id(2, PathLocalInterruptId::MaxStep),
        ]
    );
    // The outcomes with their worlds are exactly the outcome ids.
    let outcomes = app.potential_outcomes_given_filter().potential_outcomes;
    let keys: Vec<PathLocalOutcomeId> = outcomes.iter().map(|o| o.0).collect();
    assert_eq!(keys, ids);
    assert_eq!(app.step_with_termination(), 2);
    assert_eq!(app.command_unfiltered_max_step(), 2);
    assert_eq!(app.reach_step(3), Err(CannotReachStep(3)));
    assert_eq!(app.reach_step(2), Ok(()));
    assert_eq!(app.measurement_directions_at_step(1), Ok(vec![RelativeDirection::Forward]));
    assert_eq!(app.ordered_measurement_directions_at_step(1), Ok(vec![(0, RelativeDirection::Forward)]));
    assert!(app.at_start_certain_step(0).is_ok());
    assert_eq!(
        app.at_start_certain_step(1).err(),
        Some(CertainStepError::Uncertainty(UncertainStepError { tried_to_reach_step: 1, but_could_terminate_at: 0 }))
    );
    assert!(matches!(app.at_start_certain_step(5), Err(CertainStepError::CannotReachStep(CannotReachStep(5)))));
}

#[test]
fn upgrading_the_filter_rejects_outcomes() {
    let mut app = FilteredCommandApplication::<4>::new(None, stop_if_blocked_ahead(2));
    let mut upgraded = MazeMap::<4>::new();
    *upgraded.wall_mut(&pos(1, 0), &Direction::PosX).unwrap() = WallDiscoveryStatus::Exists(true);
    let rejected = app.upgrade_filter(upgraded).unwrap();
    assert_eq!(
        rejected.rejected_outcome_ids,
        vec![id(2, PathLocalInterruptId::InterruptAtIndex(0)), id(2, PathLocalInterruptId::MaxStep)]
    );
    assert_eq!(app.step_with_termination(), 1);
    // Going back to less knowledge is no upgrade.
    assert_eq!(app.upgrade_filter(MazeMap::new()).err(), Some(FilterUpgradeError));
}

#[test]
fn measurements_update_the_filter() {
    let mut app = FilteredCommandApplication::<4>::new(None, stop_if_blocked_ahead(2));
    let update = app
        .apply_measurement_to_filter(Measurement {
            position: pos(0, 0),
            direction: Direction::PosX,
            value: MeasurementValue::Value { cells: 1 },
        })
        .unwrap();
    assert!(update.discoveries.is_some());
    assert_eq!(
        update.rejections.unwrap().rejected_outcome_ids,
        vec![
            id(0, PathLocalInterruptId::InterruptAtIndex(0)),
            id(2, PathLocalInterruptId::InterruptAtIndex(0)),
            id(2, PathLocalInterruptId::MaxStep),
        ]
    );
    let bad = app.apply_measurement_to_filter(Measurement {
        position: pos(9, 9),
        direction: Direction::PosX,
        value: MeasurementValue::Value { cells: 0 },
    });
    assert!(matches!(
        bad,
        Err(FilterMeasurementUpgradeError::NotValidMeasurement(MapInconsistencyError::OutsideBounds { x: 9, y: 9 }))
    ));
}

#[test]
fn follow_wall_cycles_and_detects_loops() {
    let start = WorldData::<4>::default();
    let right = FollowWall::<4>::from_config(&FollowWallConfig { follow_wall: WallDirection::Right }, &start);
    let forward = right.command(0);
    assert_eq!(forward.ty, MovementType::Move(4));
    assert_eq!(forward.interrupts[1].direction, RelativeDirection::Right);
    assert_eq!(right.command(1).ty, MovementType::Turn(-1));
    assert_eq!(right.command(6), right.command(2));
    assert_eq!(right.command(3).interrupts.len(), 0);
    let left = FollowWall::<4>::from_config(&FollowWallConfig { follow_wall: WallDirection::Left }, &start);
    assert_eq!(left.command(1).ty, MovementType::Turn(1));
    assert_eq!(left.command(2).ty, MovementType::Turn(-2));
    assert_eq!(left.command(0).interrupts[1].direction, RelativeDirection::Left);
    assert_eq!(RelativeDirection::from(WallDirection::Left), RelativeDirection::Left);

    let world = PartialWorldData::<4>::default();
    let goal = GoalPosition(pos(3, 3));
    let mut state = right;
    for k in 0..4 {
        state = match state.next_cmd(&world, &goal) {
            StrategyComputationResult::Computed(Ok(actions)) => {
                assert_eq!(actions.0.len(), 1);
                let a = actions.0.into_iter().next().unwrap();
                assert_eq!(a.after_command, FollowWall::<4>::from_config(&FollowWallConfig { follow_wall: WallDirection::Right }, &start).command(k));
                a.next_strategy_state.unwrap()
            },
            _ => panic!("should compute a command"),
        };
    }
    // Back at the forward command in the same transform: a loop.
    assert!(matches!(
        state.next_cmd(&world, &goal),
        StrategyComputationResult::Computed(Err(StrategyEndState::NoPossibleAction(_)))
    ));
}

#[test]
fn straight_drive_length() {
    let map = MazeMap::<4>::new();
    let from = MouseTransform::default();
    assert_eq!(max_steps_in_direction(&map, from, GoalPosition(pos(3, 3))), 3);
    assert_eq!(max_steps_in_direction(&map, from, GoalPosition(pos(2, 0))), 2);
    assert_eq!(max_steps_in_direction(&corridor(), from, GoalPosition(pos(3, 3))), 2);
}

#[test]
fn value_map_reads_and_writes() {
    let mut values = ValueMap::<3, u32>::new(7);
    assert_eq!(values.value(pos(1, 1)), Some(&7));
    assert_eq!(values.value(pos(3, 0)), None);
    *values.value_mut(pos(2, 2)).unwrap() = 3;
    assert_eq!(values.value(pos(2, 2)), Some(&3));
    assert_eq!(values.value(pos(2, 1)), Some(&7));
    assert!(values.value_mut(pos(0, 9)).is_none());
}

#[test]
fn non_empty_vectors() {
    assert!(matches!(NonEmptyVec::<u8>::from_vec(vec![]), Err(VecEmptyError)));
    assert_eq!(NonEmptyVec::one(5u8).into_vec(), vec![5]);
    assert_eq!(NonEmptyVec::from_vec(vec![1u8, 2]).ok().unwrap().into_vec(), vec![1, 2]);
}

#[test]
fn strategy_tree_layer_nodes() {
    let mut layer = StrategyTreeLayer::<4, FollowWall<4>>::new(AbsoluteLayerId(3));
    let a = layer.add_node(StrategyTreeNode::new_orphan(PartialWorldData::default(), None));
    let b = layer.add_node(StrategyTreeNode::new_orphan(PartialWorldData::default(), None));
    assert_eq!((a, b), (RelativeNodeId(0), RelativeNodeId(1)));
    assert!(layer.node(b).is_some());
    assert!(layer.node(RelativeNodeId(2)).is_none());
    match layer.delete_node(RelativeNodeId(7)) {
        Err(PruneError::UnknownNode(n)) => {
            assert_eq!(*n.layer_id(), AbsoluteLayerId(3));
            assert_eq!(*n.node_id(), RelativeNodeId(7));
        },
        _ => panic!("unknown node"),
    }
    assert_eq!(layer.delete_node(a).ok().unwrap().len(), 0);
    assert!(layer.node(a).is_none());
    // Not expanded: no common command.
    assert!(layer.equal_command().is_none());
    assert!(!layer.update_eq_command());
    assert!(layer.node_mut(b).unwrap().children().is_none());
}

#[test]
fn map_update_events_in_order() {
    let events = InternalMapUpdate::new(Some(MouseTransform::default()), None, None).into_events();
    assert_eq!(events.len(), 1);
    assert!(matches!(events[0], MicromouseEvent::UpdatePosition(_)));
    assert_eq!(InternalMapUpdate::new(None, None, None).into_events().len(), 0);
    let _ = CommandId(1);
}
