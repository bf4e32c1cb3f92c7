use micromouse::comm::micromouse_message::{
    InterruptAction, InterruptStep, MeasurementInterrupt, MovementType, TransformedMovement,
};
use micromouse::map::check::PotentiallyEq;
use micromouse::map::map::{
    CellDiscoveryStatus, MapInconsistencyError, MazeMap, PartialMap, WallDiscoveryStatus,
};
use micromouse::map::map_set_op::{Intersect, Union};
use micromouse::map::measurement::{Measurement, MeasurementValue};
use micromouse::map::upgrade::IsUpgradeable;
use micromouse::map::world_data::{PartialWorldData, WorldData};
use micromouse::transform::direction::{Direction, RelativeDirection};
use micromouse::transform::position::{MouseTransform, Position};

fn m(x: u32, y: u32, d: Direction, v: MeasurementValue) -> Measurement {
    Measurement { position: Position { x, y }, direction: d, value: v }
}

fn t(x: u32, y: u32, dir: Direction) -> MouseTransform {
    MouseTransform { pos: Position { x, y }, dir }
}

#[test]
fn rotations_compose_and_cycle() {
    assert_eq!(Direction::PosX.rotated(1), Direction::NegY);
    assert_eq!(Direction::PosX.rotated(1).rotated(1), Direction::PosX.rotated(2));
    assert_eq!(Direction::PosX.rotated(2), Direction::NegX);
    assert_eq!(Direction::PosX.rotated(4), Direction::PosX);
    assert_eq!(Direction::PosX.rotated(-1), Direction::PosY);
    assert_eq!(Direction::NegY.rotated(3).rotated(-3), Direction::NegY);
}

#[test]
fn left_and_right_cancel() {
    for d in [Direction::PosX, Direction::PosY, Direction::NegX, Direction::NegY] {
        let left = RelativeDirection::Left.transform_by(&d);
        assert_eq!(RelativeDirection::Right.transform_by(&left), d);
        assert_eq!(RelativeDirection::Forward.transform_by(&d), d);
    }
    assert_eq!(RelativeDirection::Left.transform_by(&Direction::PosX), Direction::NegY);
    assert_eq!(RelativeDirection::Right.transform_by(&Direction::PosX), Direction::PosY);
}

#[test]
fn moves_compose_and_stop_at_the_quadrant() {
    let start = t(2, 3, Direction::PosX);
    assert_eq!(start.moved(2), Some(t(4, 3, Direction::PosX)));
    assert_eq!(start.moved(1).unwrap().moved(1), start.moved(2));
    assert_eq!(t(1, 0, Direction::NegX).moved(2), None);
    assert_eq!(t(1, 0, Direction::NegX).moved(1), Some(t(0, 0, Direction::NegX)));
}

#[test]
fn stepping_follows_the_movement() {
    let start = t(0, 0, Direction::PosY);
    let movement = TransformedMovement::new(MovementType::Move(3), start);
    for n in 0..3 {
        let here = movement.at_step(n).unwrap();
        assert_eq!(here.step_once(MovementType::Move(3)), movement.at_step(n + 1));
    }
    assert_eq!(movement.at_step(3), Some(t(0, 3, Direction::PosY)));
    assert_eq!(movement.at_step(4), None);

    let turn = TransformedMovement::new(MovementType::Turn(-2), t(1, 1, Direction::PosX));
    assert_eq!(turn.at_step(1), Some(t(1, 1, Direction::PosY)));
    assert_eq!(turn.at_step(2), Some(t(1, 1, Direction::NegX)));
    assert_eq!(turn.at_step(1).unwrap().step_once(MovementType::Turn(-2)), turn.at_step(2));
    assert_eq!(turn.max_step_count(), 2);
}

#[test]
fn measurement_marks_cells_and_walls() {
    let mut map = MazeMap::<4>::new();
    let before = map;
    let r = map.apply_measurement(&m(0, 0, Direction::PosX, MeasurementValue::Value { cells: 2 }));
    let d = r.unwrap();
    assert_eq!(map.cell(&Position { x: 0, y: 0 }), Some(&CellDiscoveryStatus::Visited));
    assert_eq!(map.cell(&Position { x: 1, y: 0 }), Some(&CellDiscoveryStatus::Discovered));
    assert_eq!(map.cell(&Position { x: 2, y: 0 }), Some(&CellDiscoveryStatus::Discovered));
    assert_eq!(map.cell(&Position { x: 3, y: 0 }), Some(&CellDiscoveryStatus::Undiscovered));
    assert_eq!(map.wall(&Position { x: 0, y: 0 }, &Direction::PosX), Some(&WallDiscoveryStatus::Exists(false)));
    assert_eq!(map.wall(&Position { x: 1, y: 0 }, &Direction::PosX), Some(&WallDiscoveryStatus::Exists(false)));
    assert_eq!(map.wall(&Position { x: 2, y: 0 }, &Direction::PosX), Some(&WallDiscoveryStatus::Exists(true)));
    assert_eq!(d.cell_discoveries.len(), 3);
    assert_eq!(d.wall_discoveries.len(), 3);
    // Measuring only adds information.
    assert!(map.could_be_upgrade_of(&before));
    assert!(!before.could_be_upgrade_of(&map));
}

#[test]
fn measurement_outside_the_map_is_refused() {
    let mut map = MazeMap::<4>::new();
    let before = map;
    match map.apply_measurement(&m(5, 5, Direction::PosX, MeasurementValue::Value { cells: 0 })) {
        Err(MapInconsistencyError::OutsideBounds { x, y }) => assert_eq!((x, y), (5, 5)),
        other => panic!("unexpected {other:?}"),
    }
    assert_eq!(map, before);
    match map.apply_measurement(&m(0, 0, Direction::PosX, MeasurementValue::Value { cells: 5 })) {
        Err(MapInconsistencyError::OutsideBounds { x, y }) => assert_eq!((x, y), (4, 0)),
        other => panic!("unexpected {other:?}"),
    }
}

#[test]
fn contradicting_measurement_is_reported() {
    let mut map = MazeMap::<4>::new();
    map.apply_measurement(&m(0, 0, Direction::PosX, MeasurementValue::Value { cells: 1 })).unwrap();
    let second = m(0, 0, Direction::PosX, MeasurementValue::Value { cells: 3 });
    match map.apply_measurement(&second) {
        Err(MapInconsistencyError::Conflicting(mm, positions)) => {
            assert_eq!(mm, second);
            assert_eq!(positions, vec![Position { x: 1, y: 0 }]);
        },
        other => panic!("unexpected {other:?}"),
    }
}

#[test]
fn union_and_intersection_of_maps() {
    let mut a = MazeMap::<4>::new();
    a.apply_measurement(&m(0, 0, Direction::PosX, MeasurementValue::Value { cells: 1 })).unwrap();
    let mut b = MazeMap::<4>::new();
    b.apply_measurement(&m(0, 0, Direction::PosY, MeasurementValue::Value { cells: 2 })).unwrap();
    let u = a.union(&b).unwrap();
    assert!(u.could_be_upgrade_of(&a));
    assert!(u.could_be_upgrade_of(&b));
    assert_eq!(a.union(&a), Some(a));
    let i = a.intersect(&b);
    assert!(a.could_be_upgrade_of(&i));
    assert!(b.could_be_upgrade_of(&i));

    let mut c = MazeMap::<4>::new();
    c.apply_measurement(&m(0, 0, Direction::PosX, MeasurementValue::Value { cells: 0 })).unwrap();
    // `a` says the wall right of (0, 0) is open, `c` that it exists.
    assert_eq!(a.union(&c), None);
    assert!(!a.potentially_eq(&PartialMap(c)));
    assert!(a.potentially_eq(&PartialMap(b)));
}

#[test]
fn simulated_sensor_reads_the_map() {
    let mut world = WorldData::<4>::default();
    world.apply_measurement(&m(0, 0, Direction::PosX, MeasurementValue::Value { cells: 2 })).unwrap();
    let ahead = world.measure(RelativeDirection::Forward, 4);
    assert_eq!(ahead.value, MeasurementValue::Value { cells: 2 });
    assert_eq!(ahead.direction, Direction::PosX);
    assert_eq!(ahead.position, Position { x: 0, y: 0 });
    assert_eq!(world.measure(RelativeDirection::Forward, 1).value, MeasurementValue::OutsideRange { at_least_cells: 1 });
    assert_eq!(world.measure(RelativeDirection::Left, 4).value, MeasurementValue::Value { cells: 0 });
    assert_eq!(world.measure(RelativeDirection::Right, 4).value, MeasurementValue::OutsideRange { at_least_cells: 0 });
    assert_eq!(*world.measure_one(RelativeDirection::Left), WallDiscoveryStatus::Exists(true));
    assert_eq!(*world.measure_one(RelativeDirection::Forward), WallDiscoveryStatus::Exists(false));
    let blocked_left = MeasurementInterrupt {
        direction: RelativeDirection::Left,
        at_step: InterruptStep::Each,
        action: InterruptAction::StopIfBlocked,
    };
    assert!(world.is_interrupt_triggered(blocked_left, 0));
    let at_three = MeasurementInterrupt { at_step: InterruptStep::At(3), ..blocked_left };
    assert!(!world.is_interrupt_triggered(at_three, 0));
}

#[test]
fn forcing_an_interrupt_decides_the_wall() {
    let world = PartialWorldData::<4>(WorldData { map: MazeMap::new(), mouse: t(1, 1, Direction::PosX) });
    let stop = MeasurementInterrupt {
        direction: RelativeDirection::Forward,
        at_step: InterruptStep::Each,
        action: InterruptAction::StopIfBlocked,
    };
    let triggered = world.with_interrupt_termination_triggered(true, stop.direction, stop.action).unwrap();
    assert_eq!(triggered.0.map.wall(&Position { x: 1, y: 1 }, &Direction::PosX), Some(&WallDiscoveryStatus::Exists(true)));
    assert!(triggered.0.is_interrupt_triggered(stop, 0));
    let passing = world.with_interrupt_termination_triggered(false, stop.direction, stop.action).unwrap();
    assert_eq!(passing.0.map.wall(&Position { x: 1, y: 1 }, &Direction::PosX), Some(&WallDiscoveryStatus::Exists(false)));
    assert!(!passing.0.is_interrupt_triggered(stop, 0));
    // Once decided, the other outcome cannot be had.
    assert!(passing.with_interrupt_termination_triggered(true, stop.direction, stop.action).is_none());
    // A `Continue` interrupt never stops the command.
    assert!(world.with_interrupt_termination_triggered(true, RelativeDirection::Forward, InterruptAction::Continue).is_none());
    // The outer border on a negative side is a wall, though the map does not store it.
    let corner = PartialWorldData::<4>(WorldData { map: MazeMap::new(), mouse: t(0, 0, Direction::PosX) });
    let kept = corner.with_interrupt_termination_triggered(false, RelativeDirection::Left, InterruptAction::StopIfOpen).unwrap();
    assert_eq!(kept.0.map, corner.0.map);
    assert!(corner.with_interrupt_termination_triggered(true, RelativeDirection::Left, InterruptAction::StopIfOpen).is_none());
}
