use micromouse::map::map::MazeMap;
use micromouse::map::measurement::{Measurement, MeasurementValue};
use micromouse::transform::direction::Direction;
use micromouse::transform::position::Position;

#[test]
fn large_discovery_visual_test() {
    let mut map: MazeMap<8> = MazeMap::new();

    let measurements = vec![
        // Start at (0,0), open corridor to the right
        Measurement {
            position: Position { x: 0, y: 0 },
            direction: Direction::PosX,
            value: MeasurementValue::Value { cells: 5 },
        },
        // From (5,0), go down
        Measurement {
            position: Position { x: 5, y: 0 },
            direction: Direction::PosY,
            value: MeasurementValue::Value { cells: 4 },
        },
        // From (5,4), go left
        Measurement {
            position: Position { x: 5, y: 4 },
            direction: Direction::NegX,
            value: MeasurementValue::Value { cells: 3 },
        },
        // From (2,4), small dead-end downward
        Measurement {
            position: Position { x: 2, y: 4 },
            direction: Direction::PosY,
            value: MeasurementValue::Value { cells: 1 },
        },
        // From (2,5), dead end confirmed (no further cells)
        Measurement {
            position: Position { x: 2, y: 5 },
            direction: Direction::PosY,
            value: MeasurementValue::Value { cells: 0 },
        },
        // Some partial exploration elsewhere (unknown continues)
        Measurement {
            position: Position { x: 1, y: 1 },
            direction: Direction::PosY,
            value: MeasurementValue::OutsideRange { at_least_cells: 3 },
        },
        Measurement {
            position: Position { x: 3, y: 2 },
            direction: Direction::PosX,
            value: MeasurementValue::OutsideRange { at_least_cells: 2 },
        },
    ];

    for m in measurements {
        map.apply_measurement(&m).unwrap();
    }
    // Every measurement applies; the resulting map is meant to be looked at.
}

#[test]
fn smaller_discovery_visual_test() {
    let mut map = MazeMap::<8>::new();
    let measurements = [
        Measurement {
            position: Position { x: 0, y: 0 },
            direction: Direction::PosX,
            value: MeasurementValue::OutsideRange { at_least_cells: 3 },
        },
        Measurement {
            position: Position { x: 1, y: 0 },
            direction: Direction::PosX,
            value: MeasurementValue::OutsideRange { at_least_cells: 3 },
        },
        Measurement {
            position: Position { x: 2, y: 0 },
            direction: Direction::PosX,
            value: MeasurementValue::OutsideRange { at_least_cells: 3 },
        },
        Measurement {
            position: Position { x: 3, y: 0 },
            direction: Direction::PosX,
            value: MeasurementValue::Value { cells: 3 },
        },
        Measurement {
            position: Position { x: 3, y: 0 },
            direction: Direction::PosY,
            value: MeasurementValue::Value { cells: 2 },
        },
        Measurement {
            position: Position { x: 3, y: 1 },
            direction: Direction::PosY,
            value: MeasurementValue::Value { cells: 1 },
        },
        Measurement {
            position: Position { x: 3, y: 2 },
            direction: Direction::PosY,
            value: MeasurementValue::Value { cells: 0 },
        },
        Measurement {
            position: Position { x: 3, y: 2 },
            direction: Direction::NegX,
            value: MeasurementValue::Value { cells: 3 },
        },
        Measurement {
            position: Position { x: 2, y: 2 },
            direction: Direction::NegX,
            value: MeasurementValue::Value { cells: 2 },
        },
        Measurement {
            position: Position { x: 1, y: 2 },
            direction: Direction::NegX,
            value: MeasurementValue::Value { cells: 1 },
        },
        Measurement {
            position: Position { x: 1, y: 2 },
            direction: Direction::NegY,
            value: MeasurementValue::Value { cells: 1 },
        },
        Measurement {
            position: Position { x: 1, y: 1 },
            direction: Direction::NegY,
            value: MeasurementValue::Value { cells: 0 },
        },
        Measurement {
            position: Position { x: 1, y: 1 },
            direction: Direction::PosX,
            value: MeasurementValue::Value { cells: 2 },
        },
    ];

    for m in measurements {
        map.apply_measurement(&m).expect("Error while measuring");
    }
}
