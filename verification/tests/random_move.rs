use std::collections::{HashMap, HashSet};

use rand::Rng;

use micromouse::comm::micromouse_message::{
    Command, InterruptAction, InterruptStep, MeasurementInterrupt, MovementType, TransformedMovement,
};
use micromouse::map::map::{CellDiscoveryStatus, MazeMap, WallDiscoveryStatus};
use micromouse::map::world_data::{CommandExecution, EndState, PartialWorldData, WorldData};
use micromouse::transform::direction::{Direction, DirectionNormalizedVector, RelativeDirection};
use micromouse::transform::position::{MouseTransform, Position, PositionOffset};

const TEST_MAP_SIZE: usize = 12;

fn test_world(loopiness: f32) -> WorldData<TEST_MAP_SIZE> {
    let map = test_map(loopiness);
    let mouse = MouseTransform::default();
    WorldData { map, mouse }
}

/// A random maze: every cell starts walled in and walls are knocked down between groups of
/// connected cells until all are connected; `loopiness` keeps some walls inside a group open.
fn test_map(loopiness: f32) -> MazeMap<TEST_MAP_SIZE> {
    let loopiness = loopiness.clamp(0.0, 1.0);
    let mut map = MazeMap::new();

    // [row][col] = [y][x]
    let mut groups = Vec::<Vec<usize>>::new();
    let mut possible_connections = HashMap::<Position, HashSet<Direction>>::new();

    for y in 0..TEST_MAP_SIZE {
        let mut row_group = Vec::with_capacity(TEST_MAP_SIZE);
        for x in 0..TEST_MAP_SIZE {
            let pos = Position { x: x as u32, y: y as u32 };
            *map.wall_mut(&pos, &Direction::PosX).expect("should exist") = WallDiscoveryStatus::Exists(true);
            *map.wall_mut(&pos, &Direction::PosY).expect("should exist") = WallDiscoveryStatus::Exists(true);
            *map.cell_mut(&pos).expect("should exist") = CellDiscoveryStatus::Discovered;
            row_group.push(x + y * TEST_MAP_SIZE);
            let mut connection_partners = HashSet::new();
            if x + 1 < TEST_MAP_SIZE {
                connection_partners.insert(Direction::PosX);
            }
            if y + 1 < TEST_MAP_SIZE {
                connection_partners.insert(Direction::PosY);
            }
            if !connection_partners.is_empty() {
                possible_connections.insert(pos, connection_partners);
            }
        }
        groups.push(row_group);
    }

    let mut rand = rand::thread_rng();
    while !possible_connections.is_empty() {
        let num_of_conn_sources = possible_connections.len();
        let rand_key = {
            let mut keys = possible_connections.keys();
            keys.nth(rand.gen_range(0..num_of_conn_sources)).expect("should exist").clone()
        };
        let conn_dir = {
            let conn_options = possible_connections.get_mut(&rand_key).expect("should exist");
            let conn_dir = conn_options
                .iter()
                .nth(rand.gen_range(0..conn_options.len()))
                .expect("should exist")
                .clone();
            conn_options.remove(&conn_dir);
            if conn_options.is_empty() {
                possible_connections.remove(&rand_key);
            }
            conn_dir
        };

        let wall = map.wall_mut(&rand_key, &conn_dir).expect("should exist");
        *wall = WallDiscoveryStatus::Exists(false);

        let source_group = groups[rand_key.y as usize][rand_key.x as usize];
        let other_pos = (rand_key + PositionOffset::from(DirectionNormalizedVector::from(conn_dir)))
            .expect("should be within bounds");
        let other_group = groups[other_pos.y as usize][other_pos.x as usize];

        for x in 0..TEST_MAP_SIZE {
            for y in 0..TEST_MAP_SIZE {
                if groups[y][x] == other_group {
                    groups[y][x] = source_group;
                }
            }
        }

        for x in 0..TEST_MAP_SIZE {
            for y in 0..TEST_MAP_SIZE {
                if groups[y][x] == source_group {
                    let pos = Position { x: x as u32, y: y as u32 };
                    if let Some(possible_conn_partners) = possible_connections.get_mut(&pos) {
                        for d in possible_conn_partners.clone() {
                            if let Some(other_pos) = pos + PositionOffset::from(DirectionNormalizedVector::from(d)) {
                                if groups[other_pos.y as usize][other_pos.x as usize] == source_group {
                                    // A loop within a group: no longer a connection partner,
                                    // unless loopiness keeps it.
                                    if rand::random::<f32>() >= loopiness {
                                        possible_conn_partners.remove(&d);
                                    }
                                }
                            }
                        }
                        if possible_conn_partners.is_empty() {
                            possible_connections.remove(&pos);
                        }
                    }
                }
            }
        }
    }

    map
}

#[test]
pub fn do_random_moves() {
    let mut world = test_world(0.6);
    let mut partial_world = PartialWorldData::<TEST_MAP_SIZE>::default();

    let commands = [
        Command {
            // Go forwards until you encounter a blockade or an opening on the right
            ty: MovementType::Move(TEST_MAP_SIZE as u8),
            interrupts: vec![
                MeasurementInterrupt {
                    direction: RelativeDirection::Forward,
                    at_step: InterruptStep::Each,
                    action: InterruptAction::StopIfBlocked,
                },
                MeasurementInterrupt {
                    direction: RelativeDirection::Right,
                    at_step: InterruptStep::Each,
                    action: InterruptAction::StopIfOpen,
                },
            ],
        },
        Command {
            ty: MovementType::Turn(-1),
            interrupts: vec![MeasurementInterrupt {
                direction: RelativeDirection::Right,
                at_step: InterruptStep::At(0),
                action: InterruptAction::StopIfBlocked,
            }],
        },
        Command {
            ty: MovementType::Turn(2),
            interrupts: vec![MeasurementInterrupt {
                direction: RelativeDirection::Forward,
                at_step: InterruptStep::Each,
                action: InterruptAction::StopIfOpen,
            }],
        },
        // Escape from turning point
        Command { ty: MovementType::Move(1), interrupts: vec![] },
    ];

    let mut cmd_iter = commands.into_iter().cycle();
    let mut transf_move;
    for _ in 0..500 {
        let next_cmd = cmd_iter.next().clone().expect("Iterator is cycling");
        let cmd_ty = next_cmd.ty;
        transf_move = TransformedMovement::new(cmd_ty, partial_world.0.mouse);

        let mut command_executor = CommandExecution::new(world, next_cmd);
        let mut last_step = 0;

        loop {
            let res = command_executor.next();
            let is_continuing = res.is_continuing;
            let steps_done = res.num_of_finished_steps;
            let measurements = res.measurements;
            match is_continuing {
                EndState::Ongoing(e) => {
                    if last_step + 1 == steps_done {
                        if let MovementType::Move(_) = cmd_ty {
                            let direction = partial_world.0.mouse.dir;
                            let from_cell = partial_world.0.mouse.pos;
                            if let Some(boundary) = partial_world.0.map.wall_mut(&from_cell, &direction) {
                                *boundary = WallDiscoveryStatus::Visited;
                            }
                        }
                    }
                    last_step = steps_done;

                    partial_world.0.mouse = transf_move.at_step(steps_done).expect("Overexceeded move steps");
                    command_executor = e;
                    for m in measurements {
                        let _discoveries = partial_world.0.apply_measurement(&m);
                    }
                }
                EndState::Finished(w) => {
                    world = w;
                    for m in measurements {
                        let _discoveries = partial_world.0.apply_measurement(&m);
                    }
                    break;
                }
            }
        }
    }
}

#[test]
fn test_gen() {
    let _rand_map = test_map(0.3);
}
