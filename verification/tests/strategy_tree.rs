use micromouse::map::map::{MazeMap, PartialMap, WallDiscoveryStatus};
use micromouse::map::command_world_state::RejectedOutcomes;
use micromouse::map::world_data::WorldData;
use micromouse::strategy::strategies::follow_wall::{FollowWall, FollowWallConfig, WallDirection};
use micromouse::strategy::strategy::{FromConfig, GoalPosition};
use micromouse::strategy::strategy_tree::{
    FinishRootError, SentUnfinishedCommands, StrategyStart, StrategyTree, StrategyTreeConfig, StrategyTreeError,
};
use micromouse::transform::position::Position;

fn config() -> StrategyTreeConfig<4, FollowWall<4>> {
    StrategyTreeConfig { strategy_config: FollowWallConfig { follow_wall: WallDirection::Right }, desired_depth: 3, max_nodes: 200 }
}

fn goal() -> GoalPosition {
    GoalPosition(Position { x: 3, y: 3 })
}

fn fresh_tree() -> StrategyTree<4, FollowWall<4>> {
    match StrategyTree::new(StrategyStart::DirectlyAtState(WorldData::<4>::default()), config(), goal()) {
        Ok(s) => {
            let first = FollowWall::<4>::from_config(&config().strategy_config, &WorldData::<4>::default()).command(0);
            assert_eq!(s.origin_command, Some(first));
            s.tree
        },
        Err(e) => panic!("tree creation failed: {:?}", e),
    }
}

#[test]
fn a_tree_created_at_a_state_sends_its_root_command() {
    let _ = fresh_tree();
}

#[test]
fn a_conflicting_map_update_is_refused() {
    let mut tree = fresh_tree();
    let mut map = MazeMap::<4>::new();
    *map.wall_mut(&Position { x: 3, y: 0 }, &micromouse::transform::direction::Direction::PosX).unwrap() =
        WallDiscoveryStatus::Exists(false);
    assert!(matches!(tree.handle_map_update(&PartialMap(map)), Err(StrategyTreeError::MapConflictsWithMapUpdate)));
}

#[test]
fn a_map_update_sends_the_commands_that_became_certain() {
    let mut tree = fresh_tree();
    let cmds = tree.handle_map_update(&PartialMap(MazeMap::<4>::new())).expect("no conflict");
    // The wall follower's turn after the drive is the same in every outcome, and the layer
    // after it is full.
    let follow = FollowWall::<4>::from_config(&config().strategy_config, &WorldData::<4>::default());
    assert_eq!(cmds, vec![follow.command(1)]);
    // Nothing new is certain a second time.
    assert_eq!(tree.handle_map_update(&PartialMap(MazeMap::<4>::new())).expect("no conflict"), vec![]);
    assert_eq!(tree.handle_cmd_rejection(&RejectedOutcomes { rejected_outcome_ids: vec![] }).expect("nothing to prune"), vec![]);
}

#[test]
fn the_root_with_several_outcomes_cannot_be_finished() {
    let mut tree = fresh_tree();
    let _ = tree.handle_map_update(&PartialMap(MazeMap::<4>::new())).expect("no conflict");
    assert!(matches!(tree.finish_root(), Err(FinishRootError::MultipleSuccessors(_))));
}

#[test]
fn closing_leaves_the_sent_layers_to_graft_on() {
    let mut tree = fresh_tree();
    let _ = tree.handle_map_update(&PartialMap(MazeMap::<4>::new())).expect("no conflict");
    match tree.close() {
        SentUnfinishedCommands::HasQueue { layers } => {
            assert_eq!(layers.len(), 3);
            let again = StrategyTree::new(
                StrategyStart::ContinueAfterDoing { after_cmds: SentUnfinishedCommands::HasQueue { layers }, reset_world: false },
                config(),
                goal(),
            );
            match again {
                Ok(s) => assert!(s.origin_command.is_none()),
                Err(e) => panic!("grafting failed: {:?}", e),
            }
        },
        SentUnfinishedCommands::HasBlockingRoot { .. } => panic!("the root is not blocking"),
    }
}
