use vstd::prelude::*;

use crate::comm::micromouse_message::Command;
use crate::map::map::PartialMap;
use crate::map::world_data::{PartialWorldData, WorldData};
use crate::transform::position::Position;

verus! {

/// Why a strategy has no next action.
#[derive(Clone, Debug)]
pub enum StrategyEndState {
    NoPossibleAction(String),
    ReachedGoal,
}

/// What a strategy computed for a world.
pub enum StrategyComputationResult<const N: usize, S: Strategy<N>> {
    /// The world does not yet hold what the strategy needs to decide.
    NotEnoughInformation,
    Computed(Result<ComputedActions<N, S>, StrategyEndState>),
}

/// The actions a strategy computed, in the order they are to be performed; never empty.
pub struct ComputedActions<const N: usize, S: Strategy<N>>(pub Vec<ComputedAction<N, S>>);

/// An action computed from a world, with the strategy state after it.
pub struct ComputedAction<const N: usize, S: Strategy<N>> {
    /// `None` if this action is not meant to compute a next step from (part of a batch).
    pub next_strategy_state: Option<S>,
    pub after_command: Command,
}

/// The cell the mouse is to reach.
#[derive(Clone, Copy, Debug, PartialEq, Eq, Structural)]
pub struct GoalPosition(pub Position);

/// A strategy made from its configuration and the world it starts in.
pub trait FromConfig<const N: usize> {
    type Config: std::fmt::Debug;

    fn from_config(config: &Self::Config, starting_state: &WorldData<N>) -> Self where Self: Sized;
}

/// Decides on the next commands towards a goal.
pub trait Strategy<const N: usize>: FromConfig<N> + Sized {
    fn next_cmd(&self, world: &PartialWorldData<N>, goal: &GoalPosition) -> StrategyComputationResult<N, Self>;

    /// Called on states that are not expanded yet when the map changes; a strategy may use it to
    /// become expandable before the step finishes.
    fn map_update(&self, world: &PartialMap<N>) {
    }
}

/// A strategy that can describe its state as text.
pub trait SerializeInformationView<const N: usize>: Strategy<N> {
    fn format_information_msg(&self) -> String;
}

} // verus!
