use vstd::prelude::*;

use crate::comm::micromouse_manager::MicromouseEvent;
use crate::map::map::{CellDiscovery, WallDiscovery};
use crate::strategy::strategy_tree::StrategyTreeError;

verus! {

/// The cells and walls whose known state changed, as reported to the frontend.
#[derive(Clone, Debug)]
pub struct DiscoveryMessage {
    pub cell_discoveries: Vec<CellDiscovery>,
    pub wall_discoveries: Vec<WallDiscovery>,
}

impl DiscoveryMessage {
    /// Nothing was discovered.
    pub fn is_empty(&self) -> (r: bool)
        ensures
            r == (self.cell_discoveries@.len() == 0 && self.wall_discoveries@.len() == 0),
    {
        self.cell_discoveries.len() == 0 && self.wall_discoveries.len() == 0
    }
}

/// A message to the frontend.
#[derive(Debug)]
pub enum FrontendMessage {
    MicromouseEvent(MicromouseEvent),
    StrategyTreeError(StrategyTreeError),
    Debug(String),
}

/// Messages to the frontend sent together, in order.
pub struct BatchedFrontendMessage(pub Vec<FrontendMessage>);

} // verus!
