use vstd::prelude::*;

use crate::comm::micromouse_message::Command;
use crate::map::command_world_state::LazyFilteredCommandApplication;

verus! {

/// A command common to two others, with what remains of each.
pub struct MergeResult {
    pub common: Command,
    /// What is left of the first command after the common part, if anything.
    pub rest_a: Option<Command>,
    /// What is left of the second command after the common part, if anything.
    pub rest_b: Option<Command>,
}

/// Finds one command that, in the respective worlds, has exactly the outcomes of two others.
pub trait MergeStrategy {
    fn merge<const N: usize>(
        &self,
        a: &LazyFilteredCommandApplication<N>,
        b: &LazyFilteredCommandApplication<N>,
    ) -> Option<Command>;
}

} // verus!
