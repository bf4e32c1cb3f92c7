use vstd::prelude::*;

use crate::comm::micromouse_message::Command;
use crate::strategy::strategy::{ComputedAction, Strategy};

verus! {

impl<const N: usize, S: Strategy<N>> ComputedAction<N, S> {
    /// An action that is part of a batch: no strategy state follows it.
    pub fn new_compound_substep(do_command: Command) -> (r: Self)
        ensures
            r.next_strategy_state is None,
            r.after_command == do_command,
    {
        Self { next_strategy_state: None, after_command: do_command }
    }

    /// An action after which the strategy goes on in `state_after`.
    pub fn new_step(do_command: Command, state_after: S) -> (r: Self)
        ensures
            r.next_strategy_state == Some(state_after),
            r.after_command == do_command,
    {
        Self { next_strategy_state: Some(state_after), after_command: do_command }
    }
}

} // verus!
