use vstd::prelude::*;

verus! {

/// A breadth-first exploration strategy.
#[derive(Clone, Copy, Debug)]
pub struct BreadthFirst<const N: usize>;

/// Configuration of the breadth-first strategy (it has none).
#[derive(Clone, Copy, Debug, PartialEq, Eq, Structural)]
pub struct BreadthFirstConfig;

} // verus!
