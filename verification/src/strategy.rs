pub mod merge;
pub mod strategies;
pub mod strategy;
pub mod strategy_tree;
pub mod utils;
