pub mod breadth_first;
pub mod flood_fill;
pub mod follow_wall;
pub mod utils;
