pub mod direction;
pub mod position;
pub mod laws;
