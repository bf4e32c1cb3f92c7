pub mod check;
pub mod command_laws;
pub mod command_world_state;
pub mod map;
pub mod map_set_op;
pub mod measurement;
pub mod upgrade;
pub mod world_data;
pub mod laws;
