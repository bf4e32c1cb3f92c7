pub mod capsule;
pub mod depth_first_base;
pub mod value_map;
