//! Core logic of a micromouse backend: the maze map that measurements fill
//! in, the motion and command model of the mouse, the wire format of its
//! messages and the state machine that sends commands and handles the
//! answers, and the strategy tree that plans commands ahead of the mouse,
//! prunes them by what the mouse measures and hands over those that became
//! certain. Of the exploration strategies, the wall follower is here, with the
//! helpers (capsules, value maps) that strategies are built from.

pub mod transform;
pub mod comm;
pub mod command_world_state;
pub mod map;
pub mod nonempty;
pub mod strategy;
