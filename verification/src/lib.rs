//! Robot exploration and harvesting simulation: map, robots, shared knowledge,
//! base storage, messages and a text rendering of the world.

pub mod base;
pub mod comms;
pub mod domain;
pub mod knowledge;
pub mod map;
pub mod robots;
pub mod sim;
pub mod ui;
