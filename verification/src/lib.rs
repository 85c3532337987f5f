//! A multiplayer snake game: board rules, rooms of players and the room manager.
pub mod types;
pub mod rules;
mod rng;
pub mod ranking;
pub mod room;
pub mod manager;
pub mod palette;
pub mod controls;
pub mod laws;
