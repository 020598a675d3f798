//! Deterministic simulation core of a robot-arm conveyor factory game.
pub mod cells;
pub mod grid;
pub mod pathfind;
pub mod sim;
pub mod belt;
pub mod logistics;
pub mod game_state;
pub mod protocol;
pub mod delta;
pub mod session;
pub mod config;
pub mod gait;
pub mod events;
pub mod production;
