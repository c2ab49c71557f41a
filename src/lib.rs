//! Two-player grid battle games between learning agents: board geometry,
//! the turn-by-turn game state machine, a weighted heuristic agent and the
//! helpers that fuse the models of agents trained side by side.

pub mod grid;
pub mod game;
pub mod ai_player;
pub mod training;
