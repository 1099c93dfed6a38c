//! Engine, wire codec and leaderboard of a small real-time arena game.
pub mod bot;
pub mod codec;
pub mod consts;
pub mod engine;
pub mod field;
pub mod game_state;
pub mod ordering;
pub mod player_move;
pub mod point;
mod random;
pub mod ranking;
pub mod session;
pub mod text;
pub mod top_results;
