use vstd::prelude::*;

verus! {

/// Largest acceleration a player can apply in one turn.
pub const MAX_ACC: u16 = 20;
/// Largest speed of a player.
pub const MAX_SPEED: u16 = 100;
/// Number of items on a field that holds at most `START_MAX_PLAYERS` players.
pub const MAX_ITEMS: usize = 10;
/// Smallest item radius (inclusive).
pub const MIN_ITEM_R: i32 = 20;
/// Largest item radius (exclusive).
pub const MAX_ITEM_R: i32 = 100;
/// Radius of every player.
pub const PLAYER_RADIUS: i32 = 20;

pub const START_WIDTH: i32 = 2000;
pub const START_HEIGHT: i32 = 1500;
/// Above this many players the field grows.
pub const START_MAX_PLAYERS: usize = 5;

pub const MAX_TURNS: usize = 600;
/// Wall-clock time between two turns, in milliseconds.
pub const TURN_WAIT_MILLIS: u64 = 500;

pub const MAX_LOGIN_LEN: usize = 20;
pub const MAX_PASSWORD_LEN: usize = 100;

/// A commanded target with a coordinate of larger magnitude is divided by ten.
pub const MAX_TARGET_COORD: i32 = 429496729;
/// Most players one game can hold, so that the field size fits an `i32`.
pub const MAX_PLAYERS: usize = 1000000;
/// Bound on the field's width and height.
pub const MAX_FIELD_SIZE: i32 = 1000000;

} // verus!
