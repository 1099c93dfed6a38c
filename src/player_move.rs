use vstd::prelude::*;

use crate::point::Point;

verus! {

/// A player's command: steer towards `target`.
#[derive(Debug)]
pub struct PlayerMove {
    pub name: String,
    pub target: Point,
}

} // verus!
