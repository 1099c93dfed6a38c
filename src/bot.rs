use vstd::prelude::*;

use crate::game_state::{GameState, Item};
use crate::player_move::PlayerMove;
use crate::point::Point;

verus! {

/// Where a simple bot heads from `pos`: through the items in order, it switches to an item that
/// is nearer than its current choice, or to any item while its choice is still `pos` itself.
pub open spec fn chase_target(pos: Point, items: Seq<Point>) -> Point
    decreases items.len(),
{
    if items.len() == 0 {
        pos
    } else {
        let g = chase_target(pos, items.drop_last());
        let it = items.last();
        if g == pos || it.dist2_spec(pos) < g.dist2_spec(pos) {
            it
        } else {
            g
        }
    }
}

/// The move of a bot playing the first player of `state`: head for the nearest item.
pub fn best_move(state: &GameState) -> (r: PlayerMove)
    requires
        state.players.len() > 0,
    ensures
        r.name@ == state.players@[0].name@,
        r.target == chase_target(
            state.players@[0].pos,
            state.items@.map_values(|it: Item| it.pos),
        ),
{
    let me = &state.players[0];
    let mut go_to = me.pos;
    let ghost positions = state.items@.map_values(|it: Item| it.pos);
    let mut i: usize = 0;
    while i < state.items.len()
        invariant
            i <= state.items.len(),
            me == &state.players@[0],
            positions == state.items@.map_values(|it: Item| it.pos),
            go_to == chase_target(me.pos, positions.take(i as int)),
        decreases state.items.len() - i,
    {
        let item = &state.items[i];
        assert(positions.take(i + 1).drop_last() =~= positions.take(i as int));
        if go_to == me.pos || item.pos.dist2(&me.pos) < go_to.dist2(&me.pos) {
            go_to = item.pos;
        }
        i = i + 1;
    }
    assert(positions.take(state.items.len() as int) =~= positions);
    PlayerMove { name: me.name.clone(), target: go_to }
}

} // verus!
