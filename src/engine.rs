use vstd::prelude::*;

use crate::consts::{MAX_ITEMS, MAX_PLAYERS, MAX_TURNS, START_HEIGHT, START_WIDTH};
use crate::field::{field_height, field_width, item_target, lemma_field_monotone};
use crate::game_state::{
    applies_move, fresh_item, has_named, in_field, is_first_named, is_shuffle, items_disjoint,
    player_views, tamed_target, turn_outcome, with_target, GameResults, GameState,
    NextTurn,
};
use crate::ordering::{is_descending, sorted_by_score};
use crate::player_move::PlayerMove;

verus! {

/// The most one turn can add to a score: the most items a field can hold.
pub const MAX_GAIN_PER_TURN: i64 = 2000000;

/// A game in progress as the engine runs it: started by `new`, changed only by commands and
/// turns, so it always satisfies the state invariant and its scores cannot overflow.
pub struct Game {
    state: GameState,
}

/// What a turn of a `Game` produces.
pub enum Tick {
    Running(Game),
    Finished(GameResults),
}

impl Game {
    #[verifier::type_invariant]
    spec fn inv(self) -> bool {
        &&& self.state.wf()
        &&& self.state.max_turns == MAX_TURNS
        &&& forall|i: int|
            0 <= i < self.state.players.len() ==> 0 <= #[trigger] self.state.players@[i].score
                <= self.state.turn * MAX_GAIN_PER_TURN
    }

    pub closed spec fn current(self) -> GameState {
        self.state
    }

    /// A new game, as `GameState::new` makes it.
    pub fn new(game_id: &str) -> (g: Game)
        ensures
            g.current().turn == 0,
            g.current().max_turns == MAX_TURNS,
            g.current().players.len() == 0,
            g.current().game_id@ == game_id@,
            g.current().width == START_WIDTH,
            g.current().height == START_HEIGHT,
            g.current().items.len() == MAX_ITEMS,
            items_disjoint(g.current().items@),
            forall|i: int|
                0 <= i < g.current().items.len() ==> fresh_item(
                    #[trigger] g.current().items@[i],
                    START_WIDTH as int,
                    START_HEIGHT as int,
                ),
    {
        Game { state: GameState::new(game_id) }
    }

    /// An empty game, held by `apply_move` while it works on the real one.
    fn placeholder() -> (g: Game) {
        let state = GameState {
            width: START_WIDTH,
            height: START_HEIGHT,
            turn: 0,
            max_turns: MAX_TURNS,
            players: Vec::new(),
            items: Vec::new(),
            game_id: String::new(),
        };
        proof {
            lemma_field_monotone(0, 0);
        }
        Game { state }
    }

    /// The current state.
    pub fn state(&self) -> (r: &GameState)
        ensures
            *r == self.current(),
            r.wf(),
    {
        proof {
            use_type_invariant(self);
        }
        &self.state
    }

    /// Applies a command; a command of a new player is dropped when the game already holds
    /// `MAX_PLAYERS` players. Returns whether it was applied.
    #[verifier::rlimit(40)]
    pub fn apply_move(&mut self, player_move: PlayerMove) -> (applied: bool)
        ensures
            applied == (old(self).current().players.len() < MAX_PLAYERS || has_named(
                old(self).current().players@,
                player_move.name@,
            )),
            applied ==> applies_move(
                old(self).current(),
                player_move.name@,
                player_move.target,
                final(self).current(),
            ),
            !applied ==> final(self).current() == old(self).current(),
    {
        proof {
            use_type_invariant(&*self);
        }
        if self.state.players.len() >= MAX_PLAYERS && self.state.find_player_idx(
            player_move.name.as_str(),
        ).is_none() {
            return false;
        }
        let mut taken = Game::placeholder();
        std::mem::swap(self, &mut taken);
        let Game { state } = taken;
        let ghost before = state;
        let mut state = state;
        state.apply_move(player_move);
        proof {
            assert forall|i: int| 0 <= i < state.players.len() implies 0
                <= #[trigger] state.players@[i].score <= state.turn * MAX_GAIN_PER_TURN by {
                if i < before.players.len() {
                    if has_named(before.players@, player_move.name@) {
                        let k = choose|k: int|
                            is_first_named(before.players@, player_move.name@, k)
                                && state.players@ == before.players@.update(
                                k,
                                with_target(
                                    before.players@[k],
                                    tamed_target(player_move.target),
                                ),
                            );
                        assert(state.players@[i].score == before.players@[i].score);
                    } else {
                        assert(state.players@[i] == state.players@.take(
                            before.players.len() as int,
                        )[i]);
                    }
                }
            }
        }
        *self = Game { state };
        true
    }

    /// Plays one turn (see `GameState::next_turn`).
    #[verifier::rlimit(40)]
    pub fn tick(self) -> (r: Tick)
        ensures
            match r {
                Tick::Finished(res) => {
                    &&& self.current().turn + 1 == MAX_TURNS
                    &&& is_descending(player_views(res.players@))
                    &&& res.game_id@ == self.current().game_id@
                    &&& forall|i: int|
                        0 <= i < res.players.len() ==> in_field(
                            #[trigger] res.players@[i],
                            self.current().width as int,
                            self.current().height as int,
                        )
                    &&& exists|order: Seq<usize>|
                        is_shuffle(order, self.current().players.len() as nat) && player_views(
                            res.players@,
                        ) == sorted_by_score(#[trigger] turn_outcome(self.current(), order).0)
                },
                Tick::Running(g) => {
                    let s = g.current();
                    let n = self.current().players.len() as int;
                    &&& self.current().turn + 1 < MAX_TURNS
                    &&& s.turn == self.current().turn + 1
                    &&& s.game_id@ == self.current().game_id@
                    &&& s.players.len() == n
                    &&& s.width == field_width(n)
                    &&& s.height == field_height(n)
                    &&& forall|i: int|
                        0 <= i < s.players.len() ==> in_field(
                            #[trigger] s.players@[i],
                            s.width as int,
                            s.height as int,
                        )
                    &&& items_disjoint(s.items@)
                    &&& s.items.len() == item_target(n)
                    &&& exists|order: Seq<usize>|
                        {
                            let (ps, its) = #[trigger] turn_outcome(self.current(), order);
                            &&& is_shuffle(order, n as nat)
                            &&& player_views(s.players@) == ps
                            &&& s.items@.take(its.len() as int) == its
                            &&& forall|i: int|
                                its.len() <= i < s.items.len() ==> fresh_item(
                                    #[trigger] s.items@[i],
                                    s.width as int,
                                    s.height as int,
                                )
                        }
                },
            },
    {
        proof {
            use_type_invariant(&self);
        }
        let Game { state } = self;
        proof {
            let n = state.players.len() as int;
            assert(item_target(n) <= 2 * MAX_PLAYERS);
            assert forall|i: int| 0 <= i < state.players.len() implies #[trigger] state.players@[i].score
                + state.items.len() <= i64::MAX by {
                assert(state.turn < MAX_TURNS);
                assert(state.players@[i].score <= state.turn * MAX_GAIN_PER_TURN);
                assert(state.turn * MAX_GAIN_PER_TURN <= 600 * 2000000) by (nonlinear_arith)
                    requires state.turn < 600;
            }
        }
        match state.next_turn() {
            NextTurn::FinalResults(res) => Tick::Finished(res),
            NextTurn::GameState(s) => {
                proof {
                    let n = s.players.len() as int;
                    assert forall|i: int| 0 <= i < s.players.len() implies 0
                        <= #[trigger] s.players@[i].score <= s.turn * MAX_GAIN_PER_TURN by {
                        assert(state.players@[i].score <= s.players@[i].score);
                        assert(s.players@[i].score <= state.players@[i].score + state.items.len());
                        assert(state.items.len() <= MAX_GAIN_PER_TURN);
                        assert(state.turn * MAX_GAIN_PER_TURN + MAX_GAIN_PER_TURN == (state.turn + 1)
                            * MAX_GAIN_PER_TURN) by (nonlinear_arith);
                    }
                }
                Tick::Running(Game { state: s })
            },
        }
    }
}

} // verus!
