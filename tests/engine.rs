use game_common::bot::best_move;
use game_common::consts::MAX_TURNS;
use game_common::engine::{Game, Tick};
use game_common::game_state::{GameState, Item, Player};
use game_common::player_move::PlayerMove;
use game_common::point::Point;

#[test]
fn a_game_runs_to_its_results() {
    let mut game = Game::new("game-x");
    assert!(game.apply_move(PlayerMove { name: "ann".to_owned(), target: Point { x: 0, y: 0 } }));
    assert!(game.apply_move(PlayerMove { name: "bob".to_owned(), target: Point { x: 900, y: 900 } }));
    let mut turns = 0;
    loop {
        match game.tick() {
            Tick::Running(g) => {
                turns += 1;
                assert_eq!(g.state().turn, turns);
                game = g;
            }
            Tick::Finished(res) => {
                assert_eq!(turns + 1, MAX_TURNS);
                assert_eq!(res.game_id, "game-x");
                assert_eq!(res.players.len(), 2);
                assert!(res.players[0].score >= res.players[1].score);
                break;
            }
        }
    }
}

#[test]
fn bot_heads_for_nearest_item() {
    let me = Player {
        name: "me".to_owned(),
        pos: Point { x: 100, y: 100 },
        speed: Point { x: 0, y: 0 },
        target: Point { x: 100, y: 100 },
        score: 0,
        radius: 20,
    };
    let st = GameState {
        width: 2000,
        height: 1500,
        turn: 0,
        max_turns: 600,
        players: vec![me],
        items: vec![
            Item { pos: Point { x: 500, y: 500 }, radius: 30 },
            Item { pos: Point { x: 150, y: 90 }, radius: 30 },
            Item { pos: Point { x: 300, y: 100 }, radius: 30 },
        ],
        game_id: "g".to_owned(),
    };
    let mv = best_move(&st);
    assert_eq!(mv.name, "me");
    assert_eq!(mv.target, Point { x: 150, y: 90 });
    let alone = GameState { items: vec![], ..st };
    assert_eq!(best_move(&alone).target, Point { x: 100, y: 100 });
}
