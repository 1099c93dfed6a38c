use game_common::codec::{DecodeError, DecodeErrorKind};
use game_common::consts::{MAX_ITEMS, MAX_TURNS, PLAYER_RADIUS, START_HEIGHT, START_WIDTH};
use game_common::game_state::{next_turn_player_state, GameResults, GameState, Item, NextTurn, Player};
use game_common::player_move::PlayerMove;
use game_common::point::Point;

fn player(name: &str, x: i32, y: i32, score: i64) -> Player {
    Player {
        name: name.to_owned(),
        pos: Point { x, y },
        speed: Point { x: 0, y: 0 },
        target: Point { x, y },
        score,
        radius: PLAYER_RADIUS,
    }
}

fn empty_state() -> GameState {
    GameState {
        width: START_WIDTH,
        height: START_HEIGHT,
        turn: 0,
        max_turns: MAX_TURNS,
        players: vec![],
        items: vec![],
        game_id: "game-1".to_owned(),
    }
}

#[test]
fn next_turn_state() {
    let mut player = Player {
        name: "player".to_owned(),
        pos: Point { x: 100, y: 100 },
        speed: Point { x: 10, y: 0 },
        target: Point { x: 150, y: 200 },
        score: 0,
        radius: 1,
    };
    next_turn_player_state(&mut player, 1000, 1000);
    assert_eq!(player.speed, Point { x: 19, y: 18 });
    assert_eq!(player.pos, Point { x: 119, y: 118 });
}

#[test]
fn small_acceleration_is_applied_unscaled() {
    let mut p = player("a", 500, 500, 0);
    p.target = Point { x: 503, y: 496 };
    next_turn_player_state(&mut p, 1000, 1000);
    assert_eq!(p.speed, Point { x: 3, y: -4 });
    assert_eq!(p.pos, Point { x: 503, y: 496 });
}

#[test]
fn speed_is_capped() {
    let mut p = player("a", 500, 500, 0);
    p.speed = Point { x: 100, y: 0 };
    p.target = Point { x: 5000, y: 500 };
    next_turn_player_state(&mut p, 2000, 1000);
    assert_eq!(p.speed, Point { x: 100, y: 0 });
    assert_eq!(p.pos, Point { x: 600, y: 500 });
}

#[test]
fn player_bounces_off_left_edge() {
    let mut p = player("a", 25, 500, 0);
    p.speed = Point { x: -10, y: 0 };
    p.target = Point { x: 25, y: 500 };
    p.radius = 20;
    next_turn_player_state(&mut p, 1000, 1000);
    // no acceleration: x goes to 15, mirrored about 20 to 25.
    assert_eq!(p.pos, Point { x: 25, y: 500 });
    assert_eq!(p.speed, Point { x: 10, y: 0 });
    let mut q = player("b", 25, 500, 0);
    q.speed = Point { x: -30, y: 0 };
    q.target = Point { x: -1000, y: 500 };
    next_turn_player_state(&mut q, 1000, 1000);
    // speed (-50, 0) takes x to -25, mirrored about 20 to 65.
    assert_eq!(q.pos, Point { x: 65, y: 500 });
    assert_eq!(q.speed, Point { x: 50, y: 0 });
}

#[test]
fn player_bounces_off_bottom_edge() {
    let mut p = player("a", 500, 970, 0);
    p.speed = Point { x: 0, y: 20 };
    p.target = Point { x: 500, y: 5000 };
    next_turn_player_state(&mut p, 1000, 1000);
    // speed 40 takes y to 1010; mirrored about 980 to 950.
    assert_eq!(p.pos, Point { x: 500, y: 950 });
    assert_eq!(p.speed, Point { x: 0, y: -40 });
}

#[test]
fn scale_rounds_to_nearest() {
    assert_eq!(Point { x: 50, y: 100 }.scale(20), Point { x: 9, y: 18 });
    assert_eq!(Point { x: -50, y: 100 }.scale(20), Point { x: -9, y: 18 });
    assert_eq!(Point { x: 3, y: 4 }.scale(10), Point { x: 6, y: 8 });
    assert_eq!(Point { x: 0, y: 0 }.scale(10), Point { x: 0, y: 0 });
    assert_eq!(Point { x: 1, y: 1 }.scale(1), Point { x: 1, y: 1 });
}

#[test]
fn lengths_and_distances() {
    assert_eq!(Point { x: 3, y: -4 }.len2(), 25);
    assert_eq!(Point { x: i32::MIN, y: i32::MIN }.len2(), 1u64 << 63);
    assert_eq!(Point { x: 1, y: 1 }.dist2(&Point { x: 4, y: 5 }), 25);
    assert_eq!(Point { x: 1, y: 2 }.add(Point { x: 3, y: 4 }), Point { x: 4, y: 6 });
    assert_eq!(Point { x: 1, y: 2 }.sub(Point { x: 3, y: 4 }), Point { x: -2, y: -2 });
}

#[test]
fn item_intersection() {
    let it = Item { pos: Point { x: 0, y: 0 }, radius: 10 };
    let near = player("a", 30, 0, 0);
    let far = player("b", 31, 0, 0);
    assert!(it.intersects(&near));
    assert!(!it.intersects(&far));
    let other = Item { pos: Point { x: 0, y: 20 }, radius: 10 };
    assert!(it.intersects_item(&other));
    let apart = Item { pos: Point { x: 0, y: 21 }, radius: 10 };
    assert!(!it.intersects_item(&apart));
}

#[test]
fn encode_and_decode_round_trip() {
    let mut st = empty_state();
    st.turn = 7;
    st.players.push(Player {
        name: "alice".to_owned(),
        pos: Point { x: 100, y: 200 },
        speed: Point { x: -3, y: 4 },
        target: Point { x: -150, y: 250 },
        score: 12,
        radius: 20,
    });
    st.items.push(Item { pos: Point { x: 300, y: 400 }, radius: 25 });
    let text = st.to_string();
    assert_eq!(
        text,
        "TURN 7 600 2000 1500 game-1\n1\nalice 12 100 200 20 -3 4 -150 250\n1\n300 400 25\nEND_STATE\n"
    );
    let back = GameState::from_string(&text).unwrap();
    assert_eq!(back.turn, 7);
    assert_eq!(back.max_turns, 600);
    assert_eq!(back.width, 2000);
    assert_eq!(back.height, 1500);
    assert_eq!(back.game_id, "game-1");
    assert_eq!(back.players.len(), 1);
    assert_eq!(back.players[0].name, "alice");
    assert_eq!(back.players[0].score, 12);
    assert_eq!(back.players[0].pos, Point { x: 100, y: 200 });
    assert_eq!(back.players[0].speed, Point { x: -3, y: 4 });
    assert_eq!(back.players[0].target, Point { x: -150, y: 250 });
    assert_eq!(back.items, vec![Item { pos: Point { x: 300, y: 400 }, radius: 25 }]);
}

#[test]
fn decode_accepts_any_whitespace_and_trailing_tokens() {
    let back = GameState::from_string("  TURN\t0 5 10 20 g\r\n0 0 END_STATE extra").unwrap();
    assert_eq!(back.turn, 0);
    assert_eq!(back.max_turns, 5);
    assert_eq!(back.width, 10);
    assert_eq!(back.height, 20);
    assert_eq!(back.game_id, "g");
    assert!(back.players.is_empty());
    assert!(back.items.is_empty());
}

#[test]
fn decode_errors() {
    let err = |s: &str| GameState::from_string(s).err().unwrap();
    assert_eq!(err(""), DecodeError { index: 0, kind: DecodeErrorKind::MissingToken });
    assert_eq!(err("TUR 1"), DecodeError { index: 0, kind: DecodeErrorKind::UnexpectedKeyword });
    assert_eq!(err("TURN -1 5 1 1 g 0 0 END_STATE"), DecodeError { index: 1, kind: DecodeErrorKind::InvalidNumber });
    assert_eq!(err("TURN 1 5 1 1 g 0 0 END"), DecodeError { index: 8, kind: DecodeErrorKind::UnexpectedKeyword });
    assert_eq!(err("TURN 1 5 1 1 g 1 bob 0 0"), DecodeError { index: 10, kind: DecodeErrorKind::MissingToken });
    assert_eq!(err("TURN 1 5 1 1 g 1 bob x"), DecodeError { index: 8, kind: DecodeErrorKind::InvalidNumber });
    assert_eq!(err("TURN 1 5 2147483648 1 g 0 0 END_STATE"), DecodeError { index: 3, kind: DecodeErrorKind::InvalidNumber });
    assert_eq!(err("TURN 1 5 1 1 g 0 1 1 2 END_STATE"), DecodeError { index: 10, kind: DecodeErrorKind::InvalidNumber });
    assert!(GameState::from_string("TURN +1 5 -2147483648 1 g 0 0 END_STATE").is_ok());
}

#[test]
fn new_game_is_filled_with_disjoint_items() {
    let st = GameState::new("g");
    assert_eq!(st.turn, 0);
    assert_eq!(st.max_turns, MAX_TURNS);
    assert_eq!(st.width, START_WIDTH);
    assert_eq!(st.height, START_HEIGHT);
    assert!(st.players.is_empty());
    assert_eq!(st.items.len(), MAX_ITEMS);
    for (i, a) in st.items.iter().enumerate() {
        for b in st.items.iter().skip(i + 1) {
            assert!(!a.intersects_item(b));
        }
    }
}

#[test]
fn apply_move_adds_then_retargets() {
    let mut st = empty_state();
    st.apply_move(PlayerMove { name: "bob".to_owned(), target: Point { x: 5, y: 6 } });
    assert_eq!(st.players.len(), 1);
    let p = &st.players[0];
    assert_eq!(p.score, 0);
    assert_eq!(p.speed, Point { x: 0, y: 0 });
    assert_eq!(p.target, Point { x: 5, y: 6 });
    assert!(p.pos.x >= PLAYER_RADIUS && p.pos.x < START_WIDTH - PLAYER_RADIUS);
    assert!(p.pos.y >= PLAYER_RADIUS && p.pos.y < START_HEIGHT - PLAYER_RADIUS);
    st.apply_move(PlayerMove { name: "bob".to_owned(), target: Point { x: 2_000_000_000, y: -35 } });
    assert_eq!(st.players.len(), 1);
    assert_eq!(st.players[0].target, Point { x: 200_000_000, y: -3 });
}

#[test]
fn make_player_first_swaps() {
    let mut st = empty_state();
    st.players.push(player("a", 100, 100, 0));
    st.players.push(player("b", 100, 100, 0));
    st.players.push(player("c", 100, 100, 0));
    assert!(st.make_player_first("c"));
    let names: Vec<&str> = st.players.iter().map(|p| p.name.as_str()).collect();
    assert_eq!(names, vec!["c", "b", "a"]);
    assert!(!st.make_player_first("zz"));
    assert_eq!(st.find_player_idx("b"), Some(1));
    assert_eq!(st.find_player_idx("zz"), None);
}

#[test]
fn collect_items_in_order() {
    let mut st = empty_state();
    st.players.push(player("a", 100, 100, 0));
    st.players.push(player("b", 110, 100, 5));
    st.items.push(Item { pos: Point { x: 105, y: 100 }, radius: 20 });
    st.items.push(Item { pos: Point { x: 1000, y: 1000 }, radius: 20 });
    st.items.push(Item { pos: Point { x: 100, y: 120 }, radius: 20 });
    st.collect_items(&vec![1, 0]);
    assert_eq!(st.players[1].score, 7);
    assert_eq!(st.players[0].score, 0);
    assert_eq!(st.items, vec![Item { pos: Point { x: 1000, y: 1000 }, radius: 20 }]);
}

#[test]
fn results_are_sorted_stably() {
    let mut st = empty_state();
    st.players.push(player("a", 100, 100, 1));
    st.players.push(player("b", 100, 100, 3));
    st.players.push(player("c", 100, 100, 1));
    st.players.push(player("d", 100, 100, 3));
    let res = GameResults::new(st);
    let names: Vec<&str> = res.players.iter().map(|p| p.name.as_str()).collect();
    assert_eq!(names, vec!["b", "d", "a", "c"]);
    assert_eq!(res.game_id, "game-1");
}

#[test]
fn last_turn_gives_results() {
    let mut st = empty_state();
    st.turn = MAX_TURNS - 1;
    st.players.push(player("a", 100, 100, 1));
    st.players.push(player("b", 500, 500, 2));
    match st.next_turn() {
        NextTurn::FinalResults(res) => {
            assert_eq!(res.players[0].name, "b");
            assert_eq!(res.game_id, "game-1");
        }
        NextTurn::GameState(_) => panic!("the game should be over"),
    }
}

#[test]
fn running_turn_respawns_and_keeps_players_inside() {
    let mut st = GameState::new("g");
    for i in 0..7 {
        st.apply_move(PlayerMove { name: format!("p{i}"), target: Point { x: -5000, y: 9000 } });
    }
    for _ in 0..20 {
        st = match st.next_turn() {
            NextTurn::GameState(s) => s,
            NextTurn::FinalResults(_) => panic!("too early"),
        };
        assert_eq!(st.items.len(), 14);
        for (i, a) in st.items.iter().enumerate() {
            for b in st.items.iter().skip(i + 1) {
                assert!(!a.intersects_item(b));
            }
        }
        for p in st.players.iter() {
            assert!(p.pos.x >= p.radius && p.pos.x <= st.width - p.radius);
            assert!(p.pos.y >= p.radius && p.pos.y <= st.height - p.radius);
            assert!(p.speed.x.abs() <= 100 && p.speed.y.abs() <= 100);
        }
    }
    // 7 players: sqrt(7 / 5) scales the field.
    assert_eq!(st.width, 2366);
    assert_eq!(st.height, 1775);
    assert_eq!(st.calc_max_items(), 14);
}

#[test]
fn rescaled_acceleration_can_round_past_the_cap() {
    // (1, 20) is longer than 20; rescaled to 20 and rounded, it is (1, 20) again.
    let mut p = player("a", 500, 500, 0);
    p.target = Point { x: 501, y: 520 };
    next_turn_player_state(&mut p, 1000, 1000);
    assert_eq!(p.speed, Point { x: 1, y: 20 });
    assert_eq!(p.speed.len2(), 401);
    assert!(p.speed.len2() <= 21 * 21);
}

#[test]
fn huge_negative_targets_are_divided_by_ten() {
    let mut st = empty_state();
    st.apply_move(PlayerMove { name: "c".to_owned(), target: Point { x: -7, y: -2_000_000_005 } });
    assert_eq!(st.players[0].target, Point { x: 0, y: -200_000_000 });
    st.apply_move(PlayerMove { name: "c".to_owned(), target: Point { x: 429_496_729, y: -429_496_729 } });
    assert_eq!(st.players[0].target, Point { x: 429_496_729, y: -429_496_729 });
}

#[test]
fn turn_in_a_given_order() {
    let mut st = empty_state();
    st.players.push(player("a", 100, 100, 0));
    st.players.push(player("b", 100, 100, 0));
    st.items.push(Item { pos: Point { x: 110, y: 100 }, radius: 20 });
    match st.next_turn_in_order(&vec![1, 0]) {
        NextTurn::GameState(s) => {
            assert_eq!(s.turn, 1);
            assert_eq!(s.players[1].score, 1);
            assert_eq!(s.players[0].score, 0);
            assert!(s.items.is_empty());
            assert_eq!(s.width, START_WIDTH);
        }
        NextTurn::FinalResults(_) => panic!("too early"),
    }
}
