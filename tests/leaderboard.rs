use game_common::codec::{DecodeError, DecodeErrorKind};
use game_common::game_state::{GameResults, Player};
use game_common::point::Point;
use game_common::ranking::calc_places;
use game_common::top_results::{TopResults, UserResult};

fn row(user: &str, game_id: &str, score: i64) -> UserResult {
    UserResult { score, game_id: game_id.to_owned(), user: user.to_owned() }
}

fn rows(t: &TopResults) -> Vec<(String, String, i64)> {
    t.results().iter().map(|r| (r.user.clone(), r.game_id.clone(), r.score)).collect()
}

#[test]
fn two_results_of_one_user_keep_the_better() {
    let mut t = TopResults::new();
    t.add_result(row("ann", "game-1", 5));
    t.add_result(row("bob", "game-1", 7));
    t.add_result(row("ann", "game-2", 9));
    assert_eq!(rows(&t), vec![("ann".to_owned(), "game-2".to_owned(), 9), ("bob".to_owned(), "game-1".to_owned(), 7)]);
    t.add_result(row("ann", "game-3", 2));
    assert_eq!(rows(&t), vec![("ann".to_owned(), "game-2".to_owned(), 9), ("bob".to_owned(), "game-1".to_owned(), 7)]);
}

#[test]
fn equal_scores_rank_by_game_then_user() {
    let mut t = TopResults::new();
    t.add_result(row("a", "game-1", 3));
    t.add_result(row("b", "game-2", 3));
    t.add_result(row("c", "game-2", 3));
    t.add_result(row("a", "game-3", 3));
    assert_eq!(
        rows(&t),
        vec![
            ("a".to_owned(), "game-3".to_owned(), 3),
            ("c".to_owned(), "game-2".to_owned(), 3),
            ("b".to_owned(), "game-2".to_owned(), 3),
        ]
    );
}

#[test]
fn results_of_a_game_are_merged() {
    let mut t = TopResults::new();
    t.add_result(row("ann", "game-0", 4));
    let player = |name: &str, score: i64| Player {
        name: name.to_owned(),
        pos: Point { x: 50, y: 50 },
        speed: Point { x: 0, y: 0 },
        target: Point { x: 50, y: 50 },
        score,
        radius: 20,
    };
    let res = GameResults { players: vec![player("bob", 6), player("ann", 1)], game_id: "game-1".to_owned() };
    t.add_results(&res);
    assert_eq!(rows(&t), vec![("bob".to_owned(), "game-1".to_owned(), 6), ("ann".to_owned(), "game-0".to_owned(), 4)]);
}

#[test]
fn leaderboard_text_round_trip() {
    let mut t = TopResults::new();
    t.add_result(row("ann", "game-1", -5));
    t.add_result(row("bob", "game-2", 12));
    let text = t.to_text();
    assert_eq!(text, "bob game-2 12\nann game-1 -5\n");
    let back = TopResults::from_text(&text).unwrap();
    assert_eq!(rows(&back), rows(&t));
}

#[test]
fn leaderboard_text_errors() {
    assert!(TopResults::from_text("").unwrap().results().is_empty());
    assert_eq!(
        TopResults::from_text("ann game-1").err().unwrap(),
        DecodeError { index: 2, kind: DecodeErrorKind::MissingToken }
    );
    assert_eq!(
        TopResults::from_text("ann game-1 5\nbob game-2 lots").err().unwrap(),
        DecodeError { index: 5, kind: DecodeErrorKind::InvalidNumber }
    );
}

#[test]
fn places_are_shared_by_equal_scores() {
    let p = |score: i64| Player {
        name: format!("p{score}"),
        pos: Point { x: 50, y: 50 },
        speed: Point { x: 0, y: 0 },
        target: Point { x: 50, y: 50 },
        score,
        radius: 20,
    };
    let labels = calc_places(&vec![p(5), p(3), p(3), p(1)]);
    assert_eq!(labels, vec!["1", "2-3", "2-3", "4"]);
    assert!(calc_places(&vec![]).is_empty());
}
