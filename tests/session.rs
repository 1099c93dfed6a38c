use game_common::consts::PLAYER_RADIUS;
use game_common::game_state::{GameState, Player};
use game_common::point::Point;
use game_common::session::{
    parse_command, parse_coordinate, parse_greeting, snapshot_for, validate_login, CommandWord,
    Greeting, LoginError, PasswordCheck, PasswordError, PasswordTable,
};

#[test]
fn logins_are_short_ascii() {
    assert_eq!(validate_login("alice"), Ok(()));
    assert_eq!(validate_login("abcdefghijklmnopqrst"), Ok(()));
    assert_eq!(validate_login("abcdefghijklmnopqrstu"), Err(LoginError::TooLong));
    assert_eq!(validate_login("älice"), Err(LoginError::NotAscii));
}

#[test]
fn passwords_register_then_must_match() {
    let mut table = PasswordTable::new();
    assert_eq!(table.check_password("ann", "GO"), Err(PasswordError::Reserved));
    assert_eq!(table.check_password("ann", "secret"), Ok(PasswordCheck::Registered));
    assert_eq!(table.check_password("ann", "secret"), Ok(PasswordCheck::Matched));
    assert_eq!(table.check_password("ann", "other"), Err(PasswordError::Mismatch));
    assert_eq!(table.check_password("ann", "GO"), Err(PasswordError::Reserved));
    let long = "x".repeat(101);
    assert_eq!(table.check_password("bob", &long), Err(PasswordError::TooLong));
    assert_eq!(table.password_of("bob"), None);
    assert_eq!(table.password_of("ann").map(|p| p.as_str()), Some("secret"));
}

#[test]
fn credential_file_last_registration_wins() {
    let table = PasswordTable::from_text("ann 1.2.3.4 one\nbob 5.6.7.8 two\nann 9.9.9.9 three\n").unwrap();
    assert_eq!(table.password_of("ann").map(|p| p.as_str()), Some("three"));
    assert_eq!(table.password_of("bob").map(|p| p.as_str()), Some("two"));
    assert_eq!(PasswordTable::from_text("ann 1.2.3.4").err().unwrap().index, 2);
}

#[test]
fn greetings_and_commands() {
    assert_eq!(parse_greeting("WATCH"), Greeting::Watch);
    assert_eq!(parse_greeting("PLAY"), Greeting::Play);
    assert_eq!(parse_greeting("play"), Greeting::Other);
    assert_eq!(parse_command("GO"), CommandWord::Go);
    assert_eq!(parse_command("EXIT"), CommandWord::Exit);
    assert_eq!(parse_command("JUMP"), CommandWord::Other);
    assert_eq!(parse_coordinate("-150"), Some(-150));
    assert_eq!(parse_coordinate("+7"), Some(7));
    assert_eq!(parse_coordinate("2147483648"), None);
    assert_eq!(parse_coordinate("1x"), None);
}

#[test]
fn snapshot_puts_the_player_first() {
    let p = |name: &str| Player {
        name: name.to_owned(),
        pos: Point { x: 30, y: 40 },
        speed: Point { x: 0, y: 0 },
        target: Point { x: 30, y: 40 },
        score: 0,
        radius: PLAYER_RADIUS,
    };
    let mut st = GameState {
        width: 2000,
        height: 1500,
        turn: 3,
        max_turns: 600,
        players: vec![p("a"), p("b")],
        items: vec![],
        game_id: "g".to_owned(),
    };
    let text = snapshot_for(&mut st, "b").unwrap();
    assert!(text.starts_with("TURN 3 600 2000 1500 g\n2\nb 0 30 40 20 0 0 30 40\n"));
    assert_eq!(snapshot_for(&mut st, "zz"), None);
}
