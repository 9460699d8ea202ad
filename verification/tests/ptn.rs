use tiltak::position::{GameResult, Position};
use tiltak::ptn::ptn_parser::{parse_ptn, ptn_unsupported};

fn play<const S: usize>(moves: &[&str]) -> Position<S> {
    let mut position = <Position<S>>::start_position();
    for mv in moves {
        let mv = position.move_from_san(mv).unwrap();
        position.do_move(mv);
    }
    position
}

#[test]
fn parse_ptn_reads_tags_moves_and_result_test() {
    let text = "[Site \"PlayTak.com\"]\n[Size \"5\"]\n\n1. a1 e5 2. Cc3 {a comment} Sd4! 3. c3< 1-0\n";
    let games = parse_ptn::<5>(text).unwrap();
    assert_eq!(games.len(), 1);
    let game = &games[0];
    assert_eq!(game.tags.len(), 2);
    assert_eq!(game.tags[0], ("Site".to_string(), "PlayTak.com".to_string()));
    assert_eq!(game.tags[1], ("Size".to_string(), "5".to_string()));
    assert!(game.start_position == <Position<5>>::start_position());
    let texts: Vec<String> = game.moves.iter().map(|m| m.mv.to_string()).collect();
    assert_eq!(texts, vec!["a1", "e5", "Cc3", "Sd4", "c3<"]);
    assert_eq!(game.moves[2].comment, "a comment");
    assert_eq!(game.moves[3].annotations, vec!["!"]);
    assert!(game.moves[0].annotations.is_empty());
    assert_eq!(game.game_result_str, Some("1-0"));
    assert_eq!(game.game_result(), Some(GameResult::WhiteWin));
}

#[test]
fn parse_ptn_reads_several_annotations_test() {
    let games = parse_ptn::<5>("1. a1'! e5?? 0-R").unwrap();
    assert_eq!(games[0].moves[0].annotations, vec!["'", "!"]);
    assert_eq!(games[0].moves[1].annotations, vec!["?", "?"]);
    assert_eq!(games[0].game_result(), Some(GameResult::BlackWin));
}

#[test]
fn parse_ptn_without_result_test() {
    let games = parse_ptn::<5>("1. a1 e5").unwrap();
    assert_eq!(games[0].moves.len(), 2);
    assert_eq!(games[0].game_result_str, None);
    assert_eq!(games[0].game_result(), None);
    let games = parse_ptn::<5>("1. a1 e5 *").unwrap();
    assert_eq!(games[0].game_result_str, Some("*"));
    assert_eq!(games[0].game_result(), None);
    let games = parse_ptn::<5>("1. a1 e5 1/2-1/2").unwrap();
    assert_eq!(games[0].game_result(), Some(GameResult::Draw));
}

#[test]
fn parse_ptn_starts_from_tps_tag_test() {
    let start = play::<5>(&["a1", "e5", "c3"]);
    let text = format!("[TPS \"{}\"]\n2... d4 F-0", start.to_fen());
    let games = parse_ptn::<5>(&text).unwrap();
    assert!(games[0].start_position == start);
    assert_eq!(games[0].moves.len(), 1);
    assert_eq!(games[0].moves[0].mv.to_string(), "d4");
    let games = parse_ptn::<5>(&format!("[tps \"{}\"] 2... d4", start.to_fen())).unwrap();
    assert!(games[0].start_position == start);
}

#[test]
fn parse_ptn_reads_several_games_test() {
    let games = parse_ptn::<5>("[Size \"5\"] 1. a1 e5 1-0\n[Size \"5\"] 1. e1 a5 0-1\n").unwrap();
    assert_eq!(games.len(), 2);
    assert_eq!(games[1].moves[0].mv.to_string(), "e1");
    assert_eq!(games[1].game_result(), Some(GameResult::BlackWin));
    // A second game that fails to read is dropped.
    let games = parse_ptn::<5>("1. a1 e5 1-0 [Size \"5\"] 1. a1 a1").unwrap();
    assert_eq!(games.len(), 1);
}

#[test]
fn parse_ptn_escapes_in_tag_values_test() {
    let games = parse_ptn::<5>("[Event \"a \\\"b\\\" \\\\ \\x\"] 1. a1").unwrap();
    assert_eq!(games[0].tags[0].1, "a \"b\" \\ \\x");
}

#[test]
fn parse_ptn_refuses_malformed_games_test() {
    assert!(parse_ptn::<5>("[Size \"5\"]").is_err());
    assert!(parse_ptn::<5>("[Size 5] 1. a1").is_err());
    assert!(parse_ptn::<5>("[Size \"5\" 1. a1").is_err());
    assert!(parse_ptn::<5>("1. a1 a1").is_err());
    assert!(parse_ptn::<5>("1. a1 f6").is_err());
    assert!(parse_ptn::<5>("x. a1").is_err());
    assert!(parse_ptn::<5>("[TPS \"x5/x5 1 1\"] 1. a1").is_err());
    assert!(parse_ptn::<5>("").unwrap().is_empty());
    assert!(parse_ptn::<5>("  \n ").unwrap().is_empty());
}

#[test]
fn ptn_unsupported_test() {
    assert!(!ptn_unsupported::<5>("1. a1 e5 1-0"));
    assert!(!ptn_unsupported::<5>("1. a1 a1"));
}

#[test]
fn parse_ptn_plays_walls_and_capstones_in_the_opening_test() {
    // The original's legality check accepts these moves in the first two plies, and playing
    // them puts down a piece of the opponent.
    let games = parse_ptn::<5>("1. Ca1 Se5 2. c3 1-0").unwrap();
    let position = &games[0];
    assert_eq!(position.moves.len(), 3);
    assert_eq!(position.moves[0].mv.to_string(), "Ca1");
    assert_eq!(position.moves[1].mv.to_string(), "Se5");
    assert!(!ptn_unsupported::<5>("1. Ca1 Se5 2. c3 1-0"));
}
