use tiltak::position::Position;
use tiltak::ptn::ptn_parser::parse_ptn;

fn play<const S: usize>(moves: &[&str]) -> Position<S> {
    let mut position = <Position<S>>::start_position();
    for mv in moves {
        let mv = position.move_from_san(mv).unwrap();
        position.do_move(mv);
    }
    position
}

#[test]
fn game_to_ptn_writes_required_tags_first_test() {
    let text = "[Site \"PlayTak.com\"]\n[size \"5\"]\n\n1. a1 e5 2. Cc3 {a comment} Sd4! 3. c3< 1-0\n";
    let games = parse_ptn::<5>(text).unwrap();
    assert_eq!(
        games[0].game_to_ptn(),
        "[Player1 \"?\"]\n[Player2 \"?\"]\n[Date \"????.??.??\"]\n[Size \"5\"]\n[Result \"1-0\"]\n\
         [Site \"PlayTak.com\"]\n\n1. a1 e5 2. Cc3 {a comment} Sd4! 3. c3< 1-0\n\n"
    );
}

#[test]
fn game_to_ptn_starts_with_black_move_test() {
    let start = play::<5>(&["a1", "e5", "c3"]);
    let text = format!("[TPS \"{}\"]\n2... d4 F-0", start.to_fen());
    let games = parse_ptn::<5>(&text).unwrap();
    assert_eq!(
        games[0].game_to_ptn(),
        format!(
            "[Player1 \"?\"]\n[Player2 \"?\"]\n[Date \"????.??.??\"]\n[Size \"5\"]\n[Result \"F-0\"]\n\
             [TPS \"{}\"]\n\n2... d4 F-0\n\n",
            start.to_fen()
        )
    );
}

#[test]
fn game_to_ptn_breaks_long_lines_test() {
    let text = "1. a1 e5 2. b1 d5 3. c1 c5 4. d1 b5 5. e1 a5 6. a2 e4 7. b2 d4 8. c2 c4 9. d2 b4 10. e3";
    let games = parse_ptn::<5>(text).unwrap();
    let ptn = games[0].game_to_ptn();
    assert!(ptn.ends_with(
        "\n\n1. a1 e5 2. b1 d5 3. c1 c5 4. d1 b5 5. e1 a5 6. a2 e4 7. b2 d4 8. c2 c4 9. d2 b4\n10. e3 *\n\n"
    ));
    assert!(ptn.contains("[Result \"*\"]\n"));
    // Reading the text back gives the same moves.
    let again = parse_ptn::<5>(&ptn).unwrap();
    assert_eq!(again[0].moves.len(), games[0].moves.len());
    for (a, b) in again[0].moves.iter().zip(games[0].moves.iter()) {
        assert_eq!(a.mv, b.mv);
    }
}

#[test]
fn game_to_ptn_keeps_annotations_test() {
    let games = parse_ptn::<6>("[Player1 \"Alice\"] 1. a1'! f6?? 0-R").unwrap();
    let ptn = games[0].game_to_ptn();
    assert!(ptn.starts_with("[Player1 \"Alice\"]\n[Player2 \"?\"]\n[Date \"????.??.??\"]\n[Size \"6\"]\n[Result \"0-R\"]\n\n"));
    assert!(ptn.ends_with("\n1. a1'! f6?? 0-R\n\n"));
}
