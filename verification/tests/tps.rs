use tiltak::position::tps::tps_out_of_range;
use tiltak::position::{Komi, Position};

fn play<const S: usize>(moves: &[&str]) -> Position<S> {
    let mut position = <Position<S>>::start_position();
    for mv in moves {
        let mv = position.move_from_san(mv).unwrap();
        position.do_move(mv);
    }
    position
}

#[test]
fn start_position_to_fen_test() {
    let position = <Position<3>>::start_position();
    assert_eq!(position.to_fen(), "x,x,x/x,x,x/x,x,x 1 1");
    let position = <Position<5>>::start_position();
    assert_eq!(
        position.to_fen(),
        "x,x,x,x,x/x,x,x,x,x/x,x,x,x,x/x,x,x,x,x/x,x,x,x,x 1 1"
    );
}

#[test]
fn from_fen_reads_start_position_test() {
    let position = <Position<3>>::from_fen("x,x,x/x,x,x/x,x,x 1 1").unwrap();
    assert!(position == <Position<3>>::start_position());
    let position = <Position<3>>::from_fen("x3/x3/x3 1 1").unwrap();
    assert!(position == <Position<3>>::start_position());
}

#[test]
fn from_fen_reads_compressed_rows_test() {
    let position = <Position<3>>::from_fen("x3/x,1,x/2S,x2 1 3").unwrap();
    assert_eq!(position.to_fen(), "x,x,x/x,1,x/2S,x,x 1 3");
    assert_eq!(position.half_moves_played(), 4);
    assert_eq!(position.white_reserves_left(), 9);
    assert_eq!(position.black_reserves_left(), 9);
}

#[test]
fn from_fen_reads_stacks_test() {
    let position = <Position<5>>::from_fen("x5/x5/x2,12121C,x2/x5/x5 2 5").unwrap();
    assert_eq!(position.to_fen(), "x,x,x,x,x/x,x,x,x,x/x,x,12121C,x,x/x,x,x,x,x/x,x,x,x,x 2 5");
    assert_eq!(position.half_moves_played(), 9);
    assert_eq!(position.white_reserves_left(), 19);
    assert_eq!(position.white_caps_left(), 0);
    assert_eq!(position.black_reserves_left(), 19);
    assert_eq!(position.black_caps_left(), 1);
}

#[test]
fn fen_round_trip_after_moves_test() {
    let position = play::<5>(&["a1", "e5", "Cc3", "Sd4", "c3<", "d4-", "b3+"]);
    let fen = position.to_fen();
    let read = <Position<5>>::from_fen(&fen).unwrap();
    assert!(read == position);
    assert_eq!(read.to_fen(), fen);
    assert_eq!(read.zobrist_hash(), position.zobrist_hash());
}

#[test]
fn from_fen_with_komi_test() {
    let komi = Komi::from_half_komi(4).unwrap();
    let position = <Position<6>>::from_fen_with_komi("x6/x6/x6/x6/x6/x6 1 1", komi).unwrap();
    assert_eq!(position.komi(), komi);
}

#[test]
fn from_fen_refuses_malformed_text_test() {
    // Two rows on a 3x3 board.
    assert!(<Position<3>>::from_fen("x3/x3 1 1").is_err());
    // No player to move 3.
    assert!(<Position<3>>::from_fen("x3/x3/x3 3 1").is_err());
    // Missing move number.
    assert!(<Position<3>>::from_fen("x3/x3/x3 1").is_err());
    // An extra word.
    assert!(<Position<3>>::from_fen("x3/x3/x3 1 1 1").is_err());
    // An unknown square.
    assert!(<Position<3>>::from_fen("x3/x,y,x/x3 1 1").is_err());
    // An unknown piece.
    assert!(<Position<3>>::from_fen("x3/x,1X,x/x3 1 1").is_err());
    // A row that is too short.
    assert!(<Position<3>>::from_fen("x3/x,x/x3 1 1").is_err());
    // A move number that is not a number.
    assert!(<Position<3>>::from_fen("x3/x3/x3 1 a").is_err());
}

#[test]
fn tps_out_of_range_test() {
    assert!(tps_out_of_range::<3>("x3/x3/x3 1 0"));
    assert!(!tps_out_of_range::<3>("x3/x3/x3 1 1"));
    assert!(!tps_out_of_range::<3>("x3/x3 1 0"));
    // Eleven white stones, where white has ten.
    assert!(tps_out_of_range::<3>("11111111111,x,x/x3/x3 1 1"));
}
