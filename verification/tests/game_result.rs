use tiltak::position::game_result::{DetailedGameResult, GameResultForUs};
use tiltak::position::{Color, GameResult, Move, Position};

fn play<const S: usize>(moves: &[&str]) -> Position<S> {
    let mut position = <Position<S>>::start_position();
    for mv in moves {
        let mv = position.move_from_san(mv).unwrap();
        position.do_move(mv);
    }
    position
}

#[test]
fn start_position_is_not_over_test() {
    let position = <Position<5>>::start_position();
    assert_eq!(position.game_result(), None);
    assert_eq!(position.pgn_game_result(), None);
}

#[test]
fn white_road_win_test() {
    let before = play::<5>(&["a5", "e1", "b1", "a1", "b2", "a2", "b3", "a3", "b4", "c1"]);
    assert_eq!(before.game_result(), None);
    let position = play::<5>(&["a5", "e1", "b1", "a1", "b2", "a2", "b3", "a3", "b4", "c1", "b5"]);
    assert_eq!(position.game_result(), Some(GameResult::WhiteWin));
    assert_eq!(position.pgn_game_result(), Some("R-0"));
    let group_data = position.group_data();
    assert_eq!(
        position.detailed_game_result(&group_data),
        Some(DetailedGameResult::WhiteRoadWin)
    );
}

#[test]
fn black_road_win_test() {
    let before = play::<3>(&["a1", "c3", "b3", "b1", "b2"]);
    assert_eq!(before.game_result(), None);
    let position = play::<3>(&["a1", "c3", "b3", "b1", "b2", "c1"]);
    assert_eq!(position.game_result(), Some(GameResult::BlackWin));
    assert_eq!(position.pgn_game_result(), Some("0-R"));
}

#[test]
fn flat_win_on_full_board_test() {
    let before = play::<3>(&["b1", "a1", "c1", "a2", "b2", "c2", "a3", "b3"]);
    assert_eq!(before.game_result(), None);
    let position = play::<3>(&["b1", "a1", "c1", "a2", "b2", "c2", "a3", "b3", "c3"]);
    assert_eq!(position.game_result(), Some(GameResult::WhiteWin));
    assert_eq!(position.pgn_game_result(), Some("F-0"));
}

#[test]
fn is_win_by_road_finds_no_road_in_start_position_test() {
    let position = <Position<4>>::start_position();
    let group_data = position.group_data();
    assert_eq!(position.is_win_by_road(&group_data.groups, 17), None);
}

#[test]
fn group_data_labels_connected_flats_test() {
    let position = play::<4>(&["d4", "a1", "b1", "d3"]);
    let group_data = position.group_data();
    // White flats on a1 and b1 are connected, black flats on d4 and d3 are connected.
    let a1 = position.move_from_san("a1").unwrap().origin_square();
    let b1 = position.move_from_san("b1").unwrap().origin_square();
    let d4 = position.move_from_san("d4").unwrap().origin_square();
    let d3 = position.move_from_san("d3").unwrap().origin_square();
    assert_eq!(group_data.groups.get(a1), group_data.groups.get(b1));
    assert_eq!(group_data.groups.get(d4), group_data.groups.get(d3));
    assert_ne!(group_data.groups.get(a1), group_data.groups.get(d4));
    assert_ne!(group_data.groups.get(a1), 0);
    let _ = Move::<4>::from_string("a1").unwrap();
}

#[test]
fn game_result_for_us_not_test() {
    assert_eq!(!GameResultForUs::Win, GameResultForUs::Loss);
    assert_eq!(!GameResultForUs::Loss, GameResultForUs::Win);
    assert_eq!(!GameResultForUs::Draw, GameResultForUs::Draw);
}

#[test]
fn group_data_finds_critical_squares_test() {
    // White flats on a1, b1, c1 and d1: a white piece on e1 makes a road.
    let position = <Position<5>>::from_fen("x5/x5/x5/2,x4/1,1,1,1,x 2 5").unwrap();
    let group_data = position.group_data();
    let square = |text: &str| Move::<5>::from_string(text).unwrap().origin_square();
    assert!(group_data.is_critical_square(square("e1"), Color::White));
    assert!(!group_data.is_critical_square(square("e1"), Color::Black));
    assert!(!group_data.is_critical_square(square("c3"), Color::White));
    let mut white = vec![];
    let mut it = group_data.critical_squares(Color::White);
    while let Some(sq) = it.next() {
        white.push(sq);
    }
    assert_eq!(white, vec![square("e1")]);
    let mut it = group_data.critical_squares(Color::Black);
    assert!(it.next().is_none());
}
