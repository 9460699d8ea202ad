use tiltak::position::mv::ExpMove;
use tiltak::position::{Piece, Position};

fn play<const S: usize>(moves: &[&str]) -> Position<S> {
    let mut position = <Position<S>>::start_position();
    for mv in moves {
        let mv = position.move_from_san(mv).unwrap();
        position.do_move(mv);
    }
    position
}

#[test]
fn flip_and_rotate_move_stacks_test() {
    let position = play::<5>(&["a1"]);
    assert_eq!(position.to_fen(), "x,x,x,x,x/x,x,x,x,x/x,x,x,x,x/x,x,x,x,x/2,x,x,x,x 2 1");
    assert_eq!(position.flip_board_y().to_fen(), "2,x,x,x,x/x,x,x,x,x/x,x,x,x,x/x,x,x,x,x/x,x,x,x,x 2 1");
    assert_eq!(position.flip_board_x().to_fen(), "x,x,x,x,x/x,x,x,x,x/x,x,x,x,x/x,x,x,x,x/x,x,x,x,2 2 1");
    assert_eq!(position.rotate_board().to_fen(), "2,x,x,x,x/x,x,x,x,x/x,x,x,x,x/x,x,x,x,x/x,x,x,x,x 2 1");
    assert_eq!(position.rotate_board().rotate_board().to_fen(), "x,x,x,x,2/x,x,x,x,x/x,x,x,x,x/x,x,x,x,x/x,x,x,x,x 2 1");
}

#[test]
fn symmetries_come_back_test() {
    let position = play::<5>(&["a1", "e5", "Cc3", "Sd4", "c3<", "b3+"]);
    assert!(position.flip_board_y().flip_board_y() == position);
    assert!(position.flip_board_x().flip_board_x() == position);
    let r = position.rotate_board();
    assert!(r.rotate_board().rotate_board().rotate_board() == position);
    assert!(position.flip_colors().flip_colors() == position);
    let symmetries = position.symmetries();
    assert_eq!(symmetries.len(), 8);
    assert!(symmetries[0] == position);
    assert!(symmetries[3] == r);
    let all = position.symmetries_with_swapped_colors();
    assert_eq!(all.len(), 16);
    assert!(all[1] == position.flip_colors());
}

#[test]
fn flip_colors_swaps_pieces_and_reserves_test() {
    let position = play::<5>(&["a1", "e5"]);
    let flipped = position.flip_colors();
    assert_eq!(flipped.to_fen(), "x,x,x,x,2/x,x,x,x,x/x,x,x,x,x/x,x,x,x,x/1,x,x,x,x 2 2");
    assert_eq!(flipped.white_reserves_left(), position.black_reserves_left());
}

#[test]
fn top_stones_left_behind_by_move_test() {
    let position = play::<5>(&["a1", "e5", "c3", "d3", "c3>"]);
    let mv = position.move_from_san("2d3<11").unwrap();
    match mv.expand() {
        ExpMove::Move(square, _, stack_movement) => {
            let left = position.top_stones_left_behind_by_move(square, &stack_movement);
            assert_eq!(left, vec![None, Some(Piece::BlackFlat), Some(Piece::WhiteFlat)]);
        }
        _ => panic!("not a stack movement"),
    }
}
