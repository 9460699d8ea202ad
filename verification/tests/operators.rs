use tiltak::position::bitboard::BitBoard;
use tiltak::position::Piece;

#[test]
fn piece_not_swaps_color_test() {
    assert_eq!(!Piece::WhiteFlat, Piece::BlackFlat);
    assert_eq!(!Piece::BlackWall, Piece::WhiteWall);
    assert_eq!(!Piece::WhiteCap, Piece::BlackCap);
}

#[test]
fn bitboard_operators_test() {
    let a = BitBoard::from_u64(0b1100);
    let b = BitBoard::from_u64(0b1010);
    assert_eq!((a | b).board, 0b1110);
    assert_eq!((a & b).board, 0b1000);
    assert_eq!((!a).board, !0b1100u64);
    assert_eq!((a | b).count() + (a & b).count(), a.count() + b.count());
}
