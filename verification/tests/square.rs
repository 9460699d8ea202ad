use tiltak::position::{Direction, Piece, Square, Stack};

#[test]
fn direction_neighbors_of_corner_and_centre_test() {
    // Square 0 is a5 on a 5x5 board: the top left corner.
    let corner = Square::<5>::from_u8(0);
    let neighbors = corner.direction_neighbors();
    assert_eq!(
        neighbors,
        vec![(Direction::East, Square::<5>::from_u8(5)), (Direction::South, Square::<5>::from_u8(1))]
    );
    let centre = Square::<5>::from_u8(12);
    assert_eq!(centre.direction_neighbors().len(), 4);
    assert_eq!(centre.go_direction(Direction::North), Some(Square::<5>::from_u8(11)));
    assert_eq!(corner.go_direction(Direction::North), None);
}

#[test]
fn square_cache_entry_test() {
    let square = Square::<4>::from_u8(3);
    let entry = square.cache_data();
    assert_eq!(entry.go_direction(square, Direction::North), Some(Square::<4>::from_u8(2)));
    assert_eq!(entry.go_direction(square, Direction::South), None);
    assert_eq!(entry.go_direction(square, Direction::East), Some(Square::<4>::from_u8(7)));
    let mut it = entry.into_iter();
    assert_eq!(it.next(), Some((Direction::North, Square::<4>::from_u8(2))));
    assert_eq!(it.next(), Some((Direction::East, Square::<4>::from_u8(7))));
    assert_eq!(it.next(), None);
}

#[test]
fn stack_iterates_from_the_bottom_test() {
    let mut stack = Stack::empty();
    stack.push(Piece::WhiteFlat);
    stack.push(Piece::BlackFlat);
    stack.push(Piece::WhiteCap);
    let mut it = stack.into_iter();
    assert_eq!(it.next(), Some(Piece::WhiteFlat));
    assert_eq!(it.next(), Some(Piece::BlackFlat));
    assert_eq!(it.next(), Some(Piece::WhiteCap));
    assert_eq!(it.next(), None);
}

#[test]
fn neighbors_and_directions_test() {
    let corner = Square::<5>::from_u8(0);
    assert_eq!(corner.neighbors(), vec![Square::<5>::from_u8(5), Square::<5>::from_u8(1)]);
    assert_eq!(corner.directions(), vec![Direction::East, Direction::South]);
    let centre = Square::<5>::from_u8(12);
    assert_eq!(centre.directions(), vec![Direction::North, Direction::West, Direction::East, Direction::South]);
    assert_eq!(centre.neighbors().len(), 4);
}
