use tiltak::position::mv::ExpMove;
use tiltak::position::{Direction, Move, Role, Square};

#[test]
fn ptn_round_trip_5s_test() {
    for text in ["a1", "Sa1", "Ca1", "e5", "a1>", "c2+", "d4<", "b3-", "3a1>12", "2b2-11", "5c3<212", "4e5-4"] {
        let mv = Move::<5>::from_string(text).unwrap();
        let expected = if text == "4e5-4" { "4e5-" } else { text };
        assert_eq!(mv.to_string(), expected);
    }
}

#[test]
fn ptn_parse_placements_test() {
    assert_eq!(
        ExpMove::<5>::from_string("a1").unwrap(),
        ExpMove::Place(Role::Flat, Square::from_u8(4))
    );
    assert_eq!(
        ExpMove::<5>::from_string("Cb2").unwrap(),
        ExpMove::Place(Role::Cap, Square::from_u8(8))
    );
    assert_eq!(
        ExpMove::<5>::from_string("Sa5").unwrap(),
        ExpMove::Place(Role::Wall, Square::from_u8(0))
    );
}

#[test]
fn ptn_parse_crush_notation_test() {
    assert_eq!(Move::<5>::from_string("2a1>11*").unwrap().to_string(), "2a1>11");
}

#[test]
fn ptn_parse_errors_test() {
    assert!(Move::<5>::from_string("").is_err());
    assert!(Move::<5>::from_string("a").is_err());
    assert!(Move::<5>::from_string("f1").is_err());
    assert!(Move::<5>::from_string("a6").is_err());
    assert!(Move::<5>::from_string("a1x").is_err());
    assert!(Move::<5>::from_string("Xa1").is_err());
    assert!(Move::<5>::from_string("6a1>").is_err());
    assert!(Move::<5>::from_string("3a1>1x").is_err());
    assert!(Move::<5>::from_string("é1").is_err());
}

#[test]
fn ptn_movement_parts_test() {
    let mv = Move::<5>::from_string("3a1>12").unwrap();
    match mv.expand() {
        ExpMove::Move(square, direction, movement) => {
            assert_eq!(square, Square::from_u8(4));
            assert_eq!(direction, Direction::East);
            assert_eq!(movement.len(), 2);
            assert_eq!(movement.get_first().pieces_to_take, 3);
        }
        ExpMove::Place(..) => panic!("expected a movement"),
    }
}
