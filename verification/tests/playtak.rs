use tiltak::position::playtak::playtak_move_panics;
use tiltak::position::{Move, Position};

#[test]
fn playtak_parse_tests_parse_place_move_test() {
    let move_strings = [
        ("P A1", "a1"),
        ("P A1 W", "Sa1"),
        ("P A1 C", "Ca1"),
        ("P D3 W", "Sd3"),
        ("P a1", "a1"),
        ("P a1 W", "Sa1"),
        ("P a1 C", "Ca1"),
        ("P d3 W", "Sd3"),
    ];

    for (playtak_move_string, san_move_string) in move_strings.iter() {
        assert_eq!(
            Move::<5>::from_string_playtak(playtak_move_string).to_string(),
            *san_move_string
        );
    }
}

#[test]
fn playtak_parse_tests_parse_move_move_test() {
    let move_strings = [
        ("M A1 C1 1 2", "3a1>12"),
        ("M C2 C3 1", "c2+"),
        ("M a1 c1 1 2", "3a1>12"),
        ("M c2 c3 1", "c2+"),
    ];

    for (playtak_move_string, san_move_string) in move_strings.iter() {
        assert_eq!(
            Move::<5>::from_string_playtak(playtak_move_string).to_string(),
            *san_move_string
        );
    }
}

#[test]
fn write_place_move_5s_test() {
    let move_strings = [
        ("P A1", "a1"),
        ("P A1 W", "Sa1"),
        ("P A1 C", "Ca1"),
        ("P D3 W", "Sd3"),
    ];

    for (playtak_move_string, san_move_string) in move_strings.iter() {
        let position = <Position<5>>::start_position();
        assert_eq!(
            position
                .move_from_san(san_move_string)
                .unwrap()
                .to_string_playtak(),
            *playtak_move_string
        );
    }
}

#[test]
fn write_move_move_5s_test() {
    let move_strings = [("M A1 C1 1 2", "3a1>12"), ("M C2 C3 1", "c2+")];

    for (playtak_move_string, san_move_string) in move_strings.iter() {
        let position = <Position<5>>::start_position();
        assert_eq!(
            position
                .move_from_san(san_move_string)
                .unwrap()
                .to_string_playtak(),
            *playtak_move_string
        );
    }
}

#[test]
fn playtak_round_trip_test() {
    for san in ["a5", "Se1", "Cc3", "5c3-", "4c2<13", "8a8>215", "c2+", "2d4<11"] {
        let mv = Move::<8>::from_string(san).unwrap();
        let text = mv.to_string_playtak();
        assert_eq!(Move::<8>::from_string_playtak(&text), mv);
    }
}

#[test]
fn playtak_move_panics_test() {
    assert!(playtak_move_panics::<5>(""));
    assert!(playtak_move_panics::<5>("P"));
    assert!(playtak_move_panics::<5>("P F1"));
    assert!(playtak_move_panics::<5>("P A1 X"));
    assert!(playtak_move_panics::<5>("X A1"));
    assert!(playtak_move_panics::<5>("M A1 C1"));
    assert!(playtak_move_panics::<5>("M A1 A1 1"));
    assert!(playtak_move_panics::<5>("M A1 B2 1"));
    assert!(playtak_move_panics::<5>("M A1 C1 0 3"));
    assert!(playtak_move_panics::<5>("M A1 B1 6"));
    assert!(playtak_move_panics::<5>("M A1 B1 x"));
    assert!(!playtak_move_panics::<5>("P A1 C extra words"));
    assert!(!playtak_move_panics::<5>("  M  A1   E1 +2  "));
    assert_eq!(
        Move::<5>::from_string_playtak("  M  A1   E1 +2  ").to_string(),
        "2a1>"
    );
}
