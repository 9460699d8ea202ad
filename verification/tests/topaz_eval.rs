use tiltak::evaluation::parameters::{num_policy_features, num_value_features};
use tiltak::evaluation::topaz_eval::{
    build_features, pop_lowest, screlu, Accumulator, BoardData, Incremental, IncrementalState, Network,
    Piece, NNUE6,
    PieceSquare,
    TakSimple6, ValidPiece, BLACK_CAP, BLACK_FLAT, BLACK_WALL, WHITE_CAP, WHITE_FLAT, WHITE_WALL,
};
use tiltak::position::{Color, Position};

fn play<const S: usize>(moves: &[&str]) -> Position<S> {
    let mut position = <Position<S>>::start_position();
    for mv in moves {
        let mv = position.move_from_san(mv).unwrap();
        position.do_move(mv);
    }
    position
}

#[test]
fn valid_piece_bits_test() {
    assert_eq!(ValidPiece(WHITE_WALL).without_color(), 1);
    assert_eq!(ValidPiece(BLACK_CAP).without_color(), 2);
    assert_eq!(ValidPiece(BLACK_FLAT).promote_cap().0, BLACK_CAP);
    assert_eq!(ValidPiece(WHITE_WALL).promote_cap().0, 6);
    assert!(ValidPiece(WHITE_CAP).is_white());
    assert!(!ValidPiece(BLACK_WALL).is_white());
    assert_eq!(ValidPiece(BLACK_FLAT).color_index(), 1);
    assert_eq!(ValidPiece(WHITE_FLAT).color_index(), 0);
}

#[test]
fn piece_square_packing_test() {
    let mut ps = PieceSquare::new(35, BLACK_FLAT);
    assert_eq!(ps.square(), 35);
    assert_eq!(ps.piece().0, BLACK_FLAT);
    assert_eq!(ps.topaz_piece(), Piece::BlackFlat);
    ps.promote_wall();
    assert_eq!(ps.square(), 35);
    assert_eq!(ps.piece().0, BLACK_WALL);
    assert_eq!(ps.topaz_piece(), Piece::BlackWall);
}

#[test]
fn topaz_piece_test() {
    assert_eq!(Piece::from_index(4), Piece::BlackFlat);
    assert_eq!(Piece::from_index(3), Piece::WhiteCap);
    assert_eq!(Piece::BlackWall.kind_index(), 1);
    assert_eq!(Piece::WhiteCap.kind_index(), 2);
    assert_eq!(Piece::WhiteWall.owner(), Color::White);
    assert_eq!(Piece::WhiteWall.swap_color(), Piece::BlackWall);
    assert_eq!(Piece::WhiteWall.swap_color().swap_color(), Piece::WhiteWall);
    assert_eq!(Piece::BlackWall.crush(), Some(Piece::BlackFlat));
    assert_eq!(Piece::BlackFlat.uncrush(), Some(Piece::BlackWall));
    assert_eq!(Piece::WhiteCap.crush(), None);
    assert!(Piece::WhiteCap.road_piece(Color::White));
    assert!(!Piece::WhiteWall.road_piece(Color::White));
    assert!(!Piece::BlackFlat.road_piece(Color::White));
    assert!(Piece::BlackCap.is_blocker());
    assert!(!Piece::BlackFlat.is_blocker());
    assert_eq!(Piece::cap(Color::Black), Piece::BlackCap);
}

#[test]
fn screlu_test() {
    assert_eq!(screlu(-5), 0);
    assert_eq!(screlu(10), 100);
    assert_eq!(screlu(300), 255 * 255);
}

#[test]
fn pop_lowest_test() {
    let mut x: u64 = 0b1010;
    assert_eq!(pop_lowest(&mut x), 1);
    assert_eq!(x, 0b1000);
    assert_eq!(pop_lowest(&mut x), 3);
    assert_eq!(x, 0);
    assert_eq!(pop_lowest(&mut x), 0);
    assert_eq!(x, 0);
}

#[test]
fn incremental_state_diff_test() {
    let old = IncrementalState::from_vec(vec![3, 70, 500, 1023]);
    let mut new = IncrementalState::empty();
    new.add_feature(70);
    new.add_feature(1000);
    new.add_feature(2);
    new.add_feature(1023);
    let (sub, add) = new.diff(&old);
    assert_eq!(sub, vec![3, 500]);
    assert_eq!(add, vec![2, 1000]);
    let (sub, add) = old.diff(&old);
    assert!(sub.is_empty() && add.is_empty());
}

#[test]
fn board_data_of_start_position_test() {
    let position = <Position<6>>::start_position();
    let data = BoardData::from_position(&position);
    assert_eq!(data.data_len, 0);
    assert_eq!(data.caps, [255, 255]);
    assert!(data.white_to_move);
    let pairs = TakSimple6 {}.feature_pairs(&data);
    assert_eq!(pairs, vec![(975, 975), (1006, 1006), (936, 937)]);
}

#[test]
fn board_data_reads_stacks_from_the_top_test() {
    // a6 is square 0: white's flat there is covered by white's capstone.
    let position = play::<6>(&["b6", "a6", "Ca5", "c6", "a5+"]);
    let data = BoardData::from_position(&position);
    assert!(!data.white_to_move);
    assert_eq!(data.caps, [0, 255]);
    // Square 0 (a6): the capstone read as a white flat, then the white flat below it.
    assert_eq!(data.data[0].square(), 0);
    assert_eq!(data.data[0].piece().0, WHITE_FLAT);
    assert_eq!(data.data[1].square(), 0);
    assert_eq!(data.data[1].piece().0, WHITE_FLAT);
    // Then b6 (square 6) and c6 (square 12), each with a black flat.
    assert_eq!(data.data[2].square(), 6);
    assert_eq!(data.data[2].piece().0, BLACK_FLAT);
    assert_eq!(data.data[3].square(), 12);
    assert_eq!(data.data_len, 4);
    assert_eq!(data.data[4].0, 255);
}

#[test]
fn board_symmetry_inverse_test() {
    let position = play::<6>(&["b6", "a6", "Ca5", "c6", "a5+", "Sd3"]);
    let data = BoardData::from_position(&position);
    for (idx, inverse) in [(1, 1), (2, 2), (3, 5), (4, 4), (5, 3), (6, 6), (7, 7)] {
        let moved = data.symmetry(idx);
        let back = moved.symmetry(inverse);
        assert_eq!(back.caps, data.caps);
        assert_eq!(back.data, data.data);
        assert_eq!(back.data_len, data.data_len);
    }
    // A quarter turn takes the corner square 0 to square 30.
    assert_eq!(data.symmetry(3).caps[0], 30);
}

#[test]
fn build_features_test() {
    let position = play::<6>(&["b6", "a6"]);
    let data = BoardData::from_position(&position);
    let pairs = TakSimple6 {}.feature_pairs(&data);
    let (ours, theirs) = build_features(data);
    let mut expected_ours = IncrementalState::empty();
    let mut expected_theirs = IncrementalState::empty();
    for (x, y) in &pairs {
        expected_ours.add_feature(*x as u16);
        expected_theirs.add_feature(*y as u16);
    }
    assert_eq!(ours.bitset, expected_ours.bitset);
    assert_eq!(theirs.bitset, expected_theirs.bitset);
    assert_eq!(pairs.len(), 5);
}

#[test]
fn accumulator_adds_and_removes_feature_weights_test() {
    let mut feature_weights = vec![Accumulator { vals: [0; 512] }; 1024];
    feature_weights[7].vals[0] = 5;
    feature_weights[7].vals[511] = -3;
    feature_weights[9].vals[0] = 2;
    let net = Network {
        feature_weights,
        feature_bias: Accumulator { vals: [1; 512] },
        output_weights: vec![0; 1024],
        pqst: vec![0; 1024],
        output_bias: 0,
    };
    let mut acc = Accumulator::new(&net);
    assert_eq!(acc.vals[0], 1);
    acc.add_all(&[7, 9], &net);
    assert_eq!(acc.vals[0], 8);
    assert_eq!(acc.vals[511], -2);
    assert_eq!(acc.vals[100], 1);
    let copy = Accumulator::from_old(&acc);
    acc.remove_feature(7, &net);
    assert_eq!(acc.vals[0], 3);
    acc.remove_all(&[9], &net);
    assert_eq!(acc.vals, [1; 512]);
    assert_eq!(copy.vals[0], 8);
    acc.add_feature(9, &net);
    assert_eq!(acc.vals[0], 3);
}

#[test]
fn number_of_features_test() {
    assert_eq!(num_value_features::<4>(), 87);
    assert_eq!(num_value_features::<6>(), 134);
    assert_eq!(num_policy_features::<5>(), 176);
}

#[test]
fn network_evaluate_rounds_toward_zero_test() {
    let mut output_weights = vec![0i16; 1024];
    output_weights[0] = 2;
    output_weights[512] = -1;
    let mut pqst = vec![0i16; 1024];
    pqst[3] = 100;
    pqst[5] = 28;
    let net = Network {
        feature_weights: vec![Accumulator { vals: [0; 512] }; 1024],
        feature_bias: Accumulator { vals: [0; 512] },
        output_weights,
        pqst,
        output_bias: 10,
    };
    let mut us = Accumulator { vals: [0; 512] };
    us.vals[0] = 10;
    us.vals[1] = -40;
    let mut them = Accumulator { vals: [0; 512] };
    them.vals[0] = 300;
    // (( 2 * 10^2 - 255^2) / 255 + 10) * 400 / (255 * 64) + (100 + 28) * 400 / 255
    assert_eq!(net.evaluate(&us, &them, &[3, 5]), -5 + 200);
    assert_eq!(net.evaluate(&us, &them, &[]), -5);
    let quiet = Accumulator { vals: [0; 512] };
    assert_eq!(net.evaluate(&quiet, &quiet, &[]), 10 * 400 / (255 * 64));
}

fn small_network() -> Network {
    let mut feature_weights = vec![Accumulator { vals: [0; 512] }; 1024];
    for (f, column) in feature_weights.iter_mut().enumerate() {
        column.vals[0] = (f % 7) as i16 - 3;
        column.vals[1] = (f % 3) as i16;
    }
    let mut output_weights = vec![0i16; 1024];
    output_weights[0] = 300;
    output_weights[1] = -200;
    output_weights[512] = -100;
    output_weights[513] = 50;
    let pqst: Vec<i16> = (0..1024).map(|f| (f % 5) as i16 - 2).collect();
    let mut feature_bias = Accumulator { vals: [0; 512] };
    feature_bias.vals[0] = 20;
    feature_bias.vals[1] = 4;
    Network { feature_weights, feature_bias, output_weights, pqst, output_bias: 7 }
}

#[test]
fn incremental_eval_matches_manual_eval_test() {
    let net = small_network();
    let mut nnue = NNUE6::new(&net);
    assert_eq!(nnue.tempo_offset, 100);
    let mut position = <Position<6>>::start_position();
    for mv_string in ["a1", "f6", "c3", "d4", "c4", "c5", "Cd3", "Cb4", "c3<"] {
        let mv = position.move_from_san(mv_string).unwrap();
        position.do_move(mv);
        let data = BoardData::from_position(&position);
        let manual = NNUE6::manual_eval(&net, data);
        assert_eq!(nnue.incremental_eval(&net, data), manual);
    }
    // Evaluating the same board again from the cache changes nothing.
    let data = BoardData::from_position(&position);
    assert_eq!(nnue.incremental_eval(&net, data), NNUE6::manual_eval(&net, data));
}

#[test]
fn incremental_update_reaches_fresh_hidden_layer_test() {
    let net = small_network();
    let old = Incremental::fresh_new(&net, IncrementalState::from_vec(vec![1, 8, 70]));
    let new_state = IncrementalState::from_vec(vec![8, 9, 1000]);
    let updated = Incremental::update(&net, &old, new_state);
    let fresh = Incremental::fresh_new(&net, new_state);
    assert_eq!(updated.vec.vals, fresh.vec.vals);
    assert_eq!(updated.state.bitset, new_state.bitset);
    // 20 + (8 % 7 - 3) + (9 % 7 - 3) + (1000 % 7 - 3)
    assert_eq!(fresh.vec.vals[0], 20 - 2 - 1 + 3);
    assert_eq!(old.vec.vals[0], 20 - 2 - 2 - 3);
    let empty = Incremental::fresh_empty(&net);
    assert_eq!(empty.vec.vals, net.feature_bias.vals);
    assert_eq!(IncrementalState::from_vec(vec![70, 3, 1000]).features(), vec![3, 70, 1000]);
}
