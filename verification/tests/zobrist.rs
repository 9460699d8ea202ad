use rand::{Rng, SeedableRng};
use tiltak::position::{Piece, Position};

/// The keys in the order they are drawn from a generator seeded with zeros.
fn keys(n: usize) -> Vec<u64> {
    let mut rng = rand::rngs::StdRng::from_seed([0; 32]);
    (0..n).map(|_| rng.gen::<u64>()).collect()
}

#[test]
fn zobrist_keys_follow_the_zero_seeded_generator_test() {
    // 5x5: 6 top keys per square, then 8 * 256 stack keys per square, then the sides to move.
    let keys = keys(6 * 25 + 2048 * 25 + 2);
    let start = <Position<5>>::start_position();
    assert_eq!(start.zobrist_hash(), keys[6 * 25 + 2048 * 25]);

    let mut position = start.clone();
    let mv = position.move_from_san("a1").unwrap();
    let a1 = mv.origin_square().inner as usize;
    position.do_move(mv);
    // White placed a black flat on a1; black is to move.
    let black_flat = Piece::BlackFlat.index();
    assert_eq!(position.zobrist_hash(), keys[6 * 25 + 2048 * 25 + 1] ^ keys[a1 * 6 + black_flat]);
}
