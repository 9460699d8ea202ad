use num_bigint::BigUint;
use tiltak::natural::Natural;
use tiltak::position::position_gen::{
    choose_multinomial, factorial, kth_permutation, permutation_to_index, FlatsConfiguration, PositionEncoder,
};
use tiltak::position::{Move, Position, Role, Square};

fn big(n: &Natural) -> BigUint {
    BigUint::new(n.digits.clone())
}

fn natural(n: &BigUint) -> Natural {
    Natural { digits: n.to_u32_digits() }
}

#[test]
fn kth_permutation_inverse_test() {
    let k = Natural::from_u64(1234);
    let categories = vec![2, 5, 3, 10];
    let permutation = kth_permutation(k.clone(), categories.clone());
    let index = permutation_to_index(&permutation, categories);
    assert_eq!(big(&index), big(&k));
}

#[test]
fn kth_permutation_first_and_last_test() {
    let categories = vec![1, 2];
    assert_eq!(kth_permutation(Natural::from_u64(0), categories.clone()), vec![0, 1, 1]);
    assert_eq!(kth_permutation(Natural::from_u64(1), categories.clone()), vec![1, 0, 1]);
    assert_eq!(kth_permutation(Natural::from_u64(2), categories.clone()), vec![1, 1, 0]);
    assert_eq!(big(&permutation_to_index(&[1, 1, 0], categories)), BigUint::from(2u64));
}

#[test]
fn factorial_test() {
    assert_eq!(big(&factorial(0)), 1u64.into());
    assert_eq!(big(&factorial(1)), 1u64.into());
    assert_eq!(big(&factorial(2)), 2u64.into());
    assert_eq!(big(&factorial(3)), 6u64.into());
    assert_eq!(big(&factorial(4)), 24u64.into());
    assert_eq!(big(&factorial(5)), 120u64.into());
    assert_eq!(big(&factorial(6)), 720u64.into());
}

#[test]
fn choose_multinomial_test() {
    // 5! / (2! 3!) = 10
    assert_eq!(big(&choose_multinomial(5, &[2, 3])), 10u64.into());
    // 6! / (1! 2! 3!) = 60
    assert_eq!(big(&choose_multinomial(6, &[1, 2, 3])), 60u64.into());
}

#[test]
fn count_positions_3s() {
    assert_eq!(
        big(&<PositionEncoder<3>>::initialize().count_legal_positions()),
        "96317109784544".parse().unwrap()
    );
}

#[test]
fn count_positions_4s() {
    assert_eq!(
        big(&<PositionEncoder<4>>::initialize().count_legal_positions()),
        "186068001400694400221565".parse().unwrap()
    );
}

#[test]
fn count_positions_5s() {
    assert_eq!(
        big(&<PositionEncoder<5>>::initialize().count_legal_positions()),
        "17373764696009420300241450342663955626".parse().unwrap()
    );
}

#[test]
fn count_positions_6s() {
    assert_eq!(
        big(&<PositionEncoder<6>>::initialize().count_legal_positions()),
        "234953877228339135776421063941057364108851372312359713".parse().unwrap()
    );
}

#[test]
fn decode_max_number_test() {
    let encoder = <PositionEncoder<5>>::initialize();
    let max = big(&encoder.count_legal_positions()) - BigUint::from(1u64);
    let position = encoder.decode(natural(&max));
    assert_eq!(big(&encoder.encode(&position)), max);
}

fn encode_start_position_prop<const S: usize>() {
    let k = Natural::from_u64(0);
    let data = PositionEncoder::<S>::initialize();
    let position: Position<S> = data.decode(k.clone());
    assert_eq!(position, Position::start_position());
    assert_eq!(big(&k), big(&data.encode(&position)));
}

#[test]
fn encode_start_position_test() {
    encode_start_position_prop::<3>();
    encode_start_position_prop::<4>();
    encode_start_position_prop::<5>();
}

fn encode_2nd_ply_prop<const S: usize>() {
    let k = Natural::from_u64(1);
    let data = <PositionEncoder<S>>::initialize();
    let position: Position<S> = data.decode(k.clone());
    assert_eq!(big(&k), big(&data.encode(&position)));

    let mut start_position = Position::start_position();
    start_position.do_move(Move::placement(Role::Flat, Square::from_u8(0)));

    assert_eq!(position, start_position);
}

#[test]
fn encode_2nd_ply_test() {
    encode_2nd_ply_prop::<3>();
    encode_2nd_ply_prop::<4>();
    encode_2nd_ply_prop::<5>();
}

#[test]
fn decode_encode_round_trip_3s_test() {
    let encoder = <PositionEncoder<3>>::initialize();
    for k in [2u64, 17, 1000, 123456789, 96317109784543] {
        let position = encoder.decode(Natural::from_u64(k));
        assert_eq!(big(&encoder.encode(&position)), BigUint::from(k));
    }
}

#[test]
fn configuration_classes_are_sorted_test() {
    let classes = FlatsConfiguration::all_after_opening(10);
    assert!(classes.is_sorted());
    assert_eq!(classes.len(), 200);
}
