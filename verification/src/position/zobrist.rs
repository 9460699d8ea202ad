//! Zobrist hashing of positions: fixed pseudo-random keys for each piece on each square.
use vstd::prelude::*;

use rand::{Rng, SeedableRng};

use super::square::{lemma_size, valid_size, Square};
use super::utils::{Color, Piece, Stack};

verus! {

/// The `index`-th `u64` (counting from 0) that `rand::rngs::StdRng`, seeded by
/// `SeedableRng::from_seed([0; 32])`, hands out through `Rng::gen::<u64>()`.
pub uninterp spec fn zero_seed_draw(index: u64) -> u64;

/// Draws key number `index`: a `StdRng` made by `SeedableRng::from_seed([0; 32])`, whose
/// draws of `u64` through the `Standard` distribution are taken in order, and the one at
/// `index` kept. The generator is deterministic, so the result is named as a function of the
/// index; nothing else is claimed of it.
#[verifier::external_body]
fn zobrist_random(index: u64) -> (k: u64)
    ensures
        k == zero_seed_draw(index),
{
    rand::rngs::StdRng::from_seed([0u8; 32]).sample_iter(rand::distributions::Standard).nth(
        index as usize,
    ).unwrap()
}

/// The keys are drawn in one sequence: for each square in turn the keys of the six pieces on
/// top of it; then, for each of the 8 bytes of a stack's color bits, each square's 256 keys;
/// then the keys of the two sides to move.
pub open spec fn top_key_index(size: int, square: int, piece: Piece) -> u64 {
    (square * 6 + piece.spec_index()) as u64
}

pub open spec fn stack_key_index(size: int, square: int, place: int, slice: int) -> u64 {
    (6 * size * size + place * 256 * size * size + square * 256 + slice) as u64
}

pub open spec fn to_move_key_index(size: int, color: Color) -> u64 {
    (6 * size * size + 2048 * size * size + if color == Color::White {
        0int
    } else {
        1int
    }) as u64
}

/// The key of `piece` lying on top of the stack on `square`.
pub open spec fn spec_top_key(size: int, square: int, piece: Piece) -> u64 {
    zero_seed_draw(top_key_index(size, square, piece))
}

/// The key of the 8 stack bits `slice` at byte `place` of the stack on `square`.
pub open spec fn spec_stack_key(size: int, square: int, place: int, slice: int) -> u64 {
    zero_seed_draw(stack_key_index(size, square, place, slice))
}

/// The key of the side to move.
pub open spec fn spec_to_move_key(size: int, color: Color) -> u64 {
    zero_seed_draw(to_move_key_index(size, color))
}

/// The byte `place` of the stack's color bits.
pub open spec fn stack_slice(stack: Stack, place: int) -> int {
    ((stack.bitboard.board >> ((place * 8) as u64)) & 255u64) as int
}

/// The keys of the first `places` bytes of a stack's color bits, combined.
pub open spec fn spec_stack_keys(size: int, square: int, stack: Stack, places: nat) -> u64
    decreases places,
{
    if places == 0 {
        0
    } else {
        spec_stack_keys(size, square, stack, (places - 1) as nat) ^ spec_stack_key(
            size,
            square,
            places - 1,
            stack_slice(stack, places - 1),
        )
    }
}

/// The hash contribution of one square: nothing for an empty square, otherwise the key of the
/// top piece combined with the keys of the bytes holding the colors of the pieces below it.
pub open spec fn spec_square_hash(size: int, square: int, stack: Stack) -> u64 {
    match stack.top_stone {
        None => 0,
        Some(top) => spec_top_key(size, square, top) ^ spec_stack_keys(
            size,
            square,
            stack,
            ((stack.height + 6) / 8) as nat,
        ),
    }
}

pub fn zobrist_top_stones<const S: usize>(square: Square<S>, piece: Piece) -> (k: u64)
    requires
        valid_size(S),
        square.valid(),
    ensures
        k == spec_top_key(S as int, square.inner as int, piece),
{
    let index = square.inner as u64 * 6 + piece.index() as u64;
    zobrist_random(index)
}

pub fn zobrist_stones_in_stack<const S: usize>(square: Square<S>, place_in_stack: usize, stack_slice: usize) -> (k: u64)
    requires
        valid_size(S),
        square.valid(),
        place_in_stack < 8,
        stack_slice < 256,
    ensures
        k == spec_stack_key(S as int, square.inner as int, place_in_stack as int, stack_slice as int),
{
    proof {
        lemma_size::<S>();
    }
    let n = (S * S) as u64;
    proof {
        let pl = place_in_stack as int;
        let sz = S as int;
        assert(pl * 256 * (n as int) <= 7 * 256 * 64 && pl * 256 * (n as int) == pl * 256 * sz * sz && 6
            * (n as int) == 6 * sz * sz)
            by (nonlinear_arith)
            requires
                0 <= pl < 8,
                n as int == sz * sz,
                n <= 64,
        ;
    }
    let index = 6 * n + place_in_stack as u64 * 256 * n + square.inner as u64 * 256 + stack_slice as u64;
    zobrist_random(index)
}

pub fn zobrist_to_move<const S: usize>(color: Color) -> (k: u64)
    requires
        valid_size(S),
    ensures
        k == spec_to_move_key(S as int, color),
{
    proof {
        lemma_size::<S>();
    }
    let n = (S * S) as u64;
    proof {
        let sz = S as int;
        assert(2048 * (n as int) == 2048 * sz * sz && 6 * (n as int) == 6 * sz * sz) by (nonlinear_arith)
            requires
                n as int == sz * sz,
        ;
    }
    let index = 6 * n + 2048 * n + color.disc() as u64;
    zobrist_random(index)
}

/// The hash contribution of the stack on `square`.
pub fn zobrist_hash_for_stack<const S: usize>(square: Square<S>, stack: Stack) -> (h: u64)
    requires
        valid_size(S),
        square.valid(),
        stack.wf(),
    ensures
        h == spec_square_hash(S as int, square.inner as int, stack),
{
    let mut hash: u64 = 0;
    if let Some(top_stone) = stack.top_stone {
        let top_key = zobrist_top_stones::<S>(square, top_stone);
        proof {
            assert(0u64 ^ top_key == top_key ^ 0u64) by (bit_vector);
        }
        hash = hash ^ top_key;
        let places = (stack.height as usize + 6) / 8;
        let mut i: usize = 0;
        while i < places
            invariant
                places == (stack.height + 6) / 8,
                places <= 8,
                i <= places,
                valid_size(S),
                square.valid(),
                stack.top_stone == Some(top_stone),
                hash == spec_top_key(S as int, square.inner as int, top_stone) ^ spec_stack_keys(
                    S as int,
                    square.inner as int,
                    stack,
                    i as nat,
                ),
            decreases places - i,
        {
            let slice = ((stack.bitboard.board >> ((i * 8) as u64)) & 255u64) as usize;
            proof {
                let b = stack.bitboard.board;
                let sh = (i * 8) as u64;
                assert((b >> sh) & 255u64 <= 255u64) by (bit_vector);
                let a = spec_top_key(S as int, square.inner as int, top_stone);
                let x = spec_stack_keys(S as int, square.inner as int, stack, i as nat);
                let y = spec_stack_key(S as int, square.inner as int, i as int, slice as int);
                assert((a ^ x) ^ y == a ^ (x ^ y)) by (bit_vector);
            }
            hash = hash ^ zobrist_stones_in_stack::<S>(square, i, slice);
            i = i + 1;
        }
    }
    hash
}

} // verus!
