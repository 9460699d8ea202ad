//! The integer parts of the Topaz network evaluation: pieces and squares packed into bytes,
//! the pieces of the board as the network reads them, the symmetries of the 6x6 board, and
//! sets of active features.
use vstd::prelude::*;

use crate::position::bits::{bit, lemma_bit_ops, lemma_bit_set, lemma_lowest_bit};
use crate::position::square::{lemma_size, valid_size};
use crate::position::{Color, Position, Square, Stack};

verus! {

/// How many pieces of a stack, from the top, the network reads.
pub const STACK_DEPTH: usize = 10;
pub const HIDDEN_SIZE: usize = 512;
pub const SCALE: i32 = 400;
pub const QA: i16 = 255;
pub const QB: i16 = 64;

/// A piece as the network reads it, in a byte: bit 0 is the color (0 for white), the bits
/// above it the kind (0 flat, 1 wall, 2 capstone).
#[derive(Clone, Copy, Debug, PartialEq, Eq, Structural)]
pub struct ValidPiece(pub u8);

/// The bytes of the six pieces.
pub const WHITE_FLAT: u8 = 0;
pub const BLACK_FLAT: u8 = 1;
pub const WHITE_WALL: u8 = 2;
pub const BLACK_WALL: u8 = 3;
pub const WHITE_CAP: u8 = 4;
pub const BLACK_CAP: u8 = 5;

/// The bit operations on piece bytes, as arithmetic.
pub proof fn lemma_piece_bits(x: u8)
    by (bit_vector)
    ensures
        x >> 1 == x / 2,
        x & 1 == x % 2,
        x ^ 1 == (if x % 2 == 0 {
            x + 1
        } else {
            x - 1
        }),
        x < 4 ==> x | 4 == x + 4,
{
}

impl ValidPiece {
    /// The kind of the piece: 0 for a flat, 1 for a wall, 2 for a capstone.
    pub fn without_color(self) -> (r: u8)
        ensures
            r == self.0 / 2,
    {
        proof {
            lemma_piece_bits(self.0);
        }
        self.0 >> 1
    }

    /// The piece of the same kind and the other color.
    fn flip_color(self) -> (r: Self)
        ensures
            r.0 == (if self.0 % 2 == 0 {
                self.0 + 1
            } else {
                self.0 - 1
            }),
    {
        proof {
            lemma_piece_bits(self.0);
        }
        ValidPiece(self.0 ^ 1)
    }

    /// The capstone of the piece's color, for a flat or a wall.
    pub fn promote_cap(self) -> (r: Self)
        ensures
            r.0 == self.0 | 4,
            self.0 < 4 ==> r.0 == self.0 + 4,
    {
        proof {
            lemma_piece_bits(self.0);
        }
        ValidPiece(self.0 | 4)
    }

    pub fn is_white(self) -> (b: bool)
        ensures
            b == (self.0 % 2 == 0),
    {
        proof {
            lemma_piece_bits(self.0);
        }
        (self.0 & 1) == 0
    }

    /// 0 for white, 1 for black.
    pub fn color_index(self) -> (r: usize)
        ensures
            r == self.0 % 2,
    {
        proof {
            lemma_piece_bits(self.0);
        }
        (self.0 & 1) as usize
    }
}

/// Flipping the color swaps the white and black piece of each kind.
pub proof fn lemma_flip_color_pairs()
    ensures
        WHITE_FLAT ^ 1 == BLACK_FLAT,
        BLACK_WALL ^ 1 == WHITE_WALL,
        BLACK_CAP ^ 1 == WHITE_CAP,
{
    lemma_piece_bits(WHITE_FLAT);
    lemma_piece_bits(BLACK_WALL);
    lemma_piece_bits(BLACK_CAP);
}

/// A piece on a square, in a byte: the square's number in the low 6 bits, the piece's byte
/// above them. Only flats and walls fit.
#[derive(Clone, Copy, Debug, PartialEq, Eq, Structural)]
pub struct PieceSquare(pub u8);

/// Packing and unpacking a piece and a square.
pub proof fn lemma_piece_square_bits(square: u8, piece: u8, x: u8)
    by (bit_vector)
    ensures
        square < 64 && piece < 4 ==> (square | (piece << 6)) & 63 == square,
        square < 64 && piece < 4 ==> (0xc0u8 & (square | (piece << 6))) >> 6 == piece,
        (0xc0u8 & x) >> 6 < 4,
        x & 63 < 64,
        (x & 63) | (((0xc0u8 & x) >> 6) << 6) == x,
        (x | 128) & 63 == x & 63,
        ((0xc0u8 & x) >> 6) % 2 == ((0xc0u8 & (x | 128)) >> 6) % 2,
        ((0xc0u8 & (x | 128)) >> 6) >= 2,
{
}

impl PieceSquare {
    pub fn new(square: usize, piece: u8) -> (ps: Self)
        ensures
            ps.0 == (square as u8) | (piece << 6),
    {
        PieceSquare((square as u8) | (piece << 6))
    }

    /// The square's number.
    pub fn square(self) -> (sq: u8)
        ensures
            sq == self.0 & 63,
            sq < 64,
    {
        proof {
            lemma_piece_square_bits(0, 0, self.0);
        }
        self.0 & 63
    }

    /// The piece.
    pub fn piece(self) -> (p: ValidPiece)
        ensures
            p.0 == (0xc0u8 & self.0) >> 6,
            p.0 < 4,
    {
        proof {
            lemma_piece_square_bits(0, 0, self.0);
        }
        let masked = 0xc0u8 & self.0;
        ValidPiece(masked >> 6)
    }

    /// Turns a flat into a wall of the same color, on the same square.
    pub fn promote_wall(&mut self)
        ensures
            final(self).0 == old(self).0 | 128,
            final(self).0 & 63 == old(self).0 & 63,
            ((0xc0u8 & final(self).0) >> 6) % 2 == ((0xc0u8 & old(self).0) >> 6) % 2,
            (0xc0u8 & final(self).0) >> 6 >= 2,
    {
        proof {
            lemma_piece_square_bits(0, 0, self.0);
        }
        self.0 = self.0 | 128;
    }

    /// The piece, as a piece of the network's board.
    pub fn topaz_piece(self) -> (p: Piece)
        ensures
            p == Piece::spec_from_valid((0xc0u8 & self.0) >> 6),
    {
        match self.piece().0 {
            0 => Piece::WhiteFlat,
            1 => Piece::BlackFlat,
            2 => Piece::WhiteWall,
            _ => Piece::BlackWall,
        }
    }
}

/// Packing a square and a flat or wall into a byte reads back as the square and the piece.
pub proof fn lemma_piece_square_round_trip(square: u8, piece: u8)
    requires
        square < 64,
        piece < 4,
    ensures
        (square | (piece << 6)) & 63 == square,
        (0xc0u8 & (square | (piece << 6))) >> 6 == piece,
{
    lemma_piece_square_bits(square, piece, 0);
}

/// A piece of the network's board.
#[derive(PartialEq, Eq, Clone, Copy, Hash, Structural, Debug)]
pub enum Piece {
    WhiteFlat,
    WhiteWall,
    WhiteCap,
    BlackFlat,
    BlackWall,
    BlackCap,
}

impl Piece {
    /// The piece's number: 1 to 3 for the white flat, wall and capstone, 4 to 6 for black's.
    pub open spec fn spec_index(self) -> u32 {
        match self {
            Piece::WhiteFlat => 1,
            Piece::WhiteWall => 2,
            Piece::WhiteCap => 3,
            Piece::BlackFlat => 4,
            Piece::BlackWall => 5,
            Piece::BlackCap => 6,
        }
    }

    /// The piece of a piece byte: the color in bit 0, the kind above it.
    pub open spec fn spec_from_valid(v: u8) -> Piece {
        if v == 0 {
            Piece::WhiteFlat
        } else if v == 1 {
            Piece::BlackFlat
        } else if v == 2 {
            Piece::WhiteWall
        } else if v == 3 {
            Piece::BlackWall
        } else if v == 4 {
            Piece::WhiteCap
        } else {
            Piece::BlackCap
        }
    }

    pub open spec fn spec_owner(self) -> Color {
        if self.spec_index() <= 3 {
            Color::White
        } else {
            Color::Black
        }
    }

    pub fn from_index(index: u32) -> (p: Self)
        requires
            1 <= index <= 6,
        ensures
            p.spec_index() == index,
    {
        match index {
            1 => Piece::WhiteFlat,
            2 => Piece::WhiteWall,
            3 => Piece::WhiteCap,
            4 => Piece::BlackFlat,
            5 => Piece::BlackWall,
            _ => Piece::BlackCap,
        }
    }

    pub fn owner(self) -> (c: Color)
        ensures
            c == self.spec_owner(),
    {
        match self {
            Piece::WhiteFlat | Piece::WhiteWall | Piece::WhiteCap => Color::White,
            Piece::BlackFlat | Piece::BlackWall | Piece::BlackCap => Color::Black,
        }
    }

    /// 0 for a flat, 1 for a wall, 2 for a capstone.
    pub fn kind_index(self) -> (k: usize)
        ensures
            k == (self.spec_index() - 1) % 3,
    {
        match self {
            Piece::WhiteFlat | Piece::BlackFlat => 0,
            Piece::WhiteWall | Piece::BlackWall => 1,
            Piece::WhiteCap | Piece::BlackCap => 2,
        }
    }

    pub fn is_flat(self) -> (b: bool)
        ensures
            b == (self == Piece::WhiteFlat || self == Piece::BlackFlat),
    {
        match self {
            Piece::WhiteFlat | Piece::BlackFlat => true,
            _ => false,
        }
    }

    pub fn is_wall(self) -> (b: bool)
        ensures
            b == (self == Piece::WhiteWall || self == Piece::BlackWall),
    {
        match self {
            Piece::WhiteWall | Piece::BlackWall => true,
            _ => false,
        }
    }

    pub fn is_cap(self) -> (b: bool)
        ensures
            b == (self == Piece::WhiteCap || self == Piece::BlackCap),
    {
        match self {
            Piece::WhiteCap | Piece::BlackCap => true,
            _ => false,
        }
    }

    /// Walls and capstones block roads and movements.
    pub fn is_blocker(self) -> (b: bool)
        ensures
            b == !(self == Piece::WhiteFlat || self == Piece::BlackFlat),
    {
        match self {
            Piece::WhiteFlat | Piece::BlackFlat => false,
            _ => true,
        }
    }

    pub fn wall(color: Color) -> (p: Self)
        ensures
            p.spec_owner() == color,
            p == Piece::WhiteWall || p == Piece::BlackWall,
    {
        match color {
            Color::White => Piece::WhiteWall,
            Color::Black => Piece::BlackWall,
        }
    }

    pub fn flat(color: Color) -> (p: Self)
        ensures
            p.spec_owner() == color,
            p == Piece::WhiteFlat || p == Piece::BlackFlat,
    {
        match color {
            Color::White => Piece::WhiteFlat,
            Color::Black => Piece::BlackFlat,
        }
    }

    pub fn cap(color: Color) -> (p: Self)
        ensures
            p.spec_owner() == color,
            p == Piece::WhiteCap || p == Piece::BlackCap,
    {
        match color {
            Color::White => Piece::WhiteCap,
            Color::Black => Piece::BlackCap,
        }
    }

    pub open spec fn spec_crush(self) -> Option<Piece> {
        match self {
            Piece::WhiteWall => Some(Piece::WhiteFlat),
            Piece::BlackWall => Some(Piece::BlackFlat),
            _ => None,
        }
    }

    pub open spec fn spec_uncrush(self) -> Option<Piece> {
        match self {
            Piece::WhiteFlat => Some(Piece::WhiteWall),
            Piece::BlackFlat => Some(Piece::BlackWall),
            _ => None,
        }
    }

    pub open spec fn spec_swap_color(self) -> Piece {
        match self {
            Piece::WhiteFlat => Piece::BlackFlat,
            Piece::BlackFlat => Piece::WhiteFlat,
            Piece::WhiteCap => Piece::BlackCap,
            Piece::BlackCap => Piece::WhiteCap,
            Piece::WhiteWall => Piece::BlackWall,
            Piece::BlackWall => Piece::WhiteWall,
        }
    }

    /// The flat a wall is flattened to.
    pub fn crush(self) -> (p: Option<Piece>)
        ensures
            p == self.spec_crush(),
    {
        match self {
            Piece::WhiteWall => Some(Piece::WhiteFlat),
            Piece::BlackWall => Some(Piece::BlackFlat),
            _ => None,
        }
    }

    /// The wall a flat was flattened from.
    pub fn uncrush(self) -> (p: Option<Piece>)
        ensures
            p == self.spec_uncrush(),
    {
        match self {
            Piece::WhiteFlat => Some(Piece::WhiteWall),
            Piece::BlackFlat => Some(Piece::BlackWall),
            _ => None,
        }
    }

    pub fn swap_color(self) -> (p: Self)
        ensures
            p == self.spec_swap_color(),
    {
        match self {
            Piece::WhiteFlat => Piece::BlackFlat,
            Piece::BlackFlat => Piece::WhiteFlat,
            Piece::WhiteCap => Piece::BlackCap,
            Piece::BlackCap => Piece::WhiteCap,
            Piece::WhiteWall => Piece::BlackWall,
            Piece::BlackWall => Piece::WhiteWall,
        }
    }

    /// Flats and capstones of the color count for its roads.
    pub fn road_piece(self, color: Color) -> (b: bool)
        ensures
            b == (self.spec_owner() == color && !(self == Piece::WhiteWall || self
                == Piece::BlackWall)),
    {
        if let Color::White = color {
            match self {
                Piece::WhiteFlat | Piece::WhiteCap => true,
                _ => false,
            }
        } else {
            match self {
                Piece::BlackFlat | Piece::BlackCap => true,
                _ => false,
            }
        }
    }
}

/// Swapping colors twice gives the piece back and changes the owner; crushing a wall and
/// raising it again gives the wall back.
pub proof fn lemma_piece_laws(p: Piece)
    ensures
        p.spec_swap_color().spec_swap_color() == p,
        p.spec_swap_color().spec_owner() != p.spec_owner(),
        p.spec_crush() matches Some(f) ==> f.spec_uncrush() == Some(p),
        p.spec_uncrush() matches Some(w) ==> w.spec_crush() == Some(p),
{
}

/// The network's activation: the input clamped to `0..=QA`, squared.
pub fn screlu(x: i16) -> (r: i32)
    ensures
        r == (if x < 0 {
            0
        } else if x > QA {
            QA as int
        } else {
            x as int
        }) * (if x < 0 {
            0
        } else if x > QA {
            QA as int
        } else {
            x as int
        }),
        r == screlu_value(x as int),
        0 <= r <= QA * QA,
{
    let c: i32 = if x < 0 {
        0
    } else if x > QA {
        QA as i32
    } else {
        x as i32
    };
    proof {
        assert(0 <= c * c <= 255 * 255) by (nonlinear_arith)
            requires
                0 <= c <= 255,
        ;
    }
    c * c
}

/// A word with one bit set.
pub proof fn lemma_single_bit(i: u64, j: u64)
    requires
        i < 64,
        j < 64,
    ensures
        bit(1u64 << i, j) == (i == j),
{
    assert(i < 64 && j < 64 ==> ((((1u64 << i) >> j) & 1u64 == 1u64) == (i == j))) by (bit_vector);
}

/// Clears the lowest set bit of a word and returns its index; returns 0 for a word of zeros.
pub fn pop_lowest(x: &mut u64) -> (r: u32)
    ensures
        *old(x) == 0 ==> r == 0 && *final(x) == 0,
        *old(x) != 0 ==> {
            &&& r < 64
            &&& bit(*old(x), r as u64)
            &&& forall|j: u64| j < r ==> !#[trigger] bit(*old(x), j)
            &&& forall|j: u64| j < 64 ==> #[trigger] bit(*final(x), j) == (j != r && bit(*old(x), j))
            &&& *final(x) < *old(x)
        },
{
    let highest_index = x.trailing_zeros();
    proof {
        vstd::std_specs::bits::axiom_u64_trailing_zeros(*x);
    }
    if highest_index == 64 {
        0
    } else {
        proof {
            lemma_lowest_bit(*x);
        }
        let ghost before = *x;
        let value = 1u64 << highest_index;
        proof {
            let t = highest_index as u64;
            assert(t < 64 && (before >> t) & 1u64 == 1u64 ==> before ^ (1u64 << t) < before) by (bit_vector);
        }
        *x = *x ^ value;
        proof {
            assert forall|j: u64| j < 64 implies #[trigger] bit(*x, j) == (j != highest_index && bit(
                before,
                j,
            )) by {
                lemma_bit_ops(before, value, j);
                lemma_single_bit(highest_index as u64, j);
            }
        }
        highest_index
    }
}

/// The features that are active for one side, as a set of bits: feature `f` is bit `f % 64`
/// of word `f / 64`.
#[derive(Clone, Copy)]
pub struct IncrementalState {
    pub bitset: [u64; 16],
}

/// The number of features the network has.
pub open spec fn num_features() -> int {
    1024
}

impl IncrementalState {
    /// Whether feature `f` is active.
    pub open spec fn has(self, f: int) -> bool {
        0 <= f < num_features() && bit(self.bitset@[f / 64], (f % 64) as u64)
    }

    pub fn empty() -> (st: Self)
        ensures
            forall|f: int| !(#[trigger] st.has(f)),
    {
        let st = IncrementalState { bitset: [0u64; 16] };
        proof {
            assert forall|f: int| !(#[trigger] st.has(f)) by {
                if 0 <= f < num_features() {
                    assert(st.bitset@[f / 64] == 0);
                    lemma_bit_ops(0, 0, (f % 64) as u64);
                }
            }
        }
        st
    }

    /// Makes feature `val` active.
    pub fn add_feature(&mut self, val: u16)
        requires
            (val as int) < num_features(),
        ensures
            forall|f: int| #[trigger] final(self).has(f) == (old(self).has(f) || f == val),
    {
        let b_idx = (val / 64) as usize;
        let b_val: u64 = 1u64 << ((val % 64) as u64);
        let ghost before = *self;
        self.bitset[b_idx] = self.bitset[b_idx] | b_val;
        proof {
            assert forall|f: int| #[trigger] self.has(f) == (before.has(f) || f == val) by {
                if 0 <= f < num_features() {
                    let j = (f % 64) as u64;
                    lemma_bit_set(before.bitset@[f / 64], (val % 64) as u64, j);
                    if f / 64 == b_idx {
                        assert(self.bitset@[f / 64] == before.bitset@[f / 64] | b_val);
                        assert((f == val) == (j == (val % 64) as u64));
                    } else {
                        assert(self.bitset@[f / 64] == before.bitset@[f / 64]);
                    }
                }
            }
        }
    }

    /// The features of a list made active.
    pub fn from_vec(vec: Vec<u16>) -> (st: Self)
        requires
            forall|i: int| 0 <= i < vec.len() ==> (#[trigger] vec@[i] as int) < num_features(),
        ensures
            forall|f: int| #[trigger] st.has(f) == (vec@.contains(f as u16) && 0 <= f < num_features()),
    {
        let mut st = Self::empty();
        let mut i: usize = 0;
        while i < vec.len()
            invariant
                i <= vec.len(),
                forall|k: int| 0 <= k < vec.len() ==> (#[trigger] vec@[k] as int) < num_features(),
                forall|f: int| #[trigger] st.has(f) == (exists|k: int| 0 <= k < i && vec@[k] == f),
            decreases vec.len() - i,
        {
            let val = vec[i];
            st.add_feature(val);
            proof {
                assert forall|f: int| #[trigger] st.has(f) == (exists|k: int| 0 <= k < i + 1 && vec@[k] == f) by {
                    if f == val {
                        assert(vec@[i as int] == f);
                    }
                }
            }
            i = i + 1;
        }
        proof {
            assert forall|f: int| #[trigger] st.has(f) == (vec@.contains(f as u16) && 0 <= f < num_features()) by {
                if st.has(f) {
                    let k = choose|k: int| 0 <= k < vec.len() && vec@[k] == f;
                    assert(vec@[k] == f as u16);
                }
                if vec@.contains(f as u16) && 0 <= f < num_features() {
                    let k = choose|k: int| 0 <= k < vec.len() && vec@[k] == f as u16;
                    assert(vec@[k] == f);
                }
            }
        }
        st
    }
}

/// `v` lists, in increasing order, exactly the features for which `p` holds.
pub open spec fn lists_exactly(v: Seq<u16>, p: spec_fn(int) -> bool) -> bool {
    &&& forall|k1: int, k2: int| 0 <= k1 < k2 < v.len() ==> v[k1] < v[k2]
    &&& forall|k: int| 0 <= k < v.len() ==> #[trigger] p(v[k] as int)
    &&& forall|f: int| #[trigger] p(f) ==> exists|k: int| 0 <= k < v.len() && v[k] == f
}

/// Appends `base + j` for each set bit `j` of a word, lowest first.
fn push_bits(out: &mut Vec<u16>, word: u64, base: u16)
    requires
        base + 64 <= 65536,
    ensures
        final(out)@.len() >= old(out)@.len(),
        final(out)@.subrange(0, old(out)@.len() as int) == old(out)@,
        forall|k: int|
            old(out)@.len() <= k < final(out)@.len() ==> base <= #[trigger] final(out)@[k] < base + 64
                && bit(word, (final(out)@[k] - base) as u64),
        forall|j: u64|
            j < 64 && #[trigger] bit(word, j) ==> exists|k: int|
                old(out)@.len() <= k < final(out)@.len() && final(out)@[k] == base + j,
        forall|k1: int, k2: int|
            old(out)@.len() <= k1 < k2 < final(out)@.len() ==> final(out)@[k1] < final(out)@[k2],
{
    let ghost start = out@;
    let mut rest = word;
    while rest != 0
        invariant
            base + 64 <= 65536,
            out@.len() >= start.len(),
            out@.subrange(0, start.len() as int) == start,
            forall|k: int|
                start.len() <= k < out@.len() ==> base <= #[trigger] out@[k] < base + 64 && bit(
                    word,
                    (out@[k] - base) as u64,
                ),
            forall|j: u64|
                j < 64 && #[trigger] bit(word, j) ==> bit(rest, j) || exists|k: int|
                    start.len() <= k < out@.len() && out@[k] == base + j,
            forall|j: u64| j < 64 && #[trigger] bit(rest, j) ==> bit(word, j),
            forall|k: int, j: u64|
                #![trigger out@[k], bit(rest, j)]
                start.len() <= k < out@.len() && j < 64 && bit(rest, j) ==> out@[k] < base + j,
            forall|k1: int, k2: int|
                start.len() <= k1 < k2 < out@.len() ==> out@[k1] < out@[k2],
        decreases rest,
    {
        let ghost before = rest;
        let ghost before_out = out@;
        let b = pop_lowest(&mut rest);
        out.push(base + b as u16);
        proof {
            assert(out@.subrange(0, start.len() as int) =~= start);
            assert forall|j: u64| j < 64 && #[trigger] bit(word, j) implies bit(rest, j) || exists|k: int|
                start.len() <= k < out@.len() && out@[k] == base + j by {
                if j == b {
                    assert(out@[out@.len() - 1] == base + j);
                } else if !bit(rest, j) {
                    assert(!bit(before, j));
                    let k = choose|k: int| start.len() <= k < before_out.len() && before_out[k] == base + j;
                    assert(out@[k] == base + j);
                }
            }
        }
    }
    proof {
        assert forall|j: u64| j < 64 && #[trigger] bit(word, j) implies exists|k: int|
            start.len() <= k < out@.len() && out@[k] == base + j by {
            lemma_bit_ops(0, 0, j);
        }
    }
}

/// Feature `word * 64 + j` is bit `j` of word `word`.
proof fn lemma_feature_index(word: int, j: int)
    requires
        0 <= word,
        0 <= j < 64,
    ensures
        (word * 64 + j) / 64 == word,
        (word * 64 + j) % 64 == j,
{
    vstd::arithmetic::div_mod::lemma_fundamental_div_mod_converse(word * 64 + j, 64, word, j);
}

impl IncrementalState {
    /// The features that were active in `old` and are not any more, and those that are active
    /// now and were not in `old`, each in increasing order.
    pub fn diff(&self, old: &Self) -> (r: (Vec<u16>, Vec<u16>))
        ensures
            lists_exactly(r.0@, |f: int| old.has(f) && !self.has(f)),
            lists_exactly(r.1@, |f: int| self.has(f) && !old.has(f)),
    {
        let ghost gone = |f: int| old.has(f) && !self.has(f);
        let ghost came = |f: int| self.has(f) && !old.has(f);
        let mut subtract_indices: Vec<u16> = Vec::new();
        let mut add_indices: Vec<u16> = Vec::new();
        let mut idx: usize = 0;
        while idx < 16
            invariant
                idx <= 16,
                gone == (|f: int| old.has(f) && !self.has(f)),
                came == (|f: int| self.has(f) && !old.has(f)),
                forall|k: int| 0 <= k < subtract_indices.len() ==> (#[trigger] subtract_indices@[k]) < idx * 64,
                forall|k: int| 0 <= k < add_indices.len() ==> (#[trigger] add_indices@[k]) < idx * 64,
                forall|k: int| 0 <= k < subtract_indices.len() ==> #[trigger] gone(subtract_indices@[k] as int),
                forall|k: int| 0 <= k < add_indices.len() ==> #[trigger] came(add_indices@[k] as int),
                forall|k1: int, k2: int|
                    0 <= k1 < k2 < subtract_indices.len() ==> subtract_indices@[k1] < subtract_indices@[k2],
                forall|k1: int, k2: int|
                    0 <= k1 < k2 < add_indices.len() ==> add_indices@[k1] < add_indices@[k2],
                forall|f: int|
                    f < idx * 64 && #[trigger] gone(f) ==> exists|k: int|
                        0 <= k < subtract_indices.len() && subtract_indices@[k] == f,
                forall|f: int|
                    f < idx * 64 && #[trigger] came(f) ==> exists|k: int|
                        0 <= k < add_indices.len() && add_indices@[k] == f,
            decreases 16 - idx,
        {
            let n = self.bitset[idx];
            let o = old.bitset[idx];
            let d = n ^ o;
            let base = (idx * 64) as u16;
            let ghost sub0 = subtract_indices@;
            let ghost add0 = add_indices@;
            let sub = d & o;
            let add = d & n;
            proof {
                assert forall|j: u64| j < 64 implies #[trigger] bit(sub, j) == gone(base + j) by {
                    lemma_feature_index(idx as int, j as int);
                    lemma_bit_ops(n, o, j);
                    lemma_bit_ops(d, o, j);
                }
                assert forall|j: u64| j < 64 implies #[trigger] bit(add, j) == came(base + j) by {
                    lemma_feature_index(idx as int, j as int);
                    lemma_bit_ops(n, o, j);
                    lemma_bit_ops(d, n, j);
                }
            }
            if d != 0 {
                push_bits(&mut subtract_indices, sub, base);
                push_bits(&mut add_indices, add, base);
            } else {
                proof {
                    assert forall|j: u64| j < 64 implies !#[trigger] bit(sub, j) by {
                        lemma_bit_ops(d, o, j);
                        lemma_bit_ops(0, 0, j);
                    }
                    assert forall|j: u64| j < 64 implies !#[trigger] bit(add, j) by {
                        lemma_bit_ops(d, n, j);
                        lemma_bit_ops(0, 0, j);
                    }
                }
            }
            proof {
                assert forall|k: int| 0 <= k < subtract_indices.len() implies #[trigger] gone(
                    subtract_indices@[k] as int,
                ) by {
                    if k >= sub0.len() {
                        let e = subtract_indices@[k] as int;
                        let j = (e - base) as u64;
                        assert(bit(sub, j));
                        assert(e == base + j);
                    } else {
                        assert(subtract_indices@[k] == sub0[k]);
                    }
                }
                assert forall|k: int| 0 <= k < add_indices.len() implies #[trigger] came(
                    add_indices@[k] as int,
                ) by {
                    if k >= add0.len() {
                        let e = add_indices@[k] as int;
                        let j = (e - base) as u64;
                        assert(bit(add, j));
                        assert(e == base + j);
                    } else {
                        assert(add_indices@[k] == add0[k]);
                    }
                }
                assert forall|k: int| 0 <= k < subtract_indices.len() implies (#[trigger] subtract_indices@[k])
                    < (idx + 1) * 64 by {
                    if k < sub0.len() {
                        assert(subtract_indices@[k] == sub0[k]);
                    }
                }
                assert forall|k: int| 0 <= k < add_indices.len() implies (#[trigger] add_indices@[k]) < (idx
                    + 1) * 64 by {
                    if k < add0.len() {
                        assert(add_indices@[k] == add0[k]);
                    }
                }
                assert forall|k1: int, k2: int|
                    0 <= k1 < k2 < subtract_indices.len() implies subtract_indices@[k1] < subtract_indices@[k2] by {
                    if k2 < sub0.len() {
                        assert(subtract_indices@[k1] == sub0[k1]);
                        assert(subtract_indices@[k2] == sub0[k2]);
                    } else if k1 < sub0.len() {
                        assert(subtract_indices@[k1] == sub0[k1]);
                    }
                }
                assert forall|k1: int, k2: int|
                    0 <= k1 < k2 < add_indices.len() implies add_indices@[k1] < add_indices@[k2] by {
                    if k2 < add0.len() {
                        assert(add_indices@[k1] == add0[k1]);
                        assert(add_indices@[k2] == add0[k2]);
                    } else if k1 < add0.len() {
                        assert(add_indices@[k1] == add0[k1]);
                    }
                }
                assert forall|f: int| f < (idx + 1) * 64 && #[trigger] gone(f) implies exists|k: int|
                    0 <= k < subtract_indices.len() && subtract_indices@[k] == f by {
                    if f < idx * 64 {
                        let k = choose|k: int| 0 <= k < sub0.len() && sub0[k] == f;
                        assert(subtract_indices@[k] == f);
                    } else {
                        let j = (f - base) as u64;
                        lemma_feature_index(idx as int, j as int);
                        assert(bit(sub, j));
                    }
                }
                assert forall|f: int| f < (idx + 1) * 64 && #[trigger] came(f) implies exists|k: int|
                    0 <= k < add_indices.len() && add_indices@[k] == f by {
                    if f < idx * 64 {
                        let k = choose|k: int| 0 <= k < add0.len() && add0[k] == f;
                        assert(add_indices@[k] == f);
                    } else {
                        let j = (f - base) as u64;
                        lemma_feature_index(idx as int, j as int);
                        assert(bit(add, j));
                    }
                }
            }
            idx = idx + 1;
        }
        (subtract_indices, add_indices)
    }
}

/// Two lists that hold the same values, each in increasing order, agree on their first `i`
/// entries.
proof fn lemma_sorted_prefix(v: Seq<u16>, w: Seq<u16>, p: spec_fn(int) -> bool, i: int)
    requires
        lists_exactly(v, p),
        lists_exactly(w, p),
        0 <= i <= v.len(),
        i <= w.len(),
    ensures
        forall|j: int| 0 <= j < i ==> v[j] == w[j],
    decreases i,
{
    if i > 0 {
        lemma_sorted_prefix(v, w, p, i - 1);
        let x = v[i - 1];
        assert(p(x as int));
        let k = choose|k: int| 0 <= k < w.len() && w[k] == x;
        if k < i - 1 {
            assert(v[k] == w[k]);
        } else if k > i - 1 {
            let y = w[i - 1];
            assert(p(y as int));
            let m = choose|m: int| 0 <= m < v.len() && v[m] == y;
            if m < i - 1 {
                assert(v[m] == w[m]);
            }
        }
    }
}

/// A list of values in increasing order is fixed by the values it holds.
pub proof fn lemma_lists_exactly_unique(v: Seq<u16>, w: Seq<u16>, p: spec_fn(int) -> bool)
    requires
        lists_exactly(v, p),
        lists_exactly(w, p),
    ensures
        v == w,
{
    if v.len() > w.len() {
        lemma_sorted_prefix(v, w, p, w.len() as int);
        let x = v[w.len() as int];
        assert(p(x as int));
        let k = choose|k: int| 0 <= k < w.len() && w[k] == x;
        assert(v[k] == w[k]);
    } else if w.len() > v.len() {
        lemma_sorted_prefix(v, w, p, v.len() as int);
        let x = w[v.len() as int];
        assert(p(x as int));
        let k = choose|k: int| 0 <= k < v.len() && v[k] == x;
        assert(v[k] == w[k]);
    } else {
        lemma_sorted_prefix(v, w, p, v.len() as int);
        assert(v =~= w);
    }
}

/// Comparing two states the other way round swaps the two lists `diff` gives: what one lists
/// as gone the other lists as new.
pub proof fn lemma_diff_swaps(
    new: IncrementalState,
    old: IncrementalState,
    sub: Seq<u16>,
    add: Seq<u16>,
    sub2: Seq<u16>,
    add2: Seq<u16>,
)
    requires
        lists_exactly(sub, |f: int| old.has(f) && !new.has(f)),
        lists_exactly(add, |f: int| new.has(f) && !old.has(f)),
        lists_exactly(sub2, |f: int| new.has(f) && !old.has(f)),
        lists_exactly(add2, |f: int| old.has(f) && !new.has(f)),
    ensures
        sub == add2,
        add == sub2,
{
    lemma_lists_exactly_unique(sub, add2, |f: int| old.has(f) && !new.has(f));
    lemma_lists_exactly_unique(add, sub2, |f: int| new.has(f) && !old.has(f));
}

/// Removing the features `diff` lists as gone from the old state, and adding those it lists as
/// new, gives the new state's features.
pub proof fn lemma_diff_updates(new: IncrementalState, old: IncrementalState, sub: Seq<u16>, add: Seq<u16>)
    requires
        lists_exactly(sub, |f: int| old.has(f) && !new.has(f)),
        lists_exactly(add, |f: int| new.has(f) && !old.has(f)),
    ensures
        forall|f: int|
            #![trigger new.has(f)]
            #![trigger old.has(f)]
            new.has(f) <==> (old.has(f) && !(exists|k: int| 0 <= k < sub.len() && sub[k] == f)) || (exists|k: int|
                0 <= k < add.len() && add[k] == f),
{
    let gone = |f: int| old.has(f) && !new.has(f);
    let came = |f: int| new.has(f) && !old.has(f);
    assert forall|f: int|
        new.has(f) <==> (old.has(f) && !(exists|k: int| 0 <= k < sub.len() && sub[k] == f)) || (exists|k: int|
            0 <= k < add.len() && add[k] == f) by {
        if exists|k: int| 0 <= k < sub.len() && sub[k] == f {
            let k = choose|k: int| 0 <= k < sub.len() && sub[k] == f;
            assert(gone(sub[k] as int));
        }
        if exists|k: int| 0 <= k < add.len() && add[k] == f {
            let k = choose|k: int| 0 <= k < add.len() && add[k] == f;
            assert(came(add[k] as int));
        }
        if gone(f) {
        }
        if came(f) {
        }
    }
}

/// The pieces of a board as the network reads them: for each square in turn, up to
/// `STACK_DEPTH` pieces of its stack from the top down, with capstones as flats; the squares
/// of the two capstones on top of a stack (255 when there is none); and the player to move.
#[derive(Clone, Copy, Debug)]
pub struct BoardData {
    pub caps: [u8; 2],
    pub data: [PieceSquare; 62],
    pub data_len: u8,
    pub white_to_move: bool,
}

/// The square a symmetry of the 6x6 board takes square `i` to: 1 mirrors the rows, 2 the
/// columns, 3 to 5 rotate a quarter turn one to three times, 6 and 7 rotate and then mirror
/// the rows or the columns; any other number leaves the square.
pub open spec fn sym_square(rotation: int, i: int) -> int {
    let row = i / 6;
    let col = i % 6;
    let (r, c) = if rotation == 1 {
        (5 - row, col)
    } else if rotation == 2 {
        (row, 5 - col)
    } else if rotation == 3 {
        (5 - col, row)
    } else if rotation == 4 {
        (5 - row, 5 - col)
    } else if rotation == 5 {
        (col, 5 - row)
    } else if rotation == 6 {
        (col, row)
    } else if rotation == 7 {
        (5 - col, 5 - row)
    } else {
        (row, col)
    };
    r * 6 + c
}

/// The symmetry that undoes symmetry `rotation`.
pub open spec fn inverse_rotation(rotation: int) -> int {
    if rotation == 3 {
        5
    } else if rotation == 5 {
        3
    } else {
        rotation
    }
}

/// Every symmetry takes the squares of the 6x6 board to squares of it, and the inverse
/// symmetry takes them back: each is a permutation of the 36 squares.
pub proof fn lemma_sym_square(rotation: int, i: int)
    requires
        0 <= rotation < 8,
        0 <= i < 36,
    ensures
        0 <= sym_square(rotation, i) < 36,
        sym_square(inverse_rotation(rotation), sym_square(rotation, i)) == i,
{
    let row = i / 6;
    let col = i % 6;
    vstd::arithmetic::div_mod::lemma_fundamental_div_mod(i, 6);
    let j = sym_square(rotation, i);
    let r = j / 6;
    let c = j % 6;
    assert(0 <= row < 6 && 0 <= col < 6);
    assert(0 <= j < 36);
    let (r0, c0) = if rotation == 1 {
        (5 - row, col)
    } else if rotation == 2 {
        (row, 5 - col)
    } else if rotation == 3 {
        (5 - col, row)
    } else if rotation == 4 {
        (5 - row, 5 - col)
    } else if rotation == 5 {
        (col, 5 - row)
    } else if rotation == 6 {
        (col, row)
    } else if rotation == 7 {
        (5 - col, 5 - row)
    } else {
        (row, col)
    };
    vstd::arithmetic::div_mod::lemma_fundamental_div_mod_converse(j, 6, r0, c0);
}

/// The table of a symmetry: the square each square goes to.
fn transform(rotation: usize) -> (table: [u8; 36])
    requires
        rotation < 8,
    ensures
        forall|i: int| 0 <= i < 36 ==> #[trigger] table@[i] == sym_square(rotation as int, i),
{
    let mut table = [0u8; 36];
    let mut i: usize = 0;
    while i < 36
        invariant
            i <= 36,
            rotation < 8,
            forall|k: int| 0 <= k < i ==> #[trigger] table@[k] == sym_square(rotation as int, k),
        decreases 36 - i,
    {
        let row = i / 6;
        let col = i % 6;
        let (r, c): (usize, usize) = if rotation == 1 {
            (5 - row, col)
        } else if rotation == 2 {
            (row, 5 - col)
        } else if rotation == 3 {
            (5 - col, row)
        } else if rotation == 4 {
            (5 - row, 5 - col)
        } else if rotation == 5 {
            (col, 5 - row)
        } else if rotation == 6 {
            (col, row)
        } else if rotation == 7 {
            (5 - col, 5 - row)
        } else {
            (row, col)
        };
        table[i] = (r * 6 + c) as u8;
        i = i + 1;
    }
    table
}

impl BoardData {
    pub fn new(caps: [u8; 2], data: [PieceSquare; 62], data_len: u8, white_to_move: bool) -> (b: Self)
        ensures
            b.caps == caps,
            b.data == data,
            b.data_len == data_len,
            b.white_to_move == white_to_move,
    {
        BoardData { caps, data, data_len, white_to_move }
    }

    /// The first `data_len` pieces are on squares of the 6x6 board.
    pub open spec fn squares_on_board(self) -> bool {
        &&& self.data_len <= 62
        &&& forall|i: int| 0 <= i < self.data_len ==> (#[trigger] self.data@[i].0) & 63 < 36
    }

    /// The board under symmetry `idx`: each capstone square and each piece's square moved by
    /// it, pieces and everything else kept.
    pub open spec fn spec_symmetry(self, b: Self, idx: int) -> bool {
        &&& forall|k: int|
            0 <= k < 2 ==> #[trigger] b.caps@[k] == if self.caps@[k] < 36 {
                sym_square(idx, self.caps@[k] as int) as u8
            } else {
                self.caps@[k]
            }
        &&& forall|i: int|
            0 <= i < 62 ==> #[trigger] b.data@[i] == if i < self.data_len {
                PieceSquare(
                    (sym_square(idx, (self.data@[i].0 & 63) as int) as u8) | (((0xc0u8 & self.data@[i].0)
                        >> 6) << 6),
                )
            } else {
                self.data@[i]
            }
        &&& b.data_len == self.data_len
        &&& b.white_to_move == self.white_to_move
    }

    /// The board under one of the eight symmetries of the 6x6 board; symmetry 0 leaves it as
    /// it is.
    pub fn symmetry(self, idx: usize) -> (b: Self)
        requires
            idx < 8,
            idx != 0 ==> self.squares_on_board(),
        ensures
            idx == 0 ==> b == self,
            idx != 0 ==> self.spec_symmetry(b, idx as int),
    {
        if idx == 0 {
            return self;
        }
        let mut b = self;
        let table = transform(idx);
        if b.caps[0] < 36 {
            b.caps[0] = table[b.caps[0] as usize];
        }
        if b.caps[1] < 36 {
            b.caps[1] = table[b.caps[1] as usize];
        }
        let mut i: usize = 0;
        while i < b.data_len as usize
            invariant
                idx < 8,
                self.squares_on_board(),
                b.data_len == self.data_len,
                b.white_to_move == self.white_to_move,
                forall|k: int|
                    0 <= k < 2 ==> #[trigger] b.caps@[k] == if self.caps@[k] < 36 {
                        sym_square(idx as int, self.caps@[k] as int) as u8
                    } else {
                        self.caps@[k]
                    },
                forall|k: int| 0 <= k < 36 ==> #[trigger] table@[k] == sym_square(idx as int, k),
                i <= self.data_len,
                forall|k: int|
                    0 <= k < 62 ==> #[trigger] b.data@[k] == if k < i {
                        PieceSquare(
                            (sym_square(idx as int, (self.data@[k].0 & 63) as int) as u8) | (((0xc0u8
                                & self.data@[k].0) >> 6) << 6),
                        )
                    } else {
                        self.data@[k]
                    },
            decreases self.data_len - i,
        {
            let old = b.data[i];
            let square = old.square();
            b.data[i] = PieceSquare::new(table[square as usize] as usize, old.piece().0);
            i = i + 1;
        }
        b
    }
}

/// Moving the board by a symmetry and then by its inverse gives the board back.
pub proof fn lemma_symmetry_inverse(b: BoardData, b1: BoardData, b2: BoardData, idx: int)
    requires
        0 <= idx < 8,
        b.squares_on_board(),
        b.spec_symmetry(b1, idx),
        b1.spec_symmetry(b2, inverse_rotation(idx)),
    ensures
        b1.squares_on_board(),
        b2.caps == b.caps,
        b2.data == b.data,
        b2.data_len == b.data_len,
        b2.white_to_move == b.white_to_move,
{
    assert forall|i: int| 0 <= i < b.data_len implies (#[trigger] b1.data@[i].0) & 63 < 36 by {
        let x = b.data@[i].0;
        let sq = x & 63;
        let p = (0xc0u8 & x) >> 6;
        lemma_piece_square_bits(0, 0, x);
        lemma_sym_square(idx, sq as int);
        lemma_piece_square_bits(sym_square(idx, sq as int) as u8, p, 0);
    }
    assert forall|i: int| 0 <= i < 62 implies #[trigger] b2.data@[i] == b.data@[i] by {
        if i < b.data_len {
            let x = b.data@[i].0;
            let sq = x & 63;
            let p = (0xc0u8 & x) >> 6;
            lemma_piece_square_bits(0, 0, x);
            lemma_sym_square(idx, sq as int);
            let s1 = sym_square(idx, sq as int) as u8;
            lemma_piece_square_bits(s1, p, 0);
            lemma_piece_square_bits(sq, p, 0);
            assert(b1.data@[i].0 & 63 == s1);
            assert((0xc0u8 & b1.data@[i].0) >> 6 == p);
        }
    }
    assert forall|k: int| 0 <= k < 2 implies #[trigger] b2.caps@[k] == b.caps@[k] by {
        if b.caps@[k] < 36 {
            lemma_sym_square(idx, b.caps@[k] as int);
        }
    }
    assert(b2.data =~= b.data);
    assert(b2.caps =~= b.caps);
}

/// The byte the network reads for a piece of the game: capstones read as flats.
pub open spec fn network_byte(p: crate::position::Piece) -> u8 {
    match p {
        crate::position::Piece::WhiteFlat => WHITE_FLAT,
        crate::position::Piece::BlackFlat => BLACK_FLAT,
        crate::position::Piece::WhiteWall => WHITE_WALL,
        crate::position::Piece::BlackWall => BLACK_WALL,
        crate::position::Piece::WhiteCap => WHITE_FLAT,
        crate::position::Piece::BlackCap => BLACK_FLAT,
    }
}

/// The number of pieces of a stack that the network reads.
pub open spec fn read_depth(len: nat) -> nat {
    if len < STACK_DEPTH {
        len
    } else {
        STACK_DEPTH as nat
    }
}

/// The bytes of the pieces the network reads on square `i`, from the top of the stack down.
pub open spec fn stack_bytes(i: int, pieces: Seq<crate::position::Piece>) -> Seq<u8> {
    Seq::new(
        read_depth(pieces.len()),
        |k: int| (i as u8) | (network_byte(pieces[pieces.len() - 1 - k]) << 6),
    )
}

/// The bytes of the pieces the network reads on the first `n` squares.
pub open spec fn board_bytes(stacks: Seq<Stack>, n: nat) -> Seq<u8>
    decreases n,
{
    if n == 0 {
        Seq::empty()
    } else {
        board_bytes(stacks, (n - 1) as nat) + stack_bytes(n - 1, stacks[n - 1]@)
    }
}

/// The last of the first `n` squares with `piece` on top, or 255 when there is none.
pub open spec fn top_square(stacks: Seq<Stack>, n: nat, piece: crate::position::Piece) -> u8
    decreases n,
{
    if n == 0 {
        255
    } else if stacks[n - 1].top_stone == Some(piece) {
        (n - 1) as u8
    } else {
        top_square(stacks, (n - 1) as nat, piece)
    }
}

impl BoardData {
    /// The board data of a position, when the network reads at most 62 pieces of it.
    pub fn from_position<const S: usize>(position: &Position<S>) -> (b: Self)
        requires
            position.wf(),
            board_bytes(position.stacks@, (S * S) as nat).len() <= 62,
        ensures
            b.data_len == board_bytes(position.stacks@, (S * S) as nat).len(),
            forall|i: int|
                0 <= i < 62 ==> #[trigger] b.data@[i].0 == if i < b.data_len {
                    board_bytes(position.stacks@, (S * S) as nat)[i]
                } else {
                    255u8
                },
            b.caps@ == seq![
                top_square(position.stacks@, (S * S) as nat, crate::position::Piece::WhiteCap),
                top_square(position.stacks@, (S * S) as nat, crate::position::Piece::BlackCap),
            ],
            b.white_to_move == (position.to_move == Color::White),
    {
        proof {
            lemma_size::<S>();
        }
        let ghost stacks = position.stacks@;
        let ghost total = board_bytes(stacks, (S * S) as nat);
        let mut data = [PieceSquare(255); 62];
        let mut data_len: u8 = 0;
        let mut caps = [255u8; 2];
        let n = S * S;
        let mut i: usize = 0;
        while i < n
            invariant
                position.wf(),
                stacks == position.stacks@,
                n == S * S,
                n <= 64,
                i <= n,
                total == board_bytes(stacks, n as nat),
                total.len() <= 62,
                data_len == board_bytes(stacks, i as nat).len(),
                board_bytes(stacks, i as nat).len() <= total.len(),
                forall|k: int|
                    0 <= k < 62 ==> #[trigger] data@[k].0 == if k < data_len {
                        board_bytes(stacks, i as nat)[k]
                    } else {
                        255u8
                    },
                caps@ == seq![
                    top_square(stacks, i as nat, crate::position::Piece::WhiteCap),
                    top_square(stacks, i as nat, crate::position::Piece::BlackCap),
                ],
            decreases n - i,
        {
            let stack = position.stacks[i];
            let ghost pieces = stack@;
            let h = stack.height;
            let depth: u8 = if h < 10 {
                h
            } else {
                10
            };
            let ghost prefix = board_bytes(stacks, i as nat);
            let ghost bytes = stack_bytes(i as int, pieces);
            proof {
                lemma_board_bytes_grow(stacks, (i + 1) as nat, n as nat);
                assert(board_bytes(stacks, (i + 1) as nat) == prefix + bytes);
            }
            let mut k: u8 = 0;
            while k < depth
                invariant
                    stack.wf(),
                    pieces == stack@,
                    h == stack.height,
                    depth == read_depth(h as nat),
                    i < 64,
                    k <= depth,
                    bytes == stack_bytes(i as int, pieces),
                    prefix.len() + bytes.len() <= 62,
                    data_len == prefix.len() + k,
                    forall|m: int|
                        0 <= m < 62 ==> #[trigger] data@[m].0 == if m < prefix.len() {
                            prefix[m]
                        } else if m < data_len {
                            bytes[m - prefix.len()]
                        } else {
                            255u8
                        },
                decreases depth - k,
            {
                let piece = stack.get(h - 1 - k).unwrap();
                let topaz_piece: u8 = match piece {
                    crate::position::Piece::WhiteFlat => WHITE_FLAT,
                    crate::position::Piece::BlackFlat => BLACK_FLAT,
                    crate::position::Piece::WhiteWall => WHITE_WALL,
                    crate::position::Piece::BlackWall => BLACK_WALL,
                    crate::position::Piece::WhiteCap => WHITE_FLAT,
                    crate::position::Piece::BlackCap => BLACK_FLAT,
                };
                data[data_len as usize] = PieceSquare::new(i, topaz_piece);
                data_len = data_len + 1;
                k = k + 1;
            }
            if stack.top_stone == Some(crate::position::Piece::WhiteCap) {
                caps[0] = i as u8;
            }
            if stack.top_stone == Some(crate::position::Piece::BlackCap) {
                caps[1] = i as u8;
            }
            proof {
                assert(caps@ =~= seq![
                    top_square(stacks, (i + 1) as nat, crate::position::Piece::WhiteCap),
                    top_square(stacks, (i + 1) as nat, crate::position::Piece::BlackCap),
                ]);
            }
            i = i + 1;
        }
        BoardData { caps, data, data_len, white_to_move: position.to_move == Color::White }
    }
}

/// The bytes read on more squares start with those read on fewer.
proof fn lemma_board_bytes_grow(stacks: Seq<Stack>, m: nat, n: nat)
    requires
        m <= n,
    ensures
        board_bytes(stacks, m).len() <= board_bytes(stacks, n).len(),
    decreases n - m,
{
    if m < n {
        lemma_board_bytes_grow(stacks, m, (n - 1) as nat);
    }
}

/// The square of entry `i` of the board data.
pub open spec fn entry_square(b: BoardData, i: int) -> u8 {
    b.data@[i].0 & 63
}

/// The first entry, from `i` on, that is not on the 6x6 board; 62 when there is none.
pub open spec fn first_off_board(b: BoardData, i: int) -> int
    decreases 62 - i,
{
    if i >= 62 {
        62
    } else if entry_square(b, i) >= 36 {
        i
    } else {
        first_off_board(b, i + 1)
    }
}

/// How many entries before entry `i` are on the same square, without a break.
pub open spec fn run_depth(b: BoardData, i: int) -> nat
    decreases i,
{
    if i > 0 && entry_square(b, i) == entry_square(b, i - 1) {
        run_depth(b, i - 1) + 1
    } else {
        0
    }
}

/// The piece of entry `i`: the top piece of a square where a capstone is reads as a capstone.
pub open spec fn entry_piece(b: BoardData, i: int) -> u8 {
    let p = (0xc0u8 & b.data@[i].0) >> 6;
    if run_depth(b, i) == 0 && (b.caps@[0] == entry_square(b, i) || b.caps@[1] == entry_square(b, i)) {
        p | 4
    } else {
        p
    }
}

/// The depth the network reads for the `d`th piece from the top: 0 for the top piece, then
/// from 3 on.
pub open spec fn depth_index(d: nat) -> nat {
    if d == 0 {
        0
    } else {
        d + 2
    }
}

/// The entries of the board data, one after the other: each piece with its square and depth.
pub struct TakBoardIter {
    pub board: BoardData,
    pub idx: usize,
    pub last: u8,
    pub depth: u8,
}

impl BoardData {
    pub fn into_iter(self) -> (it: TakBoardIter)
        ensures
            it.board == self,
            it.idx == 0,
            it.last == 255,
            it.depth == 0,
    {
        TakBoardIter { board: self, idx: 0, last: 255, depth: 0 }
    }
}

impl TakBoardIter {
    /// The iterator is at entry `idx`, just after the entries before it.
    pub open spec fn at_entry(self) -> bool {
        &&& self.idx <= 62
        &&& self.last == (if self.idx == 0 {
            255u8
        } else {
            entry_square(self.board, self.idx - 1)
        })
        &&& self.idx > 0 ==> self.depth == run_depth(self.board, self.idx - 1)
        &&& self.idx == 0 ==> self.depth == 0
    }

    /// The next entry: its piece, square and depth; `None` at the first entry that is not on
    /// the 6x6 board.
    pub fn next(&mut self) -> (r: Option<(ValidPiece, u8, u8)>)
        requires
            old(self).at_entry(),
            old(self).idx < 62,
            entry_square(old(self).board, old(self).idx as int) < 36 ==> run_depth(
                old(self).board,
                old(self).idx as int,
            ) <= 9,
        ensures
            final(self).board == old(self).board,
            final(self).at_entry(),
            entry_square(old(self).board, old(self).idx as int) >= 36 ==> r is None && final(self).idx
                == old(self).idx,
            entry_square(old(self).board, old(self).idx as int) < 36 ==> r == Some(
                (
                    ValidPiece(entry_piece(old(self).board, old(self).idx as int)),
                    entry_square(old(self).board, old(self).idx as int),
                    depth_index(run_depth(old(self).board, old(self).idx as int)) as u8,
                ),
            ) && final(self).idx == old(self).idx + 1,
    {
        let depth_table: [u8; 10] = [0, 3, 4, 5, 6, 7, 8, 9, 10, 11];
        let val = self.board.data[self.idx];
        let square = val.square();
        if square >= 36 {
            return None;
        }
        let mut piece = val.piece();
        proof {
            lemma_piece_square_bits(0, 0, val.0);
            lemma_piece_bits(piece.0);
        }
        if square == self.last {
            self.depth = self.depth + 1;
        } else {
            self.depth = 0;
            if self.board.caps[0] == square || self.board.caps[1] == square {
                piece = piece.promote_cap();
            }
        }
        self.idx = self.idx + 1;
        self.last = square;
        Some((piece, square, depth_table[self.depth as usize]))
    }
}

/// The entries before the first one that is not on the 6x6 board are on it.
proof fn lemma_first_off_board(b: BoardData, i: int, k: int)
    requires
        0 <= i <= k < first_off_board(b, i),
    ensures
        entry_square(b, k) < 36,
    decreases 62 - i,
{
    if i < k {
        lemma_first_off_board(b, i + 1, k);
    }
}

/// The first entry that is not on the 6x6 board is not on it.
proof fn lemma_first_off_board_end(b: BoardData, i: int)
    requires
        0 <= i,
        first_off_board(b, i) < 62,
    ensures
        entry_square(b, first_off_board(b, i)) >= 36,
        i <= first_off_board(b, i),
    decreases 62 - i,
{
    if i < 62 && entry_square(b, i) < 36 {
        lemma_first_off_board_end(b, i + 1);
    }
}

/// The network's inputs of a board: 36 squares times 26 piece and depth places, then the
/// player to move, then the reserves.
pub struct TakSimple6 {}

impl TakSimple6 {
    pub const SQUARE_INPUTS: usize = 936;
    pub const NUM_INPUTS: usize = 1024;
}

/// 0 when entry `i` is a piece of the player to move, 1 otherwise.
pub open spec fn entry_side(b: BoardData, i: int) -> nat {
    if (entry_piece(b, i) % 2 == 0) != b.white_to_move {
        1
    } else {
        0
    }
}

/// The pair of features of entry `i`: seen by the player to move and by the other player.
pub open spec fn entry_features(b: BoardData, i: int) -> (int, int) {
    let location = entry_piece(b, i) / 2 + depth_index(run_depth(b, i));
    let sq = entry_square(b, i) as int;
    if entry_side(b, i) == 0 {
        (36 * location + sq, 468 + 36 * location + sq)
    } else {
        (468 + 36 * location + sq, 36 * location + sq)
    }
}

/// The number of the first `n` entries that belong to side `c`.
pub open spec fn side_count(b: BoardData, n: int, c: nat) -> nat
    decreases n,
{
    if n <= 0 {
        0
    } else {
        side_count(b, n - 1, c) + if entry_side(b, n - 1) == c {
            1nat
        } else {
            0nat
        }
    }
}

pub open spec fn clamp_int(x: int, lo: int, hi: int) -> int {
    if x < lo {
        lo
    } else if x > hi {
        hi
    } else {
        x
    }
}

/// The features of the reserves and the player to move, where the player to move has `mine`
/// pieces left to read of 31 and the other player `theirs`.
pub open spec fn tail_features(white_to_move: bool, mine: int, theirs: int) -> Seq<(int, int)> {
    let white_res_adv = clamp_int(31 + mine - theirs, 23, 39);
    let black_res_adv = clamp_int(31 + theirs - mine, 23, 39);
    if white_to_move {
        seq![(936 + 8 + mine, 936 + 8 + theirs), (975 + white_res_adv, 975 + black_res_adv), (936, 937)]
    } else {
        seq![(936 + 8 + theirs, 936 + 8 + mine), (975 + black_res_adv, 960 + white_res_adv), (937, 936)]
    }
}

/// The board data can be read as features: its entries end before the last place, no stack
/// is read deeper than ten pieces, and neither side has more than 31 pieces read.
pub open spec fn features_readable(b: BoardData) -> bool {
    let n = first_off_board(b, 0);
    &&& n < 62
    &&& forall|i: int| 0 <= i < n ==> #[trigger] run_depth(b, i) <= 9
    &&& side_count(b, n, 0) <= 31
    &&& side_count(b, n, 1) <= 31
}

/// The features of a board, in the order the network reads them.
pub open spec fn feature_list(b: BoardData) -> Seq<(int, int)> {
    let n = first_off_board(b, 0);
    Seq::new(n as nat, |i: int| entry_features(b, i)) + tail_features(
        b.white_to_move,
        31 - side_count(b, n, 0),
        31 - side_count(b, n, 1),
    )
}

proof fn lemma_side_count_grow(b: BoardData, m: int, n: int, c: nat)
    requires
        0 <= m <= n,
    ensures
        side_count(b, m, c) <= side_count(b, n, c),
    decreases n - m,
{
    if m < n {
        lemma_side_count_grow(b, m, n - 1, c);
    }
}

impl TakSimple6 {
    /// The features of a board, each as the pair of its index for the player to move and for
    /// the other player.
    pub fn feature_pairs(&self, pos: &BoardData) -> (out: Vec<(usize, usize)>)
        requires
            features_readable(*pos),
        ensures
            out@.len() == feature_list(*pos).len(),
            forall|i: int|
                0 <= i < out@.len() ==> (#[trigger] out@[i]).0 == feature_list(*pos)[i].0 && out@[i].1
                    == feature_list(*pos)[i].1,
    {
        let ghost n = first_off_board(*pos, 0);
        proof {
            lemma_first_off_board_end(*pos, 0);
        }
        let mut reserves: [usize; 2] = [31, 31];
        let mut out: Vec<(usize, usize)> = Vec::new();
        let mut it = pos.into_iter();
        loop
            invariant_except_break
                it.idx <= n,
            invariant
                features_readable(*pos),
                n == first_off_board(*pos, 0),
                n < 62,
                entry_square(*pos, n) >= 36,
                it.board == *pos,
                it.at_entry(),
                it.idx <= 62,
                out@.len() == it.idx,
                forall|i: int|
                    0 <= i < it.idx ==> (#[trigger] out@[i]).0 == entry_features(*pos, i).0 && out@[i].1
                        == entry_features(*pos, i).1,
                reserves@[0] == 31 - side_count(*pos, it.idx as int, 0),
                reserves@[1] == 31 - side_count(*pos, it.idx as int, 1),
            ensures
                it.idx == n,
            decreases 62 - it.idx,
        {
            let ghost i = it.idx as int;
            proof {
                if i < n {
                    lemma_first_off_board(*pos, 0, i);
                    lemma_side_count_grow(*pos, i + 1, n, 0);
                    lemma_side_count_grow(*pos, i + 1, n, 1);
                }
            }
            match it.next() {
                None => {
                    break;
                },
                Some((piece, square, depth_idx)) => {
                    proof {
                        lemma_piece_bits(piece.0);
                        lemma_piece_square_bits(0, 0, pos.data@[i].0);
                    }
                    let c = (piece.is_white() ^ pos.white_to_move) as usize;
                    reserves[c] = reserves[c] - 1;
                    let location = (piece.without_color() + depth_idx) as usize;
                    let sq = square as usize;
                    let stm = if c == 0 { 0 } else { 468 } + 36 * location + sq;
                    let ntm = if c == 0 { 468 } else { 0 } + 36 * location + sq;
                    out.push((stm, ntm));
                },
            }
        }
        let r0 = reserves[0];
        let r1 = reserves[1];
        let white_res_adv = clamp_usize(31 + r0 - r1, 23, 39);
        let black_res_adv = clamp_usize(31 + r1 - r0, 23, 39);
        let ghost entries = out@;
        if pos.white_to_move {
            out.push((Self::SQUARE_INPUTS + 8 + r0, Self::SQUARE_INPUTS + 8 + r1));
            out.push((975 + white_res_adv, 975 + black_res_adv));
            out.push((Self::SQUARE_INPUTS, Self::SQUARE_INPUTS + 1));
        } else {
            out.push((Self::SQUARE_INPUTS + 8 + r1, Self::SQUARE_INPUTS + 8 + r0));
            out.push((975 + black_res_adv, 960 + white_res_adv));
            out.push((Self::SQUARE_INPUTS + 1, Self::SQUARE_INPUTS));
        }
        proof {
            let tail = tail_features(pos.white_to_move, r0 as int, r1 as int);
            assert forall|i: int| 0 <= i < out@.len() implies (#[trigger] out@[i]).0 == feature_list(*pos)[i].0
                && out@[i].1 == feature_list(*pos)[i].1 by {
                if i < n {
                    assert(out@[i] == entries[i]);
                }
            }
        }
        out
    }

    /// Calls `f` with each pair of features of the board, in the order of `feature_pairs`.
    pub fn handle_features<F: FnMut(usize, usize)>(&self, pos: &BoardData, mut f: F)
        requires
            features_readable(*pos),
            forall|g: F, a: usize, b: usize| call_requires(g, (a, b)),
    {
        let pairs = self.feature_pairs(pos);
        let mut i: usize = 0;
        while i < pairs.len()
            invariant
                forall|g: F, a: usize, b: usize| call_requires(g, (a, b)),
            decreases pairs.len() - i,
        {
            let (a, b) = pairs[i];
            f(a, b);
            i = i + 1;
        }
    }
}

fn clamp_usize(x: usize, lo: usize, hi: usize) -> (r: usize)
    ensures
        r == clamp_int(x as int, lo as int, hi as int),
{
    if x < lo {
        lo
    } else if x > hi {
        hi
    } else {
        x
    }
}

/// Every feature of a readable board is one of the network's inputs.
proof fn lemma_features_in_range(b: BoardData)
    requires
        features_readable(b),
    ensures
        forall|i: int|
            0 <= i < feature_list(b).len() ==> 0 <= (#[trigger] feature_list(b)[i]).0 < num_features()
                && 0 <= feature_list(b)[i].1 < num_features(),
{
    let n = first_off_board(b, 0);
    lemma_first_off_board_end(b, 0);
    lemma_side_count_grow(b, 0, n, 0);
    lemma_side_count_grow(b, 0, n, 1);
    assert forall|i: int| 0 <= i < feature_list(b).len() implies 0 <= (#[trigger] feature_list(b)[i]).0
        < num_features() && 0 <= feature_list(b)[i].1 < num_features() by {
        if i < n {
            let p = (0xc0u8 & b.data@[i].0) >> 6;
            lemma_piece_square_bits(0, 0, b.data@[i].0);
            lemma_piece_bits(p);
            assert(entry_piece(b, i) <= 7);
            assert(run_depth(b, i) <= 9);
            assert(entry_features(b, i) == feature_list(b)[i]);
        }
    }
}

/// The features active for the player to move and for the other player.
pub fn build_features(takboard: BoardData) -> (r: (IncrementalState, IncrementalState))
    requires
        features_readable(takboard),
    ensures
        forall|f: int|
            #[trigger] r.0.has(f) <==> exists|i: int|
                0 <= i < feature_list(takboard).len() && feature_list(takboard)[i].0 == f,
        forall|f: int|
            #[trigger] r.1.has(f) <==> exists|i: int|
                0 <= i < feature_list(takboard).len() && feature_list(takboard)[i].1 == f,
{
    let ghost list = feature_list(takboard);
    proof {
        lemma_features_in_range(takboard);
    }
    let mut ours = IncrementalState::empty();
    let mut theirs = IncrementalState::empty();
    let simple = TakSimple6 {};
    let pairs = simple.feature_pairs(&takboard);
    let mut i: usize = 0;
    while i < pairs.len()
        invariant
            list == feature_list(takboard),
            pairs@.len() == list.len(),
            forall|k: int| 0 <= k < pairs@.len() ==> (#[trigger] pairs@[k]).0 == list[k].0 && pairs@[k].1 == list[k].1,
            forall|k: int| 0 <= k < list.len() ==> 0 <= (#[trigger] list[k]).0 < num_features() && 0 <= list[k].1 < num_features(),
            i <= pairs.len(),
            forall|f: int| #[trigger] ours.has(f) <==> exists|k: int| 0 <= k < i && list[k].0 == f,
            forall|f: int| #[trigger] theirs.has(f) <==> exists|k: int| 0 <= k < i && list[k].1 == f,
        decreases pairs.len() - i,
    {
        let (x, y) = pairs[i];
        proof {
            assert(list[i as int].0 == x && list[i as int].1 == y);
        }
        ours.add_feature(x as u16);
        theirs.add_feature(y as u16);
        proof {
            assert forall|f: int| #[trigger] ours.has(f) <==> exists|k: int| 0 <= k < i + 1 && list[k].0 == f by {
                if f == x {
                    assert(list[i as int].0 == f);
                }
            }
            assert forall|f: int| #[trigger] theirs.has(f) <==> exists|k: int| 0 <= k < i + 1 && list[k].1 == f by {
                if f == y {
                    assert(list[i as int].1 == f);
                }
            }
        }
        i = i + 1;
    }
    (ours, theirs)
}

/// A column of the network's feature weights, or the hidden layer of one side.
#[derive(Clone, Copy)]
pub struct Accumulator {
    pub vals: [i16; 512],
}

/// The quantised network: the first layer (one column per feature, and the bias), the output
/// weights of both sides' hidden layers, the inputs' piece-square values and the output bias.
pub struct Network {
    pub feature_weights: Vec<Accumulator>,
    pub feature_bias: Accumulator,
    pub output_weights: Vec<i16>,
    pub pqst: Vec<i16>,
    pub output_bias: i16,
}

/// The hidden value `i` after adding the first `k` of `features`, starting from `start`.
pub open spec fn sum_features(start: int, net: Network, features: Seq<u16>, k: int, i: int, sign: int) -> int
    decreases k,
{
    if k <= 0 {
        start
    } else {
        sum_features(start, net, features, k - 1, i, sign) + sign * net.feature_weights@[features[k - 1] as int].vals@[i]
    }
}

impl Network {
    /// The network has a column for each of its 1024 inputs.
    pub open spec fn wf(self) -> bool {
        &&& self.feature_weights@.len() == num_features()
        &&& self.output_weights@.len() == 2 * HIDDEN_SIZE
        &&& self.pqst@.len() == num_features()
    }
}

impl Accumulator {
    /// The hidden layer with no features: the bias.
    pub fn new(net: &Network) -> (acc: Self)
        ensures
            acc == net.feature_bias,
    {
        net.feature_bias
    }

    pub fn from_old(old: &Self) -> (acc: Self)
        ensures
            acc == *old,
    {
        *old
    }

    /// Adds the weights of a feature, where no value leaves the range of `i16`.
    pub fn add_feature(&mut self, feature_idx: usize, net: &Network)
        requires
            net.wf(),
            feature_idx < num_features(),
            forall|i: int|
                0 <= i < 512 ==> i16::MIN <= #[trigger] old(self).vals@[i]
                    + net.feature_weights@[feature_idx as int].vals@[i] <= i16::MAX,
        ensures
            forall|i: int|
                0 <= i < 512 ==> #[trigger] final(self).vals@[i] == old(self).vals@[i]
                    + net.feature_weights@[feature_idx as int].vals@[i],
    {
        let ghost before = self.vals;
        let weights = &net.feature_weights[feature_idx];
        let mut i: usize = 0;
        while i < 512
            invariant
                i <= 512,
                weights == net.feature_weights@[feature_idx as int],
                forall|k: int| 0 <= k < 512 ==> i16::MIN <= #[trigger] before@[k] + weights.vals@[k] <= i16::MAX,
                forall|k: int| 0 <= k < 512 ==> #[trigger] self.vals@[k] == if k < i {
                    before@[k] + weights.vals@[k]
                } else {
                    before@[k] as int
                },
            decreases 512 - i,
        {
            self.vals[i] = self.vals[i] + weights.vals[i];
            i = i + 1;
        }
    }

    /// Subtracts the weights of a feature, where no value leaves the range of `i16`.
    pub fn remove_feature(&mut self, feature_idx: usize, net: &Network)
        requires
            net.wf(),
            feature_idx < num_features(),
            forall|i: int|
                0 <= i < 512 ==> i16::MIN <= #[trigger] old(self).vals@[i]
                    - net.feature_weights@[feature_idx as int].vals@[i] <= i16::MAX,
        ensures
            forall|i: int|
                0 <= i < 512 ==> #[trigger] final(self).vals@[i] == old(self).vals@[i]
                    - net.feature_weights@[feature_idx as int].vals@[i],
    {
        let ghost before = self.vals;
        let weights = &net.feature_weights[feature_idx];
        let mut i: usize = 0;
        while i < 512
            invariant
                i <= 512,
                weights == net.feature_weights@[feature_idx as int],
                forall|k: int| 0 <= k < 512 ==> i16::MIN <= #[trigger] before@[k] - weights.vals@[k] <= i16::MAX,
                forall|k: int| 0 <= k < 512 ==> #[trigger] self.vals@[k] == if k < i {
                    before@[k] - weights.vals@[k]
                } else {
                    before@[k] as int
                },
            decreases 512 - i,
        {
            self.vals[i] = self.vals[i] - weights.vals[i];
            i = i + 1;
        }
    }

    /// Adds the weights of each feature in turn, where no value ever leaves the range of `i16`.
    pub fn add_all(&mut self, features: &[u16], net: &Network)
        requires
            net.wf(),
            forall|k: int| 0 <= k < features@.len() ==> (#[trigger] features@[k] as int) < num_features(),
            forall|k: int, i: int|
                0 <= k <= features@.len() && 0 <= i < 512 ==> i16::MIN <= #[trigger] sum_features(
                    old(self).vals@[i] as int,
                    *net,
                    features@,
                    k,
                    i,
                    1,
                ) <= i16::MAX,
        ensures
            forall|i: int|
                0 <= i < 512 ==> #[trigger] final(self).vals@[i] == sum_features(
                    old(self).vals@[i] as int,
                    *net,
                    features@,
                    features@.len() as int,
                    i,
                    1,
                ),
    {
        let ghost before = self.vals;
        let mut k: usize = 0;
        while k < features.len()
            invariant
                net.wf(),
                k <= features@.len(),
                forall|j: int| 0 <= j < features@.len() ==> (#[trigger] features@[j] as int) < num_features(),
                forall|j: int, i: int|
                    0 <= j <= features@.len() && 0 <= i < 512 ==> i16::MIN <= #[trigger] sum_features(
                        before@[i] as int,
                        *net,
                        features@,
                        j,
                        i,
                        1,
                    ) <= i16::MAX,
                forall|i: int|
                    0 <= i < 512 ==> #[trigger] self.vals@[i] == sum_features(before@[i] as int, *net, features@, k as int, i, 1),
            decreases features@.len() - k,
        {
            proof {
                assert forall|i: int| 0 <= i < 512 implies i16::MIN <= #[trigger] self.vals@[i]
                    + net.feature_weights@[features@[k as int] as int].vals@[i] <= i16::MAX by {
                    assert(sum_features(before@[i] as int, *net, features@, k + 1, i, 1) == self.vals@[i]
                        + net.feature_weights@[features@[k as int] as int].vals@[i]);
                }
            }
            self.add_feature(features[k] as usize, net);
            k = k + 1;
        }
    }

    /// Subtracts the weights of each feature in turn, where no value ever leaves the range of
    /// `i16`.
    pub fn remove_all(&mut self, features: &[u16], net: &Network)
        requires
            net.wf(),
            forall|k: int| 0 <= k < features@.len() ==> (#[trigger] features@[k] as int) < num_features(),
            forall|k: int, i: int|
                0 <= k <= features@.len() && 0 <= i < 512 ==> i16::MIN <= #[trigger] sum_features(
                    old(self).vals@[i] as int,
                    *net,
                    features@,
                    k,
                    i,
                    -1,
                ) <= i16::MAX,
        ensures
            forall|i: int|
                0 <= i < 512 ==> #[trigger] final(self).vals@[i] == sum_features(
                    old(self).vals@[i] as int,
                    *net,
                    features@,
                    features@.len() as int,
                    i,
                    -1,
                ),
    {
        let ghost before = self.vals;
        let mut k: usize = 0;
        while k < features.len()
            invariant
                net.wf(),
                k <= features@.len(),
                forall|j: int| 0 <= j < features@.len() ==> (#[trigger] features@[j] as int) < num_features(),
                forall|j: int, i: int|
                    0 <= j <= features@.len() && 0 <= i < 512 ==> i16::MIN <= #[trigger] sum_features(
                        before@[i] as int,
                        *net,
                        features@,
                        j,
                        i,
                        -1,
                    ) <= i16::MAX,
                forall|i: int|
                    0 <= i < 512 ==> #[trigger] self.vals@[i] == sum_features(before@[i] as int, *net, features@, k as int, i, -1),
            decreases features@.len() - k,
        {
            proof {
                assert forall|i: int| 0 <= i < 512 implies i16::MIN <= #[trigger] self.vals@[i]
                    - net.feature_weights@[features@[k as int] as int].vals@[i] <= i16::MAX by {
                    assert(sum_features(before@[i] as int, *net, features@, k + 1, i, -1) == self.vals@[i]
                        - net.feature_weights@[features@[k as int] as int].vals@[i]);
                }
            }
            self.remove_feature(features[k] as usize, net);
            k = k + 1;
        }
    }
}

/// The activation of a hidden value: clamped to `0..=QA`, squared.
pub open spec fn screlu_value(x: int) -> int {
    let c = if x < 0 {
        0
    } else if x > QA {
        QA as int
    } else {
        x
    };
    c * c
}

/// The first `n` hidden values' activations, each times its output weight, the weights read
/// from `offset` on.
pub open spec fn hidden_sum(hidden: Seq<i16>, weights: Seq<i16>, offset: int, n: int) -> int
    decreases n,
{
    if n <= 0 {
        0
    } else {
        hidden_sum(hidden, weights, offset, n - 1) + screlu_value(hidden[n - 1] as int) * weights[offset
            + n - 1]
    }
}

/// The piece-square values of the first `n` features.
pub open spec fn psqt_sum(pqst: Seq<i16>, features: Seq<u16>, n: int) -> int
    decreases n,
{
    if n <= 0 {
        0
    } else {
        psqt_sum(pqst, features, n - 1) + pqst[features[n - 1] as int]
    }
}

/// Integer division rounded toward zero, as Rust's `/` on signed integers does.
pub open spec fn div_toward_zero(a: int, b: int) -> int {
    if a >= 0 {
        a / b
    } else {
        -((-a) / b)
    }
}

pub open spec fn fits_i32(x: int) -> bool {
    i32::MIN <= x <= i32::MAX
}

/// The weighted activations of both sides' hidden layers, ours first.
pub open spec fn output_sum(net: Network, us: Accumulator, them: Accumulator) -> int {
    hidden_sum(us.vals@, net.output_weights@, 0, HIDDEN_SIZE as int) + hidden_sum(
        them.vals@,
        net.output_weights@,
        HIDDEN_SIZE as int,
        HIDDEN_SIZE as int,
    )
}

/// The network's evaluation: the output layer with its bias and quantisation removed, scaled,
/// plus the scaled piece-square values of the features.
pub open spec fn network_output(net: Network, us: Accumulator, them: Accumulator, features: Seq<u16>) -> int {
    div_toward_zero(
        (div_toward_zero(output_sum(net, us, them), QA as int) + net.output_bias) * SCALE,
        QA * QB,
    ) + div_toward_zero(psqt_sum(net.pqst@, features, features.len() as int) * SCALE, QA as int)
}

/// Each running sum of the evaluation stays within `i32`.
pub open spec fn evaluation_fits(net: Network, us: Accumulator, them: Accumulator, features: Seq<u16>) -> bool {
    &&& forall|k: int| 0 <= k <= HIDDEN_SIZE ==> fits_i32(#[trigger] hidden_sum(us.vals@, net.output_weights@, 0, k))
    &&& forall|k: int|
        0 <= k <= HIDDEN_SIZE ==> fits_i32(
            hidden_sum(us.vals@, net.output_weights@, 0, HIDDEN_SIZE as int) + #[trigger] hidden_sum(
                them.vals@,
                net.output_weights@,
                HIDDEN_SIZE as int,
                k,
            ),
        )
    &&& forall|k: int| 0 <= k <= features.len() ==> fits_i32(#[trigger] psqt_sum(net.pqst@, features, k))
    &&& fits_i32(psqt_sum(net.pqst@, features, features.len() as int) * SCALE)
    &&& fits_i32((div_toward_zero(output_sum(net, us, them), QA as int) + net.output_bias) * SCALE)
}

pub open spec fn abs_int(a: int) -> int {
    if a >= 0 {
        a
    } else {
        -a
    }
}

proof fn lemma_div_toward_zero_bound(a: int, b: int)
    requires
        b >= 1,
    ensures
        abs_int(div_toward_zero(a, b)) * b <= abs_int(a),
        abs_int(div_toward_zero(a, b)) <= abs_int(a),
{
    let n = abs_int(a);
    assert((n / b) * b <= n && 0 <= n / b <= n) by (nonlinear_arith)
        requires
            n >= 0,
            b >= 1,
    ;
}

fn div_i32(a: i32, b: i32) -> (r: i32)
    requires
        b >= 1,
    ensures
        r == div_toward_zero(a as int, b as int),
{
    proof {
        lemma_div_toward_zero_bound(a as int, b as int);
    }
    let wide: i64 = if a >= 0 {
        (a as i64) / (b as i64)
    } else {
        let n: i64 = -(a as i64);
        -(n / (b as i64))
    };
    wide as i32
}

impl Network {
    /// The evaluation from both sides' hidden layers (ours first) and the features of our side,
    /// which the piece-square table scores.
    pub fn evaluate(&self, us: &Accumulator, them: &Accumulator, features: &[u16]) -> (r: i32)
        requires
            self.wf(),
            forall|k: int| 0 <= k < features@.len() ==> (#[trigger] features@[k] as int) < num_features(),
            evaluation_fits(*self, *us, *them, features@),
        ensures
            r == network_output(*self, *us, *them, features@),
    {
        let mut sum: i32 = 0;
        let mut i: usize = 0;
        while i < HIDDEN_SIZE
            invariant
                i <= HIDDEN_SIZE,
                self.wf(),
                evaluation_fits(*self, *us, *them, features@),
                sum == hidden_sum(us.vals@, self.output_weights@, 0, i as int),
            decreases HIDDEN_SIZE - i,
        {
            let a: i32 = screlu(us.vals[i]);
            let w: i32 = self.output_weights[i] as i32;
            assert(fits_i32(hidden_sum(us.vals@, self.output_weights@, 0, i + 1)));
            assert(0 <= a <= 65025 && -32768 <= w <= 32767 ==> -2130739200 <= a * w <= 2130674175)
                by (nonlinear_arith);
            sum = sum + a * w;
            i = i + 1;
        }
        let ghost ours = sum as int;
        let mut j: usize = 0;
        while j < HIDDEN_SIZE
            invariant
                j <= HIDDEN_SIZE,
                self.wf(),
                evaluation_fits(*self, *us, *them, features@),
                ours == hidden_sum(us.vals@, self.output_weights@, 0, HIDDEN_SIZE as int),
                sum == ours + hidden_sum(them.vals@, self.output_weights@, HIDDEN_SIZE as int, j as int),
            decreases HIDDEN_SIZE - j,
        {
            let a: i32 = screlu(them.vals[j]);
            let w: i32 = self.output_weights[HIDDEN_SIZE + j] as i32;
            assert(fits_i32(ours + hidden_sum(them.vals@, self.output_weights@, HIDDEN_SIZE as int, j + 1)));
            assert(0 <= a <= 65025 && -32768 <= w <= 32767 ==> -2130739200 <= a * w <= 2130674175)
                by (nonlinear_arith);
            sum = sum + a * w;
            j = j + 1;
        }
        let mut psqt_out: i32 = 0;
        let mut k: usize = 0;
        while k < features.len()
            invariant
                k <= features@.len(),
                self.wf(),
                forall|m: int| 0 <= m < features@.len() ==> (#[trigger] features@[m] as int) < num_features(),
                evaluation_fits(*self, *us, *them, features@),
                psqt_out == psqt_sum(self.pqst@, features@, k as int),
            decreases features@.len() - k,
        {
            assert(fits_i32(psqt_sum(self.pqst@, features@, k + 1)));
            psqt_out = psqt_out + self.pqst[features[k] as usize] as i32;
            k = k + 1;
        }
        psqt_out = psqt_out * SCALE;
        let scaled: i32 = (div_i32(sum, QA as i32) + self.output_bias as i32) * SCALE;
        let output: i32 = div_i32(scaled, QA as i32 * QB as i32);
        let psqt: i32 = div_i32(psqt_out, QA as i32);
        proof {
            lemma_div_toward_zero_bound(scaled as int, 16320);
            lemma_div_toward_zero_bound(psqt_out as int, 255);
        }
        output + psqt
    }
}

/// The column `i` weights of the features below `n` for which `s` holds, summed.
pub open spec fn range_sum(net: Network, s: spec_fn(int) -> bool, n: int, i: int) -> int
    decreases n,
{
    if n <= 0 {
        0
    } else {
        range_sum(net, s, n - 1, i) + if s(n - 1) {
            net.feature_weights@[n - 1].vals@[i] as int
        } else {
            0
        }
    }
}

/// The features for which `p` holds that are below `t`.
pub open spec fn below(p: spec_fn(int) -> bool, t: int) -> spec_fn(int) -> bool {
    |f: int| p(f) && f < t
}

/// Entry `k` of a list, or the number of features past its end.
pub open spec fn list_bound(l: Seq<u16>, k: int) -> int {
    if k < l.len() {
        l[k] as int
    } else {
        num_features()
    }
}

pub open spec fn fits_i16(x: int) -> bool {
    i16::MIN <= x <= i16::MAX
}

impl Accumulator {
    /// Each hidden value is the bias plus the weights of the features for which `s` holds.
    pub open spec fn holds(self, net: Network, s: spec_fn(int) -> bool) -> bool {
        forall|i: int|
            0 <= i < HIDDEN_SIZE ==> #[trigger] self.vals@[i] == net.feature_bias.vals@[i] + range_sum(
                net,
                s,
                num_features(),
                i,
            )
    }
}

proof fn lemma_range_sum_ext(net: Network, s: spec_fn(int) -> bool, t: spec_fn(int) -> bool, n: int, i: int)
    requires
        forall|f: int| 0 <= f < n ==> #[trigger] s(f) == t(f),
    ensures
        range_sum(net, s, n, i) == range_sum(net, t, n, i),
    decreases n,
{
    if n > 0 {
        lemma_range_sum_ext(net, s, t, n - 1, i);
    }
}

proof fn lemma_range_sum_empty(net: Network, s: spec_fn(int) -> bool, n: int, i: int)
    requires
        forall|f: int| 0 <= f < n ==> !#[trigger] s(f),
    ensures
        range_sum(net, s, n, i) == 0,
    decreases n,
{
    if n > 0 {
        lemma_range_sum_empty(net, s, n - 1, i);
    }
}

proof fn lemma_range_sum_insert(net: Network, s: spec_fn(int) -> bool, t: spec_fn(int) -> bool, g: int, n: int, i: int)
    requires
        0 <= g < n,
        !s(g),
        forall|f: int| 0 <= f < n ==> #[trigger] t(f) == (s(f) || f == g),
    ensures
        range_sum(net, t, n, i) == range_sum(net, s, n, i) + net.feature_weights@[g].vals@[i],
    decreases n,
{
    if n - 1 == g {
        lemma_range_sum_ext(net, s, t, n - 1, i);
    } else {
        lemma_range_sum_insert(net, s, t, g, n - 1, i);
    }
}

/// The features for which `s` holds split into those where `q` holds too and the others.
proof fn lemma_range_sum_split(net: Network, s: spec_fn(int) -> bool, q: spec_fn(int) -> bool, n: int, i: int)
    ensures
        range_sum(net, s, n, i) == range_sum(net, |f: int| s(f) && q(f), n, i) + range_sum(
            net,
            |f: int| s(f) && !q(f),
            n,
            i,
        ),
    decreases n,
{
    if n > 0 {
        lemma_range_sum_split(net, s, q, n - 1, i);
    }
}

/// Adding (or subtracting) the first `k` features of an increasing list adds (or subtracts) the
/// weights of the listed features below its entry `k`.
proof fn lemma_prefix_sum(start: int, net: Network, l: Seq<u16>, p: spec_fn(int) -> bool, k: int, i: int, sign: int)
    requires
        lists_exactly(l, p),
        forall|j: int| 0 <= j < l.len() ==> (#[trigger] l[j] as int) < num_features(),
        0 <= k <= l.len(),
    ensures
        sum_features(start, net, l, k, i, sign) == start + sign * range_sum(
            net,
            below(p, list_bound(l, k)),
            num_features(),
            i,
        ),
    decreases k,
{
    let cur = below(p, list_bound(l, k));
    if k == 0 {
        assert forall|f: int| 0 <= f < num_features() implies !#[trigger] cur(f) by {
            if p(f) {
                let j = choose|j: int| 0 <= j < l.len() && l[j] == f;
                if j > 0 {
                    assert(l[0] < l[j]);
                }
            }
        }
        lemma_range_sum_empty(net, cur, num_features(), i);
    } else {
        lemma_prefix_sum(start, net, l, p, k - 1, i, sign);
        let prev = below(p, list_bound(l, k - 1));
        let g = l[k - 1] as int;
        assert(p(g));
        assert forall|f: int| 0 <= f < num_features() implies #[trigger] cur(f) == (prev(f) || f == g) by {
            if k < l.len() {
                assert(l[k - 1] < l[k]);
            }
            if p(f) && f != g {
                let j = choose|j: int| 0 <= j < l.len() && l[j] == f;
                if j < k - 1 {
                    assert(l[j] < l[k - 1]);
                } else if j > k - 1 {
                    assert(l[k - 1] < l[j]);
                    if k < l.len() && j > k {
                        assert(l[k] < l[j]);
                    }
                }
            }
        }
        lemma_range_sum_insert(net, prev, cur, g, num_features(), i);
        assert(sign * (range_sum(net, prev, num_features(), i) + net.feature_weights@[g].vals@[i]) == sign
            * range_sum(net, prev, num_features(), i) + sign * net.feature_weights@[g].vals@[i]) by (nonlinear_arith);
    }
}

proof fn lemma_lists_exactly_same(v: Seq<u16>, p: spec_fn(int) -> bool, q: spec_fn(int) -> bool)
    requires
        lists_exactly(v, p),
        forall|f: int| #[trigger] p(f) == q(f),
    ensures
        lists_exactly(v, q),
{
    assert forall|f: int| #[trigger] q(f) implies exists|k: int| 0 <= k < v.len() && v[k] == f by {
        assert(p(f));
    }
    assert forall|k: int| 0 <= k < v.len() implies #[trigger] q(v[k] as int) by {
        assert(p(v[k] as int));
    }
}

impl IncrementalState {
    /// The active features, in increasing order.
    pub fn features(&self) -> (v: Vec<u16>)
        ensures
            lists_exactly(v@, |f: int| self.has(f)),
            forall|k: int| 0 <= k < v@.len() ==> (#[trigger] v@[k] as int) < num_features(),
    {
        let none = Self::empty();
        let (_gone, came) = self.diff(&none);
        proof {
            lemma_lists_exactly_same(came@, |f: int| self.has(f) && !none.has(f), |f: int| self.has(f));
            assert forall|k: int| 0 <= k < came@.len() implies (#[trigger] came@[k] as int) < num_features() by {
                let q = |f: int| self.has(f);
                assert(q(came@[k] as int));
            }
        }
        came
    }
}

/// The features of one side with the hidden layer that they give.
pub struct Incremental {
    pub state: IncrementalState,
    pub vec: Accumulator,
}

/// Every hidden value stays within `i16` while the features of `s` are added in increasing
/// order to the bias.
pub open spec fn build_fits(net: Network, s: spec_fn(int) -> bool) -> bool {
    forall|t: int, i: int|
        0 <= t <= num_features() && 0 <= i < HIDDEN_SIZE ==> fits_i16(
            net.feature_bias.vals@[i] + #[trigger] range_sum(net, below(s, t), num_features(), i),
        )
}

impl Incremental {
    /// The hidden layer is the one that the features give.
    pub open spec fn wf(self, net: Network) -> bool {
        self.vec.holds(net, |f: int| self.state.has(f))
    }

    /// No features, and the bias as hidden layer.
    pub fn fresh_empty(net: &Network) -> (inc: Self)
        ensures
            forall|f: int| !(#[trigger] inc.state.has(f)),
            inc.vec == net.feature_bias,
            inc.wf(*net),
    {
        let inc = Incremental { state: IncrementalState::empty(), vec: Accumulator::new(net) };
        proof {
            assert forall|i: int| 0 <= i < HIDDEN_SIZE implies #[trigger] inc.vec.vals@[i]
                == net.feature_bias.vals@[i] + range_sum(*net, |f: int| inc.state.has(f), num_features(), i) by {
                lemma_range_sum_empty(*net, |f: int| inc.state.has(f), num_features(), i);
            }
        }
        inc
    }

    /// The hidden layer of a set of features, built by adding them to the bias one by one in
    /// increasing order.
    pub fn fresh_new(net: &Network, data: IncrementalState) -> (inc: Self)
        requires
            net.wf(),
            build_fits(*net, |f: int| data.has(f)),
        ensures
            inc.state == data,
            inc.wf(*net),
    {
        let list = data.features();
        let mut acc = Accumulator::new(net);
        let ghost p = |f: int| data.has(f);
        proof {
            assert forall|k: int, i: int| 0 <= k <= list@.len() && 0 <= i < 512 implies i16::MIN
                <= #[trigger] sum_features(acc.vals@[i] as int, *net, list@, k, i, 1) <= i16::MAX by {
                lemma_prefix_sum(acc.vals@[i] as int, *net, list@, p, k, i, 1);
                assert(fits_i16(net.feature_bias.vals@[i] + range_sum(*net, below(p, list_bound(list@, k)), num_features(), i)));
            }
        }
        acc.add_all(list.as_slice(), net);
        let inc = Incremental { state: data, vec: acc };
        proof {
            assert forall|i: int| 0 <= i < HIDDEN_SIZE implies #[trigger] inc.vec.vals@[i]
                == net.feature_bias.vals@[i] + range_sum(*net, |f: int| inc.state.has(f), num_features(), i) by {
                lemma_prefix_sum(net.feature_bias.vals@[i] as int, *net, list@, p, list@.len() as int, i, 1);
                lemma_range_sum_ext(*net, below(p, num_features()), |f: int| inc.state.has(f), num_features(), i);
            }
        }
        inc
    }
}

/// Every hidden value stays within `i16` while a hidden layer of the features of `old` moves to
/// that of the features of `new`: first the features that left are subtracted, then those that
/// came are added, each in increasing order.
pub open spec fn update_fits(net: Network, old: IncrementalState, new: spec_fn(int) -> bool) -> bool {
    let gone = |f: int| old.has(f) && !new(f);
    let kept = |f: int| old.has(f) && new(f);
    let came = |f: int| new(f) && !old.has(f);
    forall|t: int, i: int|
        0 <= t <= num_features() && 0 <= i < HIDDEN_SIZE ==> {
            &&& fits_i16(
                net.feature_bias.vals@[i] + range_sum(net, |f: int| old.has(f), num_features(), i)
                    - #[trigger] range_sum(net, below(gone, t), num_features(), i),
            )
            &&& fits_i16(
                net.feature_bias.vals@[i] + range_sum(net, kept, num_features(), i) + range_sum(
                    net,
                    below(came, t),
                    num_features(),
                    i,
                ),
            )
        }
}

impl Incremental {
    /// The hidden layer of `state`, reached from that of `old` by subtracting the weights of the
    /// features that left and adding those of the features that came.
    pub fn update(net: &Network, old: &Incremental, state: IncrementalState) -> (inc: Self)
        requires
            net.wf(),
            old.wf(*net),
            update_fits(*net, old.state, |f: int| state.has(f)),
        ensures
            inc.state == state,
            inc.wf(*net),
    {
        let ghost n = num_features();
        let ghost olds = |f: int| old.state.has(f);
        let ghost news = |f: int| state.has(f);
        let ghost gone = |f: int| old.state.has(f) && !news(f);
        let ghost kept = |f: int| old.state.has(f) && news(f);
        let ghost came = |f: int| news(f) && !old.state.has(f);
        let ghost dgone = |f: int| old.state.has(f) && !state.has(f);
        let ghost dcame = |f: int| state.has(f) && !old.state.has(f);
        let mut acc = Accumulator::from_old(&old.vec);
        let (sub, add) = state.diff(&old.state);
        proof {
            assert forall|k: int| 0 <= k < sub@.len() implies (#[trigger] sub@[k] as int) < num_features() by {
                assert(dgone(sub@[k] as int));
            }
            assert forall|k: int| 0 <= k < add@.len() implies (#[trigger] add@[k] as int) < num_features() by {
                assert(dcame(add@[k] as int));
            }
            assert forall|k: int, i: int| 0 <= k <= sub@.len() && 0 <= i < 512 implies i16::MIN
                <= #[trigger] sum_features(acc.vals@[i] as int, *net, sub@, k, i, -1) <= i16::MAX by {
                lemma_prefix_sum(acc.vals@[i] as int, *net, sub@, dgone, k, i, -1);
                let t = list_bound(sub@, k);
                lemma_range_sum_ext(*net, below(dgone, t), below(gone, t), n, i);
                assert(old.vec.vals@[i] == net.feature_bias.vals@[i] + range_sum(*net, olds, n, i));
                assert(fits_i16(net.feature_bias.vals@[i] + range_sum(*net, olds, n, i)
                    - range_sum(*net, below(gone, t), n, i)));
            }
        }
        acc.remove_all(sub.as_slice(), net);
        let ghost mid = acc;
        proof {
            assert forall|i: int| 0 <= i < HIDDEN_SIZE implies #[trigger] mid.vals@[i]
                == net.feature_bias.vals@[i] + range_sum(*net, kept, n, i) by {
                lemma_prefix_sum(old.vec.vals@[i] as int, *net, sub@, dgone, sub@.len() as int, i, -1);
                lemma_range_sum_ext(*net, below(dgone, n), gone, n, i);
                lemma_range_sum_split(*net, olds, news, n, i);
                lemma_range_sum_ext(*net, |f: int| olds(f) && news(f), kept, n, i);
                lemma_range_sum_ext(*net, |f: int| olds(f) && !news(f), gone, n, i);
            }
            assert forall|k: int, i: int| 0 <= k <= add@.len() && 0 <= i < 512 implies i16::MIN
                <= #[trigger] sum_features(acc.vals@[i] as int, *net, add@, k, i, 1) <= i16::MAX by {
                lemma_prefix_sum(acc.vals@[i] as int, *net, add@, dcame, k, i, 1);
                let t = list_bound(add@, k);
                lemma_range_sum_ext(*net, below(dcame, t), below(came, t), n, i);
                assert(fits_i16(net.feature_bias.vals@[i] + range_sum(*net, olds, n, i)
                    - range_sum(*net, below(gone, t), n, i)));
                assert(fits_i16(net.feature_bias.vals@[i] + range_sum(*net, kept, n, i)
                    + range_sum(*net, below(came, t), n, i)));
            }
        }
        acc.add_all(add.as_slice(), net);
        let inc = Incremental { state, vec: acc };
        proof {
            assert forall|i: int| 0 <= i < HIDDEN_SIZE implies #[trigger] inc.vec.vals@[i]
                == net.feature_bias.vals@[i] + range_sum(*net, |f: int| inc.state.has(f), n, i) by {
                lemma_prefix_sum(mid.vals@[i] as int, *net, add@, dcame, add@.len() as int, i, 1);
                lemma_range_sum_ext(*net, below(dcame, n), came, n, i);
                lemma_range_sum_split(*net, news, olds, n, i);
                lemma_range_sum_ext(*net, |f: int| news(f) && olds(f), kept, n, i);
                lemma_range_sum_ext(*net, |f: int| news(f) && !olds(f), came, n, i);
                lemma_range_sum_ext(*net, news, |f: int| inc.state.has(f), n, i);
            }
        }
        inc
    }
}

/// The features of the player to move on a board.
pub open spec fn ours_of(b: BoardData) -> spec_fn(int) -> bool {
    |f: int| exists|i: int| 0 <= i < feature_list(b).len() && feature_list(b)[i].0 == f
}

/// The features of the other player on a board.
pub open spec fn theirs_of(b: BoardData) -> spec_fn(int) -> bool {
    |f: int| exists|i: int| 0 <= i < feature_list(b).len() && feature_list(b)[i].1 == f
}

/// The evaluation of the hidden layers that the features `ours` and `theirs` give, our
/// features scored by the piece-square table, keeps within `i32`.
pub open spec fn eval_fits(net: Network, ours: spec_fn(int) -> bool, theirs: spec_fn(int) -> bool) -> bool {
    forall|us: Accumulator, them: Accumulator, l: Seq<u16>|
        us.holds(net, ours) && them.holds(net, theirs) && lists_exactly(l, ours)
            ==> #[trigger] evaluation_fits(net, us, them, l)
}

/// `r` is the evaluation of the hidden layers that the features `ours` and `theirs` give, our
/// features scored by the piece-square table.
pub open spec fn evaluates_to(net: Network, ours: spec_fn(int) -> bool, theirs: spec_fn(int) -> bool, r: int) -> bool {
    forall|us: Accumulator, them: Accumulator, l: Seq<u16>|
        us.holds(net, ours) && them.holds(net, theirs) && lists_exactly(l, ours)
            ==> #[trigger] network_output(net, us, them, l) == r
}

proof fn lemma_build_fits_ext(net: Network, s: spec_fn(int) -> bool, t: spec_fn(int) -> bool)
    requires
        build_fits(net, s),
        forall|f: int| #[trigger] s(f) == t(f),
    ensures
        build_fits(net, t),
{
    assert forall|u: int, i: int| 0 <= u <= num_features() && 0 <= i < HIDDEN_SIZE implies fits_i16(
        net.feature_bias.vals@[i] + #[trigger] range_sum(net, below(t, u), num_features(), i),
    ) by {
        lemma_range_sum_ext(net, below(s, u), below(t, u), num_features(), i);
        assert(fits_i16(net.feature_bias.vals@[i] + range_sum(net, below(s, u), num_features(), i)));
    }
}

/// Evaluates the hidden layers `us` and `them`, which the states `a` and `b` give, with the
/// features of `a` as list, where `a` and `b` hold the features `ours` and `theirs`.
fn evaluate_states(
    net: &Network,
    us: &Incremental,
    them: &Incremental,
    ours: Ghost<spec_fn(int) -> bool>,
    theirs: Ghost<spec_fn(int) -> bool>,
) -> (r: i32)
    requires
        net.wf(),
        us.wf(*net),
        them.wf(*net),
        forall|f: int| #[trigger] us.state.has(f) == ours@(f),
        forall|f: int| #[trigger] them.state.has(f) == theirs@(f),
        eval_fits(*net, ours@, theirs@),
    ensures
        evaluates_to(*net, ours@, theirs@, r as int),
{
    let list = us.state.features();
    proof {
        lemma_lists_exactly_same(list@, |f: int| us.state.has(f), ours@);
        assert forall|i: int| 0 <= i < HIDDEN_SIZE implies #[trigger] us.vec.vals@[i]
            == net.feature_bias.vals@[i] + range_sum(*net, ours@, num_features(), i) by {
            lemma_range_sum_ext(*net, |f: int| us.state.has(f), ours@, num_features(), i);
        }
        assert forall|i: int| 0 <= i < HIDDEN_SIZE implies #[trigger] them.vec.vals@[i]
            == net.feature_bias.vals@[i] + range_sum(*net, theirs@, num_features(), i) by {
            lemma_range_sum_ext(*net, |f: int| them.state.has(f), theirs@, num_features(), i);
        }
        assert(evaluation_fits(*net, us.vec, them.vec, list@));
    }
    let r = net.evaluate(&us.vec, &them.vec, list.as_slice());
    proof {
        assert forall|a: Accumulator, b: Accumulator, l: Seq<u16>|
            a.holds(*net, ours@) && b.holds(*net, theirs@) && lists_exactly(l, ours@)
                implies #[trigger] network_output(*net, a, b, l) == r by {
            assert(a.vals@ =~= us.vec.vals@);
            assert(b.vals@ =~= them.vec.vals@);
            lemma_lists_exactly_unique(l, list@, ours@);
        }
    }
    r
}

/// A cache of the hidden layers of the last position evaluated with each player to move.
pub struct NNUE6 {
    pub white: (Incremental, Incremental),
    pub black: (Incremental, Incremental),
    pub tempo_offset: i32,
}

impl NNUE6 {
    pub open spec fn wf(self, net: Network) -> bool {
        &&& self.white.0.wf(net)
        &&& self.white.1.wf(net)
        &&& self.black.0.wf(net)
        &&& self.black.1.wf(net)
    }

    /// The cache before any evaluation: no features, the bias as every hidden layer.
    pub fn new(net: &Network) -> (nnue: Self)
        ensures
            nnue.wf(*net),
            forall|f: int| !(#[trigger] nnue.white.0.state.has(f)),
            forall|f: int| !(#[trigger] nnue.white.1.state.has(f)),
            forall|f: int| !(#[trigger] nnue.black.0.state.has(f)),
            forall|f: int| !(#[trigger] nnue.black.1.state.has(f)),
            nnue.tempo_offset == 100,
    {
        NNUE6 {
            white: (Incremental::fresh_empty(net), Incremental::fresh_empty(net)),
            black: (Incremental::fresh_empty(net), Incremental::fresh_empty(net)),
            tempo_offset: 100,
        }
    }

    /// Evaluates a board from scratch: both hidden layers are built from the bias.
    pub fn manual_eval(net: &Network, takboard: BoardData) -> (r: i32)
        requires
            net.wf(),
            features_readable(takboard),
            build_fits(*net, ours_of(takboard)),
            build_fits(*net, theirs_of(takboard)),
            eval_fits(*net, ours_of(takboard), theirs_of(takboard)),
        ensures
            evaluates_to(*net, ours_of(takboard), theirs_of(takboard), r as int),
    {
        let (ours, theirs) = build_features(takboard);
        proof {
            lemma_build_fits_ext(*net, ours_of(takboard), |f: int| ours.has(f));
            lemma_build_fits_ext(*net, theirs_of(takboard), |f: int| theirs.has(f));
        }
        let ours = Incremental::fresh_new(net, ours);
        let theirs = Incremental::fresh_new(net, theirs);
        evaluate_states(net, &ours, &theirs, Ghost(ours_of(takboard)), Ghost(theirs_of(takboard)))
    }

    /// Evaluates a board from the hidden layers cached for the player to move: only the
    /// features that changed since are subtracted or added. The result is that of
    /// `manual_eval`, and the cache then holds this board for the player to move.
    pub fn incremental_eval(&mut self, net: &Network, takboard: BoardData) -> (r: i32)
        requires
            net.wf(),
            old(self).wf(*net),
            features_readable(takboard),
            update_fits(
                *net,
                if takboard.white_to_move { old(self).white.0.state } else { old(self).black.0.state },
                ours_of(takboard),
            ),
            update_fits(
                *net,
                if takboard.white_to_move { old(self).white.1.state } else { old(self).black.1.state },
                theirs_of(takboard),
            ),
            eval_fits(*net, ours_of(takboard), theirs_of(takboard)),
        ensures
            final(self).wf(*net),
            final(self).tempo_offset == old(self).tempo_offset,
            takboard.white_to_move ==> final(self).black == old(self).black,
            !takboard.white_to_move ==> final(self).white == old(self).white,
            takboard.white_to_move ==> forall|f: int| #[trigger] final(self).white.0.state.has(f) == ours_of(takboard)(f),
            takboard.white_to_move ==> forall|f: int| #[trigger] final(self).white.1.state.has(f) == theirs_of(takboard)(f),
            !takboard.white_to_move ==> forall|f: int| #[trigger] final(self).black.0.state.has(f) == ours_of(takboard)(f),
            !takboard.white_to_move ==> forall|f: int| #[trigger] final(self).black.1.state.has(f) == theirs_of(takboard)(f),
            evaluates_to(*net, ours_of(takboard), theirs_of(takboard), r as int),
    {
        let (ours, theirs) = build_features(takboard);
        let (new_ours, new_theirs) = if takboard.white_to_move {
            proof {
                lemma_update_fits_ext(*net, self.white.0.state, ours_of(takboard), |f: int| ours.has(f));
                lemma_update_fits_ext(*net, self.white.1.state, theirs_of(takboard), |f: int| theirs.has(f));
            }
            (Incremental::update(net, &self.white.0, ours), Incremental::update(net, &self.white.1, theirs))
        } else {
            proof {
                lemma_update_fits_ext(*net, self.black.0.state, ours_of(takboard), |f: int| ours.has(f));
                lemma_update_fits_ext(*net, self.black.1.state, theirs_of(takboard), |f: int| theirs.has(f));
            }
            (Incremental::update(net, &self.black.0, ours), Incremental::update(net, &self.black.1, theirs))
        };
        let r = evaluate_states(net, &new_ours, &new_theirs, Ghost(ours_of(takboard)), Ghost(theirs_of(takboard)));
        if takboard.white_to_move {
            self.white = (new_ours, new_theirs);
        } else {
            self.black = (new_ours, new_theirs);
        }
        r
    }
}

proof fn lemma_update_fits_ext(net: Network, old: IncrementalState, s: spec_fn(int) -> bool, t: spec_fn(int) -> bool)
    requires
        update_fits(net, old, s),
        forall|f: int| #[trigger] s(f) == t(f),
    ensures
        update_fits(net, old, t),
{
    let n = num_features();
    let olds = |f: int| old.has(f);
    let gs = |f: int| old.has(f) && !s(f);
    let gt = |f: int| old.has(f) && !t(f);
    let ks = |f: int| old.has(f) && s(f);
    let kt = |f: int| old.has(f) && t(f);
    let cs = |f: int| s(f) && !old.has(f);
    let ct = |f: int| t(f) && !old.has(f);
    assert forall|u: int, i: int| 0 <= u <= n && 0 <= i < HIDDEN_SIZE implies {
        &&& fits_i16(net.feature_bias.vals@[i] + range_sum(net, olds, n, i) - #[trigger] range_sum(net, below(gt, u), n, i))
        &&& fits_i16(net.feature_bias.vals@[i] + range_sum(net, kt, n, i) + range_sum(net, below(ct, u), n, i))
    } by {
        lemma_range_sum_ext(net, below(gs, u), below(gt, u), n, i);
        lemma_range_sum_ext(net, ks, kt, n, i);
        lemma_range_sum_ext(net, below(cs, u), below(ct, u), n, i);
        assert(fits_i16(net.feature_bias.vals@[i] + range_sum(net, olds, n, i) - range_sum(net, below(gs, u), n, i)));
    }
}

} // verus!
