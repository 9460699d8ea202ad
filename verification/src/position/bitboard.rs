//! A set of squares (or stack positions), stored as the bits of a `u64`.
use vstd::prelude::*;
use vstd::std_specs::bits::u64_trailing_zeros;

use super::bits::{bit, lemma_bit_low_mask, lemma_bit_ops, lemma_bit_set, lemma_bit_test, lemma_lowest_bit, popcount, popcount_below};
use super::square::{valid_size, Square};
use super::utils::Direction;

verus! {

#[derive(PartialEq, Eq, Structural, Clone, Copy, Hash, Default, Debug)]
pub struct BitBoard {
    pub board: u64,
}

/// Mask of the bits of rank 0 on an `s`x`s` board: one bit per file.
pub open spec fn rank_mask(s: usize) -> u64 {
    if s == 1 {
        0b1
    } else if s == 2 {
        0b0101
    } else if s == 3 {
        0b1_001_001
    } else if s == 4 {
        0b1_0001_0001_0001
    } else if s == 5 {
        0b1_00001_00001_00001_00001
    } else if s == 6 {
        0b1_000001_000001_000001_000001_000001
    } else if s == 7 {
        0b1_0000001_0000001_0000001_0000001_0000001_0000001
    } else if s == 8 {
        0b1_00000001_00000001_00000001_00000001_00000001_00000001_00000001
    } else {
        0
    }
}

/// Mask of the bits of file 0 on an `s`x`s` board: the lowest `s` bits.
pub open spec fn file_mask(s: usize) -> u64 {
    ((1u64 << (s as u64)) - 1) as u64
}

impl BitBoard {
    pub open spec fn contains(self, i: u64) -> bool {
        bit(self.board, i)
    }

    pub fn empty() -> (b: Self)
        ensures
            b.board == 0,
    {
        BitBoard { board: 0 }
    }

    pub fn full() -> (b: Self)
        ensures
            b.board == u64::MAX,
    {
        BitBoard { board: u64::MAX }
    }

    pub fn from_u64(n: u64) -> (b: Self)
        ensures
            b.board == n,
    {
        BitBoard { board: n }
    }

    /// The union of two sets.
    pub fn or(self, rhs: BitBoard) -> (b: BitBoard)
        ensures
            b.board == self.board | rhs.board,
            forall|j: u64| j < 64 ==> #[trigger] b.contains(j) == (self.contains(j) || rhs.contains(j)),
    {
        proof {
            assert forall|j: u64| j < 64 implies #[trigger] bit(self.board | rhs.board, j) == (bit(self.board, j) || bit(rhs.board, j)) by {
                lemma_bit_ops(self.board, rhs.board, j);
            }
        }
        BitBoard::from_u64(self.board | rhs.board)
    }

    /// The intersection of two sets.
    pub fn and(self, rhs: BitBoard) -> (b: BitBoard)
        ensures
            b.board == self.board & rhs.board,
            forall|j: u64| j < 64 ==> #[trigger] b.contains(j) == (self.contains(j) && rhs.contains(j)),
    {
        proof {
            assert forall|j: u64| j < 64 implies #[trigger] bit(self.board & rhs.board, j) == (bit(self.board, j) && bit(rhs.board, j)) by {
                lemma_bit_ops(self.board, rhs.board, j);
            }
        }
        BitBoard::from_u64(self.board & rhs.board)
    }

    /// The complement of a set.
    pub fn negate(self) -> (b: BitBoard)
        ensures
            b.board == !self.board,
            forall|j: u64| j < 64 ==> #[trigger] b.contains(j) == !self.contains(j),
    {
        proof {
            assert forall|j: u64| j < 64 implies #[trigger] bit(!self.board, j) == !bit(self.board, j) by {
                lemma_bit_ops(self.board, 0, j);
            }
        }
        BitBoard::from_u64(!self.board)
    }

    /// The bits `0..n`.
    pub fn lower_n_bits(n: u8) -> (b: Self)
        ensures
            forall|j: u64| j < 64 ==> #[trigger] b.contains(j) == (j < n),
            n >= 64 ==> b.board == u64::MAX,
            n < 64 ==> b.board == ((1u64 << n) - 1) as u64,
    {
        if n >= 64 {
            proof {
                assert forall|j: u64| j < 64 implies #[trigger] bit(u64::MAX, j) by {
                    lemma_bit_ops(0, 0, j);
                }
            }
            Self::full()
        } else {
            proof {
                lemma_bit_low_mask(n as u64, 0);
                assert forall|j: u64| j < 64 implies #[trigger] bit(((1u64 << n) - 1) as u64, j) == (j < n) by {
                    lemma_bit_low_mask(n as u64, j);
                }
            }
            BitBoard { board: ((1u64 << n) - 1) as u64 }
        }
    }

    pub fn get(self, i: u8) -> (b: bool)
        requires
            i < 64,
        ensures
            b == self.contains(i as u64),
    {
        proof {
            lemma_bit_test(self.board, i as u64);
        }
        self.board & (1u64 << i) != 0
    }

    pub fn get_square<const S: usize>(self, square: Square<S>) -> (b: bool)
        requires
            square.inner < 64,
        ensures
            b == self.contains(square.inner as u64),
    {
        self.get(square.inner)
    }

    /// Sets the bit to true
    pub fn set(self, i: u8) -> (b: Self)
        requires
            i < 64,
        ensures
            b.board == self.board | (1u64 << i),
            forall|j: u64| j < 64 ==> #[trigger] b.contains(j) == (j == i || self.contains(j)),
    {
        proof {
            assert forall|j: u64| j < 64 implies #[trigger] bit(self.board | (1u64 << i), j) == (j == i || bit(self.board, j)) by {
                lemma_bit_set(self.board, i as u64, j);
            }
        }
        BitBoard::from_u64(self.board | (1u64 << i))
    }

    /// Sets the square to true
    pub fn set_square<const S: usize>(self, square: Square<S>) -> (b: Self)
        requires
            square.inner < 64,
        ensures
            b.board == self.board | (1u64 << square.inner),
            forall|j: u64| j < 64 ==> #[trigger] b.contains(j) == (j == square.inner || self.contains(j)),
    {
        self.set(square.inner)
    }

    /// Sets the bit to false
    pub fn clear(self, i: u8) -> (b: Self)
        requires
            i < 64,
        ensures
            b.board == self.board & !(1u64 << i),
            forall|j: u64| j < 64 ==> #[trigger] b.contains(j) == (j != i && self.contains(j)),
    {
        proof {
            assert forall|j: u64| j < 64 implies #[trigger] bit(self.board & !(1u64 << i), j) == (j != i && bit(self.board, j)) by {
                lemma_bit_set(self.board, i as u64, j);
            }
        }
        BitBoard::from_u64(self.board & !(1u64 << i))
    }

    /// Sets the square to false
    pub fn clear_square<const S: usize>(self, square: Square<S>) -> (b: Self)
        requires
            square.inner < 64,
        ensures
            b.board == self.board & !(1u64 << square.inner),
            forall|j: u64| j < 64 ==> #[trigger] b.contains(j) == (j != square.inner && self.contains(j)),
    {
        self.clear(square.inner)
    }

    /// The squares of file `i`.
    pub fn file<const S: usize>(self, i: u8) -> (b: Self)
        requires
            valid_size(S),
            i < S,
        ensures
            b.board == self.board & (file_mask(S) << ((i as u64) * (S as u64))),
    {
        proof {
            lemma_bit_low_mask(S as u64, 0);
            assert((i as u64) * (S as u64) < 64) by (nonlinear_arith)
                requires
                    i < S,
                    S <= 8,
            ;
        }
        let mask: u64 = ((1u64 << (S as u64)) - 1) as u64;
        BitBoard::from_u64(self.board & (mask << ((i as u64) * (S as u64))))
    }

    /// The squares of rank `i`.
    pub fn rank<const S: usize>(self, i: u8) -> (b: Self)
        requires
            valid_size(S),
            i < S,
        ensures
            b.board == self.board & (rank_mask(S) << (i as u64)),
    {
        let mask: u64 = if S == 1 {
            0b1
        } else if S == 2 {
            0b0101
        } else if S == 3 {
            0b1_001_001
        } else if S == 4 {
            0b1_0001_0001_0001
        } else if S == 5 {
            0b1_00001_00001_00001_00001
        } else if S == 6 {
            0b1_000001_000001_000001_000001_000001
        } else if S == 7 {
            0b1_0000001_0000001_0000001_0000001_0000001_0000001
        } else if S == 8 {
            0b1_00000001_00000001_00000001_00000001_00000001_00000001_00000001
        } else {
            0
        };
        BitBoard::from_u64(self.board & (mask << (i as u64)))
    }

    /// The rank and the file of a square.
    pub fn lines_for_square<const S: usize>(square: Square<S>) -> (lines: [Self; 2])
        requires
            valid_size(S),
            square.valid(),
        ensures
            lines[0].board == u64::MAX & (rank_mask(S) << (square.spec_rank() as u64)),
            lines[1].board == u64::MAX & (file_mask(S) << ((square.spec_file() as u64) * (S as u64))),
    {
        proof {
            square.lemma_rank_file();
        }
        [Self::full().rank::<S>(square.rank()), Self::full().file::<S>(square.file())]
    }

    pub fn is_empty(self) -> (b: bool)
        ensures
            b == (self.board == 0),
    {
        self.board == 0
    }

    /// The number of set bits.
    pub fn count(self) -> (n: u8)
        ensures
            n == popcount(self.board),
    {
        let mut n: u8 = 0;
        let mut i: u64 = 0;
        while i < 64
            invariant
                i <= 64,
                n == popcount_below(self.board, i as nat),
                n <= i,
            decreases 64 - i,
        {
            proof {
                super::bits::lemma_popcount_below_bound(self.board, i as nat);
                lemma_bit_test(self.board, i);
            }
            if (self.board >> i) & 1 == 1 {
                n = n + 1;
            }
            i = i + 1;
        }
        n
    }

    /// The board with only the square's neighbors set.
    pub fn neighbors<const S: usize>(square: Square<S>) -> (b: BitBoard)
        requires
            valid_size(S),
            square.valid(),
        ensures
            forall|j: u64| j < 64 ==> #[trigger] b.contains(j) == (exists|d: Direction|
                #[trigger] square.spec_go_direction(d) == Some(Square::<S> { inner: j as u8 })),
    {
        let mut board = BitBoard::empty();
        let north = square.go_direction_const(Direction::North);
        let west = square.go_direction_const(Direction::West);
        let east = square.go_direction_const(Direction::East);
        let south = square.go_direction_const(Direction::South);
        proof {
            assert(S * S <= 64) by (nonlinear_arith)
                requires
                    S <= 8,
            ;
        }
        if let Some(n) = north {
            board = board.set_square(n);
        }
        if let Some(w) = west {
            board = board.set_square(w);
        }
        if let Some(e) = east {
            board = board.set_square(e);
        }
        if let Some(s) = south {
            board = board.set_square(s);
        }
        proof {
            assert forall|j: u64| j < 64 implies #[trigger] board.contains(j) == (exists|d: Direction|
                #[trigger] square.spec_go_direction(d) == Some(Square::<S> { inner: j as u8 })) by {
                let target = Square::<S> { inner: j as u8 };
                lemma_bit_ops(0, 0, j);
                if board.contains(j) {
                    if north == Some(target) {
                        assert(square.spec_go_direction(Direction::North) == Some(target));
                    } else if west == Some(target) {
                        assert(square.spec_go_direction(Direction::West) == Some(target));
                    } else if east == Some(target) {
                        assert(square.spec_go_direction(Direction::East) == Some(target));
                    } else {
                        assert(square.spec_go_direction(Direction::South) == Some(target));
                    }
                }
                if exists|d: Direction| #[trigger] square.spec_go_direction(d) == Some(target) {
                    let d = choose|d: Direction| #[trigger] square.spec_go_direction(d) == Some(target);
                    match d {
                        Direction::North => {},
                        Direction::West => {},
                        Direction::East => {},
                        Direction::South => {},
                    }
                }
            }
        }
        board
    }

    /// The lowest set square, if any.
    pub fn occupied_square<const S: usize>(self) -> (sq: Option<Square<S>>)
        requires
            valid_size(S),
            forall|j: u64| S * S <= j < 64 ==> !#[trigger] self.contains(j),
        ensures
            sq is None <==> self.board == 0,
            sq matches Some(s) ==> s.valid() && self.contains(s.inner as u64) && forall|j: u64|
                j < s.inner ==> !#[trigger] self.contains(j),
    {
        if self.is_empty() {
            None
        } else {
            proof {
                lemma_lowest_bit(self.board);
            }
            let t = self.board.trailing_zeros();
            assert(self.contains(t as u64));
            Some(Square::from_u8(t as u8))
        }
    }

    pub fn into_iter<const S: usize>(self) -> (it: BitBoardIter<S>)
        ensures
            it.board == self,
    {
        BitBoardIter::new(self)
    }
}

impl std::ops::BitOr for BitBoard {
    type Output = BitBoard;

    fn bitor(self, rhs: BitBoard) -> (b: BitBoard) {
        BitBoard::from_u64(self.board | rhs.board)
    }
}

impl vstd::std_specs::ops::BitOrSpecImpl for BitBoard {
    open spec fn obeys_bitor_spec() -> bool {
        true
    }

    open spec fn bitor_req(self, rhs: BitBoard) -> bool {
        true
    }

    /// The union of the two sets of squares.
    open spec fn bitor_spec(self, rhs: BitBoard) -> BitBoard {
        BitBoard { board: self.board | rhs.board }
    }
}

impl std::ops::BitAnd for BitBoard {
    type Output = BitBoard;

    fn bitand(self, rhs: BitBoard) -> (b: BitBoard) {
        BitBoard::from_u64(self.board & rhs.board)
    }
}

impl vstd::std_specs::ops::BitAndSpecImpl for BitBoard {
    open spec fn obeys_bitand_spec() -> bool {
        true
    }

    open spec fn bitand_req(self, rhs: BitBoard) -> bool {
        true
    }

    /// The squares in both sets.
    open spec fn bitand_spec(self, rhs: BitBoard) -> BitBoard {
        BitBoard { board: self.board & rhs.board }
    }
}

impl std::ops::Not for BitBoard {
    type Output = BitBoard;

    fn not(self) -> (b: BitBoard) {
        BitBoard::from_u64(!self.board)
    }
}

impl vstd::std_specs::ops::NotSpecImpl for BitBoard {
    open spec fn obeys_not_spec() -> bool {
        true
    }

    open spec fn not_req(self) -> bool {
        true
    }

    /// The squares not in the set.
    open spec fn not_spec(self) -> BitBoard {
        BitBoard { board: !self.board }
    }
}

/// The squares of a bitboard, lowest first.
pub struct BitBoardIter<const S: usize> {
    pub board: BitBoard,
}

impl<const S: usize> BitBoardIter<S> {
    pub fn new(board: BitBoard) -> (it: Self)
        ensures
            it.board == board,
    {
        BitBoardIter { board }
    }

    /// Takes out the lowest remaining square.
    pub fn next(&mut self) -> (sq: Option<Square<S>>)
        requires
            valid_size(S),
            forall|j: u64| S * S <= j < 64 ==> !#[trigger] old(self).board.contains(j),
        ensures
            sq is None <==> old(self).board.board == 0,
            sq matches Some(s) ==> s.valid() && old(self).board.contains(s.inner as u64)
                && (forall|j: u64| j < s.inner ==> !#[trigger] old(self).board.contains(j))
                && final(self).board == old(self).board.clear_spec(s.inner),
            sq is None ==> final(self).board == old(self).board,
            forall|j: u64| S * S <= j < 64 ==> !#[trigger] final(self).board.contains(j),
    {
        proof {
            assert(S * S <= 64) by (nonlinear_arith)
                requires
                    S <= 8,
            ;
        }
        match self.board.occupied_square::<S>() {
            None => None,
            Some(sq) => {
                self.board = self.board.clear(sq.inner);
                Some(sq)
            },
        }
    }
}

impl BitBoard {
    pub open spec fn clear_spec(self, i: u8) -> BitBoard {
        BitBoard { board: self.board & !(1u64 << i) }
    }
}

} // verus!
