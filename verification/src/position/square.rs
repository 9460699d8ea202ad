//! Squares of an `S`x`S` board, numbered `file * S + rank`.
use vstd::prelude::*;

use super::utils::Direction;
use crate::text::{self, parse_error};

verus! {

/// Board sizes that the engine supports.
pub open spec fn valid_size(s: usize) -> bool {
    3 <= s <= 8
}

/// A location on the board. Can be used to index a `Board`.
#[derive(Clone, Copy, Debug, Default, PartialEq, Eq, Hash)]
pub struct Square<const S: usize> {
    pub inner: u8,
}

/// The square `steps` squares away from `(rank, file)` in a direction, if it is on the board.
pub open spec fn spec_jump(s: int, rank: int, file: int, direction: Direction, steps: int) -> Option<(int, int)> {
    let (r, f) = match direction {
        Direction::North => (rank - steps, file),
        Direction::West => (rank, file - steps),
        Direction::East => (rank, file + steps),
        Direction::South => (rank + steps, file),
    };
    if 0 <= r < s && 0 <= f < s {
        Some((r, f))
    } else {
        None
    }
}

impl<const S: usize> Square<S> {
    pub open spec fn valid(self) -> bool {
        (self.inner as int) < S * S
    }

    pub open spec fn spec_rank(self) -> int {
        self.inner as int % S as int
    }

    pub open spec fn spec_file(self) -> int {
        self.inner as int / S as int
    }

    pub open spec fn spec_from_rank_file(rank: int, file: int) -> Square<S> {
        Square { inner: (file * S + rank) as u8 }
    }

    /// The square `steps` squares away in `direction`, if it is on the board.
    pub open spec fn spec_jump_direction(self, direction: Direction, steps: int) -> Option<Square<S>> {
        match spec_jump(S as int, self.spec_rank(), self.spec_file(), direction, steps) {
            Some((r, f)) => Some(Square::spec_from_rank_file(r, f)),
            None => None,
        }
    }

    pub open spec fn spec_go_direction(self, direction: Direction) -> Option<Square<S>> {
        self.spec_jump_direction(direction, 1)
    }

    /// Two squares are neighbours if one is a single step from the other.
    pub open spec fn spec_adjacent(self, other: Square<S>) -> bool {
        exists|d: Direction| #[trigger] self.spec_go_direction(d) == Some(other)
    }

    pub proof fn lemma_rank_file(self)
        requires
            valid_size(S),
            self.valid(),
        ensures
            0 <= self.spec_rank() < S,
            0 <= self.spec_file() < S,
            Square::<S>::spec_from_rank_file(self.spec_rank(), self.spec_file()) == self,
    {
        assert(self.inner as int == self.spec_file() * S + self.spec_rank()) by (nonlinear_arith)
            requires
                S > 0,
        ;
        assert(self.spec_file() < S) by (nonlinear_arith)
            requires
                (self.inner as int) < S * S,
                S > 0,
                self.spec_file() == self.inner as int / S as int,
        ;
    }

    pub proof fn lemma_from_rank_file(rank: int, file: int)
        requires
            valid_size(S),
            0 <= rank < S,
            0 <= file < S,
        ensures
            Square::<S>::spec_from_rank_file(rank, file).valid(),
            Square::<S>::spec_from_rank_file(rank, file).inner == file * S + rank,
            Square::<S>::spec_from_rank_file(rank, file).spec_rank() == rank,
            Square::<S>::spec_from_rank_file(rank, file).spec_file() == file,
    {
        assert(0 <= file * S + rank < S * S) by (nonlinear_arith)
            requires
                0 <= rank < S,
                0 <= file < S,
        ;
        assert(S * S <= 64) by (nonlinear_arith)
            requires
                S <= 8,
        ;
        let sq = Square::<S>::spec_from_rank_file(rank, file);
        assert(sq.inner == file * S + rank);
        vstd::arithmetic::div_mod::lemma_fundamental_div_mod_converse(
            sq.inner as int,
            S as int,
            file,
            rank,
        );
    }

    /// Stepping keeps the square on the board.
    pub proof fn lemma_jump_valid(self, direction: Direction, steps: int)
        requires
            valid_size(S),
            self.valid(),
        ensures
            self.spec_jump_direction(direction, steps) matches Some(sq) ==> sq.valid(),
            self.spec_jump_direction(direction, steps) is Some && steps >= 0 ==> steps < S,
    {
        self.lemma_rank_file();
        if let Some((r, f)) = spec_jump(S as int, self.spec_rank(), self.spec_file(), direction, steps) {
            Square::<S>::lemma_from_rank_file(r, f);
        }
    }

    /// A jump of zero squares stays put, and a jump of `i + 1` squares is one more step
    /// after a jump of `i`.
    pub proof fn lemma_jump_step(self, direction: Direction, i: int)
        requires
            valid_size(S),
            self.valid(),
            i >= 0,
        ensures
            self.spec_jump_direction(direction, 0) == Some(self),
            self.spec_jump_direction(direction, i) matches Some(s) ==> self.spec_jump_direction(
                direction,
                i + 1,
            ) == s.spec_go_direction(direction),
            self.spec_jump_direction(direction, i + 1) is Some ==> self.spec_jump_direction(direction, i) is Some,
    {
        self.lemma_rank_file();
        if let Some((r, f)) = spec_jump(S as int, self.spec_rank(), self.spec_file(), direction, i) {
            Square::<S>::lemma_from_rank_file(r, f);
        }
    }

    /// Squares with the same rank and file are the same square.
    pub proof fn lemma_rank_file_injective(self, other: Square<S>)
        requires
            valid_size(S),
            self.valid(),
            other.valid(),
            self.spec_rank() == other.spec_rank(),
            self.spec_file() == other.spec_file(),
        ensures
            self == other,
    {
        self.lemma_rank_file();
        other.lemma_rank_file();
    }

    /// The squares along a straight line are all different.
    pub proof fn lemma_jumps_distinct(self, direction: Direction, i: int, j: int)
        requires
            valid_size(S),
            self.valid(),
            0 <= i < j,
            self.spec_jump_direction(direction, i) is Some,
            self.spec_jump_direction(direction, j) is Some,
        ensures
            self.spec_jump_direction(direction, i).unwrap().inner != self.spec_jump_direction(direction, j).unwrap().inner,
    {
        self.lemma_rank_file();
        let (r1, f1) = spec_jump(S as int, self.spec_rank(), self.spec_file(), direction, i).unwrap();
        let (r2, f2) = spec_jump(S as int, self.spec_rank(), self.spec_file(), direction, j).unwrap();
        Square::<S>::lemma_from_rank_file(r1, f1);
        Square::<S>::lemma_from_rank_file(r2, f2);
    }

    pub fn from_u8(inner: u8) -> (sq: Self)
        requires
            (inner as int) < S * S,
        ensures
            sq.inner == inner,
            sq.valid(),
    {
        Square { inner }
    }

    pub fn into_inner(self) -> (i: u8)
        ensures
            i == self.inner,
    {
        self.inner
    }

    /// The four corners of the board.
    pub fn corners() -> (cs: [Self; 4])
        requires
            valid_size(S),
        ensures
            cs[0].inner == 0,
            cs[1].inner == S - 1,
            cs[2].inner == S * (S - 1),
            cs[3].inner == S * S - 1,
            forall|i: int| 0 <= i < 4 ==> #[trigger] cs[i].valid(),
    {
        proof {
            assert(S - 1 < S * S && S * (S - 1) < S * S && S * S <= 64) by (nonlinear_arith)
                requires
                    3 <= S <= 8,
            ;
        }
        let s = S as u8;
        [
            Self::from_u8(0),
            Self::from_u8(s - 1),
            Self::from_u8(s * (s - 1)),
            Self::from_u8(s * s - 1),
        ]
    }

    pub fn from_rank_file(rank: u8, file: u8) -> (sq: Self)
        requires
            valid_size(S),
            rank < S,
            file < S,
        ensures
            sq == Square::<S>::spec_from_rank_file(rank as int, file as int),
            sq.valid(),
            sq.spec_rank() == rank,
            sq.spec_file() == file,
    {
        proof {
            Square::<S>::lemma_from_rank_file(rank as int, file as int);
        }
        Square { inner: file * (S as u8) + rank }
    }

    pub fn rank(self) -> (r: u8)
        requires
            valid_size(S),
        ensures
            r == self.spec_rank(),
    {
        self.inner % (S as u8)
    }

    pub fn file(self) -> (f: u8)
        requires
            valid_size(S),
        ensures
            f == self.spec_file(),
    {
        self.inner / (S as u8)
    }

    pub fn go_direction_const(self, direction: Direction) -> (sq: Option<Self>)
        requires
            valid_size(S),
            self.valid(),
        ensures
            sq == self.spec_go_direction(direction),
            sq matches Some(s) ==> s.valid(),
    {
        self.jump_direction(direction, 1)
    }

    pub fn jump_direction(self, direction: Direction, len: u8) -> (sq: Option<Self>)
        requires
            valid_size(S),
            self.valid(),
            len <= 8,
        ensures
            sq == self.spec_jump_direction(direction, len as int),
            sq matches Some(s) ==> s.valid(),
    {
        proof {
            self.lemma_rank_file();
            self.lemma_jump_valid(direction, len as int);
        }
        let rank = self.rank();
        let file = self.file();
        let s = S as u8;
        match direction {
            Direction::North => {
                if rank < len {
                    None
                } else {
                    Some(Square::from_rank_file(rank - len, file))
                }
            },
            Direction::West => {
                if file < len {
                    None
                } else {
                    Some(Square::from_rank_file(rank, file - len))
                }
            },
            Direction::East => {
                if file + len >= s {
                    None
                } else {
                    Some(Square::from_rank_file(rank, file + len))
                }
            },
            Direction::South => {
                if rank + len >= s {
                    None
                } else {
                    Some(Square::from_rank_file(rank + len, file))
                }
            },
        }
    }

    /// Do a known valid jump.
    pub fn jump_valid_direction(self, direction: Direction, len: u8) -> (sq: Self)
        requires
            valid_size(S),
            self.valid(),
            len <= 8,
            self.spec_jump_direction(direction, len as int) is Some,
        ensures
            Some(sq) == self.spec_jump_direction(direction, len as int),
    {
        proof {
            self.lemma_rank_file();
            self.lemma_jump_valid(direction, len as int);
            let r = self.spec_rank();
            let f = self.spec_file();
            let (nr, nf) = spec_jump(S as int, r, f, direction, len as int).unwrap();
            Square::<S>::lemma_from_rank_file(nr, nf);
            Square::<S>::lemma_from_rank_file(r, f);
            assert(self.inner == f * S + r);
            assert((f - len) * S == f * S - len * S) by (nonlinear_arith);
            assert((f + len) * S == f * S + len * S) by (nonlinear_arith);
            assert(len * S <= 64) by (nonlinear_arith)
                requires
                    len <= 8,
                    S <= 8,
            ;
        }
        let s = S as u8;
        match direction {
            Direction::North => Square::from_u8(self.inner - len),
            Direction::West => Square::from_u8(self.inner - len * s),
            Direction::East => Square::from_u8(self.inner + len * s),
            Direction::South => Square::from_u8(self.inner + len),
        }
    }

    /// The name of the square in PTN, such as `a1` (character codes 97 for `a` and 48 for `0`).
    pub open spec fn spec_name(self) -> Seq<char> {
        seq![
            ((self.spec_file() + 97) as u8) as char,
            ((S as int - self.spec_rank() + 48) as u8) as char,
        ]
    }

    /// Parses a square from its name, such as `a1` (character codes 97 for `a` and 48 for `0`).
    /// The file letter is `a` to `h` and the rank digit counts from the bottom row.
    pub open spec fn spec_parse(input: Seq<char>) -> Option<Square<S>> {
        if input.len() != 2 {
            None
        } else {
            let file = input[0] as int - 97;
            let rank = S as int + 48 - input[1] as int;
            if 0 <= file < S && 0 <= rank < S {
                Some(Square::spec_from_rank_file(rank, file))
            } else {
                None
            }
        }
    }

    pub fn parse_square(input: &str) -> (r: Result<Square<S>, pgn_traits::Error>)
        requires
            valid_size(S),
        ensures
            r is Ok <==> Square::<S>::spec_parse(input@) is Some,
            r matches Ok(sq) ==> Some(sq) == Square::<S>::spec_parse(input@) && sq.valid(),
    {
        let chars = text::str_to_chars(input);
        Self::parse_square_chars(&chars)
    }

    pub fn parse_square_chars(input: &Vec<char>) -> (r: Result<Square<S>, pgn_traits::Error>)
        requires
            valid_size(S),
        ensures
            r is Ok <==> Square::<S>::spec_parse(input@) is Some,
            r matches Ok(sq) ==> Some(sq) == Square::<S>::spec_parse(input@) && sq.valid(),
    {
        if input.len() != 2 {
            return Err(parse_error("Couldn't parse square"));
        }
        proof {
            text::lemma_char_code(input@[0]);
            text::lemma_char_code(input@[1]);
        }
        let f = input[0] as u32;
        let r = input[1] as u32;
        let s = S as u32;
        if f < 97 || f >= 97 + s || r <= 48 || r > 48 + s {
            return Err(parse_error("Couldn't parse square"));
        }
        let file = (f - 97) as u8;
        let rank = (s + 48 - r) as u8;
        assert(f == input@[0] as int);
        assert(r == input@[1] as int);
        assert(file == input@[0] as int - 97);
        assert(rank == S as int + 48 - input@[1] as int);
        Ok(Square::from_rank_file(rank, file))
    }

    pub fn name(self) -> (name: Vec<char>)
        requires
            valid_size(S),
            self.valid(),
        ensures
            name@ == self.spec_name(),
    {
        proof {
            self.lemma_rank_file();
        }
        let file = self.file();
        let rank = self.rank();
        let mut v = Vec::new();
        v.push(((file + 97) as u8) as char);
        v.push(((S as u8 - rank + 48) as u8) as char);
        v
    }

    /// The name of the square in PTN, such as `a1`.
    pub fn to_string(self) -> (s: String)
        requires
            valid_size(S),
            self.valid(),
        ensures
            s@ == self.spec_name(),
    {
        text::chars_to_string(&self.name())
    }
}

/// All squares of the board, in index order.
pub fn squares_iterator<const S: usize>() -> (squares: Vec<Square<S>>)
    requires
        valid_size(S),
    ensures
        squares.len() == S * S,
        forall|i: int| 0 <= i < S * S ==> (#[trigger] squares[i]).inner == i && squares[i].valid(),
{
    proof {
        assert(S * S <= 64) by (nonlinear_arith)
            requires
                S <= 8,
        ;
    }
    let mut squares: Vec<Square<S>> = Vec::new();
    let n = (S * S) as u8;
    let mut i: u8 = 0;
    while i < n
        invariant
            n == S * S,
            S * S <= 64,
            i <= n,
            squares.len() == i,
            forall|k: int| 0 <= k < i ==> (#[trigger] squares[k]).inner == k,
        decreases n - i,
    {
        squares.push(Square::from_u8(i));
        i = i + 1;
    }
    squares
}

} // verus!
verus! {

/// A supported board has between 9 and 64 squares.
pub proof fn lemma_size<const S: usize>()
    requires
        valid_size(S),
    ensures
        9 <= S * S <= 64,
{
    assert(9 <= S * S <= 64) by (nonlinear_arith)
        requires
            3 <= S <= 8,
    ;
}

} // verus!

verus! {

/// Adds the neighbour in a direction to a list, when there is one.
pub open spec fn add_neighbor<const S: usize>(
    list: Seq<(Direction, Square<S>)>,
    sq: Square<S>,
    d: Direction,
) -> Seq<(Direction, Square<S>)> {
    match sq.spec_go_direction(d) {
        Some(n) => list.push((d, n)),
        None => list,
    }
}

/// The neighbours of a square with their directions, in the order north, west, east, south.
pub open spec fn neighbor_list<const S: usize>(sq: Square<S>) -> Seq<(Direction, Square<S>)> {
    add_neighbor(
        add_neighbor(
            add_neighbor(add_neighbor(Seq::empty(), sq, Direction::North), sq, Direction::West),
            sq,
            Direction::East,
        ),
        sq,
        Direction::South,
    )
}

/// The entries of a neighbour list lead where their directions go, and no direction occurs
/// twice.
pub open spec fn neighbors_ok<const S: usize>(list: Seq<(Direction, Square<S>)>, sq: Square<S>) -> bool {
    &&& forall|i: int| 0 <= i < list.len() ==> sq.spec_go_direction((#[trigger] list[i]).0) == Some(list[i].1)
    &&& forall|i: int, j: int| 0 <= i < j < list.len() ==> (#[trigger] list[i]).0 != (#[trigger] list[j]).0
}

proof fn lemma_add_neighbor<const S: usize>(list: Seq<(Direction, Square<S>)>, sq: Square<S>, d: Direction)
    requires
        neighbors_ok(list, sq),
        forall|i: int| 0 <= i < list.len() ==> (#[trigger] list[i]).0 != d,
    ensures
        neighbors_ok(add_neighbor(list, sq, d), sq),
        forall|i: int| 0 <= i < list.len() ==> #[trigger] add_neighbor(list, sq, d)[i] == list[i],
        add_neighbor(list, sq, d).len() <= list.len() + 1,
        sq.spec_go_direction(d) is Some ==> add_neighbor(list, sq, d).last().0 == d && add_neighbor(
            list,
            sq,
            d,
        ).len() == list.len() + 1,
        forall|i: int|
            0 <= i < add_neighbor(list, sq, d).len() ==> (#[trigger] add_neighbor(list, sq, d)[i]).0 == d || i
                < list.len(),
{
}

/// The directions a square's neighbour list holds are exactly those that stay on the board,
/// each once, and each entry holds the square that its direction leads to.
pub proof fn lemma_neighbor_directions<const S: usize>(sq: Square<S>)
    ensures
        neighbors_ok(neighbor_list(sq), sq),
        forall|d: Direction|
            sq.spec_go_direction(d) is Some <==> exists|i: int|
                0 <= i < neighbor_list(sq).len() && #[trigger] neighbor_list(sq)[i].0 == d,
{
    let l0 = Seq::<(Direction, Square<S>)>::empty();
    let l1 = add_neighbor(l0, sq, Direction::North);
    let l2 = add_neighbor(l1, sq, Direction::West);
    let l3 = add_neighbor(l2, sq, Direction::East);
    let l4 = add_neighbor(l3, sq, Direction::South);
    lemma_add_neighbor(l0, sq, Direction::North);
    lemma_add_neighbor(l1, sq, Direction::West);
    lemma_add_neighbor(l2, sq, Direction::East);
    lemma_add_neighbor(l3, sq, Direction::South);
    assert(l4 == neighbor_list(sq));
    assert forall|d: Direction| sq.spec_go_direction(d) is Some implies exists|i: int|
        0 <= i < l4.len() && #[trigger] l4[i].0 == d by {
        match d {
            Direction::North => {
                assert(l4[l1.len() - 1] == l1[l1.len() - 1]);
            },
            Direction::West => {
                assert(l4[l2.len() - 1] == l2[l2.len() - 1]);
            },
            Direction::East => {
                assert(l4[l3.len() - 1] == l3[l3.len() - 1]);
            },
            Direction::South => {
                assert(l4[l4.len() - 1].0 == d);
            },
        }
    }
}

/// The neighbours of a square, and the square one step away in each direction.
#[derive(Clone, Copy, Debug)]
pub struct SquareCacheEntry<const S: usize> {
    pub neighbor_squares: [Square<S>; 4],
    pub directions: [Option<Direction>; 4],
    /// The square one step away in each direction, or the square itself at an edge.
    pub go_direction: [Square<S>; 4],
}

/// The neighbours of a square with their directions, one after the other.
pub struct SquareCacheEntryIter<const S: usize> {
    pub directions: [Option<Direction>; 4],
    pub neighbor_squares: [Square<S>; 4],
    pub position: usize,
    pub len: usize,
}

impl<const S: usize> SquareCacheEntry<S> {
    /// The entry describes the neighbours of `sq`.
    pub open spec fn describes(self, sq: Square<S>) -> bool {
        let list = neighbor_list(sq);
        &&& forall|i: int| 0 <= i < list.len() ==> self.directions@[i] == Some(#[trigger] list[i].0)
            && self.neighbor_squares@[i] == list[i].1
        &&& forall|i: int| list.len() <= i < 4 ==> #[trigger] self.directions@[i] is None
        &&& forall|d: Direction| #[trigger] self.go_direction@[d.spec_disc() as int] == match sq.spec_go_direction(d) {
            Some(n) => n,
            None => sq,
        }
    }

    pub fn empty() -> (e: Self)
        ensures
            e.neighbor_squares@ == seq![Square::<S> { inner: 0 }; 4],
            e.directions@ == seq![Some(Direction::North), Some(Direction::North), None, None],
            e.go_direction@ == seq![Square::<S> { inner: 0 }; 4],
    {
        let e = SquareCacheEntry {
            neighbor_squares: [Square { inner: 0 }; 4],
            directions: [Some(Direction::North), Some(Direction::North), None, None],
            go_direction: [Square { inner: 0 }; 4],
        };
        proof {
            assert(e.neighbor_squares@ =~= seq![Square::<S> { inner: 0 }; 4]);
            assert(e.directions@ =~= seq![Some(Direction::North), Some(Direction::North), None, None]);
            assert(e.go_direction@ =~= seq![Square::<S> { inner: 0 }; 4]);
        }
        e
    }

    /// The square one step away from `origin_square` in a direction, read from the entry.
    pub fn go_direction(&self, origin_square: Square<S>, direction: Direction) -> (r: Option<Square<S>>)
        ensures
            r == if self.go_direction@[direction.spec_disc() as int] == origin_square {
                None
            } else {
                Some(self.go_direction@[direction.spec_disc() as int])
            },
            valid_size(S) && origin_square.valid() && self.describes(origin_square) ==> r
                == origin_square.spec_go_direction(direction),
    {
        let square = self.go_direction[direction.disc() as usize];
        proof {
            if valid_size(S) && origin_square.valid() && self.describes(origin_square) {
                assert(self.go_direction@[direction.spec_disc() as int] == match origin_square.spec_go_direction(
                    direction,
                ) {
                    Some(n) => n,
                    None => origin_square,
                });
                if let Some(n) = origin_square.spec_go_direction(direction) {
                    origin_square.lemma_go_direction_moves(direction);
                }
            }
        }
        if square.inner == origin_square.inner {
            None
        } else {
            Some(square)
        }
    }

    /// The neighbours, one after the other: as many as the entry has directions, where it
    /// has two to four.
    pub fn into_iter(self) -> (it: SquareCacheEntryIter<S>)
        ensures
            it.directions == self.directions,
            it.neighbor_squares == self.neighbor_squares,
            it.position == 0,
            it.len == if self.directions@[2] is None {
                2usize
            } else if self.directions@[3] is None {
                3usize
            } else {
                4usize
            },
    {
        SquareCacheEntryIter {
            neighbor_squares: self.neighbor_squares,
            directions: self.directions,
            position: 0,
            len: if self.directions[2].is_none() {
                2
            } else if self.directions[3].is_none() {
                3
            } else {
                4
            },
        }
    }
}

impl<const S: usize> SquareCacheEntryIter<S> {
    /// The next neighbour and its direction.
    pub fn next(&mut self) -> (r: Option<(Direction, Square<S>)>)
        requires
            old(self).len <= 4,
            old(self).position < old(self).len ==> old(self).directions@[old(self).position as int] is Some,
        ensures
            old(self).position < old(self).len ==> r == Some((
                old(self).directions@[old(self).position as int].unwrap(),
                old(self).neighbor_squares@[old(self).position as int],
            )) && final(self).position == old(self).position + 1,
            old(self).position >= old(self).len ==> r is None && final(self).position == old(self).position,
            final(self).len == old(self).len,
            final(self).directions == old(self).directions,
            final(self).neighbor_squares == old(self).neighbor_squares,
    {
        if self.position < self.len {
            let output = Some((self.directions[self.position].unwrap(), self.neighbor_squares[self.position]));
            self.position = self.position + 1;
            output
        } else {
            None
        }
    }
}

impl<const S: usize> Square<S> {
    /// A step in a direction leaves the square.
    pub proof fn lemma_go_direction_moves(self, direction: Direction)
        requires
            valid_size(S),
            self.valid(),
            self.spec_go_direction(direction) is Some,
        ensures
            self.spec_go_direction(direction).unwrap() != self,
    {
        self.lemma_rank_file();
        let (r, f) = spec_jump(S as int, self.spec_rank(), self.spec_file(), direction, 1).unwrap();
        Square::<S>::lemma_from_rank_file(r, f);
    }

    /// A square has two to four neighbours.
    pub proof fn lemma_neighbor_count(self)
        requires
            valid_size(S),
            self.valid(),
        ensures
            2 <= neighbor_list(self).len() <= 4,
    {
        self.lemma_rank_file();
        let r = self.spec_rank();
        let f = self.spec_file();
        assert(r >= 1 || r + 1 < S);
        assert(f >= 1 || f + 1 < S);
        assert((self.spec_go_direction(Direction::North) is Some) == (r >= 1));
        assert((self.spec_go_direction(Direction::South) is Some) == (r + 1 < S));
        assert((self.spec_go_direction(Direction::West) is Some) == (f >= 1));
        assert((self.spec_go_direction(Direction::East) is Some) == (f + 1 < S));
    }

    /// The neighbours of the square and the square one step away in each direction.
    pub fn cache_data(self) -> (e: SquareCacheEntry<S>)
        requires
            valid_size(S),
            self.valid(),
        ensures
            e.describes(self),
    {
        let mut e = SquareCacheEntry {
            neighbor_squares: [Square { inner: 0 }; 4],
            directions: [None; 4],
            go_direction: [self; 4],
        };
        let mut i: usize = 0;
        let ghost mut list: Seq<(Direction, Square<S>)> = Seq::empty();
        let dirs = [Direction::North, Direction::West, Direction::East, Direction::South];
        let mut k: usize = 0;
        while k < 4
            invariant
                valid_size(S),
                self.valid(),
                k <= 4,
                dirs@ == seq![Direction::North, Direction::West, Direction::East, Direction::South],
                i == list.len(),
                i <= k,
                list == (if k == 0 {
                    Seq::empty()
                } else if k == 1 {
                    add_neighbor(Seq::empty(), self, Direction::North)
                } else if k == 2 {
                    add_neighbor(add_neighbor(Seq::empty(), self, Direction::North), self, Direction::West)
                } else if k == 3 {
                    add_neighbor(
                        add_neighbor(add_neighbor(Seq::empty(), self, Direction::North), self, Direction::West),
                        self,
                        Direction::East,
                    )
                } else {
                    neighbor_list(self)
                }),
                forall|j: int| 0 <= j < list.len() ==> e.directions@[j] == Some(#[trigger] list[j].0)
                    && e.neighbor_squares@[j] == list[j].1,
                forall|j: int| list.len() <= j < 4 ==> #[trigger] e.directions@[j] is None,
                forall|d: Direction| d.spec_disc() < k ==> #[trigger] e.go_direction@[d.spec_disc() as int] == match self.spec_go_direction(d) {
                    Some(n) => n,
                    None => self,
                },
                forall|d: Direction| d.spec_disc() >= k ==> #[trigger] e.go_direction@[d.spec_disc() as int] == self,
            decreases 4 - k,
        {
            let d = dirs[k];
            assert(d.spec_disc() == k);
            if let Some(neighbor) = self.go_direction_const(d) {
                e.neighbor_squares[i] = neighbor;
                e.directions[i] = Some(d);
                e.go_direction[k] = neighbor;
                proof {
                    list = list.push((d, neighbor));
                }
                i = i + 1;
            }
            k = k + 1;
        }
        e
    }

    /// The square one step away in a direction, if it is on the board.
    pub fn go_direction(self, direction: Direction) -> (sq: Option<Self>)
        requires
            valid_size(S),
            self.valid(),
        ensures
            sq == self.spec_go_direction(direction),
            sq matches Some(s) ==> s.valid(),
    {
        self.go_direction_const(direction)
    }

    /// The neighbours of the square, in the order north, west, east, south.
    pub fn neighbors(self) -> (ns: Vec<Square<S>>)
        requires
            valid_size(S),
            self.valid(),
        ensures
            ns@ == neighbor_list(self).map_values(|e: (Direction, Square<S>)| e.1),
    {
        let all = self.direction_neighbors();
        let mut ns: Vec<Square<S>> = Vec::new();
        let mut i: usize = 0;
        while i < all.len()
            invariant
                i <= all.len(),
                all@ == neighbor_list(self),
                ns@ == all@.take(i as int).map_values(|e: (Direction, Square<S>)| e.1),
            decreases all.len() - i,
        {
            ns.push(all[i].1);
            i = i + 1;
            assert(ns@ =~= all@.take(i as int).map_values(|e: (Direction, Square<S>)| e.1));
        }
        assert(all@.take(all.len() as int) =~= all@);
        ns
    }

    /// The directions in which the square has a neighbour, in the order north, west, east,
    /// south.
    pub fn directions(self) -> (ds: Vec<Direction>)
        requires
            valid_size(S),
            self.valid(),
        ensures
            ds@ == neighbor_list(self).map_values(|e: (Direction, Square<S>)| e.0),
    {
        let all = self.direction_neighbors();
        let mut ds: Vec<Direction> = Vec::new();
        let mut i: usize = 0;
        while i < all.len()
            invariant
                i <= all.len(),
                all@ == neighbor_list(self),
                ds@ == all@.take(i as int).map_values(|e: (Direction, Square<S>)| e.0),
            decreases all.len() - i,
        {
            ds.push(all[i].0);
            i = i + 1;
            assert(ds@ =~= all@.take(i as int).map_values(|e: (Direction, Square<S>)| e.0));
        }
        assert(all@.take(all.len() as int) =~= all@);
        ds
    }

    /// The neighbours of the square with their directions, in the order north, west, east,
    /// south.
    pub fn direction_neighbors(self) -> (ns: Vec<(Direction, Square<S>)>)
        requires
            valid_size(S),
            self.valid(),
        ensures
            ns@ == neighbor_list(self),
    {
        let entry = self.cache_data();
        let ghost list = neighbor_list(self);
        proof {
            self.lemma_neighbor_count();
            if list.len() > 2 {
                assert(entry.directions@[2] == Some(list[2].0));
            } else {
                assert(entry.directions@[2] is None);
            }
            if list.len() > 3 {
                assert(entry.directions@[3] == Some(list[3].0));
            } else {
                assert(entry.directions@[3] is None);
            }
        }
        let mut it = entry.into_iter();
        let mut ns: Vec<(Direction, Square<S>)> = Vec::new();
        while it.position < it.len
            invariant
                it.len == list.len(),
                it.len <= 4,
                it.position <= it.len,
                ns@ == list.subrange(0, it.position as int),
                forall|j: int| 0 <= j < list.len() ==> it.directions@[j] == Some(#[trigger] list[j].0)
                    && it.neighbor_squares@[j] == list[j].1,
            decreases it.len - it.position,
        {
            proof {
                assert(it.directions@[it.position as int] == Some(list[it.position as int].0));
            }
            let ghost pos = it.position;
            let next = it.next().unwrap();
            ns.push(next);
            proof {
                assert(next == list[pos as int]);
                assert(ns@ =~= list.subrange(0, it.position as int));
            }
        }
        proof {
            assert(list.subrange(0, list.len() as int) =~= list);
        }
        ns
    }
}

} // verus!
