//! Pieces, stacks, directions, komi and the other small value types of the game.
use vstd::prelude::*;

use super::bitboard::BitBoard;
use super::bits::{bit, lemma_bit_set, lemma_bit_shift_right, lemma_bits_ext};

verus! {

/// One of the two players.
#[derive(Clone, Copy, PartialEq, Eq, Structural, Debug, Hash)]
pub enum Color {
    White,
    Black,
}

impl Color {
    pub open spec fn spec_flip(self) -> Color {
        match self {
            Color::White => Color::Black,
            Color::Black => Color::White,
        }
    }

    /// The other player.
    pub fn flip(self) -> (c: Color)
        ensures
            c == self.spec_flip(),
    {
        match self {
            Color::White => Color::Black,
            Color::Black => Color::White,
        }
    }

    /// 0 for white, 1 for black.
    pub fn disc(self) -> (d: usize)
        ensures
            d == (if self == Color::White { 0usize } else { 1usize }),
    {
        match self {
            Color::White => 0,
            Color::Black => 1,
        }
    }
}

/// The outcome of a finished game.
#[derive(Clone, Copy, PartialEq, Eq, Structural, Debug, Hash)]
pub enum GameResult {
    WhiteWin,
    BlackWin,
    Draw,
}

/// Komi, stored as a number of half flats given to black.
#[derive(Clone, Copy, Debug, Default, Hash, PartialEq, Eq, Structural, PartialOrd, Ord)]
pub struct Komi {
    pub half_komi: i8,
}

impl Komi {
    /// Komi is accepted between -5 and 5 flats, in half flat steps.
    pub fn from_half_komi(half_komi: i8) -> (k: Option<Self>)
        ensures
            k is Some <==> -10 <= half_komi <= 10,
            k matches Some(k) ==> k.half_komi == half_komi,
    {
        if -10 <= half_komi && half_komi <= 10 {
            Some(Komi { half_komi })
        } else {
            None
        }
    }

    pub fn half_komi(self) -> (h: i8)
        ensures
            h == self.half_komi,
    {
        self.half_komi
    }

    /// The winner of a flat count, where `2 * (white - black) - half_komi` decides.
    pub open spec fn spec_flat_result(self, white_flats: int, black_flats: int) -> GameResult {
        let margin = 2 * (white_flats - black_flats) - self.half_komi;
        if margin < 0 {
            GameResult::BlackWin
        } else if margin == 0 {
            GameResult::Draw
        } else {
            GameResult::WhiteWin
        }
    }

    pub fn game_result_with_flatcounts(self, white_flats: i8, black_flats: i8) -> (r: GameResult)
        requires
            -128 <= 2 * (white_flats - black_flats) <= 127,
            -128 <= 2 * (white_flats - black_flats) - self.half_komi <= 127,
        ensures
            r == self.spec_flat_result(white_flats as int, black_flats as int),
            r == GameResult::WhiteWin <==> 2 * white_flats > 2 * black_flats + self.half_komi,
            r == GameResult::BlackWin <==> 2 * white_flats < 2 * black_flats + self.half_komi,
            r == GameResult::Draw <==> 2 * white_flats == 2 * black_flats + self.half_komi,
    {
        proof {
            lemma_flat_result(self, white_flats as int, black_flats as int);
        }
        let margin: i8 = 2 * (white_flats - black_flats) - self.half_komi;
        if margin < 0 {
            GameResult::BlackWin
        } else if margin == 0 {
            GameResult::Draw
        } else {
            GameResult::WhiteWin
        }
    }
}

/// A flat count goes to the player with more flats once komi is counted for black (each flat
/// worth two half flats), and is a draw exactly when the two sides are level; giving each
/// side the other's flats and black's komi to white gives the other side the win.
pub proof fn lemma_flat_result(komi: Komi, white_flats: int, black_flats: int)
    ensures
        komi.spec_flat_result(white_flats, black_flats) == GameResult::WhiteWin <==> 2 * white_flats > 2
            * black_flats + komi.half_komi,
        komi.spec_flat_result(white_flats, black_flats) == GameResult::BlackWin <==> 2 * white_flats < 2
            * black_flats + komi.half_komi,
        komi.spec_flat_result(white_flats, black_flats) == GameResult::Draw <==> 2 * white_flats == 2
            * black_flats + komi.half_komi,
        -10 <= komi.half_komi <= 10 ==> (komi.spec_flat_result(white_flats, black_flats) == GameResult::Draw
            <==> (Komi { half_komi: (-komi.half_komi) as i8 }).spec_flat_result(black_flats, white_flats)
            == GameResult::Draw),
        -10 <= komi.half_komi <= 10 ==> (komi.spec_flat_result(white_flats, black_flats) == GameResult::WhiteWin
            <==> (Komi { half_komi: (-komi.half_komi) as i8 }).spec_flat_result(black_flats, white_flats)
            == GameResult::BlackWin),
{
}

/// One of the 3 piece roles in Tak. The same as piece, but without different variants for each color.
#[derive(Clone, Copy, PartialEq, Eq, Structural, Debug, Hash)]
pub enum Role {
    Flat,
    Wall,
    Cap,
}

impl Role {
    pub open spec fn spec_disc(self) -> nat {
        match self {
            Role::Flat => 0,
            Role::Wall => 1,
            Role::Cap => 2,
        }
    }

    pub fn disc(self) -> (d: usize)
        ensures
            d == self.spec_disc(),
    {
        match self {
            Role::Flat => 0,
            Role::Wall => 1,
            Role::Cap => 2,
        }
    }

    pub open spec fn spec_from_disc(disc: nat) -> Role {
        if disc == 0 {
            Role::Flat
        } else if disc == 1 {
            Role::Wall
        } else {
            Role::Cap
        }
    }

    pub fn from_disc(disc: u8) -> (r: Role)
        requires
            disc < 3,
        ensures
            r == Role::spec_from_disc(disc as nat),
            r.spec_disc() == disc,
    {
        if disc == 0 {
            Role::Flat
        } else if disc == 1 {
            Role::Wall
        } else {
            Role::Cap
        }
    }
}

/// One of the 6 game pieces in Tak. Each piece has one variant for each color.
#[derive(Clone, Copy, PartialEq, Eq, Structural, Debug, Hash)]
pub enum Piece {
    WhiteFlat,
    BlackFlat,
    WhiteWall,
    BlackWall,
    WhiteCap,
    BlackCap,
}

impl Piece {
    pub open spec fn spec_role(self) -> Role {
        match self {
            Piece::WhiteFlat | Piece::BlackFlat => Role::Flat,
            Piece::WhiteWall | Piece::BlackWall => Role::Wall,
            Piece::WhiteCap | Piece::BlackCap => Role::Cap,
        }
    }

    pub open spec fn spec_color(self) -> Color {
        match self {
            Piece::WhiteFlat | Piece::WhiteWall | Piece::WhiteCap => Color::White,
            Piece::BlackFlat | Piece::BlackWall | Piece::BlackCap => Color::Black,
        }
    }

    pub open spec fn spec_from_role_color(role: Role, color: Color) -> Piece {
        match (role, color) {
            (Role::Flat, Color::White) => Piece::WhiteFlat,
            (Role::Wall, Color::White) => Piece::WhiteWall,
            (Role::Cap, Color::White) => Piece::WhiteCap,
            (Role::Flat, Color::Black) => Piece::BlackFlat,
            (Role::Wall, Color::Black) => Piece::BlackWall,
            (Role::Cap, Color::Black) => Piece::BlackCap,
        }
    }

    /// Position of the piece in the fixed piece order, used for table lookups.
    pub open spec fn spec_index(self) -> nat {
        match self {
            Piece::WhiteFlat => 0,
            Piece::BlackFlat => 1,
            Piece::WhiteWall => 2,
            Piece::BlackWall => 3,
            Piece::WhiteCap => 4,
            Piece::BlackCap => 5,
        }
    }

    pub fn index(self) -> (i: usize)
        ensures
            i == self.spec_index(),
            i < 6,
    {
        match self {
            Piece::WhiteFlat => 0,
            Piece::BlackFlat => 1,
            Piece::WhiteWall => 2,
            Piece::BlackWall => 3,
            Piece::WhiteCap => 4,
            Piece::BlackCap => 5,
        }
    }

    pub fn from_role_color(role: Role, color: Color) -> (p: Piece)
        ensures
            p == Piece::spec_from_role_color(role, color),
            p.spec_role() == role,
            p.spec_color() == color,
    {
        match (role, color) {
            (Role::Flat, Color::White) => Piece::WhiteFlat,
            (Role::Wall, Color::White) => Piece::WhiteWall,
            (Role::Cap, Color::White) => Piece::WhiteCap,
            (Role::Flat, Color::Black) => Piece::BlackFlat,
            (Role::Wall, Color::Black) => Piece::BlackWall,
            (Role::Cap, Color::Black) => Piece::BlackCap,
        }
    }

    pub fn role(self) -> (r: Role)
        ensures
            r == self.spec_role(),
    {
        match self {
            Piece::WhiteFlat | Piece::BlackFlat => Role::Flat,
            Piece::WhiteWall | Piece::BlackWall => Role::Wall,
            Piece::WhiteCap | Piece::BlackCap => Role::Cap,
        }
    }

    pub fn color(self) -> (c: Color)
        ensures
            c == self.spec_color(),
    {
        match self {
            Piece::WhiteFlat | Piece::WhiteWall | Piece::WhiteCap => Color::White,
            Piece::BlackFlat | Piece::BlackWall | Piece::BlackCap => Color::Black,
        }
    }

    /// Flats and capstones count towards roads, walls do not.
    pub open spec fn spec_is_road_piece(self) -> bool {
        self.spec_role() != Role::Wall
    }

    pub fn is_road_piece(self) -> (b: bool)
        ensures
            b == self.spec_is_road_piece(),
    {
        match self {
            Piece::WhiteFlat | Piece::WhiteCap | Piece::BlackFlat | Piece::BlackCap => true,
            Piece::WhiteWall | Piece::BlackWall => false,
        }
    }

    pub open spec fn spec_flip_color(self) -> Piece {
        Piece::spec_from_role_color(self.spec_role(), self.spec_color().spec_flip())
    }

    /// The piece of the same role and the other color.
    pub fn flip_color(self) -> (p: Piece)
        ensures
            p == self.spec_flip_color(),
            p.spec_role() == self.spec_role(),
            p.spec_color() == self.spec_color().spec_flip(),
            p.spec_flip_color() == self,
    {
        match self {
            Piece::WhiteFlat => Piece::BlackFlat,
            Piece::BlackFlat => Piece::WhiteFlat,
            Piece::WhiteWall => Piece::BlackWall,
            Piece::BlackWall => Piece::WhiteWall,
            Piece::WhiteCap => Piece::BlackCap,
            Piece::BlackCap => Piece::WhiteCap,
        }
    }
}

/// One of the four cardinal directions on the board
#[derive(Clone, Copy, PartialEq, Eq, Structural, Debug, Hash)]
pub enum Direction {
    North,
    West,
    East,
    South,
}

impl Direction {
    pub open spec fn spec_disc(self) -> nat {
        match self {
            Direction::North => 0,
            Direction::West => 1,
            Direction::East => 2,
            Direction::South => 3,
        }
    }

    pub fn disc(self) -> (d: u8)
        ensures
            d == self.spec_disc(),
            d < 4,
    {
        match self {
            Direction::North => 0,
            Direction::West => 1,
            Direction::East => 2,
            Direction::South => 3,
        }
    }

    pub open spec fn spec_from_disc(disc: nat) -> Direction {
        if disc == 0 {
            Direction::North
        } else if disc == 1 {
            Direction::West
        } else if disc == 2 {
            Direction::East
        } else {
            Direction::South
        }
    }

    pub fn from_disc(disc: u8) -> (d: Direction)
        requires
            disc < 4,
        ensures
            d == Direction::spec_from_disc(disc as nat),
            d.spec_disc() == disc,
    {
        if disc == 0 {
            Direction::North
        } else if disc == 1 {
            Direction::West
        } else if disc == 2 {
            Direction::East
        } else {
            Direction::South
        }
    }

    pub open spec fn spec_reverse(self) -> Direction {
        match self {
            Direction::North => Direction::South,
            Direction::West => Direction::East,
            Direction::East => Direction::West,
            Direction::South => Direction::North,
        }
    }

    pub fn reverse(self) -> (d: Direction)
        ensures
            d == self.spec_reverse(),
            d.spec_reverse() == self,
            d != self,
    {
        match self {
            Direction::North => Direction::South,
            Direction::West => Direction::East,
            Direction::East => Direction::West,
            Direction::South => Direction::North,
        }
    }

    /// The two directions at right angles to this one.
    pub fn orthogonal_directions(self) -> (ds: [Direction; 2])
        ensures
            ds[0] != self && ds[0] != self.spec_reverse(),
            ds[1] != self && ds[1] != self.spec_reverse(),
            ds[0] != ds[1],
            ds[1] == ds[0].spec_reverse(),
    {
        match self {
            Direction::North | Direction::South => [Direction::West, Direction::East],
            Direction::West | Direction::East => [Direction::North, Direction::South],
        }
    }

    pub open spec fn spec_parse(ch: char) -> Option<Direction> {
        if ch == '+' {
            Some(Direction::North)
        } else if ch == '<' {
            Some(Direction::West)
        } else if ch == '>' {
            Some(Direction::East)
        } else if ch == '-' {
            Some(Direction::South)
        } else {
            None
        }
    }

    pub open spec fn spec_symbol(self) -> char {
        match self {
            Direction::North => '+',
            Direction::West => '<',
            Direction::East => '>',
            Direction::South => '-',
        }
    }

    /// Parses a direction from its PTN symbol.
    pub fn parse(ch: char) -> (d: Option<Direction>)
        ensures
            d == Direction::spec_parse(ch),
            d matches Some(d) ==> d.spec_symbol() == ch,
    {
        if ch == '+' {
            Some(Direction::North)
        } else if ch == '<' {
            Some(Direction::West)
        } else if ch == '>' {
            Some(Direction::East)
        } else if ch == '-' {
            Some(Direction::South)
        } else {
            None
        }
    }

    /// The PTN symbol of a direction.
    pub fn symbol(self) -> (c: char)
        ensures
            c == self.spec_symbol(),
            Direction::spec_parse(c) == Some(self),
    {
        match self {
            Direction::North => '+',
            Direction::West => '<',
            Direction::East => '>',
            Direction::South => '-',
        }
    }
}

/// The contents of a square on the board, consisting of zero or more pieces.
/// Every piece but the top one is a flat; `bitboard` records which of them are white,
/// with bit 0 for the bottom piece.
#[derive(Copy, Clone, PartialEq, Eq, Structural, Debug, Default, Hash)]
pub struct Stack {
    pub top_stone: Option<Piece>,
    pub bitboard: BitBoard,
    pub height: u8,
}

impl std::ops::Not for Piece {
    type Output = Piece;

    fn not(self) -> (p: Piece) {
        self.flip_color()
    }
}

impl vstd::std_specs::ops::NotSpecImpl for Piece {
    open spec fn obeys_not_spec() -> bool {
        true
    }

    open spec fn not_req(self) -> bool {
        true
    }

    /// The piece of the same role and the other color.
    open spec fn not_spec(self) -> Piece {
        self.spec_flip_color()
    }
}

/// The flat of a given color below the top of a stack.
pub open spec fn buried_flat(white: bool) -> Piece {
    if white {
        Piece::WhiteFlat
    } else {
        Piece::BlackFlat
    }
}

impl Stack {
    /// A stack is well formed when it has a top stone exactly when it has pieces,
    /// it fits in the bitboard, and no bit at or above the top piece is set.
    pub open spec fn wf(self) -> bool {
        &&& self.height <= 64
        &&& (self.top_stone is Some <==> self.height > 0)
        &&& forall|j: u64|
            #![trigger bit(self.bitboard.board, j)]
            (if self.height == 0 { 0 } else { self.height - 1 }) <= j < 64 ==> !bit(
                self.bitboard.board,
                j,
            )
    }

    /// The pieces of the stack, from the bottom up.
    pub open spec fn view(self) -> Seq<Piece> {
        Seq::new(
            self.height as nat,
            |i: int|
                if i == self.height - 1 {
                    self.top_stone.unwrap()
                } else {
                    buried_flat(bit(self.bitboard.board, i as u64))
                },
        )
    }

    /// Buried pieces are flats.
    pub open spec fn buried_are_flats(pieces: Seq<Piece>) -> bool {
        forall|i: int| 0 <= i < pieces.len() - 1 ==> #[trigger] pieces[i].spec_role() == Role::Flat
    }

    pub proof fn lemma_view_buried_flats(self)
        ensures
            Stack::buried_are_flats(self@),
    {
    }

    /// Two well-formed stacks with the same pieces are the same stack.
    pub proof fn lemma_view_injective(self, other: Stack)
        requires
            self.wf(),
            other.wf(),
            self@ == other@,
        ensures
            self == other,
    {
        assert(self.height as nat == self@.len());
        assert(other.height as nat == other@.len());
        if self.height > 0 {
            assert(self@[self.height - 1] == self.top_stone.unwrap());
            assert(other@[other.height - 1] == other.top_stone.unwrap());
        }
        assert forall|j: u64| j < 64 implies #[trigger] bit(self.bitboard.board, j) == bit(
            other.bitboard.board,
            j,
        ) by {
            if (j as int) < self.height - 1 {
                assert(self@[j as int] == buried_flat(bit(self.bitboard.board, j)));
                assert(other@[j as int] == buried_flat(bit(other.bitboard.board, j)));
            }
        }
        lemma_bits_ext(self.bitboard.board, other.bitboard.board);
    }

    /// Get a piece by index. 0 is the bottom of the stack
    pub fn get(&self, i: u8) -> (p: Option<Piece>)
        requires
            self.wf(),
        ensures
            p == (if (i as int) < self@.len() { Some(self@[i as int]) } else { None }),
    {
        if i >= self.height {
            None
        } else if i == self.height - 1 {
            self.top_stone
        } else if self.bitboard.get(i) {
            Some(Piece::WhiteFlat)
        } else {
            Some(Piece::BlackFlat)
        }
    }

    pub fn top_stone(&self) -> (p: Option<Piece>)
        requires
            self.wf(),
        ensures
            p == self.top_stone,
            p == (if self@.len() > 0 { Some(self@.last()) } else { None }),
    {
        self.top_stone
    }

    /// Push a new piece to the top of the stack
    ///
    /// Any piece already on the stack will be flattened, including capstones
    pub fn push(&mut self, piece: Piece)
        requires
            old(self).wf(),
            old(self).height < 64,
        ensures
            final(self).wf(),
            final(self)@ == Stack::flattened(old(self)@).push(piece),
    {
        let ghost old_stack = *self;
        if self.height > 0 && self.top_stone.unwrap().color() == Color::White {
            self.bitboard = self.bitboard.set(self.height - 1);
        }
        self.top_stone = Some(piece);
        self.height = self.height + 1;
        proof {
            let h = old_stack.height as u64;
            assert forall|j: u64| j < 64 implies #[trigger] bit(self.bitboard.board, j) == (if j + 1
                == h { old_stack.top_stone.unwrap().spec_color() == Color::White } else {
                bit(old_stack.bitboard.board, j)
            }) by {
                if old_stack.height > 0 && old_stack.top_stone.unwrap().spec_color() == Color::White {
                    lemma_bit_set(old_stack.bitboard.board, (h - 1) as u64, j);
                }
            }
            assert(self@ =~= Stack::flattened(old_stack@).push(piece));
        }
    }

    /// The stack with its top piece (if any) turned into a flat of the same color.
    pub open spec fn flattened(pieces: Seq<Piece>) -> Seq<Piece> {
        if pieces.len() == 0 {
            pieces
        } else {
            pieces.update(
                pieces.len() - 1,
                Piece::spec_from_role_color(Role::Flat, pieces.last().spec_color()),
            )
        }
    }

    /// Remove the top piece from the stack
    ///
    /// Will not un-flatten a previously flattened stone
    pub fn pop(&mut self) -> (p: Option<Piece>)
        requires
            old(self).wf(),
            old(self).height > 0,
        ensures
            final(self).wf(),
            final(self)@ == old(self)@.drop_last(),
            p == Some(old(self)@.last()),
    {
        let ghost old_stack = *self;
        let old_piece = self.top_stone;
        if self.height > 1 {
            let piece = if self.bitboard.get(self.height - 2) {
                Piece::WhiteFlat
            } else {
                Piece::BlackFlat
            };
            self.bitboard = self.bitboard.clear(self.height - 2);
            self.top_stone = Some(piece);
        } else {
            self.top_stone = None;
        }
        self.height = self.height - 1;
        proof {
            let h = old_stack.height as u64;
            if old_stack.height > 1 {
                assert forall|j: u64| j < 64 implies #[trigger] bit(self.bitboard.board, j) == (j
                    + 2 < h && bit(old_stack.bitboard.board, j)) by {
                    lemma_bit_set(old_stack.bitboard.board, (h - 2) as u64, j);
                }
            } else {
                assert forall|j: u64| j < 64 implies !#[trigger] bit(self.bitboard.board, j) by {}
            }
            assert(self@ =~= old_stack@.drop_last());
        }
        old_piece
    }

    /// Replace the top piece, returning the old one.
    pub fn replace_top(&mut self, piece: Piece) -> (p: Option<Piece>)
        requires
            old(self).wf(),
            old(self).height > 0,
        ensures
            final(self).wf(),
            final(self)@ == old(self)@.update(old(self)@.len() - 1, piece),
            p == Some(old(self)@.last()),
    {
        let ghost old_stack = *self;
        let p = self.top_stone;
        self.top_stone = Some(piece);
        proof {
            assert(self@ =~= old_stack@.update(old_stack@.len() - 1, piece));
        }
        p
    }

    /// Removes the piece at index `i`, counted from the bottom.
    pub fn remove(&mut self, i: u8) -> (p: Piece)
        requires
            old(self).wf(),
            (i as int) < old(self).height,
        ensures
            final(self).wf(),
            final(self)@ == old(self)@.remove(i as int),
            p == old(self)@[i as int],
    {
        if i == self.height - 1 {
            self.pop().unwrap()
        } else {
            let ghost old_stack = *self;
            let piece = if self.bitboard.get(i) {
                Piece::WhiteFlat
            } else {
                Piece::BlackFlat
            };
            let lower = BitBoard::lower_n_bits(i);
            let upper = BitBoard::lower_n_bits(i + 1).negate();
            let pieces_below = self.bitboard.and(lower);
            let pieces_above = self.bitboard.and(upper);
            let shifted = BitBoard { board: pieces_above.board >> 1u64 };
            self.bitboard = pieces_below.or(shifted);
            self.height = self.height - 1;
            proof {
                let b = old_stack.bitboard.board;
                assert forall|j: u64| j < 64 implies #[trigger] bit(self.bitboard.board, j) == (if j
                    < i { bit(b, j) } else { j < 63 && bit(b, (j + 1) as u64) }) by {
                    assert(self.bitboard.contains(j) == (pieces_below.contains(j) || shifted.contains(j)));
                    lemma_bit_shift_right(pieces_above.board, j);
                    assert(pieces_below.contains(j) == (bit(b, j) && lower.contains(j)));
                    if j < 63 {
                        let k = (j + 1) as u64;
                        assert(pieces_above.contains(k) == (bit(b, k) && upper.contains(k)));
                        assert(upper.contains(k) == !(k < i + 1));
                    }
                }
                assert(self@ =~= old_stack@.remove(i as int));
            }
            piece
        }
    }

    pub fn is_empty(&self) -> (b: bool)
        requires
            self.wf(),
        ensures
            b == (self@.len() == 0),
    {
        self.height == 0
    }

    pub fn len(&self) -> (n: u8)
        requires
            self.wf(),
        ensures
            n == self@.len(),
    {
        self.height
    }

    /// The pieces of the stack, one after the other from the bottom up.
    pub fn into_iter(self) -> (it: StackIterator)
        ensures
            it.stack == self,
    {
        StackIterator { stack: self }
    }
}

/// One step of going through the pieces of a stack: the bottom piece, if there is one, and the
/// pieces left above it.
pub open spec fn stack_next(s: Seq<Piece>) -> (Option<Piece>, Seq<Piece>) {
    if s.len() == 0 {
        (None, s)
    } else {
        (Some(s[0]), s.drop_first())
    }
}

/// What `count` steps through the pieces `s` give, in order, and the pieces left.
pub open spec fn stack_iteration(s: Seq<Piece>, count: nat) -> (Seq<Option<Piece>>, Seq<Piece>)
    decreases count,
{
    if count == 0 {
        (Seq::empty(), s)
    } else {
        let (out, rest) = stack_iteration(s, (count - 1) as nat);
        let (p, left) = stack_next(rest);
        (out.push(p), left)
    }
}

proof fn lemma_stack_iteration_prefix(s: Seq<Piece>, k: nat)
    requires
        k <= s.len(),
    ensures
        stack_iteration(s, k).0 == s.take(k as int).map_values(|p: Piece| Some(p)),
        stack_iteration(s, k).1 == s.skip(k as int),
    decreases k,
{
    if k > 0 {
        lemma_stack_iteration_prefix(s, (k - 1) as nat);
        assert(s.skip(k - 1).drop_first() =~= s.skip(k as int));
        assert(s.take(k as int).map_values(|p: Piece| Some(p)) =~= s.take(k - 1).map_values(
            |p: Piece| Some(p),
        ).push(Some(s[k - 1])));
    } else {
        assert(s.take(0).map_values(|p: Piece| Some(p)) =~= Seq::<Option<Piece>>::empty());
        assert(s.skip(0) =~= s);
    }
}

/// Going through a stack with `next` gives its pieces from the bottom up, as many as its
/// length, and then nothing; pushing a piece makes a stack one piece longer, and popping one
/// makes it one piece shorter.
pub proof fn lemma_stack_iteration(s: Stack, piece: Piece)
    requires
        s.wf(),
    ensures
        stack_iteration(s@, s@.len()).0 == s@.map_values(|p: Piece| Some(p)),
        stack_iteration(s@, s@.len()).1.len() == 0,
        stack_iteration(s@, s@.len() + 1).0.last() is None,
        Stack::flattened(s@).push(piece).len() == s@.len() + 1,
        s@.len() > 0 ==> s@.drop_last().len() == s@.len() - 1,
{
    lemma_stack_iteration_prefix(s@, s@.len());
    assert(s@.take(s@.len() as int) =~= s@);
}

/// The pieces of a stack, one after the other from the bottom up.
pub struct StackIterator {
    pub stack: Stack,
}

impl StackIterator {
    /// The bottom piece of what is left of the stack.
    pub fn next(&mut self) -> (p: Option<Piece>)
        requires
            old(self).stack.wf(),
        ensures
            final(self).stack.wf(),
            old(self).stack@.len() == 0 ==> p is None && final(self).stack@ == old(self).stack@,
            old(self).stack@.len() > 0 ==> p == Some(old(self).stack@[0]) && final(self).stack@
                == old(self).stack@.drop_first(),
            (p, final(self).stack@) == stack_next(old(self).stack@),
    {
        if self.stack.is_empty() {
            None
        } else {
            let p = self.stack.remove(0);
            proof {
                assert(old(self).stack@.remove(0) =~= old(self).stack@.drop_first());
            }
            Some(p)
        }
    }
}

/// Moving a stack of pieces consists of one or more `Movement`s
#[derive(Clone, Copy, PartialEq, Eq, Structural, Debug)]
pub struct Movement {
    pub pieces_to_take: u8,
}

/// Whether bit `j` of a byte is set.
pub open spec fn bit8(d: u8, j: u8) -> bool {
    (d >> j) & 1u8 == 1u8
}

/// The positions `k` in `1..=n`, highest first, whose bit `k - 1` is set in `d`.
pub open spec fn takes_below(d: u8, n: nat) -> Seq<nat>
    decreases n,
{
    if n == 0 {
        seq![]
    } else if bit8(d, (n - 1) as u8) {
        seq![n].add(takes_below(d, (n - 1) as nat))
    } else {
        takes_below(d, (n - 1) as nat)
    }
}

/// A sequence of piece counts, each between 1 and `n`, strictly decreasing.
pub open spec fn strictly_decreasing_within(ts: Seq<nat>, n: nat) -> bool {
    &&& forall|i: int| 0 <= i < ts.len() ==> 1 <= #[trigger] ts[i] <= n
    &&& forall|i: int, j: int| 0 <= i < j < ts.len() ==> #[trigger] ts[i] > #[trigger] ts[j]
}

pub proof fn lemma_bit8_ops(d: u8, i: u8, j: u8)
    requires
        i < 8,
        j < 8,
    ensures
        bit8(d | (1u8 << i), j) == (j == i || bit8(d, j)),
        bit8(d & !(1u8 << i), j) == (j != i && bit8(d, j)),
        ((d >> j) & 1u8 != 0u8) == bit8(d, j),
        ((d >> j) & 1u8 == 0u8) == !bit8(d, j),
        !bit8(0u8, j),
{
    assert(i < 8 && j < 8 ==> (((((d | (1u8 << i)) >> j) & 1u8 == 1u8) == (j == i || (d >> j) & 1u8
        == 1u8)) && ((((d & !(1u8 << i)) >> j) & 1u8 == 1u8) == (j != i && (d >> j) & 1u8 == 1u8))
        && (((d >> j) & 1u8 != 0u8) == ((d >> j) & 1u8 == 1u8)) && (((d >> j) & 1u8 == 0u8) == !((d
        >> j) & 1u8 == 1u8)) && !((0u8 >> j) & 1u8 == 1u8))) by (bit_vector);
}

/// Bytes that agree on all bits are equal.
pub proof fn lemma_bit8_ext(a: u8, b: u8)
    requires
        forall|j: u8| j < 8 ==> #[trigger] bit8(a, j) == bit8(b, j),
    ensures
        a == b,
{
    assert(((a >> 0u8) & 1u8 == (b >> 0u8) & 1u8) && ((a >> 1u8) & 1u8 == (b >> 1u8) & 1u8) && ((a
        >> 2u8) & 1u8 == (b >> 2u8) & 1u8) && ((a >> 3u8) & 1u8 == (b >> 3u8) & 1u8) && ((a >> 4u8)
        & 1u8 == (b >> 4u8) & 1u8) && ((a >> 5u8) & 1u8 == (b >> 5u8) & 1u8) && ((a >> 6u8) & 1u8
        == (b >> 6u8) & 1u8) && ((a >> 7u8) & 1u8 == (b >> 7u8) & 1u8) ==> a == b) by (bit_vector);
    assert(bit8(a, 0) == bit8(b, 0) && bit8(a, 1) == bit8(b, 1) && bit8(a, 2) == bit8(b, 2) && bit8(a, 3) == bit8(b, 3));
    assert(bit8(a, 4) == bit8(b, 4) && bit8(a, 5) == bit8(b, 5) && bit8(a, 6) == bit8(b, 6) && bit8(a, 7) == bit8(b, 7));
    lemma_bit8_ops(a, 0, 0);
    lemma_bit8_ops(a, 0, 1);
    lemma_bit8_ops(a, 0, 2);
    lemma_bit8_ops(a, 0, 3);
    lemma_bit8_ops(a, 0, 4);
    lemma_bit8_ops(a, 0, 5);
    lemma_bit8_ops(a, 0, 6);
    lemma_bit8_ops(a, 0, 7);
    lemma_bit8_ops(b, 0, 0);
    lemma_bit8_ops(b, 0, 1);
    lemma_bit8_ops(b, 0, 2);
    lemma_bit8_ops(b, 0, 3);
    lemma_bit8_ops(b, 0, 4);
    lemma_bit8_ops(b, 0, 5);
    lemma_bit8_ops(b, 0, 6);
    lemma_bit8_ops(b, 0, 7);
}

pub proof fn lemma_takes_below_shape(d: u8, n: nat)
    requires
        n <= 8,
    ensures
        strictly_decreasing_within(takes_below(d, n), n),
        forall|t: nat| takes_below(d, n).contains(t) <==> (1 <= t <= n && bit8(d, (t - 1) as u8)),
    decreases n,
{
    if n > 0 {
        lemma_takes_below_shape(d, (n - 1) as nat);
        let rest = takes_below(d, (n - 1) as nat);
        if bit8(d, (n - 1) as u8) {
            let ts = seq![n].add(rest);
            assert forall|t: nat| ts.contains(t) <==> (1 <= t <= n && bit8(d, (t - 1) as u8)) by {
                if t == n {
                    assert(ts[0] == n);
                }
                if ts.contains(t) && t != n {
                    let k = choose|k: int| 0 <= k < ts.len() && ts[k] == t;
                    assert(rest[k - 1] == t);
                }
                if rest.contains(t) {
                    let k = choose|k: int| 0 <= k < rest.len() && rest[k] == t;
                    assert(ts[k + 1] == t);
                }
            }
            assert forall|i: int, j: int| 0 <= i < j < ts.len() implies #[trigger] ts[i] > #[trigger] ts[j] by {
                if i > 0 {
                    assert(ts[i] == rest[i - 1] && ts[j] == rest[j - 1]);
                } else {
                    assert(ts[j] == rest[j - 1]);
                }
            }
        }
    }
}

pub proof fn lemma_takes_below_len(d: u8, n: nat)
    ensures
        takes_below(d, n).len() <= n,
    decreases n,
{
    if n > 0 {
        lemma_takes_below_len(d, (n - 1) as nat);
    }
}

/// Bits at or above `m` do not matter for `takes_below(_, m)`, and the count of
/// entries only depends on the bits below `n`.
pub proof fn lemma_takes_below_skip(d: u8, n: nat, m: nat)
    requires
        m <= n <= 8,
        forall|j: u8| m <= j < n ==> !#[trigger] bit8(d, j),
    ensures
        takes_below(d, n) == takes_below(d, m),
    decreases n,
{
    if n > m {
        assert(!bit8(d, (n - 1) as u8));
        lemma_takes_below_skip(d, (n - 1) as nat, m);
    }
}

/// Two bytes that agree on the bits below `n` have the same entries below `n`.
pub proof fn lemma_takes_below_agree(a: u8, b: u8, n: nat)
    requires
        n <= 8,
        forall|j: u8| j < n ==> #[trigger] bit8(a, j) == bit8(b, j),
    ensures
        takes_below(a, n) == takes_below(b, n),
    decreases n,
{
    if n > 0 {
        assert(bit8(a, (n - 1) as u8) == bit8(b, (n - 1) as u8));
        lemma_takes_below_agree(a, b, (n - 1) as nat);
    }
}

/// Setting bit `t - 1` below all set bits appends `t`.
pub proof fn lemma_takes_below_append(d: u8, t: nat, n: nat)
    requires
        1 <= t <= n <= 8,
        forall|j: u8| j < t ==> !#[trigger] bit8(d, j),
    ensures
        takes_below(d | (1u8 << ((t - 1) as u8)), n) == takes_below(d, n).push(t),
    decreases n,
{
    let e = d | (1u8 << ((t - 1) as u8));
    if n == t {
        assert forall|j: u8| j < 8 implies #[trigger] bit8(e, j) == (j == t - 1 || bit8(d, j)) by {
            lemma_bit8_ops(d, (t - 1) as u8, j);
        }
        assert forall|j: u8| j < t - 1 implies !#[trigger] bit8(e, j) by {}
        lemma_takes_below_skip(e, (t - 1) as nat, 0);
        lemma_takes_below_skip(d, t, 0);
        assert(takes_below(e, (t - 1) as nat) == Seq::<nat>::empty());
        assert(takes_below(d, t) == Seq::<nat>::empty());
        assert(takes_below(e, t) =~= seq![t]);
    } else {
        lemma_takes_below_append(d, t, (n - 1) as nat);
        lemma_bit8_ops(d, (t - 1) as u8, (n - 1) as u8);
        if bit8(d, (n - 1) as u8) {
            assert(takes_below(e, n) =~= seq![n].add(takes_below(d, (n - 1) as nat).push(t)));
        }
    }
}

/// Clearing the highest set bit drops the first entry.
pub proof fn lemma_takes_below_drop_top(d: u8, t: nat)
    requires
        1 <= t <= 8,
        bit8(d, (t - 1) as u8),
        forall|j: u8| t <= j < 8 ==> !#[trigger] bit8(d, j),
    ensures
        takes_below(d, 8) == seq![t].add(takes_below(d, (t - 1) as nat)),
        takes_below(d & !(1u8 << ((t - 1) as u8)), 8) == takes_below(d, (t - 1) as nat),
{
    let e = d & !(1u8 << ((t - 1) as u8));
    lemma_takes_below_skip(d, 8, t);
    assert forall|j: u8| j < 8 implies #[trigger] bit8(e, j) == (j != t - 1 && bit8(d, j)) by {
        lemma_bit8_ops(d, (t - 1) as u8, j);
    }
    lemma_takes_below_skip(e, 8, (t - 1) as nat);
    lemma_takes_below_agree(e, d, (t - 1) as nat);
}

/// The pieces carried at each step of a stack movement, as a set of bits:
/// bit `k - 1` is set when the moving stack holds `k` pieces as it leaves a square.
#[derive(Copy, Clone, Default, PartialEq, Eq, Debug, Hash)]
pub struct StackMovement<const S: usize> {
    pub data: u8,
}

/// An iterator over the piece counts of a stack movement, largest first.
pub struct StackMovementIterator {
    pub data: u8,
}

/// The highest set bit of a non-zero byte is bit `t - 1`, with `t = 8 - leading_zeros`.
pub proof fn lemma_highest_bit(d: u8)
    requires
        d != 0,
    ensures
        1 <= 8 - vstd::std_specs::bits::u8_leading_zeros(d) <= 8,
        bit8(d, (7 - vstd::std_specs::bits::u8_leading_zeros(d)) as u8),
        forall|j: u8| 8 - vstd::std_specs::bits::u8_leading_zeros(d) <= j < 8 ==> !#[trigger] bit8(d, j),
{
    vstd::std_specs::bits::axiom_u8_leading_zeros(d);
    let lz = vstd::std_specs::bits::u8_leading_zeros(d);
    lemma_bit8_ops(d, 0, (7 - lz) as u8);
    assert forall|j: u8| 8 - lz <= j < 8 implies !#[trigger] bit8(d, j) by {
        lemma_bit8_ops(d, 0, j);
    }
}

impl<const S: usize> StackMovement<S> {
    /// The number of pieces carried at each step, largest first.
    pub open spec fn view(self) -> Seq<nat> {
        takes_below(self.data, 8)
    }

    pub fn new() -> (m: Self)
        ensures
            m.data == 0,
            m@ == Seq::<nat>::empty(),
    {
        proof {
            assert forall|j: u8| 0 <= j < 8 implies !#[trigger] bit8(0u8, j) by {
                lemma_bit8_ops(0, 0, j);
            }
            lemma_takes_below_skip(0, 8, 0);
        }
        StackMovement { data: 0 }
    }

    pub fn into_inner(self) -> (d: u8)
        ensures
            d == self.data,
    {
        self.data
    }

    /// Only the lowest `S` bits may be set.
    pub open spec fn fits(data: u8) -> bool {
        S >= 8 || data >> (S as u8) == 0
    }

    pub fn from_u8(data: u8) -> (m: Self)
        requires
            StackMovement::<S>::fits(data),
        ensures
            m.data == data,
    {
        StackMovement { data }
    }

    /// The first movement: the number of pieces taken from the origin square.
    pub fn get_first(&self) -> (m: Movement)
        ensures
            self.data != 0 ==> m.pieces_to_take == self@[0],
            self.data == 0 ==> m.pieces_to_take == 0,
    {
        let lz = self.data.leading_zeros();
        proof {
            if self.data != 0 {
                lemma_highest_bit(self.data);
                lemma_takes_below_drop_top(self.data, (8 - lz) as nat);
            } else {
                vstd::std_specs::bits::axiom_u8_leading_zeros(self.data);
            }
        }
        Movement { pieces_to_take: (8 - lz) as u8 }
    }

    /// The movement with `take` pieces carried on from the current square, where every
    /// earlier step carried more than `take` pieces.
    pub fn with_take(self, take: u8) -> (m: Self)
        requires
            1 <= take <= 8,
            forall|j: u8| j < take ==> !#[trigger] bit8(self.data, j),
        ensures
            m.data == self.data | (1u8 << (take - 1)),
            m@ == self@.push(take as nat),
    {
        proof {
            lemma_takes_below_append(self.data, take as nat, 8);
        }
        StackMovement { data: self.data | (1u8 << (take - 1)) }
    }

    /// Adds one step of a movement, where `pieces_held` pieces were held before the step.
    pub fn push(&mut self, movement: Movement, pieces_held: u8)
        requires
            pieces_held > 0,
            pieces_held >= movement.pieces_to_take,
            old(self).data != 0 ==> pieces_held > movement.pieces_to_take,
            pieces_held - movement.pieces_to_take <= 8,
        ensures
            ({
                let shifted = if old(self).data != 0 {
                    old(self).data << ((pieces_held - movement.pieces_to_take - 1) as u8)
                } else {
                    old(self).data
                };
                final(self).data == if movement.pieces_to_take > 0 {
                    ((shifted << 1u8) | 1u8) as u8
                } else {
                    shifted
                }
            }),
    {
        let pieces_to_drop = pieces_held - movement.pieces_to_take;
        if self.data != 0 {
            self.data = self.data << (pieces_to_drop - 1);
        }
        if movement.pieces_to_take > 0 {
            self.data = self.data << 1u8;
            self.data = self.data | 1;
        }
    }

    /// The number of steps of the movement.
    pub fn len(self) -> (n: usize)
        ensures
            n == self@.len(),
    {
        let mut n: usize = 0;
        let mut k: u8 = 0;
        while k < 8
            invariant
                k <= 8,
                n == takes_below(self.data, k as nat).len(),
                n <= k,
            decreases 8 - k,
        {
            proof {
                lemma_bit8_ops(self.data, 0, k);
            }
            if (self.data >> k) & 1 == 1 {
                n = n + 1;
            }
            k = k + 1;
        }
        n
    }

    pub fn is_empty(self) -> (b: bool)
        ensures
            b == (self@.len() == 0),
    {
        self.len() == 0
    }

    pub fn into_iter(self) -> (it: StackMovementIterator)
        ensures
            it.data == self.data,
    {
        StackMovementIterator { data: self.data }
    }
}

impl StackMovementIterator {
    pub open spec fn view(self) -> Seq<nat> {
        takes_below(self.data, 8)
    }

    /// The next movement: how many pieces are carried on from the next square.
    pub fn next(&mut self) -> (m: Option<Movement>)
        ensures
            old(self)@.len() == 0 ==> m is None && final(self)@ == old(self)@,
            old(self)@.len() > 0 ==> m == Some(Movement { pieces_to_take: old(self)@[0] as u8 })
                && final(self)@ == old(self)@.drop_first(),
    {
        if self.data == 0 {
            proof {
                assert forall|j: u8| 0 <= j < 8 implies !#[trigger] bit8(0u8, j) by {
                    lemma_bit8_ops(0, 0, j);
                }
                lemma_takes_below_skip(0, 8, 0);
            }
            None
        } else {
            let ghost old_data = self.data;
            let pieces_to_take = 8 - self.data.leading_zeros() as u8;
            proof {
                lemma_highest_bit(old_data);
                lemma_takes_below_drop_top(old_data, pieces_to_take as nat);
            }
            self.data = self.data & !(1u8 << (pieces_to_take - 1));
            Some(Movement { pieces_to_take })
        }
    }
}

/// A value for each square of an `S`x`S` board, indexed by the square's number.
#[derive(Clone, Debug, PartialEq, Eq, Hash)]
pub struct AbstractBoard<T, const S: usize> {
    pub raw: Vec<T>,
}

impl<T: Copy, const S: usize> AbstractBoard<T, S> {
    pub open spec fn view(&self) -> Seq<T> {
        self.raw@
    }

    /// A board whose values are made by calling `f` once for each square, in index order.
    pub fn new_from_fn<F: FnMut() -> T>(mut f: F) -> (b: Self)
        requires
            super::square::valid_size(S),
            forall|g: F| call_requires(g, ()),
        ensures
            b@.len() == S * S,
    {
        proof {
            super::square::lemma_size::<S>();
        }
        let n = S * S;
        let mut raw: Vec<T> = Vec::new();
        let mut i: usize = 0;
        while i < n
            invariant
                n == S * S,
                i <= n,
                raw.len() == i,
                forall|g: F| call_requires(g, ()),
            decreases n - i,
        {
            raw.push(f());
            i = i + 1;
        }
        AbstractBoard { raw }
    }

    /// A board with the same value on every square.
    pub fn new_with_value(value: T) -> (b: Self)
        requires
            super::square::valid_size(S),
        ensures
            b@ == Seq::new((S * S) as nat, |i: int| value),
    {
        proof {
            super::square::lemma_size::<S>();
        }
        let n = S * S;
        let mut raw: Vec<T> = Vec::new();
        let mut i: usize = 0;
        while i < n
            invariant
                n == S * S,
                i <= n,
                raw@ == Seq::new(i as nat, |k: int| value),
            decreases n - i,
        {
            raw.push(value);
            i = i + 1;
            proof {
                assert(raw@ =~= Seq::new(i as nat, |k: int| value));
            }
        }
        AbstractBoard { raw }
    }

    pub fn get(&self, square: super::square::Square<S>) -> (v: T)
        requires
            (square.inner as int) < self@.len(),
        ensures
            v == self@[square.inner as int],
    {
        self.raw[square.inner as usize]
    }

    pub fn set(&mut self, square: super::square::Square<S>, value: T)
        requires
            (square.inner as int) < old(self)@.len(),
        ensures
            final(self)@ == old(self)@.update(square.inner as int, value),
    {
        self.raw.set(square.inner as usize, value);
    }
}

} // verus!
