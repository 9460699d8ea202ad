//! Tak positions, moves and the rules of the game.
use vstd::prelude::*;

pub mod bitboard;
pub mod bits;
pub mod game_result;
pub mod left_behind;
pub mod group_data;
pub mod collections;
pub mod make_move;
pub mod movegen;
pub mod mv;
pub mod position_gen;
pub mod playtak;
pub mod ptn_move;
pub mod roads;
pub mod rules;
pub mod square;
pub mod symmetry;
pub mod tps;
pub mod utils;
pub mod zobrist;

pub use mv::{ExpMove, Move, ReverseMove, ReverseMoveView};
pub use square::{squares_iterator, valid_size, Square};
pub use utils::{AbstractBoard, Color, Direction, GameResult, Komi, Movement, Piece, Role, Stack, StackMovement};

use bits::lemma_xor_facts;
use collections::{new_piece_array, new_u8_array, piece_array_contents, piece_array_len, piece_array_pop, piece_array_push, u8_array_contents, u8_array_get, u8_array_len, u8_array_push};
use rules::{flattens_wall, movement_fits, pieces_left_behind, push_all, rebuild_wall, spread, spread_prefix, unspread, unspread_prefix, BoardPieces};
use zobrist::{spec_square_hash, spec_to_move_key, spec_top_key, zobrist_hash_for_stack, zobrist_to_move, zobrist_top_stones};

verus! {

pub const MAX_BOARD_SIZE: usize = 8;

/// The number of stones (flats and walls) each player starts with.
pub open spec fn spec_starting_stones(size: usize) -> u8 {
    if size == 3 {
        10
    } else if size == 4 {
        15
    } else if size == 5 {
        21
    } else if size == 6 {
        30
    } else if size == 7 {
        40
    } else if size == 8 {
        50
    } else {
        0
    }
}

/// The number of capstones each player starts with.
pub open spec fn spec_starting_capstones(size: usize) -> u8 {
    if size == 5 || size == 6 {
        1
    } else if size == 7 || size == 8 {
        2
    } else {
        0
    }
}

pub fn starting_stones(size: usize) -> (n: u8)
    ensures
        n == spec_starting_stones(size),
{
    match size {
        3 => 10,
        4 => 15,
        5 => 21,
        6 => 30,
        7 => 40,
        8 => 50,
        _ => 0,
    }
}

pub fn starting_capstones(size: usize) -> (n: u8)
    ensures
        n == spec_starting_capstones(size),
{
    match size {
        3 => 0,
        4 => 0,
        5 => 1,
        6 => 1,
        7 => 2,
        8 => 2,
        _ => 0,
    }
}

/// The bits of the edges a square lies on: 8 for the north edge, 4 for the west, 2 for the
/// east and 1 for the south.
pub open spec fn edge_bits<const S: usize>(square: Square<S>) -> u8 {
    (((if square.spec_rank() == S - 1 {
        8u8
    } else {
        0u8
    }) | (if square.spec_rank() == 0 {
        1u8
    } else {
        0u8
    })) | (if square.spec_file() == 0 {
        4u8
    } else {
        0u8
    })) | (if square.spec_file() == S - 1 {
        2u8
    } else {
        0u8
    })
}

proof fn lemma_or_laws(x: u8, y: u8, z: u8)
    ensures
        x | 0u8 == x,
        (x | y) | z == x | (y | z),
        (x | y) | y == x | y,
        (x | y) | z == (x | z) | y,
{
    assert(x | 0u8 == x && (x | y) | z == x | (y | z) && (x | y) | y == x | y && (x | y) | z == (x | z)
        | y) by (bit_vector);
}

proof fn lemma_or_chain(d: u8, a: u8, b: u8, c: u8, e: u8)
    ensures
        (((d | a) | b) | c) | e == d | (((a | b) | c) | e),
{
    lemma_or_laws(d, a, b);
    lemma_or_laws(d, a | b, c);
    lemma_or_laws(d, (a | b) | c, e);
}

/// Connecting an edge twice gives what connecting it once gives; connecting two edges gives
/// the same in either order; and connecting an edge is the union with a connection to that
/// edge alone.
pub proof fn lemma_edge_connection_laws(g: GroupEdgeConnection, m1: u8, m2: u8)
    ensures
        (g.data | m1) | m1 == g.data | m1,
        (g.data | m1) | m2 == (g.data | m2) | m1,
        g.data | m1 == g.data | (0u8 | m1),
{
    lemma_or_laws(g.data, m1, m2);
    assert(0u8 | m1 == m1) by (bit_vector);
}

/// Records which board edges a group of road pieces touches.
#[derive(Default, Clone, Copy, PartialEq, Eq, Structural, Debug)]
pub struct GroupEdgeConnection {
    pub data: u8,
}

impl GroupEdgeConnection {
    pub open spec fn north(self) -> bool {
        self.data & 0b1000 != 0
    }

    pub open spec fn west(self) -> bool {
        self.data & 0b100 != 0
    }

    pub open spec fn east(self) -> bool {
        self.data & 0b10 != 0
    }

    pub open spec fn south(self) -> bool {
        self.data & 1 != 0
    }

    /// A group connecting two opposite edges is a road.
    pub open spec fn spec_is_winning(self) -> bool {
        (self.north() && self.south()) || (self.east() && self.west())
    }

    pub fn empty() -> (c: Self)
        ensures
            c.data == 0,
            !c.north() && !c.west() && !c.east() && !c.south(),
    {
        proof {
            assert(0u8 & 0b1000 == 0 && 0u8 & 0b100 == 0 && 0u8 & 0b10 == 0 && 0u8 & 1 == 0) by (bit_vector);
        }
        Self { data: 0 }
    }

    /// Adds the edges that a square lies on.
    pub fn connect_square_const<const S: usize>(self, square: Square<S>) -> (c: Self)
        requires
            valid_size(S),
            square.valid(),
        ensures
            c.north() == (self.north() || square.spec_rank() == S - 1),
            c.south() == (self.south() || square.spec_rank() == 0),
            c.west() == (self.west() || square.spec_file() == 0),
            c.east() == (self.east() || square.spec_file() == S - 1),
            c.data == self.data | edge_bits::<S>(square),
    {
        proof {
            lemma_or_laws(self.data, 0, 0);
        }
        let mut edge_connection = self;
        if square.rank() == S as u8 - 1 {
            edge_connection = edge_connection.connect_north();
        }
        if square.rank() == 0 {
            edge_connection = edge_connection.connect_south();
        }
        if square.file() == 0 {
            edge_connection = edge_connection.connect_west();
        }
        if square.file() == S as u8 - 1 {
            edge_connection = edge_connection.connect_east();
        }
        proof {
            let n: u8 = if square.spec_rank() == S - 1 { 8 } else { 0 };
            let so: u8 = if square.spec_rank() == 0 { 1 } else { 0 };
            let w: u8 = if square.spec_file() == 0 { 4 } else { 0 };
            let e: u8 = if square.spec_file() == S - 1 { 2 } else { 0 };
            lemma_or_laws(self.data, n, so);
            lemma_or_laws(self.data | n, so, 0);
            lemma_or_laws(self.data | n | so, w, 0);
            lemma_or_laws(self.data | n | so | w, e, 0);
            lemma_or_chain(self.data, n, so, w, e);
        }
        edge_connection
    }

    pub fn is_winning(self) -> (b: bool)
        ensures
            b == self.spec_is_winning(),
    {
        self.is_connected_north() && self.is_connected_south() || self.is_connected_east()
            && self.is_connected_west()
    }

    pub fn is_connected_north(self) -> (b: bool)
        ensures
            b == self.north(),
    {
        self.data & 0b1000 != 0
    }

    pub fn connect_north(self) -> (c: Self)
        ensures
            c.data == self.data | 0b1000u8,
            c.north(),
            c.west() == self.west(),
            c.east() == self.east(),
            c.south() == self.south(),
    {
        let d = self.data;
        proof {
            assert((d | 0b1000) & 0b1000 != 0 && ((d | 0b1000) & 0b100 != 0) == (d & 0b100 != 0) && ((d
                | 0b1000) & 0b10 != 0) == (d & 0b10 != 0) && ((d | 0b1000) & 1 != 0) == (d & 1 != 0))
                by (bit_vector);
        }
        GroupEdgeConnection { data: self.data | 0b1000 }
    }

    pub fn is_connected_west(self) -> (b: bool)
        ensures
            b == self.west(),
    {
        self.data & 0b100 != 0
    }

    pub fn connect_west(self) -> (c: Self)
        ensures
            c.data == self.data | 0b100u8,
            c.west(),
            c.north() == self.north(),
            c.east() == self.east(),
            c.south() == self.south(),
    {
        let d = self.data;
        proof {
            assert((d | 0b100) & 0b100 != 0 && ((d | 0b100) & 0b1000 != 0) == (d & 0b1000 != 0) && ((d
                | 0b100) & 0b10 != 0) == (d & 0b10 != 0) && ((d | 0b100) & 1 != 0) == (d & 1 != 0))
                by (bit_vector);
        }
        GroupEdgeConnection { data: self.data | 0b100 }
    }

    pub fn is_connected_east(self) -> (b: bool)
        ensures
            b == self.east(),
    {
        self.data & 0b10 != 0
    }

    pub fn connect_east(self) -> (c: Self)
        ensures
            c.data == self.data | 0b10u8,
            c.east(),
            c.north() == self.north(),
            c.west() == self.west(),
            c.south() == self.south(),
    {
        let d = self.data;
        proof {
            assert((d | 0b10) & 0b10 != 0 && ((d | 0b10) & 0b1000 != 0) == (d & 0b1000 != 0) && ((d
                | 0b10) & 0b100 != 0) == (d & 0b100 != 0) && ((d | 0b10) & 1 != 0) == (d & 1 != 0))
                by (bit_vector);
        }
        GroupEdgeConnection { data: self.data | 0b10 }
    }

    pub fn is_connected_south(self) -> (b: bool)
        ensures
            b == self.south(),
    {
        self.data & 1 != 0
    }

    pub fn connect_south(self) -> (c: Self)
        ensures
            c.data == self.data | 1u8,
            c.south(),
            c.north() == self.north(),
            c.west() == self.west(),
            c.east() == self.east(),
    {
        let d = self.data;
        proof {
            assert((d | 1) & 1 != 0 && ((d | 1) & 0b1000 != 0) == (d & 0b1000 != 0) && ((d | 1) & 0b100
                != 0) == (d & 0b100 != 0) && ((d | 1) & 0b10 != 0) == (d & 0b10 != 0)) by (bit_vector);
        }
        GroupEdgeConnection { data: self.data | 1 }
    }

    /// The edges touched by either group.
    pub fn union(self, rhs: Self) -> (c: Self)
        ensures
            c.data == self.data | rhs.data,
            c.north() == (self.north() || rhs.north()),
            c.west() == (self.west() || rhs.west()),
            c.east() == (self.east() || rhs.east()),
            c.south() == (self.south() || rhs.south()),
    {
        let a = self.data;
        let b = rhs.data;
        proof {
            assert((((a | b) & 0b1000 != 0) == (a & 0b1000 != 0 || b & 0b1000 != 0)) && (((a | b) & 0b100
                != 0) == (a & 0b100 != 0 || b & 0b100 != 0)) && (((a | b) & 0b10 != 0) == (a & 0b10
                != 0 || b & 0b10 != 0)) && (((a | b) & 1 != 0) == (a & 1 != 0 || b & 1 != 0))) by (bit_vector);
        }
        GroupEdgeConnection { data: self.data | rhs.data }
    }
}

/// The origin and destination squares of a stack movement.
#[derive(Clone, Copy, Debug)]
pub struct MovementSynopsis<const S: usize> {
    pub origin: Square<S>,
    pub destination: Square<S>,
}

/// Game settings: the komi.
#[derive(Clone, Copy, Default, PartialEq, Eq, Structural, Debug)]
pub struct Settings {
    pub komi: Komi,
}

/// Complete representation of a Tak position.
#[derive(Clone, Debug)]
pub struct Position<const S: usize> {
    /// The stack on each square, indexed by the square's number.
    pub stacks: Vec<Stack>,
    pub to_move: Color,
    pub white_stones_left: u8,
    pub black_stones_left: u8,
    pub white_caps_left: u8,
    pub black_caps_left: u8,
    pub half_moves_played: usize,
    pub moves: Vec<Move<S>>,
    pub komi: Komi,
    /// Zobrist hash of the current position
    pub hash: u64,
    /// Zobrist hashes of previous positions, up to the last irreversible move.
    pub hash_history: Vec<u64>,
}

/// The contents of a position, for specifications.
#[verifier::ext_equal]
pub struct PositionView<const S: usize> {
    pub stacks: Seq<Stack>,
    pub to_move: Color,
    pub white_stones_left: u8,
    pub black_stones_left: u8,
    pub white_caps_left: u8,
    pub black_caps_left: u8,
    pub half_moves_played: usize,
    pub moves: Seq<Move<S>>,
    pub komi: Komi,
    pub hash: u64,
    pub hash_history: Seq<u64>,
}

/// The hash contributions of the given squares, combined.
pub open spec fn spec_squares_hash(size: int, squares: Seq<int>, stacks: Seq<Stack>, k: nat) -> u64
    decreases k,
{
    if k == 0 {
        0
    } else {
        spec_squares_hash(size, squares, stacks, (k - 1) as nat) ^ spec_square_hash(
            size,
            squares[k - 1],
            stacks[squares[k - 1]],
        )
    }
}

impl<const S: usize> PositionView<S> {
    pub open spec fn wf(self) -> bool {
        &&& valid_size(S)
        &&& self.stacks.len() == S * S
        &&& forall|i: int| 0 <= i < self.stacks.len() ==> (#[trigger] self.stacks[i]).wf()
    }

    /// The pieces on each square, bottom first.
    pub open spec fn board(self) -> BoardPieces {
        Seq::new(self.stacks.len(), |i: int| self.stacks[i]@)
    }

    pub open spec fn stack(self, square: Square<S>) -> Stack {
        self.stacks[square.inner as int]
    }

    pub open spec fn top(self, square: Square<S>) -> Option<Piece> {
        self.stack(square).top_stone
    }

    pub open spec fn stones_left(self, color: Color) -> u8 {
        if color == Color::White {
            self.white_stones_left
        } else {
            self.black_stones_left
        }
    }

    pub open spec fn caps_left(self, color: Color) -> u8 {
        if color == Color::White {
            self.white_caps_left
        } else {
            self.black_caps_left
        }
    }

    /// The color of the piece placed by a placement: in the first two plies each player
    /// places a flat of the other color.
    pub open spec fn color_to_place(self) -> Color {
        if self.half_moves_played > 1 {
            self.to_move
        } else {
            self.to_move.spec_flip()
        }
    }

    /// The squares visited by a movement of `n` steps, as square numbers.
    pub open spec fn path(origin: Square<S>, direction: Direction, n: nat) -> Seq<int> {
        Seq::new(n, |i: int| origin.spec_jump_direction(direction, i + 1).unwrap().inner as int)
    }

    /// The origin followed by the squares visited.
    pub open spec fn path_with_origin(origin: Square<S>, direction: Direction, n: nat) -> Seq<int> {
        seq![origin.inner as int] + Self::path(origin, direction, n)
    }

    /// The rules for a stack movement: the top piece of the origin is ours, the stones carried
    /// are at most the stack's height, every visited square is on the board, the squares passed
    /// hold no wall or capstone, and the last square holds no capstone, and a wall only when a
    /// lone capstone arrives on it.
    pub open spec fn movement_rules(self, origin: Square<S>, direction: Direction, sm: StackMovement<S>) -> bool {
        let ts = sm@;
        let n = ts.len();
        &&& origin.valid()
        &&& self.top(origin) matches Some(p) && p.spec_color() == self.to_move
        &&& n >= 1
        &&& StackMovement::<S>::fits(sm.data)
        &&& ts[0] <= self.stack(origin).height
        &&& forall|i: int| 0 <= i < n ==> (#[trigger] origin.spec_jump_direction(direction, i + 1)) is Some
        &&& forall|i: int|
            0 <= i < n - 1 ==> match #[trigger] self.top(origin.spec_jump_direction(direction, i + 1).unwrap()) {
                None => true,
                Some(p) => p.spec_role() == Role::Flat,
            }
        &&& match self.top(origin.spec_jump_direction(direction, n as int).unwrap()) {
            None => true,
            Some(p) => p.spec_role() == Role::Flat || (p.spec_role() == Role::Wall && self.top(
                origin,
            ).unwrap().spec_role() == Role::Cap && ts[n - 1] == 1),
        }
    }

    /// Whether a move is legal in this position.
    pub open spec fn legal_move(self, mv: Move<S>) -> bool {
        &&& mv.wf()
        &&& match mv.spec_expand() {
            ExpMove::Place(role, square) => {
                &&& square.valid()
                &&& self.stack(square).height == 0
                &&& if self.half_moves_played < 2 {
                    role == Role::Flat
                } else if role == Role::Cap {
                    self.caps_left(self.to_move) > 0
                } else {
                    self.stones_left(self.to_move) > 0
                }
            },
            ExpMove::Move(origin, direction, sm) => {
                &&& self.half_moves_played >= 2
                &&& self.movement_rules(origin, direction, sm)
            },
        }
    }

    /// Whether a move can be played: a placement on an empty square of a piece that the player
    /// whose color is placed still has, or a stack movement by the rules. This is what playing
    /// a move needs; it admits the walls, capstones and movements in the first two plies that
    /// a legal move excludes.
    pub open spec fn playable(self, mv: Move<S>) -> bool {
        &&& mv.wf()
        &&& match mv.spec_expand() {
            ExpMove::Place(role, square) => {
                &&& square.valid()
                &&& self.stack(square).height == 0
                &&& if role == Role::Cap {
                    self.caps_left(self.color_to_place()) > 0
                } else {
                    self.stones_left(self.color_to_place()) > 0
                }
            },
            ExpMove::Move(origin, direction, sm) => self.movement_rules(origin, direction, sm),
        }
    }

    /// A legal move that fits can be played.
    pub proof fn lemma_legal_playable(self, mv: Move<S>)
        requires
            self.legal_move(mv),
            self.move_fits(mv),
        ensures
            self.playable(mv),
    {
    }

    /// No stack would grow beyond the 64 pieces that its bits can describe, and
    /// in the first two plies a player places a flat of the opponent, who must have one left.
    pub open spec fn move_fits(self, mv: Move<S>) -> bool {
        match mv.spec_expand() {
            ExpMove::Place(_, _) => self.half_moves_played < 2 ==> self.stones_left(self.to_move.spec_flip()) > 0,
            ExpMove::Move(origin, direction, sm) => forall|i: int|
                0 <= i < sm@.len() ==> self.stack(origin.spec_jump_direction(direction, i + 1).unwrap()).height
                    + sm@[i] <= 64,
        }
    }

    /// The position after a move, and the information needed to undo it.
    pub open spec fn move_effect(self, mv: Move<S>, after: PositionView<S>, rev: ReverseMoveView<S>) -> bool {
        &&& after.wf()
        &&& after.to_move == self.to_move.spec_flip()
        &&& after.half_moves_played == self.half_moves_played + 1
        &&& after.moves == self.moves.push(mv)
        &&& after.komi == self.komi
        &&& match mv.spec_expand() {
            ExpMove::Place(role, square) => {
                let piece = Piece::spec_from_role_color(role, self.color_to_place());
                let c = self.color_to_place();
                &&& after.board() == self.board().update(square.inner as int, seq![piece])
                &&& after.stones_left(c) == self.stones_left(c) - (if role == Role::Cap { 0int } else { 1int })
                &&& after.caps_left(c) == self.caps_left(c) - (if role == Role::Cap { 1int } else { 0int })
                &&& after.stones_left(c.spec_flip()) == self.stones_left(c.spec_flip())
                &&& after.caps_left(c.spec_flip()) == self.caps_left(c.spec_flip())
                &&& after.hash == self.hash ^ spec_top_key(S as int, square.inner as int, piece)
                    ^ spec_to_move_key(S as int, self.to_move) ^ spec_to_move_key(S as int, after.to_move)
                &&& after.hash_history == Seq::<u64>::empty()
                &&& rev == ReverseMoveView::Place(square)
            },
            ExpMove::Move(origin, direction, sm) => {
                let n = sm@.len();
                let squares = Self::path_with_origin(origin, direction, n);
                &&& after.board() == spread(self.board(), origin.inner as int, Self::path(origin, direction, n), sm@)
                &&& after.white_stones_left == self.white_stones_left
                &&& after.black_stones_left == self.black_stones_left
                &&& after.white_caps_left == self.white_caps_left
                &&& after.black_caps_left == self.black_caps_left
                &&& after.hash == self.hash ^ spec_squares_hash(S as int, squares, self.stacks, n + 1)
                    ^ spec_squares_hash(S as int, squares, after.stacks, n + 1) ^ spec_to_move_key(
                    S as int,
                    self.to_move,
                ) ^ spec_to_move_key(S as int, after.to_move)
                &&& after.hash_history == self.hash_history.push(self.hash)
                &&& rev == ReverseMoveView::Move(
                    origin,
                    direction,
                    sm,
                    pieces_left_behind(sm@),
                    flattens_wall(self.board(), Self::path(origin, direction, n), sm@),
                )
            },
        }
    }

    /// When a reverse move can be applied: the squares it names hold the pieces it takes back.
    pub open spec fn can_undo(self, rev: ReverseMoveView<S>) -> bool {
        &&& self.half_moves_played > 0
        &&& match rev {
            ReverseMoveView::Place(square) => {
                &&& square.valid()
                &&& self.stack(square).height > 0
                &&& if self.stack(square).top_stone.unwrap().spec_role() == Role::Cap {
                    self.caps_left(self.stack(square).top_stone.unwrap().spec_color()) < 255
                } else {
                    self.stones_left(self.stack(square).top_stone.unwrap().spec_color()) < 255
                }
            },
            ReverseMoveView::Move(origin, direction, sm, left, flattens) => {
                let n = left.len();
                let path = Self::path(origin, direction, n);
                &&& origin.valid()
                &&& sm@.len() == n
                &&& 1 <= n <= 8
                &&& forall|i: int| 0 <= i < n ==> (#[trigger] origin.spec_jump_direction(direction, i + 1)) is Some
                &&& forall|i: int| 0 <= i < n ==> #[trigger] left[i] <= self.stacks[path[i]].height
                &&& forall|i: int| 0 <= i < n ==> #[trigger] left[i] >= 1
                &&& forall|i: int| 0 <= i < n ==> #[trigger] left[i] <= 8
                &&& self.stack(origin).height + rules::sum_u8(left, n) <= 64
                &&& flattens ==> self.stacks[path[n - 1]].height > left[n - 1]
            },
        }
    }

    /// The position after undoing a move.
    pub open spec fn undo_effect(self, rev: ReverseMoveView<S>, after: PositionView<S>) -> bool {
        &&& after.wf()
        &&& after.to_move == self.to_move.spec_flip()
        &&& after.half_moves_played == self.half_moves_played - 1
        &&& after.moves == (if self.moves.len() > 0 { self.moves.drop_last() } else { self.moves })
        &&& after.hash_history == (if self.hash_history.len() > 0 {
            self.hash_history.drop_last()
        } else {
            self.hash_history
        })
        &&& after.komi == self.komi
        &&& match rev {
            ReverseMoveView::Place(square) => {
                let piece = self.stack(square).top_stone.unwrap();
                let c = piece.spec_color();
                &&& after.board() == self.board().update(
                    square.inner as int,
                    self.board()[square.inner as int].drop_last(),
                )
                &&& after.stones_left(c) == self.stones_left(c) + (if piece.spec_role() == Role::Cap { 0int } else { 1int })
                &&& after.caps_left(c) == self.caps_left(c) + (if piece.spec_role() == Role::Cap { 1int } else { 0int })
                &&& after.stones_left(c.spec_flip()) == self.stones_left(c.spec_flip())
                &&& after.caps_left(c.spec_flip()) == self.caps_left(c.spec_flip())
                &&& after.hash == self.hash ^ spec_top_key(S as int, square.inner as int, piece)
                    ^ spec_to_move_key(S as int, self.to_move) ^ spec_to_move_key(S as int, after.to_move)
            },
            ReverseMoveView::Move(origin, direction, sm, left, flattens) => {
                let n = left.len();
                let squares = Self::path_with_origin(origin, direction, n);
                &&& after.board() == unspread(self.board(), origin.inner as int, Self::path(origin, direction, n), left, flattens)
                &&& after.white_stones_left == self.white_stones_left
                &&& after.black_stones_left == self.black_stones_left
                &&& after.white_caps_left == self.white_caps_left
                &&& after.black_caps_left == self.black_caps_left
                &&& after.hash == self.hash ^ spec_squares_hash(S as int, squares, self.stacks, n + 1)
                    ^ spec_squares_hash(S as int, squares, after.stacks, n + 1) ^ spec_to_move_key(
                    S as int,
                    self.to_move,
                ) ^ spec_to_move_key(S as int, after.to_move)
            },
        }
    }
}

impl<const S: usize> Position<S> {
    pub open spec fn view(&self) -> PositionView<S> {
        PositionView {
            stacks: self.stacks@,
            to_move: self.to_move,
            white_stones_left: self.white_stones_left,
            black_stones_left: self.black_stones_left,
            white_caps_left: self.white_caps_left,
            black_caps_left: self.black_caps_left,
            half_moves_played: self.half_moves_played,
            moves: self.moves@,
            komi: self.komi,
            hash: self.hash,
            hash_history: self.hash_history@,
        }
    }

    pub open spec fn wf(&self) -> bool {
        self@.wf()
    }

    pub fn start_position_with_komi(komi: Komi) -> (p: Self)
        requires
            valid_size(S),
        ensures
            p.wf(),
            forall|i: int| 0 <= i < S * S ==> (#[trigger] p.stacks@[i])@.len() == 0,
            p.to_move == Color::White,
            p.white_stones_left == spec_starting_stones(S),
            p.black_stones_left == spec_starting_stones(S),
            p.white_caps_left == spec_starting_capstones(S),
            p.black_caps_left == spec_starting_capstones(S),
            p.half_moves_played == 0,
            p.moves@ == Seq::<Move<S>>::empty(),
            p.komi == komi,
            p.hash == spec_to_move_key(S as int, Color::White),
            p.hash_history@ == Seq::<u64>::empty(),
    {
        proof {
            square::lemma_size::<S>();
        }
        let n = S * S;
        let mut stacks: Vec<Stack> = Vec::new();
        let mut i: usize = 0;
        while i < n
            invariant
                n == S * S,
                i <= n,
                stacks.len() == i,
                forall|k: int| 0 <= k < i ==> (#[trigger] stacks@[k]) == Stack::default_spec(),
            decreases n - i,
        {
            stacks.push(Stack::empty());
            i = i + 1;
        }
        proof {
            Stack::lemma_default_wf();
        }
        Position {
            stacks,
            to_move: Color::White,
            white_stones_left: starting_stones(S),
            black_stones_left: starting_stones(S),
            white_caps_left: starting_capstones(S),
            black_caps_left: starting_capstones(S),
            half_moves_played: 0,
            moves: Vec::new(),
            komi,
            hash: zobrist_to_move::<S>(Color::White),
            hash_history: Vec::new(),
        }
    }

    /// The start position with no komi.
    pub fn start_position() -> (p: Self)
        requires
            valid_size(S),
        ensures
            p.wf(),
            forall|i: int| 0 <= i < S * S ==> (#[trigger] p.stacks@[i])@.len() == 0,
            p.to_move == Color::White,
            p.half_moves_played == 0,
            p.komi == (Komi { half_komi: 0 }),
            p.white_stones_left == spec_starting_stones(S),
            p.black_stones_left == spec_starting_stones(S),
            p.white_caps_left == spec_starting_capstones(S),
            p.black_caps_left == spec_starting_capstones(S),
            p.moves@ == Seq::<Move<S>>::empty(),
            p.hash == spec_to_move_key(S as int, Color::White),
            p.hash_history@ == Seq::<u64>::empty(),
    {
        Self::start_position_with_komi(Komi { half_komi: 0 })
    }

    pub fn start_position_with_settings(settings: &Settings) -> (p: Self)
        requires
            valid_size(S),
        ensures
            p.wf(),
            forall|i: int| 0 <= i < S * S ==> (#[trigger] p.stacks@[i])@.len() == 0,
            p.to_move == Color::White,
            p.half_moves_played == 0,
            p.komi == settings.komi,
            p.white_stones_left == spec_starting_stones(S),
            p.black_stones_left == spec_starting_stones(S),
            p.white_caps_left == spec_starting_capstones(S),
            p.black_caps_left == spec_starting_capstones(S),
            p.moves@ == Seq::<Move<S>>::empty(),
            p.hash == spec_to_move_key(S as int, Color::White),
            p.hash_history@ == Seq::<u64>::empty(),
    {
        Self::start_position_with_komi(settings.komi)
    }

    pub fn get_stack(&self, square: Square<S>) -> (s: Stack)
        requires
            self.wf(),
            square.valid(),
        ensures
            s == self@.stack(square),
            s.wf(),
    {
        self.stacks[square.inner as usize]
    }

    pub fn set_stack(&mut self, square: Square<S>, stack: Stack)
        requires
            old(self).wf(),
            square.valid(),
            stack.wf(),
        ensures
            final(self).wf(),
            final(self)@ == (PositionView { stacks: old(self)@.stacks.update(square.inner as int, stack), ..old(self)@ }),
    {
        self.stacks.set(square.inner as usize, stack);
    }

    pub fn side_to_move(&self) -> (c: Color)
        ensures
            c == self.to_move,
    {
        self.to_move
    }

    pub fn white_reserves_left(&self) -> (n: u8)
        ensures
            n == self.white_stones_left,
    {
        self.white_stones_left
    }

    pub fn black_reserves_left(&self) -> (n: u8)
        ensures
            n == self.black_stones_left,
    {
        self.black_stones_left
    }

    pub fn white_caps_left(&self) -> (n: u8)
        ensures
            n == self.white_caps_left,
    {
        self.white_caps_left
    }

    pub fn black_caps_left(&self) -> (n: u8)
        ensures
            n == self.black_caps_left,
    {
        self.black_caps_left
    }

    pub fn komi(&self) -> (k: Komi)
        ensures
            k == self.komi,
    {
        self.komi
    }

    pub fn set_komi(&mut self, komi: Komi)
        ensures
            final(self)@ == (PositionView { komi, ..old(self)@ }),
    {
        self.komi = komi
    }

    /// Number of moves/plies played in the game
    pub fn half_moves_played(&self) -> (n: usize)
        ensures
            n == self.half_moves_played,
    {
        self.half_moves_played
    }

    /// All the moves played in the game
    pub fn moves(&self) -> (m: &Vec<Move<S>>)
        ensures
            m@ == self.moves@,
    {
        &self.moves
    }

    /// Passes the turn to the other player.
    pub fn null_move(&mut self)
        ensures
            final(self)@ == (PositionView { to_move: old(self).to_move.spec_flip(), ..old(self)@ }),
    {
        self.to_move = self.to_move.flip();
    }

    /// The Zobrist hash of the current position.
    pub fn zobrist_hash(&self) -> (h: u64)
        ensures
            h == self.hash,
    {
        self.hash
    }

    pub fn zobrist_hash_for_square(&self, square: Square<S>) -> (h: u64)
        requires
            self.wf(),
            square.valid(),
        ensures
            h == spec_square_hash(S as int, square.inner as int, self@.stack(square)),
    {
        zobrist_hash_for_stack::<S>(square, self.stacks[square.inner as usize])
    }

    /// The hash contributions of the given squares, combined into `hash`.
    fn xor_squares_hash(&self, squares: &Vec<Square<S>>, hash: u64) -> (h: u64)
        requires
            self.wf(),
            forall|i: int| 0 <= i < squares.len() ==> (#[trigger] squares@[i]).valid(),
        ensures
            h == hash ^ spec_squares_hash(
                S as int,
                squares@.map_values(|sq: Square<S>| sq.inner as int),
                self.stacks@,
                squares.len() as nat,
            ),
    {
        let ghost idx = squares@.map_values(|sq: Square<S>| sq.inner as int);
        let mut h = hash;
        let mut i: usize = 0;
        proof {
            lemma_xor_facts(hash, 0, 0);
        }
        while i < squares.len()
            invariant
                self.wf(),
                i <= squares.len(),
                idx == squares@.map_values(|sq: Square<S>| sq.inner as int),
                forall|k: int| 0 <= k < squares.len() ==> (#[trigger] squares@[k]).valid(),
                h == hash ^ spec_squares_hash(S as int, idx, self.stacks@, i as nat),
            decreases squares.len() - i,
        {
            let x = self.zobrist_hash_for_square(squares[i]);
            proof {
                lemma_xor_facts(hash, spec_squares_hash(S as int, idx, self.stacks@, i as nat), x);
            }
            h = h ^ x;
            i = i + 1;
        }
        h
    }
}

impl<const S: usize> PartialEq for Position<S> {
    fn eq(&self, other: &Self) -> (r: bool) {
        if self.stacks.len() != other.stacks.len() {
            return false;
        }
        let mut i: usize = 0;
        while i < self.stacks.len()
            invariant
                self.stacks.len() == other.stacks.len(),
                i <= self.stacks.len(),
                forall|k: int| 0 <= k < i ==> self.stacks@[k] == other.stacks@[k],
            decreases self.stacks.len() - i,
        {
            if self.stacks[i] != other.stacks[i] {
                return false;
            }
            i = i + 1;
        }
        proof {
            assert(self.stacks@ =~= other.stacks@);
        }
        self.to_move == other.to_move && self.white_stones_left == other.white_stones_left
            && self.black_stones_left == other.black_stones_left && self.white_caps_left
            == other.white_caps_left && self.black_caps_left == other.black_caps_left
            && self.half_moves_played == other.half_moves_played && self.komi == other.komi
    }
}

impl<const S: usize> vstd::std_specs::cmp::PartialEqSpecImpl for Position<S> {
    open spec fn obeys_eq_spec() -> bool {
        true
    }

    /// Two positions are equal when their stacks, side to move, reserves, move count and
    /// komi are.
    open spec fn eq_spec(&self, other: &Self) -> bool {
        &&& self.stacks@ == other.stacks@
        &&& self.to_move == other.to_move
        &&& self.white_stones_left == other.white_stones_left
        &&& self.black_stones_left == other.black_stones_left
        &&& self.white_caps_left == other.white_caps_left
        &&& self.black_caps_left == other.black_caps_left
        &&& self.half_moves_played == other.half_moves_played
        &&& self.komi == other.komi
    }
}

impl<const S: usize> Eq for Position<S> {
}

impl Stack {
    pub open spec fn default_spec() -> Stack {
        Stack { top_stone: None, bitboard: bitboard::BitBoard { board: 0 }, height: 0 }
    }

    pub proof fn lemma_default_wf()
        ensures
            Stack::default_spec().wf(),
            Stack::default_spec()@.len() == 0,
    {
        assert forall|j: u64| j < 64 implies !#[trigger] bits::bit(0u64, j) by {
            bits::lemma_bit_ops(0, 0, j);
        }
    }

    /// A stack with no pieces.
    pub fn empty() -> (s: Stack)
        ensures
            s == Stack::default_spec(),
            s.wf(),
            s@.len() == 0,
    {
        proof {
            Stack::lemma_default_wf();
        }
        Stack { top_stone: None, bitboard: bitboard::BitBoard { board: 0 }, height: 0 }
    }
}

} // verus!
