//! The pieces on top of each square, sorted by kind, and the connected groups of road pieces.
use vstd::prelude::*;

use super::bitboard::BitBoard;
use super::bits::{bit, lemma_bit_ops, lemma_bits_ext};
use super::roads::{connected_components_graph, groups_ok, has_road, lemma_zeros_bound, step, zeros};
use super::square::{lemma_size, valid_size, Square};
use super::bitboard::BitBoardIter;
use super::utils::{AbstractBoard, Color, Direction, Piece};
use super::{GroupEdgeConnection, Position, PositionView};

verus! {

/// The bits of `b` mark the squares whose top piece is `piece`.
pub open spec fn marks<const S: usize>(b: u64, p: PositionView<S>, piece: Piece) -> bool {
    forall|x: u64| x < 64 ==> #[trigger] bit(b, x) == ((x as int) < S * S && p.stacks[x as int].top_stone == Some(piece))
}

/// Square `x` is topped by a road piece (flat or capstone) of `color`.
pub open spec fn is_road_at<const S: usize>(p: PositionView<S>, color: Color, x: int) -> bool {
    &&& 0 <= x < S * S
    &&& p.stacks[x].top_stone matches Some(piece)
    &&& piece.spec_is_road_piece()
    &&& piece.spec_color() == color
}

/// The bits of `b` mark the road pieces of `color`.
pub open spec fn marks_road<const S: usize>(b: u64, p: PositionView<S>, color: Color) -> bool {
    forall|x: u64| x < 64 ==> #[trigger] bit(b, x) == is_road_at::<S>(p, color, x as int)
}

/// The road pieces of `color`, as a bitboard.
pub open spec fn road_bits<const S: usize>(p: PositionView<S>, color: Color) -> u64 {
    choose|b: u64| marks_road::<S>(b, p, color)
}

/// `color` has a road: a connected group of its road pieces joins two opposite edges.
pub open spec fn spec_has_road<const S: usize>(p: PositionView<S>, color: Color) -> bool {
    has_road::<S>(road_bits::<S>(p, color))
}

/// The number of the first `n` squares with label `l`.
pub open spec fn count_label(labels: Seq<u8>, n: int, l: int) -> nat
    decreases n,
{
    if n <= 0 {
        0
    } else {
        count_label(labels, n - 1, l) + if labels[n - 1] == l {
            1nat
        } else {
            0nat
        }
    }
}

/// Some of the first `n` squares with label `l` is a road piece of the group on the edge that
/// `edge` picks: 0 for rank `S - 1`, 1 for rank 0, 2 for file 0, 3 for file `S - 1`.
pub open spec fn group_on_edge<const S: usize>(p: PositionView<S>, labels: Seq<u8>, n: int, l: int, edge: int) -> bool {
    exists|x: int|
        0 <= x < n && #[trigger] labels[x] == l && (p.stacks[x].top_stone matches Some(piece)
            && piece.spec_is_road_piece()) && on_edge::<S>(x, edge)
}

pub open spec fn on_edge<const S: usize>(x: int, edge: int) -> bool {
    let sq = Square::<S> { inner: x as u8 };
    if edge == 0 {
        sq.spec_rank() == S - 1
    } else if edge == 1 {
        sq.spec_rank() == 0
    } else if edge == 2 {
        sq.spec_file() == 0
    } else {
        sq.spec_file() == S - 1
    }
}

/// Whether an edge connection includes the edge that `edge` picks, numbered as in `on_edge`.
pub open spec fn touches(c: GroupEdgeConnection, edge: int) -> bool {
    if edge == 0 {
        c.north()
    } else if edge == 1 {
        c.south()
    } else if edge == 2 {
        c.west()
    } else {
        c.east()
    }
}

/// The square one step from `x` in direction `d` holds a road piece of `color` whose group,
/// as `amount` records it, touches the edge that `edge` picks.
pub open spec fn neighbor_touches<const S: usize>(
    p: PositionView<S>,
    g: Seq<u8>,
    amount: Seq<(u8, GroupEdgeConnection)>,
    color: Color,
    x: int,
    d: Direction,
    edge: int,
) -> bool {
    match (Square::<S> { inner: x as u8 }).spec_go_direction(d) {
        Some(y) => is_road_at::<S>(p, color, y.inner as int) && touches(amount[g[y.inner as int] as int].1, edge),
        None => false,
    }
}

/// A road piece of `color` on square `x` would reach the edge that `edge` picks: the square
/// lies on it, or a group of `color` next to the square touches it.
pub open spec fn would_join<const S: usize>(
    p: PositionView<S>,
    g: Seq<u8>,
    amount: Seq<(u8, GroupEdgeConnection)>,
    color: Color,
    x: int,
    edge: int,
) -> bool {
    ||| on_edge::<S>(x, edge)
    ||| neighbor_touches::<S>(p, g, amount, color, x, Direction::North, edge)
    ||| neighbor_touches::<S>(p, g, amount, color, x, Direction::West, edge)
    ||| neighbor_touches::<S>(p, g, amount, color, x, Direction::East, edge)
    ||| neighbor_touches::<S>(p, g, amount, color, x, Direction::South, edge)
}

/// Square `x` is critical for `color`: a road piece of `color` there would join the north
/// and south edges, or the west and east ones.
pub open spec fn spec_is_critical<const S: usize>(
    p: PositionView<S>,
    g: Seq<u8>,
    amount: Seq<(u8, GroupEdgeConnection)>,
    color: Color,
    x: int,
) -> bool {
    ||| would_join::<S>(p, g, amount, color, x, 0) && would_join::<S>(p, g, amount, color, x, 1)
    ||| would_join::<S>(p, g, amount, color, x, 2) && would_join::<S>(p, g, amount, color, x, 3)
}

/// The pieces on top of each square, sorted by kind, and the labels of the groups of road pieces.
#[derive(Clone, Debug)]
pub struct GroupData<const S: usize> {
    /// The label of the group of each square: 0 for a square without a road piece.
    pub groups: AbstractBoard<u8, S>,
    /// For each label, the number of squares with it, and the edges its road pieces touch.
    pub amount_in_group: Vec<(u8, GroupEdgeConnection)>,
    pub white_flat_stones: BitBoard,
    pub black_flat_stones: BitBoard,
    pub white_caps: BitBoard,
    pub black_caps: BitBoard,
    pub white_walls: BitBoard,
    pub black_walls: BitBoard,
    /// The squares where a road piece of white, or of black, would make a road.
    pub white_critical_squares: BitBoard,
    pub black_critical_squares: BitBoard,
}

impl<const S: usize> GroupData<S> {
    /// The group data of position `p`: the bitboards mark its top pieces; white's groups have
    /// labels from 1 below `white_end`, black's from `white_end` below `black_end`; and each
    /// entry of `amount_in_group` counts the squares of its label and the edges they touch.
    pub open spec fn describes(&self, p: PositionView<S>, white_end: int, black_end: int) -> bool {
        let g = self.groups@;
        &&& marks::<S>(self.white_flat_stones.board, p, Piece::WhiteFlat)
        &&& marks::<S>(self.black_flat_stones.board, p, Piece::BlackFlat)
        &&& marks::<S>(self.white_caps.board, p, Piece::WhiteCap)
        &&& marks::<S>(self.black_caps.board, p, Piece::BlackCap)
        &&& marks::<S>(self.white_walls.board, p, Piece::WhiteWall)
        &&& marks::<S>(self.black_walls.board, p, Piece::BlackWall)
        &&& g.len() == S * S
        &&& 1 <= white_end <= black_end <= S * S + 1
        &&& forall|x: int|
            0 <= x < S * S ==> {
                &&& is_road_at::<S>(p, Color::White, x) ==> 1 <= #[trigger] g[x] < white_end
                &&& is_road_at::<S>(p, Color::Black, x) ==> white_end <= g[x] < black_end
                &&& !is_road_at::<S>(p, Color::White, x) && !is_road_at::<S>(p, Color::Black, x) ==> g[x] == 0
            }
        &&& marks_road::<S>(road_bits::<S>(p, Color::White), p, Color::White)
        &&& marks_road::<S>(road_bits::<S>(p, Color::Black), p, Color::Black)
        &&& exists|roots: Seq<int>| groups_ok::<S>(road_bits::<S>(p, Color::White), g, 1, white_end, roots)
        &&& exists|roots: Seq<int>| groups_ok::<S>(road_bits::<S>(p, Color::Black), g, white_end, black_end, roots)
        &&& self.amount_in_group@.len() == S * S + 1
        &&& forall|l: int|
            0 <= l <= S * S ==> {
                &&& (#[trigger] self.amount_in_group@[l]).0 == count_label(g, S * S, l)
                &&& self.amount_in_group@[l].1.north() == group_on_edge::<S>(p, g, S * S, l, 0)
                &&& self.amount_in_group@[l].1.south() == group_on_edge::<S>(p, g, S * S, l, 1)
                &&& self.amount_in_group@[l].1.west() == group_on_edge::<S>(p, g, S * S, l, 2)
                &&& self.amount_in_group@[l].1.east() == group_on_edge::<S>(p, g, S * S, l, 3)
            }
    }

    /// The critical squares of each player are marked in their bitboard.
    pub open spec fn criticals_described(&self, p: PositionView<S>) -> bool {
        &&& forall|x: u64|
            x < 64 ==> #[trigger] self.white_critical_squares.contains(x) == ((x as int) < S * S
                && spec_is_critical::<S>(p, self.groups@, self.amount_in_group@, Color::White, x as int))
        &&& forall|x: u64|
            x < 64 ==> #[trigger] self.black_critical_squares.contains(x) == ((x as int) < S * S
                && spec_is_critical::<S>(p, self.groups@, self.amount_in_group@, Color::Black, x as int))
    }

    /// Whether a road piece of `color` on `square` would make a road.
    pub fn is_critical_square(&self, square: Square<S>, color: Color) -> (b: bool)
        requires
            square.inner < 64,
        ensures
            b == match color {
                Color::White => self.white_critical_squares.contains(square.inner as u64),
                Color::Black => self.black_critical_squares.contains(square.inner as u64),
            },
    {
        match color {
            Color::White => self.white_critical_squares.get_square(square),
            Color::Black => self.black_critical_squares.get_square(square),
        }
    }

    /// The critical squares of `color`, lowest first.
    pub fn critical_squares(&self, color: Color) -> (it: BitBoardIter<S>)
        ensures
            it.board == match color {
                Color::White => self.white_critical_squares,
                Color::Black => self.black_critical_squares,
            },
    {
        match color {
            Color::White => self.white_critical_squares.into_iter(),
            Color::Black => self.black_critical_squares.into_iter(),
        }
    }

    pub fn white_road_pieces(&self) -> (b: BitBoard)
        ensures
            b.board == self.white_flat_stones.board | self.white_caps.board,
            forall|j: u64| j < 64 ==> #[trigger] b.contains(j) == (self.white_flat_stones.contains(j) || self.white_caps.contains(j)),
    {
        self.white_flat_stones.or(self.white_caps)
    }

    pub fn black_road_pieces(&self) -> (b: BitBoard)
        ensures
            b.board == self.black_flat_stones.board | self.black_caps.board,
            forall|j: u64| j < 64 ==> #[trigger] b.contains(j) == (self.black_flat_stones.contains(j) || self.black_caps.contains(j)),
    {
        self.black_flat_stones.or(self.black_caps)
    }

    pub fn white_blocking_pieces(&self) -> (b: BitBoard)
        ensures
            forall|j: u64| j < 64 ==> #[trigger] b.contains(j) == (self.white_walls.contains(j) || self.white_caps.contains(j)),
    {
        self.white_walls.or(self.white_caps)
    }

    pub fn black_blocking_pieces(&self) -> (b: BitBoard)
        ensures
            forall|j: u64| j < 64 ==> #[trigger] b.contains(j) == (self.black_walls.contains(j) || self.black_caps.contains(j)),
    {
        self.black_walls.or(self.black_caps)
    }

    /// Every piece on top of a square.
    pub fn all_pieces(&self) -> (b: BitBoard)
        ensures
            forall|j: u64|
                j < 64 ==> #[trigger] b.contains(j) == (self.white_flat_stones.contains(j) || self.white_walls.contains(j)
                    || self.white_caps.contains(j) || self.black_flat_stones.contains(j) || self.black_walls.contains(j)
                    || self.black_caps.contains(j)),
    {
        self.white_flat_stones.or(self.white_blocking_pieces()).or(self.black_flat_stones).or(
            self.black_blocking_pieces(),
        )
    }
}

} // verus!

verus! {

proof fn lemma_groups_ok_frame<const S: usize>(road: u64, l1: Seq<u8>, l2: Seq<u8>, id0: int, id: int, roots: Seq<int>)
    requires
        groups_ok::<S>(road, l1, id0, id, roots),
        l1.len() == S * S,
        l2.len() == S * S,
        forall|x: int| 0 <= x < S * S && bit(road, x as u64) ==> #[trigger] l1[x] == l2[x],
    ensures
        groups_ok::<S>(road, l2, id0, id, roots),
{
    assert forall|x: int, y: int|
        step::<S>(x, y) && bit(road, x as u64) && bit(road, y as u64) && l2[x] != 0 && l2[y] != 0 implies #[trigger] l2[x]
        == #[trigger] l2[y] by {
        assert(l1[x] == l2[x] && l1[y] == l2[y]);
    }
    assert forall|x: int| 0 <= x < S * S && l2[x] != 0 && bit(road, x as u64) implies id0 <= #[trigger] l2[x] < id by {
        assert(l1[x] == l2[x]);
    }
    assert forall|x: int|
        0 <= x < S * S && bit(road, x as u64) && l2[x] != 0 implies super::roads::reaches::<S>(
        road,
        roots[#[trigger] l2[x] - id0],
        x,
    ) by {
        assert(l1[x] == l2[x]);
    }
    assert forall|l: int| 0 <= l < roots.len() implies 0 <= #[trigger] roots[l] < S * S && bit(road, roots[l] as u64)
        && l2[roots[l]] == id0 + l by {
        assert(l1[roots[l]] == l2[roots[l]]);
    }
}

/// The road pieces of `color` are marked by `b`, so `b` is the bitboard of its road pieces.
proof fn lemma_road_bits<const S: usize>(b: u64, p: PositionView<S>, color: Color)
    requires
        marks_road::<S>(b, p, color),
    ensures
        road_bits::<S>(p, color) == b,
{
    let r = road_bits::<S>(p, color);
    assert(marks_road::<S>(r, p, color));
    assert forall|j: u64| j < 64 implies #[trigger] bit(r, j) == bit(b, j) by {
        assert(bit(r, j) == is_road_at::<S>(p, color, j as int));
    }
    lemma_bits_ext(r, b);
}

impl<const S: usize> Square<S> {
    /// The edges that the square lies on.
    pub fn group_edge_connection(self) -> (c: GroupEdgeConnection)
        requires
            valid_size(S),
            self.valid(),
        ensures
            c.north() == (self.spec_rank() == S - 1),
            c.south() == (self.spec_rank() == 0),
            c.west() == (self.spec_file() == 0),
            c.east() == (self.spec_file() == S - 1),
    {
        GroupEdgeConnection::empty().connect_square_const(self)
    }
}

/// The edges `c` joins, with those of the group next to `square` in direction `d`, when that
/// square holds a road piece of `color`.
fn add_neighbor_edges<const S: usize>(
    groups: &AbstractBoard<u8, S>,
    amount: &Vec<(u8, GroupEdgeConnection)>,
    road: BitBoard,
    c: GroupEdgeConnection,
    square: Square<S>,
    d: Direction,
    Ghost(p): Ghost<PositionView<S>>,
    Ghost(color): Ghost<Color>,
) -> (r: GroupEdgeConnection)
    requires
        valid_size(S),
        square.valid(),
        marks_road::<S>(road.board, p, color),
        groups@.len() == S * S,
        amount@.len() == S * S + 1,
        forall|x: int| 0 <= x < S * S && is_road_at::<S>(p, color, x) ==> #[trigger] groups@[x] <= S * S,
    ensures
        forall|e: int|
            #![auto]
            touches(r, e) == (touches(c, e) || neighbor_touches::<S>(p, groups@, amount@, color, square.inner as int, d, e)),
{
    proof {
        lemma_size::<S>();
        assert(square == Square::<S> { inner: square.inner as int as u8 });
    }
    match square.go_direction(d) {
        None => c,
        Some(y) => {
            proof {
                assert(bit(road.board, y.inner as u64) == is_road_at::<S>(p, color, y.inner as int));
            }
            if road.get_square(y) {
                let l = groups.get(y);
                c.union(amount[l as usize].1)
            } else {
                c
            }
        },
    }
}

/// Whether a road piece of `color` on `square` would join two opposite edges.
fn is_critical_from_scratch<const S: usize>(
    groups: &AbstractBoard<u8, S>,
    amount: &Vec<(u8, GroupEdgeConnection)>,
    road: BitBoard,
    square: Square<S>,
    Ghost(p): Ghost<PositionView<S>>,
    Ghost(color): Ghost<Color>,
) -> (b: bool)
    requires
        valid_size(S),
        square.valid(),
        marks_road::<S>(road.board, p, color),
        groups@.len() == S * S,
        amount@.len() == S * S + 1,
        forall|x: int| 0 <= x < S * S && is_road_at::<S>(p, color, x) ==> #[trigger] groups@[x] <= S * S,
    ensures
        b == spec_is_critical::<S>(p, groups@, amount@, color, square.inner as int),
{
    let c0 = square.group_edge_connection();
    let c1 = add_neighbor_edges(groups, amount, road, c0, square, Direction::North, Ghost(p), Ghost(color));
    let c2 = add_neighbor_edges(groups, amount, road, c1, square, Direction::West, Ghost(p), Ghost(color));
    let c3 = add_neighbor_edges(groups, amount, road, c2, square, Direction::East, Ghost(p), Ghost(color));
    let c4 = add_neighbor_edges(groups, amount, road, c3, square, Direction::South, Ghost(p), Ghost(color));
    proof {
        let x = square.inner as int;
        assert(square == Square::<S> { inner: x as u8 });
        assert forall|e: int| 0 <= e < 4 implies touches(c4, e) == would_join::<S>(p, groups@, amount@, color, x, e) by {
            assert(touches(c0, e) == on_edge::<S>(x, e));
        }
        assert(touches(c4, 0) == c4.north());
        assert(touches(c4, 1) == c4.south());
        assert(touches(c4, 2) == c4.west());
        assert(touches(c4, 3) == c4.east());
    }
    c4.is_winning()
}

/// The critical squares of `color`, as a bitboard.
fn critical_board<const S: usize>(
    groups: &AbstractBoard<u8, S>,
    amount: &Vec<(u8, GroupEdgeConnection)>,
    road: BitBoard,
    Ghost(p): Ghost<PositionView<S>>,
    Ghost(color): Ghost<Color>,
) -> (b: BitBoard)
    requires
        valid_size(S),
        marks_road::<S>(road.board, p, color),
        groups@.len() == S * S,
        amount@.len() == S * S + 1,
        forall|x: int| 0 <= x < S * S && is_road_at::<S>(p, color, x) ==> #[trigger] groups@[x] <= S * S,
    ensures
        forall|x: u64|
            x < 64 ==> #[trigger] b.contains(x) == ((x as int) < S * S && spec_is_critical::<S>(
                p,
                groups@,
                amount@,
                color,
                x as int,
            )),
{
    proof {
        lemma_size::<S>();
    }
    let mut b = BitBoard::empty();
    proof {
        assert forall|j: u64| j < 64 implies !#[trigger] bit(0u64, j) by {
            lemma_bit_ops(0, 0, j);
        }
    }
    let n: u8 = (S * S) as u8;
    let mut x: u8 = 0;
    while x < n
        invariant
            valid_size(S),
            n == S * S,
            n <= 64,
            x <= n,
            marks_road::<S>(road.board, p, color),
            groups@.len() == S * S,
            amount@.len() == S * S + 1,
            forall|y: int| 0 <= y < S * S && is_road_at::<S>(p, color, y) ==> #[trigger] groups@[y] <= S * S,
            forall|j: u64|
                j < 64 ==> #[trigger] b.contains(j) == (j < x && spec_is_critical::<S>(
                    p,
                    groups@,
                    amount@,
                    color,
                    j as int,
                )),
        decreases n - x,
    {
        let square = Square::<S> { inner: x };
        if is_critical_from_scratch(groups, amount, road, square, Ghost(p), Ghost(color)) {
            b = b.set(x);
        }
        x = x + 1;
    }
    b
}

/// The group data with its critical squares filled in.
fn with_critical_squares<const S: usize>(group_data: GroupData<S>, Ghost(p): Ghost<PositionView<S>>) -> (r: GroupData<
    S,
>)
    requires
        valid_size(S),
        exists|white_end: int, black_end: int| #[trigger] group_data.describes(p, white_end, black_end),
    ensures
        exists|white_end: int, black_end: int| #[trigger] r.describes(p, white_end, black_end),
        r.criticals_described(p),
{
    let ghost (we, be) = choose|white_end: int, black_end: int| #[trigger] group_data.describes(p, white_end, black_end);
    let white_road = group_data.white_road_pieces();
    let black_road = group_data.black_road_pieces();
    let ghost g = group_data.groups@;
    proof {
        assert forall|x: u64| x < 64 implies #[trigger] bit(white_road.board, x) == is_road_at::<S>(p, Color::White, x as int) by {
            assert(white_road.contains(x) == (bit(group_data.white_flat_stones.board, x) || bit(group_data.white_caps.board, x)));
        }
        assert forall|x: u64| x < 64 implies #[trigger] bit(black_road.board, x) == is_road_at::<S>(p, Color::Black, x as int) by {
            assert(black_road.contains(x) == (bit(group_data.black_flat_stones.board, x) || bit(group_data.black_caps.board, x)));
        }
        assert forall|x: int| 0 <= x < S * S && is_road_at::<S>(p, Color::White, x) implies #[trigger] g[x] <= S * S by {}
        assert forall|x: int| 0 <= x < S * S && is_road_at::<S>(p, Color::Black, x) implies #[trigger] g[x] <= S * S by {}
    }
    let white_critical = critical_board(
        &group_data.groups,
        &group_data.amount_in_group,
        white_road,
        Ghost(p),
        Ghost(Color::White),
    );
    let black_critical = critical_board(
        &group_data.groups,
        &group_data.amount_in_group,
        black_road,
        Ghost(p),
        Ghost(Color::Black),
    );
    let mut r = group_data;
    r.white_critical_squares = white_critical;
    r.black_critical_squares = black_critical;
    proof {
        assert(group_data.describes(p, we, be));
        assert(r.groups@ == group_data.groups@);
        assert(r.amount_in_group@ == group_data.amount_in_group@);
        assert(r.describes(p, we, be));
    }
    r
}

proof fn lemma_marks<const S: usize>(b: BitBoard, p: PositionView<S>, piece: Piece)
    requires
        forall|j: u64| j < 64 ==> #[trigger] b.contains(j) == ((j as int) < S * S && p.stacks[j as int].top_stone == Some(piece)),
    ensures
        marks::<S>(b.board, p, piece),
{
    assert forall|x: u64| x < 64 implies #[trigger] bit(b.board, x) == ((x as int) < S * S && p.stacks[x as int].top_stone
        == Some(piece)) by {
        assert(b.contains(x) == bit(b.board, x));
    }
}

impl<const S: usize> Position<S> {
    /// The top pieces sorted by kind, as bitboards.
    fn top_stone_boards(&self) -> (r: (BitBoard, BitBoard, BitBoard, BitBoard, BitBoard, BitBoard))
        requires
            self.wf(),
        ensures
            marks::<S>(r.0.board, self@, Piece::WhiteFlat),
            marks::<S>(r.1.board, self@, Piece::BlackFlat),
            marks::<S>(r.2.board, self@, Piece::WhiteCap),
            marks::<S>(r.3.board, self@, Piece::BlackCap),
            marks::<S>(r.4.board, self@, Piece::WhiteWall),
            marks::<S>(r.5.board, self@, Piece::BlackWall),
    {
        proof {
            lemma_size::<S>();
        }
        let n = S * S;
        let mut wf = BitBoard::empty();
        let mut bf = BitBoard::empty();
        let mut wc = BitBoard::empty();
        let mut bc = BitBoard::empty();
        let mut ww = BitBoard::empty();
        let mut bw = BitBoard::empty();
        proof {
            assert forall|j: u64| j < 64 implies !#[trigger] bit(0u64, j) by {
                super::bits::lemma_bit_ops(0, 0, j);
            }
        }
        let mut i: usize = 0;
        while i < n
            invariant
                self.wf(),
                n == S * S,
                n <= 64,
                i <= n,
                forall|j: u64| j < 64 ==> #[trigger] wf.contains(j) == ((j as int) < i && self@.stacks[j as int].top_stone == Some(Piece::WhiteFlat)),
                forall|j: u64| j < 64 ==> #[trigger] bf.contains(j) == ((j as int) < i && self@.stacks[j as int].top_stone == Some(Piece::BlackFlat)),
                forall|j: u64| j < 64 ==> #[trigger] wc.contains(j) == ((j as int) < i && self@.stacks[j as int].top_stone == Some(Piece::WhiteCap)),
                forall|j: u64| j < 64 ==> #[trigger] bc.contains(j) == ((j as int) < i && self@.stacks[j as int].top_stone == Some(Piece::BlackCap)),
                forall|j: u64| j < 64 ==> #[trigger] ww.contains(j) == ((j as int) < i && self@.stacks[j as int].top_stone == Some(Piece::WhiteWall)),
                forall|j: u64| j < 64 ==> #[trigger] bw.contains(j) == ((j as int) < i && self@.stacks[j as int].top_stone == Some(Piece::BlackWall)),
            decreases n - i,
        {
            match self.stacks[i].top_stone {
                Some(Piece::WhiteFlat) => wf = wf.set(i as u8),
                Some(Piece::BlackFlat) => bf = bf.set(i as u8),
                Some(Piece::WhiteCap) => wc = wc.set(i as u8),
                Some(Piece::BlackCap) => bc = bc.set(i as u8),
                Some(Piece::WhiteWall) => ww = ww.set(i as u8),
                Some(Piece::BlackWall) => bw = bw.set(i as u8),
                None => {},
            }
            i = i + 1;
        }
        proof {
            lemma_marks(wf, self@, Piece::WhiteFlat);
            lemma_marks(bf, self@, Piece::BlackFlat);
            lemma_marks(wc, self@, Piece::WhiteCap);
            lemma_marks(bc, self@, Piece::BlackCap);
            lemma_marks(ww, self@, Piece::WhiteWall);
            lemma_marks(bw, self@, Piece::BlackWall);
        }
        (wf, bf, wc, bc, ww, bw)
    }
}

} // verus!

verus! {

proof fn lemma_edge_step<const S: usize>(p: PositionView<S>, g: Seq<u8>, x: int, l: int, e: int)
    ensures
        group_on_edge::<S>(p, g, x + 1, l, e) == (group_on_edge::<S>(p, g, x, l, e) || (0 <= x && g[x] == l && (
        p.stacks[x].top_stone matches Some(piece) && piece.spec_is_road_piece()) && on_edge::<S>(x, e))),
{
    if group_on_edge::<S>(p, g, x + 1, l, e) {
        let y = choose|y: int|
            0 <= y < x + 1 && #[trigger] g[y] == l && (p.stacks[y].top_stone matches Some(piece)
                && piece.spec_is_road_piece()) && on_edge::<S>(y, e);
        if y < x {
            assert(g[y] == l);
        }
    }
    if group_on_edge::<S>(p, g, x, l, e) {
        let y = choose|y: int|
            0 <= y < x && #[trigger] g[y] == l && (p.stacks[y].top_stone matches Some(piece)
                && piece.spec_is_road_piece()) && on_edge::<S>(y, e);
        assert(g[y] == l);
    }
    if 0 <= x && g[x] == l && (p.stacks[x].top_stone matches Some(piece) && piece.spec_is_road_piece()) && on_edge::<S>(x, e) {
        assert(g[x] == l);
    }
}

impl<const S: usize> Position<S> {
    /// The number of squares of each label, and the edges that the road pieces of each label touch.
    fn count_groups(&self, groups: &AbstractBoard<u8, S>) -> (amount: Vec<(u8, GroupEdgeConnection)>)
        requires
            self.wf(),
            groups@.len() == S * S,
            forall|x: int| 0 <= x < S * S ==> #[trigger] groups@[x] <= S * S,
        ensures
            amount@.len() == S * S + 1,
            forall|l: int|
                0 <= l <= S * S ==> {
                    &&& (#[trigger] amount@[l]).0 == count_label(groups@, S * S, l)
                    &&& amount@[l].1.north() == group_on_edge::<S>(self@, groups@, S * S, l, 0)
                    &&& amount@[l].1.south() == group_on_edge::<S>(self@, groups@, S * S, l, 1)
                    &&& amount@[l].1.west() == group_on_edge::<S>(self@, groups@, S * S, l, 2)
                    &&& amount@[l].1.east() == group_on_edge::<S>(self@, groups@, S * S, l, 3)
                },
    {
        proof {
            lemma_size::<S>();
        }
        let n = S * S;
        let ghost g = groups@;
        let ghost p = self@;
        let mut amount: Vec<(u8, GroupEdgeConnection)> = Vec::new();
        let mut l: usize = 0;
        while l <= n
            invariant
                n == S * S,
                n <= 64,
                l <= n + 1,
                amount@.len() == l,
                forall|m: int| 0 <= m < l ==> (#[trigger] amount@[m]).0 == 0 && amount@[m].1.data == 0,
            decreases n + 1 - l,
        {
            amount.push((0, GroupEdgeConnection::empty()));
            l = l + 1;
        }
        proof {
            assert forall|m: int| 0 <= m <= S * S implies {
                &&& (#[trigger] amount@[m]).0 == count_label(g, 0, m)
                &&& amount@[m].1.north() == group_on_edge::<S>(p, g, 0, m, 0)
                &&& amount@[m].1.south() == group_on_edge::<S>(p, g, 0, m, 1)
                &&& amount@[m].1.west() == group_on_edge::<S>(p, g, 0, m, 2)
                &&& amount@[m].1.east() == group_on_edge::<S>(p, g, 0, m, 3)
            } by {
                let d = amount@[m].1.data;
                assert(d == 0);
                assert(d & 0b1000 == 0 && d & 0b100 == 0 && d & 0b10 == 0 && d & 1 == 0) by (bit_vector)
                    requires
                        d == 0,
                ;
            }
        }
        let mut x: usize = 0;
        while x < n
            invariant
                self.wf(),
                n == S * S,
                n <= 64,
                x <= n,
                g == groups@,
                p == self@,
                g.len() == n,
                forall|y: int| 0 <= y < S * S ==> #[trigger] g[y] <= S * S,
                amount@.len() == n + 1,
                forall|m: int|
                    0 <= m <= S * S ==> {
                        &&& (#[trigger] amount@[m]).0 == count_label(g, x as int, m)
                        &&& amount@[m].0 <= x
                        &&& amount@[m].1.north() == group_on_edge::<S>(p, g, x as int, m, 0)
                        &&& amount@[m].1.south() == group_on_edge::<S>(p, g, x as int, m, 1)
                        &&& amount@[m].1.west() == group_on_edge::<S>(p, g, x as int, m, 2)
                        &&& amount@[m].1.east() == group_on_edge::<S>(p, g, x as int, m, 3)
                    },
            decreases n - x,
        {
            let square = Square::<S>::from_u8(x as u8);
            let label = groups.get(square) as usize;
            let (count, connection) = amount[label];
            let is_road = match self.stacks[x].top_stone {
                Some(piece) => piece.is_road_piece(),
                None => false,
            };
            let new_connection = if is_road {
                connection.union(square.group_edge_connection())
            } else {
                connection
            };
            amount.set(label, (count + 1, new_connection));
            proof {
                assert forall|m: int| 0 <= m <= S * S implies {
                    &&& (#[trigger] amount@[m]).0 == count_label(g, x + 1, m)
                    &&& amount@[m].0 <= x + 1
                    &&& amount@[m].1.north() == group_on_edge::<S>(p, g, x + 1, m, 0)
                    &&& amount@[m].1.south() == group_on_edge::<S>(p, g, x + 1, m, 1)
                    &&& amount@[m].1.west() == group_on_edge::<S>(p, g, x + 1, m, 2)
                    &&& amount@[m].1.east() == group_on_edge::<S>(p, g, x + 1, m, 3)
                } by {
                    lemma_edge_step::<S>(p, g, x as int, m, 0);
                    lemma_edge_step::<S>(p, g, x as int, m, 1);
                    lemma_edge_step::<S>(p, g, x as int, m, 2);
                    lemma_edge_step::<S>(p, g, x as int, m, 3);
                }
            }
            x = x + 1;
        }
        amount
    }
}

} // verus!

verus! {

impl<const S: usize> Position<S> {
    /// The top pieces of the position sorted by kind, and the groups of road pieces of each player.
    #[verifier::spinoff_prover]
    fn groups_and_pieces(&self) -> (group_data: GroupData<S>)
        requires
            self.wf(),
        ensures
            exists|white_end: int, black_end: int| #[trigger] group_data.describes(self@, white_end, black_end),
    {
        proof {
            lemma_size::<S>();
        }
        let ghost p = self@;
        let (wf, bf, wc, bc, ww, bw) = self.top_stone_boards();
        let white_road = wf.or(wc);
        let black_road = bf.or(bc);
        proof {
            assert forall|x: u64| x < 64 implies #[trigger] bit(white_road.board, x) == is_road_at::<S>(p, Color::White, x as int) by {
                assert(white_road.contains(x) == (bit(wf.board, x) || bit(wc.board, x)));
            }
            assert forall|x: u64| x < 64 implies #[trigger] bit(black_road.board, x) == is_road_at::<S>(p, Color::Black, x as int) by {
                assert(black_road.contains(x) == (bit(bf.board, x) || bit(bc.board, x)));
            }
            lemma_road_bits::<S>(white_road.board, p, Color::White);
            lemma_road_bits::<S>(black_road.board, p, Color::Black);
        }
        let mut groups: AbstractBoard<u8, S> = AbstractBoard::new_with_value(0u8);
        let ghost g0 = groups@;
        proof {
            lemma_zeros_bound(g0);
        }
        let mut highest_component_id: u8 = 1;
        connected_components_graph(white_road, &mut groups, &mut highest_component_id);
        let white_end = highest_component_id;
        let ghost g1 = groups@;
        proof {
            lemma_zeros_bound(g1);
            assert forall|x: int| 0 <= x < S * S && bit(black_road.board, x as u64) implies #[trigger] groups@[x] == 0 by {
                assert(!bit(white_road.board, x as u64));
                assert(g1[x] == g0[x]);
            }
            assert forall|x: int| 0 <= x < S * S implies #[trigger] groups@[x] < highest_component_id by {
                if !bit(white_road.board, x as u64) {
                    assert(g1[x] == g0[x]);
                }
            }
        }
        connected_components_graph(black_road, &mut groups, &mut highest_component_id);
        let ghost g2 = groups@;
        let ghost we = white_end as int;
        let ghost be = highest_component_id as int;
        proof {
            let roots = choose|roots: Seq<int>| groups_ok::<S>(white_road.board, g1, 1, we, roots);
            assert forall|x: int| 0 <= x < S * S && bit(white_road.board, x as u64) implies #[trigger] g1[x] == g2[x] by {
                assert(!bit(black_road.board, x as u64));
            }
            lemma_groups_ok_frame::<S>(white_road.board, g1, g2, 1, we, roots);
            assert forall|x: int| 0 <= x < S * S implies #[trigger] g2[x] <= S * S by {
                if bit(black_road.board, x as u64) {
                } else if bit(white_road.board, x as u64) {
                    assert(g2[x] == g1[x]);
                } else {
                    assert(g2[x] == g1[x] && g1[x] == g0[x]);
                }
            }
        }
        let amount_in_group = self.count_groups(&groups);
        let group_data = GroupData {
            groups,
            amount_in_group,
            white_flat_stones: wf,
            black_flat_stones: bf,
            white_caps: wc,
            black_caps: bc,
            white_walls: ww,
            black_walls: bw,
            white_critical_squares: BitBoard::empty(),
            black_critical_squares: BitBoard::empty(),
        };
        proof {
            assert forall|x: int| 0 <= x < S * S implies {
                &&& is_road_at::<S>(p, Color::White, x) ==> 1 <= #[trigger] g2[x] < we
                &&& is_road_at::<S>(p, Color::Black, x) ==> we <= g2[x] < be
                &&& !is_road_at::<S>(p, Color::White, x) && !is_road_at::<S>(p, Color::Black, x) ==> g2[x] == 0
            } by {
                assert(bit(white_road.board, x as u64) == is_road_at::<S>(p, Color::White, x as int));
                assert(bit(black_road.board, x as u64) == is_road_at::<S>(p, Color::Black, x as int));
                if !bit(black_road.board, x as u64) {
                    assert(g2[x] == g1[x]);
                }
                if !bit(white_road.board, x as u64) {
                    assert(g1[x] == g0[x]);
                }
            }
            assert(1 <= we <= be <= S * S + 1);
            assert(group_data.groups@ == g2);
            assert(forall|l: int|
                0 <= l <= S * S ==> {
                    &&& (#[trigger] group_data.amount_in_group@[l]).0 == count_label(g2, S * S, l)
                    &&& group_data.amount_in_group@[l].1.north() == group_on_edge::<S>(p, g2, S * S, l, 0)
                    &&& group_data.amount_in_group@[l].1.south() == group_on_edge::<S>(p, g2, S * S, l, 1)
                    &&& group_data.amount_in_group@[l].1.west() == group_on_edge::<S>(p, g2, S * S, l, 2)
                    &&& group_data.amount_in_group@[l].1.east() == group_on_edge::<S>(p, g2, S * S, l, 3)
                });
            assert(exists|roots: Seq<int>| groups_ok::<S>(road_bits::<S>(p, Color::White), g2, 1, we, roots));
            assert(exists|roots: Seq<int>| groups_ok::<S>(road_bits::<S>(p, Color::Black), g2, we, be, roots));
            assert(group_data.describes(p, we, be));
        }
        group_data
    }

    /// The top pieces of the position sorted by kind, the groups of road pieces of each player,
    /// and the squares where a road piece would make a road.
    pub fn group_data(&self) -> (group_data: GroupData<S>)
        requires
            self.wf(),
        ensures
            exists|white_end: int, black_end: int| #[trigger] group_data.describes(self@, white_end, black_end),
            group_data.criticals_described(self@),
    {
        let group_data = self.groups_and_pieces();
        with_critical_squares(group_data, Ghost(self@))
    }
}

/// A road piece of `color` on square `x` would reach the edge that `edge` picks: the square
/// lies on that edge, or a neighbouring square holds a road piece of `color` whose group, as
/// the labels `g` give it, has a road piece on that edge.
pub open spec fn reaches_edge<const S: usize>(p: PositionView<S>, g: Seq<u8>, color: Color, x: int, edge: int) -> bool {
    ||| on_edge::<S>(x, edge)
    ||| exists|d: Direction|
        #![trigger (Square::<S> { inner: x as u8 }).spec_go_direction(d)]
        match (Square::<S> { inner: x as u8 }).spec_go_direction(d) {
            Some(y) => is_road_at::<S>(p, color, y.inner as int) && group_on_edge::<S>(
                p,
                g,
                S * S,
                g[y.inner as int] as int,
                edge,
            ),
            None => false,
        }
}

/// A road piece of `color` would reach an edge through a neighbour exactly when the group
/// data records that the neighbour's group touches it.
proof fn lemma_would_join_reaches<const S: usize>(
    gd: GroupData<S>,
    p: PositionView<S>,
    white_end: int,
    black_end: int,
    color: Color,
    x: int,
    edge: int,
)
    requires
        gd.describes(p, white_end, black_end),
        0 <= edge < 4,
    ensures
        would_join::<S>(p, gd.groups@, gd.amount_in_group@, color, x, edge) == reaches_edge::<S>(
            p,
            gd.groups@,
            color,
            x,
            edge,
        ),
{
    let g = gd.groups@;
    let amount = gd.amount_in_group@;
    let sq = Square::<S> { inner: x as u8 };
    assert forall|d: Direction| #[trigger] neighbor_touches::<S>(p, g, amount, color, x, d, edge) == match sq.spec_go_direction(d) {
        Some(y) => is_road_at::<S>(p, color, y.inner as int) && group_on_edge::<S>(p, g, S * S, g[y.inner as int] as int, edge),
        None => false,
    } by {
        match sq.spec_go_direction(d) {
            Some(y) => {
                let yi = y.inner as int;
                if is_road_at::<S>(p, color, yi) {
                    let l = g[yi] as int;
                    assert(0 <= yi < S * S);
                    assert(l <= S * S);
                    assert(0 <= l <= S * S);
                    assert(amount[l].1.north() == group_on_edge::<S>(p, g, S * S, l, 0));
                    assert(amount[l].1.south() == group_on_edge::<S>(p, g, S * S, l, 1));
                    assert(amount[l].1.west() == group_on_edge::<S>(p, g, S * S, l, 2));
                    assert(amount[l].1.east() == group_on_edge::<S>(p, g, S * S, l, 3));
                }
            },
            None => {},
        }
    }
    if reaches_edge::<S>(p, g, color, x, edge) && !on_edge::<S>(x, edge) {
        let d = choose|d: Direction|
            #![trigger sq.spec_go_direction(d)]
            match sq.spec_go_direction(d) {
                Some(y) => is_road_at::<S>(p, color, y.inner as int) && group_on_edge::<S>(p, g, S * S, g[y.inner as int] as int, edge),
                None => false,
            };
        assert(neighbor_touches::<S>(p, g, amount, color, x, d, edge));
        match d {
            Direction::North => {},
            Direction::West => {},
            Direction::East => {},
            Direction::South => {},
        }
    }
    if would_join::<S>(p, g, amount, color, x, edge) && !on_edge::<S>(x, edge) {
        if neighbor_touches::<S>(p, g, amount, color, x, Direction::North, edge) {
            assert(sq.spec_go_direction(Direction::North) is Some);
        } else if neighbor_touches::<S>(p, g, amount, color, x, Direction::West, edge) {
            assert(sq.spec_go_direction(Direction::West) is Some);
        } else if neighbor_touches::<S>(p, g, amount, color, x, Direction::East, edge) {
            assert(sq.spec_go_direction(Direction::East) is Some);
        } else {
            assert(neighbor_touches::<S>(p, g, amount, color, x, Direction::South, edge));
            assert(sq.spec_go_direction(Direction::South) is Some);
        }
    }
}

/// The critical squares of a player are the squares where one of their road pieces would
/// join two opposite edges, north and south as much as west and east: on an edge, or
/// through the groups of their road pieces next to it.
pub proof fn lemma_critical_squares_join_edges<const S: usize>(
    gd: GroupData<S>,
    p: PositionView<S>,
    white_end: int,
    black_end: int,
    x: u64,
)
    requires
        gd.describes(p, white_end, black_end),
        gd.criticals_described(p),
        x < S * S,
        x < 64,
    ensures
        gd.white_critical_squares.contains(x) <==> {
            ||| reaches_edge::<S>(p, gd.groups@, Color::White, x as int, 0) && reaches_edge::<S>(p, gd.groups@, Color::White, x as int, 1)
            ||| reaches_edge::<S>(p, gd.groups@, Color::White, x as int, 2) && reaches_edge::<S>(p, gd.groups@, Color::White, x as int, 3)
        },
        gd.black_critical_squares.contains(x) <==> {
            ||| reaches_edge::<S>(p, gd.groups@, Color::Black, x as int, 0) && reaches_edge::<S>(p, gd.groups@, Color::Black, x as int, 1)
            ||| reaches_edge::<S>(p, gd.groups@, Color::Black, x as int, 2) && reaches_edge::<S>(p, gd.groups@, Color::Black, x as int, 3)
        },
{
    lemma_would_join_reaches(gd, p, white_end, black_end, Color::White, x as int, 0);
    lemma_would_join_reaches(gd, p, white_end, black_end, Color::White, x as int, 1);
    lemma_would_join_reaches(gd, p, white_end, black_end, Color::White, x as int, 2);
    lemma_would_join_reaches(gd, p, white_end, black_end, Color::White, x as int, 3);
    lemma_would_join_reaches(gd, p, white_end, black_end, Color::Black, x as int, 0);
    lemma_would_join_reaches(gd, p, white_end, black_end, Color::Black, x as int, 1);
    lemma_would_join_reaches(gd, p, white_end, black_end, Color::Black, x as int, 2);
    lemma_would_join_reaches(gd, p, white_end, black_end, Color::Black, x as int, 3);
    assert(gd.white_critical_squares.contains(x) == spec_is_critical::<S>(p, gd.groups@, gd.amount_in_group@, Color::White, x as int));
    assert(gd.black_critical_squares.contains(x) == spec_is_critical::<S>(p, gd.groups@, gd.amount_in_group@, Color::Black, x as int));
}

} // verus!
