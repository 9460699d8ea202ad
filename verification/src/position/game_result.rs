//! The end of the game: repetition, roads, and the flat count.
use vstd::prelude::*;

use super::bits::{bit, popcount, popcount_below};
use super::group_data::{count_label, is_road_at, marks, road_bits, spec_has_road, GroupData};
use super::position_gen::count_tops;
use super::roads::{first_column, first_line, groups_ok, label_spans, last_column, last_line, lemma_has_road_iff};
use super::square::{lemma_size, valid_size, Square};
use super::utils::{AbstractBoard, Color, GameResult, Piece};
use super::{Position, PositionView};

verus! {

/// Some square of the first line, starting at `start`, has label `id`.
fn line_has<const S: usize>(components: &AbstractBoard<u8, S>, start: usize, id: u8) -> (b: bool)
    requires
        valid_size(S),
        components@.len() == S * S,
        start + S <= S * S,
    ensures
        b == exists|a: int| start <= a < start + S && #[trigger] components@[a] == id,
{
    proof {
        lemma_size::<S>();
    }
    let mut x: usize = 0;
    while x < S
        invariant
            valid_size(S),
            S * S <= 64,
            components@.len() == S * S,
            start + S <= S * S,
            x <= S,
            forall|a: int| start <= a < start + x ==> #[trigger] components@[a] != id,
        decreases S - x,
    {
        if components.raw[start + x] == id {
            return true;
        }
        x = x + 1;
    }
    false
}

/// Some square of the column `column` has label `id`.
fn column_has<const S: usize>(components: &AbstractBoard<u8, S>, column: usize, id: u8) -> (b: bool)
    requires
        valid_size(S),
        components@.len() == S * S,
        column < S,
    ensures
        b == exists|y: int| 0 <= y < S && #[trigger] components@[y * S + column] == id,
{
    proof {
        lemma_size::<S>();
    }
    let mut y: usize = 0;
    while y < S
        invariant
            valid_size(S),
            S * S <= 64,
            components@.len() == S * S,
            column < S,
            y <= S,
            forall|z: int| 0 <= z < y ==> #[trigger] components@[z * S + column] != id,
        decreases S - y,
    {
        proof {
            assert(y * S + column < S * S) by (nonlinear_arith)
                requires
                    y < S,
                    column < S,
            ;
        }
        if components.raw[y * S + column] == id {
            return true;
        }
        y = y + 1;
    }
    false
}

/// Whether label `id` joins two opposite edges.
fn label_spans_exec<const S: usize>(components: &AbstractBoard<u8, S>, id: u8) -> (b: bool)
    requires
        valid_size(S),
        components@.len() == S * S,
    ensures
        b == label_spans::<S>(components@, id as int),
{
    proof {
        lemma_size::<S>();
        assert((S - 1) * S + S == S * S) by (nonlinear_arith);
        assert(S <= S * S) by (nonlinear_arith)
            requires
                S >= 1,
        ;
    }
    let ghost g = components@;
    let first = line_has(components, 0, id);
    let last = line_has(components, S * S - S, id);
    let west = column_has(components, 0, id);
    let east = column_has(components, S - 1, id);
    proof {
        let l = id as int;
        assert(first == exists|a: int| first_line::<S>(a) && #[trigger] g[a] == l);
        assert(last == exists|a: int| last_line::<S>(a) && #[trigger] g[a] == l);
        if west {
            let y = choose|y: int| 0 <= y < S && #[trigger] g[y * S + 0] == id;
            assert(first_column::<S>(y * S + 0));
        }
        if exists|a: int| first_column::<S>(a) && #[trigger] g[a] == l {
            let a = choose|a: int| first_column::<S>(a) && #[trigger] g[a] == l;
            let y = choose|y: int| 0 <= y < S && a == #[trigger] (y * S);
            assert(g[y * S + 0] == id);
        }
        if east {
            let y = choose|y: int| 0 <= y < S && #[trigger] g[y * S + (S - 1)] == id;
            assert(last_column::<S>(y * S + (S - 1)));
        }
        if exists|a: int| last_column::<S>(a) && #[trigger] g[a] == l {
            let a = choose|a: int| last_column::<S>(a) && #[trigger] g[a] == l;
            let y = choose|y: int| 0 <= y < S && a == #[trigger] (y * S) + S - 1;
            assert(g[y * S + (S - 1)] == id);
        }
    }
    (first && last) || (west && east)
}

/// The first square with label `id`.
fn first_square_with<const S: usize>(components: &AbstractBoard<u8, S>, id: u8) -> (sq: Square<S>)
    requires
        valid_size(S),
        components@.len() == S * S,
        exists|a: int| 0 <= a < S * S && #[trigger] components@[a] == id,
    ensures
        sq.valid(),
        components@[sq.inner as int] == id,
{
    proof {
        lemma_size::<S>();
    }
    let mut x: usize = 0;
    while x < S * S
        invariant
            valid_size(S),
            S * S <= 64,
            components@.len() == S * S,
            exists|a: int| x <= a < S * S && #[trigger] components@[a] == id,
        decreases S * S - x,
    {
        if components.raw[x] == id {
            return Square::from_u8(x as u8);
        }
        x = x + 1;
    }
    Square::from_u8(0)
}

/// The labels below `highest` are given to pieces of one color each.
pub open spec fn labels_colored<const S: usize>(p: super::PositionView<S>, g: Seq<u8>, highest: int) -> bool {
    forall|x: int|
        0 <= x < S * S && 1 <= #[trigger] g[x] < highest ==> p.stacks[x].top_stone is Some && forall|y: int|
            0 <= y < S * S && #[trigger] g[y] == g[x] ==> p.stacks[y].top_stone is Some
                && p.stacks[y].top_stone.unwrap().spec_color() == p.stacks[x].top_stone.unwrap().spec_color()
}

impl<const S: usize> Position<S> {
    /// Check if either side has completed a road
    /// Returns one of the winning squares in the road
    pub fn is_win_by_road(&self, components: &AbstractBoard<u8, S>, highest_component_id: u8) -> (r: Option<Square<S>>)
        requires
            self.wf(),
            components@.len() == S * S,
            labels_colored::<S>(self@, components@, highest_component_id as int),
        ensures
            r is None <==> forall|l: int| 1 <= l < highest_component_id ==> !#[trigger] label_spans::<S>(components@, l),
            r matches Some(sq) ==> {
                let l = components@[sq.inner as int];
                &&& sq.valid()
                &&& 1 <= l < highest_component_id
                &&& label_spans::<S>(components@, l as int)
                &&& self@.stacks[sq.inner as int].top_stone is Some
                &&& self@.stacks[sq.inner as int].top_stone.unwrap().spec_color() == self.to_move ==> forall|m: int|
                    1 <= m < highest_component_id && #[trigger] label_spans::<S>(components@, m) ==> forall|y: int|
                        0 <= y < S * S && components@[y] == m ==> self@.stacks[y].top_stone.unwrap().spec_color()
                            == self.to_move
            },
    {
        let ghost g = components@;
        // If the side to move is already winning,
        // the last move was either a suicide, or a double win
        let mut suicide_win_square: Option<Square<S>> = None;
        let mut id: u8 = 1;
        while id < highest_component_id
            invariant
                self.wf(),
                g == components@,
                g.len() == S * S,
                labels_colored::<S>(self@, g, highest_component_id as int),
                1 <= id,
                id <= highest_component_id || id == 1,
                suicide_win_square is None <==> forall|l: int| 1 <= l < id ==> !#[trigger] label_spans::<S>(g, l),
                suicide_win_square matches Some(sq) ==> {
                    let l = g[sq.inner as int];
                    &&& sq.valid()
                    &&& 1 <= l < id
                    &&& label_spans::<S>(g, l as int)
                    &&& self@.stacks[sq.inner as int].top_stone is Some
                    &&& self@.stacks[sq.inner as int].top_stone.unwrap().spec_color() == self.to_move
                },
                forall|m: int|
                    1 <= m < id && #[trigger] label_spans::<S>(g, m) ==> forall|y: int|
                        0 <= y < S * S && g[y] == m ==> self@.stacks[y].top_stone.unwrap().spec_color() == self.to_move,
            decreases highest_component_id - id,
        {
            if label_spans_exec(components, id) {
                proof {
                    let l = id as int;
                    let a = if exists|a: int| first_line::<S>(a) && #[trigger] g[a] == l {
                        choose|a: int| first_line::<S>(a) && #[trigger] g[a] == l
                    } else {
                        let a = choose|a: int| first_column::<S>(a) && #[trigger] g[a] == l;
                        let y = choose|y: int| 0 <= y < S && a == #[trigger] (y * S);
                        assert(0 <= y * S < S * S) by (nonlinear_arith)
                            requires
                                0 <= y < S,
                        ;
                        a
                    };
                    assert(S <= S * S) by (nonlinear_arith)
                        requires
                            S >= 1,
                    ;
                    assert(0 <= a < S * S && g[a] == id);
                }
                let square = first_square_with(components, id);
                let top = self.stacks[square.inner as usize].top_stone;
                proof {
                    assert(1 <= g[square.inner as int] < highest_component_id);
                }
                let color = match top {
                    Some(piece) => piece.color(),
                    None => self.to_move,
                };
                if color == self.side_to_move() {
                    suicide_win_square = Some(square);
                    proof {
                        assert forall|y: int| 0 <= y < S * S && g[y] == id implies self@.stacks[y].top_stone.unwrap().spec_color()
                            == self.to_move by {
                            assert(g[y] == g[square.inner as int]);
                        }
                    }
                } else {
                    proof {
                        assert(label_spans::<S>(g, g[square.inner as int] as int));
                    }
                    return Some(square);
                }
            }
            id = id + 1;
        }
        proof {
            if highest_component_id >= 1 {
                assert(id == highest_component_id);
            }
            assert(suicide_win_square is None <==> forall|l: int|
                1 <= l < highest_component_id ==> !#[trigger] label_spans::<S>(g, l));
        }
        suicide_win_square
    }
}

} // verus!

verus! {

/// How a game ended.
#[derive(Clone, Copy, PartialEq, Eq, Structural, Debug)]
pub enum DetailedGameResult {
    WhiteRoadWin,
    BlackRoadWin,
    WhiteFlatWin,
    BlackFlatWin,
    Draw,
}

impl DetailedGameResult {
    pub open spec fn spec_game_result(self) -> GameResult {
        match self {
            DetailedGameResult::WhiteRoadWin => GameResult::WhiteWin,
            DetailedGameResult::BlackRoadWin => GameResult::BlackWin,
            DetailedGameResult::WhiteFlatWin => GameResult::WhiteWin,
            DetailedGameResult::BlackFlatWin => GameResult::BlackWin,
            DetailedGameResult::Draw => GameResult::Draw,
        }
    }

    pub fn game_result(&self) -> (r: GameResult)
        ensures
            r == self.spec_game_result(),
    {
        match self {
            DetailedGameResult::WhiteRoadWin => GameResult::WhiteWin,
            DetailedGameResult::BlackRoadWin => GameResult::BlackWin,
            DetailedGameResult::WhiteFlatWin => GameResult::WhiteWin,
            DetailedGameResult::BlackFlatWin => GameResult::BlackWin,
            DetailedGameResult::Draw => GameResult::Draw,
        }
    }

    /// The result as PTN writes it.
    pub fn result_str(&self) -> (s: &'static str)
        ensures
            s@ == match self {
                DetailedGameResult::WhiteRoadWin => "R-0"@,
                DetailedGameResult::BlackRoadWin => "0-R"@,
                DetailedGameResult::WhiteFlatWin => "F-0"@,
                DetailedGameResult::BlackFlatWin => "0-F"@,
                DetailedGameResult::Draw => "1/2-1/2"@,
            },
    {
        match self {
            DetailedGameResult::WhiteRoadWin => "R-0",
            DetailedGameResult::BlackRoadWin => "0-R",
            DetailedGameResult::WhiteFlatWin => "F-0",
            DetailedGameResult::BlackFlatWin => "0-F",
            DetailedGameResult::Draw => "1/2-1/2",
        }
    }
}

/// The number of times `h` occurs in `s`.
pub open spec fn count_eq(s: Seq<u64>, h: u64) -> nat
    decreases s.len(),
{
    if s.len() == 0 {
        0
    } else {
        count_eq(s.drop_last(), h) + if s.last() == h {
            1nat
        } else {
            0nat
        }
    }
}

/// Every square holds a piece.
pub open spec fn board_full<const S: usize>(p: PositionView<S>) -> bool {
    forall|x: int| 0 <= x < S * S ==> (#[trigger] p.stacks[x]).top_stone is Some
}

pub open spec fn road_win(color: Color) -> DetailedGameResult {
    if color == Color::White {
        DetailedGameResult::WhiteRoadWin
    } else {
        DetailedGameResult::BlackRoadWin
    }
}

pub open spec fn flat_win(result: GameResult) -> DetailedGameResult {
    match result {
        GameResult::WhiteWin => DetailedGameResult::WhiteFlatWin,
        GameResult::BlackWin => DetailedGameResult::BlackFlatWin,
        GameResult::Draw => DetailedGameResult::Draw,
    }
}

/// How the game stands: drawn once the position has occurred twice before; won by the player
/// who just moved if he has a road, else by the player to move if he has one; decided by the
/// flat count, with komi, when a player has no pieces left or the board is full; else going on.
pub open spec fn spec_detailed_game_result<const S: usize>(p: PositionView<S>) -> Option<DetailedGameResult> {
    if count_eq(p.hash_history, p.hash) >= 2 {
        Some(DetailedGameResult::Draw)
    } else if spec_has_road::<S>(p, p.to_move.spec_flip()) {
        Some(road_win(p.to_move.spec_flip()))
    } else if spec_has_road::<S>(p, p.to_move) {
        Some(road_win(p.to_move))
    } else if (p.white_stones_left == 0 && p.white_caps_left == 0) || (p.black_stones_left == 0
        && p.black_caps_left == 0) || board_full::<S>(p) {
        Some(
            flat_win(
                p.komi.spec_flat_result(
                    count_tops(p.stacks, S * S, Piece::WhiteFlat) as int,
                    count_tops(p.stacks, S * S, Piece::BlackFlat) as int,
                ),
            ),
        )
    } else {
        None
    }
}

/// The result a game ends with, by the rules: a position seen twice before is a draw; a
/// road wins for its owner, the player who just moved first when both have one; once the
/// board is full or a player has no pieces left, the flat count decides, a draw exactly when
/// the flats (two half flats each) are level after black's komi; otherwise the game goes on.
pub proof fn lemma_game_result_rules<const S: usize>(p: PositionView<S>)
    ensures
        ({
            let r = spec_detailed_game_result::<S>(p);
            let mover = p.to_move.spec_flip();
            let repeated = count_eq(p.hash_history, p.hash) >= 2;
            let no_roads = !spec_has_road::<S>(p, Color::White) && !spec_has_road::<S>(p, Color::Black);
            let over = (p.white_stones_left == 0 && p.white_caps_left == 0) || (p.black_stones_left == 0
                && p.black_caps_left == 0) || board_full::<S>(p);
            let w = count_tops(p.stacks, S * S, Piece::WhiteFlat) as int;
            let b = count_tops(p.stacks, S * S, Piece::BlackFlat) as int;
            &&& repeated ==> r == Some(DetailedGameResult::Draw)
            &&& !repeated && spec_has_road::<S>(p, mover) ==> r is Some && r.unwrap().spec_game_result() == (if mover
                == Color::White {
                GameResult::WhiteWin
            } else {
                GameResult::BlackWin
            })
            &&& !repeated && spec_has_road::<S>(p, Color::White) && !spec_has_road::<S>(p, Color::Black) ==> r
                == Some(DetailedGameResult::WhiteRoadWin)
            &&& !repeated && spec_has_road::<S>(p, Color::Black) && !spec_has_road::<S>(p, Color::White) ==> r
                == Some(DetailedGameResult::BlackRoadWin)
            &&& !repeated && no_roads && over ==> r is Some && (r.unwrap() == DetailedGameResult::Draw <==> 2 * w == 2
                * b + p.komi.half_komi) && (r.unwrap() == DetailedGameResult::WhiteFlatWin <==> 2 * w > 2 * b
                + p.komi.half_komi) && (r.unwrap() == DetailedGameResult::BlackFlatWin <==> 2 * w < 2 * b
                + p.komi.half_komi)
            &&& r is None <==> !repeated && no_roads && !over
        }),
{
    let w = count_tops(p.stacks, S * S, Piece::WhiteFlat) as int;
    let b = count_tops(p.stacks, S * S, Piece::BlackFlat) as int;
    crate::position::utils::lemma_flat_result(p.komi, w, b);
    if p.to_move == Color::White {
        assert(p.to_move.spec_flip() == Color::Black);
    } else {
        assert(p.to_move.spec_flip() == Color::White);
    }
}

/// The flat count fits the arithmetic of the count: the difference, doubled and less the komi,
/// is an `i8`.
pub open spec fn flat_count_fits<const S: usize>(p: PositionView<S>) -> bool {
    let d = 2 * (count_tops(p.stacks, S * S, Piece::WhiteFlat) - count_tops(p.stacks, S * S, Piece::BlackFlat));
    -128 <= d <= 127 && -128 <= d - p.komi.half_komi <= 127
}

proof fn lemma_popcount_tops<const S: usize>(b: u64, p: PositionView<S>, piece: Piece, n: int)
    requires
        marks::<S>(b, p, piece),
        0 <= n <= 64,
        S * S <= 64,
    ensures
        popcount_below(b, n as nat) == if n <= S * S {
            count_tops(p.stacks, n, piece)
        } else {
            count_tops(p.stacks, S * S, piece)
        },
    decreases n,
{
    if n > 0 {
        lemma_popcount_tops::<S>(b, p, piece, n - 1);
        assert(bit(b, (n - 1) as u64) == ((n - 1) < S * S && p.stacks[n - 1].top_stone == Some(piece)));
    }
}

proof fn lemma_popcount_full(b: u64, n: int, m: int)
    requires
        0 <= n <= m <= 64,
        forall|x: u64| n <= x < 64 ==> !#[trigger] bit(b, x),
    ensures
        popcount_below(b, m as nat) == popcount_below(b, n as nat),
        popcount_below(b, n as nat) <= n,
        popcount_below(b, n as nat) == n <==> forall|x: u64| x < n ==> #[trigger] bit(b, x),
    decreases m,
{
    if m > n {
        lemma_popcount_full(b, n, m - 1);
        assert(!bit(b, (m - 1) as u64));
    } else {
        lemma_popcount_all(b, n);
    }
}

proof fn lemma_popcount_all(b: u64, n: int)
    requires
        0 <= n <= 64,
    ensures
        popcount_below(b, n as nat) <= n,
        popcount_below(b, n as nat) == n <==> forall|x: u64| x < n ==> #[trigger] bit(b, x),
    decreases n,
{
    if n > 0 {
        lemma_popcount_all(b, n - 1);
        if popcount_below(b, n as nat) == n {
            assert forall|x: u64| x < n implies #[trigger] bit(b, x) by {
                if x < n - 1 {
                } else {
                    assert(x == n - 1);
                }
            }
        }
    }
}

proof fn lemma_count_label_positive(g: Seq<u8>, n: int, l: int, x: int)
    requires
        0 <= x < n,
        g[x] == l,
    ensures
        count_label(g, n, l) > 0,
    decreases n,
{
    if x < n - 1 {
        lemma_count_label_positive(g, n - 1, l, x);
    }
}

proof fn lemma_count_label_zero(g: Seq<u8>, n: int, l: int)
    requires
        forall|x: int| 0 <= x < n ==> #[trigger] g[x] != l,
    ensures
        count_label(g, n, l) == 0,
    decreases n,
{
    if n > 0 {
        lemma_count_label_zero(g, n - 1, l);
    }
}

} // verus!

verus! {

/// Some square has label `l`.
pub open spec fn label_used<const S: usize>(g: Seq<u8>, l: int) -> bool {
    exists|x: int| 0 <= x < S * S && #[trigger] g[x] == l
}

/// What the labels of the group data tell of the roads.
proof fn lemma_roads_from_groups<const S: usize>(p: PositionView<S>, gd: &GroupData<S>, we: int, be: int)
    requires
        valid_size(S),
        p.wf(),
        gd.describes(p, we, be),
    ensures
        labels_colored::<S>(p, gd.groups@, be),
        forall|x: int|
            0 <= x < S * S && 1 <= #[trigger] gd.groups@[x] < we ==> p.stacks[x].top_stone is Some
                && p.stacks[x].top_stone.unwrap().spec_color() == Color::White,
        forall|x: int|
            0 <= x < S * S && we <= #[trigger] gd.groups@[x] < be ==> p.stacks[x].top_stone is Some
                && p.stacks[x].top_stone.unwrap().spec_color() == Color::Black,
        spec_has_road::<S>(p, Color::White) <==> exists|l: int| 1 <= l < we && #[trigger] label_spans::<S>(gd.groups@, l),
        spec_has_road::<S>(p, Color::Black) <==> exists|l: int| we <= l < be && #[trigger] label_spans::<S>(gd.groups@, l),
        forall|l: int| 1 <= l < be ==> #[trigger] label_used::<S>(gd.groups@, l),
{
    lemma_size::<S>();
    let g = gd.groups@;
    let wr = road_bits::<S>(p, Color::White);
    let br = road_bits::<S>(p, Color::Black);
    let roots_w = choose|roots: Seq<int>| groups_ok::<S>(wr, g, 1, we, roots);
    let roots_b = choose|roots: Seq<int>| groups_ok::<S>(br, g, we, be, roots);
    assert(super::group_data::marks_road::<S>(wr, p, Color::White));
    assert(super::group_data::marks_road::<S>(br, p, Color::Black));
    assert forall|x: int| 0 <= x < S * S implies (bit(wr, x as u64) == is_road_at::<S>(p, Color::White, x)
        && bit(br, x as u64) == is_road_at::<S>(p, Color::Black, x)) by {
        assert(bit(wr, x as u64) == is_road_at::<S>(p, Color::White, (x as u64) as int));
        assert(bit(br, x as u64) == is_road_at::<S>(p, Color::Black, (x as u64) as int));
    }
    assert forall|x: int| 0 <= x < S * S && 1 <= #[trigger] g[x] < we implies is_road_at::<S>(p, Color::White, x) by {
        if is_road_at::<S>(p, Color::Black, x) {
        }
    }
    assert forall|x: int| 0 <= x < S * S && we <= #[trigger] g[x] < be implies is_road_at::<S>(p, Color::Black, x) by {
        if is_road_at::<S>(p, Color::White, x) {
        }
    }
    lemma_has_road_iff::<S>(wr, g, 1, we, roots_w);
    lemma_has_road_iff::<S>(br, g, we, be, roots_b);
    assert forall|l: int| 1 <= l < be implies #[trigger] label_used::<S>(g, l) by {
        if l < we {
            let r = roots_w[l - 1];
            assert(g[r] == l);
        } else {
            let r = roots_b[l - we];
            assert(g[r] == l);
        }
    }
}

impl<const S: usize> Position<S> {
    /// How the game stands, from the position and its group data.
    pub fn detailed_game_result(&self, group_data: &GroupData<S>) -> (r: Option<DetailedGameResult>)
        requires
            self.wf(),
            flat_count_fits::<S>(self@),
            exists|white_end: int, black_end: int| #[trigger] group_data.describes(self@, white_end, black_end),
        ensures
            r == spec_detailed_game_result::<S>(self@),
    {
        proof {
            lemma_size::<S>();
        }
        let ghost p = self@;
        let ghost (we, be) = choose|white_end: int, black_end: int|
            #[trigger] group_data.describes(self@, white_end, black_end);
        let mut repetitions: usize = 0;
        let mut i: usize = 0;
        while i < self.hash_history.len()
            invariant
                i <= self.hash_history.len(),
                repetitions == count_eq(self.hash_history@.subrange(0, i as int), self.hash),
                repetitions <= i,
            decreases self.hash_history.len() - i,
        {
            proof {
                assert(self.hash_history@.subrange(0, i + 1).drop_last() =~= self.hash_history@.subrange(0, i as int));
            }
            if self.hash_history[i] == self.hash {
                repetitions = repetitions + 1;
            }
            i = i + 1;
        }
        proof {
            assert(self.hash_history@.subrange(0, self.hash_history.len() as int) =~= self.hash_history@);
        }
        if repetitions >= 2 {
            return Some(DetailedGameResult::Draw);
        }
        proof {
            lemma_roads_from_groups::<S>(p, group_data, we, be);
        }
        let ghost g = group_data.groups@;
        // The labels in use are those below the first one that no square has.
        let n = S * S;
        let mut highest_component_id: usize = n + 1;
        let mut k: usize = 1;
        let mut found = false;
        while k <= n && !found
            invariant
                n == S * S,
                n <= 64,
                1 <= k <= n + 1,
                group_data.describes(p, we, be),
                g == group_data.groups@,
                forall|l: int| 1 <= l < be ==> #[trigger] label_used::<S>(g, l),
                !found ==> k <= be && highest_component_id == n + 1,
                found ==> highest_component_id == be,
            decreases n + 1 - k, if found { 0int } else { 1int },
        {
            if group_data.amount_in_group[k].0 == 0 {
                proof {
                    if k < be {
                        assert(label_used::<S>(g, k as int));
                        let x = choose|x: int| 0 <= x < S * S && #[trigger] g[x] == k;
                        lemma_count_label_positive(g, S * S, k as int, x);
                    }
                }
                highest_component_id = k;
                found = true;
            } else {
                proof {
                    if k >= be {
                        assert forall|x: int| 0 <= x < S * S implies #[trigger] g[x] != k by {
                            assert(g[x] < be) by {
                                if is_road_at::<S>(p, Color::White, x) {
                                } else if is_road_at::<S>(p, Color::Black, x) {
                                } else {
                                }
                            }
                        }
                        lemma_count_label_zero(g, S * S, k as int);
                    }
                }
                k = k + 1;
            }
        }
        proof {
            assert(highest_component_id == be);
        }
        if let Some(square) = self.is_win_by_road(&group_data.groups, highest_component_id as u8) {
            let color = match self.stacks[square.inner as usize].top_stone {
                Some(piece) => piece.color(),
                None => Color::White,
            };
            proof {
                let l = g[square.inner as int] as int;
                assert(label_spans::<S>(g, l));
                let c = color;
                if l < we {
                    assert(c == Color::White);
                    assert(spec_has_road::<S>(p, Color::White));
                } else {
                    assert(c == Color::Black);
                    assert(spec_has_road::<S>(p, Color::Black));
                }
                if c == self.to_move {
                    let o = self.to_move.spec_flip();
                    if spec_has_road::<S>(p, o) {
                        let m = if o == Color::White {
                            choose|m: int| 1 <= m < we && #[trigger] label_spans::<S>(g, m)
                        } else {
                            choose|m: int| we <= m < be && #[trigger] label_spans::<S>(g, m)
                        };
                        assert(label_used::<S>(g, m));
                        let y = choose|y: int| 0 <= y < S * S && #[trigger] g[y] == m;
                        assert(p.stacks[y].top_stone.unwrap().spec_color() == self.to_move);
                        assert(false);
                    }
                }
            }
            return if color == Color::White {
                Some(DetailedGameResult::WhiteRoadWin)
            } else {
                Some(DetailedGameResult::BlackRoadWin)
            };
        }
        let all = group_data.all_pieces();
        proof {
            assert forall|x: u64| S * S <= x < 64 implies !#[trigger] bit(all.board, x) by {
                assert(all.contains(x) == bit(all.board, x));
            }
            lemma_popcount_full(all.board, (S * S) as int, 64);
            assert forall|x: u64| x < S * S implies #[trigger] bit(all.board, x) == (p.stacks[x as int].top_stone is Some) by {
                assert(all.contains(x) == bit(all.board, x));
                assert(bit(group_data.white_flat_stones.board, x) == (p.stacks[x as int].top_stone == Some(Piece::WhiteFlat)));
                assert(bit(group_data.black_flat_stones.board, x) == (p.stacks[x as int].top_stone == Some(Piece::BlackFlat)));
                assert(bit(group_data.white_caps.board, x) == (p.stacks[x as int].top_stone == Some(Piece::WhiteCap)));
                assert(bit(group_data.black_caps.board, x) == (p.stacks[x as int].top_stone == Some(Piece::BlackCap)));
                assert(bit(group_data.white_walls.board, x) == (p.stacks[x as int].top_stone == Some(Piece::WhiteWall)));
                assert(bit(group_data.black_walls.board, x) == (p.stacks[x as int].top_stone == Some(Piece::BlackWall)));
                match p.stacks[x as int].top_stone {
                    Some(piece) => {
                        match piece {
                            Piece::WhiteFlat => {},
                            Piece::BlackFlat => {},
                            Piece::WhiteWall => {},
                            Piece::BlackWall => {},
                            Piece::WhiteCap => {},
                            Piece::BlackCap => {},
                        }
                    },
                    None => {},
                }
            }
            assert(board_full::<S>(p) == forall|x: u64| x < S * S ==> #[trigger] bit(all.board, x)) by {
                if board_full::<S>(p) {
                    assert forall|x: u64| x < S * S implies #[trigger] bit(all.board, x) by {
                        assert(p.stacks[x as int].top_stone is Some);
                    }
                }
                if forall|x: u64| x < S * S ==> #[trigger] bit(all.board, x) {
                    assert forall|x: int| 0 <= x < S * S implies (#[trigger] p.stacks[x]).top_stone is Some by {
                        assert(bit(all.board, x as u64));
                    }
                }
            }
        }
        if (self.white_stones_left == 0 && self.white_caps_left == 0) || (self.black_stones_left == 0
            && self.black_caps_left == 0) || all.count() as usize == n {
            // Count points
            proof {
                lemma_popcount_tops::<S>(group_data.white_flat_stones.board, p, Piece::WhiteFlat, 64);
                lemma_popcount_tops::<S>(group_data.black_flat_stones.board, p, Piece::BlackFlat, 64);
                lemma_count_tops_bound::<S>(p.stacks, S * S, Piece::WhiteFlat);
                lemma_count_tops_bound::<S>(p.stacks, S * S, Piece::BlackFlat);
            }
            let white_points = group_data.white_flat_stones.count() as i8;
            let black_points = group_data.black_flat_stones.count() as i8;
            let result = self.komi.game_result_with_flatcounts(white_points, black_points);
            Some(
                match result {
                    GameResult::WhiteWin => DetailedGameResult::WhiteFlatWin,
                    GameResult::BlackWin => DetailedGameResult::BlackFlatWin,
                    GameResult::Draw => DetailedGameResult::Draw,
                },
            )
        } else {
            None
        }
    }

    pub fn game_result_with_group_data(&self, group_data: &GroupData<S>) -> (r: Option<GameResult>)
        requires
            self.wf(),
            flat_count_fits::<S>(self@),
            exists|white_end: int, black_end: int| #[trigger] group_data.describes(self@, white_end, black_end),
        ensures
            r == match spec_detailed_game_result::<S>(self@) {
                Some(d) => Some(d.spec_game_result()),
                None => None,
            },
    {
        match self.detailed_game_result(group_data) {
            Some(result) => Some(result.game_result()),
            None => None,
        }
    }

    /// The result of the game, if it is over.
    pub fn game_result(&self) -> (r: Option<GameResult>)
        requires
            self.wf(),
            flat_count_fits::<S>(self@),
        ensures
            r == match spec_detailed_game_result::<S>(self@) {
                Some(d) => Some(d.spec_game_result()),
                None => None,
            },
    {
        self.game_result_with_group_data(&self.group_data())
    }

    /// The result of the game, as PTN writes it, if it is over.
    pub fn pgn_game_result(&self) -> (r: Option<&'static str>)
        requires
            self.wf(),
            flat_count_fits::<S>(self@),
        ensures
            r is Some <==> spec_detailed_game_result::<S>(self@) is Some,
            r matches Some(s) ==> s@ == match spec_detailed_game_result::<S>(self@).unwrap() {
                DetailedGameResult::WhiteRoadWin => "R-0"@,
                DetailedGameResult::BlackRoadWin => "0-R"@,
                DetailedGameResult::WhiteFlatWin => "F-0"@,
                DetailedGameResult::BlackFlatWin => "0-F"@,
                DetailedGameResult::Draw => "1/2-1/2"@,
            },
    {
        match self.detailed_game_result(&self.group_data()) {
            Some(result) => Some(result.result_str()),
            None => None,
        }
    }
}

proof fn lemma_count_tops_bound<const S: usize>(stacks: Seq<super::Stack>, n: int, piece: Piece)
    requires
        0 <= n,
    ensures
        count_tops(stacks, n, piece) <= n,
    decreases n,
{
    if n > 0 {
        lemma_count_tops_bound::<S>(stacks, n - 1, piece);
    }
}

} // verus!

verus! {

/// A game result from one side's perspective.
#[derive(Clone, Copy, Debug, PartialEq, Eq, Structural)]
pub enum GameResultForUs {
    Win,
    Loss,
    Draw,
}

impl GameResultForUs {
    /// The result from the other side's perspective.
    pub open spec fn spec_not(self) -> GameResultForUs {
        match self {
            GameResultForUs::Win => GameResultForUs::Loss,
            GameResultForUs::Loss => GameResultForUs::Win,
            GameResultForUs::Draw => GameResultForUs::Draw,
        }
    }
}

impl std::ops::Not for GameResultForUs {
    type Output = Self;

    fn not(self) -> (r: Self) {
        match self {
            GameResultForUs::Win => GameResultForUs::Loss,
            GameResultForUs::Loss => GameResultForUs::Win,
            GameResultForUs::Draw => GameResultForUs::Draw,
        }
    }
}

impl vstd::std_specs::ops::NotSpecImpl for GameResultForUs {
    open spec fn obeys_not_spec() -> bool {
        true
    }

    open spec fn not_req(self) -> bool {
        true
    }

    open spec fn not_spec(self) -> GameResultForUs {
        self.spec_not()
    }
}

/// Seen from the other side twice, a result is itself.
pub proof fn lemma_not_not(r: GameResultForUs)
    ensures
        r.spec_not().spec_not() == r,
{
}

} // verus!
