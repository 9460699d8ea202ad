//! Positions written in TPS, such as `x3/x,1,x/2S,x2 1 3`: the stacks row by row, the
//! player to move and the move number.
use vstd::prelude::*;

use super::square::{lemma_size, valid_size, Square};
use super::utils::{Color, Piece, Role, Stack};
use super::{spec_starting_capstones, spec_starting_stones, spec_squares_hash, squares_iterator, starting_capstones, starting_stones, Position, PositionView, Settings};
use super::zobrist::{spec_to_move_key, zobrist_to_move};
use crate::text::{chars_to_string, digits_value, is_digit, lemma_char_code, lemma_split_push, lemma_split_single, lemma_words_concat, lemma_words_single, parse_decimal, parse_error, sign_dropped, spec_is_whitespace, spec_parse_decimal, split_char, split_on, split_whitespace, str_to_chars, views, words};

verus! {

/// The characters of one piece: its color, then `S` for a wall or `C` for a capstone.
pub open spec fn piece_tps(p: Piece) -> Seq<char> {
    match p {
        Piece::WhiteFlat => seq!['1'],
        Piece::BlackFlat => seq!['2'],
        Piece::WhiteWall => seq!['1', 'S'],
        Piece::BlackWall => seq!['2', 'S'],
        Piece::WhiteCap => seq!['1', 'C'],
        Piece::BlackCap => seq!['2', 'C'],
    }
}

/// The pieces of a stack, from the bottom up.
pub open spec fn pieces_tps(pieces: Seq<Piece>) -> Seq<char>
    decreases pieces.len(),
{
    if pieces.len() == 0 {
        Seq::empty()
    } else {
        pieces_tps(pieces.drop_last()) + piece_tps(pieces.last())
    }
}

/// A stack: `x` when it is empty.
pub open spec fn stack_tps(pieces: Seq<Piece>) -> Seq<char> {
    if pieces.len() == 0 {
        seq!['x']
    } else {
        pieces_tps(pieces)
    }
}

/// The first `n` squares of the row `rank`, separated by commas.
pub open spec fn row_tps<const S: usize>(p: PositionView<S>, rank: int, n: int) -> Seq<char>
    decreases n,
{
    if n <= 0 {
        Seq::empty()
    } else if n == 1 {
        stack_tps(p.stacks[Square::<S>::spec_from_rank_file(rank, 0).inner as int]@)
    } else {
        row_tps(p, rank, n - 1).push(',') + stack_tps(p.stacks[Square::<S>::spec_from_rank_file(rank, n - 1).inner as int]@)
    }
}

/// The first `n` rows, separated by slashes.
pub open spec fn rows_tps<const S: usize>(p: PositionView<S>, n: int) -> Seq<char>
    decreases n,
{
    if n <= 0 {
        Seq::empty()
    } else if n == 1 {
        row_tps(p, 0, S as int)
    } else {
        rows_tps(p, n - 1).push('/') + row_tps(p, n - 1, S as int)
    }
}

/// A number in decimal.
pub open spec fn decimal(n: nat) -> Seq<char>
    decreases n,
{
    if n < 10 {
        seq![((n + 48) as u8) as char]
    } else {
        decimal(n / 10).push(((n % 10 + 48) as u8) as char)
    }
}

/// The position in TPS: the rows, the player to move (1 or 2) and the move number.
pub open spec fn spec_tps<const S: usize>(p: PositionView<S>) -> Seq<char> {
    rows_tps(p, S as int) + (if p.to_move == Color::White {
        seq![' ', '1', ' ']
    } else {
        seq![' ', '2', ' ']
    }) + decimal((p.half_moves_played / 2 + 1) as nat)
}

pub(crate) fn push_decimal(out: &mut Vec<char>, n: u64)
    ensures
        final(out)@ == old(out)@ + decimal(n as nat),
    decreases n,
{
    if n < 10 {
        out.push(((n + 48) as u8) as char);
    } else {
        push_decimal(out, n / 10);
        out.push(((n % 10 + 48) as u8) as char);
        proof {
            assert(final(out)@ =~= old(out)@ + decimal(n as nat));
        }
    }
}

fn push_stack(out: &mut Vec<char>, stack: super::Stack)
    requires
        stack.wf(),
    ensures
        final(out)@ == old(out)@ + stack_tps(stack@),
{
    let ghost start = out@;
    if stack.height == 0 {
        out.push('x');
        return;
    }
    let mut i: u8 = 0;
    while i < stack.height
        invariant
            stack.wf(),
            stack.height > 0,
            i <= stack.height,
            out@ == start + pieces_tps(stack@.subrange(0, i as int)),
        decreases stack.height - i,
    {
        let piece = stack.get(i).unwrap();
        match piece {
            Piece::WhiteFlat => out.push('1'),
            Piece::BlackFlat => out.push('2'),
            Piece::WhiteWall => {
                out.push('1');
                out.push('S');
            },
            Piece::BlackWall => {
                out.push('2');
                out.push('S');
            },
            Piece::WhiteCap => {
                out.push('1');
                out.push('C');
            },
            Piece::BlackCap => {
                out.push('2');
                out.push('C');
            },
        }
        proof {
            assert(stack@.subrange(0, i + 1).drop_last() =~= stack@.subrange(0, i as int));
            assert(out@ =~= start + pieces_tps(stack@.subrange(0, i + 1)));
        }
        i = i + 1;
    }
    proof {
        assert(stack@.subrange(0, stack.height as int) =~= stack@);
    }
}

impl<const S: usize> Position<S> {
    /// The position in TPS.
    pub fn to_fen(&self) -> (f: String)
        requires
            self.wf(),
        ensures
            f@ == spec_tps(self@),
    {
        proof {
            lemma_size::<S>();
        }
        let ghost p = self@;
        let mut f: Vec<char> = Vec::new();
        let mut rank: usize = 0;
        while rank < S
            invariant
                self.wf(),
                p == self@,
                rank <= S,
                f@ == rows_tps(p, rank as int),
            decreases S - rank,
        {
            if rank > 0 {
                f.push('/');
            }
            let ghost row_start = f@;
            let mut file: usize = 0;
            while file < S
                invariant
                    self.wf(),
                    p == self@,
                    rank < S,
                    file <= S,
                    f@ == row_start + row_tps(p, rank as int, file as int),
                decreases S - file,
            {
                if file > 0 {
                    f.push(',');
                }
                let square = Square::<S>::from_rank_file(rank as u8, file as u8);
                push_stack(&mut f, self.get_stack(square));
                proof {
                    assert(f@ =~= row_start + row_tps(p, rank as int, file + 1));
                }
                file = file + 1;
            }
            proof {
                assert(f@ =~= rows_tps(p, rank + 1));
            }
            rank = rank + 1;
        }
        match self.side_to_move() {
            Color::White => {
                f.push(' ');
                f.push('1');
                f.push(' ');
            },
            Color::Black => {
                f.push(' ');
                f.push('2');
                f.push(' ');
            },
        }
        push_decimal(&mut f, ((self.half_moves_played() / 2) + 1) as u64);
        proof {
            assert(f@ =~= spec_tps(p));
        }
        chars_to_string(&f)
    }
}

} // verus!

verus! {

/// How reading a text as TPS ends: with what was read, refused as malformed, or out of the
/// range that positions of this library hold (a stack of more than 64 pieces, more pieces
/// than the reserves, or a move number that is 0 or too large).
pub enum TpsParse<T> {
    Read(T),
    Malformed,
    OutOfRange,
}

/// A row of `n` empty squares.
pub open spec fn empty_row(n: nat) -> Seq<Seq<Piece>> {
    Seq::new(n, |i: int| Seq::<Piece>::empty())
}

/// The value of a decimal digit.
pub open spec fn digit_value(c: char) -> nat {
    (c as int - 48) as nat
}

/// The flat of the color that `1` (white) or `2` (black) names.
pub open spec fn flat_of_digit(c: char) -> Piece {
    if c == '1' {
        Piece::WhiteFlat
    } else {
        Piece::BlackFlat
    }
}

/// Reads the rest `cs` of a row of TPS, at column `col`, with the stacks read so far in `acc`;
/// `in_stack` tells that the pieces of the stack at `col` are being read.
///
/// A square is `x` (empty), or `x` and a digit for that many empty squares, or a stack: its
/// pieces from the bottom up, each `1` (white) or `2` (black), where `S` or `C` after the top
/// piece makes it a wall or a capstone. Squares are separated by commas. Once the row has all
/// its squares, the rest of the text is not read.
pub open spec fn parse_row_from<const S: usize>(
    cs: Seq<char>,
    col: nat,
    acc: Seq<Seq<Piece>>,
    in_stack: bool,
) -> TpsParse<Seq<Seq<Piece>>>
    decreases cs.len(), if in_stack {
        0int
    } else {
        1int
    },
{
    if in_stack {
        if cs.len() == 0 {
            if col + 1 >= S {
                TpsParse::Read(acc)
            } else {
                TpsParse::Malformed
            }
        } else {
            let c = cs[0];
            let rest = cs.drop_first();
            let st = acc[col as int];
            if c == '1' || c == '2' {
                if st.len() >= 64 {
                    TpsParse::OutOfRange
                } else {
                    parse_row_from::<S>(
                        rest,
                        col,
                        acc.update(col as int, Stack::flattened(st).push(flat_of_digit(c))),
                        true,
                    )
                }
            } else if c == 'S' || c == 'C' {
                let role = if c == 'S' {
                    Role::Wall
                } else {
                    Role::Cap
                };
                parse_row_from::<S>(
                    rest,
                    col,
                    acc.update(
                        col as int,
                        Stack::flattened(st.drop_last()).push(
                            Piece::spec_from_role_color(role, st.last().spec_color()),
                        ),
                    ),
                    true,
                )
            } else if c == ',' {
                parse_row_from::<S>(rest, col + 1, acc, false)
            } else {
                TpsParse::Malformed
            }
        }
    } else if col >= S {
        TpsParse::Read(acc)
    } else if cs.len() == 0 {
        TpsParse::Malformed
    } else if cs[0] == 'x' {
        let rest = cs.drop_first();
        let counted = rest.len() > 0 && is_digit(rest[0]);
        let after = if counted {
            rest.drop_first()
        } else {
            rest
        };
        let next_col = if counted {
            col + digit_value(rest[0])
        } else {
            col + 1
        };
        if after.len() == 0 {
            parse_row_from::<S>(after, next_col, acc, false)
        } else if after[0] == ',' {
            parse_row_from::<S>(after.drop_first(), next_col, acc, false)
        } else {
            TpsParse::Malformed
        }
    } else if cs[0] == '1' || cs[0] == '2' {
        parse_row_from::<S>(cs, col, acc, true)
    } else {
        TpsParse::Malformed
    }
}

/// Reads a row of TPS into its `S` stacks, each from the bottom up.
pub open spec fn parse_row<const S: usize>(row: Seq<char>) -> TpsParse<Seq<Seq<Piece>>> {
    parse_row_from::<S>(row, 0, empty_row(S as nat), false)
}

/// The pieces of each stack of a row.
pub open spec fn row_view(row: Seq<Stack>) -> Seq<Seq<Piece>> {
    row.map_values(|st: Stack| st@)
}

/// What reading a row of TPS gave.
pub enum RowReading {
    Read(Vec<Stack>),
    Malformed,
    OutOfRange,
}

impl RowReading {
    pub open spec fn matches_spec(self, t: TpsParse<Seq<Seq<Piece>>>) -> bool {
        match self {
            RowReading::Read(row) => t == TpsParse::Read(row_view(row@)) && forall|i: int|
                0 <= i < row.len() ==> (#[trigger] row@[i]).wf(),
            RowReading::Malformed => t is Malformed,
            RowReading::OutOfRange => t is OutOfRange,
        }
    }
}

/// Reads a row of TPS.
pub fn read_row<const S: usize>(row: &Vec<char>) -> (r: RowReading)
    requires
        valid_size(S),
    ensures
        r.matches_spec(parse_row::<S>(row@)),
{
    let mut acc: Vec<Stack> = Vec::new();
    let mut k: usize = 0;
    while k < S
        invariant
            valid_size(S),
            k <= S,
            acc.len() == k,
            forall|i: int| 0 <= i < k ==> (#[trigger] acc@[i]) == Stack::default_spec(),
        decreases S - k,
    {
        acc.push(Stack::empty());
        k = k + 1;
    }
    proof {
        Stack::lemma_default_wf();
        assert forall|j: int| 0 <= j < S implies #[trigger] row_view(acc@)[j] == empty_row(
            S as nat,
        )[j] by {
            assert(acc@[j]@ =~= Seq::<Piece>::empty());
        }
        assert(row_view(acc@) =~= empty_row(S as nat));
        assert(row@.skip(0) =~= row@);
    }
    let mut col: usize = 0;
    let mut in_stack = false;
    let mut i: usize = 0;
    while i < row.len() || in_stack || col < S
        invariant
            valid_size(S),
            i <= row.len(),
            col <= S + 9,
            in_stack ==> col < S,
            in_stack ==> acc@[col as int].height > 0 || (i < row.len() && (row@[i as int] == '1'
                || row@[i as int] == '2')),
            acc.len() == S,
            forall|j: int| 0 <= j < S ==> (#[trigger] acc@[j]).wf(),
            parse_row::<S>(row@) == parse_row_from::<S>(
                row@.skip(i as int),
                col as nat,
                row_view(acc@),
                in_stack,
            ),
        decreases row.len() - i, if in_stack {
            0int
        } else {
            1int
        },
    {
        let ghost acc0 = row_view(acc@);
        if in_stack {
            if i == row.len() {
                if col + 1 >= S {
                    return RowReading::Read(acc);
                } else {
                    return RowReading::Malformed;
                }
            }
            let c = row[i];
            proof {
                assert(row@.skip(i as int)[0] == c);
                assert(row@.skip(i as int).drop_first() =~= row@.skip(i + 1));
            }
            let mut st = acc[col];
            if c == '1' || c == '2' {
                if st.height >= 64 {
                    return RowReading::OutOfRange;
                }
                let piece = if c == '1' {
                    Piece::WhiteFlat
                } else {
                    Piece::BlackFlat
                };
                st.push(piece);
                acc.set(col, st);
                proof {
                    assert(row_view(acc@) =~= acc0.update(
                        col as int,
                        Stack::flattened(acc0[col as int]).push(flat_of_digit(c)),
                    ));
                }
            } else if c == 'S' || c == 'C' {
                let role = if c == 'S' {
                    Role::Wall
                } else {
                    Role::Cap
                };
                let top = st.pop().unwrap();
                st.push(Piece::from_role_color(role, top.color()));
                acc.set(col, st);
                proof {
                    assert(row_view(acc@) =~= acc0.update(
                        col as int,
                        Stack::flattened(acc0[col as int].drop_last()).push(
                            Piece::spec_from_role_color(role, acc0[col as int].last().spec_color()),
                        ),
                    ));
                }
            } else if c == ',' {
                col = col + 1;
                in_stack = false;
            } else {
                return RowReading::Malformed;
            }
            i = i + 1;
        } else if col >= S {
            return RowReading::Read(acc);
        } else if i == row.len() {
            return RowReading::Malformed;
        } else if row[i] == 'x' {
            proof {
                assert(row@.skip(i as int)[0] == 'x');
                assert(row@.skip(i as int).drop_first() =~= row@.skip(i + 1));
            }
            i = i + 1;
            if i < row.len() && (row[i] as u32) >= 48 && (row[i] as u32) <= 57 {
                proof {
                    lemma_char_code(row@[i as int]);
                    assert(row@.skip(i as int)[0] == row@[i as int]);
                    assert(row@.skip(i as int).drop_first() =~= row@.skip(i + 1));
                }
                col = col + (row[i] as u32 - 48) as usize;
                i = i + 1;
            } else {
                proof {
                    if i < row.len() {
                        lemma_char_code(row@[i as int]);
                        assert(row@.skip(i as int)[0] == row@[i as int]);
                    }
                }
                col = col + 1;
            }
            if i < row.len() {
                proof {
                    assert(row@.skip(i as int)[0] == row@[i as int]);
                }
                if row[i] == ',' {
                    proof {
                        assert(row@.skip(i as int).drop_first() =~= row@.skip(i + 1));
                    }
                    i = i + 1;
                } else {
                    return RowReading::Malformed;
                }
            }
        } else if row[i] == '1' || row[i] == '2' {
            proof {
                assert(row@.skip(i as int)[0] == row@[i as int]);
            }
            in_stack = true;
        } else {
            proof {
                assert(row@.skip(i as int)[0] == row@[i as int]);
            }
            return RowReading::Malformed;
        }
    }
    RowReading::Read(acc)
}

} // verus!

verus! {

/// Reads the first `n` rows of TPS; the first row that fails decides the outcome.
pub open spec fn parse_rows<const S: usize>(rows: Seq<Seq<char>>, n: nat) -> TpsParse<
    Seq<Seq<Seq<Piece>>>,
>
    decreases n,
{
    if n == 0 {
        TpsParse::Read(Seq::empty())
    } else {
        match parse_rows::<S>(rows, (n - 1) as nat) {
            TpsParse::Read(done) => match parse_row::<S>(rows[n - 1]) {
                TpsParse::Read(row) => TpsParse::Read(done.push(row)),
                TpsParse::Malformed => TpsParse::Malformed,
                TpsParse::OutOfRange => TpsParse::OutOfRange,
            },
            TpsParse::Malformed => TpsParse::Malformed,
            TpsParse::OutOfRange => TpsParse::OutOfRange,
        }
    }
}

/// The pieces on each square, indexed by the square's number, of the rows read from TPS
/// (the square with number `i` is in row `i % S`, column `i / S`).
pub open spec fn board_of_rows<const S: usize>(rows: Seq<Seq<Seq<Piece>>>) -> Seq<Seq<Piece>> {
    Seq::new((S * S) as nat, |i: int| rows[i % (S as int)][i / (S as int)])
}

/// Walls and flats of a color.
pub open spec fn is_stone_of(color: Color) -> spec_fn(Piece) -> bool {
    |p: Piece| p.spec_color() == color && p.spec_role() != Role::Cap
}

/// Capstones of a color.
pub open spec fn is_cap_of(color: Color) -> spec_fn(Piece) -> bool {
    |p: Piece| p.spec_color() == color && p.spec_role() == Role::Cap
}

/// The number of pieces of a kind in a stack.
pub open spec fn stack_count(st: Seq<Piece>, kind: spec_fn(Piece) -> bool) -> nat
    decreases st.len(),
{
    if st.len() == 0 {
        0
    } else {
        stack_count(st.drop_last(), kind) + if kind(st.last()) {
            1nat
        } else {
            0nat
        }
    }
}

/// The number of pieces of a kind on the first `n` squares.
pub open spec fn board_count(board: Seq<Seq<Piece>>, n: nat, kind: spec_fn(Piece) -> bool) -> nat
    decreases n,
{
    if n == 0 {
        0
    } else {
        board_count(board, (n - 1) as nat, kind) + stack_count(board[n - 1], kind)
    }
}

/// The number of pieces of a kind on the board.
pub open spec fn tps_count<const S: usize>(board: Seq<Seq<Piece>>, kind: spec_fn(Piece) -> bool) -> nat {
    board_count(board, (S * S) as nat, kind)
}

/// Neither player has more pieces on the board than the game gives them.
pub open spec fn fits_reserves<const S: usize>(board: Seq<Seq<Piece>>) -> bool {
    &&& tps_count::<S>(board, is_stone_of(Color::White)) <= spec_starting_stones(S)
    &&& tps_count::<S>(board, is_stone_of(Color::Black)) <= spec_starting_stones(S)
    &&& tps_count::<S>(board, is_cap_of(Color::White)) <= spec_starting_capstones(S)
    &&& tps_count::<S>(board, is_cap_of(Color::Black)) <= spec_starting_capstones(S)
}

/// What a TPS text holds: the pieces on each square, the player to move and the number of
/// moves played.
pub struct TpsContent {
    pub board: Seq<Seq<Piece>>,
    pub to_move: Color,
    pub half_moves_played: nat,
}

/// Reads a position in TPS: three words, the rows separated by `/`, `1` or `2` for the
/// player to move, and the move number, which counts from 1 and goes up after black moves.
pub open spec fn spec_read_tps<const S: usize>(s: Seq<char>) -> TpsParse<TpsContent> {
    let ws = words(s);
    if ws.len() != 3 {
        TpsParse::Malformed
    } else {
        let rows = split_on(ws[0], '/');
        if rows.len() != S {
            TpsParse::Malformed
        } else {
            match parse_rows::<S>(rows, S as nat) {
                TpsParse::Read(rs) => {
                    let board = board_of_rows::<S>(rs);
                    let number = spec_parse_decimal(ws[2]);
                    if !fits_reserves::<S>(board) {
                        TpsParse::OutOfRange
                    } else if ws[1] != seq!['1'] && ws[1] != seq!['2'] {
                        TpsParse::Malformed
                    } else if number is None || number.unwrap() > usize::MAX {
                        TpsParse::Malformed
                    } else if number.unwrap() == 0 || number.unwrap() > usize::MAX / 2 {
                        TpsParse::OutOfRange
                    } else {
                        let white = ws[1] == seq!['1'];
                        TpsParse::Read(
                            TpsContent {
                                board,
                                to_move: if white {
                                    Color::White
                                } else {
                                    Color::Black
                                },
                                half_moves_played: if white {
                                    (2 * number.unwrap() - 2) as nat
                                } else {
                                    (2 * number.unwrap() - 1) as nat
                                },
                            },
                        )
                    }
                },
                TpsParse::Malformed => TpsParse::Malformed,
                TpsParse::OutOfRange => TpsParse::OutOfRange,
            }
        }
    }
}

/// The Zobrist hash of a position, computed from its stacks and the player to move.
pub open spec fn spec_hash_from_scratch<const S: usize>(p: PositionView<S>) -> u64 {
    spec_to_move_key(S as int, p.to_move) ^ spec_squares_hash(
        S as int,
        Seq::new((S * S) as nat, |i: int| i),
        p.stacks,
        (S * S) as nat,
    )
}

/// The position that a TPS text describes, with the given komi and no move history.
pub open spec fn tps_position<const S: usize>(p: PositionView<S>, c: TpsContent, komi: super::Komi) -> bool {
    &&& p.wf()
    &&& p.board() == c.board
    &&& p.to_move == c.to_move
    &&& p.half_moves_played == c.half_moves_played
    &&& p.white_stones_left == spec_starting_stones(S) - tps_count::<S>(c.board, is_stone_of(Color::White))
    &&& p.black_stones_left == spec_starting_stones(S) - tps_count::<S>(c.board, is_stone_of(Color::Black))
    &&& p.white_caps_left == spec_starting_capstones(S) - tps_count::<S>(c.board, is_cap_of(Color::White))
    &&& p.black_caps_left == spec_starting_capstones(S) - tps_count::<S>(c.board, is_cap_of(Color::Black))
    &&& p.moves == Seq::<super::Move<S>>::empty()
    &&& p.komi == komi
    &&& p.hash == spec_hash_from_scratch(p)
    &&& p.hash_history == Seq::<u64>::empty()
}

/// What reading a position from TPS gave.
pub enum TpsReading<const S: usize> {
    Read(Position<S>),
    Malformed,
    OutOfRange,
}

/// The rows read so far, each as the pieces of its stacks.
pub open spec fn rows_view(rows: Seq<Vec<Stack>>) -> Seq<Seq<Seq<Piece>>> {
    rows.map_values(|r: Vec<Stack>| row_view(r@))
}

/// Once a row fails, reading more rows fails the same way.
proof fn lemma_rows_fail_stays<const S: usize>(rows: Seq<Seq<char>>, n: nat, m: nat)
    requires
        n <= m,
        !(parse_rows::<S>(rows, n) is Read),
    ensures
        parse_rows::<S>(rows, m) == parse_rows::<S>(rows, n),
    decreases m - n,
{
    if n < m {
        lemma_rows_fail_stays::<S>(rows, n, (m - 1) as nat);
    }
}

/// Reads all rows of a TPS text.
fn read_rows<const S: usize>(rows: &Vec<Vec<char>>) -> (r: Option<Option<Vec<Vec<Stack>>>>)
    requires
        valid_size(S),
        rows.len() == S,
    ensures
        match r {
            Some(Some(rs)) => parse_rows::<S>(views(rows@), S as nat) == TpsParse::Read(rows_view(rs@))
                && rs.len() == S && (forall|i: int| 0 <= i < S ==> (#[trigger] rs@[i]).len() == S)
                && forall|i: int, j: int| 0 <= i < S && 0 <= j < S ==> (#[trigger] rs@[i]@[j]).wf(),
            Some(None) => parse_rows::<S>(views(rows@), S as nat) is Malformed,
            None => parse_rows::<S>(views(rows@), S as nat) is OutOfRange,
        },
{
    let mut parsed: Vec<Vec<Stack>> = Vec::new();
    let mut r: usize = 0;
    proof {
        assert(rows_view(parsed@) =~= Seq::empty());
    }
    while r < S
        invariant
            valid_size(S),
            rows.len() == S,
            r <= S,
            parsed.len() == r,
            parse_rows::<S>(views(rows@), r as nat) == TpsParse::Read(rows_view(parsed@)),
            forall|i: int| 0 <= i < r ==> (#[trigger] parsed@[i]).len() == S,
            forall|i: int, j: int| 0 <= i < r && 0 <= j < S ==> (#[trigger] parsed@[i]@[j]).wf(),
        decreases S - r,
    {
        proof {
            assert(views(rows@)[r as int] == rows@[r as int]@);
        }
        match read_row::<S>(&rows[r]) {
            RowReading::Read(row) => {
                proof {
                    assert(row.len() == S) by {
                        assert(row_view(row@).len() == row@.len());
                        lemma_row_len::<S>(rows@[r as int]@);
                    }
                }
                let ghost before = parsed@;
                parsed.push(row);
                proof {
                    assert(rows_view(parsed@) =~= rows_view(before).push(row_view(row@)));
                }
            },
            RowReading::Malformed => {
                proof {
                    lemma_rows_fail_stays::<S>(views(rows@), (r + 1) as nat, S as nat);
                }
                return Some(None);
            },
            RowReading::OutOfRange => {
                proof {
                    lemma_rows_fail_stays::<S>(views(rows@), (r + 1) as nat, S as nat);
                }
                return None;
            },
        }
        r = r + 1;
    }
    Some(Some(parsed))
}

/// A row that is read has `S` squares.
pub proof fn lemma_row_len<const S: usize>(row: Seq<char>)
    ensures
        parse_row::<S>(row) matches TpsParse::Read(r) ==> r.len() == S,
{
    lemma_row_from_len::<S>(row, 0, empty_row(S as nat), false);
}

proof fn lemma_row_from_len<const S: usize>(cs: Seq<char>, col: nat, acc: Seq<Seq<Piece>>, in_stack: bool)
    requires
        acc.len() == S,
        in_stack ==> col < S,
    ensures
        parse_row_from::<S>(cs, col, acc, in_stack) matches TpsParse::Read(r) ==> r.len() == acc.len(),
    decreases cs.len(), if in_stack {
        0int
    } else {
        1int
    },
{
    if in_stack {
        if cs.len() > 0 {
            let c = cs[0];
            let rest = cs.drop_first();
            let st = acc[col as int];
            if c == '1' || c == '2' {
                if st.len() < 64 {
                    lemma_row_from_len::<S>(
                        rest,
                        col,
                        acc.update(col as int, Stack::flattened(st).push(flat_of_digit(c))),
                        true,
                    );
                }
            } else if c == 'S' || c == 'C' {
                let role = if c == 'S' {
                    Role::Wall
                } else {
                    Role::Cap
                };
                lemma_row_from_len::<S>(
                    rest,
                    col,
                    acc.update(
                        col as int,
                        Stack::flattened(st.drop_last()).push(
                            Piece::spec_from_role_color(role, st.last().spec_color()),
                        ),
                    ),
                    true,
                );
            } else if c == ',' {
                lemma_row_from_len::<S>(rest, col + 1, acc, false);
            }
        }
    } else if col < S && cs.len() > 0 {
        if cs[0] == 'x' {
            let rest = cs.drop_first();
            let counted = rest.len() > 0 && is_digit(rest[0]);
            let after = if counted {
                rest.drop_first()
            } else {
                rest
            };
            let next_col = if counted {
                col + digit_value(rest[0])
            } else {
                col + 1
            };
            if after.len() == 0 {
                lemma_row_from_len::<S>(after, next_col, acc, false);
            } else if after[0] == ',' {
                lemma_row_from_len::<S>(after.drop_first(), next_col, acc, false);
            }
        } else if cs[0] == '1' || cs[0] == '2' {
            lemma_row_from_len::<S>(cs, col, acc, true);
        }
    }
}

/// Counts the pieces of each kind on the board: white stones, black stones, white
/// capstones, black capstones.
fn count_pieces<const S: usize>(position: &Position<S>) -> (counts: (u32, u32, u32, u32))
    requires
        position.wf(),
    ensures
        counts.0 == tps_count::<S>(position@.board(), is_stone_of(Color::White)),
        counts.1 == tps_count::<S>(position@.board(), is_stone_of(Color::Black)),
        counts.2 == tps_count::<S>(position@.board(), is_cap_of(Color::White)),
        counts.3 == tps_count::<S>(position@.board(), is_cap_of(Color::Black)),
{
    proof {
        lemma_size::<S>();
    }
    let ghost board = position@.board();
    let n = S * S;
    let mut ws: u32 = 0;
    let mut bs: u32 = 0;
    let mut wc: u32 = 0;
    let mut bc: u32 = 0;
    let mut i: usize = 0;
    while i < n
        invariant
            position.wf(),
            board == position@.board(),
            n == S * S,
            n <= 64,
            i <= n,
            ws == board_count(board, i as nat, is_stone_of(Color::White)),
            bs == board_count(board, i as nat, is_stone_of(Color::Black)),
            wc == board_count(board, i as nat, is_cap_of(Color::White)),
            bc == board_count(board, i as nat, is_cap_of(Color::Black)),
            ws + bs + wc + bc <= 64 * i,
        decreases n - i,
    {
        let stack = position.stacks[i];
        let ghost st = board[i as int];
        proof {
            assert(st == stack@);
        }
        let mut j: u8 = 0;
        let ghost ws0 = ws;
        let ghost bs0 = bs;
        let ghost wc0 = wc;
        let ghost bc0 = bc;
        while j < stack.height
            invariant
                stack.wf(),
                st == stack@,
                j <= stack.height,
                ws == ws0 + stack_count(st.take(j as int), is_stone_of(Color::White)),
                bs == bs0 + stack_count(st.take(j as int), is_stone_of(Color::Black)),
                wc == wc0 + stack_count(st.take(j as int), is_cap_of(Color::White)),
                bc == bc0 + stack_count(st.take(j as int), is_cap_of(Color::Black)),
                ws + bs + wc + bc == ws0 + bs0 + wc0 + bc0 + j,
                ws0 + bs0 + wc0 + bc0 <= 64 * i,
                i < 64,
            decreases stack.height - j,
        {
            let piece = stack.get(j).unwrap();
            proof {
                assert(st.take(j + 1).drop_last() =~= st.take(j as int));
                assert(st.take(j + 1).last() == piece);
            }
            match piece {
                Piece::WhiteFlat | Piece::WhiteWall => ws = ws + 1,
                Piece::BlackFlat | Piece::BlackWall => bs = bs + 1,
                Piece::WhiteCap => wc = wc + 1,
                Piece::BlackCap => bc = bc + 1,
            }
            j = j + 1;
        }
        proof {
            assert(st.take(stack.height as int) =~= st);
        }
        i = i + 1;
    }
    (ws, bs, wc, bc)
}

/// Reads a position from TPS.
pub fn read_tps<const S: usize>(fen: &str, settings: &Settings) -> (r: TpsReading<S>)
    requires
        valid_size(S),
    ensures
        match r {
            TpsReading::Read(p) => spec_read_tps::<S>(fen@) matches TpsParse::Read(c) && tps_position(
                p@,
                c,
                settings.komi,
            ),
            TpsReading::Malformed => spec_read_tps::<S>(fen@) is Malformed,
            TpsReading::OutOfRange => spec_read_tps::<S>(fen@) is OutOfRange,
        },
{
    proof {
        lemma_size::<S>();
    }
    let chars = str_to_chars(fen);
    let fen_words = split_whitespace(&chars);
    if fen_words.len() != 3 {
        return TpsReading::Malformed;
    }
    let ghost ws = words(fen@);
    proof {
        assert(ws[0] == fen_words@[0]@);
        assert(ws[1] == fen_words@[1]@);
        assert(ws[2] == fen_words@[2]@);
    }
    let fen_rows = split_char(&fen_words[0], '/');
    if fen_rows.len() != S {
        return TpsReading::Malformed;
    }
    let rows = match read_rows::<S>(&fen_rows) {
        Some(Some(rows)) => rows,
        Some(None) => {
            return TpsReading::Malformed;
        },
        None => {
            return TpsReading::OutOfRange;
        },
    };
    let ghost rs = rows_view(rows@);
    let ghost board = board_of_rows::<S>(rs);
    let mut position = Position::<S>::start_position_with_komi(settings.komi);
    let mut rank: usize = 0;
    while rank < S
        invariant
            valid_size(S),
            rank <= S,
            rows.len() == S,
            rs == rows_view(rows@),
            board == board_of_rows::<S>(rs),
            forall|i: int| 0 <= i < S ==> (#[trigger] rows@[i]).len() == S,
            forall|i: int, j: int| 0 <= i < S && 0 <= j < S ==> (#[trigger] rows@[i]@[j]).wf(),
            position.wf(),
            position.to_move == Color::White,
            position.white_stones_left == spec_starting_stones(S),
            position.black_stones_left == spec_starting_stones(S),
            position.white_caps_left == spec_starting_capstones(S),
            position.black_caps_left == spec_starting_capstones(S),
            position.half_moves_played == 0,
            position.moves@ == Seq::<super::Move<S>>::empty(),
            position.komi == settings.komi,
            position.hash_history@ == Seq::<u64>::empty(),
            forall|i: int| 0 <= i < S * S && i % (S as int) < rank ==> (#[trigger] position@.board()[i]) == board[i],
        decreases S - rank,
    {
        let mut file: usize = 0;
        while file < S
            invariant
                valid_size(S),
                rank < S,
                file <= S,
                rows.len() == S,
                rs == rows_view(rows@),
                board == board_of_rows::<S>(rs),
                forall|i: int| 0 <= i < S ==> (#[trigger] rows@[i]).len() == S,
                forall|i: int, j: int| 0 <= i < S && 0 <= j < S ==> (#[trigger] rows@[i]@[j]).wf(),
                position.wf(),
                position.to_move == Color::White,
                position.white_stones_left == spec_starting_stones(S),
                position.black_stones_left == spec_starting_stones(S),
                position.white_caps_left == spec_starting_capstones(S),
                position.black_caps_left == spec_starting_capstones(S),
                position.half_moves_played == 0,
                position.moves@ == Seq::<super::Move<S>>::empty(),
                position.komi == settings.komi,
                position.hash_history@ == Seq::<u64>::empty(),
                forall|i: int|
                    0 <= i < S * S && (i % (S as int) < rank || (i % (S as int) == rank && i / (S as int)
                        < file)) ==> (#[trigger] position@.board()[i]) == board[i],
            decreases S - file,
        {
            let square = Square::<S>::from_rank_file(rank as u8, file as u8);
            let stack = rows[rank][file];
            let ghost before = position@;
            position.set_stack(square, stack);
            proof {
                assert(stack@ == rs[rank as int][file as int]);
                assert(board[square.inner as int] == rs[rank as int][file as int]);
                assert forall|i: int|
                    0 <= i < S * S && (i % (S as int) < rank || (i % (S as int) == rank && i / (
                        S as int) < file + 1)) implies (#[trigger] position@.board()[i]) == board[i] by {
                    vstd::arithmetic::div_mod::lemma_fundamental_div_mod(i, S as int);
                    vstd::arithmetic::div_mod::lemma_fundamental_div_mod(square.inner as int, S as int);
                    if i != square.inner {
                        assert(position@.board()[i] == before.board()[i]);
                        if i % (S as int) == rank && i / (S as int) == file {
                            assert(i == square.inner);
                        }
                        assert(before.board()[i] == board[i]);
                    } else {
                        assert(position@.stacks[i] == stack);
                        assert(position@.board()[i] == stack@);
                    }
                }
            }
            file = file + 1;
        }
        proof {
            assert forall|i: int| 0 <= i < S * S implies #[trigger] (i / (S as int)) < S by {
                assert(i / (S as int) < S) by (nonlinear_arith)
                    requires
                        0 <= i < S * S,
                        S > 0,
                ;
            }
        }
        rank = rank + 1;
    }
    proof {
        assert(position@.board() =~= board);
    }
    let counts = count_pieces(&position);
    if counts.0 > starting_stones(S) as u32 || counts.1 > starting_stones(S) as u32 || counts.2
        > starting_capstones(S) as u32 || counts.3 > starting_capstones(S) as u32 {
        return TpsReading::OutOfRange;
    }
    position.white_stones_left = starting_stones(S) - counts.0 as u8;
    position.black_stones_left = starting_stones(S) - counts.1 as u8;
    position.white_caps_left = starting_capstones(S) - counts.2 as u8;
    position.black_caps_left = starting_capstones(S) - counts.3 as u8;
    let side = &fen_words[1];
    let white = side.len() == 1 && side[0] == '1';
    let black = side.len() == 1 && side[0] == '2';
    proof {
        assert(white <==> ws[1] == seq!['1']) by {
            if ws[1] == seq!['1'] {
                assert(side@.len() == 1 && side@[0] == '1');
            }
            if white {
                assert(side@ =~= seq!['1']);
            }
        }
        assert(black <==> ws[1] == seq!['2']) by {
            if ws[1] == seq!['2'] {
                assert(side@.len() == 1 && side@[0] == '2');
            }
            if black {
                assert(side@ =~= seq!['2']);
            }
        }
    }
    if !white && !black {
        return TpsReading::Malformed;
    }
    let number = match parse_decimal(&fen_words[2], usize::MAX as u64) {
        Some(n) => n,
        None => {
            return TpsReading::Malformed;
        },
    };
    if number == 0 || number > (usize::MAX / 2) as u64 {
        return TpsReading::OutOfRange;
    }
    if white {
        position.to_move = Color::White;
        position.half_moves_played = (2 * number - 2) as usize;
    } else {
        position.to_move = Color::Black;
        position.half_moves_played = (2 * number - 1) as usize;
    }
    let squares = squares_iterator::<S>();
    let key = zobrist_to_move::<S>(position.to_move);
    position.hash = position.xor_squares_hash(&squares, key);
    proof {
        assert(squares@.map_values(|sq: Square<S>| sq.inner as int) =~= Seq::new(
            (S * S) as nat,
            |i: int| i,
        ));
    }
    TpsReading::Read(position)
}

/// Whether a TPS text is out of the range that positions of this library hold: it has a
/// stack of more than 64 pieces, more pieces than the reserves, or a move number that is 0
/// or too large for the count of moves played. Reading such a text is refused by `from_fen`'s
/// precondition.
pub fn tps_out_of_range<const S: usize>(fen: &str) -> (b: bool)
    requires
        valid_size(S),
    ensures
        b == spec_read_tps::<S>(fen@) is OutOfRange,
{
    match read_tps::<S>(fen, &Settings { komi: super::Komi { half_komi: 0 } }) {
        TpsReading::OutOfRange => true,
        _ => false,
    }
}

impl<const S: usize> Position<S> {
    /// Reads a position from TPS, with the komi of the settings.
    pub fn from_fen_with_settings(fen: &str, settings: &Settings) -> (r: Result<Self, pgn_traits::Error>)
        requires
            valid_size(S),
            !(spec_read_tps::<S>(fen@) is OutOfRange),
        ensures
            r is Ok <==> spec_read_tps::<S>(fen@) is Read,
            r matches Ok(p) ==> (spec_read_tps::<S>(fen@) matches TpsParse::Read(c) && tps_position(
                p@,
                c,
                settings.komi,
            )),
    {
        match read_tps::<S>(fen, settings) {
            TpsReading::Read(position) => Ok(position),
            _ => Err(parse_error("Couldn't parse TPS string")),
        }
    }

    /// Reads a position from TPS, with no komi.
    pub fn from_fen(fen: &str) -> (r: Result<Self, pgn_traits::Error>)
        requires
            valid_size(S),
            !(spec_read_tps::<S>(fen@) is OutOfRange),
        ensures
            r is Ok <==> spec_read_tps::<S>(fen@) is Read,
            r matches Ok(p) ==> (spec_read_tps::<S>(fen@) matches TpsParse::Read(c) && tps_position(
                p@,
                c,
                super::Komi { half_komi: 0 },
            )),
    {
        Self::from_fen_with_settings(fen, &Settings { komi: super::Komi { half_komi: 0 } })
    }

    /// Reads a position from TPS, with the given komi.
    pub fn from_fen_with_komi(fen: &str, komi: super::Komi) -> (r: Result<Self, pgn_traits::Error>)
        requires
            valid_size(S),
            !(spec_read_tps::<S>(fen@) is OutOfRange),
        ensures
            r is Ok <==> spec_read_tps::<S>(fen@) is Read,
            r matches Ok(p) ==> (spec_read_tps::<S>(fen@) matches TpsParse::Read(c) && tps_position(
                p@,
                c,
                komi,
            )),
    {
        Self::from_fen_with_settings(fen, &Settings { komi })
    }
}

} // verus!

verus! {

/// The characters that TPS writes for the squares of a row.
pub open spec fn row_char(c: char) -> bool {
    c == 'x' || c == '1' || c == '2' || c == 'S' || c == 'C' || c == ','
}

proof fn lemma_pieces_chars(pieces: Seq<Piece>)
    ensures
        forall|i: int| 0 <= i < pieces_tps(pieces).len() ==> row_char(#[trigger] pieces_tps(pieces)[i]),
        pieces.len() > 0 ==> pieces_tps(pieces).len() > 0 && (pieces_tps(pieces)[0] == '1'
            || pieces_tps(pieces)[0] == '2'),
    decreases pieces.len(),
{
    if pieces.len() > 0 {
        lemma_pieces_chars(pieces.drop_last());
        let a = pieces_tps(pieces.drop_last());
        let b = piece_tps(pieces.last());
        assert forall|i: int| 0 <= i < (a + b).len() implies row_char(#[trigger] (a + b)[i]) by {
            if i >= a.len() {
                assert((a + b)[i] == b[i - a.len()]);
            }
        }
        if pieces.len() == 1 {
            assert(pieces.drop_last() =~= Seq::<Piece>::empty());
            assert(a =~= Seq::<char>::empty());
            assert((a + b)[0] == b[0]);
        } else {
            assert((a + b)[0] == a[0]);
        }
    }
}

proof fn lemma_row_chars<const S: usize>(p: PositionView<S>, rank: int, n: int)
    ensures
        forall|i: int| 0 <= i < row_tps(p, rank, n).len() ==> row_char(#[trigger] row_tps(p, rank, n)[i]),
        n >= 1 ==> row_tps(p, rank, n).len() > 0,
    decreases n,
{
    if n >= 1 {
        let st = p.stacks[Square::<S>::spec_from_rank_file(rank, n - 1).inner as int]@;
        lemma_pieces_chars(st);
        let b = stack_tps(st);
        assert forall|i: int| 0 <= i < b.len() implies row_char(#[trigger] b[i]) by {}
        if n > 1 {
            lemma_row_chars(p, rank, n - 1);
            let a = row_tps(p, rank, n - 1).push(',');
            assert forall|i: int| 0 <= i < (a + b).len() implies row_char(#[trigger] (a + b)[i]) by {
                if i >= a.len() {
                    assert((a + b)[i] == b[i - a.len()]);
                } else if i < a.len() - 1 {
                    assert(a[i] == row_tps(p, rank, n - 1)[i]);
                }
            }
        }
    }
}

proof fn lemma_rows_chars<const S: usize>(p: PositionView<S>, n: int)
    requires
        valid_size(S),
    ensures
        forall|i: int|
            0 <= i < rows_tps(p, n).len() ==> row_char(#[trigger] rows_tps(p, n)[i]) || rows_tps(
                p,
                n,
            )[i] == '/',
        n >= 1 ==> rows_tps(p, n).len() > 0,
    decreases n,
{
    if n >= 1 {
        lemma_row_chars(p, n - 1, S as int);
        lemma_row_chars(p, 0, S as int);
        if n > 1 {
            lemma_rows_chars(p, n - 1);
            let a = rows_tps(p, n - 1).push('/');
            let b = row_tps(p, n - 1, S as int);
            assert forall|i: int| 0 <= i < (a + b).len() implies row_char(#[trigger] (a + b)[i]) || (a
                + b)[i] == '/' by {
                if i >= a.len() {
                    assert((a + b)[i] == b[i - a.len()]);
                } else if i < a.len() - 1 {
                    assert(a[i] == rows_tps(p, n - 1)[i]);
                }
            }
        }
    }
}

/// The rows of a position's TPS, split at `/`, are its rows.
proof fn lemma_split_rows<const S: usize>(p: PositionView<S>, n: int)
    requires
        1 <= n <= S,
    ensures
        split_on(rows_tps(p, n), '/') == Seq::new(n as nat, |r: int| row_tps(p, r, S as int)),
    decreases n,
{
    lemma_row_chars(p, n - 1, S as int);
    let b = row_tps(p, n - 1, S as int);
    assert forall|i: int| 0 <= i < b.len() implies #[trigger] b[i] != '/' by {
        assert(row_char(b[i]));
    }
    if n == 1 {
        lemma_split_single(b, '/');
        assert(seq![b] =~= Seq::new(1, |r: int| row_tps(p, r, S as int)));
    } else {
        lemma_split_rows(p, n - 1);
        lemma_split_push(rows_tps(p, n - 1), b, '/');
        assert(Seq::new((n - 1) as nat, |r: int| row_tps(p, r, S as int)).push(b) =~= Seq::new(
            n as nat,
            |r: int| row_tps(p, r, S as int),
        ));
    }
}

/// How the parser of a row goes on after a square, when the text left is empty or starts
/// with a comma.
pub open spec fn after_square<const S: usize>(rest: Seq<char>, col: nat, acc: Seq<Seq<Piece>>) -> TpsParse<
    Seq<Seq<Piece>>,
> {
    if rest.len() == 0 {
        if col >= S {
            TpsParse::Read(acc)
        } else {
            TpsParse::Malformed
        }
    } else {
        parse_row_from::<S>(rest.drop_first(), col, acc, false)
    }
}

/// A flat turned into a flat is itself.
proof fn lemma_flat_of_flat(p: Piece)
    requires
        p.spec_role() == Role::Flat,
    ensures
        Piece::spec_from_role_color(Role::Flat, p.spec_color()) == p,
{
}

/// Reading the pieces of a stack, in the middle of the stack, puts them on the square.
proof fn lemma_parse_pieces<const S: usize>(
    pieces: Seq<Piece>,
    rest: Seq<char>,
    col: nat,
    acc: Seq<Seq<Piece>>,
)
    requires
        col < S,
        acc.len() == S,
        acc[col as int] == Seq::<Piece>::empty(),
        pieces.len() <= 64,
        Stack::buried_are_flats(pieces),
    ensures
        parse_row_from::<S>(pieces_tps(pieces) + rest, col, acc, true) == parse_row_from::<S>(
            rest,
            col,
            acc.update(col as int, pieces),
            true,
        ),
    decreases pieces.len(),
{
    if pieces.len() == 0 {
        assert(pieces_tps(pieces) + rest =~= rest);
        assert(pieces =~= Seq::<Piece>::empty());
        assert(acc.update(col as int, pieces) =~= acc);
    } else {
        let p1 = pieces.drop_last();
        let last = pieces.last();
        assert(p1.push(last) =~= pieces);
        assert(Stack::buried_are_flats(p1)) by {
            assert forall|i: int| 0 <= i < p1.len() - 1 implies #[trigger] p1[i].spec_role()
                == Role::Flat by {
                assert(p1[i] == pieces[i]);
            }
        }
        lemma_parse_pieces::<S>(p1, piece_tps(last) + rest, col, acc);
        assert(pieces_tps(pieces) + rest =~= pieces_tps(p1) + (piece_tps(last) + rest));
        let acc1 = acc.update(col as int, p1);
        assert(acc1[col as int] == p1);
        assert(Stack::flattened(p1) == p1) by {
            if p1.len() > 0 {
                assert(p1.last() == pieces[pieces.len() - 2]);
                lemma_flat_of_flat(p1.last());
                assert(p1.update(p1.len() - 1, p1.last()) =~= p1);
            }
        }
        let d = if last.spec_color() == Color::White {
            '1'
        } else {
            '2'
        };
        let flat = flat_of_digit(d);
        let acc2 = acc1.update(col as int, p1.push(flat));
        let tail = piece_tps(last).drop_first() + rest;
        assert(piece_tps(last)[0] == d);
        assert((piece_tps(last) + rest)[0] == d);
        assert((piece_tps(last) + rest).drop_first() =~= tail);
        assert(parse_row_from::<S>(piece_tps(last) + rest, col, acc1, true) == parse_row_from::<S>(
            tail,
            col,
            acc2,
            true,
        ));
        if last.spec_role() == Role::Flat {
            assert(flat == last);
            assert(tail =~= rest);
            assert(acc2 =~= acc.update(col as int, pieces));
        } else {
            let c = if last.spec_role() == Role::Wall {
                'S'
            } else {
                'C'
            };
            assert(tail[0] == c);
            assert(tail.drop_first() =~= rest);
            let x = p1.push(flat);
            assert(acc2[col as int] == x);
            assert(x.drop_last() =~= p1);
            assert(x.last() == flat);
            assert(Piece::spec_from_role_color(last.spec_role(), flat.spec_color()) == last);
            assert(acc2.update(col as int, Stack::flattened(x.drop_last()).push(last)) =~= acc.update(
                col as int,
                pieces,
            ));
        }
    }
}

/// Reading one square of a row.
proof fn lemma_parse_square<const S: usize>(
    st: Seq<Piece>,
    rest: Seq<char>,
    col: nat,
    acc: Seq<Seq<Piece>>,
)
    requires
        col < S,
        acc.len() == S,
        acc[col as int] == Seq::<Piece>::empty(),
        st.len() <= 64,
        Stack::buried_are_flats(st),
        rest.len() == 0 || rest[0] == ',',
    ensures
        parse_row_from::<S>(stack_tps(st) + rest, col, acc, false) == after_square::<S>(
            rest,
            col + 1,
            acc.update(col as int, st),
        ),
{
    let cs = stack_tps(st) + rest;
    if st.len() == 0 {
        assert(cs[0] == 'x');
        assert(cs.drop_first() =~= rest);
        assert(st =~= Seq::<Piece>::empty());
        assert(acc.update(col as int, st) =~= acc);
        if rest.len() > 0 {
            assert(!is_digit(rest[0]));
        } else {
            assert(parse_row_from::<S>(rest, col + 1, acc, false) == after_square::<S>(
                rest,
                col + 1,
                acc,
            ));
        }
    } else {
        lemma_pieces_chars(st);
        assert(cs[0] == pieces_tps(st)[0]);
        lemma_parse_pieces::<S>(st, rest, col, acc);
        assert(parse_row_from::<S>(rest, col, acc.update(col as int, st), true) == after_square::<S>(
            rest,
            col + 1,
            acc.update(col as int, st),
        ));
    }
}

/// The squares of row `rank` that are among the first `n`, as read so far.
pub open spec fn row_prefix<const S: usize>(p: PositionView<S>, rank: int, n: int) -> Seq<Seq<Piece>> {
    Seq::new(
        S as nat,
        |f: int|
            if f < n {
                p.stacks[Square::<S>::spec_from_rank_file(rank, f).inner as int]@
            } else {
                Seq::<Piece>::empty()
            },
    )
}

proof fn lemma_parse_row_prefix<const S: usize>(p: PositionView<S>, rank: int, n: int, rest: Seq<char>)
    requires
        p.wf(),
        0 <= rank < S,
        1 <= n <= S,
        rest.len() == 0 || rest[0] == ',',
    ensures
        parse_row_from::<S>(row_tps(p, rank, n) + rest, 0, empty_row(S as nat), false)
            == after_square::<S>(rest, n as nat, row_prefix(p, rank, n)),
    decreases n,
{
    let sq = Square::<S>::spec_from_rank_file(rank, n - 1);
    Square::<S>::lemma_from_rank_file(rank, n - 1);
    let stack = p.stacks[sq.inner as int];
    assert(stack.wf());
    stack.lemma_view_buried_flats();
    let st = stack@;
    if n == 1 {
        lemma_parse_square::<S>(st, rest, 0, empty_row(S as nat));
        assert(empty_row(S as nat).update(0, st) =~= row_prefix(p, rank, 1));
    } else {
        let rest1 = seq![','] + stack_tps(st) + rest;
        lemma_parse_row_prefix(p, rank, n - 1, rest1);
        assert(row_tps(p, rank, n) + rest =~= row_tps(p, rank, n - 1) + rest1);
        assert(rest1.drop_first() =~= stack_tps(st) + rest);
        lemma_parse_square::<S>(st, rest, (n - 1) as nat, row_prefix(p, rank, n - 1));
        assert(row_prefix(p, rank, n - 1).update(n - 1, st) =~= row_prefix(p, rank, n));
    }
}

/// Reading the TPS rows of a position gives its rows back.
proof fn lemma_parse_rows_of<const S: usize>(p: PositionView<S>, n: int)
    requires
        p.wf(),
        0 <= n <= S,
    ensures
        parse_rows::<S>(Seq::new(S as nat, |r: int| row_tps(p, r, S as int)), n as nat)
            == TpsParse::Read(Seq::new(n as nat, |r: int| row_prefix(p, r, S as int))),
    decreases n,
{
    if n == 0 {
        assert(Seq::new(0, |r: int| row_prefix(p, r, S as int)) =~= Seq::<Seq<Seq<Piece>>>::empty());
    } else {
        lemma_parse_rows_of(p, n - 1);
        lemma_parse_row_prefix(p, n - 1, S as int, Seq::empty());
        assert(row_tps(p, n - 1, S as int) + Seq::<char>::empty() =~= row_tps(p, n - 1, S as int));
        assert(Seq::new((n - 1) as nat, |r: int| row_prefix(p, r, S as int)).push(
            row_prefix(p, n - 1, S as int),
        ) =~= Seq::new(n as nat, |r: int| row_prefix(p, r, S as int)));
    }
}

/// The digits of a number in decimal.
proof fn lemma_decimal(n: nat)
    ensures
        decimal(n).len() > 0,
        forall|i: int| 0 <= i < decimal(n).len() ==> is_digit(#[trigger] decimal(n)[i]),
        digits_value(decimal(n)) == n,
    decreases n,
{
    assert(digits_value(Seq::<char>::empty()) == 0);
    if n < 10 {
        assert(decimal(n).drop_last() =~= Seq::<char>::empty());
    } else {
        lemma_decimal(n / 10);
        vstd::arithmetic::div_mod::lemma_fundamental_div_mod(n as int, 10);
        let a = decimal(n / 10);
        let c = ((n % 10 + 48) as u8) as char;
        assert(decimal(n).drop_last() =~= a);
        assert forall|i: int| 0 <= i < decimal(n).len() implies is_digit(#[trigger] decimal(n)[i]) by {
            if i < a.len() {
                assert(decimal(n)[i] == a[i]);
            }
        }
    }
}

/// A position's TPS reads back as its pieces, its player to move and its move count.
pub open spec fn tps_content_of<const S: usize>(p: PositionView<S>) -> TpsContent {
    TpsContent { board: p.board(), to_move: p.to_move, half_moves_played: p.half_moves_played as nat }
}

/// The position is one that TPS describes completely: the reserves are what the pieces on
/// the board leave, and the player to move is white exactly after an even number of moves.
pub open spec fn tps_describes<const S: usize>(p: PositionView<S>) -> bool {
    &&& tps_count::<S>(p.board(), is_stone_of(Color::White)) <= spec_starting_stones(S)
    &&& tps_count::<S>(p.board(), is_stone_of(Color::Black)) <= spec_starting_stones(S)
    &&& tps_count::<S>(p.board(), is_cap_of(Color::White)) <= spec_starting_capstones(S)
    &&& tps_count::<S>(p.board(), is_cap_of(Color::Black)) <= spec_starting_capstones(S)
    &&& p.white_stones_left == spec_starting_stones(S) - tps_count::<S>(p.board(), is_stone_of(Color::White))
    &&& p.black_stones_left == spec_starting_stones(S) - tps_count::<S>(p.board(), is_stone_of(Color::Black))
    &&& p.white_caps_left == spec_starting_capstones(S) - tps_count::<S>(p.board(), is_cap_of(Color::White))
    &&& p.black_caps_left == spec_starting_capstones(S) - tps_count::<S>(p.board(), is_cap_of(Color::Black))
    &&& (p.to_move == Color::White) == (p.half_moves_played % 2 == 0)
}

/// Reading back what `to_fen` writes gives the position's pieces, player to move and move
/// count; and a position read from it equals the original one in everything TPS holds,
/// when the reserves and the player to move agree with the board and the move count, and the
/// move number fits.
pub proof fn lemma_tps_round_trip<const S: usize>(p: PositionView<S>)
    requires
        p.wf(),
        tps_describes(p),
        p.half_moves_played / 2 + 1 <= usize::MAX / 2,
    ensures
        spec_read_tps::<S>(spec_tps(p)) == TpsParse::Read(tps_content_of(p)),
        forall|q: PositionView<S>|
            tps_position(q, #[trigger] tps_content_of(p), p.komi) ==> {
                &&& q.stacks == p.stacks
                &&& q.to_move == p.to_move
                &&& q.white_stones_left == p.white_stones_left
                &&& q.black_stones_left == p.black_stones_left
                &&& q.white_caps_left == p.white_caps_left
                &&& q.black_caps_left == p.black_caps_left
                &&& q.half_moves_played == p.half_moves_played
                &&& q.komi == p.komi
            },
{
    lemma_size::<S>();
    let rows_text = rows_tps(p, S as int);
    let d = if p.to_move == Color::White {
        '1'
    } else {
        '2'
    };
    let number = (p.half_moves_played / 2 + 1) as nat;
    let num_text = decimal(number);
    // The words: the rows, the player to move and the move number.
    lemma_rows_chars(p, S as int);
    lemma_decimal(number);
    assert forall|i: int| 0 <= i < rows_text.len() implies !spec_is_whitespace(#[trigger] rows_text[i]) by {
        assert(row_char(rows_text[i]) || rows_text[i] == '/');
    }
    assert forall|i: int| 0 <= i < num_text.len() implies !spec_is_whitespace(#[trigger] num_text[i]) by {
        assert(is_digit(num_text[i]));
    }
    lemma_words_single(rows_text);
    lemma_words_single(num_text);
    lemma_words_single(seq![d]);
    let t1 = rows_text + seq![' '];
    lemma_words_concat(rows_text, seq![' ']);
    assert(words(seq![' ']) =~= Seq::<Seq<char>>::empty()) by {
        assert(words(Seq::<char>::empty()) == Seq::<Seq<char>>::empty());
        assert(seq![' '].drop_last() =~= Seq::<char>::empty());
    }
    let t2 = t1 + seq![d];
    lemma_words_concat(t1, seq![d]);
    let t3 = t2 + seq![' '];
    lemma_words_concat(t2, seq![' ']);
    let t4 = t3 + num_text;
    lemma_words_concat(t3, num_text);
    assert(spec_tps(p) =~= t4);
    let ws = words(spec_tps(p));
    assert(ws =~= seq![rows_text, seq![d], num_text]);
    // The rows.
    lemma_split_rows(p, S as int);
    let rows = Seq::new(S as nat, |r: int| row_tps(p, r, S as int));
    lemma_parse_rows_of(p, S as int);
    let rs = Seq::new(S as nat, |r: int| row_prefix(p, r, S as int));
    assert(board_of_rows::<S>(rs) =~= p.board()) by {
        assert forall|i: int| 0 <= i < S * S implies #[trigger] board_of_rows::<S>(rs)[i] == p.board()[i] by {
            let r = i % (S as int);
            let f = i / (S as int);
            vstd::arithmetic::div_mod::lemma_fundamental_div_mod(i, S as int);
            assert(0 <= f < S) by (nonlinear_arith)
                requires
                    0 <= i < S * S,
                    S > 0,
                    f == i / (S as int),
            ;
            vstd::arithmetic::mul::lemma_mul_is_commutative(f, S as int);
            Square::<S>::lemma_from_rank_file(r, f);
            assert(Square::<S>::spec_from_rank_file(r, f).inner == i);
        }
    }
    // The player to move and the move number.
    assert(sign_dropped(num_text) == num_text);
    assert(spec_parse_decimal(num_text) == Some(number));
    if p.to_move == Color::White {
        assert(ws[1] == seq!['1']);
    } else {
        assert(ws[1] == seq!['2']);
        assert(seq!['2'] != seq!['1']) by {
            assert(seq!['2'][0] != seq!['1'][0]);
        }
    }
    let c = tps_content_of(p);
    assert(spec_read_tps::<S>(spec_tps(p)) == TpsParse::Read(c));
    assert forall|q: PositionView<S>| tps_position(q, #[trigger] tps_content_of(p), p.komi) implies {
        &&& q.stacks == p.stacks
        &&& q.to_move == p.to_move
        &&& q.white_stones_left == p.white_stones_left
        &&& q.black_stones_left == p.black_stones_left
        &&& q.white_caps_left == p.white_caps_left
        &&& q.black_caps_left == p.black_caps_left
        &&& q.half_moves_played == p.half_moves_played
        &&& q.komi == p.komi
    } by {
        assert forall|i: int| 0 <= i < q.stacks.len() implies #[trigger] q.stacks[i] == p.stacks[i] by {
            assert(q.board()[i] == p.board()[i]);
            q.stacks[i].lemma_view_injective(p.stacks[i]);
        }
        assert(q.stacks =~= p.stacks);
    }
}

} // verus!
