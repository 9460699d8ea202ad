//! Moves in the notation of the playtak server, such as `P A1 C` or `M A1 C1 1 2`.
use vstd::prelude::*;

use super::mv::{ExpMove, Move};
use super::ptn_move::{digit_char, drop_digits, drops_fit, int_sum, lemma_drops_telescope, lemma_first_take, lemma_parse_name, lemma_prefix_int_sum, lemma_takes_data_inverse, move_valid, movement_from_drops, push_digit, takes_data, takes_of};
use super::square::{valid_size, Square};
use super::utils::{lemma_takes_below_len, lemma_takes_below_shape, Direction, Role, StackMovement};
use crate::text::{chars_to_string, digits_value, lemma_char_code, lemma_words_concat, lemma_words_single, parse_decimal, sign_dropped, spec_is_whitespace, spec_parse_decimal, split_whitespace, str_to_chars, views, words};

verus! {

/// The name of a square in capitals, such as `A1` (character code 65 is `A`).
pub open spec fn upper_name<const S: usize>(sq: Square<S>) -> Seq<char> {
    seq![
        ((sq.spec_file() + 65) as u8) as char,
        ((S as int - sq.spec_rank() + 48) as u8) as char,
    ]
}

/// The number of squares a movement goes: one per step, and one when it has no step.
pub open spec fn playtak_steps(ts: Seq<nat>) -> int {
    if ts.len() == 0 {
        1
    } else {
        ts.len() as int
    }
}

/// The pieces dropped on each square of a movement, as digits.
pub open spec fn playtak_numbers(ts: Seq<nat>) -> Seq<char> {
    if ts.len() == 0 {
        seq![digit_char(0)]
    } else {
        drop_digits(ts)
    }
}

/// Characters separated by spaces.
pub open spec fn spaced(ds: Seq<char>) -> Seq<char> {
    Seq::new((2 * ds.len() - 1) as nat, |k: int| if k % 2 == 0 { ds[k / 2] } else { ' ' })
}

/// A move in the playtak notation: `P`, the square in capitals and `W` for a wall or `C`
/// for a capstone; or `M`, the origin and the last square, and the pieces dropped on each
/// square.
pub open spec fn spec_playtak<const S: usize>(m: ExpMove<S>) -> Seq<char> {
    match m {
        ExpMove::Place(role, sq) => seq!['P', ' '] + upper_name(sq) + match role {
            Role::Flat => Seq::empty(),
            Role::Wall => seq![' ', 'W'],
            Role::Cap => seq![' ', 'C'],
        },
        ExpMove::Move(sq, direction, sm) => {
            let ts = sm@;
            let end = sq.spec_jump_direction(direction, playtak_steps(ts)).unwrap();
            seq!['M', ' '] + upper_name(sq) + seq![' '] + upper_name(end) + seq![' '] + spaced(
                playtak_numbers(ts),
            )
        },
    }
}

/// A move can be written in the playtak notation when its last square is on the board.
pub open spec fn playtak_printable<const S: usize>(m: ExpMove<S>) -> bool {
    &&& move_valid(m)
    &&& m matches ExpMove::Move(sq, direction, sm) ==> sq.spec_jump_direction(
        direction,
        playtak_steps(sm@),
    ) is Some
}

fn push_upper_name<const S: usize>(out: &mut Vec<char>, sq: Square<S>)
    requires
        valid_size(S),
        sq.valid(),
    ensures
        final(out)@ == old(out)@ + upper_name(sq),
{
    proof {
        sq.lemma_rank_file();
    }
    let file = sq.file();
    let rank = sq.rank();
    out.push(((file + 65) as u8) as char);
    out.push(((S as u8 - rank + 48) as u8) as char);
    proof {
        assert(final(out)@ =~= old(out)@ + upper_name(sq));
    }
}

impl<const S: usize> ExpMove<S> {
    /// The move in the playtak notation.
    pub fn to_chars_playtak(&self) -> (out: Vec<char>)
        requires
            valid_size(S),
            playtak_printable(*self),
        ensures
            out@ == spec_playtak(*self),
    {
        let mut out: Vec<char> = Vec::new();
        match *self {
            ExpMove::Place(role, square) => {
                out.push('P');
                out.push(' ');
                push_upper_name(&mut out, square);
                match role {
                    Role::Flat => {},
                    Role::Wall => {
                        out.push(' ');
                        out.push('W');
                    },
                    Role::Cap => {
                        out.push(' ');
                        out.push('C');
                    },
                }
                proof {
                    assert(out@ =~= spec_playtak(*self));
                }
            },
            ExpMove::Move(square, direction, stack_movement) => {
                let ghost ts = stack_movement@;
                proof {
                    lemma_takes_below_shape(stack_movement.data, 8);
                    lemma_takes_below_len(stack_movement.data, 8);
                    lemma_first_take(stack_movement.data);
                }
                let n = stack_movement.len();
                let steps: u8 = if n == 0 {
                    1
                } else {
                    n as u8
                };
                let end = match square.jump_direction(direction, steps) {
                    Some(end) => end,
                    None => {
                        proof {
                            assert(false);
                        }
                        square
                    },
                };
                out.push('M');
                out.push(' ');
                push_upper_name(&mut out, square);
                out.push(' ');
                push_upper_name(&mut out, end);
                out.push(' ');
                let ghost head = out@;
                if n == 0 {
                    push_digit(&mut out, 0);
                    proof {
                        assert(out@ =~= spec_playtak(*self));
                    }
                } else {
                    let mut pieces_held = stack_movement.get_first().pieces_to_take;
                    let mut it = stack_movement.into_iter();
                    let _ = it.next();
                    let mut i: usize = 1;
                    while i < n
                        invariant
                            ts == stack_movement@,
                            n == ts.len(),
                            n >= 1,
                            1 <= i <= n,
                            it@ == ts.subrange(i as int, n as int),
                            pieces_held == ts[i - 1],
                            forall|j: int| 0 <= j < ts.len() ==> 1 <= #[trigger] ts[j] <= 8,
                            forall|j: int, k: int| 0 <= j < k < ts.len() ==> #[trigger] ts[j] > #[trigger] ts[k],
                            out@ == head + Seq::new(
                                (2 * (i - 1)) as nat,
                                |k: int| if k % 2 == 0 { digit_char(ts[k / 2] - ts[k / 2 + 1]) } else { ' ' },
                            ),
                        decreases n - i,
                    {
                        let movement = it.next().unwrap();
                        let pieces_to_drop = pieces_held - movement.pieces_to_take;
                        push_digit(&mut out, pieces_to_drop);
                        out.push(' ');
                        pieces_held = movement.pieces_to_take;
                        proof {
                            assert(out@ =~= head + Seq::new(
                                (2 * i) as nat,
                                |k: int| if k % 2 == 0 { digit_char(ts[k / 2] - ts[k / 2 + 1]) } else { ' ' },
                            ));
                        }
                        i = i + 1;
                    }
                    push_digit(&mut out, pieces_held);
                    proof {
                        assert(out@ =~= spec_playtak(*self));
                    }
                }
            },
        }
        out
    }

    /// The move in the playtak notation.
    pub fn to_string_playtak(&self) -> (s: String)
        requires
            valid_size(S),
            playtak_printable(*self),
        ensures
            s@ == spec_playtak(*self),
    {
        chars_to_string(&self.to_chars_playtak())
    }
}

impl<const S: usize> Move<S> {
    /// The move in the playtak notation.
    pub fn to_string_playtak(self) -> (s: String)
        requires
            valid_size(S),
            self.wf(),
            playtak_printable(self.spec_expand()),
        ensures
            s@ == spec_playtak(self.spec_expand()),
    {
        self.expand().to_string_playtak()
    }
}

} // verus!

verus! {

/// A text with its capital ASCII letters made small.
pub open spec fn ascii_lower(s: Seq<char>) -> Seq<char> {
    Seq::new(
        s.len(),
        |i: int|
            if 65 <= s[i] as int <= 90 {
                ((s[i] as int + 32) as u8) as char
            } else {
                s[i]
            },
    )
}

/// The square a word names, in capitals or not.
pub open spec fn playtak_square<const S: usize>(w: Seq<char>) -> Option<Square<S>> {
    Square::<S>::spec_parse(ascii_lower(w))
}

/// The number of pieces a word says are dropped, when it is a number that fits in a byte.
pub open spec fn playtak_drop(w: Seq<char>) -> Option<nat> {
    let r = spec_parse_decimal(w);
    if r is Some && r.unwrap() <= 255 {
        r
    } else {
        None
    }
}

/// The words after the squares of a movement are numbers of at least one.
pub open spec fn drop_words_valid(ws: Seq<Seq<char>>) -> bool {
    forall|i: int| 3 <= i < ws.len() ==> (#[trigger] playtak_drop(ws[i])) is Some && playtak_drop(
        ws[i],
    ).unwrap() >= 1
}

/// The numbers of pieces dropped on each square of a movement.
pub open spec fn drop_values(ws: Seq<Seq<char>>) -> Seq<int> {
    Seq::new((ws.len() - 3) as nat, |i: int| playtak_drop(ws[i + 3]).unwrap() as int)
}

/// The direction from one square to another on the same row or column.
pub open spec fn playtak_direction<const S: usize>(a: Square<S>, b: Square<S>) -> Option<Direction> {
    if a.spec_rank() == b.spec_rank() && a.spec_file() < b.spec_file() {
        Some(Direction::East)
    } else if a.spec_rank() == b.spec_rank() && a.spec_file() > b.spec_file() {
        Some(Direction::West)
    } else if a.spec_rank() < b.spec_rank() && a.spec_file() == b.spec_file() {
        Some(Direction::South)
    } else if a.spec_rank() > b.spec_rank() && a.spec_file() == b.spec_file() {
        Some(Direction::North)
    } else {
        None
    }
}

/// Reading a move in the playtak notation fails: the words do not make a placement (`P`, a
/// square, and optionally `C` or `W`) or a movement (`M`, two squares on a row or column, and
/// numbers of at least one that add up to no more than the board's size).
pub open spec fn spec_playtak_panics<const S: usize>(input: Seq<char>) -> bool {
    let ws = words(input);
    if ws.len() == 0 {
        true
    } else if ws[0] == seq!['P'] {
        ||| ws.len() < 2
        ||| playtak_square::<S>(ws[1]) is None
        ||| ws.len() > 2 && ws[2] != seq!['C'] && ws[2] != seq!['W']
    } else if ws[0] == seq!['M'] {
        ||| ws.len() < 4
        ||| playtak_square::<S>(ws[1]) is None
        ||| playtak_square::<S>(ws[2]) is None
        ||| !drop_words_valid(ws)
        ||| int_sum(drop_values(ws)) > S
        ||| playtak_direction(playtak_square::<S>(ws[1]).unwrap(), playtak_square::<S>(ws[2]).unwrap()) is None
    } else {
        true
    }
}

/// The move that a text in the playtak notation stands for: see `spec_playtak`. Words after
/// the role of a placement are not read; the last square of a movement only gives its
/// direction.
pub open spec fn spec_parse_playtak<const S: usize>(input: Seq<char>) -> ExpMove<S> {
    let ws = words(input);
    if ws[0] == seq!['P'] {
        let role = if ws.len() == 2 {
            Role::Flat
        } else if ws[2] == seq!['C'] {
            Role::Cap
        } else {
            Role::Wall
        };
        ExpMove::Place(role, playtak_square::<S>(ws[1]).unwrap())
    } else {
        let ds = drop_values(ws);
        let start = playtak_square::<S>(ws[1]).unwrap();
        let end = playtak_square::<S>(ws[2]).unwrap();
        ExpMove::Move(
            start,
            playtak_direction(start, end).unwrap(),
            StackMovement { data: takes_data(takes_of(int_sum(ds), ds.drop_last())) },
        )
    }
}

pub(crate) fn ascii_lowercase(w: &Vec<char>) -> (out: Vec<char>)
    ensures
        out@ == ascii_lower(w@),
{
    let mut out: Vec<char> = Vec::new();
    let mut i: usize = 0;
    while i < w.len()
        invariant
            i <= w.len(),
            out@ == ascii_lower(w@).subrange(0, i as int),
        decreases w.len() - i,
    {
        let c = w[i];
        proof {
            lemma_char_code(c);
        }
        let n = c as u32;
        if 65 <= n && n <= 90 {
            out.push(((n + 32) as u8) as char);
        } else {
            out.push(c);
        }
        proof {
            assert(out@ =~= ascii_lower(w@).subrange(0, i + 1));
        }
        i = i + 1;
    }
    proof {
        assert(ascii_lower(w@).subrange(0, w.len() as int) =~= ascii_lower(w@));
    }
    out
}

fn read_square<const S: usize>(w: &Vec<char>) -> (r: Option<Square<S>>)
    requires
        valid_size(S),
    ensures
        r == playtak_square::<S>(w@),
        r matches Some(sq) ==> sq.valid(),
{
    match Square::<S>::parse_square_chars(&ascii_lowercase(w)) {
        Ok(sq) => Some(sq),
        Err(_) => None,
    }
}

fn is_letter(w: &Vec<char>, c: char) -> (b: bool)
    ensures
        b == (w@ == seq![c]),
{
    let b = w.len() == 1 && w[0] == c;
    proof {
        if b {
            assert(w@ =~= seq![c]);
        }
    }
    b
}

fn read_direction<const S: usize>(a: Square<S>, b: Square<S>) -> (d: Option<Direction>)
    requires
        valid_size(S),
    ensures
        d == playtak_direction(a, b),
{
    let (ra, fa, rb, fb) = (a.rank(), a.file(), b.rank(), b.file());
    if ra == rb && fa < fb {
        Some(Direction::East)
    } else if ra == rb && fa > fb {
        Some(Direction::West)
    } else if ra < rb && fa == fb {
        Some(Direction::South)
    } else if ra > rb && fa == fb {
        Some(Direction::North)
    } else {
        None
    }
}

/// Reads a move in the playtak notation, or `None` where the reading fails.
fn read_playtak<const S: usize>(input: &str) -> (r: Option<Move<S>>)
    requires
        valid_size(S),
    ensures
        r is None <==> spec_playtak_panics::<S>(input@),
        r matches Some(m) ==> m.wf() && m.spec_expand() == spec_parse_playtak::<S>(input@),
{
    let chars = str_to_chars(input);
    let ws = split_whitespace(&chars);
    let ghost wv = words(input@);
    if ws.len() == 0 {
        return None;
    }
    proof {
        assert(wv[0] == ws@[0]@);
    }
    if is_letter(&ws[0], 'P') {
        if ws.len() < 2 {
            return None;
        }
        proof {
            assert(wv[1] == ws@[1]@);
        }
        let square = match read_square::<S>(&ws[1]) {
            Some(sq) => sq,
            None => {
                return None;
            },
        };
        let role = if ws.len() == 2 {
            Role::Flat
        } else {
            proof {
                assert(wv[2] == ws@[2]@);
            }
            if is_letter(&ws[2], 'C') {
                Role::Cap
            } else if is_letter(&ws[2], 'W') {
                Role::Wall
            } else {
                return None;
            }
        };
        Some(Move::placement(role, square))
    } else if is_letter(&ws[0], 'M') {
        if ws.len() < 4 {
            return None;
        }
        proof {
            assert(wv[1] == ws@[1]@);
            assert(wv[2] == ws@[2]@);
        }
        let start = match read_square::<S>(&ws[1]) {
            Some(sq) => sq,
            None => {
                return None;
            },
        };
        let end = match read_square::<S>(&ws[2]) {
            Some(sq) => sq,
            None => {
                return None;
            },
        };
        proof {
            assert(seq!['M'][0] != seq!['P'][0]);
        }
        let mut drops: Vec<u8> = Vec::new();
        let mut sum: u64 = 0;
        let mut i: usize = 3;
        while i < ws.len()
            invariant
                valid_size(S),
                wv == words(input@),
                wv == views(ws@),
                wv[0] == seq!['M'],
                seq!['M'] != seq!['P'],
                ws.len() >= 4,
                3 <= i <= ws.len(),
                drops.len() == i - 3,
                forall|k: int| 3 <= k < i ==> (#[trigger] playtak_drop(wv[k])) is Some && playtak_drop(
                    wv[k],
                ).unwrap() >= 1,
                forall|k: int| 0 <= k < drops.len() ==> drops@[k] as nat == playtak_drop(#[trigger] wv[k + 3]).unwrap(),
                sum == int_sum(drops@.map_values(|d: u8| d as int)),
                sum <= S,
                sum >= drops.len(),
            decreases ws.len() - i,
        {
            proof {
                assert(wv[i as int] == ws@[i as int]@);
            }
            let d = match parse_decimal(&ws[i], 255) {
                Some(d) => d,
                None => {
                    proof {
                        assert(playtak_drop(wv[i as int]) is None);
                        assert(!drop_words_valid(wv));
                    }
                    return None;
                },
            };
            proof {
                assert(playtak_drop(wv[i as int]) == Some(d as nat));
            }
            if d == 0 {
                proof {
                    assert(!drop_words_valid(wv));
                }
                return None;
            }
            let ghost before = drops@;
            drops.push(d as u8);
            sum = sum + d;
            proof {
                assert(drops@.map_values(|d: u8| d as int).drop_last() =~= before.map_values(
                    |d: u8| d as int,
                ));
            }
            if sum > S as u64 {
                proof {
                    if drop_words_valid(wv) {
                        let dv = drop_values(wv);
                        assert(drops@.map_values(|d: u8| d as int) =~= dv.subrange(0, i + 1 - 3));
                        lemma_prefix_int_sum(dv, i + 1 - 3);
                    }
                }
                return None;
            }
            i = i + 1;
        }
        proof {
            assert(drops@.map_values(|d: u8| d as int) =~= drop_values(wv));
        }
        let direction = match read_direction(start, end) {
            Some(d) => d,
            None => {
                return None;
            },
        };
        let ghost all = drops@.map_values(|d: u8| d as int);
        let _ = drops.pop();
        proof {
            assert(drops@.map_values(|d: u8| d as int) =~= all.drop_last());
            assert(all.last() >= 1);
            assert(int_sum(all) == int_sum(all.drop_last()) + all.last());
            assert forall|k: int| 0 <= k < all.drop_last().len() implies #[trigger] all.drop_last()[k] >= 1 by {
                assert(all[k] == playtak_drop(wv[k + 3]).unwrap());
            }
        }
        let stack_movement = movement_from_drops::<S>(sum as u8, &drops);
        Some(Move::movement(start, direction, stack_movement))
    } else {
        None
    }
}

impl<const S: usize> Move<S> {
    /// Reads a move in the playtak notation.
    pub fn from_string_playtak(input: &str) -> (m: Move<S>)
        requires
            valid_size(S),
            !spec_playtak_panics::<S>(input@),
        ensures
            m.wf(),
            m.spec_expand() == spec_parse_playtak::<S>(input@),
    {
        match read_playtak::<S>(input) {
            Some(m) => m,
            None => {
                proof {
                    assert(false);
                }
                Move::placement(Role::Flat, Square::from_u8(0))
            },
        }
    }
}

/// Whether reading a text as a move in the playtak notation fails, which
/// `Move::from_string_playtak` does not accept.
pub fn playtak_move_panics<const S: usize>(input: &str) -> (b: bool)
    requires
        valid_size(S),
    ensures
        b == spec_playtak_panics::<S>(input@),
{
    read_playtak::<S>(input).is_none()
}

} // verus!

verus! {

/// A square's name in capitals reads back as the square.
proof fn lemma_upper_name<const S: usize>(sq: Square<S>)
    requires
        valid_size(S),
        sq.valid(),
    ensures
        ascii_lower(upper_name(sq)) == sq.spec_name(),
        playtak_square::<S>(upper_name(sq)) == Some(sq),
        upper_name(sq).len() == 2,
        forall|i: int| 0 <= i < 2 ==> !spec_is_whitespace(#[trigger] upper_name(sq)[i]),
{
    lemma_parse_name(sq);
    sq.lemma_rank_file();
    let u = upper_name(sq);
    let f = sq.spec_file();
    let r = sq.spec_rank();
    assert(u[0] as int == f + 65);
    assert(u[1] as int == S - r + 48);
    assert(ascii_lower(u) =~= sq.spec_name());
}

/// Characters separated by spaces are words of one character each.
proof fn lemma_words_spaced(ds: Seq<char>)
    requires
        ds.len() >= 1,
        forall|i: int| 0 <= i < ds.len() ==> !spec_is_whitespace(#[trigger] ds[i]),
    ensures
        words(spaced(ds)) == Seq::new(ds.len(), |i: int| seq![ds[i]]),
    decreases ds.len(),
{
    assert(!spec_is_whitespace(ds[ds.len() - 1]));
    if ds.len() == 1 {
        assert(spaced(ds) =~= seq![ds[0]]);
        lemma_words_single(seq![ds[0]]);
        assert(Seq::new(ds.len(), |i: int| seq![ds[i]]) =~= seq![seq![ds[0]]]);
    } else {
        let d1 = ds.drop_last();
        assert forall|i: int| 0 <= i < d1.len() implies !spec_is_whitespace(#[trigger] d1[i]) by {
            assert(d1[i] == ds[i]);
        }
        lemma_words_spaced(d1);
        let a = spaced(d1);
        let last = seq![ds.last()];
        assert(spaced(ds) =~= a + seq![' '] + last);
        lemma_words_concat(a, seq![' ']);
        assert(words(seq![' ']) =~= Seq::<Seq<char>>::empty()) by {
            assert(words(Seq::<char>::empty()) == Seq::<Seq<char>>::empty());
            assert(seq![' '].drop_last() =~= Seq::<char>::empty());
        }
        lemma_words_concat(a + seq![' '], last);
        lemma_words_single(last);
        assert(Seq::new(d1.len(), |i: int| seq![d1[i]]).push(last) =~= Seq::new(
            ds.len(),
            |i: int| seq![ds[i]],
        ));
        assert(words(a + seq![' ']) =~= words(a));
    }
}

/// A digit reads as its value.
proof fn lemma_digit_word(v: int)
    requires
        0 <= v <= 9,
    ensures
        playtak_drop(seq![digit_char(v)]) == Some(v as nat),
        !spec_is_whitespace(digit_char(v)),
{
    let w = seq![digit_char(v)];
    assert(digit_char(v) as int == v + 48);
    assert(sign_dropped(w) == w);
    assert(digits_value(Seq::<char>::empty()) == 0);
    assert(w.drop_last() =~= Seq::<char>::empty());
    assert(digits_value(w) == v);
}

/// The words `M`, a square and another square.
proof fn lemma_words_move_head(u1: Seq<char>, u2: Seq<char>)
    requires
        u1.len() == 2,
        u2.len() == 2,
        forall|i: int| 0 <= i < 2 ==> !spec_is_whitespace(#[trigger] u1[i]),
        forall|i: int| 0 <= i < 2 ==> !spec_is_whitespace(#[trigger] u2[i]),
    ensures
        words(seq!['M', ' '] + u1 + seq![' '] + u2 + seq![' ']) == seq![seq!['M'], u1, u2],
{
    let sp = seq![' '];
    assert(words(sp) =~= Seq::<Seq<char>>::empty()) by {
        assert(words(Seq::<char>::empty()) == Seq::<Seq<char>>::empty());
        assert(sp.drop_last() =~= Seq::<char>::empty());
    }
    lemma_words_single(seq!['M']);
    lemma_words_single(u1);
    lemma_words_single(u2);
    let t1 = seq!['M'] + sp;
    lemma_words_concat(seq!['M'], sp);
    let t2 = t1 + u1;
    lemma_words_concat(t1, u1);
    let t3 = t2 + sp;
    lemma_words_concat(t2, sp);
    let t4 = t3 + u2;
    lemma_words_concat(t3, u2);
    let t5 = t4 + sp;
    lemma_words_concat(t4, sp);
    assert(seq!['M', ' '] + u1 + seq![' '] + u2 + seq![' '] =~= t5);
    assert(words(t5) =~= seq![seq!['M'], u1, u2]);
}

/// Reading a placement written in the playtak notation gives it back.
proof fn lemma_playtak_round_trip_place<const S: usize>(role: Role, sq: Square<S>)
    requires
        valid_size(S),
        sq.valid(),
    ensures
        !spec_playtak_panics::<S>(spec_playtak(ExpMove::Place(role, sq))),
        spec_parse_playtak::<S>(spec_playtak(ExpMove::Place(role, sq))) == ExpMove::<S>::Place(role, sq),
{
    let u = upper_name(sq);
    lemma_upper_name(sq);
    let sp = seq![' '];
    assert(words(sp) =~= Seq::<Seq<char>>::empty()) by {
        assert(words(Seq::<char>::empty()) == Seq::<Seq<char>>::empty());
        assert(sp.drop_last() =~= Seq::<char>::empty());
    }
    lemma_words_single(seq!['P']);
    lemma_words_single(u);
    let t1 = seq!['P'] + sp;
    lemma_words_concat(seq!['P'], sp);
    let t2 = t1 + u;
    lemma_words_concat(t1, u);
    assert(seq!['P'][0] != seq!['M'][0]);
    assert(seq!['P'] != seq!['M']);
    match role {
        Role::Flat => {
            assert(spec_playtak(ExpMove::<S>::Place(role, sq)) =~= t2);
            assert(words(t2) =~= seq![seq!['P'], u]);
        },
        Role::Wall => {
            let t3 = t2 + sp;
            lemma_words_concat(t2, sp);
            lemma_words_single(seq!['W']);
            lemma_words_concat(t3, seq!['W']);
            assert(spec_playtak(ExpMove::<S>::Place(role, sq)) =~= t3 + seq!['W']);
            assert(words(t3 + seq!['W']) =~= seq![seq!['P'], u, seq!['W']]);
            assert(seq!['W'][0] != seq!['C'][0]);
        },
        Role::Cap => {
            let t3 = t2 + sp;
            lemma_words_concat(t2, sp);
            lemma_words_single(seq!['C']);
            lemma_words_concat(t3, seq!['C']);
            assert(spec_playtak(ExpMove::<S>::Place(role, sq)) =~= t3 + seq!['C']);
            assert(words(t3 + seq!['C']) =~= seq![seq!['P'], u, seq!['C']]);
        },
    }
}

/// The direction from a square to a square some steps away in a direction is that direction.
proof fn lemma_direction_of_jump<const S: usize>(sq: Square<S>, d: Direction, steps: int)
    requires
        valid_size(S),
        sq.valid(),
        steps >= 1,
        sq.spec_jump_direction(d, steps) is Some,
    ensures
        playtak_direction(sq, sq.spec_jump_direction(d, steps).unwrap()) == Some(d),
{
    sq.lemma_rank_file();
    let (r, f) = super::square::spec_jump(S as int, sq.spec_rank(), sq.spec_file(), d, steps).unwrap();
    Square::<S>::lemma_from_rank_file(r, f);
}

/// Reading a movement written in the playtak notation gives it back.
#[verifier::rlimit(40)]
proof fn lemma_playtak_round_trip_move<const S: usize>(sq: Square<S>, d: Direction, sm: StackMovement<S>)
    requires
        valid_size(S),
        sq.valid(),
        sm.data != 0,
        sm@[0] <= S,
        sq.spec_jump_direction(d, playtak_steps(sm@)) is Some,
    ensures
        !spec_playtak_panics::<S>(spec_playtak(ExpMove::Move(sq, d, sm))),
        spec_parse_playtak::<S>(spec_playtak(ExpMove::Move(sq, d, sm))) == ExpMove::<S>::Move(sq, d, sm),
{
    let ts = sm@;
    lemma_takes_below_shape(sm.data, 8);
    lemma_first_take(sm.data);
    lemma_takes_data_inverse(sm.data);
    let k = ts.len() as int;
    let end = sq.spec_jump_direction(d, k).unwrap();
    assert(end.valid()) by {
        sq.lemma_rank_file();
        let (r, f) = super::square::spec_jump(S as int, sq.spec_rank(), sq.spec_file(), d, k).unwrap();
        Square::<S>::lemma_from_rank_file(r, f);
    }
    lemma_upper_name(sq);
    lemma_upper_name(end);
    lemma_direction_of_jump(sq, d, k);
    let nums = drop_digits(ts);
    assert(nums.len() == k);
    assert forall|j: int| 0 <= j < k implies #[trigger] nums[j] == digit_char(
        if j < k - 1 { ts[j] - ts[j + 1] } else { ts[k - 1] as int },
    ) by {}
    assert forall|j: int| 0 <= j < k implies !spec_is_whitespace(#[trigger] nums[j]) by {
        if j < k - 1 {
            assert(ts[j] > ts[j + 1]);
            lemma_digit_word(ts[j] - ts[j + 1]);
        } else {
            lemma_digit_word(ts[k - 1] as int);
        }
    }
    lemma_words_spaced(nums);
    lemma_words_move_head(upper_name(sq), upper_name(end));
    let head = seq!['M', ' '] + upper_name(sq) + seq![' '] + upper_name(end) + seq![' '];
    lemma_words_concat(head, spaced(nums));
    let text = spec_playtak(ExpMove::<S>::Move(sq, d, sm));
    assert(text =~= head + spaced(nums));
    let ws = words(text);
    assert(ws =~= seq![seq!['M'], upper_name(sq), upper_name(end)] + Seq::new(nums.len(), |i: int| seq![nums[i]]));
    assert(ws.len() == 3 + k);
    // The numbers.
    let full = Seq::new(k as nat, |j: int| if j < k - 1 { ts[j] - ts[j + 1] } else { ts[k - 1] as int });
    assert forall|j: int| 3 <= j < ws.len() implies (#[trigger] playtak_drop(ws[j])) == Some(full[j - 3] as nat) by {
        assert(ws[j] == seq![nums[j - 3]]);
        if j - 3 < k - 1 {
            assert(ts[j - 3] > ts[j - 2]);
            lemma_digit_word(ts[j - 3] - ts[j - 2]);
        } else {
            lemma_digit_word(ts[k - 1] as int);
        }
    }
    assert(drop_values(ws) =~= full);
    assert(drop_words_valid(ws)) by {
        assert forall|j: int| 3 <= j < ws.len() implies (#[trigger] playtak_drop(ws[j])) is Some && playtak_drop(
            ws[j],
        ).unwrap() >= 1 by {
            if j - 3 < k - 1 {
                assert(ts[j - 3] > ts[j - 2]);
            }
        }
    }
    let diffs = Seq::new((k - 1) as nat, |j: int| ts[j] - ts[j + 1]);
    lemma_drops_telescope(ts, k);
    assert(full.drop_last() =~= diffs);
    assert(int_sum(full) == int_sum(full.drop_last()) + full.last());
    assert(int_sum(full) == ts[0]);
    assert(ts.subrange(0, k) =~= ts);
    assert(seq!['M'][0] != seq!['P'][0]);
}

/// Reading a move written in the playtak notation gives the move back.
pub proof fn lemma_playtak_round_trip<const S: usize>(m: ExpMove<S>)
    requires
        valid_size(S),
        playtak_printable(m),
        m matches ExpMove::Move(_, _, sm) ==> sm.data != 0 && sm@[0] <= S,
    ensures
        !spec_playtak_panics::<S>(spec_playtak(m)),
        spec_parse_playtak::<S>(spec_playtak(m)) == m,
{
    match m {
        ExpMove::Place(role, sq) => lemma_playtak_round_trip_place(role, sq),
        ExpMove::Move(sq, d, sm) => lemma_playtak_round_trip_move(sq, d, sm),
    }
}

} // verus!
