//! Moves written in PTN, such as `Ca1` or `3c3>12`.
use vstd::prelude::*;

use super::square::{valid_size, Square};
use super::utils::{bit8, lemma_bit8_ext, lemma_bit8_ops, lemma_takes_below_shape, takes_below, Direction, Role, StackMovement};
use super::mv::{ExpMove, Move};
use crate::text::{chars_to_string, lemma_char_code};

verus! {

/// The character of a digit (character code 48 is `0`).
pub open spec fn digit_char(n: int) -> char {
    ((n + 48) as u8) as char
}

/// The pieces carried at the first step, or 0 when there is none.
pub open spec fn first_take(ts: Seq<nat>) -> nat {
    if ts.len() > 0 {
        ts[0]
    } else {
        0
    }
}

/// The pieces dropped at each square but the last, then the pieces dropped on the last.
pub open spec fn drop_digits(ts: Seq<nat>) -> Seq<char> {
    Seq::new((ts.len() - 1) as nat, |j: int| digit_char(ts[j] - ts[j + 1])).push(digit_char(ts.last() as int))
}

/// A move in PTN: a placement is the square, after `C` for a capstone or `S` for a wall; a
/// movement is the number of pieces taken (left out when it is 1), the square and the
/// direction, then, when it goes further than one square, the pieces dropped on each square.
pub open spec fn spec_ptn<const S: usize>(m: ExpMove<S>) -> Seq<char> {
    match m {
        ExpMove::Place(role, square) => match role {
            Role::Cap => seq!['C'] + square.spec_name(),
            Role::Flat => square.spec_name(),
            Role::Wall => seq!['S'] + square.spec_name(),
        },
        ExpMove::Move(square, direction, sm) => {
            let ts = sm@;
            let head = if first_take(ts) == 1 {
                square.spec_name()
            } else {
                seq![digit_char(first_take(ts) as int)] + square.spec_name()
            };
            head.push(direction.spec_symbol()) + if ts.len() > 1 {
                drop_digits(ts)
            } else {
                Seq::empty()
            }
        },
    }
}

pub open spec fn move_valid<const S: usize>(m: ExpMove<S>) -> bool {
    match m {
        ExpMove::Place(_, square) => square.valid(),
        ExpMove::Move(square, _, _) => square.valid(),
    }
}

/// A stack movement moves something exactly when it has a step.
pub proof fn lemma_first_take(data: u8)
    ensures
        (data != 0) == (takes_below(data, 8).len() > 0),
        data == 0 ==> takes_below(data, 8).len() == 0,
{
    lemma_takes_below_shape(data, 8);
    let ts = takes_below(data, 8);
    if ts.len() == 0 {
        assert forall|j: u8| j < 8 implies #[trigger] bit8(data, j) == bit8(0u8, j) by {
            lemma_bit8_ops(0, 0, j);
            if bit8(data, j) {
                assert(ts.contains((j + 1) as nat));
            }
        }
        lemma_bit8_ext(data, 0);
    }
    if data == 0 && ts.len() > 0 {
        assert(ts.contains(ts[0]));
        lemma_bit8_ops(0, 0, (ts[0] - 1) as u8);
    }
}

pub(crate) fn push_digit(out: &mut Vec<char>, n: u8)
    requires
        n <= 9,
    ensures
        final(out)@ == old(out)@.push(digit_char(n as int)),
{
    out.push(((n + 48) as u8) as char);
}

fn push_all(out: &mut Vec<char>, chars: &Vec<char>)
    ensures
        final(out)@ == old(out)@ + chars@,
{
    let ghost start = out@;
    let mut i: usize = 0;
    while i < chars.len()
        invariant
            i <= chars.len(),
            out@ == start + chars@.subrange(0, i as int),
        decreases chars.len() - i,
    {
        out.push(chars[i]);
        i = i + 1;
        proof {
            assert(out@ =~= start + chars@.subrange(0, i as int));
        }
    }
    proof {
        assert(chars@.subrange(0, chars.len() as int) =~= chars@);
    }
}

impl<const S: usize> ExpMove<S> {
    /// The move in PTN.
    pub fn to_chars(&self) -> (out: Vec<char>)
        requires
            valid_size(S),
            move_valid(*self),
        ensures
            out@ == spec_ptn(*self),
    {
        let mut out: Vec<char> = Vec::new();
        match *self {
            ExpMove::Place(role, square) => {
                match role {
                    Role::Cap => out.push('C'),
                    Role::Flat => {},
                    Role::Wall => out.push('S'),
                }
                push_all(&mut out, &square.name());
                proof {
                    assert(out@ =~= spec_ptn(*self));
                }
            },
            ExpMove::Move(square, direction, stack_movements) => {
                let ghost ts = stack_movements@;
                proof {
                    lemma_takes_below_shape(stack_movements.data, 8);
                    lemma_first_take(stack_movements.data);
                }
                let mut pieces_held = stack_movements.get_first().pieces_to_take;
                if pieces_held != 1 {
                    push_digit(&mut out, pieces_held);
                }
                push_all(&mut out, &square.name());
                out.push(direction.symbol());
                let ghost head = out@;
                proof {
                    assert(head =~= (if first_take(ts) == 1 {
                        square.spec_name()
                    } else {
                        seq![digit_char(first_take(ts) as int)] + square.spec_name()
                    }).push(direction.spec_symbol()));
                }
                // Omit number of pieces dropped, if all stones are dropped immediately
                if stack_movements.len() > 1 {
                    let mut it = stack_movements.into_iter();
                    let _ = it.next();
                    let mut i: usize = 1;
                    while i < stack_movements.len()
                        invariant
                            ts == stack_movements@,
                            ts.len() > 1,
                            1 <= i <= ts.len(),
                            it@ == ts.subrange(i as int, ts.len() as int),
                            pieces_held == ts[i - 1],
                            forall|j: int| 0 <= j < ts.len() ==> 1 <= #[trigger] ts[j] <= 8,
                            forall|j: int, k: int| 0 <= j < k < ts.len() ==> #[trigger] ts[j] > #[trigger] ts[k],
                            out@ == head + Seq::new((i - 1) as nat, |j: int| digit_char(ts[j] - ts[j + 1])),
                        decreases ts.len() - i,
                    {
                        let movement = it.next().unwrap();
                        let pieces_to_drop = pieces_held - movement.pieces_to_take;
                        push_digit(&mut out, pieces_to_drop);
                        pieces_held = pieces_held - pieces_to_drop;
                        proof {
                            assert(out@ =~= head + Seq::new(i as nat, |j: int| digit_char(ts[j] - ts[j + 1])));
                        }
                        i = i + 1;
                    }
                    push_digit(&mut out, pieces_held);
                    proof {
                        assert(out@ =~= spec_ptn(*self));
                    }
                } else {
                    proof {
                        assert(out@ =~= spec_ptn(*self));
                    }
                }
            },
        }
        out
    }

    /// The move in PTN.
    pub fn to_string(&self) -> (s: String)
        requires
            valid_size(S),
            move_valid(*self),
        ensures
            s@ == spec_ptn(*self),
    {
        chars_to_string(&self.to_chars())
    }
}

impl<const S: usize> Move<S> {
    /// The move in PTN.
    pub fn to_string(&self) -> (s: String)
        requires
            valid_size(S),
            self.wf(),
        ensures
            s@ == spec_ptn(self.spec_expand()),
    {
        self.expand().to_string()
    }
}

} // verus!

verus! {

/// The text without the trailing `*` of crush notation.
pub open spec fn trim_stars(s: Seq<char>) -> Seq<char>
    decreases s.len(),
{
    if s.len() > 0 && s.last() == '*' {
        trim_stars(s.drop_last())
    } else {
        s
    }
}

pub open spec fn all_ascii(s: Seq<char>) -> bool {
    forall|i: int| 0 <= i < s.len() ==> (#[trigger] s[i] as int) < 128
}

/// A character code between `lo` and `hi`.
pub open spec fn code_in(c: char, lo: int, hi: int) -> bool {
    lo <= c as int <= hi
}

pub open spec fn all_digits(s: Seq<char>) -> bool {
    forall|i: int| 0 <= i < s.len() ==> code_in(#[trigger] s[i], 48, 57)
}

pub open spec fn digit_values(s: Seq<char>) -> Seq<int> {
    Seq::new(s.len(), |i: int| s[i] as int - 48)
}

pub open spec fn int_sum(ds: Seq<int>) -> int
    decreases ds.len(),
{
    if ds.len() == 0 {
        0
    } else {
        int_sum(ds.drop_last()) + ds.last()
    }
}

/// The pieces carried at each step, when `n` pieces are taken and `ds` are dropped, in order,
/// on all squares but the last.
pub open spec fn takes_of(n: int, ds: Seq<int>) -> Seq<nat>
    decreases ds.len(),
{
    if ds.len() == 0 {
        seq![n as nat]
    } else {
        takes_of(n, ds.drop_last()).push((n - int_sum(ds)) as nat)
    }
}

/// Every square gets at least one piece, and some are left for the last one.
pub open spec fn drops_fit(n: int, ds: Seq<int>) -> bool {
    &&& forall|i: int| 0 <= i < ds.len() ==> #[trigger] ds[i] >= 1
    &&& int_sum(ds) < n
}

/// The stack movement that carries `ts` pieces at its steps.
pub open spec fn takes_data(ts: Seq<nat>) -> u8
    decreases ts.len(),
{
    if ts.len() == 0 {
        0
    } else {
        takes_data(ts.drop_last()) | (1u8 << ((ts.last() - 1) as u8))
    }
}

/// The drops of a movement in PTN: all digits but the last one, which is not read.
pub open spec fn ptn_drops(t: Seq<char>) -> Seq<int> {
    let ds = digit_values(t.subrange(4, t.len() as int));
    if ds.len() == 0 {
        ds
    } else {
        ds.drop_last()
    }
}

/// Whether `t` has the form of a movement of more than one piece: count, square, direction and
/// digits, with a count the board allows.
pub open spec fn ptn_count_form<const S: usize>(t: Seq<char>) -> bool {
    &&& t.len() > 3
    &&& all_ascii(t)
    &&& code_in(t[0], 49, 56)
    &&& Square::<S>::spec_parse(t.subrange(1, 3)) is Some
    &&& Direction::spec_parse(t[3]) is Some
    &&& t[0] as int - 48 <= S
    &&& all_digits(t.subrange(4, t.len() as int))
}

/// Reading a movement of that form fails when a square gets no piece or no pieces are left
/// for the last square.
pub open spec fn spec_parse_ptn_panics<const S: usize>(input: Seq<char>) -> bool {
    let t = trim_stars(input);
    ptn_count_form::<S>(t) && !drops_fit(t[0] as int - 48, ptn_drops(t))
}

/// The move that a PTN text stands for: see `spec_ptn`. Trailing `*` are ignored, and the last
/// number of pieces dropped is not read.
pub open spec fn spec_parse_ptn<const S: usize>(input: Seq<char>) -> Option<ExpMove<S>> {
    let t = trim_stars(input);
    if t.len() < 2 || !all_ascii(t) {
        None
    } else if code_in(t[0], 97, 104) && t.len() == 2 {
        match Square::<S>::spec_parse(t) {
            Some(sq) => Some(ExpMove::Place(Role::Flat, sq)),
            None => None,
        }
    } else if code_in(t[0], 97, 104) && t.len() == 3 {
        match (Square::<S>::spec_parse(t.subrange(0, 2)), Direction::spec_parse(t[2])) {
            (Some(sq), Some(d)) => Some(ExpMove::Move(sq, d, StackMovement { data: 1 })),
            _ => None,
        }
    } else if t[0] == 'C' && t.len() == 3 {
        match Square::<S>::spec_parse(t.subrange(1, 3)) {
            Some(sq) => Some(ExpMove::Place(Role::Cap, sq)),
            None => None,
        }
    } else if t[0] == 'S' && t.len() == 3 {
        match Square::<S>::spec_parse(t.subrange(1, 3)) {
            Some(sq) => Some(ExpMove::Place(Role::Wall, sq)),
            None => None,
        }
    } else if code_in(t[0], 49, 56) && t.len() > 3 {
        if ptn_count_form::<S>(t) {
            Some(
                ExpMove::Move(
                    Square::<S>::spec_parse(t.subrange(1, 3)).unwrap(),
                    Direction::spec_parse(t[3]).unwrap(),
                    StackMovement { data: takes_data(takes_of(t[0] as int - 48, ptn_drops(t))) },
                ),
            )
        } else {
            None
        }
    } else {
        None
    }
}

} // verus!

verus! {

proof fn lemma_shift_clear(d: u8, s: u8)
    requires
        s < 8,
        forall|j: u8| s <= j < 8 ==> !#[trigger] bit8(d, j),
    ensures
        d >> s == 0,
{
    assert forall|j: u8| j < 8 implies #[trigger] bit8(d >> s, j) == bit8(0u8, j) by {
        assert(j < 8 && s < 8 ==> (((d >> s) >> j) & 1u8 == 1u8) == ((j + s) < 8 && (d >> ((j + s) as u8)) & 1u8 == 1u8))
            by (bit_vector);
        lemma_bit8_ops(0, 0, j);
        if j + s < 8 {
            assert(!bit8(d, (j + s) as u8));
        }
    }
    lemma_bit8_ext(d >> s, 0);
}

proof fn lemma_takes_of_first(n: int, ds: Seq<int>)
    ensures
        takes_of(n, ds).len() == ds.len() + 1,
        takes_of(n, ds)[0] == n as nat,
    decreases ds.len(),
{
    if ds.len() > 0 {
        lemma_takes_of_first(n, ds.drop_last());
    }
}

pub(crate) proof fn lemma_prefix_int_sum(ds: Seq<int>, i: int)
    requires
        0 <= i <= ds.len(),
        forall|k: int| 0 <= k < ds.len() ==> #[trigger] ds[k] >= 0,
    ensures
        int_sum(ds.subrange(0, i)) <= int_sum(ds),
    decreases ds.len(),
{
    if i < ds.len() {
        assert(ds.drop_last().subrange(0, i) =~= ds.subrange(0, i));
        lemma_prefix_int_sum(ds.drop_last(), i);
    } else {
        assert(ds.subrange(0, i) =~= ds);
    }
}

/// Builds the stack movement that takes `n` pieces and drops `drops` in order on all squares
/// but the last.
pub(crate) fn movement_from_drops<const S: usize>(n: u8, drops: &Vec<u8>) -> (sm: StackMovement<S>)
    requires
        valid_size(S),
        1 <= n <= S,
        drops_fit(n as int, drops@.map_values(|d: u8| d as int)),
    ensures
        sm.data == takes_data(takes_of(n as int, drops@.map_values(|d: u8| d as int))),
        sm.data != 0,
        StackMovement::<S>::fits(sm.data),
        sm@ == takes_of(n as int, drops@.map_values(|d: u8| d as int)),
{
    let ghost ds = drops@.map_values(|d: u8| d as int);
    proof {
        lemma_bit8_ops(0, (n - 1) as u8, 0);
        assert forall|j: u8| j < n implies !#[trigger] bit8(0u8, j) by {
            lemma_bit8_ops(0, 0, j);
        }
        assert(ds.subrange(0, 0) =~= Seq::<int>::empty());
        assert(takes_data(Seq::<nat>::empty()) == 0);
        assert(seq![n as nat].drop_last() =~= Seq::<nat>::empty());
    }
    let mut movements = StackMovement::<S>::new().with_take(n);
    let mut held = n;
    let mut i: usize = 0;
    proof {
        assert(takes_of(n as int, ds.subrange(0, 0)) == seq![n as nat]);
        assert forall|j: u8| j < 8 && bit8(movements.data, j) implies n - 1 <= j <= n - 1 by {
            lemma_bit8_ops(0, (n - 1) as u8, j);
            lemma_bit8_ops(0, 0, j);
        }
    }
    while i < drops.len()
        invariant
            valid_size(S),
            1 <= n <= S,
            ds == drops@.map_values(|d: u8| d as int),
            drops_fit(n as int, ds),
            i <= drops.len(),
            1 <= held <= n,
            held == n - int_sum(ds.subrange(0, i as int)),
            movements.data == takes_data(takes_of(n as int, ds.subrange(0, i as int))),
            movements@ == takes_of(n as int, ds.subrange(0, i as int)),
            forall|j: u8| j < 8 && bit8(movements.data, j) ==> held - 1 <= j <= n - 1,
        decreases drops.len() - i,
    {
        let d = drops[i];
        proof {
            lemma_prefix_int_sum(ds, i + 1);
            assert(ds.subrange(0, i + 1).drop_last() =~= ds.subrange(0, i as int));
            assert(ds[i as int] == d as int);
            assert(ds.subrange(0, i + 1).last() == d as int);
            assert forall|j: u8| j < held - d implies !#[trigger] bit8(movements.data, j) by {}
        }
        let take = held - d;
        let ghost before = movements.data;
        movements = movements.with_take(take);
        proof {
            assert forall|j: u8| j < 8 && bit8(movements.data, j) implies take - 1 <= j <= n - 1 by {
                lemma_bit8_ops(before, (take - 1) as u8, j);
            }
            let ts = takes_of(n as int, ds.subrange(0, i + 1));
            assert(ts == takes_of(n as int, ds.subrange(0, i as int)).push(take as nat));
            assert(ts.drop_last() =~= takes_of(n as int, ds.subrange(0, i as int)));
        }
        held = take;
        i = i + 1;
    }
    proof {
        assert(ds.subrange(0, drops.len() as int) =~= ds);
        if S < 8 {
            assert forall|j: u8| S as u8 <= j < 8 implies !#[trigger] bit8(movements.data, j) by {}
            lemma_shift_clear(movements.data, S as u8);
        }
        assert(bit8(movements.data, (n - 1) as u8)) by {
            lemma_takes_below_shape(movements.data, 8);
            lemma_takes_of_first(n as int, ds);
            assert(movements@[0] == n);
            assert(movements@.contains(n as nat));
        }
        if movements.data == 0 {
            lemma_bit8_ops(0, 0, (n - 1) as u8);
        }
    }
    movements
}

} // verus!

verus! {

/// Two characters of `chars`, from `start`.
fn pair(chars: &Vec<char>, start: usize) -> (v: Vec<char>)
    requires
        start + 2 <= chars.len(),
    ensures
        v@ == chars@.subrange(start as int, start + 2),
{
    let mut v: Vec<char> = Vec::new();
    v.push(chars[start]);
    v.push(chars[start + 1]);
    proof {
        assert(v@ =~= chars@.subrange(start as int, start + 2));
    }
    v
}

impl<const S: usize> Move<S> {
    /// Parses a move in PTN.
    pub fn from_string(input: &str) -> (r: Result<Move<S>, pgn_traits::Error>)
        requires
            valid_size(S),
            !spec_parse_ptn_panics::<S>(input@),
        ensures
            r is Ok <==> spec_parse_ptn::<S>(input@) is Some,
            r matches Ok(m) ==> m.wf() && Some(m.spec_expand()) == spec_parse_ptn::<S>(input@),
    {
        let mut chars = crate::text::str_to_chars(input);
        // Trim crush notation
        while chars.len() > 0 && chars[chars.len() - 1] == '*'
            invariant
                trim_stars(chars@) == trim_stars(input@),
            decreases chars.len(),
        {
            let ghost before = chars@;
            chars.pop();
            proof {
                assert(chars@ =~= before.drop_last());
            }
        }
        let ghost t = chars@;
        proof {
            assert(trim_stars(t) == t);
            assert(trim_stars(input@) == t);
        }
        if chars.len() < 2 {
            return Err(crate::text::parse_error("Input move too short."));
        }
        let mut i: usize = 0;
        while i < chars.len()
            invariant
                t == chars@,
                trim_stars(input@) == t,
                t.len() >= 2,
                i <= chars.len(),
                forall|k: int| 0 <= k < i ==> (#[trigger] t[k] as int) < 128,
            decreases chars.len() - i,
        {
            proof {
                lemma_char_code(chars@[i as int]);
            }
            if chars[i] as u32 >= 128 {
                proof {
                    assert(!all_ascii(t)) by {
                        assert((t[i as int] as int) >= 128);
                    }
                    assert(spec_parse_ptn::<S>(input@) is None);
                }
                return Err(crate::text::parse_error("Input move contained non-ascii characters."));
            }
            i = i + 1;
        }
        let first_char = chars[0];
        proof {
            lemma_char_code(first_char);
        }
        let first = first_char as u32;
        let len = chars.len();
        if 97 <= first && first <= 104 && len == 2 {
            let square = Square::<S>::parse_square_chars(&chars)?;
            return Ok(Self::placement(Role::Flat, square));
        }
        if 97 <= first && first <= 104 && len == 3 {
            let square = Square::<S>::parse_square_chars(&pair(&chars, 0))?;
            let direction = match Direction::parse(chars[2]) {
                Some(d) => d,
                None => {
                    return Err(crate::text::parse_error("Bad direction"));
                },
            };
            // Moves in the simplified move notation always move one piece
            proof {
                lemma_bit8_ops(0, 0, 0);
            }
            let movement = StackMovement::<S>::new().with_take(1);
            proof {
                assert(movement.data == 1) by {
                    assert(0u8 | (1u8 << 0u8) == 1) by (bit_vector);
                }
                if S < 8 {
                    let s = S as u8;
                    assert(3 <= s < 8 ==> 1u8 >> s == 0) by (bit_vector);
                }
            }
            return Ok(Self::movement(square, direction, movement));
        }
        if first_char == 'C' && len == 3 {
            let square = Square::<S>::parse_square_chars(&pair(&chars, 1))?;
            return Ok(Self::placement(Role::Cap, square));
        }
        if first_char == 'S' && len == 3 {
            let square = Square::<S>::parse_square_chars(&pair(&chars, 1))?;
            return Ok(Self::placement(Role::Wall, square));
        }
        if 49 <= first && first <= 56 && len > 3 {
            let square = Square::<S>::parse_square_chars(&pair(&chars, 1))?;
            let direction = match Direction::parse(chars[3]) {
                Some(d) => d,
                None => {
                    return Err(crate::text::parse_error("Bad direction"));
                },
            };
            let pieces_taken = (first - 48) as u8;
            if pieces_taken as usize > S {
                return Err(crate::text::parse_error("Too many pieces taken for the board size."));
            }
            let mut amounts_to_drop: Vec<u8> = Vec::new();
            let mut k: usize = 4;
            while k < len
                invariant
                    t == chars@,
                    trim_stars(input@) == t,
                    all_ascii(t),
                    code_in(t[0], 49, 56),
                    len == t.len(),
                    4 <= k <= len,
                    amounts_to_drop@.len() == k - 4,
                    forall|m: int| 4 <= m < k ==> code_in(#[trigger] t[m], 48, 57),
                    forall|m: int| 0 <= m < k - 4 ==> amounts_to_drop@[m] == t[m + 4] as int - 48,
                decreases len - k,
            {
                proof {
                    lemma_char_code(chars@[k as int]);
                }
                let code = chars[k] as u32;
                if code < 48 || code > 57 {
                    proof {
                        assert(t.subrange(4, t.len() as int)[k - 4] == t[k as int]);
                        assert(!all_digits(t.subrange(4, t.len() as int)));
                        assert(!ptn_count_form::<S>(t));
                        assert(spec_parse_ptn::<S>(input@) is None);
                    }
                    return Err(crate::text::parse_error("Found a non-digit where a number of pieces to drop was expected."));
                }
                amounts_to_drop.push((code - 48) as u8);
                k = k + 1;
            }
            let ghost digits = amounts_to_drop@.map_values(|d: u8| d as int);
            proof {
                assert(digits =~= digit_values(t.subrange(4, t.len() as int)));
                assert(all_digits(t.subrange(4, t.len() as int)));
            }
            amounts_to_drop.pop();
            proof {
                assert(amounts_to_drop@.map_values(|d: u8| d as int) =~= ptn_drops(t));
                assert(ptn_count_form::<S>(t));
            }
            let movements = movement_from_drops::<S>(pieces_taken, &amounts_to_drop);
            return Ok(Self::movement(square, direction, movements));
        }
        Err(crate::text::parse_error("Couldn't parse move."))
    }
}

} // verus!

verus! {

impl<const S: usize> ExpMove<S> {
    /// Parses a move in PTN.
    pub fn from_string(input: &str) -> (r: Result<ExpMove<S>, pgn_traits::Error>)
        requires
            valid_size(S),
            !spec_parse_ptn_panics::<S>(input@),
        ensures
            r is Ok <==> spec_parse_ptn::<S>(input@) is Some,
            r matches Ok(m) ==> Some(m) == spec_parse_ptn::<S>(input@),
    {
        match Move::<S>::from_string(input) {
            Ok(m) => Ok(m.expand()),
            Err(e) => Err(e),
        }
    }
}

/// The bits of the stack movement of `ts` are those below the entries of `ts`.
proof fn lemma_takes_data_bits(ts: Seq<nat>, j: u8)
    requires
        j < 8,
        forall|i: int| 0 <= i < ts.len() ==> 1 <= #[trigger] ts[i] <= 8,
    ensures
        bit8(takes_data(ts), j) == ts.contains((j + 1) as nat),
    decreases ts.len(),
{
    if ts.len() == 0 {
        lemma_bit8_ops(0, 0, j);
    } else {
        let d = ts.drop_last();
        lemma_takes_data_bits(d, j);
        lemma_bit8_ops(takes_data(d), (ts.last() - 1) as u8, j);
        if ts.contains((j + 1) as nat) {
            let i = choose|i: int| 0 <= i < ts.len() && ts[i] == (j + 1) as nat;
            if i < ts.len() - 1 {
                assert(d[i] == ts[i]);
            }
        }
        if d.contains((j + 1) as nat) {
            let i = choose|i: int| 0 <= i < d.len() && d[i] == (j + 1) as nat;
            assert(ts[i] == d[i]);
        }
    }
}

/// The stack movement of the steps of a stack movement is the stack movement itself.
pub proof fn lemma_takes_data_inverse(data: u8)
    ensures
        takes_data(takes_below(data, 8)) == data,
{
    let ts = takes_below(data, 8);
    lemma_takes_below_shape(data, 8);
    assert forall|j: u8| j < 8 implies #[trigger] bit8(takes_data(ts), j) == bit8(data, j) by {
        lemma_takes_data_bits(ts, j);
    }
    lemma_bit8_ext(takes_data(ts), data);
}

/// Parsing a square's name gives the square back.
pub proof fn lemma_parse_name<const S: usize>(sq: Square<S>)
    requires
        valid_size(S),
        sq.valid(),
    ensures
        Square::<S>::spec_parse(sq.spec_name()) == Some(sq),
        97 <= sq.spec_name()[0] as int <= 104,
        49 <= sq.spec_name()[1] as int <= 56,
{
    sq.lemma_rank_file();
    let f = sq.spec_file();
    let r = sq.spec_rank();
    let c0 = ((f + 97) as u8) as char;
    let c1 = ((S as int - r + 48) as u8) as char;
    assert(c0 as int == f + 97);
    assert(c1 as int == S - r + 48);
}

/// The differences between consecutive entries add up to the fall from the first entry.
pub(crate) proof fn lemma_drops_telescope(ts: Seq<nat>, i: int)
    requires
        1 <= i <= ts.len(),
    ensures
        int_sum(Seq::new((i - 1) as nat, |j: int| ts[j] - ts[j + 1])) == ts[0] - ts[i - 1],
        takes_of(ts[0] as int, Seq::new((i - 1) as nat, |j: int| ts[j] - ts[j + 1])) == ts.subrange(0, i),
    decreases i,
{
    let ds = Seq::new((i - 1) as nat, |j: int| ts[j] - ts[j + 1]);
    if i == 1 {
        assert(ds.len() == 0);
        assert(ts.subrange(0, 1) =~= seq![ts[0]]);
    } else {
        lemma_drops_telescope(ts, i - 1);
        let prev = Seq::new((i - 2) as nat, |j: int| ts[j] - ts[j + 1]);
        assert(ds.drop_last() =~= prev);
        assert(ts.subrange(0, i) =~= ts.subrange(0, i - 1).push(ts[i - 1]));
    }
}

} // verus!

verus! {

/// Reading a placement written in PTN gives it back.
proof fn lemma_ptn_round_trip_place<const S: usize>(role: Role, sq: Square<S>)
    requires
        valid_size(S),
        sq.valid(),
    ensures
        !spec_parse_ptn_panics::<S>(spec_ptn(ExpMove::Place(role, sq))),
        spec_parse_ptn::<S>(spec_ptn(ExpMove::Place(role, sq))) == Some(ExpMove::<S>::Place(role, sq)),
{
    let t = spec_ptn(ExpMove::<S>::Place(role, sq));
    lemma_parse_name(sq);
    let name = sq.spec_name();
    match role {
        Role::Flat => {
            assert(t == name);
        },
        Role::Cap => {
            assert(t.subrange(1, 3) =~= name);
            assert(t[0] == 'C');
        },
        Role::Wall => {
            assert(t.subrange(1, 3) =~= name);
            assert(t[0] == 'S');
        },
    }
    assert(t.last() != '*');
    assert(trim_stars(t) == t);
    assert(all_ascii(t));
}

/// Reading a movement of one piece, written in PTN, gives it back.
proof fn lemma_ptn_round_trip_single<const S: usize>(sq: Square<S>, d: Direction, sm: StackMovement<S>)
    requires
        valid_size(S),
        sq.valid(),
        sm.data != 0,
        sm@[0] == 1,
    ensures
        !spec_parse_ptn_panics::<S>(spec_ptn(ExpMove::Move(sq, d, sm))),
        spec_parse_ptn::<S>(spec_ptn(ExpMove::Move(sq, d, sm))) == Some(ExpMove::<S>::Move(sq, d, sm)),
{
    let t = spec_ptn(ExpMove::<S>::Move(sq, d, sm));
    lemma_parse_name(sq);
    let name = sq.spec_name();
    let ts = sm@;
    lemma_takes_below_shape(sm.data, 8);
    lemma_first_take(sm.data);
    lemma_takes_data_inverse(sm.data);
    if ts.len() > 1 {
        assert(ts[0] > ts[1]);
    }
    assert(ts.len() == 1);
    assert(t =~= name.push(d.spec_symbol()));
    assert(t.subrange(0, 2) =~= name);
    assert(ts.drop_last().len() == 0);
    assert(takes_data(ts.drop_last()) == 0);
    assert(((ts.last() - 1) as u8) == 0u8);
    assert(takes_data(ts) == takes_data(ts.drop_last()) | (1u8 << ((ts.last() - 1) as u8)));
    assert(0u8 | (1u8 << 0u8) == 1) by (bit_vector);
    assert(takes_data(ts) == 1);
    assert(t.last() != '*');
    assert(trim_stars(t) == t);
    assert(all_ascii(t));
}

/// Reading a movement of several pieces, written in PTN, gives it back.
#[verifier::rlimit(40)]
proof fn lemma_ptn_round_trip_counted<const S: usize>(sq: Square<S>, d: Direction, sm: StackMovement<S>)
    requires
        valid_size(S),
        sq.valid(),
        sm.data != 0,
        2 <= sm@[0] <= S,
    ensures
        !spec_parse_ptn_panics::<S>(spec_ptn(ExpMove::Move(sq, d, sm))),
        spec_parse_ptn::<S>(spec_ptn(ExpMove::Move(sq, d, sm))) == Some(ExpMove::<S>::Move(sq, d, sm)),
{
    let t = spec_ptn(ExpMove::<S>::Move(sq, d, sm));
    lemma_parse_name(sq);
    let name = sq.spec_name();
    let ts = sm@;
    lemma_takes_below_shape(sm.data, 8);
    lemma_first_take(sm.data);
    lemma_takes_data_inverse(sm.data);
    let n = ts[0];
    let k = ts.len();
    let head = seq![digit_char(n as int)] + name;
    let tail = if k > 1 {
        drop_digits(ts)
    } else {
        Seq::empty()
    };
    assert(t =~= head.push(d.spec_symbol()) + tail);
    assert(t.subrange(1, 3) =~= name);
    assert(t[3] == d.spec_symbol());
    assert(t.subrange(4, t.len() as int) =~= tail);
    let ds = Seq::new((k - 1) as nat, |j: int| ts[j] - ts[j + 1]);
    lemma_drops_telescope(ts, k as int);
    assert(ts.subrange(0, k as int) =~= ts);
    assert(ptn_drops(t) =~= ds) by {
        let dv = digit_values(t.subrange(4, t.len() as int));
        if k > 1 {
            assert forall|j: int| 0 <= j < k - 1 implies #[trigger] dv[j] == ds[j] by {
                assert(tail[j] == digit_char(ts[j] - ts[j + 1]));
            }
            assert(dv.drop_last() =~= ds);
        } else {
            assert(dv.len() == 0);
        }
    }
    assert(forall|i: int| 0 <= i < ds.len() ==> #[trigger] ds[i] >= 1);
    assert(drops_fit(n as int, ds));
    assert(all_digits(t.subrange(4, t.len() as int))) by {
        if k > 1 {
            assert forall|i: int| 0 <= i < tail.len() implies code_in(#[trigger] tail[i], 48, 57) by {
                if i < k - 1 {
                    assert(tail[i] == digit_char(ts[i] - ts[i + 1]));
                } else {
                    assert(tail[i] == digit_char(ts.last() as int));
                }
            }
        }
    }
    assert(t.last() != '*') by {
        if k > 1 {
            assert(t.last() == digit_char(ts.last() as int));
        } else {
            assert(t.last() == d.spec_symbol());
        }
    }
    assert(trim_stars(t) == t);
    assert(all_ascii(t)) by {
        assert forall|i: int| 0 <= i < t.len() implies (#[trigger] t[i] as int) < 128 by {
            if i >= 4 && k > 1 {
                let j = i - 4;
                if j < k - 1 {
                    assert(t[i] == digit_char(ts[j] - ts[j + 1]));
                } else {
                    assert(t[i] == digit_char(ts.last() as int));
                }
            }
        }
    }
    assert(ptn_count_form::<S>(t));
}

/// Reading a move written in PTN gives the move back.
pub proof fn lemma_ptn_round_trip<const S: usize>(m: ExpMove<S>)
    requires
        valid_size(S),
        move_valid(m),
        m matches ExpMove::Move(_, _, sm) ==> sm.data != 0 && sm@[0] <= S,
    ensures
        !spec_parse_ptn_panics::<S>(spec_ptn(m)),
        spec_parse_ptn::<S>(spec_ptn(m)) == Some(m),
{
    match m {
        ExpMove::Place(role, sq) => lemma_ptn_round_trip_place(role, sq),
        ExpMove::Move(sq, d, sm) => {
            lemma_takes_below_shape(sm.data, 8);
            lemma_first_take(sm.data);
            if sm@[0] == 1 {
                lemma_ptn_round_trip_single(sq, d, sm);
            } else {
                lemma_ptn_round_trip_counted(sq, d, sm);
            }
        },
    }
}

} // verus!

verus! {

impl<const S: usize> super::Position<S> {
    /// Parses a move in PTN.
    pub fn move_from_san(&self, input: &str) -> (r: Result<Move<S>, pgn_traits::Error>)
        requires
            valid_size(S),
            !spec_parse_ptn_panics::<S>(input@),
        ensures
            r is Ok <==> spec_parse_ptn::<S>(input@) is Some,
            r matches Ok(m) ==> m.wf() && Some(m.spec_expand()) == spec_parse_ptn::<S>(input@),
    {
        Move::from_string(input)
    }

    /// The move in PTN.
    pub fn move_to_san(&self, mv: &Move<S>) -> (s: String)
        requires
            valid_size(S),
            mv.wf(),
        ensures
            s@ == spec_ptn(mv.spec_expand()),
    {
        mv.to_string()
    }

    /// Parses a move in PTN, which serves as the long notation too.
    pub fn move_from_lan(&self, input: &str) -> (r: Result<Move<S>, pgn_traits::Error>)
        requires
            valid_size(S),
            !spec_parse_ptn_panics::<S>(input@),
        ensures
            r is Ok <==> spec_parse_ptn::<S>(input@) is Some,
            r matches Ok(m) ==> m.wf() && Some(m.spec_expand()) == spec_parse_ptn::<S>(input@),
    {
        Move::from_string(input)
    }

    /// The move in PTN, which serves as the long notation too.
    pub fn move_to_lan(&self, mv: &Move<S>) -> (s: String)
        requires
            valid_size(S),
            mv.wf(),
        ensures
            s@ == spec_ptn(mv.spec_expand()),
    {
        self.move_to_san(mv)
    }

    /// The number of the current full move, counting from 1.
    pub fn full_move_number(&self) -> (n: Option<u32>)
        ensures
            n == Some(((self.half_moves_played as u32) / 2 + 1) as u32),
    {
        Some(self.half_moves_played() as u32 / 2 + 1)
    }
}

} // verus!

verus! {

/// Whether reading the text as a PTN move would find a square that gets no piece, or no piece
/// left for the last square.
pub fn ptn_move_panics<const S: usize>(input: &str) -> (b: bool)
    requires
        valid_size(S),
    ensures
        b == spec_parse_ptn_panics::<S>(input@),
{
    let mut chars = crate::text::str_to_chars(input);
    while chars.len() > 0 && chars[chars.len() - 1] == '*'
        invariant
            trim_stars(chars@) == trim_stars(input@),
        decreases chars.len(),
    {
        let ghost before = chars@;
        chars.pop();
        proof {
            assert(chars@ =~= before.drop_last());
        }
    }
    let ghost t = chars@;
    proof {
        assert(trim_stars(t) == t);
        assert(trim_stars(input@) == t);
    }
    let len = chars.len();
    if len <= 3 {
        return false;
    }
    let mut i: usize = 0;
    while i < len
        invariant
            t == chars@,
            trim_stars(input@) == t,
            len == t.len(),
            i <= len,
            forall|k: int| 0 <= k < i ==> (#[trigger] t[k] as int) < 128,
        decreases len - i,
    {
        proof {
            lemma_char_code(chars@[i as int]);
        }
        if chars[i] as u32 >= 128 {
            proof {
                assert((t[i as int] as int) >= 128);
                assert(!all_ascii(t));
            }
            return false;
        }
        i = i + 1;
    }
    proof {
        lemma_char_code(chars@[0]);
        lemma_char_code(chars@[3]);
        assert(all_ascii(t));
    }
    let first = chars[0] as u32;
    if first < 49 || first > 56 {
        return false;
    }
    if Square::<S>::parse_square_chars(&pair(&chars, 1)).is_err() {
        return false;
    }
    if Direction::parse(chars[3]).is_none() {
        return false;
    }
    let n = first - 48;
    if n as usize > S {
        return false;
    }
    // The sum of the digits after the direction, all but the last, up to 9.
    let mut sum: u32 = 0;
    let ghost mut exact: int = 0;
    let mut all_positive = true;
    let mut k: usize = 4;
    while k < len
        invariant
            t == chars@,
            trim_stars(input@) == t,
            len == t.len(),
            4 <= k <= len,
            forall|m: int| 4 <= m < k ==> code_in(#[trigger] t[m], 48, 57),
            k > 4 ==> exact == int_sum(digit_values(t.subrange(4, k as int)).drop_last()),
            k == 4 ==> exact == 0,
            exact >= 0,
            sum == if exact >= 9 { 9 } else { exact },
            all_positive == forall|m: int| 4 <= m < k - 1 ==> #[trigger] t[m] as int - 48 >= 1,
        decreases len - k,
    {
        proof {
            lemma_char_code(chars@[k as int]);
        }
        let code = chars[k] as u32;
        if code < 48 || code > 57 {
            proof {
                assert(t.subrange(4, t.len() as int)[k - 4] == t[k as int]);
                assert(!all_digits(t.subrange(4, t.len() as int)));
                assert(!ptn_count_form::<S>(t));
            }
            return false;
        }
        if k > 4 {
            proof {
                lemma_char_code(chars@[k - 1]);
            }
            let previous = chars[k - 1] as u32;
            let d = previous - 48;
            proof {
                exact = exact + d;
            }
            sum = if sum + d >= 9 { 9 } else { sum + d };
            if previous == 48 {
                all_positive = false;
            }
        }
        proof {
            let ds = digit_values(t.subrange(4, k + 1));
            assert(ds.drop_last() =~= digit_values(t.subrange(4, k as int)));
            if k > 4 {
                let prev = digit_values(t.subrange(4, k as int));
                assert(prev.drop_last() =~= digit_values(t.subrange(4, k - 1)));
                assert(prev.last() == t[k - 1] as int - 48);
            } else {
                assert(ds.drop_last().len() == 0);
            }
        }
        k = k + 1;
    }
    proof {
        assert(t.subrange(4, len as int) =~= t.subrange(4, t.len() as int));
        assert(all_digits(t.subrange(4, t.len() as int)));
        assert(ptn_count_form::<S>(t));
        let ds = ptn_drops(t);
        assert(forall|m: int| 0 <= m < ds.len() ==> #[trigger] ds[m] == t[m + 4] as int - 48);
        if len == 4 {
            assert(ds.len() == 0);
        }
        assert(exact == int_sum(ds));
        assert(all_positive == forall|m: int| 0 <= m < ds.len() ==> #[trigger] ds[m] >= 1) by {
            if all_positive {
                assert forall|m: int| 0 <= m < ds.len() implies #[trigger] ds[m] >= 1 by {
                    assert(t[m + 4] as int - 48 >= 1);
                }
            } else {
                let m = choose|m: int| 4 <= m < k - 1 && !(#[trigger] t[m] as int - 48 >= 1);
                assert(ds[m - 4] == t[m] as int - 48);
            }
        }
    }
    !(all_positive && (sum < n))
}

} // verus!
