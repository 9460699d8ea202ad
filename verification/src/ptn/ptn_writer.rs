//! Writing games in PTN.
use vstd::prelude::*;

use crate::position::playtak::{ascii_lower, ascii_lowercase};
use crate::position::ptn_move::spec_ptn;
use crate::position::square::valid_size;
use crate::position::tps::{decimal, push_decimal, spec_tps};
use crate::position::utils::{Color, Komi};
use crate::position::{Position, PositionView};
use crate::ptn::ptn_parser::{
    lemma_start_view, move_views, result_view, spec_start_view, string_tag_views, tag_views, Game,
    GameView, MoveRecord,
};
use crate::text::{chars_to_string, str_to_chars};

verus! {

/// Lines of moves are broken before they reach this many bytes.
pub const LINE_WIDTH: u128 = 80;

/// The tags that every PTN game has, in this order, each with the value written when the
/// game has no such tag.
pub open spec fn required_tag<const S: usize>(k: int) -> (Seq<char>, Seq<char>) {
    if k == 0 {
        (seq!['P', 'l', 'a', 'y', 'e', 'r', '1'], seq!['?'])
    } else if k == 1 {
        (seq!['P', 'l', 'a', 'y', 'e', 'r', '2'], seq!['?'])
    } else if k == 2 {
        (seq!['D', 'a', 't', 'e'], seq!['?', '?', '?', '?', '.', '?', '?', '.', '?', '?'])
    } else if k == 3 {
        (seq!['S', 'i', 'z', 'e'], decimal(S as nat))
    } else {
        (seq!['R', 'e', 's', 'u', 'l', 't'], seq!['*'])
    }
}

/// Two tag names that are equal but for the case of ASCII letters.
pub open spec fn same_name(a: Seq<char>, b: Seq<char>) -> bool {
    ascii_lower(a) == ascii_lower(b)
}

/// The first of the first `n` tags with the given name.
pub open spec fn first_named(tags: Seq<(Seq<char>, Seq<char>)>, name: Seq<char>, n: int) -> Option<int>
    decreases n,
{
    if n <= 0 {
        None
    } else {
        match first_named(tags, name, n - 1) {
            Some(k) => Some(k),
            None => if same_name(tags[n - 1].0, name) {
                Some(n - 1)
            } else {
                None
            },
        }
    }
}

/// A tag as a line of PTN.
pub open spec fn tag_line(name: Seq<char>, value: Seq<char>) -> Seq<char> {
    seq!['['] + name + seq![' ', '"'] + value + seq!['"', ']', '\n']
}

/// The result as written at the end of a game: `*` where there is none.
pub open spec fn result_text(result: Option<Seq<char>>) -> Seq<char> {
    match result {
        Some(r) => r,
        None => seq!['*'],
    }
}

/// The lines of the first `k` required tags, and the game's tags that are left after them.
pub open spec fn required_lines<const S: usize>(
    tags: Seq<(Seq<char>, Seq<char>)>,
    result: Option<Seq<char>>,
    k: nat,
) -> (Seq<char>, Seq<(Seq<char>, Seq<char>)>)
    decreases k,
{
    if k == 0 {
        (Seq::empty(), tags)
    } else {
        let (text, rest) = required_lines::<S>(tags, result, (k - 1) as nat);
        let (name, default) = required_tag::<S>(k - 1);
        match first_named(rest, name, rest.len() as int) {
            Some(i) => (text + tag_line(name, rest[i].1), rest.remove(i)),
            None => (text + tag_line(
                name,
                if k - 1 == 4 {
                    result_text(result)
                } else {
                    default
                },
            ), rest),
        }
    }
}

/// The tags as lines of PTN, in order.
pub open spec fn tag_lines(tags: Seq<(Seq<char>, Seq<char>)>) -> Seq<char>
    decreases tags.len(),
{
    if tags.len() == 0 {
        Seq::empty()
    } else {
        tag_lines(tags.drop_last()) + tag_line(tags.last().0, tags.last().1)
    }
}

pub open spec fn tps_name() -> Seq<char> {
    seq!['T', 'P', 'S']
}

/// Whether a position equals the start position, as `==` on positions compares them.
pub open spec fn is_start_view<const S: usize>(p: PositionView<S>) -> bool {
    let q = spec_start_view::<S>();
    &&& p.stacks == q.stacks
    &&& p.to_move == q.to_move
    &&& p.white_stones_left == q.white_stones_left
    &&& p.black_stones_left == q.black_stones_left
    &&& p.white_caps_left == q.white_caps_left
    &&& p.black_caps_left == q.black_caps_left
    &&& p.half_moves_played == q.half_moves_played
    &&& p.komi == q.komi
}

/// The tag section of a game: the required tags, the other tags, and a TPS tag for a game
/// that starts elsewhere than the start position and has none, then an empty line.
pub open spec fn spec_ptn_header<const S: usize>(g: GameView<S>) -> Seq<char> {
    let (req, rest) = required_lines::<S>(g.tags, g.result, 5);
    req + tag_lines(rest) + (if !is_start_view(g.start) && first_named(
        rest,
        tps_name(),
        rest.len() as int,
    ) is None {
        tag_line(tps_name(), spec_tps(g.start))
    } else {
        Seq::empty()
    }) + seq!['\n']
}

/// The number of bytes of a character in UTF-8.
pub open spec fn char_width(c: char) -> nat {
    if (c as u32) < 0x80 {
        1
    } else if (c as u32) < 0x800 {
        2
    } else if (c as u32) < 0x10000 {
        3
    } else {
        4
    }
}

/// The number of bytes of a text in UTF-8.
pub open spec fn utf8_len(s: Seq<char>) -> nat
    decreases s.len(),
{
    if s.len() == 0 {
        0
    } else {
        utf8_len(s.drop_last()) + char_width(s.last())
    }
}

/// Texts written one after the other.
pub open spec fn joined(s: Seq<Seq<char>>) -> Seq<char>
    decreases s.len(),
{
    if s.len() == 0 {
        Seq::empty()
    } else {
        joined(s.drop_last()) + s.last()
    }
}

/// The player to move after `i` moves.
pub open spec fn side_after(first: Color, i: nat) -> Color {
    if i % 2 == 0 {
        first
    } else {
        first.spec_flip()
    }
}

/// The move number of a position's move: the number of full moves played, plus one.
pub open spec fn start_move_number<const S: usize>(p: PositionView<S>) -> nat {
    ((p.half_moves_played as u32) / 2 + 1) as nat
}

/// A move as PTN writes it: its number where it is White's, or the game starts with Black's,
/// then the move, its annotations and its comment in braces.
pub open spec fn move_entry<const S: usize>(start_num: nat, i: nat, side: Color, m: MoveRecord<S>) -> Seq<
    char,
> {
    let text = spec_ptn(m.0.spec_expand());
    let head = if i == 0 && side == Color::Black {
        decimal(start_num) + seq!['.', '.', '.', ' '] + text
    } else if side == Color::White {
        decimal((i + 1) / 2 + start_num) + seq!['.', ' '] + text
    } else {
        text
    };
    head + joined(m.1) + (if m.2.len() > 0 {
        seq![' ', '{'] + m.2 + seq!['}']
    } else {
        Seq::empty()
    })
}

/// Writing kept-back entries: on the current line where it has room for them, else on a new
/// line; gives the text, the length of its last line in bytes, and nothing kept back.
pub open spec fn flush(out: Seq<char>, column: nat, b: Seq<char>) -> (Seq<char>, nat, Seq<char>) {
    let w = utf8_len(b);
    if column == 0 {
        (out + b, w, Seq::empty())
    } else if column + w < LINE_WIDTH {
        (out + seq![' '] + b, column + w + 1, Seq::empty())
    } else {
        (out + seq!['\n'] + b, w, Seq::empty())
    }
}

/// The number of Black's moves among the first `i` moves of a game whose first move is
/// `first`'s.
pub open spec fn black_moves_before(first: Color, i: nat) -> nat
    decreases i,
{
    if i == 0 {
        0
    } else {
        black_moves_before(first, (i - 1) as nat) + if side_after(first, (i - 1) as nat) == Color::Black {
            1nat
        } else {
            0nat
        }
    }
}

proof fn lemma_black_moves_before(first: Color, i: nat)
    ensures
        black_moves_before(first, i) == if first == Color::White {
            i / 2
        } else {
            (i + 1) / 2
        },
    decreases i,
{
    if i > 0 {
        lemma_black_moves_before(first, (i - 1) as nat);
    }
}

/// In written PTN, White's move number goes up by one after each of Black's moves: White's
/// move `i` is numbered as the first move of a game whose number is the starting one plus
/// the moves Black made before it.
pub proof fn lemma_white_move_number<const S: usize>(start_num: nat, first: Color, i: nat, m: MoveRecord<S>)
    requires
        side_after(first, i) == Color::White,
    ensures
        move_entry::<S>(start_num, i, Color::White, m) == move_entry::<S>(
            start_num + black_moves_before(first, i),
            0,
            Color::White,
            m,
        ),
{
    lemma_black_moves_before(first, i);
}

/// Black's moves carry no number, but for the first move of a game that starts with Black's,
/// which is numbered as White's move of the same full move would be, before its `...`.
pub proof fn lemma_black_move_number<const S: usize>(start_num: nat, i: nat, m: MoveRecord<S>)
    ensures
        i > 0 ==> move_entry::<S>(start_num, i, Color::Black, m) == move_entry::<S>(0, 1, Color::Black, m),
        move_entry::<S>(start_num, 0, Color::Black, m).take(decimal(start_num).len() as int)
            == move_entry::<S>(start_num, 0, Color::White, m).take(decimal(start_num).len() as int),
{
    let d = decimal(start_num);
    let b = move_entry::<S>(start_num, 0, Color::Black, m);
    let w = move_entry::<S>(start_num, 0, Color::White, m);
    assert(b.take(d.len() as int) =~= d);
    assert(w.take(d.len() as int) =~= d);
}

/// Written from a position, White's move `i` carries the full move number of the position it
/// is played in: half of the half moves played before it, plus one.
pub proof fn lemma_white_move_number_from_position<const S: usize>(p: PositionView<S>, i: nat, m: MoveRecord<S>)
    requires
        p.half_moves_played + i <= u32::MAX,
        (p.to_move == Color::White) == (p.half_moves_played % 2 == 0),
        side_after(p.to_move, i) == Color::White,
    ensures
        move_entry::<S>(start_move_number(p), i, Color::White, m) == move_entry::<S>(
            ((p.half_moves_played + i) / 2 + 1) as nat,
            0,
            Color::White,
            m,
        ),
{
    lemma_white_move_number::<S>(start_move_number(p), p.to_move, i, m);
    lemma_black_moves_before(p.to_move, i);
    assert((p.half_moves_played as u32) as int == p.half_moves_played as int);
}

/// Writing the first `k` moves: the text written, the length of its last line in bytes, and
/// the entries kept back to go on the same line as the next one.
pub open spec fn write_moves<const S: usize>(
    start_num: nat,
    first: Color,
    moves: Seq<MoveRecord<S>>,
    result: Option<Seq<char>>,
    k: nat,
) -> (Seq<char>, nat, Seq<char>)
    decreases k,
{
    if k == 0 {
        (Seq::empty(), 0, Seq::empty())
    } else {
        let (out, column, buffer) = write_moves(start_num, first, moves, result, (k - 1) as nat);
        let i = (k - 1) as nat;
        let side = side_after(first, i);
        let last = i == moves.len() - 1;
        let b = buffer + move_entry(start_num, i, side, moves[i as int]) + (if last {
            seq![' '] + result_text(result)
        } else {
            Seq::empty()
        });
        if side == Color::Black || last {
            flush(out, column, b)
        } else {
            (out, column, b.push(' '))
        }
    }
}

/// A game in PTN: its tags, an empty line, its moves and result, and an empty line.
pub open spec fn spec_game_to_ptn<const S: usize>(g: GameView<S>) -> Seq<char> {
    spec_ptn_header(g) + write_moves(
        start_move_number(g.start),
        g.start.to_move,
        g.moves,
        g.result,
        g.moves.len(),
    ).0 + seq!['\n', '\n']
}

/// Appends characters.
fn push_chars(out: &mut Vec<char>, s: &Vec<char>)
    ensures
        final(out)@ == old(out)@ + s@,
{
    let ghost start = out@;
    let mut i: usize = 0;
    while i < s.len()
        invariant
            i <= s.len(),
            out@ == start + s@.take(i as int),
        decreases s.len() - i,
    {
        out.push(s[i]);
        i = i + 1;
        assert(out@ =~= start + s@.take(i as int));
    }
    assert(s@.take(s.len() as int) =~= s@);
}

/// Appends a tag line.
fn push_tag_line(out: &mut Vec<char>, name: &Vec<char>, value: &Vec<char>)
    ensures
        final(out)@ == old(out)@ + tag_line(name@, value@),
{
    let ghost start = out@;
    out.push('[');
    push_chars(out, name);
    out.push(' ');
    out.push('"');
    push_chars(out, value);
    out.push('"');
    out.push(']');
    out.push('\n');
    assert(out@ =~= start + tag_line(name@, value@));
}

fn chars_equal(a: &Vec<char>, b: &Vec<char>) -> (r: bool)
    ensures
        r == (a@ == b@),
{
    if a.len() != b.len() {
        return false;
    }
    let mut i: usize = 0;
    while i < a.len()
        invariant
            i <= a.len(),
            a.len() == b.len(),
            forall|k: int| 0 <= k < i ==> a@[k] == b@[k],
        decreases a.len() - i,
    {
        if a[i] != b[i] {
            return false;
        }
        i = i + 1;
    }
    assert(a@ =~= b@);
    true
}

fn same_name_exec(a: &Vec<char>, b: &Vec<char>) -> (r: bool)
    ensures
        r == same_name(a@, b@),
{
    let la = ascii_lowercase(a);
    let lb = ascii_lowercase(b);
    chars_equal(&la, &lb)
}

proof fn lemma_first_named_stays(tags: Seq<(Seq<char>, Seq<char>)>, name: Seq<char>, n: int, m: int)
    requires
        0 <= n <= m,
        first_named(tags, name, n) is Some,
    ensures
        first_named(tags, name, m) == first_named(tags, name, n),
    decreases m - n,
{
    if n < m {
        lemma_first_named_stays(tags, name, n, m - 1);
    }
}

/// The first tag with the given name.
fn find_named(tags: &Vec<(Vec<char>, Vec<char>)>, name: &Vec<char>) -> (r: Option<usize>)
    ensures
        match first_named(tag_views(tags@), name@, tags@.len() as int) {
            Some(j) => 0 <= j < tags.len() && r == Some(j as usize),
            None => r is None,
        },
{
    let ghost tv = tag_views(tags@);
    let mut k: usize = 0;
    while k < tags.len()
        invariant
            k <= tags.len(),
            tv == tag_views(tags@),
            first_named(tv, name@, k as int) is None,
        decreases tags.len() - k,
    {
        let found = same_name_exec(&tags[k].0, name);
        proof {
            assert(tv[k as int].0 == tags@[k as int].0@);
        }
        if found {
            proof {
                assert(first_named(tv, name@, k + 1) == Some(k as int));
                lemma_first_named_stays(tv, name@, k + 1, tags.len() as int);
            }
            return Some(k);
        }
        k = k + 1;
    }
    None
}

/// A required tag's name and default value.
fn required_tag_exec<const S: usize>(k: usize) -> (r: (Vec<char>, Vec<char>))
    requires
        valid_size(S),
        k < 5,
    ensures
        r.0@ == required_tag::<S>(k as int).0,
        r.1@ == required_tag::<S>(k as int).1,
{
    proof {
        reveal_strlit("Player1");
        reveal_strlit("Player2");
        reveal_strlit("Date");
        reveal_strlit("Size");
        reveal_strlit("Result");
        reveal_strlit("?");
        reveal_strlit("????.??.??");
        reveal_strlit("*");
        assert("Player1"@ =~= seq!['P', 'l', 'a', 'y', 'e', 'r', '1']);
        assert("Player2"@ =~= seq!['P', 'l', 'a', 'y', 'e', 'r', '2']);
        assert("Date"@ =~= seq!['D', 'a', 't', 'e']);
        assert("Size"@ =~= seq!['S', 'i', 'z', 'e']);
        assert("Result"@ =~= seq!['R', 'e', 's', 'u', 'l', 't']);
        assert("?"@ =~= seq!['?']);
        assert("????.??.??"@ =~= seq!['?', '?', '?', '?', '.', '?', '?', '.', '?', '?']);
        assert("*"@ =~= seq!['*']);
    }
    if k == 0 {
        (str_to_chars("Player1"), str_to_chars("?"))
    } else if k == 1 {
        (str_to_chars("Player2"), str_to_chars("?"))
    } else if k == 2 {
        (str_to_chars("Date"), str_to_chars("????.??.??"))
    } else if k == 3 {
        let mut size: Vec<char> = Vec::new();
        push_decimal(&mut size, S as u64);
        assert(size@ =~= decimal(S as nat));
        (str_to_chars("Size"), size)
    } else {
        (str_to_chars("Result"), str_to_chars("*"))
    }
}

/// The tags as characters.
fn tag_chars(tags: &Vec<(String, String)>) -> (out: Vec<(Vec<char>, Vec<char>)>)
    ensures
        tag_views(out@) == string_tag_views(tags@),
{
    let mut out: Vec<(Vec<char>, Vec<char>)> = Vec::new();
    let mut k: usize = 0;
    while k < tags.len()
        invariant
            k <= tags.len(),
            tag_views(out@) == string_tag_views(tags@).take(k as int),
        decreases tags.len() - k,
    {
        let name = str_to_chars(tags[k].0.as_str());
        let value = str_to_chars(tags[k].1.as_str());
        let ghost before = tag_views(out@);
        out.push((name, value));
        proof {
            assert(tag_views(out@) =~= before.push((name@, value@)));
            assert(string_tag_views(tags@).take(k + 1) =~= string_tag_views(tags@).take(k as int).push(
                (tags@[k as int].0@, tags@[k as int].1@),
            ));
        }
        k = k + 1;
    }
    assert(string_tag_views(tags@).take(tags.len() as int) =~= string_tag_views(tags@));
    out
}

/// The number of bytes of a text in UTF-8.
fn utf8_width(s: &Vec<char>) -> (w: u128)
    ensures
        w == utf8_len(s@),
        w <= 4 * s.len(),
{
    let mut w: u128 = 0;
    let mut i: usize = 0;
    while i < s.len()
        invariant
            i <= s.len(),
            w == utf8_len(s@.take(i as int)),
            w <= 4 * i,
        decreases s.len() - i,
    {
        let c = s[i] as u32;
        let cw: u128 = if c < 0x80 {
            1
        } else if c < 0x800 {
            2
        } else if c < 0x10000 {
            3
        } else {
            4
        };
        proof {
            assert(s@.take(i + 1).drop_last() =~= s@.take(i as int));
        }
        w = w + cw;
        i = i + 1;
    }
    assert(s@.take(s.len() as int) =~= s@);
    w
}

impl<const S: usize> Game<S> {
    /// The tag section of the game in PTN.
    fn header_text(&self) -> (out: Vec<char>)
        requires
            valid_size(S),
            self.start_position.wf(),
        ensures
            out@ == spec_ptn_header(self@),
    {
        let ghost tv = string_tag_views(self.tags@);
        let ghost result = result_view(self.game_result_str);
        let mut rest = tag_chars(&self.tags);
        let result_chars: Option<Vec<char>> = match self.game_result_str {
            Some(r) => Some(str_to_chars(r)),
            None => None,
        };
        let mut out: Vec<char> = Vec::new();
        let mut k: usize = 0;
        while k < 5
            invariant
                k <= 5,
                valid_size(S),
                tv == string_tag_views(self.tags@),
                result == result_view(self.game_result_str),
                match result_chars {
                    Some(r) => result == Some(r@),
                    None => result is None,
                },
                (out@, tag_views(rest@)) == required_lines::<S>(tv, result, k as nat),
            decreases 5 - k,
        {
            let (name, default) = required_tag_exec::<S>(k);
            match find_named(&rest, &name) {
                Some(i) => {
                    let ghost before = tag_views(rest@);
                    let (_tag, value) = rest.remove(i);
                    push_tag_line(&mut out, &name, &value);
                    proof {
                        assert(tag_views(rest@) =~= before.remove(i as int));
                    }
                },
                None => {
                    if k == 4 {
                        match &result_chars {
                            Some(r) => push_tag_line(&mut out, &name, r),
                            None => {
                                let star = str_to_chars("*");
                                proof {
                                    reveal_strlit("*");
                                    assert("*"@ =~= seq!['*']);
                                }
                                push_tag_line(&mut out, &name, &star);
                            },
                        }
                    } else {
                        push_tag_line(&mut out, &name, &default);
                    }
                },
            }
            k = k + 1;
        }
        let ghost req = out@;
        let ghost rv = tag_views(rest@);
        let mut j: usize = 0;
        while j < rest.len()
            invariant
                j <= rest.len(),
                rv == tag_views(rest@),
                out@ == req + tag_lines(rv.take(j as int)),
            decreases rest.len() - j,
        {
            push_tag_line(&mut out, &rest[j].0, &rest[j].1);
            proof {
                assert(rv.take(j + 1).drop_last() =~= rv.take(j as int));
                assert(out@ =~= req + tag_lines(rv.take(j + 1)));
            }
            j = j + 1;
        }
        proof {
            assert(rv.take(rest.len() as int) =~= rv);
        }
        let start = Position::<S>::start_position_with_komi(Komi { half_komi: 0 });
        proof {
            lemma_start_view(start);
        }
        let differs = !(self.start_position == start);
        if differs {
            let tps = str_to_chars("TPS");
            proof {
                reveal_strlit("TPS");
                assert("TPS"@ =~= tps_name());
            }
            if find_named(&rest, &tps).is_none() {
                let fen = self.start_position.to_fen();
                let fen_chars = str_to_chars(fen.as_str());
                push_tag_line(&mut out, &tps, &fen_chars);
            }
        }
        out.push('\n');
        out
    }

    /// A move as PTN writes it, with its number, annotations and comment.
    fn entry_text(&self, i: usize, side: Color, start_num: u64) -> (e: Vec<char>)
        requires
            valid_size(S),
            i < self.moves.len(),
            self.moves@[i as int].mv.wf(),
            start_num <= u32::MAX as u64 + 1,
        ensures
            e@ == move_entry::<S>(start_num as nat, i as nat, side, move_views(self.moves@)[i as int]),
    {
        let m = &self.moves[i];
        let ghost rec = move_views(self.moves@)[i as int];
        let text = str_to_chars(m.mv.to_string().as_str());
        let mut e: Vec<char> = Vec::new();
        let is_black = match side {
            Color::Black => true,
            Color::White => false,
        };
        if i == 0 && is_black {
            push_decimal(&mut e, start_num);
            e.push('.');
            e.push('.');
            e.push('.');
            e.push(' ');
            push_chars(&mut e, &text);
        } else if !is_black {
            push_decimal(&mut e, (i as u64 + 1) / 2 + start_num);
            e.push('.');
            e.push(' ');
            push_chars(&mut e, &text);
        } else {
            push_chars(&mut e, &text);
        }
        let ghost head = e@;
        let mut j: usize = 0;
        while j < m.annotations.len()
            invariant
                j <= m.annotations.len(),
                rec == m@,
                e@ == head + joined(rec.1.take(j as int)),
            decreases m.annotations.len() - j,
        {
            let a = str_to_chars(m.annotations[j]);
            push_chars(&mut e, &a);
            proof {
                assert(rec.1.take(j + 1).drop_last() =~= rec.1.take(j as int));
                assert(e@ =~= head + joined(rec.1.take(j + 1)));
            }
            j = j + 1;
        }
        proof {
            assert(rec.1.take(m.annotations.len() as int) =~= rec.1);
        }
        let comment = str_to_chars(m.comment.as_str());
        if comment.len() > 0 {
            e.push(' ');
            e.push('{');
            push_chars(&mut e, &comment);
            e.push('}');
        }
        e
    }
}

/// Writes kept-back entries, as `flush` says.
fn flush_exec(out: &mut Vec<char>, column: u128, buffer: &Vec<char>) -> (c: u128)
    requires
        column <= 0x1_0000_0000_0000_0000_0000u128,
    ensures
        (final(out)@, c as nat, Seq::<char>::empty()) == flush(old(out)@, column as nat, buffer@),
        c <= 0x1_0000_0000_0000_0000_0000u128,
{
    let w = utf8_width(buffer);
    if column == 0 {
        push_chars(out, buffer);
        w
    } else if column + w < LINE_WIDTH {
        out.push(' ');
        push_chars(out, buffer);
        column + w + 1
    } else {
        out.push('\n');
        push_chars(out, buffer);
        w
    }
}

impl<const S: usize> Game<S> {
    /// The moves of the game in PTN, each with its number where PTN gives one, and the result
    /// after the last.
    fn moves_text(&self) -> (out: Vec<char>)
        requires
            valid_size(S),
            forall|i: int| 0 <= i < self.moves.len() ==> (#[trigger] self.moves@[i]).mv.wf(),
        ensures
            out@ == write_moves::<S>(
                start_move_number(self.start_position@),
                self.start_position.to_move,
                move_views(self.moves@),
                result_view(self.game_result_str),
                self.moves.len() as nat,
            ).0,
    {
        let start_num: u64 = ((self.start_position.half_moves_played as u32) / 2 + 1) as u64;
        let ghost first = self.start_position.to_move;
        let ghost mv = move_views(self.moves@);
        let ghost result = result_view(self.game_result_str);
        let result_chars: Vec<char> = match self.game_result_str {
            Some(r) => str_to_chars(r),
            None => {
                proof {
                    reveal_strlit("*");
                    assert("*"@ =~= seq!['*']);
                }
                str_to_chars("*")
            },
        };
        let mut out: Vec<char> = Vec::new();
        let mut column: u128 = 0;
        let mut buffer: Vec<char> = Vec::new();
        let mut side = self.start_position.to_move;
        let n = self.moves.len();
        let mut i: usize = 0;
        while i < n
            invariant
                valid_size(S),
                n == self.moves.len(),
                i <= n,
                start_num == start_move_number(self.start_position@),
                start_num <= u32::MAX as u64 + 1,
                mv == move_views(self.moves@),
                mv.len() == n,
                result_chars@ == result_text(result),
                forall|k: int| 0 <= k < self.moves.len() ==> (#[trigger] self.moves@[k]).mv.wf(),
                side == side_after(first, i as nat),
                column <= 0x1_0000_0000_0000_0000_0000u128,
                (out@, column as nat, buffer@) == write_moves::<S>(start_num as nat, first, mv, result, i as nat),
            decreases n - i,
        {
            let entry = self.entry_text(i, side, start_num);
            push_chars(&mut buffer, &entry);
            let last = i == n - 1;
            if last {
                buffer.push(' ');
                push_chars(&mut buffer, &result_chars);
            }
            let is_black = match side {
                Color::Black => true,
                Color::White => false,
            };
            let ghost b = buffer@;
            proof {
                let (o, c, bf) = write_moves::<S>(start_num as nat, first, mv, result, i as nat);
                assert(b =~= bf + move_entry::<S>(start_num as nat, i as nat, side, mv[i as int]) + (if last {
                    seq![' '] + result_text(result)
                } else {
                    Seq::<char>::empty()
                }));
            }
            if is_black || last {
                column = flush_exec(&mut out, column, &buffer);
                buffer = Vec::new();
            } else {
                buffer.push(' ');
            }
            side = side.flip();
            i = i + 1;
            proof {
                assert(side == side_after(first, i as nat));
            }
        }
        out
    }

    /// The game in PTN: its tags, an empty line, its moves and result, and an empty line.
    pub fn game_to_ptn(&self) -> (s: String)
        requires
            valid_size(S),
            self.start_position.wf(),
            forall|i: int| 0 <= i < self.moves.len() ==> (#[trigger] self.moves@[i]).mv.wf(),
        ensures
            s@ == spec_game_to_ptn(self@),
    {
        let mut out = self.header_text();
        let moves = self.moves_text();
        push_chars(&mut out, &moves);
        out.push('\n');
        out.push('\n');
        proof {
            assert(self@.moves.len() == self.moves.len());
            assert(out@ =~= spec_game_to_ptn(self@));
        }
        chars_to_string(&out)
    }
}

} // verus!
