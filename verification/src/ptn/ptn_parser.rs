//! Reading games in PTN.
use vstd::prelude::*;

use crate::position::mv::{ExpMove, Move, ReverseMoveView};
use crate::position::square::valid_size;
use crate::position::tps::{read_tps, spec_read_tps, tps_position, TpsContent, TpsParse, TpsReading};
use crate::position::utils::{Color, GameResult, Komi, Role, Stack};
use crate::position::zobrist::spec_to_move_key;
use crate::position::{spec_starting_capstones, spec_starting_stones, Position, PositionView, Settings};
use crate::position::ptn_move::{ptn_move_panics, spec_parse_ptn, spec_parse_ptn_panics};
use crate::text::{chars_to_string, parse_decimal, spec_is_whitespace, spec_parse_decimal};

verus! {

/// How reading a part of a PTN text ends: with what was read and the rest of the text,
/// refused as malformed, or at an input that this library does not take (where reading a
/// move number, a tag or a move would fail on an arithmetic overflow or an impossible move).
pub enum PtnStep<T> {
    Next(T, Seq<char>),
    Malformed,
    Unsupported,
}

/// The text after its leading whitespace.
pub open spec fn skip_ws(s: Seq<char>) -> Seq<char>
    decreases s.len(),
{
    if s.len() > 0 && spec_is_whitespace(s[0]) {
        skip_ws(s.drop_first())
    } else {
        s
    }
}

/// The number of leading characters that are not whitespace.
pub open spec fn word_len(s: Seq<char>) -> nat
    decreases s.len(),
{
    if s.len() > 0 && !spec_is_whitespace(s[0]) {
        1 + word_len(s.drop_first())
    } else {
        0
    }
}

/// The number of leading characters other than `c`.
pub open spec fn len_before(s: Seq<char>, c: char) -> nat
    decreases s.len(),
{
    if s.len() > 0 && s[0] != c {
        1 + len_before(s.drop_first(), c)
    } else {
        0
    }
}

pub proof fn lemma_skip_ws(s: Seq<char>)
    ensures
        skip_ws(s).len() <= s.len(),
        s.skip(s.len() - skip_ws(s).len()) == skip_ws(s),
        skip_ws(s).len() > 0 ==> !spec_is_whitespace(skip_ws(s)[0]),
        forall|i: int| 0 <= i < s.len() - skip_ws(s).len() ==> spec_is_whitespace(#[trigger] s[i]),
    decreases s.len(),
{
    if s.len() > 0 && spec_is_whitespace(s[0]) {
        lemma_skip_ws(s.drop_first());
        assert(s.drop_first().skip(s.drop_first().len() - skip_ws(s.drop_first()).len()) =~= s.skip(
            s.len() - skip_ws(s).len(),
        ));
        assert forall|i: int| 0 <= i < s.len() - skip_ws(s).len() implies spec_is_whitespace(#[trigger] s[i]) by {
            if i > 0 {
                assert(s[i] == s.drop_first()[i - 1]);
            }
        }
    } else {
        assert(s.skip(0) =~= s);
    }
}

pub proof fn lemma_word_len(s: Seq<char>)
    ensures
        word_len(s) <= s.len(),
        forall|i: int| 0 <= i < word_len(s) ==> !spec_is_whitespace(#[trigger] s[i]),
        word_len(s) < s.len() ==> spec_is_whitespace(s[word_len(s) as int]),
        s.len() > 0 && !spec_is_whitespace(s[0]) ==> word_len(s) >= 1,
    decreases s.len(),
{
    if s.len() > 0 && !spec_is_whitespace(s[0]) {
        lemma_word_len(s.drop_first());
        assert forall|i: int| 0 <= i < word_len(s) implies !spec_is_whitespace(#[trigger] s[i]) by {
            if i > 0 {
                assert(s[i] == s.drop_first()[i - 1]);
            }
        }
        if word_len(s) < s.len() {
            assert(s[word_len(s) as int] == s.drop_first()[word_len(s.drop_first()) as int]);
        }
    }
}

pub proof fn lemma_len_before(s: Seq<char>, c: char)
    ensures
        len_before(s, c) <= s.len(),
        forall|i: int| 0 <= i < len_before(s, c) ==> #[trigger] s[i] != c,
        len_before(s, c) < s.len() ==> s[len_before(s, c) as int] == c,
    decreases s.len(),
{
    if s.len() > 0 && s[0] != c {
        lemma_len_before(s.drop_first(), c);
        assert forall|i: int| 0 <= i < len_before(s, c) implies #[trigger] s[i] != c by {
            if i > 0 {
                assert(s[i] == s.drop_first()[i - 1]);
            }
        }
        if len_before(s, c) < s.len() {
            assert(s[len_before(s, c) as int] == s.drop_first()[len_before(s.drop_first(), c) as int]);
        }
    }
}

/// The index of the first character from `i` on that is not whitespace.
fn skip_whitespaces(chars: &Vec<char>, i: usize) -> (j: usize)
    requires
        i <= chars.len(),
    ensures
        i <= j <= chars.len(),
        chars@.skip(j as int) == skip_ws(chars@.skip(i as int)),
{
    let mut j = i;
    proof {
        lemma_skip_ws(chars@.skip(i as int));
    }
    while j < chars.len() && crate::text::is_whitespace(chars[j])
        invariant
            i <= j <= chars.len(),
            skip_ws(chars@.skip(j as int)) == skip_ws(chars@.skip(i as int)),
        decreases chars.len() - j,
    {
        proof {
            assert(chars@.skip(j as int)[0] == chars@[j as int]);
            assert(chars@.skip(j as int).drop_first() =~= chars@.skip(j + 1));
        }
        j = j + 1;
    }
    proof {
        if j < chars.len() {
            assert(chars@.skip(j as int)[0] == chars@[j as int]);
        } else {
            assert(chars@.skip(j as int) =~= Seq::<char>::empty());
        }
    }
    j
}

/// The characters from `i` to `j`.
fn slice(chars: &Vec<char>, i: usize, j: usize) -> (out: Vec<char>)
    requires
        i <= j <= chars.len(),
    ensures
        out@ == chars@.subrange(i as int, j as int),
{
    let mut out: Vec<char> = Vec::new();
    let mut k = i;
    while k < j
        invariant
            i <= k <= j <= chars.len(),
            out@ == chars@.subrange(i as int, k as int),
        decreases j - k,
    {
        out.push(chars[k]);
        k = k + 1;
        proof {
            assert(out@ =~= chars@.subrange(i as int, k as int));
        }
    }
    out
}

/// The index after the word that starts at `i`.
fn word_end(chars: &Vec<char>, i: usize) -> (j: usize)
    requires
        i <= chars.len(),
    ensures
        j == i + word_len(chars@.skip(i as int)),
        j <= chars.len(),
{
    let mut j = i;
    proof {
        lemma_word_len(chars@.skip(i as int));
    }
    while j < chars.len() && !crate::text::is_whitespace(chars[j])
        invariant
            i <= j <= chars.len(),
            word_len(chars@.skip(i as int)) == (j - i) + word_len(chars@.skip(j as int)),
        decreases chars.len() - j,
    {
        proof {
            assert(chars@.skip(j as int)[0] == chars@[j as int]);
            assert(chars@.skip(j as int).drop_first() =~= chars@.skip(j + 1));
        }
        j = j + 1;
    }
    proof {
        if j < chars.len() {
            assert(chars@.skip(j as int)[0] == chars@[j as int]);
        }
    }
    j
}

/// The index of the first `c` from `i` on, or the end.
fn find_char(chars: &Vec<char>, i: usize, c: char) -> (j: usize)
    requires
        i <= chars.len(),
    ensures
        j == i + len_before(chars@.skip(i as int), c),
        j <= chars.len(),
{
    let mut j = i;
    proof {
        lemma_len_before(chars@.skip(i as int), c);
    }
    while j < chars.len() && chars[j] != c
        invariant
            i <= j <= chars.len(),
            len_before(chars@.skip(i as int), c) == (j - i) + len_before(chars@.skip(j as int), c),
        decreases chars.len() - j,
    {
        proof {
            assert(chars@.skip(j as int)[0] == chars@[j as int]);
            assert(chars@.skip(j as int).drop_first() =~= chars@.skip(j + 1));
        }
        j = j + 1;
    }
    proof {
        if j < chars.len() {
            assert(chars@.skip(j as int)[0] == chars@[j as int]);
        }
    }
    j
}

/// Reads the rest of a tag's value after its opening quote, with `acc` read so far: up to
/// the closing quote, where a backslash before a quote or a backslash stands for that
/// character and is kept before any other.
pub open spec fn tag_value_from(s: Seq<char>, acc: Seq<char>) -> PtnStep<Seq<char>>
    decreases s.len(),
{
    if s.len() == 0 {
        PtnStep::Malformed
    } else if s[0] == '"' {
        PtnStep::Next(acc, s.drop_first())
    } else if s[0] == '\\' {
        if s.len() < 2 {
            PtnStep::Unsupported
        } else {
            let d = s[1];
            tag_value_from(
                s.skip(2),
                if d == '"' || d == '\\' {
                    acc.push(d)
                } else {
                    acc.push('\\').push(d)
                },
            )
        }
    } else {
        tag_value_from(s.drop_first(), acc.push(s[0]))
    }
}

/// Reads a tag, `[Name "value"]`, from a text that starts with `[`.
pub open spec fn parse_tag(s: Seq<char>) -> PtnStep<(Seq<char>, Seq<char>)> {
    let t = skip_ws(s.drop_first());
    let name = t.take(word_len(t) as int);
    let u = skip_ws(t.skip(word_len(t) as int));
    if u.len() == 0 || u[0] != '"' {
        PtnStep::Malformed
    } else {
        match tag_value_from(u.drop_first(), Seq::empty()) {
            PtnStep::Next(value, r) => {
                let r2 = skip_ws(r);
                if r2.len() > 0 && r2[0] == ']' {
                    PtnStep::Next((name, value), r2.drop_first())
                } else {
                    PtnStep::Malformed
                }
            },
            PtnStep::Malformed => PtnStep::Malformed,
            PtnStep::Unsupported => PtnStep::Unsupported,
        }
    }
}

proof fn lemma_tag_value_rest(s: Seq<char>, acc: Seq<char>)
    ensures
        tag_value_from(s, acc) matches PtnStep::Next(_, r) ==> r.len() < s.len(),
    decreases s.len(),
{
    if s.len() > 0 && s[0] != '"' {
        if s[0] == '\\' {
            if s.len() >= 2 {
                let d = s[1];
                lemma_tag_value_rest(
                    s.skip(2),
                    if d == '"' || d == '\\' {
                        acc.push(d)
                    } else {
                        acc.push('\\').push(d)
                    },
                );
            }
        } else {
            lemma_tag_value_rest(s.drop_first(), acc.push(s[0]));
        }
    }
}

/// What follows a tag is shorter than the text it was read from.
pub proof fn lemma_parse_tag_rest(s: Seq<char>)
    requires
        s.len() > 0,
    ensures
        parse_tag(s) matches PtnStep::Next(_, r) ==> r.len() < s.len(),
{
    let t = skip_ws(s.drop_first());
    lemma_skip_ws(s.drop_first());
    lemma_word_len(t);
    let u = skip_ws(t.skip(word_len(t) as int));
    lemma_skip_ws(t.skip(word_len(t) as int));
    if u.len() > 0 && u[0] == '"' {
        lemma_tag_value_rest(u.drop_first(), Seq::empty());
        if let PtnStep::Next(value, r) = tag_value_from(u.drop_first(), Seq::empty()) {
            lemma_skip_ws(r);
        }
    }
}

/// Reads the tags at the start of a game, with `tags` read so far.
pub open spec fn parse_tags(s: Seq<char>, tags: Seq<(Seq<char>, Seq<char>)>) -> PtnStep<
    Seq<(Seq<char>, Seq<char>)>,
>
    decreases s.len(),
{
    let t = skip_ws(s);
    if t.len() > 0 && t[0] == '[' {
        match parse_tag(t) {
            PtnStep::Next(tag, r) => {
                proof {
                    lemma_skip_ws(s);
                    lemma_parse_tag_rest(t);
                }
                parse_tags(r, tags.push(tag))
            },
            PtnStep::Malformed => PtnStep::Malformed,
            PtnStep::Unsupported => PtnStep::Unsupported,
        }
    } else {
        PtnStep::Next(tags, t)
    }
}

/// What reading a part of the text gave, with the index after it.
pub enum Read<T> {
    Next(T, usize),
    Malformed,
    Unsupported,
}

/// Reads the rest of a tag's value, from index `i`.
fn read_tag_value(chars: &Vec<char>, i: usize) -> (r: Read<Vec<char>>)
    requires
        i <= chars.len(),
    ensures
        match r {
            Read::Next(v, j) => j <= chars.len() && tag_value_from(chars@.skip(i as int), Seq::empty())
                == PtnStep::Next(v@, chars@.skip(j as int)),
            Read::Malformed => tag_value_from(chars@.skip(i as int), Seq::empty()) is Malformed,
            Read::Unsupported => tag_value_from(chars@.skip(i as int), Seq::empty()) is Unsupported,
        },
{
    let mut acc: Vec<char> = Vec::new();
    let mut j = i;
    while j < chars.len()
        invariant
            i <= j <= chars.len(),
            tag_value_from(chars@.skip(i as int), Seq::empty()) == tag_value_from(
                chars@.skip(j as int),
                acc@,
            ),
        decreases chars.len() - j,
    {
        let c = chars[j];
        let ghost rest = chars@.skip(j as int);
        proof {
            assert(rest[0] == c);
            assert(rest.drop_first() =~= chars@.skip(j + 1));
        }
        if c == '"' {
            return Read::Next(acc, j + 1);
        } else if c == '\\' {
            if j + 1 >= chars.len() {
                return Read::Unsupported;
            }
            let d = chars[j + 1];
            proof {
                assert(rest[1] == d);
                assert(rest.skip(2) =~= chars@.skip(j + 2));
            }
            if d == '"' || d == '\\' {
                acc.push(d);
            } else {
                acc.push('\\');
                acc.push(d);
            }
            j = j + 2;
        } else {
            acc.push(c);
            j = j + 1;
        }
    }
    proof {
        assert(chars@.skip(j as int) =~= Seq::<char>::empty());
    }
    Read::Malformed
}

/// Reads a tag, from index `i` where the text has `[`.
fn read_tag(chars: &Vec<char>, i: usize) -> (r: Read<(Vec<char>, Vec<char>)>)
    requires
        i < chars.len(),
    ensures
        match r {
            Read::Next(tag, j) => j <= chars.len() && parse_tag(chars@.skip(i as int)) == PtnStep::Next(
                (tag.0@, tag.1@),
                chars@.skip(j as int),
            ),
            Read::Malformed => parse_tag(chars@.skip(i as int)) is Malformed,
            Read::Unsupported => parse_tag(chars@.skip(i as int)) is Unsupported,
        },
{
    proof {
        assert(chars@.skip(i as int).drop_first() =~= chars@.skip(i + 1));
    }
    let start = skip_whitespaces(chars, i + 1);
    let end = word_end(chars, start);
    let name = slice(chars, start, end);
    let ghost t = chars@.skip(start as int);
    proof {
        assert(name@ =~= t.take(word_len(t) as int));
        assert(t.skip(word_len(t) as int) =~= chars@.skip(end as int));
    }
    let k = skip_whitespaces(chars, end);
    if k >= chars.len() || chars[k] != '"' {
        proof {
            if k < chars.len() {
                assert(chars@.skip(k as int)[0] == chars@[k as int]);
            }
        }
        return Read::Malformed;
    }
    proof {
        assert(chars@.skip(k as int)[0] == chars@[k as int]);
        assert(chars@.skip(k as int).drop_first() =~= chars@.skip(k + 1));
    }
    match read_tag_value(chars, k + 1) {
        Read::Next(value, m) => {
            let e = skip_whitespaces(chars, m);
            if e < chars.len() && chars[e] == ']' {
                proof {
                    assert(chars@.skip(e as int)[0] == chars@[e as int]);
                    assert(chars@.skip(e as int).drop_first() =~= chars@.skip(e + 1));
                }
                Read::Next((name, value), e + 1)
            } else {
                proof {
                    if e < chars.len() {
                        assert(chars@.skip(e as int)[0] == chars@[e as int]);
                    }
                }
                Read::Malformed
            }
        },
        Read::Malformed => Read::Malformed,
        Read::Unsupported => Read::Unsupported,
    }
}

/// Reads the tags at the start of a game, from index `i`.
fn read_tags(chars: &Vec<char>, i: usize) -> (r: Read<Vec<(Vec<char>, Vec<char>)>>)
    requires
        i <= chars.len(),
    ensures
        match r {
            Read::Next(tags, j) => j <= chars.len() && parse_tags(chars@.skip(i as int), Seq::empty())
                == PtnStep::Next(tag_views(tags@), chars@.skip(j as int)),
            Read::Malformed => parse_tags(chars@.skip(i as int), Seq::empty()) is Malformed,
            Read::Unsupported => parse_tags(chars@.skip(i as int), Seq::empty()) is Unsupported,
        },
{
    let mut tags: Vec<(Vec<char>, Vec<char>)> = Vec::new();
    let mut j = i;
    proof {
        assert(tag_views(tags@) =~= Seq::<(Seq<char>, Seq<char>)>::empty());
    }
    loop
        invariant
            i <= j <= chars.len(),
            parse_tags(chars@.skip(i as int), Seq::empty()) == parse_tags(chars@.skip(j as int), tag_views(tags@)),
        decreases chars.len() - j,
    {
        let k = skip_whitespaces(chars, j);
        proof {
            lemma_skip_ws(chars@.skip(j as int));
        }
        if k < chars.len() && chars[k] == '[' {
            proof {
                assert(chars@.skip(k as int)[0] == chars@[k as int]);
                lemma_parse_tag_rest(chars@.skip(k as int));
            }
            match read_tag(chars, k) {
                Read::Next(tag, m) => {
                    let ghost before = tag_views(tags@);
                    tags.push(tag);
                    proof {
                        assert(tag_views(tags@) =~= before.push((tag.0@, tag.1@)));
                    }
                    j = m;
                },
                Read::Malformed => {
                    return Read::Malformed;
                },
                Read::Unsupported => {
                    return Read::Unsupported;
                },
            }
        } else {
            proof {
                if k < chars.len() {
                    assert(chars@.skip(k as int)[0] == chars@[k as int]);
                }
            }
            return Read::Next(tags, k);
        }
    }
}

/// The tags as texts.
pub open spec fn tag_views(tags: Seq<(Vec<char>, Vec<char>)>) -> Seq<(Seq<char>, Seq<char>)> {
    tags.map_values(|t: (Vec<char>, Vec<char>)| (t.0@, t.1@))
}

/// The move a PTN text names.
pub open spec fn spec_move_of<const S: usize>(em: ExpMove<S>) -> Move<S> {
    choose|m: Move<S>| m.wf() && m.spec_expand() == em
}

/// `q` is the position after a move.
pub open spec fn has_effect<const S: usize>(p: PositionView<S>, mv: Move<S>, q: PositionView<S>) -> bool {
    exists|r: ReverseMoveView<S>| #[trigger] p.move_effect(mv, q, r)
}

/// The position after a move.
pub open spec fn spec_after_move<const S: usize>(p: PositionView<S>, mv: Move<S>) -> PositionView<S> {
    choose|q: PositionView<S>| #[trigger] has_effect(p, mv, q)
}

/// Whether the move may be played here, as `Position::move_is_legal` tells.
pub open spec fn view_move_is_legal<const S: usize>(p: PositionView<S>, mv: Move<S>) -> bool {
    match mv.spec_expand() {
        ExpMove::Place(role, square) => {
            &&& p.stack(square).height == 0
            &&& if role == Role::Cap {
                p.caps_left(p.to_move) > 0
            } else {
                p.stones_left(p.to_move) > 0
            }
        },
        ExpMove::Move(origin, direction, sm) => p.movement_rules(origin, direction, sm),
    }
}

/// After the opening, the legality that reading PTN checks is that of the rules: a capstone
/// is placed only while the player to move has one left.
pub proof fn lemma_view_move_is_legal_rules<const S: usize>(p: PositionView<S>, mv: Move<S>)
    requires
        mv.wf(),
        p.half_moves_played >= 2,
    ensures
        view_move_is_legal(p, mv) == p.legal_move(mv),
        (mv.spec_expand() matches ExpMove::Place(Role::Cap, _)) && view_move_is_legal(p, mv)
            ==> p.caps_left(p.to_move) >= 1,
{
}

/// Two well formed positions with the same pieces have the same stacks.
proof fn lemma_same_stacks<const S: usize>(p: PositionView<S>, q: PositionView<S>)
    requires
        p.wf(),
        q.wf(),
        p.board() == q.board(),
    ensures
        p.stacks == q.stacks,
{
    assert forall|i: int| 0 <= i < p.stacks.len() implies #[trigger] p.stacks[i] == q.stacks[i] by {
        assert(p.board()[i] == q.board()[i]);
        p.stacks[i].lemma_view_injective(q.stacks[i]);
    }
    assert(p.stacks =~= q.stacks);
}

/// A move has one effect.
pub proof fn lemma_move_effect_unique<const S: usize>(
    p: PositionView<S>,
    mv: Move<S>,
    q: PositionView<S>,
    r: ReverseMoveView<S>,
)
    requires
        p.move_effect(mv, q, r),
    ensures
        q == spec_after_move(p, mv),
{
    let q2 = spec_after_move(p, mv);
    assert(has_effect(p, mv, q));
    let r2 = choose|r2: ReverseMoveView<S>| #[trigger] p.move_effect(mv, q2, r2);
    lemma_same_stacks(q, q2);
    match mv.spec_expand() {
        ExpMove::Place(role, square) => {
            let c = p.color_to_place();
            if c == Color::White {
                assert(q.white_stones_left == q2.white_stones_left);
                assert(q.black_stones_left == q2.black_stones_left);
                assert(q.white_caps_left == q2.white_caps_left);
                assert(q.black_caps_left == q2.black_caps_left);
            } else {
                assert(q.white_stones_left == q2.white_stones_left);
                assert(q.black_stones_left == q2.black_stones_left);
                assert(q.white_caps_left == q2.white_caps_left);
                assert(q.black_caps_left == q2.black_caps_left);
            }
        },
        ExpMove::Move(_, _, _) => {},
    }
    assert(q =~= q2);
}

/// The start position without komi, for specifications.
pub open spec fn spec_start_view<const S: usize>() -> PositionView<S> {
    PositionView {
        stacks: Seq::new((S * S) as nat, |i: int| Stack::default_spec()),
        to_move: Color::White,
        white_stones_left: spec_starting_stones(S),
        black_stones_left: spec_starting_stones(S),
        white_caps_left: spec_starting_capstones(S),
        black_caps_left: spec_starting_capstones(S),
        half_moves_played: 0,
        moves: Seq::empty(),
        komi: Komi { half_komi: 0 },
        hash: spec_to_move_key(S as int, Color::White),
        hash_history: Seq::empty(),
    }
}

/// The position a TPS text describes, without komi.
pub open spec fn spec_tps_view<const S: usize>(c: TpsContent) -> PositionView<S> {
    choose|q: PositionView<S>| tps_position(q, c, Komi { half_komi: 0 })
}

/// A TPS text describes one position.
pub proof fn lemma_tps_position_unique<const S: usize>(q: PositionView<S>, c: TpsContent)
    requires
        tps_position(q, c, Komi { half_komi: 0 }),
    ensures
        q == spec_tps_view::<S>(c),
{
    let q2 = spec_tps_view::<S>(c);
    lemma_same_stacks(q, q2);
    assert(q =~= q2);
}

/// The move annotations of PTN, in the order they are looked for at the end of a move.
pub open spec fn annotation(k: int) -> Seq<char> {
    if k == 0 {
        seq!['\'', '\'']
    } else if k == 1 {
        seq!['\'']
    } else if k == 2 {
        seq!['*']
    } else if k == 3 {
        seq!['!']
    } else {
        seq!['?']
    }
}

pub open spec fn ends_with(w: Seq<char>, a: Seq<char>) -> bool {
    w.len() >= a.len() && w.skip(w.len() - a.len()) == a
}

/// The first annotation, in that order, that the word ends with.
pub open spec fn first_annotation(w: Seq<char>) -> Option<int> {
    if ends_with(w, annotation(0)) {
        Some(0)
    } else if ends_with(w, annotation(1)) {
        Some(1)
    } else if ends_with(w, annotation(2)) {
        Some(2)
    } else if ends_with(w, annotation(3)) {
        Some(3)
    } else if ends_with(w, annotation(4)) {
        Some(4)
    } else {
        None
    }
}

/// A move word without its annotations, and the annotations in the order they were written.
pub open spec fn strip_annotations(w: Seq<char>) -> (Seq<char>, Seq<Seq<char>>)
    decreases w.len(),
{
    match first_annotation(w) {
        Some(k) => {
            let (core, anns) = strip_annotations(w.take(w.len() - annotation(k).len()));
            (core, anns.push(annotation(k)))
        },
        None => (w, Seq::empty()),
    }
}

/// The results a game can end with.
pub open spec fn is_result(w: Seq<char>) -> bool {
    ||| w == seq!['*']
    ||| w == seq!['1', '-', '0']
    ||| w == seq!['R', '-', '0']
    ||| w == seq!['F', '-', '0']
    ||| w == seq!['0', '-', '1']
    ||| w == seq!['0', '-', 'R']
    ||| w == seq!['0', '-', 'F']
    ||| w == seq!['1', '/', '2', '-', '1', '/', '2']
}

/// A move of a game: the move, its annotations and its comment.
pub type MoveRecord<const S: usize> = (Move<S>, Seq<Seq<char>>, Seq<char>);

/// Reading a move number, such as `12.` or `12...`: the number, when it reads.
pub open spec fn move_number(w: Seq<char>) -> Option<nat> {
    let n = if ends_with(w, seq!['.', '.', '.']) {
        spec_parse_decimal(w.take(w.len() - 3))
    } else {
        spec_parse_decimal(w.take(w.len() - 1))
    };
    if n is Some && n.unwrap() <= u64::MAX {
        n
    } else {
        None
    }
}

/// The text after a move: its comment in braces, if it has one, and the rest.
pub open spec fn after_move(t: Seq<char>) -> (Seq<char>, Seq<char>) {
    if t.len() > 0 && t[0] == '{' {
        let u = t.drop_first();
        let n = len_before(u, '}');
        (u.take(n as int), if n < u.len() {
            u.skip((n + 1) as int)
        } else {
            u.skip(n as int)
        })
    } else {
        (Seq::empty(), t)
    }
}

pub proof fn lemma_after_move(t: Seq<char>)
    ensures
        after_move(t).1.len() <= t.len(),
{
    if t.len() > 0 && t[0] == '{' {
        lemma_len_before(t.drop_first(), '}');
    }
}

/// Reads the moves of a game from position `p`, with `moves` read so far: move numbers are
/// skipped, a result ends the game, and the end of the text or a tag ends it without a result
/// when it has moves. Each move must read and be legal in its position.
pub open spec fn parse_moves_from<const S: usize>(
    s: Seq<char>,
    p: PositionView<S>,
    moves: Seq<MoveRecord<S>>,
) -> PtnStep<(Seq<MoveRecord<S>>, Option<Seq<char>>, PositionView<S>)>
    decreases s.len(),
{
    let t = skip_ws(s);
    if t.len() == 0 || t[0] == '[' {
        if moves.len() > 0 {
            PtnStep::Next((moves, None, p), t)
        } else {
            PtnStep::Malformed
        }
    } else {
        let n = word_len(t);
        let w = t.take(n as int);
        let rest = t.skip(n as int);
        proof {
            lemma_skip_ws(s);
            lemma_word_len(t);
        }
        if ends_with(w, seq!['.']) {
            match move_number(w) {
                None => PtnStep::Malformed,
                Some(num) => if num == 0 || num > u64::MAX / 2 {
                    PtnStep::Unsupported
                } else {
                    parse_moves_from(rest, p, moves)
                },
            }
        } else if is_result(w) {
            PtnStep::Next((moves, Some(w), p), rest)
        } else {
            let (core, anns) = strip_annotations(w);
            if spec_parse_ptn_panics::<S>(core) {
                PtnStep::Unsupported
            } else {
                match spec_parse_ptn::<S>(core) {
                    None => PtnStep::Malformed,
                    Some(em) => {
                        let mv = spec_move_of(em);
                        if !view_move_is_legal(p, mv) {
                            PtnStep::Malformed
                        } else if !(p.playable(mv) && p.move_fits(mv) && p.half_moves_played < usize::MAX) {
                            PtnStep::Unsupported
                        } else {
                            let (comment, rest2) = after_move(skip_ws(rest));
                            proof {
                                lemma_skip_ws(rest);
                                lemma_after_move(skip_ws(rest));
                            }
                            parse_moves_from(rest2, spec_after_move(p, mv), moves.push((mv, anns, comment)))
                        }
                    },
                }
            }
        }
    }
}

/// A move of a game, with its annotations and comment.
pub struct PtnMove<const S: usize> {
    pub mv: Move<S>,
    pub annotations: Vec<&'static str>,
    pub comment: String,
}

impl<const S: usize> PtnMove<S> {
    pub open spec fn view(self) -> MoveRecord<S> {
        (self.mv, self.annotations@.map_values(|a: &'static str| a@), self.comment@)
    }
}

pub open spec fn move_views<const S: usize>(moves: Seq<PtnMove<S>>) -> Seq<MoveRecord<S>> {
    moves.map_values(|m: PtnMove<S>| m@)
}

/// Whether the characters `w[0..len]` end with `a`.
fn ends_with_exec(w: &Vec<char>, len: usize, a: &Vec<char>) -> (b: bool)
    requires
        len <= w.len(),
    ensures
        b == ends_with(w@.take(len as int), a@),
{
    if len < a.len() {
        return false;
    }
    let start = len - a.len();
    let mut k: usize = 0;
    while k < a.len()
        invariant
            start + a.len() == len,
            len <= w.len(),
            k <= a.len(),
            forall|m: int| 0 <= m < k ==> w@[start + m] == a@[m],
        decreases a.len() - k,
    {
        if w[start + k] != a[k] {
            proof {
                assert(w@.take(len as int).skip(start as int)[k as int] != a@[k as int]);
            }
            return false;
        }
        k = k + 1;
    }
    proof {
        assert(w@.take(len as int).skip(start as int) =~= a@);
    }
    true
}

/// The characters of an annotation, and its text.
fn annotation_exec(k: usize) -> (r: (Vec<char>, &'static str))
    requires
        k < 5,
    ensures
        r.0@ == annotation(k as int),
        r.1@ == annotation(k as int),
{
    let mut v: Vec<char> = Vec::new();
    if k == 0 {
        v.push('\'');
        v.push('\'');
        proof {
            reveal_strlit("''");
            assert(v@ =~= annotation(0));
        }
        (v, "''")
    } else if k == 1 {
        v.push('\'');
        proof {
            reveal_strlit("'");
            assert(v@ =~= annotation(1));
        }
        (v, "'")
    } else if k == 2 {
        v.push('*');
        proof {
            reveal_strlit("*");
            assert(v@ =~= annotation(2));
        }
        (v, "*")
    } else if k == 3 {
        v.push('!');
        proof {
            reveal_strlit("!");
            assert(v@ =~= annotation(3));
        }
        (v, "!")
    } else {
        v.push('?');
        proof {
            reveal_strlit("?");
            assert(v@ =~= annotation(4));
        }
        (v, "?")
    }
}

/// A move word without its annotations, and the annotations.
fn strip_annotations_exec(w: &Vec<char>) -> (r: (Vec<char>, Vec<&'static str>))
    ensures
        r.0@ == strip_annotations(w@).0,
        r.1@.map_values(|a: &'static str| a@) == strip_annotations(w@).1,
{
    let mut len = w.len();
    let mut anns: Vec<&'static str> = Vec::new();
    proof {
        assert(w@.take(len as int) =~= w@);
        assert(strip_annotations(w@).1 =~= strip_annotations(w@).1 + Seq::<Seq<char>>::empty());
        assert(anns@.map_values(|a: &'static str| a@) =~= Seq::<Seq<char>>::empty());
    }
    loop
        invariant
            len <= w.len(),
            strip_annotations(w@).0 == strip_annotations(w@.take(len as int)).0,
            strip_annotations(w@).1 == strip_annotations(w@.take(len as int)).1 + anns@.map_values(
                |a: &'static str| a@,
            ),
        decreases len,
    {
        let ghost cur = w@.take(len as int);
        let mut found: Option<usize> = None;
        let mut k: usize = 0;
        while k < 5
            invariant
                k <= 5,
                len <= w.len(),
                cur == w@.take(len as int),
                found is None ==> forall|m: int| 0 <= m < k ==> !ends_with(cur, #[trigger] annotation(m)),
                found matches Some(f) ==> f < 5 && first_annotation(cur) == Some(f as int),
            decreases 5 - k,
        {
            if found.is_none() {
                let (a, _) = annotation_exec(k);
                if ends_with_exec(w, len, &a) {
                    found = Some(k);
                }
            }
            k = k + 1;
        }
        match found {
            Some(f) => {
                let (a, text) = annotation_exec(f);
                let ghost before = anns@.map_values(|x: &'static str| x@);
                let ghost shorter = cur.take(cur.len() - annotation(f as int).len());
                proof {
                    assert(shorter =~= w@.take(len - a.len()));
                    assert(strip_annotations(cur) == (strip_annotations(shorter).0, strip_annotations(shorter).1.push(
                        annotation(f as int),
                    )));
                }
                anns.insert(0, text);
                len = len - a.len();
                proof {
                    assert(anns@.map_values(|x: &'static str| x@) =~= seq![annotation(f as int)] + before);
                    assert(strip_annotations(shorter).1.push(annotation(f as int)) + before =~= strip_annotations(
                        shorter,
                    ).1 + (seq![annotation(f as int)] + before));
                }
            },
            None => {
                proof {
                    assert(first_annotation(cur) is None);
                }
                let core = slice(w, 0, len);
                proof {
                    assert(core@ =~= cur);
                    assert(strip_annotations(cur).1 + anns@.map_values(|a: &'static str| a@) =~= anns@.map_values(
                        |a: &'static str| a@,
                    ));
                }
                return (core, anns);
            },
        }
    }
}

/// Whether a word is the text `t`.
fn word_is(w: &Vec<char>, t: &str) -> (b: bool)
    ensures
        b == (w@ == t@),
{
    let tc = crate::text::str_to_chars(t);
    if w.len() != tc.len() {
        return false;
    }
    let mut k: usize = 0;
    while k < w.len()
        invariant
            w.len() == tc.len(),
            tc@ == t@,
            k <= w.len(),
            forall|m: int| 0 <= m < k ==> w@[m] == tc@[m],
        decreases w.len() - k,
    {
        if w[k] != tc[k] {
            return false;
        }
        k = k + 1;
    }
    proof {
        assert(w@ =~= tc@);
    }
    true
}

/// The result a word names, as the text that `Game` keeps.
fn result_str(w: &Vec<char>) -> (r: Option<&'static str>)
    ensures
        r is Some <==> is_result(w@),
        r matches Some(x) ==> x@ == w@,
{
    proof {
        reveal_strlit("*");
        reveal_strlit("1-0");
        reveal_strlit("R-0");
        reveal_strlit("F-0");
        reveal_strlit("0-1");
        reveal_strlit("0-R");
        reveal_strlit("0-F");
        reveal_strlit("1/2-1/2");
        assert("*"@ =~= seq!['*']);
        assert("1-0"@ =~= seq!['1', '-', '0']);
        assert("R-0"@ =~= seq!['R', '-', '0']);
        assert("F-0"@ =~= seq!['F', '-', '0']);
        assert("0-1"@ =~= seq!['0', '-', '1']);
        assert("0-R"@ =~= seq!['0', '-', 'R']);
        assert("0-F"@ =~= seq!['0', '-', 'F']);
        assert("1/2-1/2"@ =~= seq!['1', '/', '2', '-', '1', '/', '2']);
    }
    if word_is(w, "*") {
        Some("*")
    } else if word_is(w, "1-0") {
        Some("1-0")
    } else if word_is(w, "R-0") {
        Some("R-0")
    } else if word_is(w, "F-0") {
        Some("F-0")
    } else if word_is(w, "0-1") {
        Some("0-1")
    } else if word_is(w, "0-R") {
        Some("0-R")
    } else if word_is(w, "0-F") {
        Some("0-F")
    } else if word_is(w, "1/2-1/2") {
        Some("1/2-1/2")
    } else {
        None
    }
}

/// Whether a move that `Position::move_is_legal` accepts can be played: the player whose
/// color a placement puts down still has such a piece.
fn can_play<const S: usize>(position: &Position<S>, mv: Move<S>) -> (b: bool)
    requires
        position.wf(),
        mv.wf(),
        position.spec_move_is_legal(mv),
    ensures
        b == position@.playable(mv),
{
    match mv.expand() {
        ExpMove::Place(role, _) => {
            let c = if position.half_moves_played > 1 {
                position.to_move
            } else {
                position.to_move.flip()
            };
            match (c, role) {
                (Color::White, Role::Cap) => position.white_caps_left > 0,
                (Color::White, _) => position.white_stones_left > 0,
                (Color::Black, Role::Cap) => position.black_caps_left > 0,
                (Color::Black, _) => position.black_stones_left > 0,
            }
        },
        ExpMove::Move(_, _, _) => true,
    }
}

/// What reading one word of the moves gave.
pub enum MoveStep {
    /// The word was read, and reading goes on at the index.
    Continue(usize),
    /// The game ends, with a result or without, and reading the next game starts at the index.
    Done(Option<&'static str>, usize),
    Malformed,
    Unsupported,
}

/// Reads a move number, in a word that ends with `.`.
fn read_move_number(w: &Vec<char>) -> (r: Option<bool>)
    requires
        w.len() > 0,
        ends_with(w@, seq!['.']),
    ensures
        r is None <==> move_number(w@) is None,
        r matches Some(fits) ==> fits == !(move_number(w@).unwrap() == 0 || move_number(w@).unwrap() > u64::MAX / 2),
{
    let dots: Vec<char> = vec!['.', '.', '.'];
    proof {
        assert(dots@ =~= seq!['.', '.', '.']);
        assert(w@.take(w.len() as int) =~= w@);
        assert(w.len() >= 1);
    }
    let num_text = if ends_with_exec(w, w.len(), &dots) {
        slice(w, 0, w.len() - 3)
    } else {
        slice(w, 0, w.len() - 1)
    };
    proof {
        assert(num_text@ =~= if ends_with(w@, seq!['.', '.', '.']) {
            w@.take(w.len() - 3)
        } else {
            w@.take(w.len() - 1)
        });
    }
    match parse_decimal(&num_text, u64::MAX) {
        None => None,
        Some(n) => Some(!(n == 0 || n > u64::MAX / 2)),
    }
}

/// Reads a move word and its comment, and plays the move.
#[verifier::rlimit(40)]
fn read_move_word<const S: usize>(
    chars: &Vec<char>,
    w: &Vec<char>,
    e: usize,
    position: &mut Position<S>,
    moves: &mut Vec<PtnMove<S>>,
) -> (r: MoveStep)
    requires
        valid_size(S),
        e <= chars.len(),
        old(position).wf(),
        !ends_with(w@, seq!['.']),
        !is_result(w@),
    ensures
        final(position).wf(),
        ({
            let (core, anns) = strip_annotations(w@);
            let p = old(position)@;
            match r {
                MoveStep::Continue(next) => {
                    &&& e <= next <= chars.len()
                    &&& !spec_parse_ptn_panics::<S>(core)
                    &&& spec_parse_ptn::<S>(core) is Some
                    &&& view_move_is_legal(p, spec_move_of(spec_parse_ptn::<S>(core).unwrap()))
                    &&& p.playable(spec_move_of(spec_parse_ptn::<S>(core).unwrap()))
                    &&& p.move_fits(spec_move_of(spec_parse_ptn::<S>(core).unwrap()))
                    &&& p.half_moves_played < usize::MAX
                    &&& final(position)@ == spec_after_move(p, spec_move_of(spec_parse_ptn::<S>(core).unwrap()))
                    &&& after_move(skip_ws(chars@.skip(e as int))).1 == chars@.skip(next as int)
                    &&& move_views(final(moves)@) == move_views(old(moves)@).push(
                        (
                            spec_move_of(spec_parse_ptn::<S>(core).unwrap()),
                            anns,
                            after_move(skip_ws(chars@.skip(e as int))).0,
                        ),
                    )
                },
                MoveStep::Malformed => {
                    &&& !spec_parse_ptn_panics::<S>(core)
                    &&& (spec_parse_ptn::<S>(core) is None || !view_move_is_legal(
                        p,
                        spec_move_of(spec_parse_ptn::<S>(core).unwrap()),
                    ))
                },
                MoveStep::Unsupported => {
                    ||| spec_parse_ptn_panics::<S>(core)
                    ||| (spec_parse_ptn::<S>(core) is Some && view_move_is_legal(
                        p,
                        spec_move_of(spec_parse_ptn::<S>(core).unwrap()),
                    ) && !(p.playable(spec_move_of(spec_parse_ptn::<S>(core).unwrap())) && p.move_fits(
                        spec_move_of(spec_parse_ptn::<S>(core).unwrap()),
                    ) && p.half_moves_played < usize::MAX))
                },
                MoveStep::Done(_, _) => false,
            }
        }),
{
    let (core, annotations) = strip_annotations_exec(w);
    let core_string = chars_to_string(&core);
    if ptn_move_panics::<S>(core_string.as_str()) {
        return MoveStep::Unsupported;
    }
    let mv = match Move::<S>::from_string(core_string.as_str()) {
        Ok(mv) => mv,
        Err(_) => {
            return MoveStep::Malformed;
        },
    };
    let ghost em = spec_parse_ptn::<S>(core@).unwrap();
    proof {
        let chosen = spec_move_of(em);
        assert(chosen.wf() && chosen.spec_expand() == em);
        mv.lemma_expand_injective(chosen);
    }
    if !position.move_is_legal(mv) {
        return MoveStep::Malformed;
    }
    if !(can_play(&*position, mv) && position.move_fits(mv) && position.half_moves_played
        < usize::MAX) {
        return MoveStep::Unsupported;
    }
    let ghost before = position@;
    let ghost old_moves = move_views(moves@);
    let rev = position.do_move(mv);
    proof {
        lemma_move_effect_unique(before, mv, position@, rev@);
    }
    let k2 = skip_whitespaces(chars, e);
    let ghost u = chars@.skip(k2 as int);
    let mut next = k2;
    let mut comment: Vec<char> = Vec::new();
    if k2 < chars.len() && chars[k2] == '{' {
        proof {
            assert(u[0] == '{');
            assert(u.drop_first() =~= chars@.skip(k2 + 1));
            lemma_len_before(u.drop_first(), '}');
        }
        let c_end = find_char(chars, k2 + 1, '}');
        comment = slice(chars, k2 + 1, c_end);
        proof {
            assert(comment@ =~= u.drop_first().take(len_before(u.drop_first(), '}') as int));
        }
        next = if c_end < chars.len() {
            c_end + 1
        } else {
            c_end
        };
        proof {
            let n = len_before(u.drop_first(), '}');
            if c_end < chars.len() {
                assert(u.drop_first().skip((n + 1) as int) =~= chars@.skip(next as int));
            } else {
                assert(u.drop_first().skip(n as int) =~= chars@.skip(next as int));
            }
        }
    } else {
        proof {
            if k2 < chars.len() {
                assert(u[0] == chars@[k2 as int]);
            }
            assert(comment@ =~= Seq::<char>::empty());
        }
    }
    let comment_string = chars_to_string(&comment);
    let record = PtnMove { mv, annotations, comment: comment_string };
    moves.push(record);
    proof {
        assert(move_views(moves@) =~= old_moves.push((mv, strip_annotations(w@).1, comment@)));
        assert(after_move(u) == (comment@, chars@.skip(next as int)));
    }
    MoveStep::Continue(next)
}

/// Reads one word of the moves, from index `j`.
fn read_move_step<const S: usize>(
    chars: &Vec<char>,
    j: usize,
    position: &mut Position<S>,
    moves: &mut Vec<PtnMove<S>>,
) -> (r: MoveStep)
    requires
        valid_size(S),
        j <= chars.len(),
        old(position).wf(),
    ensures
        final(position).wf(),
        match r {
            MoveStep::Continue(next) => j < next <= chars.len() && parse_moves_from(
                chars@.skip(j as int),
                old(position)@,
                move_views(old(moves)@),
            ) == parse_moves_from(chars@.skip(next as int), final(position)@, move_views(final(moves)@)),
            MoveStep::Done(result, end) => end <= chars.len() && parse_moves_from(
                chars@.skip(j as int),
                old(position)@,
                move_views(old(moves)@),
            ) == PtnStep::Next(
                (
                    move_views(final(moves)@),
                    match result {
                        Some(x) => Some(x@),
                        None => None,
                    },
                    final(position)@,
                ),
                chars@.skip(end as int),
            ),
            MoveStep::Malformed => parse_moves_from(chars@.skip(j as int), old(position)@, move_views(old(moves)@)) is Malformed,
            MoveStep::Unsupported => parse_moves_from(
                chars@.skip(j as int),
                old(position)@,
                move_views(old(moves)@),
            ) is Unsupported,
        },
{
    let ghost s = chars@.skip(j as int);
    let ghost p = position@;
    let ghost mv0 = move_views(moves@);
    let k = skip_whitespaces(chars, j);
    let ghost t = chars@.skip(k as int);
    proof {
        lemma_skip_ws(s);
        if k < chars.len() {
            assert(t[0] == chars@[k as int]);
        }
        assert(move_views(moves@).len() == moves.len());
    }
    if k == chars.len() || chars[k] == '[' {
        if moves.len() > 0 {
            return MoveStep::Done(None, k);
        } else {
            return MoveStep::Malformed;
        }
    }
    let e = word_end(chars, k);
    let w = slice(chars, k, e);
    proof {
        lemma_word_len(t);
        assert(w@ =~= t.take(word_len(t) as int));
        assert(t.skip(word_len(t) as int) =~= chars@.skip(e as int));
    }
    let dot: Vec<char> = vec!['.'];
    proof {
        assert(dot@ =~= seq!['.']);
        assert(w@.take(w.len() as int) =~= w@);
    }
    if ends_with_exec(&w, w.len(), &dot) {
        match read_move_number(&w) {
            None => MoveStep::Malformed,
            Some(fits) => if fits {
                MoveStep::Continue(e)
            } else {
                MoveStep::Unsupported
            },
        }
    } else {
        match result_str(&w) {
            Some(result) => MoveStep::Done(Some(result), e),
            None => {
                let r = read_move_word(chars, &w, e, position, moves);
                proof {
                    lemma_skip_ws(chars@.skip(e as int));
                    lemma_after_move(skip_ws(chars@.skip(e as int)));
                }
                r
            },
        }
    }
}

/// Reads the moves of a game from index `i`, played from `position`.
#[verifier::loop_isolation(false)]
fn read_moves<const S: usize>(chars: &Vec<char>, i: usize, position: Position<S>) -> (r: Read<
    (Vec<PtnMove<S>>, Option<&'static str>, Position<S>),
>)
    requires
        valid_size(S),
        i <= chars.len(),
        position.wf(),
    ensures
        match r {
            Read::Next(m, j) => j <= chars.len() && m.2.wf() && parse_moves_from(
                chars@.skip(i as int),
                position@,
                Seq::empty(),
            ) == PtnStep::Next(
                (
                    move_views(m.0@),
                    match m.1 {
                        Some(x) => Some(x@),
                        None => None,
                    },
                    m.2@,
                ),
                chars@.skip(j as int),
            ),
            Read::Malformed => parse_moves_from(chars@.skip(i as int), position@, Seq::empty()) is Malformed,
            Read::Unsupported => parse_moves_from(chars@.skip(i as int), position@, Seq::empty()) is Unsupported,
        },
{
    let ghost p0 = position@;
    let mut position = position;
    let mut moves: Vec<PtnMove<S>> = Vec::new();
    let mut j = i;
    proof {
        assert(move_views(moves@) =~= Seq::<MoveRecord<S>>::empty());
    }
    loop
        invariant
            valid_size(S),
            i <= j <= chars.len(),
            position.wf(),
            parse_moves_from(chars@.skip(i as int), p0, Seq::empty()) == parse_moves_from(
                chars@.skip(j as int),
                position@,
                move_views(moves@),
            ),
        decreases chars.len() - j,
    {
        match read_move_step(chars, j, &mut position, &mut moves) {
            MoveStep::Continue(next) => {
                j = next;
            },
            MoveStep::Done(result, end) => {
                return Read::Next((moves, result, position), end);
            },
            MoveStep::Malformed => {
                return Read::Malformed;
            },
            MoveStep::Unsupported => {
                return Read::Unsupported;
            },
        }
    }
}

/// A game as read: its start position, moves, result and tags.
pub struct GameView<const S: usize> {
    pub start: PositionView<S>,
    pub moves: Seq<MoveRecord<S>>,
    pub result: Option<Seq<char>>,
    pub tags: Seq<(Seq<char>, Seq<char>)>,
}

/// Whether a tag's name is `TPS`, in capitals or not.
pub open spec fn is_tps_name(name: Seq<char>) -> bool {
    &&& name.len() == 3
    &&& (name[0] == 'T' || name[0] == 't')
    &&& (name[1] == 'P' || name[1] == 'p')
    &&& (name[2] == 'S' || name[2] == 's')
}

/// The first of the first `n` tags whose name is `TPS`.
pub open spec fn first_tps_tag(tags: Seq<(Seq<char>, Seq<char>)>, n: int) -> Option<int>
    decreases n,
{
    if n <= 0 {
        None
    } else {
        match first_tps_tag(tags, n - 1) {
            Some(k) => Some(k),
            None => if is_tps_name(tags[n - 1].0) {
                Some(n - 1)
            } else {
                None
            },
        }
    }
}

/// The start position of a game: the one its TPS tag gives, or the start position.
pub open spec fn game_start<const S: usize>(tags: Seq<(Seq<char>, Seq<char>)>) -> TpsParse<PositionView<S>> {
    match first_tps_tag(tags, tags.len() as int) {
        None => TpsParse::Read(spec_start_view::<S>()),
        Some(k) => match spec_read_tps::<S>(tags[k].1) {
            TpsParse::Read(c) => TpsParse::Read(spec_tps_view::<S>(c)),
            TpsParse::Malformed => TpsParse::Malformed,
            TpsParse::OutOfRange => TpsParse::OutOfRange,
        },
    }
}

/// Reads a game: its tags, then its moves from its start position.
pub open spec fn parse_game<const S: usize>(s: Seq<char>) -> PtnStep<GameView<S>> {
    match parse_tags(s, Seq::empty()) {
        PtnStep::Next(tags, r) => match game_start::<S>(tags) {
            TpsParse::Read(start) => match parse_moves_from(r, start, Seq::empty()) {
                PtnStep::Next((moves, result, _), r2) => PtnStep::Next(
                    GameView { start, moves, result, tags },
                    r2,
                ),
                PtnStep::Malformed => PtnStep::Malformed,
                PtnStep::Unsupported => PtnStep::Unsupported,
            },
            TpsParse::Malformed => PtnStep::Malformed,
            TpsParse::OutOfRange => PtnStep::Unsupported,
        },
        PtnStep::Malformed => PtnStep::Malformed,
        PtnStep::Unsupported => PtnStep::Unsupported,
    }
}

pub proof fn lemma_parse_tags_rest(s: Seq<char>, tags: Seq<(Seq<char>, Seq<char>)>)
    ensures
        parse_tags(s, tags) matches PtnStep::Next(_, r) ==> r.len() <= s.len(),
    decreases s.len(),
{
    let t = skip_ws(s);
    lemma_skip_ws(s);
    if t.len() > 0 && t[0] == '[' {
        lemma_parse_tag_rest(t);
        if let PtnStep::Next(tag, r) = parse_tag(t) {
            lemma_parse_tags_rest(r, tags.push(tag));
        }
    }
}

pub proof fn lemma_parse_moves_rest<const S: usize>(s: Seq<char>, p: PositionView<S>, moves: Seq<MoveRecord<S>>)
    ensures
        parse_moves_from(s, p, moves) matches PtnStep::Next(_, r) ==> r.len() <= s.len() && (moves.len()
            == 0 ==> r.len() < s.len()),
    decreases s.len(),
{
    let t = skip_ws(s);
    lemma_skip_ws(s);
    if !(t.len() == 0 || t[0] == '[') {
        let n = word_len(t);
        let w = t.take(n as int);
        let rest = t.skip(n as int);
        lemma_word_len(t);
        if ends_with(w, seq!['.']) {
            lemma_parse_moves_rest(rest, p, moves);
        } else if !is_result(w) {
            let (core, anns) = strip_annotations(w);
            if !spec_parse_ptn_panics::<S>(core) {
                if let Some(em) = spec_parse_ptn::<S>(core) {
                    let mv = spec_move_of(em);
                    let (comment, rest2) = after_move(skip_ws(rest));
                    lemma_skip_ws(rest);
                    lemma_after_move(skip_ws(rest));
                    lemma_parse_moves_rest(rest2, spec_after_move(p, mv), moves.push((mv, anns, comment)));
                }
            }
        }
    }
}

/// What follows a game is shorter than the text it was read from.
pub proof fn lemma_parse_game_rest<const S: usize>(s: Seq<char>)
    ensures
        parse_game::<S>(s) matches PtnStep::Next(_, r) ==> r.len() < s.len(),
{
    lemma_parse_tags_rest(s, Seq::empty());
    if let PtnStep::Next(tags, r) = parse_tags(s, Seq::empty()) {
        if let TpsParse::Read(start) = game_start::<S>(tags) {
            lemma_parse_moves_rest(r, start, Seq::empty());
        }
    }
}

/// How reading a PTN text ends.
pub enum PtnParse<const S: usize> {
    Parsed(Seq<GameView<S>>),
    Failed,
    Unsupported,
}

/// Reads the games of a PTN text, with `games` read so far: when a game fails to read, the
/// games before it are the outcome, and the text fails when there are none.
pub open spec fn parse_games<const S: usize>(s: Seq<char>, games: Seq<GameView<S>>) -> PtnParse<S>
    decreases s.len(),
{
    if skip_ws(s).len() == 0 {
        PtnParse::Parsed(games)
    } else {
        match parse_game::<S>(s) {
            PtnStep::Next(game, r) => {
                proof {
                    lemma_parse_game_rest::<S>(s);
                }
                parse_games(r, games.push(game))
            },
            PtnStep::Malformed => if games.len() == 0 {
                PtnParse::Failed
            } else {
                PtnParse::Parsed(games)
            },
            PtnStep::Unsupported => PtnParse::Unsupported,
        }
    }
}

/// Reads the games of a PTN text.
pub open spec fn spec_parse_games<const S: usize>(s: Seq<char>) -> PtnParse<S> {
    parse_games::<S>(s, Seq::empty())
}

/// A game: its start position, its moves, its result as written, and its tags.
pub struct Game<const S: usize> {
    pub start_position: Position<S>,
    pub moves: Vec<PtnMove<S>>,
    pub game_result_str: Option<&'static str>,
    pub tags: Vec<(String, String)>,
}

pub open spec fn string_tag_views(tags: Seq<(String, String)>) -> Seq<(Seq<char>, Seq<char>)> {
    tags.map_values(|t: (String, String)| (t.0@, t.1@))
}

pub open spec fn result_view(r: Option<&'static str>) -> Option<Seq<char>> {
    match r {
        Some(x) => Some(x@),
        None => None,
    }
}

impl<const S: usize> Game<S> {
    pub open spec fn view(&self) -> GameView<S> {
        GameView {
            start: self.start_position@,
            moves: move_views(self.moves@),
            result: result_view(self.game_result_str),
            tags: string_tag_views(self.tags@),
        }
    }
}

pub open spec fn game_views<const S: usize>(games: Seq<Game<S>>) -> Seq<GameView<S>> {
    games.map_values(|g: Game<S>| g@)
}

/// The result a result text stands for: `*` for a game that is not over.
pub open spec fn spec_result_of(w: Seq<char>) -> Option<GameResult> {
    if w == seq!['1', '-', '0'] || w == seq!['R', '-', '0'] || w == seq!['F', '-', '0'] {
        Some(GameResult::WhiteWin)
    } else if w == seq!['0', '-', '1'] || w == seq!['0', '-', 'R'] || w == seq!['0', '-', 'F'] {
        Some(GameResult::BlackWin)
    } else if w == seq!['1', '/', '2', '-', '1', '/', '2'] {
        Some(GameResult::Draw)
    } else {
        None
    }
}

/// A result text is read by its scores: a white score of 0 is a black win, a black score of
/// 0 a white win, halves on both sides a draw, and `*` a game not decided.
pub proof fn lemma_result_by_score(w: Seq<char>)
    requires
        is_result(w),
    ensures
        spec_result_of(w) == Some(GameResult::BlackWin) <==> w[0] == '0',
        spec_result_of(w) == Some(GameResult::WhiteWin) <==> w.len() == 3 && w[2] == '0',
        spec_result_of(w) == Some(GameResult::WhiteWin) ==> w[0] == '1' || w[0] == 'R' || w[0] == 'F',
        spec_result_of(w) == Some(GameResult::Draw) <==> w.len() == 7,
        spec_result_of(w) is None <==> w == seq!['*'],
{
}

impl<const S: usize> Game<S> {
    /// The result of the game, as its result text gives it.
    pub fn game_result(&self) -> (r: Option<GameResult>)
        requires
            self.game_result_str matches Some(x) ==> is_result(x@),
        ensures
            r == match self.game_result_str {
                Some(x) => spec_result_of(x@),
                None => None,
            },
            self.game_result_str matches Some(x) ==> (r == Some(GameResult::BlackWin) <==> x@[0] == '0'),
            self.game_result_str matches Some(x) ==> (r == Some(GameResult::WhiteWin) <==> x@.len() == 3
                && x@[2] == '0'),
    {
        proof {
            if let Some(x) = self.game_result_str {
                lemma_result_by_score(x@);
            }
        }
        match self.game_result_str {
            None => None,
            Some(x) => {
                let w = crate::text::str_to_chars(x);
                proof {
                    reveal_strlit("1-0");
                    reveal_strlit("R-0");
                    reveal_strlit("F-0");
                    reveal_strlit("0-1");
                    reveal_strlit("0-R");
                    reveal_strlit("0-F");
                    reveal_strlit("1/2-1/2");
                    assert("1-0"@ =~= seq!['1', '-', '0']);
                    assert("R-0"@ =~= seq!['R', '-', '0']);
                    assert("F-0"@ =~= seq!['F', '-', '0']);
                    assert("0-1"@ =~= seq!['0', '-', '1']);
                    assert("0-R"@ =~= seq!['0', '-', 'R']);
                    assert("0-F"@ =~= seq!['0', '-', 'F']);
                    assert("1/2-1/2"@ =~= seq!['1', '/', '2', '-', '1', '/', '2']);
                }
                if word_is(&w, "1-0") || word_is(&w, "R-0") || word_is(&w, "F-0") {
                    Some(GameResult::WhiteWin)
                } else if word_is(&w, "0-1") || word_is(&w, "0-R") || word_is(&w, "0-F") {
                    Some(GameResult::BlackWin)
                } else if word_is(&w, "1/2-1/2") {
                    Some(GameResult::Draw)
                } else {
                    None
                }
            },
        }
    }
}

/// The first tag whose name is `TPS`.
fn find_tps_tag(tags: &Vec<(Vec<char>, Vec<char>)>) -> (r: Option<usize>)
    ensures
        match first_tps_tag(tag_views(tags@), tags@.len() as int) {
            Some(j) => 0 <= j < tags.len() && r == Some(j as usize),
            None => r is None,
        },
{
    let ghost tv = tag_views(tags@);
    let mut k: usize = 0;
    while k < tags.len()
        invariant
            k <= tags.len(),
            tv == tag_views(tags@),
            first_tps_tag(tv, k as int) is None,
        decreases tags.len() - k,
    {
        let name = &tags[k].0;
        let is_tps = name.len() == 3 && (name[0] == 'T' || name[0] == 't') && (name[1] == 'P' || name[1]
            == 'p') && (name[2] == 'S' || name[2] == 's');
        proof {
            assert(tv[k as int].0 == name@);
        }
        if is_tps {
            proof {
                assert(is_tps_name(tv[k as int].0));
                assert(first_tps_tag(tv, k + 1) == Some(k as int));
                lemma_first_tps_stays(tv, k + 1, tags.len() as int);
            }
            return Some(k);
        }
        k = k + 1;
    }
    None
}

proof fn lemma_first_tps_stays(tags: Seq<(Seq<char>, Seq<char>)>, n: int, m: int)
    requires
        0 <= n <= m,
        first_tps_tag(tags, n) is Some,
    ensures
        first_tps_tag(tags, m) == first_tps_tag(tags, n),
    decreases m - n,
{
    if n < m {
        lemma_first_tps_stays(tags, n, m - 1);
    }
}

/// The start position is the one `spec_start_view` describes.
pub(crate) proof fn lemma_start_view<const S: usize>(p: Position<S>)
    requires
        valid_size(S),
        p.wf(),
        forall|i: int| 0 <= i < S * S ==> (#[trigger] p.stacks@[i])@.len() == 0,
        p.to_move == Color::White,
        p.white_stones_left == spec_starting_stones(S),
        p.black_stones_left == spec_starting_stones(S),
        p.white_caps_left == spec_starting_capstones(S),
        p.black_caps_left == spec_starting_capstones(S),
        p.half_moves_played == 0,
        p.moves@ == Seq::<Move<S>>::empty(),
        p.komi == (Komi { half_komi: 0 }),
        p.hash == spec_to_move_key(S as int, Color::White),
        p.hash_history@ == Seq::<u64>::empty(),
    ensures
        p@ == spec_start_view::<S>(),
{
    Stack::lemma_default_wf();
    assert forall|i: int| 0 <= i < S * S implies #[trigger] p.stacks@[i] == Stack::default_spec() by {
        assert(p.stacks@[i]@ =~= Stack::default_spec()@);
        p.stacks@[i].lemma_view_injective(Stack::default_spec());
    }
    assert(p.stacks@ =~= Seq::new((S * S) as nat, |i: int| Stack::default_spec()));
    assert(p@ =~= spec_start_view::<S>());
}

/// The start position of a game with these tags.
fn start_position_of<const S: usize>(tags: &Vec<(Vec<char>, Vec<char>)>) -> (r: Read<Position<S>>)
    requires
        valid_size(S),
    ensures
        match r {
            Read::Next(p, _) => p.wf() && game_start::<S>(tag_views(tags@)) == TpsParse::Read(p@),
            Read::Malformed => game_start::<S>(tag_views(tags@)) is Malformed,
            Read::Unsupported => game_start::<S>(tag_views(tags@)) is OutOfRange,
        },
{
    match find_tps_tag(tags) {
        None => {
            let p = Position::<S>::start_position_with_komi(Komi { half_komi: 0 });
            proof {
                lemma_start_view(p);
            }
            Read::Next(p, 0)
        },
        Some(k) => {
            let fen = chars_to_string(&tags[k].1);
            proof {
                assert(tag_views(tags@)[k as int].1 == fen@);
            }
            match read_tps::<S>(fen.as_str(), &Settings { komi: Komi { half_komi: 0 } }) {
                TpsReading::Read(p) => {
                    proof {
                        let c = choose|c: TpsContent| spec_read_tps::<S>(fen@) == TpsParse::Read(c);
                        lemma_tps_position_unique(p@, c);
                    }
                    Read::Next(p, 0)
                },
                TpsReading::Malformed => Read::Malformed,
                TpsReading::OutOfRange => Read::Unsupported,
            }
        },
    }
}

/// The tags as strings.
fn tag_strings(tags: &Vec<(Vec<char>, Vec<char>)>) -> (out: Vec<(String, String)>)
    ensures
        string_tag_views(out@) == tag_views(tags@),
{
    let mut out: Vec<(String, String)> = Vec::new();
    let mut k: usize = 0;
    while k < tags.len()
        invariant
            k <= tags.len(),
            string_tag_views(out@) == tag_views(tags@).take(k as int),
        decreases tags.len() - k,
    {
        let name = chars_to_string(&tags[k].0);
        let value = chars_to_string(&tags[k].1);
        let ghost before = string_tag_views(out@);
        out.push((name, value));
        proof {
            assert(string_tag_views(out@) =~= before.push((name@, value@)));
            assert(tag_views(tags@).take(k + 1) =~= tag_views(tags@).take(k as int).push((tags@[k as int].0@, tags@[k as int].1@)));
        }
        k = k + 1;
    }
    proof {
        assert(tag_views(tags@).take(tags.len() as int) =~= tag_views(tags@));
    }
    out
}

/// Reads a game from index `i`.
fn read_game<const S: usize>(chars: &Vec<char>, i: usize) -> (r: Read<Game<S>>)
    requires
        valid_size(S),
        i <= chars.len(),
    ensures
        match r {
            Read::Next(g, j) => j <= chars.len() && g.start_position.wf() && parse_game::<S>(chars@.skip(i as int))
                == PtnStep::Next(g@, chars@.skip(j as int)),
            Read::Malformed => parse_game::<S>(chars@.skip(i as int)) is Malformed,
            Read::Unsupported => parse_game::<S>(chars@.skip(i as int)) is Unsupported,
        },
{
    let (tags, k) = match read_tags(chars, i) {
        Read::Next(tags, k) => (tags, k),
        Read::Malformed => {
            return Read::Malformed;
        },
        Read::Unsupported => {
            return Read::Unsupported;
        },
    };
    let position = match start_position_of::<S>(&tags) {
        Read::Next(p, _) => p,
        Read::Malformed => {
            return Read::Malformed;
        },
        Read::Unsupported => {
            return Read::Unsupported;
        },
    };
    match read_moves(chars, k, position) {
        Read::Next((moves, result, _), j) => {
            let start_position = match start_position_of::<S>(&tags) {
                Read::Next(p, _) => p,
                _ => {
                    proof {
                        assert(false);
                    }
                    return Read::Malformed;
                },
            };
            let game = Game { start_position, moves, game_result_str: result, tags: tag_strings(&tags) };
            Read::Next(game, j)
        },
        Read::Malformed => Read::Malformed,
        Read::Unsupported => Read::Unsupported,
    }
}

/// What reading a PTN text gave.
pub enum PtnReading<const S: usize> {
    Games(Vec<Game<S>>),
    Failed,
    Unsupported,
}

/// Reads the games of a PTN text.
#[verifier::loop_isolation(false)]
pub fn read_ptn<const S: usize>(input: &str) -> (r: PtnReading<S>)
    requires
        valid_size(S),
    ensures
        match r {
            PtnReading::Games(games) => spec_parse_games::<S>(input@) == PtnParse::Parsed(game_views(games@))
                && forall|k: int| 0 <= k < games.len() ==> (#[trigger] games@[k]).start_position.wf(),
            PtnReading::Failed => spec_parse_games::<S>(input@) is Failed,
            PtnReading::Unsupported => spec_parse_games::<S>(input@) is Unsupported,
        },
{
    let chars = crate::text::str_to_chars(input);
    let mut games: Vec<Game<S>> = Vec::new();
    let mut j: usize = 0;
    proof {
        assert(chars@.skip(0) =~= input@);
        assert(game_views(games@) =~= Seq::<GameView<S>>::empty());
    }
    loop
        invariant
            valid_size(S),
            j <= chars.len(),
            chars@ == input@,
            spec_parse_games::<S>(input@) == parse_games::<S>(chars@.skip(j as int), game_views(games@)),
            forall|k: int| 0 <= k < games.len() ==> (#[trigger] games@[k]).start_position.wf(),
        decreases chars.len() - j,
    {
        let k = skip_whitespaces(chars_ref(&chars), j);
        if k == chars.len() {
            proof {
                assert(chars@.skip(k as int) =~= Seq::<char>::empty());
            }
            return PtnReading::Games(games);
        }
        proof {
            lemma_parse_game_rest::<S>(chars@.skip(j as int));
            assert(game_views(games@).len() == games.len());
        }
        match read_game::<S>(&chars, j) {
            Read::Next(game, next) => {
                let ghost before = game_views(games@);
                games.push(game);
                proof {
                    assert(game_views(games@) =~= before.push(game@));
                }
                j = next;
            },
            Read::Malformed => {
                if games.len() == 0 {
                    return PtnReading::Failed;
                } else {
                    return PtnReading::Games(games);
                }
            },
            Read::Unsupported => {
                return PtnReading::Unsupported;
            },
        }
    }
}

fn chars_ref(chars: &Vec<char>) -> (r: &Vec<char>)
    ensures
        r == chars,
{
    chars
}

/// Whether reading a PTN text would play a move or read a number that this library does not
/// take; `parse_ptn` does not accept such a text.
pub fn ptn_unsupported<const S: usize>(input: &str) -> (b: bool)
    requires
        valid_size(S),
    ensures
        b == spec_parse_games::<S>(input@) is Unsupported,
{
    match read_ptn::<S>(input) {
        PtnReading::Unsupported => true,
        _ => false,
    }
}

/// Reads the games of a PTN text: the games before the first one that fails to read, or an
/// error when the first one fails.
pub fn parse_ptn<const S: usize>(input: &str) -> (r: Result<Vec<Game<S>>, pgn_traits::Error>)
    requires
        valid_size(S),
        !(spec_parse_games::<S>(input@) is Unsupported),
    ensures
        r is Ok <==> spec_parse_games::<S>(input@) is Parsed,
        r matches Ok(games) ==> spec_parse_games::<S>(input@) == PtnParse::Parsed(game_views(games@)),
{
    match read_ptn::<S>(input) {
        PtnReading::Games(games) => Ok(games),
        _ => Err(crate::text::parse_error("Couldn't parse PTN")),
    }
}

} // verus!
