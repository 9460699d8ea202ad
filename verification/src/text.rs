//! Conversions between strings and character vectors, and the parse error type.
use vstd::prelude::*;

verus! {

/// The error type of the text parsers, from `pgn_traits`.
#[verifier::external_type_specification]
#[verifier::external_body]
pub struct ExPgnError(pgn_traits::Error);

/// Builds a parse error carrying `message`, through `pgn_traits::Error::new_parse_error`.
/// Nothing is claimed of the error's contents.
#[verifier::external_body]
pub(crate) fn parse_error(message: &str) -> pgn_traits::Error {
    pgn_traits::Error::new_parse_error(message.to_string())
}

/// The characters of a string, through `str::chars` and `collect`.
/// Claims that the vector holds exactly the characters of the string, in order.
#[verifier::external_body]
pub(crate) fn str_to_chars(s: &str) -> (v: Vec<char>)
    ensures
        v@ == s@,
{
    s.chars().collect()
}

/// A string made of the given characters, through `String::from_iter`.
/// Claims that the string holds exactly these characters, in order.
#[verifier::external_body]
pub(crate) fn chars_to_string(v: &Vec<char>) -> (s: String)
    ensures
        s@ == v@,
{
    String::from_iter(v.iter())
}

/// A character's code as a `u32` is its code as an integer.
pub proof fn lemma_char_code(c: char)
    ensures
        (c as u32) as int == c as int,
{
}

} // verus!

verus! {

/// Whether a character has the Unicode `White_Space` property, as `char::is_whitespace` says.
pub open spec fn spec_is_whitespace(c: char) -> bool {
    let n = c as u32;
    ||| 9 <= n <= 13
    ||| n == 32
    ||| n == 0x85
    ||| n == 0xa0
    ||| n == 0x1680
    ||| 0x2000 <= n <= 0x200a
    ||| n == 0x2028
    ||| n == 0x2029
    ||| n == 0x202f
    ||| n == 0x205f
    ||| n == 0x3000
}

pub fn is_whitespace(c: char) -> (b: bool)
    ensures
        b == spec_is_whitespace(c),
{
    let n = c as u32;
    (9 <= n && n <= 13) || n == 32 || n == 0x85 || n == 0xa0 || n == 0x1680 || (0x2000 <= n && n
        <= 0x200a) || n == 0x2028 || n == 0x2029 || n == 0x202f || n == 0x205f || n == 0x3000
}

/// The words of a text: its maximal runs of characters that are not whitespace, in order.
pub open spec fn words(s: Seq<char>) -> Seq<Seq<char>>
    decreases s.len(),
{
    if s.len() == 0 {
        Seq::empty()
    } else {
        let w = words(s.drop_last());
        let c = s.last();
        if spec_is_whitespace(c) {
            w
        } else if s.len() >= 2 && !spec_is_whitespace(s[s.len() - 2]) {
            w.update(w.len() - 1, w.last().push(c))
        } else {
            w.push(seq![c])
        }
    }
}

/// The pieces of a text between the occurrences of `sep`; there is always at least one.
pub open spec fn split_on(s: Seq<char>, sep: char) -> Seq<Seq<char>>
    decreases s.len(),
{
    if s.len() == 0 {
        seq![Seq::empty()]
    } else {
        let p = split_on(s.drop_last(), sep);
        if s.last() == sep {
            p.push(Seq::empty())
        } else {
            p.update(p.len() - 1, p.last().push(s.last()))
        }
    }
}

pub open spec fn views(v: Seq<Vec<char>>) -> Seq<Seq<char>> {
    v.map_values(|w: Vec<char>| w@)
}

/// A text that ends in a character that is not whitespace has a word.
pub proof fn lemma_words_nonempty(s: Seq<char>)
    requires
        s.len() > 0,
        !spec_is_whitespace(s.last()),
    ensures
        words(s).len() > 0,
    decreases s.len(),
{
    if s.len() >= 2 && !spec_is_whitespace(s[s.len() - 2]) {
        lemma_words_nonempty(s.drop_last());
    }
}

/// The words of a text, as `str::split_whitespace` gives them.
pub fn split_whitespace(s: &Vec<char>) -> (out: Vec<Vec<char>>)
    ensures
        views(out@) == words(s@),
{
    let mut out: Vec<Vec<char>> = Vec::new();
    let mut cur: Vec<char> = Vec::new();
    let mut i: usize = 0;
    while i < s.len()
        invariant
            i <= s.len(),
            cur.len() > 0 <==> (i > 0 && !spec_is_whitespace(s@[i - 1])),
            words(s@.take(i as int)) == if cur.len() > 0 {
                views(out@).push(cur@)
            } else {
                views(out@)
            },
        decreases s.len() - i,
    {
        let c = s[i];
        let ghost before = s@.take(i as int);
        let ghost out0 = out@;
        let ghost cur0 = cur@;
        proof {
            assert(s@.take(i + 1).drop_last() =~= before);
            assert(s@.take(i + 1).last() == c);
        }
        if is_whitespace(c) {
            if cur.len() > 0 {
                out.push(cur);
                cur = Vec::new();
                proof {
                    assert(views(out@) =~= views(out0).push(cur0));
                }
            }
        } else {
            cur.push(c);
            proof {
                if cur0.len() > 0 {
                    assert(views(out0).push(cur0).update(views(out0).len() as int, cur0.push(c))
                        =~= views(out0).push(cur@));
                } else {
                    assert(cur@ =~= seq![c]);
                }
            }
        }
        i = i + 1;
    }
    if cur.len() > 0 {
        out.push(cur);
    }
    proof {
        assert(s@.take(s.len() as int) =~= s@);
    }
    out
}

/// The pieces of a text between the occurrences of `sep`, as `str::split` gives them.
pub fn split_char(s: &Vec<char>, sep: char) -> (out: Vec<Vec<char>>)
    ensures
        views(out@) == split_on(s@, sep),
{
    let mut out: Vec<Vec<char>> = Vec::new();
    let mut cur: Vec<char> = Vec::new();
    let mut i: usize = 0;
    while i < s.len()
        invariant
            i <= s.len(),
            split_on(s@.take(i as int), sep) == views(out@).push(cur@),
        decreases s.len() - i,
    {
        let c = s[i];
        let ghost out0 = out@;
        let ghost cur0 = cur@;
        proof {
            assert(s@.take(i + 1).drop_last() =~= s@.take(i as int));
            assert(s@.take(i + 1).last() == c);
        }
        if c == sep {
            out.push(cur);
            cur = Vec::new();
            proof {
                assert(views(out@) =~= views(out0).push(cur0));
                assert(views(out0).push(cur0).push(Seq::empty()) =~= views(out@).push(cur@));
            }
        } else {
            cur.push(c);
            proof {
                assert(views(out0).push(cur0).update(views(out0).len() as int, cur0.push(c))
                    =~= views(out0).push(cur@));
            }
        }
        i = i + 1;
    }
    let ghost out0 = out@;
    out.push(cur);
    proof {
        assert(s@.take(s.len() as int) =~= s@);
        assert(views(out@) =~= views(out0).push(cur@));
    }
    out
}

/// Whether a character is a decimal digit, `0` to `9`.
pub open spec fn is_digit(c: char) -> bool {
    48 <= c as int <= 57
}

/// The value of a string of decimal digits.
pub open spec fn digits_value(ds: Seq<char>) -> nat
    decreases ds.len(),
{
    if ds.len() == 0 {
        0
    } else {
        digits_value(ds.drop_last()) * 10 + (ds.last() as int - 48) as nat
    }
}

/// The text after an optional leading `+`.
pub open spec fn sign_dropped(s: Seq<char>) -> Seq<char> {
    if s.len() > 0 && s[0] == '+' {
        s.drop_first()
    } else {
        s
    }
}

/// A number in decimal as the integer parsers of `str::parse` read it: an optional `+`, then
/// one or more digits.
pub open spec fn spec_parse_decimal(s: Seq<char>) -> Option<nat> {
    let ds = sign_dropped(s);
    if ds.len() > 0 && forall|i: int| 0 <= i < ds.len() ==> is_digit(#[trigger] ds[i]) {
        Some(digits_value(ds))
    } else {
        None
    }
}

/// A prefix of a string of digits has a value no larger than the whole.
pub proof fn lemma_digits_value_prefix(ds: Seq<char>, k: int)
    requires
        0 <= k <= ds.len(),
    ensures
        digits_value(ds.take(k)) <= digits_value(ds),
    decreases ds.len(),
{
    if k < ds.len() {
        lemma_digits_value_prefix(ds.drop_last(), k);
        assert(ds.drop_last().take(k) =~= ds.take(k));
    } else {
        assert(ds.take(k) =~= ds);
    }
}

/// Parses a number in decimal, when it is at most `bound`.
pub fn parse_decimal(s: &Vec<char>, bound: u64) -> (r: Option<u64>)
    requires
        bound >= 9,
    ensures
        r is Some <==> (spec_parse_decimal(s@) matches Some(v) && v <= bound),
        r matches Some(x) ==> spec_parse_decimal(s@) == Some(x as nat),
{
    let start: usize = if s.len() > 0 && s[0] == '+' { 1 } else { 0 };
    let ghost ds = sign_dropped(s@);
    proof {
        assert(ds =~= s@.skip(start as int));
    }
    if start == s.len() {
        return None;
    }
    let mut acc: u64 = 0;
    let mut i: usize = start;
    while i < s.len()
        invariant
            start <= i <= s.len(),
            ds == s@.skip(start as int),
            ds == sign_dropped(s@),
            ds.len() > 0,
            forall|k: int| 0 <= k < i - start ==> is_digit(#[trigger] ds[k]),
            acc == digits_value(ds.take(i - start)),
            acc <= bound,
            bound >= 9,
        decreases s.len() - i,
    {
        let c = s[i];
        proof {
            lemma_char_code(c);
            assert(ds.take(i + 1 - start).drop_last() =~= ds.take(i - start));
            assert(ds[i - start] == c);
        }
        let n = c as u32;
        if n < 48 || n > 57 {
            proof {
                assert(!is_digit(ds[i - start]));
            }
            return None;
        }
        let d = (n - 48) as u64;
        if acc > (bound - d) / 10 {
            proof {
                assert(acc * 10 + d > bound) by (nonlinear_arith)
                    requires
                        acc > (bound - d) / 10,
                        d <= 9,
                        bound >= 9,
                ;
                let t = ds.take(i + 1 - start);
                assert(t.last() == c);
                assert(t.drop_last() =~= ds.take(i - start));
                assert(digits_value(t) == digits_value(t.drop_last()) * 10 + (c as int - 48) as nat);
                assert(digits_value(t) == acc * 10 + d);
                lemma_digits_value_prefix(ds, i + 1 - start);
            }
            return None;
        }
        proof {
            assert(acc * 10 + d <= bound) by (nonlinear_arith)
                requires
                    acc <= (bound - d) / 10,
                    d <= 9,
                    bound >= 9,
            ;
        }
        acc = acc * 10 + d;
        i = i + 1;
    }
    proof {
        assert(ds.take(s.len() - start) =~= ds);
    }
    Some(acc)
}

/// Joining two texts at whitespace joins their words.
pub proof fn lemma_words_concat(a: Seq<char>, b: Seq<char>)
    requires
        a.len() == 0 || spec_is_whitespace(a.last()) || b.len() == 0 || spec_is_whitespace(b[0]),
    ensures
        words(a + b) == words(a) + words(b),
    decreases b.len(),
{
    if b.len() == 0 {
        assert(a + b =~= a);
        assert(words(a) + words(b) =~= words(a));
    } else {
        let b1 = b.drop_last();
        let c = b.last();
        assert((a + b).drop_last() =~= a + b1);
        assert((a + b).last() == c);
        if b1.len() > 0 {
            assert(b1[0] == b[0]);
        }
        lemma_words_concat(a, b1);
        let w = words(a + b1);
        if spec_is_whitespace(c) {
        } else if b.len() >= 2 {
            assert((a + b)[(a + b).len() - 2] == b[b.len() - 2]);
            if !spec_is_whitespace(b[b.len() - 2]) {
                lemma_words_nonempty(b1);
                assert(w.update(w.len() - 1, w.last().push(c)) =~= words(a) + words(b1).update(
                    words(b1).len() - 1,
                    words(b1).last().push(c),
                ));
            } else {
                assert(w.push(seq![c]) =~= words(a) + words(b1).push(seq![c]));
            }
        } else {
            assert(b1 =~= Seq::<char>::empty());
            assert(words(b) =~= seq![seq![c]]);
            if a.len() == 0 {
                assert(a + b =~= b);
                assert(words(a) + words(b) =~= words(b));
            } else {
                assert((a + b)[(a + b).len() - 2] == a.last());
                assert(w =~= words(a));
                assert(w.push(seq![c]) =~= words(a) + words(b));
            }
        }
    }
}

/// A text with no whitespace is one word.
pub proof fn lemma_words_single(w: Seq<char>)
    requires
        w.len() > 0,
        forall|i: int| 0 <= i < w.len() ==> !spec_is_whitespace(#[trigger] w[i]),
    ensures
        words(w) == seq![w],
    decreases w.len(),
{
    assert(!spec_is_whitespace(w[w.len() - 1]));
    if w.len() == 1 {
        assert(w.drop_last() =~= Seq::<char>::empty());
        assert(seq![w.last()] =~= w);
        assert(words(w) == words(w.drop_last()).push(seq![w.last()]));
        assert(words(w) =~= seq![w]);
    } else {
        let w1 = w.drop_last();
        assert(!spec_is_whitespace(w[w.len() - 2]));
        lemma_words_single(w1);
        assert(w[w.len() - 2] == w1.last());
        assert(w1.push(w.last()) =~= w);
        assert(seq![w1].update(0, w1.push(w.last())) =~= seq![w]);
    }
}

/// Splitting a text that ends with `sep` and more text adds that text as the last piece.
pub proof fn lemma_split_push(a: Seq<char>, b: Seq<char>, sep: char)
    requires
        forall|i: int| 0 <= i < b.len() ==> #[trigger] b[i] != sep,
    ensures
        split_on(a.push(sep) + b, sep) == split_on(a, sep).push(b),
    decreases b.len(),
{
    if b.len() == 0 {
        assert(a.push(sep) + b =~= a.push(sep));
        assert(a.push(sep).drop_last() =~= a);
        assert(b =~= Seq::<char>::empty());
    } else {
        let b1 = b.drop_last();
        assert(b[b.len() - 1] != sep);
        assert((a.push(sep) + b).drop_last() =~= a.push(sep) + b1);
        assert((a.push(sep) + b).last() == b.last());
        lemma_split_push(a, b1, sep);
        assert(b1.push(b.last()) =~= b);
        assert(split_on(a, sep).push(b1).update(split_on(a, sep).len() as int, b1.push(b.last()))
            =~= split_on(a, sep).push(b));
    }
}

/// A text without `sep` is one piece.
pub proof fn lemma_split_single(b: Seq<char>, sep: char)
    requires
        forall|i: int| 0 <= i < b.len() ==> #[trigger] b[i] != sep,
    ensures
        split_on(b, sep) == seq![b],
    decreases b.len(),
{
    if b.len() == 0 {
        assert(b =~= Seq::<char>::empty());
    } else {
        let b1 = b.drop_last();
        assert(b[b.len() - 1] != sep);
        lemma_split_single(b1, sep);
        assert(b1.push(b.last()) =~= b);
        assert(seq![b1].update(0, b1.push(b.last())) =~= seq![b]);
    }
}

} // verus!
