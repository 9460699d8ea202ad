//! Numbering of Tak positions: every legal position gets a distinct index in
//! `0..count_legal_positions()`, and positions can be encoded to and decoded from it.
use vstd::prelude::*;

use vstd::arithmetic::div_mod::{lemma_div_by_multiple, lemma_fundamental_div_mod, lemma_mod_pos_bound};
use vstd::arithmetic::mul::{lemma_mul_is_associative, lemma_mul_is_commutative, lemma_mul_strictly_positive};

use crate::natural::Natural;

use super::square::lemma_size;
use super::utils::Role;
use super::{
    spec_starting_capstones, spec_starting_stones, starting_capstones, starting_stones, valid_size, Color, Piece,
    Position, PositionView, Square, Stack,
};

verus! {

pub open spec fn fact(n: nat) -> nat
    decreases n,
{
    if n == 0 {
        1
    } else {
        n * fact((n - 1) as nat)
    }
}

pub open spec fn seq_sum(s: Seq<u64>) -> nat
    decreases s.len(),
{
    if s.len() == 0 {
        0
    } else {
        seq_sum(s.drop_last()) + (s.last() as nat)
    }
}

/// The product of the factorials of the counts.
pub open spec fn fact_product(s: Seq<u64>) -> nat
    decreases s.len(),
{
    if s.len() == 0 {
        1
    } else {
        fact_product(s.drop_last()) * fact(s.last() as nat)
    }
}

/// The multinomial coefficient: the number of ways to arrange a multiset with the given
/// count of each category.
pub open spec fn multinomial(counts: Seq<u64>) -> nat {
    fact(seq_sum(counts)) / fact_product(counts)
}

/// The counts with one fewer of category `i`.
pub open spec fn dec(counts: Seq<u64>, i: int) -> Seq<u64> {
    counts.update(i, (counts[i] - 1) as u64)
}

/// The number of arrangements of `counts` whose first element is a category below `j`.
pub open spec fn arrangements_below(counts: Seq<u64>, j: int) -> nat
    decreases j,
{
    if j <= 0 {
        0
    } else {
        arrangements_below(counts, j - 1) + if counts[j - 1] > 0 {
            multinomial(dec(counts, j - 1))
        } else {
            0
        }
    }
}

/// Whether `p` is an arrangement of the multiset with the given counts: each category
/// `i` occurs exactly `counts[i]` times, and nothing else occurs.
pub open spec fn is_arrangement(p: Seq<u8>, counts: Seq<u64>) -> bool
    decreases p.len(),
{
    if p.len() == 0 {
        seq_sum(counts) == 0
    } else {
        &&& (p[0] as int) < counts.len()
        &&& counts[p[0] as int] > 0
        &&& is_arrangement(p.drop_first(), dec(counts, p[0] as int))
    }
}

/// Whether the elements of `p` can be taken one by one from the multiset with the given counts.
pub open spec fn fits(p: Seq<u8>, counts: Seq<u64>) -> bool
    decreases p.len(),
{
    if p.len() == 0 {
        true
    } else {
        &&& (p[0] as int) < counts.len()
        &&& counts[p[0] as int] > 0
        &&& fits(p.drop_first(), dec(counts, p[0] as int))
    }
}

/// What remains of the multiset once the elements of `p` are taken from it.
pub open spec fn consume(p: Seq<u8>, counts: Seq<u64>) -> Seq<u64>
    decreases p.len(),
{
    if p.len() == 0 {
        counts
    } else {
        consume(p.drop_first(), dec(counts, p[0] as int))
    }
}

/// The position of `p` in the lexicographic order of the arrangements of `counts`.
pub open spec fn perm_rank(p: Seq<u8>, counts: Seq<u64>) -> nat
    decreases p.len(),
{
    if p.len() == 0 {
        0
    } else {
        arrangements_below(counts, p[0] as int) + perm_rank(p.drop_first(), dec(counts, p[0] as int))
    }
}

pub proof fn lemma_fact_positive(n: nat)
    ensures
        fact(n) > 0,
    decreases n,
{
    if n > 0 {
        lemma_fact_positive((n - 1) as nat);
        lemma_mul_strictly_positive(n as int, fact((n - 1) as nat) as int);
    }
}

pub proof fn lemma_fact_product_positive(s: Seq<u64>)
    ensures
        fact_product(s) > 0,
    decreases s.len(),
{
    if s.len() > 0 {
        lemma_fact_product_positive(s.drop_last());
        lemma_fact_positive(s.last() as nat);
        lemma_mul_strictly_positive(fact_product(s.drop_last()) as int, fact(s.last() as nat) as int);
    }
}

proof fn lemma_dec_sum(s: Seq<u64>, i: int)
    requires
        0 <= i < s.len(),
        s[i] > 0,
    ensures
        seq_sum(dec(s, i)) == seq_sum(s) - 1,
        fact_product(s) == fact_product(dec(s, i)) * s[i],
    decreases s.len(),
{
    let d = dec(s, i);
    if i == s.len() - 1 {
        assert(d.drop_last() =~= s.drop_last());
        let k = s.last() as nat;
        assert(fact(k) == k * fact((k - 1) as nat));
        lemma_mul_is_associative(fact_product(s.drop_last()) as int, fact((k - 1) as nat) as int, k as int);
        lemma_mul_is_commutative(k as int, fact((k - 1) as nat) as int);
    } else {
        assert(d.drop_last() =~= dec(s.drop_last(), i));
        lemma_dec_sum(s.drop_last(), i);
        let a = fact_product(dec(s.drop_last(), i));
        let f = fact(s.last() as nat);
        lemma_mul_is_associative(a as int, s[i] as int, f as int);
        lemma_mul_is_associative(a as int, f as int, s[i] as int);
        lemma_mul_is_commutative(s[i] as int, f as int);
    }
}

proof fn lemma_zero_sum(s: Seq<u64>)
    requires
        seq_sum(s) == 0,
    ensures
        fact_product(s) == 1,
        forall|i: int| 0 <= i < s.len() ==> s[i] == 0,
    decreases s.len(),
{
    if s.len() > 0 {
        lemma_zero_sum(s.drop_last());
        assert(s.last() == 0);
        assert(fact(0) == 1);
        assert(fact(s.last() as nat) == 1);
        assert(fact_product(s) == fact_product(s.drop_last()) * fact(s.last() as nat));
        assert forall|i: int| 0 <= i < s.len() implies s[i] == 0 by {
            if i < s.len() - 1 {
                assert(s[i] == s.drop_last()[i]);
            }
        }
    }
}

/// `arrangements_below(s, j) * fact_product(s) == (s[0] + .. + s[j-1]) * fact(n - 1)`.
proof fn lemma_below_prefix(s: Seq<u64>, j: int)
    requires
        seq_sum(s) > 0,
        0 <= j <= s.len(),
    ensures
        arrangements_below(s, j) * fact_product(s) == seq_sum(s.subrange(0, j)) * fact((seq_sum(s) - 1) as nat),
    decreases seq_sum(s), 0nat, j,
{
    let n = seq_sum(s);
    let f = fact((n - 1) as nat);
    let p = fact_product(s);
    if j == 0 {
        assert(s.subrange(0, 0).len() == 0);
        assert(arrangements_below(s, j) == 0);
        assert(0 * p == 0 && 0 * f == 0) by (nonlinear_arith);
    } else {
        lemma_below_prefix(s, j - 1);
        assert(s.subrange(0, j).drop_last() =~= s.subrange(0, j - 1));
        let a = arrangements_below(s, j - 1);
        let t = seq_sum(s.subrange(0, j - 1));
        let k = s[j - 1];
        if k > 0 {
            let d = dec(s, j - 1);
            lemma_dec_sum(s, j - 1);
            lemma_multinomial(d);
            let m = multinomial(d);
            // m * p == m * (fact_product(d) * k) == f * k
            lemma_mul_is_associative(m as int, fact_product(d) as int, k as int);
            assert((a + m) * p == a * p + m * p) by (nonlinear_arith);
            assert((t + k) * f == t * f + k * f) by (nonlinear_arith);
            lemma_mul_is_commutative(k as int, f as int);
            assert(arrangements_below(s, j) == a + m);
            assert(seq_sum(s.subrange(0, j)) == t + k);
            assert(m * p == f * k);
        } else {
            assert(arrangements_below(s, j) == a);
            assert(seq_sum(s.subrange(0, j)) == t);
        }
    }
}

/// The product of the factorials of the counts divides the factorial of their sum, and the
/// arrangements split by their first element.
pub proof fn lemma_multinomial(s: Seq<u64>)
    ensures
        fact(seq_sum(s)) == multinomial(s) * fact_product(s),
        multinomial(s) > 0,
        seq_sum(s) > 0 ==> multinomial(s) == arrangements_below(s, s.len() as int),
        seq_sum(s) == 0 ==> multinomial(s) == 1,
    decreases seq_sum(s), 1nat, 0nat,
{
    let n = seq_sum(s);
    let p = fact_product(s);
    lemma_fact_product_positive(s);
    if n == 0 {
        lemma_zero_sum(s);
        assert(fact(0) == 1);
    } else {
        lemma_below_prefix(s, s.len() as int);
        assert(s.subrange(0, s.len() as int) =~= s);
        let a = arrangements_below(s, s.len() as int);
        // a * p == n * fact(n - 1) == fact(n)
        assert(fact(n) == n * fact((n - 1) as nat));
        lemma_div_by_multiple(a as int, p as int);
        lemma_fact_positive(n);
        if a == 0 {
            assert(a * p == 0) by (nonlinear_arith)
                requires
                    a == 0,
            ;
        }
    }
}

pub fn factorial(n: u64) -> (f: Natural)
    ensures
        f.value() == fact(n as nat),
{
    // The factors are gathered in a machine word while they fit, and only then multiplied
    // into the big number.
    let mut big = Natural::from_u64(1);
    let mut small: u64 = 1;
    let mut i: u64 = 0;
    while i < n
        invariant
            i <= n,
            small >= 1,
            big.value() * small == fact(i as nat),
        decreases n - i,
    {
        i = i + 1;
        if small > u64::MAX / i {
            let ghost before = big.value();
            big = big.mul(&Natural::from_u64(small));
            proof {
                assert(big.value() * 1 == before * small) by (nonlinear_arith)
                    requires
                        big.value() == before * small,
                ;
            }
            small = 1;
        }
        let ghost b = big.value();
        let ghost s0 = small as int;
        proof {
            let m: int = u64::MAX as int;
            let ii: int = i as int;
            assert((u64::MAX / i) as int == m / ii);
            if s0 == 1 {
                assert(1 <= m / ii) by (nonlinear_arith)
                    requires
                        1 <= ii <= m,
                ;
            }
            assert(s0 <= m / ii);
            assert(s0 * ii <= m && s0 * ii >= 1) by (nonlinear_arith)
                requires
                    s0 <= m / ii,
                    ii >= 1,
                    s0 >= 1,
            ;
            assert(fact(i as nat) == i * fact((i - 1) as nat));
            assert(b * (s0 * i) == i * (b * s0)) by (nonlinear_arith);
        }
        small = small * i;
    }
    let f = big.mul(&Natural::from_u64(small));
    f
}

/// `n!` divided by the product of the factorials of `ks`.
pub fn choose_multinomial(n: u64, ks: &[u64]) -> (r: Natural)
    ensures
        r.value() == fact(n as nat) / fact_product(ks@),
{
    let mut product = Natural::from_u64(1);
    let mut j: usize = 0;
    while j < ks.len()
        invariant
            j <= ks.len(),
            product.value() == fact_product(ks@.subrange(0, j as int)),
        decreases ks.len() - j,
    {
        let f = factorial(ks[j]);
        product = product.mul(&f);
        proof {
            assert(ks@.subrange(0, j + 1).drop_last() =~= ks@.subrange(0, j as int));
        }
        j = j + 1;
    }
    proof {
        assert(ks@.subrange(0, ks.len() as int) =~= ks@);
        lemma_fact_product_positive(ks@);
    }
    let (q, _r) = factorial(n).div_rem(&product);
    q
}

} // verus!

verus! {

proof fn lemma_prefix_sum_le(s: Seq<u64>, j: int)
    requires
        0 <= j <= s.len(),
    ensures
        seq_sum(s.subrange(0, j)) <= seq_sum(s),
    decreases s.len(),
{
    if j < s.len() {
        assert(s.drop_last().subrange(0, j) =~= s.subrange(0, j));
        lemma_prefix_sum_le(s.drop_last(), j);
    } else {
        assert(s.subrange(0, j) =~= s);
    }
}

/// The sum of the counts.
fn sum_u64(v: &Vec<u64>) -> (total: u64)
    requires
        seq_sum(v@) <= u64::MAX,
    ensures
        total == seq_sum(v@),
{
    let mut total: u64 = 0;
    let mut j: usize = 0;
    while j < v.len()
        invariant
            j <= v.len(),
            seq_sum(v@) <= u64::MAX,
            total == seq_sum(v@.subrange(0, j as int)),
        decreases v.len() - j,
    {
        proof {
            assert(v@.subrange(0, j + 1).drop_last() =~= v@.subrange(0, j as int));
            lemma_prefix_sum_le(v@, j + 1);
        }
        total = total + v[j];
        j = j + 1;
    }
    proof {
        assert(v@.subrange(0, v.len() as int) =~= v@);
    }
    total
}

proof fn lemma_consume_len(p: Seq<u8>, c: Seq<u64>)
    requires
        fits(p, c),
    ensures
        consume(p, c).len() == c.len(),
    decreases p.len(),
{
    if p.len() > 0 {
        lemma_consume_len(p.drop_first(), dec(c, p[0] as int));
    }
}

/// Taking one more element.
proof fn lemma_push(p: Seq<u8>, x: u8, c: Seq<u64>)
    ensures
        fits(p.push(x), c) == (fits(p, c) && (x as int) < consume(p, c).len() && consume(p, c)[x as int] > 0),
        consume(p.push(x), c) == dec(consume(p, c), x as int),
        perm_rank(p.push(x), c) == perm_rank(p, c) + arrangements_below(consume(p, c), x as int),
    decreases p.len(),
{
    let q = p.push(x);
    assert(q[0] == if p.len() == 0 { x } else { p[0] });
    if p.len() == 0 {
        let e = Seq::<u8>::empty();
        assert(q.drop_first() =~= e);
        assert(fits(e, dec(c, x as int)));
        assert(consume(e, dec(c, x as int)) == dec(c, x as int));
        assert(perm_rank(e, dec(c, x as int)) == 0);
    } else {
        assert(q.drop_first() =~= p.drop_first().push(x));
        lemma_push(p.drop_first(), x, dec(c, p[0] as int));
    }
}

proof fn lemma_fits_sum(p: Seq<u8>, c: Seq<u64>)
    requires
        fits(p, c),
    ensures
        seq_sum(consume(p, c)) == seq_sum(c) - p.len(),
    decreases p.len(),
{
    if p.len() > 0 {
        lemma_dec_sum(c, p[0] as int);
        lemma_fits_sum(p.drop_first(), dec(c, p[0] as int));
    }
}

proof fn lemma_fits_prefix(p: Seq<u8>, c: Seq<u64>, m: int)
    requires
        fits(p, c),
        0 <= m <= p.len(),
    ensures
        fits(p.subrange(0, m), c),
    decreases p.len(),
{
    if m > 0 {
        assert(p.subrange(0, m).drop_first() =~= p.drop_first().subrange(0, m - 1));
        lemma_fits_prefix(p.drop_first(), dec(c, p[0] as int), m - 1);
    }
}

proof fn lemma_arrangement_of_fits(p: Seq<u8>, c: Seq<u64>)
    requires
        fits(p, c),
        seq_sum(consume(p, c)) == 0,
    ensures
        is_arrangement(p, c),
    decreases p.len(),
{
    if p.len() > 0 {
        lemma_arrangement_of_fits(p.drop_first(), dec(c, p[0] as int));
    }
}

/// The counts with one fewer of category `i`, computed.
fn reduced_counts(categories: &Vec<u64>, i: usize) -> (r: Vec<u64>)
    requires
        i < categories.len(),
        categories[i as int] > 0,
    ensures
        r@ == dec(categories@, i as int),
{
    let mut r = categories.clone();
    proof {
        assert(r@ =~= categories@);
    }
    r.set(i, categories[i] - 1);
    r
}

/// Find the k-th permutation of a multiset with arbitrary category counts.
pub fn kth_permutation(k: Natural, categories: Vec<u64>) -> (permutation: Vec<u8>)
    requires
        k.value() < multinomial(categories@),
        categories.len() <= 256,
        seq_sum(categories@) <= u64::MAX,
    ensures
        is_arrangement(permutation@, categories@),
        perm_rank(permutation@, categories@) == k.value(),
{
    let ghost c0 = categories@;
    let ghost k0 = k.value();
    let mut k = k;
    let mut categories = categories;
    let mut permutation: Vec<u8> = Vec::new();
    while sum_u64(&categories) > 0
        invariant
            c0.len() <= 256,
            categories.len() == c0.len(),
            categories@ == consume(permutation@, c0),
            fits(permutation@, c0),
            k0 == perm_rank(permutation@, c0) + k.value(),
            k.value() < multinomial(categories@),
            seq_sum(categories@) <= u64::MAX,
        decreases seq_sum(categories@),
    {
        let ghost c = categories@;
        let ghost kin = k.value();
        proof {
            lemma_multinomial(c);
        }
        let mut i: usize = 0;
        let mut found = false;
        while i < categories.len() && !found
            invariant
                categories@ == c,
                c.len() <= 256,
                i <= c.len(),
                seq_sum(c) > 0,
                seq_sum(c) <= u64::MAX,
                kin < multinomial(c),
                multinomial(c) == arrangements_below(c, c.len() as int),
                !found ==> k.value() + arrangements_below(c, i as int) == kin,
                found ==> {
                    &&& 0 < i
                    &&& c[i - 1] > 0
                    &&& k.value() + arrangements_below(c, i - 1) == kin
                    &&& k.value() < multinomial(dec(c, i - 1))
                },
            decreases c.len() - i, if found { 0int } else { 1int },
        {
            let count = categories[i];
            if count > 0 {
                let reduced = reduced_counts(&categories, i);
                proof {
                    lemma_dec_sum(c, i as int);
                }
                let num = choose_multinomial(sum_u64(&reduced), reduced.as_slice());
                if k.lt(&num) {
                    found = true;
                } else {
                    k = k.sub(&num);
                }
            }
            i = i + 1;
        }
        proof {
            if !found {
                assert(i == c.len());
                assert(false);
            }
        }
        let chosen = i - 1;
        proof {
            lemma_push(permutation@, chosen as u8, c0);
            lemma_dec_sum(c, chosen as int);
        }
        permutation.push(chosen as u8);
        categories.set(chosen, categories[chosen] - 1);
        proof {
            assert(categories@ =~= dec(c, chosen as int));
        }
    }
    proof {
        lemma_multinomial(categories@);
        lemma_arrangement_of_fits(permutation@, c0);
    }
    permutation
}

/// Compute the lexicographic index of a given permutation. Every element but the last
/// must be available in the multiset when its turn comes; the last one is counted by the
/// arrangements that start below it.
pub fn permutation_to_index(permutation: &[u8], categories: Vec<u64>) -> (index: Natural)
    requires
        permutation@.len() > 0 ==> fits(permutation@.drop_last(), categories@),
        permutation@.len() > 0 ==> (permutation@.last() as int) < categories@.len(),
        seq_sum(categories@) <= u64::MAX,
    ensures
        index.value() == perm_rank(permutation@, categories@),
{
    let ghost c0 = categories@;
    let ghost p = permutation@;
    let mut categories = categories;
    let mut index = Natural::zero();
    let mut j: usize = 0;
    proof {
        if p.len() > 0 {
            assert(p.drop_last() =~= p.subrange(0, p.len() - 1));
        }
    }
    while j < permutation.len()
        invariant
            p == permutation@,
            j <= p.len(),
            categories.len() == c0.len(),
            p.len() > 0 ==> fits(p.subrange(0, p.len() - 1), c0),
            p.len() > 0 ==> (p.last() as int) < c0.len(),
            seq_sum(c0) <= u64::MAX,
            j < p.len() ==> categories@ == consume(p.subrange(0, j as int), c0),
            j < p.len() ==> fits(p.subrange(0, j as int), c0),
            index.value() == perm_rank(p.subrange(0, j as int), c0),
        decreases p.len() - j,
    {
        let x = permutation[j];
        let ghost c = categories@;
        let ghost base = index.value();
        proof {
            lemma_fits_sum(p.subrange(0, j as int), c0);
            lemma_consume_len(p.subrange(0, j as int), c0);
            if j + 1 < p.len() {
                lemma_fits_prefix(p.subrange(0, p.len() - 1), c0, j + 1);
                assert(p.subrange(0, p.len() - 1).subrange(0, j + 1) =~= p.subrange(0, j + 1));
                assert(p.subrange(0, j + 1) =~= p.subrange(0, j as int).push(x));
                lemma_push(p.subrange(0, j as int), x, c0);
            }
        }
        let mut i: u8 = 0;
        while i < x
            invariant
                categories@ == c,
                c.len() == c0.len(),
                (x as int) < c.len(),
                seq_sum(c) <= u64::MAX,
                i <= x,
                index.value() == base + arrangements_below(c, i as int),
            decreases x - i,
        {
            if categories[i as usize] > 0 {
                let reduced = reduced_counts(&categories, i as usize);
                proof {
                    lemma_dec_sum(c, i as int);
                }
                let num = choose_multinomial(sum_u64(&reduced), reduced.as_slice());
                index = index.add(&num);
            }
            i = i + 1;
        }
        proof {
            assert(p.subrange(0, j + 1) =~= p.subrange(0, j as int).push(x));
            lemma_push(p.subrange(0, j as int), x, c0);
        }
        let count = categories[x as usize];
        categories.set(x as usize, if count > 0 { count - 1 } else { u64::MAX });
        proof {
            if j + 1 < p.len() {
                assert(categories@ =~= dec(c, x as int));
            }
        }
        j = j + 1;
    }
    proof {
        assert(p.subrange(0, p.len() as int) =~= p);
    }
    index
}

} // verus!

verus! {

/// The number of flat stones each player has played, and the player to move (1 for white,
/// 2 for black).
#[derive(Copy, Clone, PartialOrd, Ord, PartialEq, Eq, Structural, Debug)]
pub struct FlatsConfiguration {
    pub w_stones: u8,
    pub b_stones: u8,
    pub player: u8,
}

/// Whether `c` comes before the configuration `(w, b, p)`, in the order of
/// the fields.
pub open spec fn flats_before(c: FlatsConfiguration, w: int, b: int, p: int) -> bool {
    ||| (c.w_stones as int) < w
    ||| (c.w_stones as int) == w && (c.b_stones as int) < b
    ||| (c.w_stones as int) == w && (c.b_stones as int) == b && (c.player as int) < p
}

pub open spec fn flats_lt(c: FlatsConfiguration, d: FlatsConfiguration) -> bool {
    flats_before(c, d.w_stones as int, d.b_stones as int, d.player as int)
}

/// The configurations that follow the opening: each player has played between 1 and
/// `n` flats, and either may be to move.
pub open spec fn flats_after_opening(c: FlatsConfiguration, n: int) -> bool {
    &&& 1 <= c.w_stones <= n
    &&& 1 <= c.b_stones <= n
    &&& 1 <= c.player <= 2
}

impl FlatsConfiguration {
    /// All flat board configurations, except the first two ply where walls/caps cannot be placed
    pub fn all_after_opening(num_reserves: u8) -> (classes: Vec<Self>)
        ensures
            classes.len() == 2 * num_reserves * num_reserves,
            forall|i: int, j: int|
                0 <= i < j < classes.len() ==> flats_lt(#[trigger] classes@[i], #[trigger] classes@[j]),
            forall|i: int| 0 <= i < classes.len() ==> flats_after_opening(#[trigger] classes@[i], num_reserves as int),
            forall|c: FlatsConfiguration|
                flats_after_opening(c, num_reserves as int) ==> #[trigger] classes@.contains(c),
    {
        let n = num_reserves as u16;
        let mut classes: Vec<Self> = Vec::new();
        let mut w: u16 = 1;
        while w <= n
            invariant
                n == num_reserves,
                1 <= w <= n + 1,
                classes.len() == 2 * n * (w - 1),
                forall|i: int, j: int|
                    0 <= i < j < classes.len() ==> flats_lt(#[trigger] classes@[i], #[trigger] classes@[j]),
                forall|i: int|
                    0 <= i < classes.len() ==> flats_after_opening(#[trigger] classes@[i], n as int)
                        && flats_before(classes@[i], w as int, 1, 1),
                forall|c: FlatsConfiguration|
                    flats_after_opening(c, n as int) && flats_before(c, w as int, 1, 1)
                        ==> #[trigger] classes@.contains(c),
            decreases n + 1 - w,
        {
            let mut b: u16 = 1;
            while b <= n
                invariant
                    n == num_reserves,
                    1 <= w <= n,
                    1 <= b <= n + 1,
                    classes.len() == 2 * n * (w - 1) + 2 * (b - 1),
                    forall|i: int, j: int|
                        0 <= i < j < classes.len() ==> flats_lt(#[trigger] classes@[i], #[trigger] classes@[j]),
                    forall|i: int|
                        0 <= i < classes.len() ==> flats_after_opening(#[trigger] classes@[i], n as int)
                            && flats_before(classes@[i], w as int, b as int, 1),
                    forall|c: FlatsConfiguration|
                        flats_after_opening(c, n as int) && flats_before(c, w as int, b as int, 1)
                            ==> #[trigger] classes@.contains(c),
                decreases n + 1 - b,
            {
                let mut player: u8 = 1;
                while player <= 2
                    invariant
                        n == num_reserves,
                        1 <= w <= n,
                        1 <= b <= n,
                        1 <= player <= 3,
                        classes.len() == 2 * n * (w - 1) + 2 * (b - 1) + (player - 1),
                        forall|i: int, j: int|
                            0 <= i < j < classes.len() ==> flats_lt(#[trigger] classes@[i], #[trigger] classes@[j]),
                        forall|i: int|
                            0 <= i < classes.len() ==> flats_after_opening(#[trigger] classes@[i], n as int)
                                && flats_before(classes@[i], w as int, b as int, player as int),
                        forall|c: FlatsConfiguration|
                            flats_after_opening(c, n as int) && flats_before(c, w as int, b as int, player as int)
                                ==> #[trigger] classes@.contains(c),
                    decreases 3 - player,
                {
                    let c = FlatsConfiguration { w_stones: w as u8, b_stones: b as u8, player };
                    let ghost old_classes = classes@;
                    classes.push(c);
                    proof {
                        assert forall|d: FlatsConfiguration|
                            flats_after_opening(d, n as int) && flats_before(d, w as int, b as int, player + 1)
                                implies #[trigger] classes@.contains(d) by {
                            if d == c {
                                assert(classes@[classes.len() - 1] == c);
                            } else {
                                assert(old_classes.contains(d));
                                let k = choose|k: int| 0 <= k < old_classes.len() && old_classes[k] == d;
                                assert(classes@[k] == d);
                            }
                        }
                    }
                    player = player + 1;
                }
                proof {
                    assert forall|d: FlatsConfiguration|
                        flats_after_opening(d, n as int) && flats_before(d, w as int, b + 1, 1)
                            implies #[trigger] classes@.contains(d) by {
                        assert(flats_before(d, w as int, b as int, 3));
                    }
                }
                b = b + 1;
            }
            proof {
                assert forall|d: FlatsConfiguration|
                    flats_after_opening(d, n as int) && flats_before(d, w + 1, 1, 1)
                        implies #[trigger] classes@.contains(d) by {
                    assert(flats_before(d, w as int, n + 1, 1));
                }
                assert(2 * n * (w - 1) + 2 * n == 2 * n * w) by (nonlinear_arith);
            }
            w = w + 1;
        }
        classes
    }
}

} // verus!

verus! {

/// The number of walls and capstones of each player on the board.
#[derive(Copy, Clone, PartialOrd, Ord, PartialEq, Eq, Structural, Debug)]
pub struct WallConfiguration {
    pub w_walls: u8,
    pub b_walls: u8,
    pub w_caps: u8,
    pub b_caps: u8,
}

/// A range of indices: the positions with one wall configuration, within those of one flat
/// configuration.
#[derive(Debug)]
pub struct WallConfigurationData {
    /// The start index relative to the flat configuration context that the wall configuration is in
    pub start_index: Natural,
    pub size: Natural,
}

pub open spec fn wall_before(c: WallConfiguration, ww: int, bw: int, wc: int, bc: int) -> bool {
    ||| (c.w_walls as int) < ww
    ||| (c.w_walls as int) == ww && (c.b_walls as int) < bw
    ||| (c.w_walls as int) == ww && (c.b_walls as int) == bw && (c.w_caps as int) < wc
    ||| (c.w_walls as int) == ww && (c.b_walls as int) == bw && (c.w_caps as int) == wc && (c.b_caps as int) < bc
}

pub open spec fn wall_lt(c: WallConfiguration, d: WallConfiguration) -> bool {
    wall_before(c, d.w_walls as int, d.b_walls as int, d.w_caps as int, d.b_caps as int)
}

/// The bounds that the reserves put on a position: the number of squares, and the stones and
/// capstones each player starts with.
pub struct Limits {
    pub tiles: int,
    pub max_w_stones: int,
    pub max_b_stones: int,
    pub max_w_caps: int,
    pub max_b_caps: int,
}

/// Whether walls and capstones in the numbers of `c` can stand on a board where white has
/// played `w_stones` flats and black `b_stones`, with `player` to move: no player has used
/// more pieces than he has, they fit on the board, and the player to move still has a piece.
pub open spec fn wall_allowed(c: WallConfiguration, l: Limits, player: int, w_stones: int, b_stones: int) -> bool {
    &&& c.w_walls <= l.max_w_stones - w_stones
    &&& c.b_walls <= l.max_b_stones - b_stones
    &&& c.w_caps <= l.max_w_caps
    &&& c.b_caps <= l.max_b_caps
    &&& c.w_walls + c.b_walls + c.w_caps + c.b_caps <= l.tiles
    &&& !(player == 2 && b_stones + c.b_walls + c.b_caps == l.max_b_stones + l.max_b_caps)
    &&& !(player == 1 && w_stones + c.w_walls + c.w_caps == l.max_w_stones + l.max_w_caps)
}

/// The counts of empty-or-flat squares, white walls, black walls, white caps and black caps.
pub open spec fn wall_counts(c: WallConfiguration, tiles: int) -> Seq<u64> {
    seq![
        (tiles - c.w_walls - c.b_walls - c.w_caps - c.b_caps) as u64,
        c.w_walls as u64,
        c.b_walls as u64,
        c.w_caps as u64,
        c.b_caps as u64,
    ]
}

pub open spec fn wall_keys(r: Seq<(WallConfiguration, WallConfigurationData)>) -> Seq<WallConfiguration> {
    r.map_values(|e: (WallConfiguration, WallConfigurationData)| e.0)
}

/// Where the last range of a table ends.
pub open spec fn wall_table_end(r: Seq<(WallConfiguration, WallConfigurationData)>) -> nat {
    if r.len() == 0 {
        0
    } else {
        r.last().1.start_index.value() + r.last().1.size.value()
    }
}

/// The ranges follow each other from 0, with no gap.
pub open spec fn wall_ranges_consecutive(r: Seq<(WallConfiguration, WallConfigurationData)>) -> bool {
    &&& r.len() > 0 ==> r[0].1.start_index.value() == 0
    &&& forall|i: int|
        0 <= i < r.len() - 1 ==> (#[trigger] r[i + 1]).1.start_index.value() == r[i].1.start_index.value()
            + r[i].1.size.value()
}

/// The table of wall configurations, as far as the configurations before `(ww, bw, wc, bc)`.
pub open spec fn wall_table_upto(
    r: Seq<(WallConfiguration, WallConfigurationData)>,
    l: Limits,
    player: int,
    w_stones: int,
    b_stones: int,
    ww: int,
    bw: int,
    wc: int,
    bc: int,
) -> bool {
    &&& forall|i: int, j: int| 0 <= i < j < r.len() ==> wall_lt(#[trigger] r[i].0, #[trigger] r[j].0)
    &&& forall|i: int|
        0 <= i < r.len() ==> {
            &&& wall_allowed(#[trigger] r[i].0, l, player, w_stones, b_stones)
            &&& wall_before(r[i].0, ww, bw, wc, bc)
            &&& r[i].1.size.value() == multinomial(wall_counts(r[i].0, l.tiles))
        }
    &&& forall|c: WallConfiguration|
        wall_allowed(c, l, player, w_stones, b_stones) && wall_before(c, ww, bw, wc, bc)
            ==> #[trigger] wall_keys(r).contains(c)
    &&& wall_ranges_consecutive(r)
}

/// The complete table of wall configurations.
pub open spec fn wall_table_ok(
    r: Seq<(WallConfiguration, WallConfigurationData)>,
    l: Limits,
    player: int,
    w_stones: int,
    b_stones: int,
) -> bool {
    &&& forall|i: int, j: int| 0 <= i < j < r.len() ==> wall_lt(#[trigger] r[i].0, #[trigger] r[j].0)
    &&& forall|i: int|
        0 <= i < r.len() ==> {
            &&& wall_allowed(#[trigger] r[i].0, l, player, w_stones, b_stones)
            &&& r[i].1.size.value() == multinomial(wall_counts(r[i].0, l.tiles))
        }
    &&& forall|c: WallConfiguration| wall_allowed(c, l, player, w_stones, b_stones) ==> #[trigger] wall_keys(r).contains(c)
    &&& wall_ranges_consecutive(r)
}

pub open spec fn limits(tiles: u8, max_w_stones: u8, max_b_stones: u8, max_w_caps: u8, max_b_caps: u8) -> Limits {
    Limits {
        tiles: tiles as int,
        max_w_stones: max_w_stones as int,
        max_b_stones: max_b_stones as int,
        max_w_caps: max_w_caps as int,
        max_b_caps: max_b_caps as int,
    }
}

/// The number of positions with the counts of a wall configuration, placed on `tiles` squares.
fn wall_configuration_size(tiles: u8, c: WallConfiguration) -> (n: Natural)
    requires
        c.w_walls + c.b_walls + c.w_caps + c.b_caps <= tiles,
    ensures
        n.value() == multinomial(wall_counts(c, tiles as int)),
{
    let rest: u8 = tiles - c.w_walls - c.b_walls - c.w_caps - c.b_caps;
    let ks: Vec<u64> = vec![
        rest as u64,
        c.w_walls as u64,
        c.b_walls as u64,
        c.w_caps as u64,
        c.b_caps as u64,
    ];
    proof {
        assert(ks@ =~= wall_counts(c, tiles as int));
        reveal_with_fuel(seq_sum, 6);
        assert(seq_sum(ks@) == tiles);
    }
    choose_multinomial(tiles as u64, ks.as_slice())
}

} // verus!

verus! {

/// The bounds under which the counting of configurations stays within `u8`.
pub open spec fn counts_fit(
    max_w_stones: u8,
    max_b_stones: u8,
    max_w_caps: u8,
    max_b_caps: u8,
    w_stones: u8,
    b_stones: u8,
) -> bool {
    &&& w_stones <= max_w_stones
    &&& b_stones <= max_b_stones
    &&& max_w_stones + max_w_caps <= u8::MAX
    &&& max_b_stones + max_b_caps <= u8::MAX
    &&& (max_w_stones - w_stones) + (max_b_stones - b_stones) + max_w_caps + max_b_caps <= u8::MAX
}

proof fn lemma_wall_cursor(
    r: Seq<(WallConfiguration, WallConfigurationData)>,
    l: Limits,
    player: int,
    w_stones: int,
    b_stones: int,
    a: (int, int, int, int),
    b: (int, int, int, int),
)
    requires
        wall_table_upto(r, l, player, w_stones, b_stones, a.0, a.1, a.2, a.3),
        forall|c: WallConfiguration|
            wall_allowed(c, l, player, w_stones, b_stones) ==> (wall_before(c, a.0, a.1, a.2, a.3)
                <==> #[trigger] wall_before(c, b.0, b.1, b.2, b.3)),
    ensures
        wall_table_upto(r, l, player, w_stones, b_stones, b.0, b.1, b.2, b.3),
{
}

/// Adds the configuration `c` to the table, with the range of indices that follows the
/// last one, when it is allowed.
fn push_if_allowed(
    r: &mut Vec<(WallConfiguration, WallConfigurationData)>,
    total: &mut Natural,
    c: WallConfiguration,
    tiles: u8,
    max_w_stones: u8,
    max_b_stones: u8,
    max_w_caps: u8,
    max_b_caps: u8,
    player: u8,
    w_stones: u8,
    b_stones: u8,
)
    requires
        counts_fit(max_w_stones, max_b_stones, max_w_caps, max_b_caps, w_stones, b_stones),
        c.w_walls <= max_w_stones - w_stones,
        c.b_walls <= max_b_stones - b_stones,
        c.w_caps <= max_w_caps,
        c.b_caps <= max_b_caps,
        wall_table_upto(
            old(r)@,
            limits(tiles, max_w_stones, max_b_stones, max_w_caps, max_b_caps),
            player as int,
            w_stones as int,
            b_stones as int,
            c.w_walls as int,
            c.b_walls as int,
            c.w_caps as int,
            c.b_caps as int,
        ),
        old(total).value() == wall_table_end(old(r)@),
    ensures
        wall_table_upto(
            final(r)@,
            limits(tiles, max_w_stones, max_b_stones, max_w_caps, max_b_caps),
            player as int,
            w_stones as int,
            b_stones as int,
            c.w_walls as int,
            c.b_walls as int,
            c.w_caps as int,
            c.b_caps + 1,
        ),
        final(total).value() == wall_table_end(final(r)@),
{
    let ghost l = limits(tiles, max_w_stones, max_b_stones, max_w_caps, max_b_caps);
    let ghost old_r = r@;
    if (c.w_walls + c.b_walls + c.w_caps + c.b_caps > tiles) || (player == 2 && b_stones + c.b_walls + c.b_caps
        == max_b_stones + max_b_caps) || (player == 1 && w_stones + c.w_walls + c.w_caps == max_w_stones
        + max_w_caps) {
        proof {
            assert(!wall_allowed(c, l, player as int, w_stones as int, b_stones as int));
            lemma_wall_cursor(
                old_r,
                l,
                player as int,
                w_stones as int,
                b_stones as int,
                (c.w_walls as int, c.b_walls as int, c.w_caps as int, c.b_caps as int),
                (c.w_walls as int, c.b_walls as int, c.w_caps as int, c.b_caps + 1),
            );
        }
        return ;
    }
    let size = wall_configuration_size(tiles, c);
    let start = total.clone();
    let new_total = total.add(&size);
    r.push((c, WallConfigurationData { start_index: start, size }));
    *total = new_total;
    proof {
        let nr = r@;
        assert(wall_keys(nr) =~= wall_keys(old_r).push(c));
        assert forall|d: WallConfiguration|
            wall_allowed(d, l, player as int, w_stones as int, b_stones as int) && wall_before(
                d,
                c.w_walls as int,
                c.b_walls as int,
                c.w_caps as int,
                c.b_caps + 1,
            ) implies #[trigger] wall_keys(nr).contains(d) by {
            if d == c {
                assert(wall_keys(nr)[nr.len() - 1] == c);
            } else {
                assert(wall_keys(old_r).contains(d));
                let k = choose|k: int| 0 <= k < wall_keys(old_r).len() && wall_keys(old_r)[k] == d;
                assert(wall_keys(nr)[k] == d);
            }
        }
        assert forall|i: int| 0 <= i < nr.len() - 1 implies (#[trigger] nr[i + 1]).1.start_index.value()
            == nr[i].1.start_index.value() + nr[i].1.size.value() by {
            if i < nr.len() - 2 {
                assert(nr[i + 1] == old_r[i + 1]);
            }
        }
    }
}

/// The wall configurations that can stand beside a flat configuration, each with its range
/// of indices.
pub fn inner_configs(
    tiles: u8,
    max_w_stones: u8,
    max_b_stones: u8,
    max_w_caps: u8,
    max_b_caps: u8,
    player: u8,
    w_stones: u8,
    b_stones: u8,
) -> (config_classes: Vec<(WallConfiguration, WallConfigurationData)>)
    requires
        counts_fit(max_w_stones, max_b_stones, max_w_caps, max_b_caps, w_stones, b_stones),
    ensures
        wall_table_ok(
            config_classes@,
            limits(tiles, max_w_stones, max_b_stones, max_w_caps, max_b_caps),
            player as int,
            w_stones as int,
            b_stones as int,
        ),
{
    let ghost l = limits(tiles, max_w_stones, max_b_stones, max_w_caps, max_b_caps);
    let ghost pl = player as int;
    let ghost ws = w_stones as int;
    let ghost bs = b_stones as int;
    let mut config_classes: Vec<(WallConfiguration, WallConfigurationData)> = Vec::new();
    let mut total = Natural::zero();
    let max_w_wall = max_w_stones - w_stones;
    let max_b_wall = max_b_stones - b_stones;
    let mut w_wall: u16 = 0;
    while w_wall <= max_w_wall as u16
        invariant
            counts_fit(max_w_stones, max_b_stones, max_w_caps, max_b_caps, w_stones, b_stones),
            max_w_wall == max_w_stones - w_stones,
            max_b_wall == max_b_stones - b_stones,
            w_wall <= max_w_wall + 1,
            l == limits(tiles, max_w_stones, max_b_stones, max_w_caps, max_b_caps),
            pl == player,
            ws == w_stones,
            bs == b_stones,
            wall_table_upto(config_classes@, l, pl, ws, bs, w_wall as int, 0, 0, 0),
            total.value() == wall_table_end(config_classes@),
        decreases max_w_wall + 1 - w_wall,
    {
        let mut b_wall: u16 = 0;
        while b_wall <= max_b_wall as u16
            invariant
                counts_fit(max_w_stones, max_b_stones, max_w_caps, max_b_caps, w_stones, b_stones),
                max_w_wall == max_w_stones - w_stones,
                max_b_wall == max_b_stones - b_stones,
                w_wall <= max_w_wall,
                b_wall <= max_b_wall + 1,
                l == limits(tiles, max_w_stones, max_b_stones, max_w_caps, max_b_caps),
                pl == player,
                ws == w_stones,
                bs == b_stones,
                wall_table_upto(config_classes@, l, pl, ws, bs, w_wall as int, b_wall as int, 0, 0),
                total.value() == wall_table_end(config_classes@),
            decreases max_b_wall + 1 - b_wall,
        {
            let mut w_cap: u16 = 0;
            while w_cap <= max_w_caps as u16
                invariant
                    counts_fit(max_w_stones, max_b_stones, max_w_caps, max_b_caps, w_stones, b_stones),
                    max_w_wall == max_w_stones - w_stones,
                    max_b_wall == max_b_stones - b_stones,
                    w_wall <= max_w_wall,
                    b_wall <= max_b_wall,
                    w_cap <= max_w_caps + 1,
                    l == limits(tiles, max_w_stones, max_b_stones, max_w_caps, max_b_caps),
                    pl == player,
                    ws == w_stones,
                    bs == b_stones,
                    wall_table_upto(config_classes@, l, pl, ws, bs, w_wall as int, b_wall as int, w_cap as int, 0),
                    total.value() == wall_table_end(config_classes@),
                decreases max_w_caps + 1 - w_cap,
            {
                let mut b_cap: u16 = 0;
                while b_cap <= max_b_caps as u16
                    invariant
                        counts_fit(max_w_stones, max_b_stones, max_w_caps, max_b_caps, w_stones, b_stones),
                        max_w_wall == max_w_stones - w_stones,
                        max_b_wall == max_b_stones - b_stones,
                        w_wall <= max_w_wall,
                        b_wall <= max_b_wall,
                        w_cap <= max_w_caps,
                        b_cap <= max_b_caps + 1,
                        l == limits(tiles, max_w_stones, max_b_stones, max_w_caps, max_b_caps),
                        pl == player,
                        ws == w_stones,
                        bs == b_stones,
                        wall_table_upto(
                            config_classes@,
                            l,
                            pl,
                            ws,
                            bs,
                            w_wall as int,
                            b_wall as int,
                            w_cap as int,
                            b_cap as int,
                        ),
                        total.value() == wall_table_end(config_classes@),
                    decreases max_b_caps + 1 - b_cap,
                {
                    let c = WallConfiguration {
                        w_walls: w_wall as u8,
                        b_walls: b_wall as u8,
                        w_caps: w_cap as u8,
                        b_caps: b_cap as u8,
                    };
                    push_if_allowed(
                        &mut config_classes,
                        &mut total,
                        c,
                        tiles,
                        max_w_stones,
                        max_b_stones,
                        max_w_caps,
                        max_b_caps,
                        player,
                        w_stones,
                        b_stones,
                    );
                    b_cap = b_cap + 1;
                }
                proof {
                    lemma_wall_cursor(
                        config_classes@,
                        l,
                        pl,
                        ws,
                        bs,
                        (w_wall as int, b_wall as int, w_cap as int, b_cap as int),
                        (w_wall as int, b_wall as int, w_cap + 1, 0),
                    );
                }
                w_cap = w_cap + 1;
            }
            proof {
                lemma_wall_cursor(
                    config_classes@,
                    l,
                    pl,
                    ws,
                    bs,
                    (w_wall as int, b_wall as int, w_cap as int, 0),
                    (w_wall as int, b_wall + 1, 0, 0),
                );
            }
            b_wall = b_wall + 1;
        }
        proof {
            lemma_wall_cursor(
                config_classes@,
                l,
                pl,
                ws,
                bs,
                (w_wall as int, b_wall as int, 0, 0),
                (w_wall + 1, 0, 0, 0),
            );
        }
        w_wall = w_wall + 1;
    }
    config_classes
}

} // verus!

verus! {

/// A range of indices: the positions with one flat configuration.
#[derive(Debug)]
pub struct FlatConfigurationData {
    pub start_index: Natural,
    pub size: Natural,
    /// The number of ways to arrange the flats on the board.
    pub num_flats_permutations: Natural,
    /// The wall configurations that can go with it, in order, each with its range of indices.
    pub blocking_configurations: Vec<(WallConfiguration, WallConfigurationData)>,
}

pub open spec fn wall_sizes_sum(r: Seq<(WallConfiguration, WallConfigurationData)>) -> nat
    decreases r.len(),
{
    if r.len() == 0 {
        0
    } else {
        wall_sizes_sum(r.drop_last()) + r.last().1.size.value()
    }
}

pub proof fn lemma_wall_end_is_sum(r: Seq<(WallConfiguration, WallConfigurationData)>)
    requires
        wall_ranges_consecutive(r),
    ensures
        wall_table_end(r) == wall_sizes_sum(r),
    decreases r.len(),
{
    if r.len() > 1 {
        let d = r.drop_last();
        assert forall|i: int| 0 <= i < d.len() - 1 implies (#[trigger] d[i + 1]).1.start_index.value()
            == d[i].1.start_index.value() + d[i].1.size.value() by {
            assert(d[i + 1] == r[i + 1]);
        }
        lemma_wall_end_is_sum(d);
        let n = r.len() - 2;
        assert(r[n + 1].1.start_index.value() == r[n].1.start_index.value() + r[n].1.size.value());
        assert(d.last() == r[n]);
        assert(r.last() == r[n + 1]);
        assert(wall_table_end(d) == r[n].1.start_index.value() + r[n].1.size.value());
        assert(wall_sizes_sum(r) == wall_sizes_sum(d) + r.last().1.size.value());
    } else if r.len() == 1 {
        assert(r.drop_last().len() == 0);
        assert(wall_sizes_sum(r.drop_last()) == 0);
        assert(r.last() == r[0]);
    }
}

/// The table with the one wall configuration of the opening, where no wall or capstone stands.
pub open spec fn unit_wall_table(r: Seq<(WallConfiguration, WallConfigurationData)>) -> bool {
    &&& r.len() == 1
    &&& r[0].0 == (WallConfiguration { w_walls: 0, b_walls: 0, w_caps: 0, b_caps: 0 })
    &&& r[0].1.start_index.value() == 0
    &&& r[0].1.size.value() == 1
}

fn unit_wall_configurations() -> (r: Vec<(WallConfiguration, WallConfigurationData)>)
    ensures
        unit_wall_table(r@),
{
    let unit_wall_config = WallConfiguration { w_walls: 0, b_walls: 0, w_caps: 0, b_caps: 0 };
    let mut r: Vec<(WallConfiguration, WallConfigurationData)> = Vec::new();
    r.push((unit_wall_config, WallConfigurationData { start_index: Natural::zero(), size: Natural::from_u64(1) }));
    r
}

/// The sum of the sizes of the wall configurations.
fn wall_configurations_size(r: &Vec<(WallConfiguration, WallConfigurationData)>) -> (n: Natural)
    ensures
        n.value() == wall_sizes_sum(r@),
{
    let mut total = Natural::zero();
    let mut i: usize = 0;
    while i < r.len()
        invariant
            i <= r.len(),
            total.value() == wall_sizes_sum(r@.subrange(0, i as int)),
        decreases r.len() - i,
    {
        total = total.add(&r[i].1.size);
        proof {
            assert(r@.subrange(0, i + 1).drop_last() =~= r@.subrange(0, i as int));
        }
        i = i + 1;
    }
    proof {
        assert(r@.subrange(0, r.len() as int) =~= r@);
    }
    total
}

pub open spec fn flat_keys(r: Seq<(FlatsConfiguration, FlatConfigurationData)>) -> Seq<FlatsConfiguration> {
    r.map_values(|e: (FlatsConfiguration, FlatConfigurationData)| e.0)
}

/// The counts of empty squares (less one) and of white and black flats.
pub open spec fn flat_counts(c: FlatsConfiguration, tiles: int) -> Seq<u64> {
    seq![(tiles - 1) as u64, c.w_stones as u64, c.b_stones as u64]
}

/// One entry of the table of flat configurations, after the opening.
pub open spec fn flat_entry_ok(e: (FlatsConfiguration, FlatConfigurationData), l: Limits) -> bool {
    &&& flats_after_opening(e.0, l.max_w_stones)
    &&& e.1.num_flats_permutations.value() == multinomial(flat_counts(e.0, l.tiles))
    &&& wall_table_ok(e.1.blocking_configurations@, l, e.0.player as int, e.0.w_stones as int, e.0.b_stones as int)
    &&& e.1.size.value() == e.1.num_flats_permutations.value() * wall_sizes_sum(e.1.blocking_configurations@)
}

pub open spec fn flat_ranges_consecutive(r: Seq<(FlatsConfiguration, FlatConfigurationData)>) -> bool {
    &&& r.len() > 0 ==> r[0].1.start_index.value() == 0
    &&& forall|i: int|
        0 <= i < r.len() - 1 ==> (#[trigger] r[i + 1]).1.start_index.value() == r[i].1.start_index.value()
            + r[i].1.size.value()
}

/// The complete table of flat configurations: the empty board with white to move, one black
/// flat with black to move, then the configurations after the opening in order; each with its
/// range of indices, and the ranges follow each other from 0.
pub open spec fn flat_table_ok(r: Seq<(FlatsConfiguration, FlatConfigurationData)>, l: Limits, size: int) -> bool {
    &&& r.len() == 2 + 2 * l.max_w_stones * l.max_w_stones
    &&& r[0].0 == (FlatsConfiguration { w_stones: 0, b_stones: 0, player: 1 })
    &&& r[0].1.size.value() == 1
    &&& r[0].1.num_flats_permutations.value() == 1
    &&& unit_wall_table(r[0].1.blocking_configurations@)
    &&& r[1].0 == (FlatsConfiguration { w_stones: 0, b_stones: 1, player: 2 })
    &&& r[1].1.size.value() == size * size
    &&& r[1].1.num_flats_permutations.value() == size * size
    &&& unit_wall_table(r[1].1.blocking_configurations@)
    &&& forall|i: int| 2 <= i < r.len() ==> flat_entry_ok(#[trigger] r[i], l)
    &&& forall|i: int, j: int| 0 <= i < j < r.len() ==> flats_lt(#[trigger] r[i].0, #[trigger] r[j].0)
    &&& forall|c: FlatsConfiguration| flats_after_opening(c, l.max_w_stones) ==> #[trigger] flat_keys(r).contains(c)
    &&& flat_ranges_consecutive(r)
}

pub open spec fn flat_table_end(r: Seq<(FlatsConfiguration, FlatConfigurationData)>) -> nat {
    if r.len() == 0 {
        0
    } else {
        r.last().1.start_index.value() + r.last().1.size.value()
    }
}

/// The number of positions with the flats of a configuration arranged on `tiles` squares.
fn flat_configuration_size(tiles: u8, c: FlatsConfiguration) -> (n: Natural)
    requires
        1 <= tiles,
        tiles - 1 + c.w_stones + c.b_stones <= u8::MAX,
    ensures
        n.value() == multinomial(flat_counts(c, tiles as int)),
{
    let empty: u8 = tiles - 1;
    let ks: Vec<u64> = vec![empty as u64, c.w_stones as u64, c.b_stones as u64];
    proof {
        assert(ks@ =~= flat_counts(c, tiles as int));
        reveal_with_fuel(seq_sum, 4);
        assert(seq_sum(ks@) == tiles - 1 + c.w_stones + c.b_stones);
    }
    choose_multinomial((tiles - 1 + c.w_stones + c.b_stones) as u64, ks.as_slice())
}

/// The table of all flat configurations, with their wall configurations, and the range of
/// indices of each.
pub fn configs_total2(
    size: u8,
    tiles: u8,
    max_w_stones: u8,
    max_b_stones: u8,
    max_w_caps: u8,
    max_b_caps: u8,
) -> (position_classes: Vec<(FlatsConfiguration, FlatConfigurationData)>)
    requires
        1 <= tiles,
        1 + size * size <= u8::MAX,
        tiles - 1 + max_w_stones + max_b_stones <= u8::MAX,
        max_w_stones <= max_b_stones,
        counts_fit(max_w_stones, max_b_stones, max_w_caps, max_b_caps, 0, 0),
    ensures
        flat_table_ok(
            position_classes@,
            limits(tiles, max_w_stones, max_b_stones, max_w_caps, max_b_caps),
            size as int,
        ),
{
    let ghost l = limits(tiles, max_w_stones, max_b_stones, max_w_caps, max_b_caps);
    let mut position_classes: Vec<(FlatsConfiguration, FlatConfigurationData)> = Vec::new();
    // Insert start position
    position_classes.push(
        (
            FlatsConfiguration { player: 1, w_stones: 0, b_stones: 0 },
            FlatConfigurationData {
                start_index: Natural::zero(),
                size: Natural::from_u64(1),
                num_flats_permutations: Natural::from_u64(1),
                blocking_configurations: unit_wall_configurations(),
            },
        ),
    );
    let squares: u8 = size * size;
    position_classes.push(
        (
            FlatsConfiguration { player: 2, w_stones: 0, b_stones: 1 },
            FlatConfigurationData {
                start_index: Natural::from_u64(1),
                size: Natural::from_u64(squares as u64),
                num_flats_permutations: Natural::from_u64(squares as u64),
                blocking_configurations: unit_wall_configurations(),
            },
        ),
    );
    let mut total = Natural::from_u64((1 + squares) as u64);
    let classes = FlatsConfiguration::all_after_opening(max_w_stones);
    let mut k: usize = 0;
    while k < classes.len()
        invariant
            l == limits(tiles, max_w_stones, max_b_stones, max_w_caps, max_b_caps),
            1 <= tiles,
            squares == size * size,
            tiles - 1 + max_w_stones + max_b_stones <= u8::MAX,
            max_w_stones <= max_b_stones,
            counts_fit(max_w_stones, max_b_stones, max_w_caps, max_b_caps, 0, 0),
            classes.len() == 2 * max_w_stones * max_w_stones,
            forall|i: int, j: int|
                0 <= i < j < classes.len() ==> flats_lt(#[trigger] classes@[i], #[trigger] classes@[j]),
            forall|i: int| 0 <= i < classes.len() ==> flats_after_opening(#[trigger] classes@[i], max_w_stones as int),
            forall|c: FlatsConfiguration|
                flats_after_opening(c, max_w_stones as int) ==> #[trigger] classes@.contains(c),
            k <= classes.len(),
            position_classes.len() == 2 + k,
            position_classes[0].0 == (FlatsConfiguration { w_stones: 0, b_stones: 0, player: 1 }),
            position_classes[0].1.size.value() == 1,
            position_classes[0].1.num_flats_permutations.value() == 1,
            unit_wall_table(position_classes[0].1.blocking_configurations@),
            position_classes[1].0 == (FlatsConfiguration { w_stones: 0, b_stones: 1, player: 2 }),
            position_classes[1].1.size.value() == squares,
            position_classes[1].1.num_flats_permutations.value() == squares,
            unit_wall_table(position_classes[1].1.blocking_configurations@),
            forall|i: int| 2 <= i < position_classes.len() ==> flat_entry_ok(#[trigger] position_classes@[i], l),
            forall|i: int| 2 <= i < position_classes.len() ==> (#[trigger] position_classes@[i]).0 == classes@[i - 2],
            flat_ranges_consecutive(position_classes@),
            total.value() == flat_table_end(position_classes@),
        decreases classes.len() - k,
    {
        let class = classes[k];
        let player = class.player;
        let w_stones = class.w_stones;
        let b_stones = class.b_stones;
        let blocking_configurations = inner_configs(
            tiles,
            max_w_stones,
            max_b_stones,
            max_w_caps,
            max_b_caps,
            player,
            w_stones,
            b_stones,
        );
        let num_blocking_configurations = wall_configurations_size(&blocking_configurations);
        let num_flat_configurations = flat_configuration_size(tiles, class);
        let class_size = num_flat_configurations.mul(&num_blocking_configurations);
        let flat_config_data = FlatConfigurationData {
            start_index: total.clone(),
            size: class_size.clone(),
            num_flats_permutations: num_flat_configurations,
            blocking_configurations,
        };
        let ghost old_classes = position_classes@;
        position_classes.push((class, flat_config_data));
        total = total.add(&class_size);
        proof {
            let r = position_classes@;
            assert forall|i: int| 0 <= i < r.len() - 1 implies (#[trigger] r[i + 1]).1.start_index.value()
                == r[i].1.start_index.value() + r[i].1.size.value() by {
                if i < r.len() - 2 {
                    assert(r[i + 1] == old_classes[i + 1]);
                }
            }
        }
        k = k + 1;
    }
    proof {
        let r = position_classes@;
        assert forall|i: int, j: int| 0 <= i < j < r.len() implies flats_lt(#[trigger] r[i].0, #[trigger] r[j].0) by {
            if i >= 2 {
                assert(r[i].0 == classes@[i - 2]);
                assert(r[j].0 == classes@[j - 2]);
            } else {
                if j >= 2 {
                    assert(r[j].0 == classes@[j - 2]);
                }
            }
        }
        assert forall|c: FlatsConfiguration| flats_after_opening(c, max_w_stones as int) implies #[trigger] flat_keys(
            r,
        ).contains(c) by {
            assert(classes@.contains(c));
            let m = choose|m: int| 0 <= m < classes.len() && classes@[m] == c;
            assert(r[m + 2].0 == c);
            assert(flat_keys(r)[m + 2] == c);
        }
    }
    position_classes
}

} // verus!

verus! {

/// The symbol of a piece in the arrangement of the flats: 0 for a white flat, 1 for a black
/// flat, and nothing for a wall or capstone.
pub open spec fn flat_symbol(p: Piece) -> Seq<u8> {
    match p {
        Piece::WhiteFlat => seq![0u8],
        Piece::BlackFlat => seq![1u8],
        _ => Seq::empty(),
    }
}

/// The symbols of the flats of a stack, from the bottom up.
pub open spec fn flat_symbols(pieces: Seq<Piece>) -> Seq<u8>
    decreases pieces.len(),
{
    if pieces.len() == 0 {
        Seq::empty()
    } else {
        flat_symbols(pieces.drop_last()) + flat_symbol(pieces.last())
    }
}

/// The arrangement of the flats of the first `n` squares: for each square, its flats from the
/// bottom up, then the symbol 2.
pub open spec fn flat_seq(stacks: Seq<Stack>, n: int) -> Seq<u8>
    decreases n,
{
    if n <= 0 {
        Seq::empty()
    } else {
        flat_seq(stacks, n - 1) + flat_symbols(stacks[n - 1]@) + seq![2u8]
    }
}

/// The symbol of the top piece of a square in the arrangement of walls and capstones.
pub open spec fn wall_symbol(top: Option<Piece>) -> u8 {
    match top {
        Some(Piece::WhiteWall) => 0,
        Some(Piece::BlackWall) => 1,
        Some(Piece::WhiteCap) => 2,
        Some(Piece::BlackCap) => 3,
        _ => 4,
    }
}

/// The arrangement of walls and capstones on the first `n` squares.
pub open spec fn wall_seq(stacks: Seq<Stack>, n: int) -> Seq<u8>
    decreases n,
{
    if n <= 0 {
        Seq::empty()
    } else {
        wall_seq(stacks, n - 1).push(wall_symbol(stacks[n - 1].top_stone))
    }
}

/// The number of the first `n` squares whose top piece is `piece`.
pub open spec fn count_tops(stacks: Seq<Stack>, n: int, piece: Piece) -> nat
    decreases n,
{
    if n <= 0 {
        0
    } else {
        count_tops(stacks, n - 1, piece) + if stacks[n - 1].top_stone == Some(piece) {
            1nat
        } else {
            0nat
        }
    }
}

/// The walls and capstones on the board.
pub open spec fn position_walls<const S: usize>(p: PositionView<S>) -> WallConfiguration {
    WallConfiguration {
        w_walls: count_tops(p.stacks, S * S, Piece::WhiteWall) as u8,
        b_walls: count_tops(p.stacks, S * S, Piece::BlackWall) as u8,
        w_caps: count_tops(p.stacks, S * S, Piece::WhiteCap) as u8,
        b_caps: count_tops(p.stacks, S * S, Piece::BlackCap) as u8,
    }
}

/// The number of pieces both players have taken from their reserves: the move counter that
/// decoding gives a position.
pub open spec fn pieces_played<const S: usize>(p: PositionView<S>) -> int {
    (spec_starting_stones(S) - p.white_stones_left) + (spec_starting_stones(S) - p.black_stones_left) + (
    spec_starting_capstones(S) - p.white_caps_left) + (spec_starting_capstones(S) - p.black_caps_left)
}

/// The flats each player has played, as the reserves tell, and the player to move.
pub open spec fn position_flats<const S: usize>(p: PositionView<S>) -> FlatsConfiguration {
    FlatsConfiguration {
        player: if p.to_move == Color::White {
            1
        } else {
            2
        },
        w_stones: (spec_starting_stones(S) - p.white_stones_left - position_walls(p).w_walls) as u8,
        b_stones: (spec_starting_stones(S) - p.black_stones_left - position_walls(p).b_walls) as u8,
    }
}

pub open spec fn flat_perm_counts(c: FlatsConfiguration, squares: int) -> Seq<u64> {
    seq![c.w_stones as u64, c.b_stones as u64, (squares - 1) as u64]
}

pub open spec fn wall_perm_counts(c: WallConfiguration, squares: int) -> Seq<u64> {
    seq![
        c.w_walls as u64,
        c.b_walls as u64,
        c.w_caps as u64,
        c.b_caps as u64,
        (squares - c.w_walls - c.b_walls - c.w_caps - c.b_caps) as u64,
    ]
}

/// The limits of a board of size `S`.
pub open spec fn board_limits(s: usize) -> Limits {
    limits(
        (s * s) as u8,
        spec_starting_stones(s),
        spec_starting_stones(s),
        spec_starting_capstones(s),
        spec_starting_capstones(s),
    )
}

/// Whether the position can be encoded with the table: its reserves agree with its walls,
/// its configurations are in the table, and its flats, walls and capstones fit the counts
/// that the configurations give.
pub open spec fn encodable<const S: usize>(
    data: Seq<(FlatsConfiguration, FlatConfigurationData)>,
    p: PositionView<S>,
) -> bool {
    let w = position_walls(p);
    let f = position_flats(p);
    &&& p.wf()
    &&& p.white_stones_left + w.w_walls <= spec_starting_stones(S)
    &&& p.black_stones_left + w.b_walls <= spec_starting_stones(S)
    &&& exists|i: int|
        0 <= i < data.len() && #[trigger] data[i].0 == f && wall_keys(data[i].1.blocking_configurations@).contains(w)
    &&& fits(flat_seq(p.stacks, S * S).drop_last(), flat_perm_counts(f, S * S))
    &&& fits(wall_seq(p.stacks, S * S).drop_last(), wall_perm_counts(w, S * S))
}

/// The index of a position: the start of its flat configuration's range, plus the rank of
/// its flat arrangement, plus the number of flat arrangements times the index of its wall
/// arrangement among those of the flat configuration.
pub open spec fn encoding<const S: usize>(
    data: Seq<(FlatsConfiguration, FlatConfigurationData)>,
    p: PositionView<S>,
) -> nat {
    let w = position_walls(p);
    let f = position_flats(p);
    let i = choose|i: int| 0 <= i < data.len() && data[i].0 == f;
    let e = data[i].1;
    let walls = e.blocking_configurations@;
    let j = choose|j: int| 0 <= j < walls.len() && walls[j].0 == w;
    e.start_index.value() + perm_rank(flat_seq(p.stacks, S * S), flat_perm_counts(f, S * S))
        + e.num_flats_permutations.value() * (walls[j].1.start_index.value() + perm_rank(
        wall_seq(p.stacks, S * S),
        wall_perm_counts(w, S * S),
    ))
}

/// A struct with a pre-computed index required to encode and decode positions
///
/// The table of flat configurations, and each entry's table of wall configurations, are kept
/// as vectors in increasing order of their keys (`flat_table_ok` and `wall_table_ok` state the
/// order). The tables are built once, in key order, and then only searched by index range;
/// a vector ordered by the same comparison of the counts holds exactly what an ordered map
/// would, and its order is stated over plain integers rather than through the `Ord` impls
/// that `derive` writes for the key structs, which Verus does not read.
pub struct PositionEncoder<const S: usize> {
    pub data: Vec<(FlatsConfiguration, FlatConfigurationData)>,
}

/// Counts the walls and capstones on the board.
fn wall_configuration_of<const S: usize>(position: &Position<S>) -> (c: WallConfiguration)
    requires
        position.wf(),
    ensures
        c == position_walls(position@),
{
    proof {
        lemma_size::<S>();
    }
    let n = S * S;
    let mut w_walls: u8 = 0;
    let mut b_walls: u8 = 0;
    let mut w_caps: u8 = 0;
    let mut b_caps: u8 = 0;
    let mut i: usize = 0;
    while i < n
        invariant
            position.wf(),
            n == S * S,
            n <= 64,
            i <= n,
            w_walls == count_tops(position@.stacks, i as int, Piece::WhiteWall),
            b_walls == count_tops(position@.stacks, i as int, Piece::BlackWall),
            w_caps == count_tops(position@.stacks, i as int, Piece::WhiteCap),
            b_caps == count_tops(position@.stacks, i as int, Piece::BlackCap),
            w_walls <= i && b_walls <= i && w_caps <= i && b_caps <= i,
        decreases n - i,
    {
        match position.stacks[i].top_stone {
            Some(Piece::WhiteWall) => w_walls = w_walls + 1,
            Some(Piece::BlackWall) => b_walls = b_walls + 1,
            Some(Piece::WhiteCap) => w_caps = w_caps + 1,
            Some(Piece::BlackCap) => b_caps = b_caps + 1,
            _ => {},
        }
        i = i + 1;
    }
    WallConfiguration { w_walls, b_walls, w_caps, b_caps }
}

/// The symbols of the flats of a stack, pushed onto `permutation`.
fn push_flat_symbols(permutation: &mut Vec<u8>, stack: Stack)
    requires
        stack.wf(),
    ensures
        final(permutation)@ == old(permutation)@ + flat_symbols(stack@),
{
    let ghost start = permutation@;
    let mut i: u8 = 0;
    while i < stack.height
        invariant
            stack.wf(),
            i <= stack.height,
            permutation@ == start + flat_symbols(stack@.subrange(0, i as int)),
        decreases stack.height - i,
    {
        let piece = stack.get(i);
        proof {
            assert(stack@.subrange(0, i + 1).drop_last() =~= stack@.subrange(0, i as int));
        }
        match piece {
            Some(Piece::WhiteFlat) => permutation.push(0),
            Some(Piece::BlackFlat) => permutation.push(1),
            _ => (),
        }
        proof {
            assert(permutation@ =~= start + flat_symbols(stack@.subrange(0, i + 1)));
        }
        i = i + 1;
    }
    proof {
        assert(stack@.subrange(0, stack.height as int) =~= stack@);
    }
}

fn encode_flats<const S: usize>(position: &Position<S>, flat_config: FlatsConfiguration) -> (n: Natural)
    requires
        position.wf(),
        fits(flat_seq(position@.stacks, S * S).drop_last(), flat_perm_counts(flat_config, S * S)),
    ensures
        n.value() == perm_rank(flat_seq(position@.stacks, S * S), flat_perm_counts(flat_config, S * S)),
{
    proof {
        lemma_size::<S>();
    }
    let n = S * S;
    let mut permutation: Vec<u8> = Vec::new();
    let mut i: usize = 0;
    while i < n
        invariant
            position.wf(),
            n == S * S,
            i <= n,
            permutation@ == flat_seq(position@.stacks, i as int),
        decreases n - i,
    {
        push_flat_symbols(&mut permutation, position.stacks[i]);
        permutation.push(2);
        proof {
            assert(permutation@ =~= flat_seq(position@.stacks, i + 1));
        }
        i = i + 1;
    }
    let categories: Vec<u64> = vec![flat_config.w_stones as u64, flat_config.b_stones as u64, (n - 1) as u64];
    proof {
        assert(categories@ =~= flat_perm_counts(flat_config, S * S));
        reveal_with_fuel(seq_sum, 4);
        assert(permutation@.last() == 2u8);
    }
    permutation_to_index(permutation.as_slice(), categories)
}

fn encode_walls_caps<const S: usize>(position: &Position<S>, wall_config: WallConfiguration) -> (n: Natural)
    requires
        position.wf(),
        wall_config.w_walls + wall_config.b_walls + wall_config.w_caps + wall_config.b_caps <= S * S,
        fits(wall_seq(position@.stacks, S * S).drop_last(), wall_perm_counts(wall_config, S * S)),
    ensures
        n.value() == perm_rank(wall_seq(position@.stacks, S * S), wall_perm_counts(wall_config, S * S)),
{
    proof {
        lemma_size::<S>();
    }
    let n = S * S;
    let mut permutation: Vec<u8> = Vec::new();
    let mut i: usize = 0;
    while i < n
        invariant
            position.wf(),
            n == S * S,
            i <= n,
            permutation@ == wall_seq(position@.stacks, i as int),
        decreases n - i,
    {
        let symbol: u8 = match position.stacks[i].top_stone {
            Some(Piece::WhiteWall) => 0,
            Some(Piece::BlackWall) => 1,
            Some(Piece::WhiteCap) => 2,
            Some(Piece::BlackCap) => 3,
            _ => 4,
        };
        permutation.push(symbol);
        i = i + 1;
    }
    let rest: usize = n - wall_config.w_walls as usize - wall_config.b_walls as usize - wall_config.w_caps as usize
        - wall_config.b_caps as usize;
    let categories: Vec<u64> = vec![
        wall_config.w_walls as u64,
        wall_config.b_walls as u64,
        wall_config.w_caps as u64,
        wall_config.b_caps as u64,
        rest as u64,
    ];
    proof {
        assert(categories@ =~= wall_perm_counts(wall_config, S * S));
        reveal_with_fuel(seq_sum, 6);
    }
    permutation_to_index(permutation.as_slice(), categories)
}

} // verus!

verus! {

/// The index of the entry of the table with the flat configuration `f`.
fn find_flats_entry(data: &Vec<(FlatsConfiguration, FlatConfigurationData)>, f: FlatsConfiguration) -> (i: usize)
    requires
        exists|i: int| 0 <= i < data.len() && #[trigger] data@[i].0 == f,
    ensures
        i < data.len(),
        data@[i as int].0 == f,
{
    let mut i: usize = 0;
    while i < data.len()
        invariant
            exists|k: int| i <= k < data.len() && #[trigger] data@[k].0 == f,
        decreases data.len() - i,
    {
        if data[i].0 == f {
            return i;
        }
        i = i + 1;
    }
    i
}

/// The index of the entry of the table with the wall configuration `w`.
fn find_walls_entry(walls: &Vec<(WallConfiguration, WallConfigurationData)>, w: WallConfiguration) -> (j: usize)
    requires
        wall_keys(walls@).contains(w),
    ensures
        j < walls.len(),
        walls@[j as int].0 == w,
{
    let mut j: usize = 0;
    proof {
        let k = choose|k: int| 0 <= k < wall_keys(walls@).len() && wall_keys(walls@)[k] == w;
        assert(walls@[k].0 == w);
    }
    while j < walls.len()
        invariant
            exists|k: int| j <= k < walls.len() && #[trigger] walls@[k].0 == w,
        decreases walls.len() - j,
    {
        if walls[j].0 == w {
            return j;
        }
        j = j + 1;
    }
    j
}

impl<const S: usize> PositionEncoder<S> {
    pub open spec fn wf(&self) -> bool {
        &&& valid_size(S)
        &&& flat_table_ok(self.data@, board_limits(S), S as int)
    }

    /// Initialize the encoder.
    /// This is an expensive and memory-heavy operation, especially for larger board sizes, so re-use this data structure when possible.
    pub fn initialize() -> (encoder: Self)
        requires
            valid_size(S),
        ensures
            encoder.wf(),
    {
        proof {
            lemma_size::<S>();
        }
        let starting_reserves = starting_stones(S);
        let starting_caps = starting_capstones(S);
        Self {
            data: configs_total2(
                S as u8,
                (S * S) as u8,
                starting_reserves,
                starting_reserves,
                starting_caps,
                starting_caps,
            ),
        }
    }

    /// The number of legal positions: the end of the last range of the table.
    pub fn count_legal_positions(&self) -> (n: Natural)
        requires
            self.wf(),
        ensures
            n.value() == flat_table_end(self.data@),
    {
        let last = &self.data[self.data.len() - 1].1;
        last.start_index.add(&last.size)
    }

    pub fn encode(&self, position: &Position<S>) -> (n: Natural)
        requires
            self.wf(),
            encodable(self.data@, position@),
        ensures
            n.value() == encoding(self.data@, position@),
    {
        proof {
            lemma_size::<S>();
        }
        let wall_config = wall_configuration_of(position);
        proof {
            lemma_count_tops_total(position@.stacks, S * S);
        }
        let flat_config = FlatsConfiguration {
            player: match position.side_to_move() {
                Color::White => 1,
                Color::Black => 2,
            },
            w_stones: starting_stones(S) - position.white_reserves_left() - wall_config.w_walls,
            b_stones: starting_stones(S) - position.black_reserves_left() - wall_config.b_walls,
        };
        let i = find_flats_entry(&self.data, flat_config);
        let flat_data = &self.data[i].1;
        let ghost fi = choose|k: int| 0 <= k < self.data@.len() && self.data@[k].0 == flat_config;
        proof {
            let k = choose|k: int|
                0 <= k < self.data@.len() && #[trigger] self.data@[k].0 == flat_config && wall_keys(
                    self.data@[k].1.blocking_configurations@,
                ).contains(wall_config);
            if k != i {
                if k < i {
                    assert(flats_lt(self.data@[k].0, self.data@[i as int].0));
                } else {
                    assert(flats_lt(self.data@[i as int].0, self.data@[k].0));
                }
            }
            if fi != i {
                if fi < i {
                    assert(flats_lt(self.data@[fi].0, self.data@[i as int].0));
                } else {
                    assert(flats_lt(self.data@[i as int].0, self.data@[fi].0));
                }
            }
        }
        let j = find_walls_entry(&flat_data.blocking_configurations, wall_config);
        let ghost walls = flat_data.blocking_configurations@;
        proof {
            let wj = choose|wj: int| 0 <= wj < walls.len() && walls[wj].0 == wall_config;
            if wj != j {
                if 2 <= i {
                    if wj < j {
                        assert(wall_lt(walls[wj].0, walls[j as int].0));
                    } else {
                        assert(wall_lt(walls[j as int].0, walls[wj].0));
                    }
                }
            }
        }
        let wall_data = &flat_data.blocking_configurations[j].1;
        let flat_permutation = encode_flats(position, flat_config);
        let wall_permutation = encode_walls_caps(position, wall_config);
        let flat_index = flat_permutation;
        let wall_index = flat_data.num_flats_permutations.mul(&wall_data.start_index.add(&wall_permutation));
        flat_data.start_index.add(&flat_index).add(&wall_index)
    }
}

proof fn lemma_count_tops_total(stacks: Seq<Stack>, n: int)
    requires
        0 <= n,
    ensures
        count_tops(stacks, n, Piece::WhiteWall) + count_tops(stacks, n, Piece::BlackWall) + count_tops(
            stacks,
            n,
            Piece::WhiteCap,
        ) + count_tops(stacks, n, Piece::BlackCap) <= n,
    decreases n,
{
    if n > 0 {
        lemma_count_tops_total(stacks, n - 1);
    }
}

} // verus!

verus! {

pub open spec fn is_flat(p: Piece) -> bool {
    p == Piece::WhiteFlat || p == Piece::BlackFlat
}

/// A stack of flats only.
pub open spec fn only_flats(pieces: Seq<Piece>) -> bool {
    forall|i: int| 0 <= i < pieces.len() ==> is_flat(#[trigger] pieces[i])
}

proof fn lemma_arrangement_fits(p: Seq<u8>, c: Seq<u64>)
    requires
        is_arrangement(p, c),
    ensures
        fits(p, c),
        seq_sum(consume(p, c)) == 0,
    decreases p.len(),
{
    if p.len() > 0 {
        lemma_arrangement_fits(p.drop_first(), dec(c, p[0] as int));
    }
}

/// When nothing is left, no arrangement starts below any category.
proof fn lemma_below_zero(c: Seq<u64>, j: int)
    requires
        seq_sum(c) == 0,
        j <= c.len(),
    ensures
        arrangements_below(c, j) == 0,
    decreases j,
{
    if j > 0 {
        lemma_zero_sum(c);
        lemma_below_zero(c, j - 1);
    }
}

/// Pushing a flat onto a stack of flats adds its symbol.
proof fn lemma_flat_push(pieces: Seq<Piece>, piece: Piece)
    requires
        only_flats(pieces),
        is_flat(piece),
    ensures
        Stack::flattened(pieces) == pieces,
        flat_symbols(pieces.push(piece)) == flat_symbols(pieces) + flat_symbol(piece),
        only_flats(pieces.push(piece)),
{
    if pieces.len() > 0 {
        let last = pieces.last();
        assert(is_flat(pieces[pieces.len() - 1]));
        assert(Piece::spec_from_role_color(Role::Flat, last.spec_color()) == last);
        assert(Stack::flattened(pieces) =~= pieces);
    }
    assert(pieces.push(piece).drop_last() =~= pieces);
    assert(only_flats(pieces.push(piece))) by {
        assert forall|i: int| 0 <= i < pieces.push(piece).len() implies is_flat(#[trigger] pieces.push(piece)[i]) by {
            if i < pieces.len() {
                assert(pieces.push(piece)[i] == pieces[i]);
            }
        }
    }
}

/// Pushing a wall or capstone onto a stack of flats adds no symbol.
proof fn lemma_wall_push(pieces: Seq<Piece>, piece: Piece)
    requires
        only_flats(pieces),
        !is_flat(piece),
    ensures
        Stack::flattened(pieces) == pieces,
        flat_symbols(pieces.push(piece)) == flat_symbols(pieces),
{
    if pieces.len() > 0 {
        let last = pieces.last();
        assert(is_flat(pieces[pieces.len() - 1]));
        assert(Piece::spec_from_role_color(Role::Flat, last.spec_color()) == last);
        assert(Stack::flattened(pieces) =~= pieces);
    }
    assert(pieces.push(piece).drop_last() =~= pieces);
    assert(flat_symbol(piece) =~= Seq::<u8>::empty());
    assert(flat_symbols(pieces.push(piece)) =~= flat_symbols(pieces));
}

/// The arrangement of the flats depends only on the flats of each stack.
proof fn lemma_flat_seq_frame(s1: Seq<Stack>, s2: Seq<Stack>, n: int)
    requires
        forall|i: int| 0 <= i < n ==> flat_symbols((#[trigger] s1[i])@) == flat_symbols(s2[i]@),
    ensures
        flat_seq(s1, n) == flat_seq(s2, n),
    decreases n,
{
    if n > 0 {
        lemma_flat_seq_frame(s1, s2, n - 1);
    }
}

/// The arrangement of walls and capstones depends only on the top pieces.
proof fn lemma_wall_seq_frame(s1: Seq<Stack>, s2: Seq<Stack>, n: int)
    requires
        forall|i: int| 0 <= i < n ==> (#[trigger] s1[i]).top_stone == s2[i].top_stone,
    ensures
        wall_seq(s1, n) == wall_seq(s2, n),
        forall|piece: Piece| count_tops(s1, n, piece) == #[trigger] count_tops(s2, n, piece),
    decreases n,
{
    if n > 0 {
        lemma_wall_seq_frame(s1, s2, n - 1);
        assert forall|piece: Piece| count_tops(s1, n, piece) == #[trigger] count_tops(s2, n, piece) by {
            assert(count_tops(s1, n - 1, piece) == count_tops(s2, n - 1, piece));
        }
    }
}

proof fn lemma_below_mono(c: Seq<u64>, j: int, k: int)
    requires
        0 <= j <= k,
    ensures
        arrangements_below(c, j) <= arrangements_below(c, k),
    decreases k - j,
{
    if j < k {
        lemma_below_mono(c, j, k - 1);
    }
}

/// The rank of an arrangement is below the number of arrangements.
pub proof fn lemma_rank_bound(p: Seq<u8>, c: Seq<u64>)
    requires
        is_arrangement(p, c),
    ensures
        perm_rank(p, c) < multinomial(c),
    decreases p.len(),
{
    lemma_multinomial(c);
    if p.len() > 0 {
        let x = p[0] as int;
        let d = dec(c, x);
        lemma_rank_bound(p.drop_first(), d);
        lemma_dec_sum(c, x);
        assert(arrangements_below(c, x + 1) == arrangements_below(c, x) + multinomial(d));
        lemma_below_mono(c, x + 1, c.len() as int);
    } else {
        lemma_zero_sum(c);
    }
}

/// Two arrangements of the same counts with the same rank are the same arrangement.
pub proof fn lemma_rank_injective(p: Seq<u8>, q: Seq<u8>, c: Seq<u64>)
    requires
        is_arrangement(p, c),
        is_arrangement(q, c),
        perm_rank(p, c) == perm_rank(q, c),
    ensures
        p == q,
    decreases p.len(),
{
    lemma_arrangement_len(p, c);
    lemma_arrangement_len(q, c);
    if p.len() > 0 {
        let x = p[0] as int;
        let y = q[0] as int;
        lemma_rank_bound(p.drop_first(), dec(c, x));
        lemma_rank_bound(q.drop_first(), dec(c, y));
        if x < y {
            assert(arrangements_below(c, x + 1) == arrangements_below(c, x) + multinomial(dec(c, x)));
            lemma_below_mono(c, x + 1, y);
        } else if y < x {
            assert(arrangements_below(c, y + 1) == arrangements_below(c, y) + multinomial(dec(c, y)));
            lemma_below_mono(c, y + 1, x);
        } else {
            lemma_rank_injective(p.drop_first(), q.drop_first(), dec(c, x));
            assert(p =~= q) by {
                assert(p == seq![p[0]] + p.drop_first());
                assert(q == seq![q[0]] + q.drop_first());
            }
        }
    }
}

/// Every square where the arrangement of walls and capstones puts one holds fewer than 64
/// pieces.
pub open spec fn walls_fit<const S: usize>(wa: Seq<u8>, stacks: Seq<Stack>) -> bool {
    forall|x: int| 0 <= x < S * S && wa[x] != 4 ==> (#[trigger] stacks[x]).height < 64
}

/// The flats and the wall or capstone that two arrangements put on each square make at most
/// 64 pieces.
pub open spec fn pieces_fit(fa: Seq<u8>, wa: Seq<u8>) -> bool {
    forall|x: int|
        0 <= x < runs(fa).len() ==> #[trigger] runs(fa)[x] + (if wa[x] != 4 {
            1int
        } else {
            0int
        }) <= 64
}

/// Every arrangement of flats of rank `r` in the flat class `i`, and with it every arrangement
/// of walls and capstones of rank `q` less the start of range `j` of that class, put at most
/// 64 pieces on each square.
pub open spec fn index_fits(
    data: Seq<(FlatsConfiguration, FlatConfigurationData)>,
    s: int,
    i: int,
    j: int,
    r: nat,
    q: nat,
) -> bool {
    let f = data[i].0;
    let walls = data[i].1.blocking_configurations@;
    let w = walls[j].0;
    let fc = seq![f.w_stones as u64, f.b_stones as u64, (s * s - 1) as u64];
    let wc = seq![
        w.w_walls as u64,
        w.b_walls as u64,
        w.w_caps as u64,
        w.b_caps as u64,
        (s * s - w.w_walls - w.b_walls - w.w_caps - w.b_caps) as u64,
    ];
    &&& forall|fa: Seq<u8>| is_arrangement(fa, fc) && perm_rank(fa, fc) == r ==> #[trigger] flats_fit(fa)
    &&& forall|fa: Seq<u8>, wa: Seq<u8>|
        is_arrangement(fa, fc) && perm_rank(fa, fc) == r && is_arrangement(wa, wc) && perm_rank(wa, wc) == q
            - walls[j].1.start_index.value() ==> #[trigger] pieces_fit(fa, wa)
}

/// The index `k` stands for a position whose stacks hold at most 64 pieces each: for the flat
/// class and wall range that `k` falls in, the arrangements it names fit.
pub open spec fn decodable(data: Seq<(FlatsConfiguration, FlatConfigurationData)>, s: int, k: nat) -> bool {
    forall|i: int, j: int, r: nat, q: nat|
        0 <= i < data.len() && data[i].1.start_index.value() <= k < data[i].1.start_index.value()
            + data[i].1.size.value() && k - data[i].1.start_index.value()
            == data[i].1.num_flats_permutations.value() * q + r && r
            < data[i].1.num_flats_permutations.value() && 0 <= j
            < data[i].1.blocking_configurations@.len()
            && data[i].1.blocking_configurations@[j].1.start_index.value() <= q
            < data[i].1.blocking_configurations@[j].1.start_index.value()
            + data[i].1.blocking_configurations@[j].1.size.value() ==> #[trigger] index_fits(
            data,
            s,
            i,
            j,
            r,
            q,
        )
}

proof fn lemma_arrangement_len(p: Seq<u8>, c: Seq<u64>)
    requires
        is_arrangement(p, c),
    ensures
        p.len() == seq_sum(c),
{
    lemma_arrangement_fits(p, c);
    lemma_fits_sum(p, c);
}

/// An arrangement of flats puts at most as many flats on a square as it has in all.
proof fn lemma_runs_within(f: Seq<u8>, w: u64, b: u64, n: u64)
    requires
        n >= 1,
        is_arrangement(f, seq![w, b, (n - 1) as u64]),
    ensures
        runs(f).len() == n,
        forall|x: int| 0 <= x < runs(f).len() ==> #[trigger] runs(f)[x] <= w + b,
{
    let c = seq![w, b, (n - 1) as u64];
    reveal_with_fuel(seq_sum, 4);
    lemma_runs_shape(f);
    lemma_arrangement_count(f, c, 2);
    lemma_arrangement_len(f, c);
}

/// An arrangement of flats puts at most 64 flats on each square.
pub open spec fn flats_fit(f: Seq<u8>) -> bool {
    forall|x: int| 0 <= x < runs(f).len() ==> #[trigger] runs(f)[x] <= 64
}

/// The number of flats an arrangement of flats puts on each square: the lengths of the runs
/// of flats (symbols 0 and 1) between the square separators (symbol 2).
pub open spec fn runs(p: Seq<u8>) -> Seq<nat>
    decreases p.len(),
{
    if p.len() == 0 {
        seq![0nat]
    } else if p.last() == 2 {
        runs(p.drop_last()).push(0nat)
    } else {
        let r = runs(p.drop_last());
        r.update(r.len() - 1, r.last() + 1)
    }
}

proof fn lemma_runs_shape(p: Seq<u8>)
    ensures
        runs(p).len() == count_sym(p, 2) + 1,
        forall|x: int| 0 <= x < runs(p).len() ==> #[trigger] runs(p)[x] <= p.len() - count_sym(p, 2),
    decreases p.len(),
{
    if p.len() > 0 {
        let q = p.drop_last();
        lemma_runs_shape(q);
        assert(count_sym(p, 2) == count_sym(q, 2) + if p.last() == 2 {
            1nat
        } else {
            0nat
        });
        let r = runs(q);
        if p.last() == 2 {
            assert(runs(p) == r.push(0nat));
        } else {
            assert(runs(p) == r.update(r.len() - 1, r.last() + 1));
        }
        assert forall|x: int| 0 <= x < runs(p).len() implies #[trigger] runs(p)[x] <= p.len() - count_sym(p, 2) by {
            if x < r.len() {
                assert(r[x] <= q.len() - count_sym(q, 2));
            }
        }
    }
}

proof fn lemma_runs_prefix(p: Seq<u8>, j: int)
    requires
        0 <= j <= p.len(),
    ensures
        runs(p.take(j)).len() <= runs(p).len(),
        forall|x: int| 0 <= x < runs(p.take(j)).len() ==> #[trigger] runs(p.take(j))[x] <= runs(p)[x],
    decreases p.len() - j,
{
    if j < p.len() {
        lemma_runs_prefix(p, j + 1);
        let q = p.take(j + 1);
        assert(q.drop_last() =~= p.take(j));
        assert(q.last() == p[j]);
        let r = runs(p.take(j));
        assert(r.len() >= 1) by {
            lemma_runs_shape(p.take(j));
        }
        assert forall|x: int| 0 <= x < r.len() implies #[trigger] r[x] <= runs(p)[x] by {
            assert(r[x] <= runs(q)[x]);
        }
    } else {
        assert(p.take(j) =~= p);
    }
}

fn decode_flats<const S: usize>(k: Natural, num_white_flats: u64, num_black_flats: u64) -> (position: Position<S>)
    requires
        valid_size(S),
        num_white_flats <= spec_starting_stones(S),
        num_black_flats <= spec_starting_stones(S),
        k.value() < multinomial(seq![num_white_flats, num_black_flats, (S * S - 1) as u64]),
        forall|f: Seq<u8>|
            is_arrangement(f, seq![num_white_flats, num_black_flats, (S * S - 1) as u64]) && perm_rank(
                f,
                seq![num_white_flats, num_black_flats, (S * S - 1) as u64],
            ) == k.value() ==> #[trigger] flats_fit(f),
    ensures
        forall|i: int|
            0 <= i < S * S ==> (#[trigger] position.stacks@[i]).height == runs(
                flat_seq(position@.stacks, S * S).drop_last(),
            )[i],
        runs(flat_seq(position@.stacks, S * S).drop_last()).len() == S * S,
        is_arrangement(
            flat_seq(position@.stacks, S * S).drop_last(),
            seq![num_white_flats, num_black_flats, (S * S - 1) as u64],
        ),
        perm_rank(
            flat_seq(position@.stacks, S * S).drop_last(),
            seq![num_white_flats, num_black_flats, (S * S - 1) as u64],
        ) == k.value(),
        position.wf(),
        position.to_move == Color::White,
        position.komi.half_komi == 0,
        position.white_stones_left == spec_starting_stones(S) - num_white_flats,
        position.black_stones_left == spec_starting_stones(S) - num_black_flats,
        position.white_caps_left == spec_starting_capstones(S),
        position.black_caps_left == spec_starting_capstones(S),
        position.half_moves_played == num_white_flats + num_black_flats,
        forall|i: int| 0 <= i < S * S ==> only_flats((#[trigger] position.stacks@[i])@),
        forall|i: int|
            0 <= i < S * S ==> (#[trigger] position.stacks@[i]).height <= num_white_flats + num_black_flats,
        ({
            let p = flat_seq(position@.stacks, S * S);
            let c = seq![num_white_flats, num_black_flats, (S * S - 1) as u64];
            &&& fits(p.drop_last(), c)
            &&& seq_sum(consume(p.drop_last(), c)) == 0
            &&& p.last() == 2
            &&& perm_rank(p, c) == k.value()
        }),
{
    proof {
        lemma_size::<S>();
        reveal_with_fuel(seq_sum, 4);
    }
    let n = S * S;
    let categories: Vec<u64> = vec![num_white_flats, num_black_flats, (n - 1) as u64];
    let ghost c0 = categories@;
    proof {
        assert(c0 =~= seq![num_white_flats, num_black_flats, (S * S - 1) as u64]);
    }
    let permutations = kth_permutation(k, categories);
    let ghost p = permutations@;
    proof {
        lemma_arrangement_fits(p, c0);
        assert(flats_fit(p));
        assert(p.take(0) =~= Seq::<u8>::empty());
    }
    let mut position: Position<S> = Position::start_position_with_komi(super::Komi { half_komi: 0 });
    let mut sq: usize = 0;
    let mut j: usize = 0;
    let ghost mut rem = c0;
    proof {
        assert(p.subrange(0, 0) =~= Seq::<u8>::empty());
        assert(flat_seq(position@.stacks, 0) =~= Seq::<u8>::empty());
        assert(position@.stacks[0]@.len() == 0);
        assert(flat_symbols(position@.stacks[0]@) =~= Seq::<u8>::empty());
    }
    while j < permutations.len()
        invariant
            valid_size(S),
            n == S * S,
            9 <= n <= 64,
            p == permutations@,
            c0 == seq![num_white_flats, num_black_flats, (S * S - 1) as u64],
            num_white_flats <= spec_starting_stones(S) <= 50,
            flats_fit(p),
            runs(p.take(j as int)).len() == sq + 1,
            forall|i: int| 0 <= i <= sq ==> (#[trigger] position.stacks@[i]).height == runs(p.take(j as int))[i],
            num_black_flats <= spec_starting_stones(S),
            fits(p, c0),
            seq_sum(consume(p, c0)) == 0,
            j <= p.len(),
            fits(p.subrange(0, j as int), c0),
            rem == consume(p.subrange(0, j as int), c0),
            rem.len() == 3,
            rem[0] <= num_white_flats,
            rem[1] <= num_black_flats,
            rem[2] <= n - 1,
            sq + rem[2] == n - 1,
            position.wf(),
            position.to_move == Color::White,
            position.komi.half_komi == 0,
            position.white_stones_left + num_white_flats == spec_starting_stones(S) + rem[0],
            position.black_stones_left + num_black_flats == spec_starting_stones(S) + rem[1],
            position.white_caps_left == spec_starting_capstones(S),
            position.black_caps_left == spec_starting_capstones(S),
            position.half_moves_played + rem[0] + rem[1] == num_white_flats + num_black_flats,
            forall|i: int| 0 <= i < n ==> only_flats((#[trigger] position.stacks@[i])@),
            forall|i: int|
                0 <= i < n ==> (#[trigger] position.stacks@[i]).height <= position.half_moves_played,
            forall|i: int| sq < i < n ==> (#[trigger] position.stacks@[i])@.len() == 0,
            flat_seq(position@.stacks, sq as int) + flat_symbols(position@.stacks[sq as int]@) == p.subrange(
                0,
                j as int,
            ),
        decreases p.len() - j,
    {
        let next = permutations[j];
        let ghost old_stacks = position@.stacks;
        let ghost prefix = p.subrange(0, j as int);
        proof {
            lemma_fits_prefix(p, c0, j + 1);
            assert(p.subrange(0, j + 1) =~= prefix.push(next));
            lemma_push(prefix, next, c0);
            lemma_consume_len(prefix, c0);
            lemma_fits_sum(prefix, c0);
        }
        j = j + 1;
        proof {
            let q = p.take(j as int);
            assert(q.drop_last() =~= p.take(j - 1));
            assert(q.last() == next);
            lemma_runs_prefix(p, j as int);
        }
        if next == 2 {
            proof {
                rem = dec(rem, 2);
                assert(flat_symbols(position@.stacks[sq + 1]@) =~= Seq::<u8>::empty());
                assert(flat_seq(position@.stacks, sq + 1) + flat_symbols(position@.stacks[sq + 1]@)
                    =~= p.subrange(0, j as int));
            }
            sq = sq + 1;
        } else {
            let piece = if next == 0 {
                Piece::WhiteFlat
            } else {
                Piece::BlackFlat
            };
            let square = Square::<S>::from_u8(sq as u8);
            let mut stack = position.get_stack(square);
            proof {
                lemma_flat_push(stack@, piece);
                assert(runs(p.take(j as int))[sq as int] == stack.height + 1);
                assert(runs(p.take(j as int))[sq as int] <= runs(p)[sq as int]);
                assert(runs(p)[sq as int] <= 64);
            }
            stack.push(piece);
            position.set_stack(square, stack);
            position.half_moves_played = position.half_moves_played + 1;
            if next == 0 {
                position.white_stones_left = position.white_stones_left - 1;
            } else {
                position.black_stones_left = position.black_stones_left - 1;
            }
            proof {
                rem = dec(rem, next as int);
                lemma_flat_seq_frame(position@.stacks, old_stacks, sq as int);
                assert(flat_symbol(piece) =~= seq![next]);
                assert(flat_seq(position@.stacks, sq as int) + flat_symbols(position@.stacks[sq as int]@)
                    =~= p.subrange(0, j as int));
            }
        }
    }
    proof {
        assert(p.subrange(0, p.len() as int) =~= p);
        lemma_zero_sum(rem);
        assert(sq == n - 1);
        let fs = flat_seq(position@.stacks, S * S);
        assert(fs =~= p.push(2));
        assert(fs.drop_last() =~= p);
        assert(p.take(p.len() as int) =~= p);
        lemma_push(p, 2, c0);
        lemma_consume_len(p, c0);
        lemma_below_zero(consume(p, c0), 2);
    }
    position
}

} // verus!

verus! {

pub open spec fn wall_piece(symbol: u8) -> Piece {
    if symbol == 0 {
        Piece::WhiteWall
    } else if symbol == 1 {
        Piece::BlackWall
    } else if symbol == 2 {
        Piece::WhiteCap
    } else {
        Piece::BlackCap
    }
}

fn decode_walls_caps<const S: usize>(
    k: Natural,
    position: &mut Position<S>,
    num_white_walls: u64,
    num_black_walls: u64,
    num_white_caps: u64,
    num_black_caps: u64,
)
    requires
        valid_size(S),
        old(position).wf(),
        forall|i: int| 0 <= i < S * S ==> only_flats((#[trigger] old(position).stacks@[i])@),
        forall|wa: Seq<u8>|
            is_arrangement(
                wa,
                seq![
                    num_white_walls,
                    num_black_walls,
                    num_white_caps,
                    num_black_caps,
                    (S * S - num_white_walls - num_black_walls - num_white_caps - num_black_caps) as u64,
                ],
            ) && perm_rank(
                wa,
                seq![
                    num_white_walls,
                    num_black_walls,
                    num_white_caps,
                    num_black_caps,
                    (S * S - num_white_walls - num_black_walls - num_white_caps - num_black_caps) as u64,
                ],
            ) == k.value() ==> #[trigger] walls_fit::<S>(wa, old(position).stacks@),
        num_white_walls + num_black_walls + num_white_caps + num_black_caps <= S * S,
        k.value() < multinomial(
            seq![
                num_white_walls,
                num_black_walls,
                num_white_caps,
                num_black_caps,
                (S * S - num_white_walls - num_black_walls - num_white_caps - num_black_caps) as u64,
            ],
        ),
        num_white_walls <= old(position).white_stones_left,
        num_black_walls <= old(position).black_stones_left,
        num_white_caps <= old(position).white_caps_left,
        num_black_caps <= old(position).black_caps_left,
        old(position).half_moves_played + S * S <= usize::MAX,
    ensures
        final(position).wf(),
        final(position).to_move == old(position).to_move,
        final(position).komi == old(position).komi,
        final(position).white_stones_left == old(position).white_stones_left - num_white_walls,
        final(position).black_stones_left == old(position).black_stones_left - num_black_walls,
        final(position).white_caps_left == old(position).white_caps_left - num_white_caps,
        final(position).black_caps_left == old(position).black_caps_left - num_black_caps,
        final(position).half_moves_played == old(position).half_moves_played + num_white_walls + num_black_walls
            + num_white_caps + num_black_caps,
        flat_seq(final(position)@.stacks, S * S) == flat_seq(old(position)@.stacks, S * S),
        ({
            let q = wall_seq(final(position)@.stacks, S * S);
            let c = seq![
                num_white_walls,
                num_black_walls,
                num_white_caps,
                num_black_caps,
                (S * S - num_white_walls - num_black_walls - num_white_caps - num_black_caps) as u64,
            ];
            is_arrangement(q, c) && perm_rank(q, c) == k.value()
        }),
{
    proof {
        lemma_size::<S>();
        reveal_with_fuel(seq_sum, 6);
    }
    let n = S * S;
    let rest: u64 = n as u64 - num_white_walls - num_black_walls - num_white_caps - num_black_caps;
    let categories: Vec<u64> = vec![num_white_walls, num_black_walls, num_white_caps, num_black_caps, rest];
    let ghost c0 = categories@;
    let ghost old_pos = *position;
    proof {
        assert(c0 =~= seq![
            num_white_walls,
            num_black_walls,
            num_white_caps,
            num_black_caps,
            (S * S - num_white_walls - num_black_walls - num_white_caps - num_black_caps) as u64,
        ]);
        assert(seq_sum(c0) == n);
    }
    let permutations = kth_permutation(k, categories);
    let ghost p = permutations@;
    proof {
        assert(walls_fit::<S>(p, old_pos.stacks@));
        lemma_arrangement_fits(p, c0);
        lemma_fits_sum(p, c0);
        assert(p.subrange(0, 0) =~= Seq::<u8>::empty());
    }
    let mut sq: usize = 0;
    let ghost mut rem = c0;
    while sq < n
        invariant
            valid_size(S),
            n == S * S,
            9 <= n <= 64,
            p == permutations@,
            p.len() == n,
            c0.len() == 5,
            c0[0] == num_white_walls,
            c0[1] == num_black_walls,
            c0[2] == num_white_caps,
            c0[3] == num_black_caps,
            fits(p, c0),
            sq <= n,
            fits(p.subrange(0, sq as int), c0),
            rem == consume(p.subrange(0, sq as int), c0),
            rem.len() == 5,
            position.wf(),
            position.to_move == old_pos.to_move,
            position.komi == old_pos.komi,
            position.white_stones_left + c0[0] == old_pos.white_stones_left + rem[0],
            position.black_stones_left + c0[1] == old_pos.black_stones_left + rem[1],
            position.white_caps_left + c0[2] == old_pos.white_caps_left + rem[2],
            position.black_caps_left + c0[3] == old_pos.black_caps_left + rem[3],
            rem[0] <= c0[0] && rem[1] <= c0[1] && rem[2] <= c0[2] && rem[3] <= c0[3],
            num_white_walls <= old_pos.white_stones_left,
            num_black_walls <= old_pos.black_stones_left,
            num_white_caps <= old_pos.white_caps_left,
            num_black_caps <= old_pos.black_caps_left,
            position.half_moves_played <= old_pos.half_moves_played + sq,
            position.half_moves_played + rem[0] + rem[1] + rem[2] + rem[3] == old_pos.half_moves_played + c0[0]
                + c0[1] + c0[2] + c0[3],
            old_pos.half_moves_played + S * S <= usize::MAX,
            forall|i: int|
                0 <= i < n ==> flat_symbols((#[trigger] position.stacks@[i])@) == flat_symbols(
                    old_pos.stacks@[i]@,
                ),
            forall|i: int| sq <= i < n ==> (#[trigger] position.stacks@[i]) == old_pos.stacks@[i],
            forall|i: int| 0 <= i < n ==> only_flats((#[trigger] old_pos.stacks@[i])@),
            walls_fit::<S>(p, old_pos.stacks@),
            wall_seq(position@.stacks, sq as int) == p.subrange(0, sq as int),
        decreases n - sq,
    {
        let next = permutations[sq];
        let ghost old_stacks = position@.stacks;
        let ghost prefix = p.subrange(0, sq as int);
        proof {
            lemma_fits_prefix(p, c0, sq + 1);
            assert(p.subrange(0, sq + 1) =~= prefix.push(next));
            lemma_push(prefix, next, c0);
            lemma_consume_len(prefix, c0);
            rem = dec(rem, next as int);
        }
        let square = Square::<S>::from_u8(sq as u8);
        if next != 4 {
            let piece = match next {
                0 => Piece::WhiteWall,
                1 => Piece::BlackWall,
                2 => Piece::WhiteCap,
                _ => Piece::BlackCap,
            };
            let mut stack = position.get_stack(square);
            proof {
                lemma_wall_push(stack@, piece);
                assert(old_pos.stacks@[sq as int].height < 64);
            }
            stack.push(piece);
            position.set_stack(square, stack);
            position.half_moves_played = position.half_moves_played + 1;
            match piece {
                Piece::WhiteWall => position.white_stones_left = position.white_stones_left - 1,
                Piece::BlackWall => position.black_stones_left = position.black_stones_left - 1,
                Piece::WhiteCap => position.white_caps_left = position.white_caps_left - 1,
                _ => position.black_caps_left = position.black_caps_left - 1,
            }
        } else {
            proof {
                let st = old_pos.stacks@[sq as int];
                if st@.len() > 0 {
                    assert(is_flat(st@[st@.len() - 1]));
                }
            }
        }
        proof {
            lemma_wall_seq_frame(position@.stacks, old_stacks, sq as int);
            assert(wall_seq(position@.stacks, sq + 1) =~= p.subrange(0, sq + 1));
        }
        sq = sq + 1;
    }
    proof {
        assert(p.subrange(0, n as int) =~= p);
        lemma_flat_seq_frame(position@.stacks, old_pos.stacks@, n as int);
    }
}

} // verus!

verus! {

/// The number of times `x` occurs in `s`.
pub open spec fn count_sym(s: Seq<u8>, x: u8) -> nat
    decreases s.len(),
{
    if s.len() == 0 {
        0
    } else {
        count_sym(s.drop_last(), x) + if s.last() == x {
            1nat
        } else {
            0nat
        }
    }
}

proof fn lemma_count_front(s: Seq<u8>, x: u8)
    requires
        s.len() > 0,
    ensures
        count_sym(s, x) == count_sym(s.drop_first(), x) + if s[0] == x {
            1nat
        } else {
            0nat
        },
    decreases s.len(),
{
    if s.len() > 1 {
        assert(s.drop_first().drop_last() =~= s.drop_last().drop_first());
        assert(s.drop_first().last() == s.last());
        assert(s.drop_last()[0] == s[0]);
        lemma_count_front(s.drop_last(), x);
        let t = s.drop_first();
        assert(count_sym(t, x) == count_sym(t.drop_last(), x) + if t.last() == x {
            1nat
        } else {
            0nat
        });
        assert(count_sym(s, x) == count_sym(s.drop_last(), x) + if s.last() == x {
            1nat
        } else {
            0nat
        });
    } else {
        assert(s.drop_first().len() == 0);
        assert(s.drop_last().len() == 0);
        assert(s.last() == s[0]);
        assert(count_sym(s.drop_last(), x) == 0);
        assert(count_sym(s.drop_first(), x) == 0);
    }
}

/// In an arrangement, each category occurs as often as its count says.
proof fn lemma_arrangement_count(q: Seq<u8>, c: Seq<u64>, x: u8)
    requires
        is_arrangement(q, c),
        (x as int) < c.len(),
    ensures
        count_sym(q, x) == c[x as int],
    decreases q.len(),
{
    if q.len() == 0 {
        lemma_zero_sum(c);
    } else {
        lemma_count_front(q, x);
        lemma_arrangement_count(q.drop_first(), dec(c, q[0] as int), x);
    }
}

/// A wall or capstone tops as many squares as its symbol occurs in the arrangement.
proof fn lemma_count_tops_sym(stacks: Seq<Stack>, n: int, piece: Piece)
    requires
        !is_flat(piece),
    ensures
        count_tops(stacks, n, piece) == count_sym(wall_seq(stacks, n), wall_symbol(Some(piece))),
    decreases n,
{
    if n > 0 {
        lemma_count_tops_sym(stacks, n - 1, piece);
        assert(wall_seq(stacks, n).drop_last() =~= wall_seq(stacks, n - 1));
    }
}

proof fn lemma_sum_front(s: Seq<u64>)
    requires
        s.len() > 0,
    ensures
        seq_sum(s) == s[0] + seq_sum(s.drop_first()),
        fact_product(s) == fact(s[0] as nat) * fact_product(s.drop_first()),
    decreases s.len(),
{
    if s.len() > 1 {
        assert(s.drop_first().drop_last() =~= s.drop_last().drop_first());
        assert(s.drop_first().last() == s.last());
        assert(s.drop_last()[0] == s[0]);
        lemma_sum_front(s.drop_last());
        let t = s.drop_first();
        assert(seq_sum(t) == seq_sum(t.drop_last()) + (t.last() as nat));
        assert(fact_product(t) == fact_product(t.drop_last()) * fact(t.last() as nat));
        assert(seq_sum(s) == seq_sum(s.drop_last()) + (s.last() as nat));
        assert(fact_product(s) == fact_product(s.drop_last()) * fact(s.last() as nat));
        lemma_mul_is_associative(
            fact(s[0] as nat) as int,
            fact_product(s.drop_last().drop_first()) as int,
            fact(s.last() as nat) as int,
        );
    } else {
        assert(s.drop_first().len() == 0);
        assert(s.drop_last().len() == 0);
        assert(s.last() == s[0]);
        assert(seq_sum(s.drop_last()) == 0);
        assert(seq_sum(s.drop_first()) == 0);
        assert(fact_product(s.drop_last()) == 1);
        assert(fact_product(s.drop_first()) == 1);
        lemma_mul_is_commutative(1, fact(s[0] as nat) as int);
    }
}

/// Moving the first category to the end does not change the number of arrangements.
proof fn lemma_multinomial_rotate(s: Seq<u64>)
    requires
        s.len() > 0,
    ensures
        multinomial(s) == multinomial(s.drop_first().push(s[0])),
{
    let t = s.drop_first().push(s[0]);
    lemma_sum_front(s);
    assert(t.drop_last() =~= s.drop_first());
    lemma_mul_is_commutative(fact(s[0] as nat) as int, fact_product(s.drop_first()) as int);
}

proof fn lemma_opening_counts(n: nat)
    requires
        1 <= n <= 64,
    ensures
        multinomial(seq![0u64, 0u64, (n - 1) as u64]) == 1,
        multinomial(seq![0u64, 1u64, (n - 1) as u64]) == n,
        multinomial(seq![0u64, 0u64, 0u64, 0u64, n as u64]) == 1,
{
    reveal_with_fuel(seq_sum, 6);
    reveal_with_fuel(fact_product, 6);
    let a = seq![0u64, 0u64, (n - 1) as u64];
    let b = seq![0u64, 1u64, (n - 1) as u64];
    let c = seq![0u64, 0u64, 0u64, 0u64, n as u64];
    assert(a.drop_last() =~= seq![0u64, 0u64]);
    assert(b.drop_last() =~= seq![0u64, 1u64]);
    assert(seq![0u64, 0u64].drop_last() =~= seq![0u64]);
    assert(seq![0u64, 1u64].drop_last() =~= seq![0u64]);
    assert(seq![0u64].drop_last() =~= Seq::<u64>::empty());
    assert(c.drop_last() =~= seq![0u64, 0u64, 0u64, 0u64]);
    assert(seq![0u64, 0u64, 0u64, 0u64].drop_last() =~= seq![0u64, 0u64, 0u64]);
    assert(seq![0u64, 0u64, 0u64].drop_last() =~= seq![0u64, 0u64]);
    assert(fact_product(seq![0u64]) == 1);
    assert(fact_product(seq![0u64, 0u64]) == 1);
    assert(fact_product(seq![0u64, 0u64, 0u64]) == 1);
    assert(fact_product(seq![0u64, 0u64, 0u64, 0u64]) == 1);
    assert(seq_sum(a) == n - 1);
    assert(seq_sum(b) == n);
    assert(seq_sum(c) == n);
    assert(fact(0) == 1);
    assert(fact(1) == 1) by {
        assert(fact(1) == 1 * fact(0));
    }
    let m = (n - 1) as nat;
    lemma_fact_positive(m);
    lemma_fact_positive(n);
    assert(fact(n) == n * fact(m));
    assert(fact(m) / fact(m) == 1) by {
        lemma_div_by_multiple(1, fact(m) as int);
    }
    lemma_div_by_multiple(n as int, fact(m) as int);
    assert(fact(n) / fact(n) == 1) by {
        lemma_div_by_multiple(1, fact(n) as int);
    }
    assert(fact_product(a) == fact(m));
    assert(fact_product(b) == fact(m));
    assert(c.last() == n as u64);
    assert(fact_product(c) == fact_product(c.drop_last()) * fact(c.last() as nat));
    assert(fact_product(c) == fact(n));
}

} // verus!

verus! {

/// The number of flat arrangements of an entry is the multinomial of the counts in the
/// order in which flats are decoded.
proof fn lemma_entry_flat_perms(data: Seq<(FlatsConfiguration, FlatConfigurationData)>, i: int, s: usize)
    requires
        valid_size(s),
        flat_table_ok(data, board_limits(s), s as int),
        0 <= i < data.len(),
    ensures
        data[i].1.num_flats_permutations.value() == multinomial(flat_perm_counts(data[i].0, s * s)),
        data[i].1.num_flats_permutations.value() > 0,
        data[i].0.w_stones <= spec_starting_stones(s),
        data[i].0.b_stones <= spec_starting_stones(s),
        data[i].0.player == 1 || data[i].0.player == 2,
        data[i].1.size.value() == data[i].1.num_flats_permutations.value() * wall_sizes_sum(
            data[i].1.blocking_configurations@,
        ),
        wall_ranges_consecutive(data[i].1.blocking_configurations@),
{
    lemma_size::<8>();
    assert(9 <= s * s <= 64) by (nonlinear_arith)
        requires
            3 <= s <= 8,
    ;
    let c = data[i].0;
    let n = (s * s) as nat;
    if i == 0 {
        lemma_opening_counts(n);
        assert(flat_perm_counts(c, s * s) =~= seq![0u64, 0u64, (n - 1) as u64]);
        let w = data[i].1.blocking_configurations@;
        assert(w.drop_last().len() == 0);
        assert(wall_sizes_sum(w.drop_last()) == 0);
        assert(w.last() == w[0]);
        assert(wall_sizes_sum(w) == 1);
    } else if i == 1 {
        lemma_opening_counts(n);
        assert(flat_perm_counts(c, s * s) =~= seq![0u64, 1u64, (n - 1) as u64]);
        let w = data[i].1.blocking_configurations@;
        assert(w.drop_last().len() == 0);
        assert(wall_sizes_sum(w.drop_last()) == 0);
        assert(w.last() == w[0]);
        assert(wall_sizes_sum(w) == 1);
    } else {
        assert(flat_entry_ok(data[i], board_limits(s)));
        let fc = flat_counts(c, (s * s) as u8 as int);
        lemma_multinomial_rotate(fc);
        assert(fc.drop_first().push(fc[0]) =~= flat_perm_counts(c, s * s));
        lemma_multinomial(fc);
    }
}

/// The number of wall arrangements of an entry is the multinomial of the counts in the order
/// in which walls are decoded.
proof fn lemma_entry_wall_perms(
    data: Seq<(FlatsConfiguration, FlatConfigurationData)>,
    i: int,
    j: int,
    s: usize,
)
    requires
        valid_size(s),
        flat_table_ok(data, board_limits(s), s as int),
        0 <= i < data.len(),
        0 <= j < data[i].1.blocking_configurations@.len(),
    ensures
        ({
            let c = data[i].1.blocking_configurations@[j].0;
            let f = data[i].0;
            &&& data[i].1.blocking_configurations@[j].1.size.value() == multinomial(wall_perm_counts(c, s * s))
            &&& c.w_walls + c.b_walls + c.w_caps + c.b_caps <= s * s
            &&& c.w_walls + f.w_stones <= spec_starting_stones(s)
            &&& c.b_walls + f.b_stones <= spec_starting_stones(s)
            &&& c.w_caps <= spec_starting_capstones(s)
            &&& c.b_caps <= spec_starting_capstones(s)
        }),
{
    assert(9 <= s * s <= 64) by (nonlinear_arith)
        requires
            3 <= s <= 8,
    ;
    let n = (s * s) as nat;
    let c = data[i].1.blocking_configurations@[j].0;
    if i < 2 {
        lemma_opening_counts(n);
        assert(wall_perm_counts(c, s * s) =~= seq![0u64, 0u64, 0u64, 0u64, n as u64]);
    } else {
        assert(flat_entry_ok(data[i], board_limits(s)));
        let wc = wall_counts(c, (s * s) as u8 as int);
        assert(wall_allowed(c, board_limits(s), data[i].0.player as int, data[i].0.w_stones as int, data[i].0.b_stones as int));
        lemma_multinomial_rotate(wc);
        assert(wc.drop_first().push(wc[0]) =~= wall_perm_counts(c, s * s));
    }
}

/// The entry of a table whose range holds `k`.
fn find_range_of(data: &Vec<(FlatsConfiguration, FlatConfigurationData)>, k: &Natural) -> (i: usize)
    requires
        data.len() > 0,
        flat_ranges_consecutive(data@),
        k.value() < flat_table_end(data@),
    ensures
        i < data.len(),
        data@[i as int].1.start_index.value() <= k.value() < data@[i as int].1.start_index.value()
            + data@[i as int].1.size.value(),
{
    let mut i: usize = 0;
    let mut found = false;
    while !found
        invariant
            data.len() > 0,
            flat_ranges_consecutive(data@),
            k.value() < flat_table_end(data@),
            i < data.len(),
            data@[i as int].1.start_index.value() <= k.value(),
            found ==> k.value() < data@[i as int].1.start_index.value() + data@[i as int].1.size.value(),
        decreases data.len() - i, if found { 0int } else { 1int },
    {
        let end = data[i].1.start_index.add(&data[i].1.size);
        if k.lt(&end) {
            found = true;
        } else {
            proof {
                if i + 1 == data.len() {
                    assert(data@.last() == data@[i as int]);
                }
                assert(data@[i + 1].1.start_index.value() == data@[i as int].1.start_index.value()
                    + data@[i as int].1.size.value());
            }
            i = i + 1;
        }
    }
    i
}

/// The wall configuration whose range holds `k`.
fn find_wall_range_of(walls: &Vec<(WallConfiguration, WallConfigurationData)>, k: &Natural) -> (j: usize)
    requires
        wall_ranges_consecutive(walls@),
        k.value() < wall_sizes_sum(walls@),
    ensures
        j < walls.len(),
        walls@[j as int].1.start_index.value() <= k.value() < walls@[j as int].1.start_index.value()
            + walls@[j as int].1.size.value(),
{
    proof {
        lemma_wall_end_is_sum(walls@);
    }
    let mut j: usize = 0;
    let mut found = false;
    while !found
        invariant
            wall_ranges_consecutive(walls@),
            k.value() < wall_table_end(walls@),
            j < walls.len(),
            walls@[j as int].1.start_index.value() <= k.value(),
            found ==> k.value() < walls@[j as int].1.start_index.value() + walls@[j as int].1.size.value(),
        decreases walls.len() - j, if found { 0int } else { 1int },
    {
        let end = walls[j].1.start_index.add(&walls[j].1.size);
        if k.lt(&end) {
            found = true;
        } else {
            proof {
                if j + 1 == walls.len() {
                    assert(walls@.last() == walls@[j as int]);
                }
                assert(walls@[j + 1].1.start_index.value() == walls@[j as int].1.start_index.value()
                    + walls@[j as int].1.size.value());
            }
            j = j + 1;
        }
    }
    j
}

} // verus!

verus! {

/// The arrangements of flats that decoding an index can meet put at most 64 flats on a
/// square: on boards up to 6x6 because there are not that many flats, on larger ones because
/// the index fits.
proof fn lemma_decode_flats_fit<const S: usize>(
    data: Seq<(FlatsConfiguration, FlatConfigurationData)>,
    i: int,
    j: int,
    r: nat,
    q: nat,
)
    requires
        valid_size(S),
        0 <= i < data.len(),
        data[i].0.w_stones <= spec_starting_stones(S),
        data[i].0.b_stones <= spec_starting_stones(S),
        S <= 6 || index_fits(data, S as int, i, j, r, q),
    ensures
        forall|fa: Seq<u8>|
            is_arrangement(fa, seq![data[i].0.w_stones as u64, data[i].0.b_stones as u64, (S * S - 1) as u64])
                && perm_rank(fa, seq![data[i].0.w_stones as u64, data[i].0.b_stones as u64, (S * S - 1) as u64])
                == r ==> #[trigger] flats_fit(fa),
{
    lemma_size::<S>();
    let w = data[i].0.w_stones as u64;
    let b = data[i].0.b_stones as u64;
    let fc = seq![w, b, (S * S - 1) as u64];
    if S <= 6 {
        assert forall|fa: Seq<u8>| is_arrangement(fa, fc) && perm_rank(fa, fc) == r implies #[trigger] flats_fit(
            fa,
        ) by {
            lemma_runs_within(fa, w, b, (S * S) as u64);
            assert(spec_starting_stones(S) <= 30);
        }
    } else {
        assert(index_fits(data, S as int, i, j, r, q));
    }
}

/// Where decoding puts a wall or capstone, the stack holds fewer than 64 pieces.
proof fn lemma_decode_walls_fit<const S: usize>(
    data: Seq<(FlatsConfiguration, FlatConfigurationData)>,
    i: int,
    j: int,
    r: nat,
    q: nat,
    fa: Seq<u8>,
    stacks: Seq<Stack>,
)
    requires
        valid_size(S),
        0 <= i < data.len(),
        0 <= j < data[i].1.blocking_configurations@.len(),
        data[i].0.w_stones <= spec_starting_stones(S),
        data[i].0.b_stones <= spec_starting_stones(S),
        S <= 6 || index_fits(data, S as int, i, j, r, q),
        is_arrangement(fa, seq![data[i].0.w_stones as u64, data[i].0.b_stones as u64, (S * S - 1) as u64]),
        perm_rank(fa, seq![data[i].0.w_stones as u64, data[i].0.b_stones as u64, (S * S - 1) as u64]) == r,
        runs(fa).len() == S * S,
        forall|x: int| 0 <= x < S * S ==> (#[trigger] stacks[x]).height == runs(fa)[x],
    ensures
        ({
            let w = data[i].1.blocking_configurations@[j].0;
            let wc = seq![
                w.w_walls as u64,
                w.b_walls as u64,
                w.w_caps as u64,
                w.b_caps as u64,
                (S * S - w.w_walls - w.b_walls - w.w_caps - w.b_caps) as u64,
            ];
            forall|wa: Seq<u8>|
                is_arrangement(wa, wc) && perm_rank(wa, wc) == q - data[i].1.blocking_configurations@[j].1.start_index.value()
                    ==> #[trigger] walls_fit::<S>(wa, stacks)
        }),
{
    lemma_size::<S>();
    let wb = data[i].0.w_stones as u64;
    let bb = data[i].0.b_stones as u64;
    let w = data[i].1.blocking_configurations@[j].0;
    let wc = seq![
        w.w_walls as u64,
        w.b_walls as u64,
        w.w_caps as u64,
        w.b_caps as u64,
        (S * S - w.w_walls - w.b_walls - w.w_caps - w.b_caps) as u64,
    ];
    assert forall|wa: Seq<u8>|
        is_arrangement(wa, wc) && perm_rank(wa, wc) == q - data[i].1.blocking_configurations@[j].1.start_index.value()
            implies #[trigger] walls_fit::<S>(wa, stacks) by {
        if S <= 6 {
            lemma_runs_within(fa, wb, bb, (S * S) as u64);
            assert(spec_starting_stones(S) <= 30);
            assert forall|x: int| 0 <= x < S * S && wa[x] != 4 implies (#[trigger] stacks[x]).height < 64 by {
                assert(runs(fa)[x] <= wb + bb);
            }
        } else {
            assert(index_fits(data, S as int, i, j, r, q));
            assert(pieces_fit(fa, wa));
            assert forall|x: int| 0 <= x < S * S && wa[x] != 4 implies (#[trigger] stacks[x]).height < 64 by {
                assert(runs(fa)[x] + 1 <= 64);
            }
        }
    }
}

impl<const S: usize> PositionEncoder<S> {
    /// Decodes a position
    /// The move counter is guessed on a best-effort basis, as it is not stored in the encoded data.
    /// On boards up to 6x6 every index below the count decodes. On larger boards an index can
    /// stand for more pieces on one square than a stack holds; such indices are not decoded.
    #[verifier::rlimit(50)]
    pub fn decode(&self, k: Natural) -> (position: Position<S>)
        requires
            self.wf(),
            k.value() < flat_table_end(self.data@),
            S <= 6 || decodable(self.data@, S as int, k.value()),
        ensures
            position.half_moves_played == pieces_played(position@),
            position.wf(),
            encodable(self.data@, position@),
            encoding(self.data@, position@) == k.value(),
    {
        proof {
            lemma_size::<S>();
        }
        let ghost data = self.data@;
        let i = find_range_of(&self.data, &k);
        let flat_config = self.data[i].0;
        let flat_data = &self.data[i].1;
        proof {
            lemma_entry_flat_perms(data, i as int, S);
        }
        let local_index = k.sub(&flat_data.start_index);
        let side_to_move = if flat_config.player == 1 {
            Color::White
        } else {
            Color::Black
        };
        let (walls_local_k, flat_identifier) = local_index.div_rem(&flat_data.num_flats_permutations);
        let ghost nfp = flat_data.num_flats_permutations.value();
        let ghost total_walls = wall_sizes_sum(flat_data.blocking_configurations@);
        proof {
            let l = local_index.value();
            lemma_fundamental_div_mod(l as int, nfp as int);
            assert(walls_local_k.value() < total_walls) by (nonlinear_arith)
                requires
                    l < nfp * total_walls,
                    nfp > 0,
                    l == nfp * walls_local_k.value() + flat_identifier.value(),
                    flat_identifier.value() >= 0,
            ;
        }
        let j = find_wall_range_of(&flat_data.blocking_configurations, &walls_local_k);
        let wall_config = flat_data.blocking_configurations[j].0;
        let wall_size = &flat_data.blocking_configurations[j].1;
        proof {
            lemma_entry_wall_perms(data, i as int, j as int, S);
            reveal_with_fuel(seq_sum, 4);
            assert(flat_perm_counts(flat_config, S * S) =~= seq![
                flat_config.w_stones as u64,
                flat_config.b_stones as u64,
                (S * S - 1) as u64,
            ]);
            let l = local_index.value();
            lemma_fundamental_div_mod(l as int, nfp as int);
            lemma_mod_pos_bound(l as int, nfp as int);
            if !(S <= 6) {
                assert(index_fits(data, S as int, i as int, j as int, flat_identifier.value(), walls_local_k.value()));
            }
            lemma_decode_flats_fit::<S>(data, i as int, j as int, flat_identifier.value(), walls_local_k.value());
        }
        let mut position: Position<S> = decode_flats(
            flat_identifier,
            flat_config.w_stones as u64,
            flat_config.b_stones as u64,
        );
        let ghost flats_done = position@;
        let ghost fa = flat_seq(position@.stacks, S * S).drop_last();
        if side_to_move == Color::Black {
            position.null_move();
        }
        let walls_local_index = walls_local_k.sub(&wall_size.start_index);
        proof {
            lemma_decode_walls_fit::<S>(
                data,
                i as int,
                j as int,
                flat_identifier.value(),
                walls_local_k.value(),
                fa,
                position@.stacks,
            );
            assert(wall_perm_counts(wall_config, S * S) =~= seq![
                wall_config.w_walls as u64,
                wall_config.b_walls as u64,
                wall_config.w_caps as u64,
                wall_config.b_caps as u64,
                (S * S - wall_config.w_walls - wall_config.b_walls - wall_config.w_caps
                    - wall_config.b_caps) as u64,
            ]);
        }
        decode_walls_caps(
            walls_local_index,
            &mut position,
            wall_config.w_walls as u64,
            wall_config.b_walls as u64,
            wall_config.w_caps as u64,
            wall_config.b_caps as u64,
        );
        proof {
            self.lemma_decoded(
                position@,
                i as int,
                j as int,
                flat_identifier.value(),
                walls_local_index.value(),
            );
            let l = local_index.value();
            lemma_fundamental_div_mod(l as int, nfp as int);
        }
        position
    }

    /// What the decoding builds is encodable, and encodes to the ranks that it was built from.
    proof fn lemma_decoded(&self, p: PositionView<S>, i: int, j: int, flat_rank: nat, wall_rank: nat)
        requires
            self.wf(),
            p.wf(),
            0 <= i < self.data@.len(),
            0 <= j < self.data@[i].1.blocking_configurations@.len(),
            ({
                let f = self.data@[i].0;
                let w = self.data@[i].1.blocking_configurations@[j].0;
                let fs = flat_seq(p.stacks, S * S);
                let ws = wall_seq(p.stacks, S * S);
                let fc = seq![f.w_stones as u64, f.b_stones as u64, (S * S - 1) as u64];
                let wc = seq![
                    w.w_walls as u64,
                    w.b_walls as u64,
                    w.w_caps as u64,
                    w.b_caps as u64,
                    (S * S - w.w_walls - w.b_walls - w.w_caps - w.b_caps) as u64,
                ];
                &&& p.to_move == (if f.player == 1 { Color::White } else { Color::Black })
                &&& p.white_stones_left == spec_starting_stones(S) - f.w_stones - w.w_walls
                &&& p.black_stones_left == spec_starting_stones(S) - f.b_stones - w.b_walls
                &&& fits(fs.drop_last(), fc)
                &&& perm_rank(fs, fc) == flat_rank
                &&& is_arrangement(ws, wc)
                &&& perm_rank(ws, wc) == wall_rank
            }),
        ensures
            encodable(self.data@, p),
            encoding(self.data@, p) == self.data@[i].1.start_index.value() + flat_rank
                + self.data@[i].1.num_flats_permutations.value() * (
            self.data@[i].1.blocking_configurations@[j].1.start_index.value() + wall_rank),
    {
        lemma_size::<S>();
        let data = self.data@;
        let f = data[i].0;
        let walls = data[i].1.blocking_configurations@;
        let w = walls[j].0;
        let ws = wall_seq(p.stacks, S * S);
        let wc = seq![
            w.w_walls as u64,
            w.b_walls as u64,
            w.w_caps as u64,
            w.b_caps as u64,
            (S * S - w.w_walls - w.b_walls - w.w_caps - w.b_caps) as u64,
        ];
        lemma_entry_flat_perms(data, i, S);
        lemma_entry_wall_perms(data, i, j, S);
        // the walls and capstones on the board are those of the configuration
        lemma_count_tops_sym(p.stacks, S * S, Piece::WhiteWall);
        lemma_count_tops_sym(p.stacks, S * S, Piece::BlackWall);
        lemma_count_tops_sym(p.stacks, S * S, Piece::WhiteCap);
        lemma_count_tops_sym(p.stacks, S * S, Piece::BlackCap);
        lemma_arrangement_count(ws, wc, 0);
        lemma_arrangement_count(ws, wc, 1);
        lemma_arrangement_count(ws, wc, 2);
        lemma_arrangement_count(ws, wc, 3);
        assert(position_walls(p) == w);
        assert(position_flats(p) == f);
        assert(flat_perm_counts(f, S * S) =~= seq![f.w_stones as u64, f.b_stones as u64, (S * S - 1) as u64]);
        assert(wall_perm_counts(w, S * S) =~= wc);
        // the wall arrangement fits its counts
        lemma_arrangement_fits(ws, wc);
        if ws.len() > 0 {
            assert(ws.drop_last() =~= ws.subrange(0, ws.len() - 1));
            lemma_fits_prefix(ws, wc, ws.len() - 1);
        }
        // the configurations are found at `i` and `j`, and nowhere else
        assert(wall_keys(walls)[j] == w);
        assert(data[i].0 == f && wall_keys(data[i].1.blocking_configurations@).contains(w));
        let ci = choose|ci: int| 0 <= ci < data.len() && data[ci].0 == f;
        if ci != i {
            if ci < i {
                assert(flats_lt(data[ci].0, data[i].0));
            } else {
                assert(flats_lt(data[i].0, data[ci].0));
            }
        }
        let cj = choose|cj: int| 0 <= cj < walls.len() && walls[cj].0 == w;
        if cj != j {
            if i >= 2 {
                assert(flat_entry_ok(data[i], board_limits(S)));
                if cj < j {
                    assert(wall_lt(walls[cj].0, walls[j].0));
                } else {
                    assert(wall_lt(walls[j].0, walls[cj].0));
                }
            }
        }
    }
}

} // verus!
