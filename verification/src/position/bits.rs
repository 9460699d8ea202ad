//! Facts about single bits of 64-bit words, shared by the bitboard and stack code.
use vstd::prelude::*;
use vstd::std_specs::bits::{u64_trailing_zeros, axiom_u64_trailing_zeros};

verus! {

/// Whether bit `i` of `b` is set.
pub open spec fn bit(b: u64, i: u64) -> bool {
    (b >> i) & 1u64 == 1u64
}

/// Number of set bits of `b` among the positions `0..n`.
pub open spec fn popcount_below(b: u64, n: nat) -> nat
    decreases n,
{
    if n == 0 {
        0
    } else {
        popcount_below(b, (n - 1) as nat) + if bit(b, (n - 1) as u64) { 1nat } else { 0nat }
    }
}

/// Number of set bits of `b`.
pub open spec fn popcount(b: u64) -> nat {
    popcount_below(b, 64)
}

pub proof fn lemma_bit_test(b: u64, i: u64)
    requires
        i < 64,
    ensures
        ((b & (1u64 << i)) != 0) == bit(b, i),
        ((b >> i) & 1u64 == 1u64) == bit(b, i),
        ((b >> i) & 1u64 == 0u64) == !bit(b, i),
{
    assert(i < 64 ==> (((b & (1u64 << i)) != 0) == ((b >> i) & 1u64 == 1u64)
        && (((b >> i) & 1u64 == 0u64) == !((b >> i) & 1u64 == 1u64)))) by (bit_vector);
}

pub proof fn lemma_bit_set(b: u64, i: u64, j: u64)
    requires
        i < 64,
        j < 64,
    ensures
        bit(b | (1u64 << i), j) == (j == i || bit(b, j)),
        bit(b & !(1u64 << i), j) == (j != i && bit(b, j)),
{
    assert(i < 64 && j < 64 ==> ((((b | (1u64 << i)) >> j) & 1u64 == 1u64) == (j == i || (b >> j)
        & 1u64 == 1u64) && (((b & !(1u64 << i)) >> j) & 1u64 == 1u64) == (j != i && (b >> j) & 1u64
        == 1u64))) by (bit_vector);
}

pub proof fn lemma_bit_ops(a: u64, b: u64, j: u64)
    requires
        j < 64,
    ensures
        bit(a | b, j) == (bit(a, j) || bit(b, j)),
        bit(a & b, j) == (bit(a, j) && bit(b, j)),
        bit(a ^ b, j) == (bit(a, j) != bit(b, j)),
        bit(!a, j) == !bit(a, j),
        !bit(0u64, j),
        bit(0xffff_ffff_ffff_ffffu64, j),
{
    assert(j < 64 ==> ((((a | b) >> j) & 1u64 == 1u64) == ((a >> j) & 1u64 == 1u64 || (b >> j)
        & 1u64 == 1u64) && (((a & b) >> j) & 1u64 == 1u64) == ((a >> j) & 1u64 == 1u64 && (b >> j)
        & 1u64 == 1u64) && (((a ^ b) >> j) & 1u64 == 1u64) == ((a >> j) & 1u64 == 1u64 != ((b >> j)
        & 1u64 == 1u64)) && (((!a) >> j) & 1u64 == 1u64) == !((a >> j) & 1u64 == 1u64) && !((0u64
        >> j) & 1u64 == 1u64) && (0xffff_ffff_ffff_ffffu64 >> j) & 1u64 == 1u64)) by (bit_vector);
}

pub proof fn lemma_bit_low_mask(n: u64, j: u64)
    requires
        n < 64,
        j < 64,
    ensures
        bit(((1u64 << n) - 1) as u64, j) == (j < n),
        (1u64 << n) >= 1,
{
    assert(n < 64 && j < 64 ==> (((((1u64 << n) - 1) as u64 >> j) & 1u64 == 1u64) == (j < n) && (1u64
        << n) >= 1)) by (bit_vector);
}

pub proof fn lemma_bit_shift_right(b: u64, j: u64)
    requires
        j < 64,
    ensures
        j < 63 ==> bit(b >> 1u64, j) == bit(b, (j + 1) as u64),
        j == 63 ==> !bit(b >> 1u64, j),
{
    assert(j < 64 ==> (j < 63 ==> ((((b >> 1u64) >> j) & 1u64 == 1u64) == ((b >> ((j + 1) as u64)) & 1u64
        == 1u64))) && (j == 63 ==> !(((b >> 1u64) >> j) & 1u64 == 1u64))) by (bit_vector);
}

/// Two words are equal if they agree on every bit.
pub proof fn lemma_bits_ext(a: u64, b: u64)
    requires
        forall|j: u64| j < 64 ==> #[trigger] bit(a, j) == bit(b, j),
    ensures
        a == b,
{
    if a != b {
        let x = a ^ b;
        assert(a != b ==> a ^ b != 0) by (bit_vector);
        axiom_u64_trailing_zeros(x);
        let t = u64_trailing_zeros(x) as u64;
        assert(t < 64);
        assert(bit(x, t));
        lemma_bit_ops(a, b, t);
        assert(bit(a, t) == bit(b, t));
    }
}

/// Index of the lowest set bit of a non-zero word.
pub proof fn lemma_lowest_bit(x: u64)
    requires
        x != 0,
    ensures
        (u64_trailing_zeros(x) as u64) < 64,
        bit(x, u64_trailing_zeros(x) as u64),
        forall|j: u64| j < u64_trailing_zeros(x) ==> !#[trigger] bit(x, j),
{
    axiom_u64_trailing_zeros(x);
    let t = u64_trailing_zeros(x) as u64;
    assert forall|j: u64| j < u64_trailing_zeros(x) implies !#[trigger] bit(x, j) by {
        assert(((x >> j) & 1u64 == 0u64) ==> !((x >> j) & 1u64 == 1u64)) by (bit_vector);
    }
}

pub proof fn lemma_popcount_below_bound(b: u64, n: nat)
    ensures
        popcount_below(b, n) <= n,
    decreases n,
{
    if n > 0 {
        lemma_popcount_below_bound(b, (n - 1) as nat);
    }
}

proof fn lemma_popcount_union_below(a: u64, b: u64, n: nat)
    requires
        n <= 64,
    ensures
        popcount_below(a | b, n) + popcount_below(a & b, n) == popcount_below(a, n) + popcount_below(b, n),
    decreases n,
{
    if n > 0 {
        lemma_popcount_union_below(a, b, (n - 1) as nat);
        lemma_bit_ops(a, b, (n - 1) as u64);
    }
}

proof fn lemma_popcount_set_below(b: u64, i: u64, n: nat)
    requires
        n <= 64,
        i < 64,
    ensures
        popcount_below(b | (1u64 << i), n) == popcount_below(b, n) + if i < n && !bit(b, i) {
            1nat
        } else {
            0nat
        },
    decreases n,
{
    if n > 0 {
        lemma_popcount_set_below(b, i, (n - 1) as nat);
        lemma_bit_set(b, i, (n - 1) as u64);
    }
}

/// The number of set bits: at most 64; those of a union and an intersection together count
/// each set bit of both boards; and setting a bit adds one exactly when it was clear.
pub proof fn lemma_popcount_laws(a: u64, b: u64, i: u64)
    requires
        i < 64,
    ensures
        popcount(b) <= 64,
        popcount(a | b) + popcount(a & b) == popcount(a) + popcount(b),
        popcount(b | (1u64 << i)) == popcount(b) + if bit(b, i) {
            0nat
        } else {
            1nat
        },
{
    lemma_popcount_below_bound(b, 64);
    lemma_popcount_union_below(a, b, 64);
    lemma_popcount_set_below(b, i, 64);
}

} // verus!
verus! {

/// Exclusive or is associative, commutative, has zero as unit, and undoes itself.
pub proof fn lemma_xor_facts(a: u64, b: u64, c: u64)
    ensures
        (a ^ b) ^ c == a ^ (b ^ c),
        a ^ b == b ^ a,
        a ^ 0 == a,
        a ^ a == 0,
{
    assert((a ^ b) ^ c == a ^ (b ^ c) && a ^ b == b ^ a && a ^ 0 == a && a ^ a == 0) by (bit_vector);
}

} // verus!
