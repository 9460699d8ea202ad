//! Natural numbers of any size, held as base 2^32 digits, least significant first.
//! The arithmetic itself is done by `num_bigint::BigUint`.
use vstd::prelude::*;

use num_bigint::BigUint;
use num_integer::Integer;

verus! {

/// The number that a sequence of base 2^32 digits stands for, least significant digit first.
pub open spec fn digits_value(digits: Seq<u32>) -> nat
    decreases digits.len(),
{
    if digits.len() == 0 {
        0
    } else {
        digits[0] as nat + 0x1_0000_0000 * digits_value(digits.drop_first())
    }
}

/// A natural number of any size.
#[derive(Debug)]
pub struct Natural {
    /// Base 2^32 digits, least significant first.
    pub digits: Vec<u32>,
}

impl Clone for Natural {
    fn clone(&self) -> (n: Self)
        ensures
            n.digits@ == self.digits@,
    {
        let digits = self.digits.clone();
        proof {
            assert(digits@ =~= self.digits@);
        }
        Natural { digits }
    }
}

/// `BigUint::from(u64)`, read back as digits.
/// Claims that the digits stand for `n`.
#[verifier::external_body]
fn biguint_from_u64(n: u64) -> (d: Vec<u32>)
    ensures
        digits_value(d@) == n,
{
    BigUint::from(n).to_u32_digits()
}

/// `BigUint + BigUint`, on numbers given and read back as digits.
/// Claims that the result stands for the sum.
#[verifier::external_body]
fn biguint_add(a: &Vec<u32>, b: &Vec<u32>) -> (d: Vec<u32>)
    ensures
        digits_value(d@) == digits_value(a@) + digits_value(b@),
{
    (BigUint::new(a.clone()) + BigUint::new(b.clone())).to_u32_digits()
}

/// `BigUint - BigUint`, on numbers given and read back as digits. It panics when `b`
/// is the larger, which `requires` rules out. Claims that the result stands for the difference.
#[verifier::external_body]
fn biguint_sub(a: &Vec<u32>, b: &Vec<u32>) -> (d: Vec<u32>)
    requires
        digits_value(b@) <= digits_value(a@),
    ensures
        digits_value(d@) == digits_value(a@) - digits_value(b@),
{
    (BigUint::new(a.clone()) - BigUint::new(b.clone())).to_u32_digits()
}

/// `BigUint * BigUint`, on numbers given and read back as digits.
/// Claims that the result stands for the product.
#[verifier::external_body]
fn biguint_mul(a: &Vec<u32>, b: &Vec<u32>) -> (d: Vec<u32>)
    ensures
        digits_value(d@) == digits_value(a@) * digits_value(b@),
{
    (BigUint::new(a.clone()) * BigUint::new(b.clone())).to_u32_digits()
}

/// `Integer::div_rem` on `BigUint`, on numbers given and read back as digits. It panics
/// on a zero divisor, which `requires` rules out. Claims that the results stand for the
/// quotient and the remainder.
#[verifier::external_body]
fn biguint_div_rem(a: &Vec<u32>, b: &Vec<u32>) -> (qr: (Vec<u32>, Vec<u32>))
    requires
        digits_value(b@) > 0,
    ensures
        digits_value(qr.0@) == digits_value(a@) / digits_value(b@),
        digits_value(qr.1@) == digits_value(a@) % digits_value(b@),
{
    let (q, r) = BigUint::new(a.clone()).div_rem(&BigUint::new(b.clone()));
    (q.to_u32_digits(), r.to_u32_digits())
}

/// `<` on `BigUint`, on numbers given as digits.
/// Claims that the result says whether the first number is the smaller.
#[verifier::external_body]
fn biguint_lt(a: &Vec<u32>, b: &Vec<u32>) -> (r: bool)
    ensures
        r == (digits_value(a@) < digits_value(b@)),
{
    BigUint::new(a.clone()) < BigUint::new(b.clone())
}

impl Natural {
    pub open spec fn value(&self) -> nat {
        digits_value(self.digits@)
    }

    /// Zero.
    pub fn zero() -> (n: Natural)
        ensures
            n.value() == 0,
    {
        Natural { digits: Vec::new() }
    }

    pub fn from_u64(x: u64) -> (n: Natural)
        ensures
            n.value() == x,
    {
        Natural { digits: biguint_from_u64(x) }
    }

    pub fn add(&self, other: &Natural) -> (n: Natural)
        ensures
            n.value() == self.value() + other.value(),
    {
        Natural { digits: biguint_add(&self.digits, &other.digits) }
    }

    pub fn sub(&self, other: &Natural) -> (n: Natural)
        requires
            other.value() <= self.value(),
        ensures
            n.value() == self.value() - other.value(),
    {
        Natural { digits: biguint_sub(&self.digits, &other.digits) }
    }

    pub fn mul(&self, other: &Natural) -> (n: Natural)
        ensures
            n.value() == self.value() * other.value(),
    {
        Natural { digits: biguint_mul(&self.digits, &other.digits) }
    }

    /// Quotient and remainder.
    pub fn div_rem(&self, other: &Natural) -> (qr: (Natural, Natural))
        requires
            other.value() > 0,
        ensures
            qr.0.value() == self.value() / other.value(),
            qr.1.value() == self.value() % other.value(),
    {
        let (q, r) = biguint_div_rem(&self.digits, &other.digits);
        (Natural { digits: q }, Natural { digits: r })
    }

    pub fn lt(&self, other: &Natural) -> (b: bool)
        ensures
            b == (self.value() < other.value()),
    {
        biguint_lt(&self.digits, &other.digits)
    }
}

} // verus!
