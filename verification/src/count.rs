//! Cardinalities: unsigned integers of 256 bits.
//!
//! A [`Count`] holds its value as two 128-bit halves. Comparisons and
//! conversions are done on the halves; sums, differences, products and
//! quotients are computed by `crypto_bigint`.

use crypto_bigint::{CheckedAdd, CheckedMul, CheckedSub, NonZero, U128, U256};
use vstd::pervasive::unreached;
use vstd::prelude::*;

verus! {

/// The first value that a [`Count`] cannot hold: two to the power 256.
pub open spec fn count_limit() -> nat {
    0x1_0000_0000_0000_0000_0000_0000_0000_0000_0000_0000_0000_0000_0000_0000_0000_0000nat
}

/// The weight of the high half of a [`Count`]: two to the power 128.
pub open spec fn half_limit() -> nat {
    0x1_0000_0000_0000_0000_0000_0000_0000_0000nat
}

/// An unsigned integer below two to the power 256.
#[derive(Clone, Copy, Debug, PartialEq, Eq, Structural)]
pub struct Count {
    hi: u128,
    lo: u128,
}

impl View for Count {
    type V = nat;

    closed spec fn view(&self) -> nat {
        (self.hi as nat) * half_limit() + (self.lo as nat)
    }
}

impl Count {
    /// The value of a count is below two to the power 256.
    pub proof fn lemma_view(self)
        ensures
            self@ < count_limit(),
    {
    }

    /// The count with the given halves.
    pub fn from_parts(hi: u128, lo: u128) -> (r: Count)
        ensures
            r@ == (hi as nat) * half_limit() + (lo as nat),
    {
        Count { hi, lo }
    }

    /// The count zero.
    pub fn zero() -> (r: Count)
        ensures
            r@ == 0,
    {
        Count { hi: 0, lo: 0 }
    }

    /// The count one.
    pub fn one() -> (r: Count)
        ensures
            r@ == 1,
    {
        Count { hi: 0, lo: 1 }
    }

    /// The count with the value of `n`.
    pub fn from_u64(n: u64) -> (r: Count)
        ensures
            r@ == n,
    {
        Count { hi: 0, lo: n as u128 }
    }

    /// The count with the value of `n`.
    pub fn from_usize(n: usize) -> (r: Count)
        ensures
            r@ == n,
    {
        Count { hi: 0, lo: n as u128 }
    }

    /// The high half: the value divided by two to the power 128.
    pub fn high(&self) -> (r: u128)
        ensures
            r == self@ / half_limit(),
    {
        self.hi
    }

    /// The low half: the value modulo two to the power 128.
    pub fn low(&self) -> (r: u128)
        ensures
            r == self@ % half_limit(),
    {
        self.lo
    }

    /// Whether the value is zero.
    pub fn is_zero(&self) -> (r: bool)
        ensures
            r == (self@ == 0),
    {
        self.hi == 0 && self.lo == 0
    }

    /// Whether the value is one.
    pub fn is_one(&self) -> (r: bool)
        ensures
            r == (self@ == 1),
    {
        self.hi == 0 && self.lo == 1
    }

    /// Whether the value is below that of `other`.
    pub fn is_below(&self, other: &Count) -> (r: bool)
        ensures
            r == (self@ < other@),
    {
        self.hi < other.hi || (self.hi == other.hi && self.lo < other.lo)
    }

    /// The sum, which a count can hold.
    pub(crate) fn plus(&self, other: &Count) -> (r: Count)
        requires
            self@ + other@ < count_limit(),
        ensures
            r@ == self@ + other@,
    {
        match wide_add(self, other) {
            Some(sum) => sum,
            None => unreached(),
        }
    }

    /// The difference, which is not negative.
    pub(crate) fn minus(&self, other: &Count) -> (r: Count)
        requires
            other@ <= self@,
        ensures
            r@ == self@ - other@,
    {
        match wide_sub(self, other) {
            Some(difference) => difference,
            None => unreached(),
        }
    }

    /// The product, which a count can hold.
    pub(crate) fn times(&self, other: &Count) -> (r: Count)
        requires
            self@ * other@ < count_limit(),
        ensures
            r@ == self@ * other@,
    {
        match wide_mul(self, other) {
            Some(product) => product,
            None => unreached(),
        }
    }

    /// The value as a `usize`, which can hold it.
    pub(crate) fn as_index(&self) -> (r: usize)
        requires
            self@ <= usize::MAX,
        ensures
            r == self@,
    {
        self.lo as usize
    }

    /// The value as a `usize`, where it is below `bound`.
    pub fn to_index(&self, bound: usize) -> (r: Option<usize>)
        ensures
            r is Some <==> self@ < bound,
            r matches Some(i) ==> i == self@,
    {
        if self.hi == 0 && self.lo < bound as u128 {
            Some(self.lo as usize)
        } else {
            None
        }
    }
}

/// `crypto_bigint::CheckedAdd::checked_add` on `U256`: the sum of the two
/// values, or nothing where the sum needs more than 256 bits.
#[verifier::external_body]
pub(crate) fn wide_add(a: &Count, b: &Count) -> (r: Option<Count>)
    ensures
        r is Some <==> a@ + b@ < count_limit(),
        r matches Some(s) ==> s@ == a@ + b@,
{
    let x: U256 = U128::from_u128(a.lo).concat(&U128::from_u128(a.hi));
    let y: U256 = U128::from_u128(b.lo).concat(&U128::from_u128(b.hi));
    match Option::<U256>::from(x.checked_add(&y)) {
        Some(s) => {
            let (lo, hi) = s.split();
            Some(Count { hi: u128::from(hi), lo: u128::from(lo) })
        },
        None => None,
    }
}

/// `crypto_bigint::CheckedSub::checked_sub` on `U256`: the first value less
/// the second, or nothing where the second is the greater.
#[verifier::external_body]
pub(crate) fn wide_sub(a: &Count, b: &Count) -> (r: Option<Count>)
    ensures
        r is Some <==> b@ <= a@,
        r matches Some(d) ==> d@ == a@ - b@,
{
    let x: U256 = U128::from_u128(a.lo).concat(&U128::from_u128(a.hi));
    let y: U256 = U128::from_u128(b.lo).concat(&U128::from_u128(b.hi));
    match Option::<U256>::from(x.checked_sub(&y)) {
        Some(d) => {
            let (lo, hi) = d.split();
            Some(Count { hi: u128::from(hi), lo: u128::from(lo) })
        },
        None => None,
    }
}

/// `crypto_bigint::CheckedMul::checked_mul` on `U256`: the product of the two
/// values, or nothing where the product needs more than 256 bits.
#[verifier::external_body]
pub(crate) fn wide_mul(a: &Count, b: &Count) -> (r: Option<Count>)
    ensures
        r is Some <==> a@ * b@ < count_limit(),
        r matches Some(p) ==> p@ == a@ * b@,
{
    let x: U256 = U128::from_u128(a.lo).concat(&U128::from_u128(a.hi));
    let y: U256 = U128::from_u128(b.lo).concat(&U128::from_u128(b.hi));
    match Option::<U256>::from(x.checked_mul(&y)) {
        Some(p) => {
            let (lo, hi) = p.split();
            Some(Count { hi: u128::from(hi), lo: u128::from(lo) })
        },
        None => None,
    }
}

/// `crypto_bigint::Uint::div_rem` on `U256`: the quotient and the remainder
/// of the division of the first value by the second, which is not zero.
#[verifier::external_body]
pub(crate) fn wide_div_rem(a: &Count, b: &Count) -> (r: (Count, Count))
    requires
        b@ != 0,
    ensures
        r.0@ == a@ / b@,
        r.1@ == a@ % b@,
{
    let x: U256 = U128::from_u128(a.lo).concat(&U128::from_u128(a.hi));
    let y: U256 = U128::from_u128(b.lo).concat(&U128::from_u128(b.hi));
    let (q, m) = x.div_rem(&NonZero::new(y).unwrap());
    let (q_lo, q_hi) = q.split();
    let (m_lo, m_hi) = m.split();
    (
        Count { hi: u128::from(q_hi), lo: u128::from(q_lo) },
        Count { hi: u128::from(m_hi), lo: u128::from(m_lo) },
    )
}

} // verus!
