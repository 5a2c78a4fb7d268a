//! Exact rational scores.
//!
//! A relevance score is the fraction of a query's terms that a document
//! contains. It is kept as an exact rational `num / den` so that filtering
//! and ordering are exact; a consumer that wants a floating-point value can
//! divide the two fields itself.

use vstd::prelude::*;

verus! {

/// A non-negative rational number `num / den`. Meaningful comparisons
/// require `den > 0`.
#[derive(Clone, Copy, Debug, PartialEq, Eq, Structural)]
pub struct Score {
    pub num: u64,
    pub den: u64,
}

proof fn lemma_u64_product_fits(a: u64, b: u64)
    ensures
        a * b <= u128::MAX,
{
    assert(a * b <= (u64::MAX as int) * (u64::MAX as int)) by (nonlinear_arith)
        requires
            a <= u64::MAX,
            b <= u64::MAX,
    ;
}

impl Score {
    /// `self >= other` as rationals, by cross multiplication.
    pub open spec fn spec_ge(self, other: Score) -> bool {
        self.num * other.den >= other.num * self.den
    }

    /// Exact comparison `self >= other`; the products are taken in 128 bits,
    /// so they cannot overflow.
    pub fn ge(&self, other: &Score) -> (r: bool)
        ensures
            r == self.spec_ge(*other),
    {
        proof {
            lemma_u64_product_fits(self.num, other.den);
            lemma_u64_product_fits(other.num, self.den);
        }
        let lhs: u128 = (self.num as u128) * (other.den as u128);
        let rhs: u128 = (other.num as u128) * (self.den as u128);
        lhs >= rhs
    }
}

} // verus!
