//! Hash codes: one bit for each hyperplane of a basis, set where the vector
//! lies on the hyperplane's positive side.

use crate::error::SearchError;
use vstd::arithmetic::power2::{
    lemma2_to64, lemma2_to64_rest, lemma_pow2_strictly_increases, lemma_pow2_unfold, pow2,
};
use vstd::prelude::*;

verus! {

/// The most hyperplanes that a basis can have, so that a code fits in 64 bits.
pub const MAX_CODE_BITS: usize = 64;

/// The number whose bit `i` is `sides[i]`, for the first `m` sides.
pub open spec fn code_of(sides: Seq<bool>, m: nat) -> nat
    decreases m,
{
    if m == 0 {
        0
    } else {
        code_of(sides, (m - 1) as nat) + if sides[m - 1] {
            pow2((m - 1) as nat)
        } else {
            0
        }
    }
}

/// `m` sides make a code below two to the `m`.
pub proof fn lemma_code_bound(sides: Seq<bool>, m: nat)
    ensures
        code_of(sides, m) < pow2(m),
    decreases m,
{
    if m > 0 {
        lemma_code_bound(sides, (m - 1) as nat);
        lemma_pow2_unfold(m);
    } else {
        lemma2_to64();
    }
}

/// Checks the length of a vector against the dimensionality `dims`.
pub fn check_dimension(dims: usize, len: usize) -> (r: Result<(), SearchError>)
    ensures
        r == if len == dims {
            Ok::<(), SearchError>(())
        } else {
            Err::<(), SearchError>(SearchError::DimensionMismatch { expected: dims, found: len })
        },
{
    if len == dims {
        Ok(())
    } else {
        Err(SearchError::DimensionMismatch { expected: dims, found: len })
    }
}

/// The hash code of a vector from the sides on which it lies: `sides[i]` says
/// whether its dot product with hyperplane `i` is zero or more.
pub fn pack_code(sides: &Vec<bool>) -> (code: u64)
    requires
        sides@.len() <= MAX_CODE_BITS,
    ensures
        code == code_of(sides@, sides@.len()),
{
    let mut code: u64 = 0;
    let mut weight: u64 = 1;
    let mut m: usize = 0;
    proof {
        lemma2_to64();
    }
    while m < sides.len()
        invariant
            m <= sides@.len(),
            sides@.len() <= MAX_CODE_BITS,
            m < sides@.len() ==> weight == pow2(m as nat),
            code == code_of(sides@, m as nat),
        decreases sides@.len() - m,
    {
        proof {
            lemma_code_bound(sides@, m as nat);
            lemma2_to64_rest();
            if m < 63 {
                lemma_pow2_strictly_increases(m as nat, 63);
            }
            lemma_pow2_unfold((m + 1) as nat);
            lemma_pow2_unfold(64);
        }
        if sides[m] {
            code = code + weight;
        }
        if m + 1 < sides.len() {
            weight = weight * 2;
        }
        m = m + 1;
    }
    code
}

} // verus!
