//! The integer operations that the oracle takes from the `num` crate, for
//! `u32`. Each function here calls `num` and carries a contract that is
//! taken from that crate's documentation and source, not proved.

use crate::primality::divides;
use vstd::prelude::*;

verus! {

/// `num::integer::Roots::sqrt` on `u32`: the truncated square root. The
/// contract restates what the method documents, that the result `r`
/// satisfies `r * r <= n < (r + 1) * (r + 1)`.
#[verifier::external_body]
pub(crate) fn sqrt(n: u32) -> (r: u32)
    ensures
        r * r <= n < (r + 1) * (r + 1),
{
    num::integer::Roots::sqrt(&n)
}

/// `num::Integer::is_multiple_of` on `u32`: whether `d` divides `n`. For
/// `d == 0` the method answers whether `n` is zero, and otherwise whether
/// the remainder of `n` by `d` is zero, which is what `divides` says.
#[verifier::external_body]
pub(crate) fn is_multiple_of(n: u32, d: u32) -> (r: bool)
    ensures
        r == divides(d as nat, n as nat),
{
    num::Integer::is_multiple_of(&n, &d)
}

/// `num::Integer::is_even` on `u32`: whether the remainder by 2 is zero.
#[verifier::external_body]
pub(crate) fn is_even(n: u32) -> (r: bool)
    ensures
        r == (n % 2 == 0),
{
    num::Integer::is_even(&n)
}

} // verus!
