//! The data-parallel steps, run by `rayon`. Each function here hands one
//! parallel iterator chain to `rayon` and carries a contract that is taken
//! from that crate's documentation and source, not proved. The closures
//! they pass only call the verified oracle.

use crate::calculator::{divisible, is_prime, is_prime_nobound, passes, passes_all};
use crate::primality::{ascending, divides, holds};
use rayon::iter::{
    IndexedParallelIterator, IntoParallelIterator, IntoParallelRefIterator, ParallelIterator,
};
use vstd::prelude::*;

verus! {

/// `c` is one of `start`, `start + 2`, `start + 4`, ... below `until`.
pub open spec fn stepped(start: u32, until: u32, c: u32) -> bool {
    start <= c < until && (c - start) % 2 == 0
}

/// `par_iter().any(..)` over a slice of divisors: whether some element
/// divides `n`. `any` answers true exactly if the predicate holds of some
/// item; which item it meets first is not determined and does not show in
/// the answer.
#[verifier::external_body]
pub(crate) fn any_divides(divisors: &[u32], n: u32) -> (r: bool)
    ensures
        r == (exists|i: int|
            0 <= i < divisors@.len() && divides(#[trigger] divisors@[i] as nat, n as nat)),
{
    divisors.par_iter().any(|d| divisible(n, *d))
}

/// `(start..until).into_par_iter().step_by(2).filter(..).collect()` with
/// the oracle `is_prime` over `known` as the filter: every second number
/// from `start` below `until` that passes, collected into a vector.
/// `filter` keeps exactly the items of which the predicate holds, and
/// collecting into a `Vec` keeps the order of the range, so the result is
/// ascending.
#[verifier::external_body]
pub(crate) fn filter_stepped(start: u32, until: u32, known: &[u32]) -> (r: Vec<u32>)
    requires
        ascending(known@),
    ensures
        ascending(r@),
        forall|c: u32|
            #![trigger holds(r@, c as nat)]
            #![trigger stepped(start, until, c)]
            holds(r@, c as nat) <==> (stepped(start, until, c) && passes(c, known@)),
{
    (start..until).into_par_iter().step_by(2).filter(|n| is_prime(*n, known)).collect()
}

/// The same chain as `filter_stepped` with `is_prime_nobound` over
/// `divisors` as the filter, so that no square root is taken per number.
#[verifier::external_body]
pub(crate) fn filter_stepped_nobound(start: u32, until: u32, divisors: &[u32]) -> (r: Vec<u32>)
    ensures
        ascending(r@),
        forall|c: u32|
            #![trigger holds(r@, c as nat)]
            #![trigger stepped(start, until, c)]
            holds(r@, c as nat) <==> (stepped(start, until, c) && passes_all(c, divisors@)),
{
    (start..until).into_par_iter().step_by(2).filter(|n| is_prime_nobound(*n, divisors)).collect()
}

} // verus!
