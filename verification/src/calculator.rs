//! The primality oracle: trial division of one number by the known primes
//! up to its square root, sequentially or in parallel.

use crate::integer::{is_multiple_of, sqrt};
use crate::parallel::any_divides;
use crate::primality::{all_prime, ascending, divides, holds, lemma_prime_factor, prime};
use vstd::prelude::*;
use vstd::slice::slice_subrange;

verus! {

/// `n` is at least 2 and no element of `divisors` divides it.
pub open spec fn passes_all(n: u32, divisors: Seq<u32>) -> bool {
    &&& 2 <= n
    &&& forall|i: int| 0 <= i < divisors.len() ==> !divides(#[trigger] divisors[i] as nat, n as nat)
}

/// `n` is at least 2 and no element of `known` whose square is at most `n`
/// divides it.
pub open spec fn passes(n: u32, known: Seq<u32>) -> bool {
    &&& 2 <= n
    &&& forall|i: int|
        0 <= i < known.len() && known[i] * known[i] <= n ==> !divides(
            #[trigger] known[i] as nat,
            n as nat,
        )
}

/// `known` holds every prime whose square is at most `n`.
pub open spec fn sqrt_complete(known: Seq<u32>, n: nat) -> bool {
    forall|p: nat| prime(p) && p * p <= n ==> holds(known, p)
}

/// Division by the elements of `divisors` decides whether `n` is prime:
/// each of them lies strictly between 1 and `n`, and every prime factor of
/// `n` whose square is at most `n` is among them.
pub open spec fn decisive(divisors: Seq<u32>, n: u32) -> bool {
    &&& forall|i: int| 0 <= i < divisors.len() ==> 1 < #[trigger] divisors[i] < n
    &&& forall|p: nat| prime(p) && p * p <= n && divides(p, n as nat) ==> holds(divisors, p)
}

/// Trial division by decisive divisors decides primality.
pub proof fn lemma_trial_division(n: u32, divisors: Seq<u32>)
    requires
        decisive(divisors, n),
    ensures
        passes_all(n, divisors) == prime(n as nat),
{
    if n >= 2 && !prime(n as nat) {
        lemma_prime_factor(n as nat);
        let p = choose|p: nat|
            prime(p) && #[trigger] divides(p, n as nat) && p <= n && (prime(n as nat) || p * p
                <= n);
        let i = choose|i: int| 0 <= i < divisors.len() && #[trigger] divisors[i] == p;
        assert(divides(divisors[i] as nat, n as nat));
    }
}

/// A number from 2 on whose square is at most `n` is less than `n`.
proof fn lemma_square_root_is_less(e: u32, n: u32)
    requires
        2 <= e,
        e * e <= n,
    ensures
        e < n,
{
    assert(e < n) by (nonlinear_arith)
        requires
            2 <= e,
            e * e <= n,
    ;
}

/// With `s` the truncated square root of `n`, a square is at most `n`
/// exactly if its root is at most `s`.
proof fn lemma_square_order(e: u32, s: u32, n: u32)
    requires
        s * s <= n < (s + 1) * (s + 1),
    ensures
        e <= s <==> e * e <= n,
{
    if e <= s {
        assert(e * e <= s * s) by (nonlinear_arith)
            requires
                e <= s,
        ;
    } else {
        assert((s + 1) * (s + 1) <= e * e) by (nonlinear_arith)
            requires
                s + 1 <= e,
        ;
    }
}

/// `<[u32]>::binary_search`, on an ascending slice. The contract restates
/// the documentation: `Ok` holds the index of the element equal to `x`;
/// `Err` holds the index at which `x` could be inserted and the slice stay
/// sorted, so that everything before it is smaller and everything from it
/// on is larger.
#[verifier::external_body]
fn binary_search(s: &[u32], x: u32) -> (r: Result<usize, usize>)
    requires
        ascending(s@),
    ensures
        match r {
            Ok(i) => i < s@.len() && s@[i as int] == x,
            Err(i) => {
                &&& i <= s@.len()
                &&& forall|j: int| 0 <= j < i ==> s@[j] < x
                &&& forall|j: int| i <= j < s@.len() ==> s@[j] > x
            },
        },
{
    s.binary_search(&x)
}

/// The number of leading elements of `known_primes` that trial division of
/// `n` has to try: the index one past the largest element that is at most
/// the square root of `n`.
pub fn last_index(n: &u32, known_primes: &[u32]) -> (r: usize)
    requires
        ascending(known_primes@),
    ensures
        r <= known_primes@.len(),
        forall|i: int| 0 <= i < r ==> known_primes@[i] * known_primes@[i] <= *n,
        forall|i: int| r <= i < known_primes@.len() ==> known_primes@[i] * known_primes@[i] > *n,
{
    let root = sqrt(*n);
    let len = known_primes.len();
    let r = match binary_search(known_primes, root) {
        Ok(i) => {
            assert(i < len);
            i + 1
        },
        Err(i) => i,
    };
    proof {
        assert forall|i: int| 0 <= i < known_primes@.len() implies (i < r <==> known_primes@[i]
            * known_primes@[i] <= *n) by {
            lemma_square_order(known_primes@[i], root, *n);
        }
    }
    r
}

/// Whether `d` divides `n`.
pub fn divisible(n: u32, d: u32) -> (r: bool)
    ensures
        r == divides(d as nat, n as nat),
{
    is_multiple_of(n, d)
}

/// Whether some element of `divisors` divides `n`, stopping at the first
/// that does.
fn some_divides(divisors: &[u32], n: u32) -> (r: bool)
    ensures
        r == exists|i: int|
            0 <= i < divisors@.len() && divides(#[trigger] divisors@[i] as nat, n as nat),
{
    let mut k: usize = 0;
    while k < divisors.len()
        invariant
            k <= divisors@.len(),
            forall|i: int| 0 <= i < k ==> !divides(#[trigger] divisors@[i] as nat, n as nat),
        decreases divisors@.len() - k,
    {
        if divisible(n, divisors[k]) {
            return true;
        }
        k += 1;
    }
    false
}

/// Trial division by the elements of `known` up to the square root of `n`
/// decides primality when `known` is a list of primes that holds every
/// prime factor of `n` whose square is at most `n`.
pub proof fn lemma_passes_decides(n: u32, known: Seq<u32>)
    requires
        all_prime(known),
        forall|p: nat| prime(p) && p * p <= n && divides(p, n as nat) ==> holds(known, p),
    ensures
        passes(n, known) == prime(n as nat),
{
    if n >= 2 && !prime(n as nat) {
        lemma_prime_factor(n as nat);
        let p = choose|p: nat|
            prime(p) && #[trigger] divides(p, n as nat) && p <= n && (prime(n as nat) || p * p
                <= n);
        let i = choose|i: int| 0 <= i < known.len() && #[trigger] known[i] == p;
        assert(divides(known[i] as nat, n as nat));
    }
    if prime(n as nat) {
        assert forall|i: int| 0 <= i < known.len() && known[i] * known[i] <= n implies !divides(
            #[trigger] known[i] as nat,
            n as nat,
        ) by {
            assert(prime(known[i] as nat));
            lemma_square_root_is_less(known[i], n);
        }
    }
}

/// Trial division by the leading elements of `known`, those whose square
/// is at most `n`, is trial division by the elements of `known` up to the
/// square root of `n`.
proof fn lemma_leading_elements(n: u32, known: Seq<u32>, last: int)
    requires
        0 <= last <= known.len(),
        forall|i: int| 0 <= i < last ==> known[i] * known[i] <= n,
        forall|i: int| last <= i < known.len() ==> known[i] * known[i] > n,
    ensures
        passes_all(n, known.subrange(0, last)) == passes(n, known),
{
    let tried = known.subrange(0, last);
    if passes_all(n, tried) {
        assert forall|i: int| 0 <= i < known.len() && known[i] * known[i] <= n implies !divides(
            #[trigger] known[i] as nat,
            n as nat,
        ) by {
            assert(tried[i] == known[i]);
        }
    }
    if passes(n, known) {
        assert forall|i: int| 0 <= i < tried.len() implies !divides(
            #[trigger] tried[i] as nat,
            n as nat,
        ) by {
            assert(tried[i] == known[i]);
        }
    }
}

/// Decides whether `n` is prime by dividing it by the elements of
/// `known_primes` up to its square root, one after the other, until one
/// divides it. 0 and 1 are not prime.
///
/// The answer is that of trial division whatever the list holds; it is
/// whether `n` is prime when the list is one of primes and holds every
/// prime up to the square root of `n`.
pub fn is_prime(n: u32, known_primes: &[u32]) -> (r: bool)
    requires
        ascending(known_primes@),
    ensures
        r == passes(n, known_primes@),
        all_prime(known_primes@) && sqrt_complete(known_primes@, n as nat) ==> r == prime(
            n as nat,
        ),
{
    if n == 0 || n == 1 {
        return false;
    }
    let last_i = last_index(&n, known_primes);
    proof {
        lemma_leading_elements(n, known_primes@, last_i as int);
        if all_prime(known_primes@) && sqrt_complete(known_primes@, n as nat) {
            lemma_passes_decides(n, known_primes@);
        }
    }
    !some_divides(slice_subrange(known_primes, 0, last_i), n)
}

/// Decides whether `n` is prime as `is_prime` does, with the divisions
/// spread over the worker threads. Which divisor is met first is not
/// determined; the answer is.
pub fn par_is_prime(n: u32, known_primes: &[u32]) -> (r: bool)
    requires
        ascending(known_primes@),
    ensures
        r == passes(n, known_primes@),
        all_prime(known_primes@) && sqrt_complete(known_primes@, n as nat) ==> r == prime(
            n as nat,
        ),
{
    if n == 0 || n == 1 {
        return false;
    }
    let last_i = last_index(&n, known_primes);
    proof {
        lemma_leading_elements(n, known_primes@, last_i as int);
        if all_prime(known_primes@) && sqrt_complete(known_primes@, n as nat) {
            lemma_passes_decides(n, known_primes@);
        }
    }
    !any_divides(slice_subrange(known_primes, 0, last_i), n)
}

/// Decides whether `n` is prime by dividing it by every element of
/// `divisors`, without looking for the square root: the caller hands in the
/// leading part of the known primes that is to be tried. 0 and 1 are not
/// prime.
///
/// The answer is that of the divisions whatever the divisors are; it is
/// whether `n` is prime when they are decisive.
pub fn is_prime_nobound(n: u32, divisors: &[u32]) -> (r: bool)
    ensures
        r == passes_all(n, divisors@),
        decisive(divisors@, n) ==> r == prime(n as nat),
{
    proof {
        if decisive(divisors@, n) {
            lemma_trial_division(n, divisors@);
        }
    }
    if n == 0 || n == 1 {
        return false;
    }
    !some_divides(divisors, n)
}

/// Decides as `is_prime_nobound` does, with the divisions spread over the
/// worker threads.
pub fn par_is_prime_nobound(n: u32, divisors: &[u32]) -> (r: bool)
    ensures
        r == passes_all(n, divisors@),
        decisive(divisors@, n) ==> r == prime(n as nat),
{
    proof {
        if decisive(divisors@, n) {
            lemma_trial_division(n, divisors@);
        }
    }
    if n == 0 || n == 1 {
        return false;
    }
    !any_divides(divisors, n)
}

} // verus!
