//! Divisibility and primality over the natural numbers, and the ascending
//! list of the primes of an interval. Everything here is ghost code; the
//! oracle and the generators state their results in these terms.

use vstd::arithmetic::div_mod::{
    lemma_fundamental_div_mod, lemma_mod_multiples_basic, lemma_mod_self_0,
};
use vstd::prelude::*;

verus! {

/// `d` divides `n`. Zero divides only zero.
pub open spec fn divides(d: nat, n: nat) -> bool {
    if d == 0 {
        n == 0
    } else {
        n % d == 0
    }
}

/// `n` is a prime number: at least 2, and divisible by nothing strictly
/// between 1 and itself.
pub open spec fn prime(n: nat) -> bool {
    &&& 2 <= n
    &&& forall|d: nat| 1 < d < n ==> !#[trigger] divides(d, n)
}

/// The elements grow strictly from left to right.
pub open spec fn ascending(s: Seq<u32>) -> bool {
    forall|i: int, j: int| 0 <= i < j < s.len() ==> s[i] < s[j]
}

/// Every element is a prime number.
pub open spec fn all_prime(s: Seq<u32>) -> bool {
    forall|i: int| 0 <= i < s.len() ==> prime(#[trigger] s[i] as nat)
}

/// The number `p` occurs in `s`.
pub open spec fn holds(s: Seq<u32>, p: nat) -> bool {
    exists|i: int| 0 <= i < s.len() && #[trigger] s[i] == p
}

/// The primes `p` with `lo <= p < hi`, in ascending order.
pub open spec fn primes_between(lo: nat, hi: nat) -> Seq<u32>
    decreases hi,
{
    if hi <= lo {
        Seq::empty()
    } else if prime((hi - 1) as nat) {
        primes_between(lo, (hi - 1) as nat).push((hi - 1) as u32)
    } else {
        primes_between(lo, (hi - 1) as nat)
    }
}

/// Divisibility is transitive.
pub proof fn lemma_divides_transitive(a: nat, b: nat, c: nat)
    requires
        a > 0,
        b > 0,
        divides(a, b),
        divides(b, c),
    ensures
        divides(a, c),
{
    let k = b / a;
    let m = c / b;
    lemma_fundamental_div_mod(b as int, a as int);
    lemma_fundamental_div_mod(c as int, b as int);
    assert(c == (m * k) * a) by (nonlinear_arith)
        requires
            b == a * k,
            c == b * m,
    ;
    lemma_mod_multiples_basic((m * k) as int, a as int);
}

/// A number with a divisor `d` strictly between 1 and itself is `d` times
/// a cofactor that lies strictly between 1 and the number and divides it
/// too.
proof fn lemma_cofactor(d: nat, n: nat)
    requires
        1 < d < n,
        divides(d, n),
    ensures
        1 < n / d < n,
        n == d * (n / d),
        divides(n / d, n),
{
    let q = n / d;
    lemma_fundamental_div_mod(n as int, d as int);
    assert(n == d * q);
    assert(1 < q < n) by (nonlinear_arith)
        requires
            n == d * q,
            1 < d < n,
    ;
    assert(n == d * q ==> n == q * d) by (nonlinear_arith);
    lemma_mod_multiples_basic(d as int, q as int);
}

/// Every number from 2 on has a prime factor, and a composite one has a
/// prime factor whose square does not exceed it.
pub proof fn lemma_prime_factor(n: nat)
    requires
        2 <= n,
    ensures
        exists|p: nat|
            prime(p) && #[trigger] divides(p, n) && p <= n && (prime(n) || p * p <= n),
    decreases n,
{
    if prime(n) {
        lemma_mod_self_0(n as int);
        assert(divides(n, n));
    } else {
        let d = choose|d: nat| 1 < d < n && divides(d, n);
        let q = n / d;
        lemma_cofactor(d, n);
        let m = if d <= q {
            d
        } else {
            q
        };
        lemma_prime_factor(m);
        let p = choose|p: nat|
            prime(p) && #[trigger] divides(p, m) && p <= m && (prime(m) || p * p <= m);
        lemma_divides_transitive(p, m, n);
        assert(p * p <= n) by (nonlinear_arith)
            requires
                p <= m,
                m <= d,
                m <= q,
                n == d * q,
        ;
        assert(divides(p, n));
    }
}

/// A prime larger than 2 is odd.
pub proof fn lemma_prime_above_two_is_odd(p: nat)
    requires
        prime(p),
        p > 2,
    ensures
        p % 2 == 1,
{
    if p % 2 == 0 {
        assert(divides(2, p));
    }
}

/// The first primes, and the first composite numbers.
pub proof fn lemma_small_primes()
    ensures
        !prime(0),
        !prime(1),
        prime(2),
        prime(3),
        !prime(4),
{
    assert(divides(2, 4));
    assert forall|d: nat| 1 < d < 3 implies !#[trigger] divides(d, 3) by {
        assert(d == 2);
    }
}

/// What `primes_between` holds: exactly the primes of the interval, each
/// once, in ascending order.
pub proof fn lemma_primes_between(lo: nat, hi: nat)
    requires
        hi <= 0x1_0000_0000,
    ensures
        ascending(primes_between(lo, hi)),
        all_prime(primes_between(lo, hi)),
        forall|i: int|
            0 <= i < primes_between(lo, hi).len() ==> lo <= #[trigger] primes_between(lo, hi)[i]
                < hi,
        forall|p: nat| lo <= p < hi && prime(p) ==> holds(primes_between(lo, hi), p),
    decreases hi,
{
    let s = primes_between(lo, hi);
    if hi <= lo {
    } else {
        let rest = primes_between(lo, (hi - 1) as nat);
        lemma_primes_between(lo, (hi - 1) as nat);
        assert forall|p: nat| lo <= p < hi && prime(p) implies holds(s, p) by {
            if p == hi - 1 {
                assert(s[s.len() - 1] == p);
            } else {
                let i = choose|i: int| 0 <= i < rest.len() && #[trigger] rest[i] == p;
                assert(s[i] == p);
            }
        }
    }
}

/// An interval's primes are those of its lower part followed by those of
/// its upper part.
pub proof fn lemma_primes_between_split(lo: nat, mid: nat, hi: nat)
    requires
        lo <= mid <= hi,
    ensures
        primes_between(lo, hi) == primes_between(lo, mid) + primes_between(mid, hi),
    decreases hi,
{
    if hi == mid {
        assert(primes_between(mid, hi) =~= Seq::<u32>::empty());
        assert(primes_between(lo, mid) + Seq::<u32>::empty() =~= primes_between(lo, mid));
    } else {
        lemma_primes_between_split(lo, mid, (hi - 1) as nat);
        let a = primes_between(lo, mid);
        let b = primes_between(mid, (hi - 1) as nat);
        if prime((hi - 1) as nat) {
            assert((a + b).push((hi - 1) as u32) =~= a + b.push((hi - 1) as u32));
        }
    }
}

/// An interval without primes has the empty list.
pub proof fn lemma_primes_between_none(lo: nat, hi: nat)
    requires
        forall|p: nat| lo <= p < hi ==> !prime(p),
    ensures
        primes_between(lo, hi) == Seq::<u32>::empty(),
    decreases hi,
{
    if hi > lo {
        lemma_primes_between_none(lo, (hi - 1) as nat);
    }
}

/// Moving the lower end over numbers that are not prime changes nothing.
pub proof fn lemma_primes_between_skip(lo: nat, from: nat, hi: nat)
    requires
        lo <= from,
        forall|p: nat| lo <= p < from ==> !prime(p),
    ensures
        primes_between(lo, hi) == primes_between(from, hi),
{
    if from <= hi {
        lemma_primes_between_split(lo, from, hi);
        lemma_primes_between_none(lo, from);
        assert(Seq::<u32>::empty() + primes_between(from, hi) =~= primes_between(from, hi));
    } else {
        lemma_primes_between_none(lo, hi);
        lemma_primes_between_none(from, hi);
    }
}

/// An ascending list that holds exactly the primes of an interval is the
/// list of the primes of that interval.
pub proof fn lemma_ascending_primes_unique(s: Seq<u32>, lo: nat, hi: nat)
    requires
        hi <= 0x1_0000_0000,
        ascending(s),
        forall|i: int| 0 <= i < s.len() ==> lo <= #[trigger] s[i] < hi && prime(s[i] as nat),
        forall|p: nat| lo <= p < hi && prime(p) ==> holds(s, p),
    ensures
        s == primes_between(lo, hi),
    decreases hi,
{
    if hi <= lo {
        if s.len() > 0 {
            assert(lo <= s[0] < hi);
        }
        assert(s =~= Seq::<u32>::empty());
    } else {
        let top = (hi - 1) as nat;
        if prime(top) {
            let k = choose|k: int| 0 <= k < s.len() && #[trigger] s[k] == top;
            if k < s.len() - 1 {
                assert(s[k] < s[s.len() - 1]);
                assert(lo <= s[s.len() - 1] < hi);
            }
            let rest = s.drop_last();
            assert forall|p: nat| lo <= p < top && prime(p) implies holds(rest, p) by {
                let i = choose|i: int| 0 <= i < s.len() && #[trigger] s[i] == p;
                assert(rest[i] == p);
            }
            assert forall|i: int| 0 <= i < rest.len() implies lo <= #[trigger] rest[i] < top
                && prime(rest[i] as nat) by {
                assert(s[i] < s[s.len() - 1]);
            }
            lemma_ascending_primes_unique(rest, lo, top);
            assert(s =~= rest.push(top as u32));
        } else {
            assert forall|i: int| 0 <= i < s.len() implies lo <= #[trigger] s[i] < top && prime(
                s[i] as nat,
            ) by {}
            lemma_ascending_primes_unique(s, lo, top);
        }
    }
}

} // verus!
