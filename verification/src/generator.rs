//! The generators: they extend a list of known primes up to a bound, one
//! candidate at a time, with one wide parallel filter, or chunk by chunk.

use crate::calculator::{
    is_prime, last_index, lemma_passes_decides, lemma_trial_division, passes, passes_all,
};
use crate::integer::{is_even, sqrt};
use crate::known_primes::{
    added, answered, basic_primes, can_ask, can_report, can_tell, chunk_bounds, chunk_end,
    chunk_primes, chunk_start, chunked, extended, first_candidate, generated, has_chunk,
    last_or_zero, lemma_chunk_starts, lemma_chunked_step, lemma_extended_resumable,
    lemma_resumable_below, lemma_seeded_from_primes, ran_chunks, resumable,
};
use crate::parallel::{filter_stepped, filter_stepped_nobound, stepped};
use crate::primality::{
    all_prime, ascending, divides, holds, lemma_ascending_primes_unique,
    lemma_prime_above_two_is_odd, lemma_primes_between, lemma_primes_between_skip,
    lemma_primes_between_split, prime, primes_between,
};
use vstd::prelude::*;
use vstd::slice::slice_subrange;

verus! {

/// Makes room in `known_primes` for `estimate` primes in all, and returns
/// for how many further elements it asked the allocator: what the estimate
/// has beyond the length of the list, and nothing where it has no more.
/// The estimate is a hint for the allocation and nothing else: whatever it
/// is, too small or too large, the list holds what it held, and so the
/// generators return what they return without it.
pub fn reserve_estimated(known_primes: &mut Vec<u32>, estimate: usize) -> (additional: usize)
    ensures
        final(known_primes)@ == old(known_primes)@,
        additional == if estimate > old(known_primes)@.len() {
            estimate - old(known_primes)@.len()
        } else {
            0
        },
{
    let len = known_primes.len();
    let additional = if estimate > len {
        estimate - len
    } else {
        0
    };
    known_primes.reserve(additional);
    additional
}

/// The next odd number: `n` itself if it is odd.
fn oddize(n: u32) -> (r: u32)
    requires
        n < u32::MAX,
    ensures
        r % 2 == 1,
        n <= r <= n + 1,
{
    if is_even(n) {
        n + 1
    } else {
        n
    }
}

/// Makes sure that a list of fewer than two elements gets 2 and 3, as far
/// as they are below `until`, and reports each one added to `found`.
fn get_basic_primes<F: FnMut(u32)>(known_primes: &mut Vec<u32>, until: u32, found: &mut F)
    requires
        can_report(*old(found), basic_primes(old(known_primes)@.len(), until)),
    ensures
        final(known_primes)@ == old(known_primes)@ + basic_primes(old(known_primes)@.len(), until),
        *final(found) == *old(found),
{
    let len = known_primes.len();
    let ghost basic = basic_primes(len as nat, until);
    if len < 1 && 2 < until {
        known_primes.push(2);
        assert(basic[0] == 2);
        found(2);
    }
    if len < 2 && 3 < until {
        known_primes.push(3);
        assert(basic[basic.len() - 1] == 3);
        found(3);
    }
    assert(known_primes@ =~= old(known_primes)@ + basic);
}

/// The first odd candidate: the odd number at or after `start_from`, after
/// the last known prime and not before 3.
fn first_odd_candidate(known_primes: &Vec<u32>, start_from: u32) -> (r: u32)
    requires
        all_prime(known_primes@),
    ensures
        r % 2 == 1,
        first_candidate(known_primes@, start_from) <= r,
        forall|p: nat| first_candidate(known_primes@, start_from) <= p < r ==> !prime(p),
{
    let len = known_primes.len();
    let after: u32 = if len == 0 {
        1
    } else {
        proof {
            // The largest `u32` is a multiple of 3, so no known prime.
            assert(prime(known_primes@[len - 1] as nat));
            assert(divides(3, u32::MAX as nat));
        }
        known_primes[len - 1] + 1
    };
    let from: u32 = if start_from >= after {
        start_from
    } else {
        after
    };
    let from: u32 = if from >= 3 {
        from
    } else {
        3
    };
    if from == u32::MAX {
        return from;
    }
    let r = oddize(from);
    proof {
        if r > from {
            assert(divides(2, from as nat));
        }
    }
    r
}

/// Tests the odd numbers from `from` below `until` one after the other,
/// appends each prime to the list, which the next tests then use, and
/// reports it to `found`.
fn scan<F: FnMut(u32)>(known_primes: &mut Vec<u32>, from: u32, until: u32, found: &mut F)
    requires
        from % 2 == 1,
        from >= 3,
        ascending(old(known_primes)@),
        all_prime(old(known_primes)@),
        last_or_zero(old(known_primes)@) < from,
        forall|p: nat|
            prime(p) && 2 < p < from && p * p < until ==> holds(old(known_primes)@, p),
        forall|p: u32| from <= p < until && prime(p as nat) ==> call_requires(*old(found), (p,)),
    ensures
        final(known_primes)@ == old(known_primes)@ + primes_between(from as nat, until as nat),
        *final(found) == *old(found),
{
    let mut n = from;
    proof {
        if from < until {
            assert(primes_between(from as nat, from as nat) =~= Seq::<u32>::empty());
        } else {
            lemma_primes_between(from as nat, until as nat);
            assert(primes_between(from as nat, until as nat) =~= Seq::<u32>::empty());
        }
        assert(known_primes@ + Seq::<u32>::empty() =~= known_primes@);
    }
    while n < until
        invariant
            n % 2 == 1,
            3 <= from <= n,
            ascending(known_primes@),
            all_prime(known_primes@),
            last_or_zero(known_primes@) < n,
            forall|p: nat| prime(p) && 2 < p < n && p * p < until ==> holds(known_primes@, p),
            known_primes@ == old(known_primes)@ + primes_between(
                from as nat,
                if n < until {
                    n as nat
                } else {
                    until as nat
                },
            ),
            *found == *old(found),
            forall|p: u32|
                from <= p < until && prime(p as nat) ==> call_requires(*old(found), (p,)),
        decreases u32::MAX - n,
    {
        let ghost before = known_primes@;
        proof {
            assert forall|p: nat| prime(p) && p * p <= n && divides(p, n as nat) implies holds(
                before,
                p,
            ) by {
                assert(p < n) by (nonlinear_arith)
                    requires
                        2 <= p,
                        p * p <= n,
                ;
            }
            lemma_passes_decides(n, before);
        }
        if is_prime(n, known_primes.as_slice()) {
            known_primes.push(n);
            found(n);
        }
        proof {
            let next = (n + 2) as nat;
            let reached = if next < until {
                next
            } else {
                until as nat
            };
            // `n + 1` is even and at least 4.
            assert(divides(2, (n + 1) as nat));
            assert(primes_between(from as nat, reached) == primes_between(
                from as nat,
                (n + 1) as nat,
            )) by {
                if reached == n + 2 {
                    assert(!prime((reached - 1) as nat));
                }
            }
            assert forall|p: nat| prime(p) && 2 < p < next && p * p < until implies holds(
                known_primes@,
                p,
            ) by {
                if p < n {
                    let i = choose|i: int| 0 <= i < before.len() && #[trigger] before[i] == p;
                    assert(known_primes@[i] == p);
                } else {
                    assert(p == n);
                    assert(known_primes@[before.len() as int] == p);
                }
            }
            if prime(n as nat) {
                assert(before.push(n) =~= old(known_primes)@ + primes_between(
                    from as nat,
                    n as nat,
                ).push(n));
                assert forall|i: int, j: int| 0 <= i < j < known_primes@.len() implies known_primes@[i]
                    < known_primes@[j] by {
                    if j == before.len() {
                        assert(before[i] <= before.last());
                    }
                }
            }
        }
        n = n + 2;
    }
}

/// Reports each element of `primes` to `found`, in order: `found` has been
/// called on every one of them, so that what it ensures of a call holds of
/// each.
fn report<F: FnMut(u32)>(primes: &Vec<u32>, found: &mut F)
    requires
        can_report(*old(found), primes@),
    ensures
        *final(found) == *old(found),
        forall|i: int|
            0 <= i < primes@.len() ==> call_ensures(*old(found), (#[trigger] primes@[i],), ()),
{
    let mut i: usize = 0;
    while i < primes.len()
        invariant
            i <= primes@.len(),
            *found == *old(found),
            can_report(*old(found), primes@),
            forall|j: int|
                0 <= j < i ==> call_ensures(*old(found), (#[trigger] primes@[j],), ()),
        decreases primes@.len() - i,
    {
        found(primes[i]);
        i += 1;
    }
}

/// What the range generators add is the seeding, followed by every prime
/// from the first odd candidate on; each of these is an element of `added`.
proof fn lemma_added(until: u32, known: Seq<u32>, start_from: u32, from: nat)
    requires
        first_candidate(known + basic_primes(known.len(), until), start_from) <= from,
        forall|p: nat|
            first_candidate(known + basic_primes(known.len(), until), start_from) <= p < from
                ==> !prime(p),
    ensures
        added(until, known, start_from) == basic_primes(known.len(), until) + primes_between(
            from,
            until as nat,
        ),
        generated(until, known, start_from) == known + basic_primes(known.len(), until)
            + primes_between(from, until as nat),
        forall|i: int|
            0 <= i < basic_primes(known.len(), until).len() ==> #[trigger] basic_primes(
                known.len(),
                until,
            )[i] == added(until, known, start_from)[i],
        forall|p: u32|
            from <= p < until && prime(p as nat) ==> holds(
                added(until, known, start_from),
                p as nat,
            ),
{
    let basic = basic_primes(known.len(), until);
    let first = first_candidate(known + basic, start_from);
    let more = primes_between(from, until as nat);
    lemma_primes_between_skip(first, from, until as nat);
    lemma_primes_between(from, until as nat);
    assert(added(until, known, start_from) =~= basic + more);
    assert forall|p: u32| from <= p < until && prime(p as nat) implies holds(
        added(until, known, start_from),
        p as nat,
    ) by {
        let i = choose|i: int| 0 <= i < more.len() && #[trigger] more[i] == p;
        assert((basic + more)[basic.len() + i] == p);
    }
}

/// `prime_generator_map` on a list and a hook that are borrowed.
fn extend_sequentially<F: FnMut(u32)>(
    known_primes: &mut Vec<u32>,
    start_from: u32,
    until: u32,
    found: &mut F,
)
    requires
        resumable(
            old(known_primes)@ + basic_primes(old(known_primes)@.len(), until),
            start_from,
            until,
        ),
        can_report(*old(found), added(until, old(known_primes)@, start_from)),
    ensures
        final(known_primes)@ == generated(until, old(known_primes)@, start_from),
        *final(found) == *old(found),
{
    let ghost given = known_primes@;
    let ghost news = added(until, given, start_from);
    proof {
        lemma_added(
            until,
            given,
            start_from,
            first_candidate(given + basic_primes(given.len(), until), start_from),
        );
    }
    get_basic_primes(known_primes, until, found);
    let from = first_odd_candidate(known_primes, start_from);
    proof {
        lemma_added(until, given, start_from, from as nat);
        assert forall|p: u32| from <= p < until && prime(p as nat) implies call_requires(
            *found,
            (p,),
        ) by {
            let i = choose|i: int| 0 <= i < news.len() && #[trigger] news[i] == p;
        }
    }
    scan(known_primes, from, until, found);
}

/// Extends `known_primes` up to `until`, testing one odd number after the
/// other, and reports each prime it adds, in ascending order, to `found`.
///
/// A list of fewer than two elements first gets 2 and 3 as far as they are
/// below `until`. The search then starts at `start_from`, but after the
/// last known prime.
///
/// `found` is handed primes that this call adds and nothing else.
pub fn prime_generator_map<F: FnMut(u32)>(
    until: u32,
    known_primes: Vec<u32>,
    start_from: u32,
    found: F,
) -> (r: Vec<u32>)
    requires
        resumable(
            known_primes@ + basic_primes(known_primes@.len(), until),
            start_from,
            until,
        ),
        can_report(found, added(until, known_primes@, start_from)),
    ensures
        r@ == generated(until, known_primes@, start_from),
        resumable(r@, until, until),
{
    let mut known_primes = known_primes;
    let mut found = found;
    proof {
        lemma_extended_resumable(
            known_primes@ + basic_primes(known_primes@.len(), until),
            start_from,
            until,
            until,
        );
    }
    extend_sequentially(&mut known_primes, start_from, until, &mut found);
    known_primes
}

/// Extends `known_primes` up to `until` as `prime_generator_map` does,
/// reporting nothing.
pub fn prime_generator(until: u32, known_primes: Vec<u32>, start_from: u32) -> (r: Vec<u32>)
    requires
        resumable(
            known_primes@ + basic_primes(known_primes@.len(), until),
            start_from,
            until,
        ),
    ensures
        r@ == generated(until, known_primes@, start_from),
        resumable(r@, until, until),
{
    prime_generator_map(until, known_primes, start_from, |_p: u32| {})
}

/// An odd number has no even prime factor: its prime factors are above 2.
proof fn lemma_odd_has_odd_factors(p: nat, n: u32)
    requires
        n % 2 == 1,
        prime(p),
        divides(p, n as nat),
    ensures
        2 < p,
{
}

/// An ascending batch that holds exactly the odd numbers from `from` below
/// `until` that are prime is the list of the primes of that interval.
proof fn lemma_batch(batch: Seq<u32>, from: u32, until: u32)
    requires
        from % 2 == 1,
        from >= 3,
        ascending(batch),
        forall|c: u32|
            #![trigger holds(batch, c as nat)]
            #![trigger stepped(from, until, c)]
            holds(batch, c as nat) <==> (stepped(from, until, c) && prime(c as nat)),
    ensures
        batch == primes_between(from as nat, until as nat),
{
    assert forall|i: int| 0 <= i < batch.len() implies from <= #[trigger] batch[i] < until
        && prime(batch[i] as nat) by {
        assert(holds(batch, batch[i] as nat));
    }
    assert forall|p: nat| from <= p < until && prime(p) implies holds(batch, p) by {
        lemma_prime_above_two_is_odd(p);
        assert(stepped(from, until, p as u32));
    }
    lemma_ascending_primes_unique(batch, from as nat, until as nat);
}

/// Tests every odd number from `from` below `until` against the list as
/// it stands, all in parallel, then appends the primes in one batch and
/// reports them to `found`.
fn par_prime_generator_map_nosetup<F: FnMut(u32)>(
    until: u32,
    known_primes: Vec<u32>,
    from: u32,
    found: &mut F,
) -> (r: Vec<u32>)
    requires
        from % 2 == 1,
        from >= 3,
        ascending(known_primes@),
        all_prime(known_primes@),
        forall|p: nat| prime(p) && 2 < p && p * p < until ==> holds(known_primes@, p),
        forall|p: u32| from <= p < until && prime(p as nat) ==> call_requires(*old(found), (p,)),
    ensures
        r@ == known_primes@ + primes_between(from as nat, until as nat),
        *final(found) == *old(found),
{
    let mut known_primes = known_primes;
    let mut new_primes = filter_stepped(from, until, known_primes.as_slice());
    proof {
        let known = known_primes@;
        assert forall|c: u32| stepped(from, until, c) implies passes(c, known) == prime(
            c as nat,
        ) by {
            assert forall|p: nat| prime(p) && p * p <= c && divides(p, c as nat) implies holds(
                known,
                p,
            ) by {
                lemma_odd_has_odd_factors(p, c);
            }
            lemma_passes_decides(c, known);
        }
        lemma_batch(new_primes@, from, until);
        lemma_primes_between(from as nat, until as nat);
    }
    report(&new_primes, found);
    known_primes.append(&mut new_primes);
    known_primes
}

/// `par_prime_generator_map` on a hook that is borrowed.
fn extend_in_parallel<F: FnMut(u32)>(
    until: u32,
    known_primes: Vec<u32>,
    start_from: u32,
    found: &mut F,
) -> (r: Vec<u32>)
    requires
        resumable(
            known_primes@ + basic_primes(known_primes@.len(), until),
            start_from,
            until,
        ),
        can_report(*old(found), added(until, known_primes@, start_from)),
    ensures
        r@ == generated(until, known_primes@, start_from),
        *final(found) == *old(found),
{
    let ghost given = known_primes@;
    let ghost news = added(until, given, start_from);
    let ghost seeded = given + basic_primes(given.len(), until);
    let ghost first = first_candidate(seeded, start_from);
    let mut known_primes = known_primes;
    proof {
        lemma_added(until, given, start_from, first);
    }
    get_basic_primes(&mut known_primes, until, found);
    let sqr = sqrt(until);
    let mut from = first_odd_candidate(&known_primes, start_from);
    proof {
        lemma_added(until, given, start_from, from as nat);
        assert forall|p: u32| from <= p < until && prime(p as nat) implies call_requires(
            *found,
            (p,),
        ) by {
            let i = choose|i: int| 0 <= i < news.len() && #[trigger] news[i] == p;
        }
    }
    if sqr >= from {
        assert(sqr < 0x1_0000) by (nonlinear_arith)
            requires
                sqr * sqr <= until,
                until <= 0xffff_ffff,
        ;
        assert(sqr + 1 <= until) by (nonlinear_arith)
            requires
                sqr * sqr <= until,
                sqr >= 3,
        ;
        scan(&mut known_primes, from, sqr + 1, found);
        let next = oddize(sqr + 1);
        proof {
            lemma_primes_between_split(from as nat, (sqr + 1) as nat, until as nat);
            // If `sqr + 1` is even it is no prime, being 4 or more.
            if next > sqr + 1 {
                assert(divides(2, (sqr + 1) as nat));
            }
            lemma_primes_between_skip((sqr + 1) as nat, next as nat, until as nat);
            lemma_primes_between_skip(first, from as nat, (sqr + 1) as nat);
            lemma_extended_resumable(seeded, start_from, (sqr + 1) as u32, until);
            assert(known_primes@ == extended(seeded, start_from, (sqr + 1) as u32));
        }
        from = next;
    }
    proof {
        let known = known_primes@;
        assert forall|p: nat| prime(p) && 2 < p && p * p < until implies holds(known, p) by {
            assert(p <= sqr) by (nonlinear_arith)
                requires
                    p * p < until,
                    until < (sqr + 1) * (sqr + 1),
            ;
        }
    }
    let r = par_prime_generator_map_nosetup(until, known_primes, from, found);
    assert(r@ =~= generated(until, given, start_from));
    r
}

/// Extends `known_primes` up to `until` in two phases, and reports each
/// prime it adds to `found`.
///
/// A list of fewer than two elements first gets 2 and 3 as far as they are
/// below `until`. The first phase extends the list one candidate at a time
/// up to and including the square root of `until`; from there on every
/// candidate can be tested against the list as it stands, which the second
/// phase does for all of them in parallel. The primes of the second phase
/// are reported when it is over, in ascending order.
///
/// `found` is handed primes that this call adds and nothing else.
pub fn par_prime_generator_map<F: Fn(u32) + Send + Sync>(
    until: u32,
    known_primes: Vec<u32>,
    start_from: u32,
    found: F,
) -> (r: Vec<u32>)
    requires
        resumable(
            known_primes@ + basic_primes(known_primes@.len(), until),
            start_from,
            until,
        ),
        can_report(found, added(until, known_primes@, start_from)),
    ensures
        r@ == generated(until, known_primes@, start_from),
        resumable(r@, until, until),
{
    let mut found = found;
    proof {
        lemma_extended_resumable(
            known_primes@ + basic_primes(known_primes@.len(), until),
            start_from,
            until,
            until,
        );
    }
    extend_in_parallel(until, known_primes, start_from, &mut found)
}

/// Extends `known_primes` up to `until` as `par_prime_generator_map` does,
/// reporting nothing.
pub fn par_prime_generator(until: u32, known_primes: Vec<u32>, start_from: u32) -> (r: Vec<u32>)
    requires
        resumable(
            known_primes@ + basic_primes(known_primes@.len(), until),
            start_from,
            until,
        ),
    ensures
        r@ == generated(until, known_primes@, start_from),
        resumable(r@, until, until),
{
    par_prime_generator_map(until, known_primes, start_from, |_p: u32| {})
}

/// Tests every odd candidate of one chunk, from `start_from` below
/// `until`, against the first `last_i` known primes, all in parallel, and
/// appends the primes in one batch. `last_i` is `last_index` of `until`,
/// taken once for the whole chunk.
fn par_prime_generator_map_nosetup_bound(
    until: u32,
    known_primes: Vec<u32>,
    start_from: u32,
    last_i: usize,
) -> (r: Vec<u32>)
    requires
        ascending(known_primes@),
        all_prime(known_primes@),
        last_i <= known_primes@.len(),
        forall|i: int| 0 <= i < last_i ==> known_primes@[i] * known_primes@[i] <= until,
        forall|i: int|
            last_i <= i < known_primes@.len() ==> known_primes@[i] * known_primes@[i] > until,
        forall|p: nat| prime(p) && 2 < p && p * p < until ==> holds(known_primes@, p),
    ensures
        r@ == extended(known_primes@, start_from, until),
{
    let mut known_primes = known_primes;
    let from = first_odd_candidate(&known_primes, start_from);
    let mut new_primes = filter_stepped_nobound(
        from,
        until,
        slice_subrange(known_primes.as_slice(), 0, last_i),
    );
    proof {
        let known = known_primes@;
        let tried = known.subrange(0, last_i as int);
        assert forall|c: u32| stepped(from, until, c) implies passes_all(c, tried) == prime(
            c as nat,
        ) by {
            assert forall|i: int| 0 <= i < tried.len() implies 1 < #[trigger] tried[i] < c by {
                assert(tried[i] == known[i]);
                assert(prime(known[i] as nat));
                assert(known[i] <= known.last());
            }
            assert forall|p: nat| prime(p) && p * p <= c && divides(p, c as nat) implies holds(
                tried,
                p,
            ) by {
                lemma_odd_has_odd_factors(p, c);
                let i = choose|i: int| 0 <= i < known.len() && #[trigger] known[i] == p;
                assert(tried[i] == p);
            }
            lemma_trial_division(c, tried);
        }
        lemma_batch(new_primes@, from, until);
        lemma_primes_between_skip(
            first_candidate(known, start_from),
            from as nat,
            until as nat,
        );
    }
    known_primes.append(&mut new_primes);
    known_primes
}

/// Where the chunk that starts at `start` ends: `chunk_size` further on,
/// but at `until` at the latest, also where `start + chunk_size` has no
/// place in a `u32`.
pub fn end_of_chunk(start: u32, chunk_size: u32, until: u32) -> (r: u32)
    ensures
        r == chunk_end(start, chunk_size, until),
{
    match start.checked_add(chunk_size) {
        Some(end) => if end < until {
            end
        } else {
            until
        },
        None => until,
    }
}

/// Extends `known_primes` up to `until` chunk by chunk, each chunk
/// `chunk_size` candidates wide and tested in parallel.
///
/// Before each chunk `pre_cycle` is asked, with the chunk's start and end,
/// whether to go on; when it answers `false` the list is returned as it
/// stands after the chunks before. After each chunk `post_cycle` gets the
/// primes that the chunk added. Neither hook is handed anything else.
///
/// The first chunk is extended as `par_prime_generator` does it, which
/// seeds a list of fewer than two elements with 2 and 3 as far as they are
/// below the end of that chunk. Each later chunk takes the square-root
/// index once and tests its candidates against that leading part of the
/// list.
pub fn par_prime_generator_map_chunks<F: FnMut(u32, u32) -> bool, G: FnMut(&[u32])>(
    until: u32,
    known_primes: Vec<u32>,
    start_from: u32,
    chunk_size: u32,
    pre_cycle: F,
    post_cycle: G,
) -> (r: Vec<u32>)
    requires
        chunk_size != 0,
        resumable(
            known_primes@ + basic_primes(
                known_primes@.len(),
                chunk_end(start_from, chunk_size, until),
            ),
            start_from,
            until,
        ),
        can_ask(pre_cycle, until, start_from, chunk_size),
        can_tell(post_cycle, until, known_primes@, start_from, chunk_size),
    ensures
        exists|k: nat|
            ran_chunks(pre_cycle, until, known_primes@, start_from, chunk_size, k, r@),
        ascending(r@),
        all_prime(r@),
{
    let ghost given = known_primes@;
    let ghost asked = pre_cycle;
    let ghost told = post_cycle;
    let mut known_primes = known_primes;
    let mut pre_cycle = pre_cycle;
    let mut post_cycle = post_cycle;

    let end = end_of_chunk(start_from, chunk_size, until);
    let ghost seeded = given + basic_primes(given.len(), end);
    proof {
        lemma_seeded_from_primes(given, basic_primes(given.len(), end));
        assert(has_chunk(until, start_from, chunk_size, 0));
        assert(chunk_bounds(until, start_from, chunk_size, 0) == (start_from, end));
    }
    if !pre_cycle(start_from, end) {
        assert(ran_chunks(pre_cycle, until, given, start_from, chunk_size, 0, known_primes@));
        return known_primes;
    }
    let from = known_primes.len();
    proof {
        lemma_resumable_below(seeded, start_from, end, until);
        lemma_extended_resumable(seeded, start_from, end, until);
        lemma_chunk_starts(start_from, chunk_size, 1);
    }
    known_primes = par_prime_generator(end, known_primes, start_from);
    let new_primes = slice_subrange(known_primes.as_slice(), from, known_primes.len());
    proof {
        assert(known_primes@ == chunked(end, given, start_from, chunk_size));
        assert(new_primes@ =~= chunk_primes(until, given, start_from, chunk_size, 0));
    }
    post_cycle(new_primes);

    let mut start = end;
    let ghost mut k: nat = 1;
    while start < until
        invariant_except_break
            start < until ==> start == chunk_start(start_from, chunk_size, k),
            start >= until ==> start == until && chunk_start(start_from, chunk_size, k) >= until,
        invariant
            k >= 1,
            pre_cycle == asked,
            post_cycle == told,
            chunk_size != 0,
            resumable(
                given + basic_primes(given.len(), chunk_end(start_from, chunk_size, until)),
                start_from,
                until,
            ),
            known_primes@ == chunked(start, given, start_from, chunk_size),
            resumable(known_primes@, start, until),
            forall|j: nat|
                j < k ==> #[trigger] answered(asked, until, start_from, chunk_size, j, true),
            forall|j: nat| j < k ==> #[trigger] has_chunk(until, start_from, chunk_size, j),
            can_ask(asked, until, start_from, chunk_size),
            can_tell(told, until, given, start_from, chunk_size),
        ensures
            ran_chunks(asked, until, given, start_from, chunk_size, k, known_primes@),
            ascending(known_primes@),
            all_prime(known_primes@),
        decreases until - start,
    {
        let end = end_of_chunk(start, chunk_size, until);
        proof {
            assert(has_chunk(until, start_from, chunk_size, k));
            assert(chunk_bounds(until, start_from, chunk_size, k) == (start, end));
        }
        if !pre_cycle(start, end) {
            assert(ran_chunks(asked, until, given, start_from, chunk_size, k, known_primes@));
            break;
        }
        let from = known_primes.len();
        let last_i = last_index(&end, known_primes.as_slice());
        proof {
            let known = known_primes@;
            lemma_chunk_starts(start_from, chunk_size, k);
            lemma_chunk_starts(start_from, chunk_size, k + 1);
            lemma_chunked_step(until, given, start_from, chunk_size, k);
            assert forall|p: nat| prime(p) && 2 < p && p * p < end implies holds(known, p) by {
                // A prime at or after the start of the chunk has a square
                // beyond its end: the chunk is no wider than its start.
                if p >= start {
                    assert(p * p >= end) by (nonlinear_arith)
                        requires
                            p >= 3,
                            p >= start,
                            end <= start + chunk_size,
                            chunk_size <= start,
                    ;
                }
            }
        }
        known_primes = par_prime_generator_map_nosetup_bound(end, known_primes, start, last_i);
        let new_primes = slice_subrange(known_primes.as_slice(), from, known_primes.len());
        proof {
            assert(new_primes@ =~= chunk_primes(until, given, start_from, chunk_size, k));
            k = k + 1;
        }
        post_cycle(new_primes);
        start = end;
    }
    known_primes
}

} // verus!
