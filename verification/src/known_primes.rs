//! The list of known primes as a mathematical sequence: what it means for
//! it to be fit for resuming the search, what the generators make of it,
//! and the laws that relate one run to another.

use crate::primality::{
    all_prime, ascending, holds, lemma_primes_between, lemma_primes_between_skip,
    lemma_primes_between_split, lemma_small_primes, prime, primes_between,
};
use vstd::prelude::*;

verus! {

/// The last element, or 0 for the empty list.
pub open spec fn last_or_zero(s: Seq<u32>) -> nat {
    if s.len() == 0 {
        0
    } else {
        s.last() as nat
    }
}

/// What seeding appends to a list of `len` elements: of 2 and 3, in this
/// order, those whose place in the list is still free and that are below
/// `until`.
pub open spec fn basic_primes(len: nat, until: u32) -> Seq<u32> {
    let two = if len < 1 && 2 < until {
        seq![2u32]
    } else {
        Seq::empty()
    };
    let three = if len < 2 && 3 < until {
        seq![3u32]
    } else {
        Seq::empty()
    };
    two + three
}

/// Where the search goes on: at `start_from`, but after the last known
/// prime, and not before 3.
pub open spec fn first_candidate(known: Seq<u32>, start_from: u32) -> nat {
    let after = last_or_zero(known) + 1;
    let from = if start_from >= after {
        start_from as nat
    } else {
        after
    };
    if from >= 3 {
        from
    } else {
        3
    }
}

/// `known`, followed by the primes from the first candidate on that are
/// below `until`.
pub open spec fn extended(known: Seq<u32>, start_from: u32, until: u32) -> Seq<u32> {
    known + primes_between(first_candidate(known, start_from), until as nat)
}

/// What the range generators return: `known`, seeded with 2 and 3, and
/// extended up to `until`.
pub open spec fn generated(until: u32, known: Seq<u32>, start_from: u32) -> Seq<u32> {
    extended(known + basic_primes(known.len(), until), start_from, until)
}

/// What the range generators add to `known`, in the order in which they
/// add it.
pub open spec fn added(until: u32, known: Seq<u32>, start_from: u32) -> Seq<u32> {
    generated(until, known, start_from).skip(known.len() as int)
}

/// A list from which the search can go on at `start_from` and be right up
/// to `until`: ascending primes, among them every odd prime before the
/// first candidate whose square is below `until`.
pub open spec fn resumable(known: Seq<u32>, start_from: u32, until: u32) -> bool {
    &&& ascending(known)
    &&& all_prime(known)
    &&& forall|p: nat|
        prime(p) && 2 < p < first_candidate(known, start_from) && p * p < until ==> holds(known, p)
}

/// Where the chunk that starts at `start` ends: `chunk_size` further on,
/// but at `until` at the latest.
pub open spec fn chunk_end(start: u32, chunk_size: u32, until: u32) -> u32 {
    if start + chunk_size < until {
        (start + chunk_size) as u32
    } else {
        until
    }
}

/// Where chunk number `k` starts, counting from 0.
pub open spec fn chunk_start(start_from: u32, chunk_size: u32, k: nat) -> int {
    start_from + k * chunk_size
}

/// There is a chunk number `k`: the first one always, a later one if it
/// starts below `until`.
pub open spec fn has_chunk(until: u32, start_from: u32, chunk_size: u32, k: nat) -> bool {
    k == 0 || chunk_start(start_from, chunk_size, k) < until
}

/// What the chunked generator returns when no chunk is refused: the list,
/// seeded with 2 and 3 as far as they are below the end of the first chunk,
/// and extended up to `until`.
pub open spec fn chunked(until: u32, known: Seq<u32>, start_from: u32, chunk_size: u32) -> Seq<
    u32,
> {
    extended(
        known + basic_primes(known.len(), chunk_end(start_from, chunk_size, until)),
        start_from,
        until,
    )
}

/// What chunk number `k` adds to the list: what a run up to the end of
/// that chunk has beyond a run up to its start, or, for the first chunk,
/// beyond the list that was given.
pub open spec fn chunk_primes(
    until: u32,
    known: Seq<u32>,
    start_from: u32,
    chunk_size: u32,
    k: nat,
) -> Seq<u32> {
    let start = chunk_start(start_from, chunk_size, k) as u32;
    let end = chunk_end(start, chunk_size, until);
    let before = if k == 0 {
        known
    } else {
        chunked(start, known, start_from, chunk_size)
    };
    chunked(end, known, start_from, chunk_size).skip(before.len() as int)
}

/// The start and the end of chunk number `k`, which `pre_cycle` is asked
/// about.
pub open spec fn chunk_bounds(until: u32, start_from: u32, chunk_size: u32, k: nat) -> (u32, u32) {
    let start = chunk_start(start_from, chunk_size, k) as u32;
    (start, chunk_end(start, chunk_size, until))
}

/// `found` can be called on each element of `primes`.
pub open spec fn can_report<F: FnMut(u32)>(found: F, primes: Seq<u32>) -> bool {
    forall|i: int| 0 <= i < primes.len() ==> call_requires(found, (#[trigger] primes[i],))
}

/// `pre_cycle` can be asked about each chunk that there is.
pub open spec fn can_ask<F: FnMut(u32, u32) -> bool>(
    pre_cycle: F,
    until: u32,
    start_from: u32,
    chunk_size: u32,
) -> bool {
    forall|k: nat|
        has_chunk(until, start_from, chunk_size, k) ==> call_requires(
            pre_cycle,
            #[trigger] chunk_bounds(until, start_from, chunk_size, k),
        )
}

/// `post_cycle` can be called on what each chunk that there is adds.
pub open spec fn can_tell<G: FnMut(&[u32])>(
    post_cycle: G,
    until: u32,
    known: Seq<u32>,
    start_from: u32,
    chunk_size: u32,
) -> bool {
    forall|k: nat, new_primes: &[u32]|
        #![trigger
            call_requires(post_cycle, (new_primes,)),
            chunk_primes(until, known, start_from, chunk_size, k),
        ]
        has_chunk(until, start_from, chunk_size, k) && new_primes@ == chunk_primes(
            until,
            known,
            start_from,
            chunk_size,
            k,
        ) ==> call_requires(post_cycle, (new_primes,))
}

/// `pre_cycle`, asked about chunk number `k`, may answer `go`.
pub open spec fn answered<F: FnMut(u32, u32) -> bool>(
    pre_cycle: F,
    until: u32,
    start_from: u32,
    chunk_size: u32,
    k: nat,
    go: bool,
) -> bool {
    call_ensures(pre_cycle, chunk_bounds(until, start_from, chunk_size, k), go)
}

/// `r` is what the chunked generator returns when exactly the first `k`
/// chunks run: `pre_cycle` let each of them run, and either refused the
/// next one or there was none.
///
/// With no chunk run, `r` is the list as it was given. With the run
/// stopped before a later chunk, `r` is what a run up to the start of that
/// chunk returns. With no chunk refused, it is what the run up to `until`
/// returns.
pub open spec fn ran_chunks<F: FnMut(u32, u32) -> bool>(
    pre_cycle: F,
    until: u32,
    known: Seq<u32>,
    start_from: u32,
    chunk_size: u32,
    k: nat,
    r: Seq<u32>,
) -> bool {
    let reached = chunk_start(start_from, chunk_size, k);
    &&& forall|j: nat|
        j < k ==> #[trigger] answered(pre_cycle, until, start_from, chunk_size, j, true)
    &&& forall|j: nat| j < k ==> #[trigger] has_chunk(until, start_from, chunk_size, j)
    &&& if k == 0 {
        &&& answered(pre_cycle, until, start_from, chunk_size, k, false)
        &&& r == known
    } else if reached < until {
        &&& answered(pre_cycle, until, start_from, chunk_size, k, false)
        &&& r == chunked(reached as u32, known, start_from, chunk_size)
    } else {
        r == chunked(until, known, start_from, chunk_size)
    }
}

/// A list stays resumable when the bound comes down.
pub proof fn lemma_resumable_below(known: Seq<u32>, start_from: u32, lower: u32, until: u32)
    requires
        resumable(known, start_from, until),
        lower <= until,
    ensures
        resumable(known, start_from, lower),
{
}

/// A list stays resumable when the search is to go on earlier.
pub proof fn lemma_resumable_earlier(known: Seq<u32>, earlier: u32, start_from: u32, until: u32)
    requires
        resumable(known, start_from, until),
        earlier <= start_from,
    ensures
        resumable(known, earlier, until),
{
    assert(first_candidate(known, earlier) <= first_candidate(known, start_from));
}

/// The leading part of a resumable list, as it was before the seeding, is
/// a list of ascending primes.
pub proof fn lemma_seeded_from_primes(known: Seq<u32>, more: Seq<u32>)
    requires
        ascending(known + more),
        all_prime(known + more),
    ensures
        ascending(known),
        all_prime(known),
{
    let all = known + more;
    assert forall|i: int, j: int| 0 <= i < j < known.len() implies known[i] < known[j] by {
        assert(all[i] == known[i] && all[j] == known[j]);
    }
    assert forall|i: int| 0 <= i < known.len() implies prime(#[trigger] known[i] as nat) by {
        assert(all[i] == known[i]);
    }
}

/// Extending a resumable list gives a list that is resumable at the bound
/// it was extended to.
pub proof fn lemma_extended_resumable(known: Seq<u32>, start_from: u32, until: u32, beyond: u32)
    requires
        resumable(known, start_from, beyond),
    ensures
        resumable(extended(known, start_from, until), until, beyond),
{
    let first = first_candidate(known, start_from);
    let more = primes_between(first, until as nat);
    let all = extended(known, start_from, until);
    lemma_primes_between(first, until as nat);
    assert forall|i: int, j: int| 0 <= i < j < all.len() implies all[i] < all[j] by {
        if j >= known.len() {
            assert(all[j] == more[j - known.len()]);
            if i >= known.len() {
                assert(all[i] == more[i - known.len()]);
            } else {
                assert(all[i] == known[i]);
                assert(known[i] <= known.last());
            }
        } else {
            assert(all[i] == known[i] && all[j] == known[j]);
        }
    }
    assert forall|i: int| 0 <= i < all.len() implies prime(#[trigger] all[i] as nat) by {
        if i >= known.len() {
            assert(all[i] == more[i - known.len()]);
        } else {
            assert(all[i] == known[i]);
        }
    }
    assert forall|p: nat|
        prime(p) && 2 < p < first_candidate(all, until) && p * p < beyond implies holds(
        all,
        p,
    ) by {
        if p < first {
            let i = choose|i: int| 0 <= i < known.len() && #[trigger] known[i] == p;
            assert(all[i] == p);
        } else if p < until {
            let i = choose|i: int| 0 <= i < more.len() && #[trigger] more[i] == p;
            assert(all[known.len() + i] == p);
        } else {
            // `p` is at most the last element, which is below `until` if
            // the extension added anything, and before `first` if not.
            assert(p <= last_or_zero(all));
            if more.len() > 0 {
                assert(all.last() == more.last());
            } else {
                assert(all =~= known);
            }
        }
    }
}

/// Extending up to a bound and then, from that bound, up to a second one
/// is extending up to the second.
pub proof fn lemma_extended_twice(known: Seq<u32>, start_from: u32, mid: u32, until: u32)
    requires
        start_from <= mid <= until,
    ensures
        extended(extended(known, start_from, mid), mid, until) == extended(
            known,
            start_from,
            until,
        ),
{
    let first = first_candidate(known, start_from);
    let more = primes_between(first, mid as nat);
    let half = extended(known, start_from, mid);
    lemma_primes_between(first, mid as nat);
    if first >= mid {
        assert(more =~= Seq::<u32>::empty());
        assert(half =~= known);
    } else {
        if more.len() > 0 {
            assert(half.last() == more.last());
        } else {
            assert(half =~= known);
        }
        assert(first_candidate(half, mid) == mid);
        lemma_primes_between_split(first, mid as nat, until as nat);
        assert(half + primes_between(mid as nat, until as nat) =~= known + primes_between(
            first,
            until as nat,
        ));
    }
}

/// The seeded empty list can be extended from 0 up to any bound.
pub proof fn lemma_scratch_is_resumable(until: u32)
    ensures
        resumable(Seq::<u32>::empty() + basic_primes(0, until), 0, until),
{
    let seeded = Seq::<u32>::empty() + basic_primes(0, until);
    lemma_small_primes();
    assert forall|p: nat|
        prime(p) && 2 < p < first_candidate(seeded, 0) && p * p < until implies holds(
        seeded,
        p,
    ) by {
        if seeded.len() == 2 {
            assert(seeded[1] == 3);
        }
    }
}

/// What a range generator returns is a list of ascending primes that is
/// resumable at the bound that was reached, and needs no seeding any more
/// once it has two elements.
pub proof fn lemma_generated_resumable(
    split: u32,
    known: Seq<u32>,
    start_from: u32,
    until: u32,
)
    requires
        resumable(known + basic_primes(known.len(), split), start_from, until),
    ensures
        resumable(generated(split, known, start_from), split, until),
        known.len() >= 2 || split > 3 ==> basic_primes(
            generated(split, known, start_from).len(),
            until,
        ) == Seq::<u32>::empty(),
{
    let seeded = known + basic_primes(known.len(), split);
    let first = generated(split, known, start_from);
    lemma_extended_resumable(seeded, start_from, split, until);
    if known.len() >= 2 || split > 3 {
        assert(seeded.len() >= 2);
        assert(first.len() >= seeded.len());
        assert(basic_primes(first.len(), until) =~= Seq::<u32>::empty());
    }
}

/// The resume law, at the frontier: to stop at `split` and go on from
/// there up to `until` gives what going up to `until` at once gives. The
/// list must have its two elements, or `split` lie beyond 3, for the
/// seeding to be done with at `split`.
pub proof fn lemma_resume_at_frontier(split: u32, known: Seq<u32>, start_from: u32, until: u32)
    requires
        start_from <= split <= until,
        known.len() >= 2 || split > 3,
    ensures
        generated(until, generated(split, known, start_from), split) == generated(
            until,
            known,
            start_from,
        ),
{
    let seeded = known + basic_primes(known.len(), split);
    let first = generated(split, known, start_from);
    assert(basic_primes(known.len(), split) =~= basic_primes(known.len(), until));
    assert(first.len() >= seeded.len() >= 2);
    assert(first + basic_primes(first.len(), until) =~= first);
    lemma_extended_twice(seeded, start_from, split, until);
}

/// The resume law, from scratch: to stop at `split` and hand the result to
/// the generator again, up to `until`, gives what going up to `until` at
/// once gives; and the result of the first run is fit for the second.
pub proof fn lemma_resume_from_scratch(split: u32, until: u32)
    requires
        split <= until,
    ensures
        generated(until, generated(split, Seq::empty(), 0), 0) == generated(
            until,
            Seq::empty(),
            0,
        ),
        resumable(
            generated(split, Seq::empty(), 0) + basic_primes(
                generated(split, Seq::empty(), 0).len(),
                until,
            ),
            0,
            until,
        ),
{
    let none = Seq::<u32>::empty();
    let first = generated(split, none, 0);
    lemma_small_primes();
    lemma_scratch_is_resumable(until);
    if split <= 3 {
        // Nothing but the seeding has happened: 3 is not below `split`.
        lemma_primes_between(3, split as nat);
        assert(primes_between(3, split as nat) =~= none);
        assert(first =~= basic_primes(0, split));
        assert(first + basic_primes(first.len(), until) =~= none + basic_primes(0, until));
    } else {
        let seeded = seq![2u32, 3u32];
        assert(none + basic_primes(0, split) =~= seeded);
        assert(none + basic_primes(0, until) =~= seeded);
        assert(first_candidate(seeded, 0) == 4);
        let more = primes_between(4, split as nat);
        lemma_primes_between(4, split as nat);
        assert(first == seeded + more);
        assert(first.len() >= 2);
        assert(first + basic_primes(first.len(), until) =~= first);
        // From the last prime found to `split` there is no prime.
        let after = first_candidate(first, 0);
        if more.len() > 0 {
            assert(first.last() == more.last());
        } else {
            assert(first =~= seeded);
        }
        assert(4 <= after <= split);
        assert forall|p: nat| after <= p < split implies !prime(p) by {
            if prime(p) {
                let i = choose|i: int| 0 <= i < more.len() && #[trigger] more[i] == p;
                assert(more[i] <= more.last());
            }
        }
        lemma_primes_between_skip(after, split as nat, until as nat);
        lemma_primes_between_split(4, split as nat, until as nat);
        assert(first + primes_between(split as nat, until as nat) =~= seeded + primes_between(
            4,
            until as nat,
        ));
        lemma_generated_resumable(split, none, 0, until);
        lemma_resumable_earlier(first, 0, split, until);
    }
}

/// From the second chunk on, a chunk starts at least one chunk size after
/// `start_from`, and one chunk size after the chunk before.
pub proof fn lemma_chunk_starts(start_from: u32, chunk_size: u32, k: nat)
    requires
        k >= 1,
    ensures
        chunk_start(start_from, chunk_size, k) == chunk_start(
            start_from,
            chunk_size,
            (k - 1) as nat,
        ) + chunk_size,
        chunk_start(start_from, chunk_size, k) >= start_from + chunk_size,
{
    assert(k * chunk_size == (k - 1) * chunk_size + chunk_size) by (nonlinear_arith);
    assert((k - 1) * chunk_size >= 0) by (nonlinear_arith)
        requires
            k >= 1,
    ;
}

/// The chunks start in ascending order, one chunk size apart or more.
pub proof fn lemma_chunk_starts_ascend(start_from: u32, chunk_size: u32, j: nat, k: nat)
    requires
        j < k,
    ensures
        chunk_start(start_from, chunk_size, j) + chunk_size <= chunk_start(
            start_from,
            chunk_size,
            k,
        ),
{
    assert(j * chunk_size + chunk_size <= k * chunk_size) by (nonlinear_arith)
        requires
            j < k,
    ;
}

/// Chunking invariance: a run of which no chunk is refused returns what the
/// range generators return, whatever the chunk size, provided the first
/// chunk ends late enough for the seeding to be the same.
pub proof fn lemma_chunked_is_generated(
    until: u32,
    known: Seq<u32>,
    start_from: u32,
    chunk_size: u32,
)
    requires
        basic_primes(known.len(), chunk_end(start_from, chunk_size, until)) == basic_primes(
            known.len(),
            until,
        ),
    ensures
        chunked(until, known, start_from, chunk_size) == generated(until, known, start_from),
{
}

/// The seeding of a chunked run is that of the range generators when the
/// list has two elements or more, when the first chunk ends after 3, and
/// when the whole run ends at 2 or before.
pub proof fn lemma_same_seeding(until: u32, len: nat, start_from: u32, chunk_size: u32)
    requires
        len >= 2 || chunk_end(start_from, chunk_size, until) > 3 || until <= 2,
    ensures
        basic_primes(len, chunk_end(start_from, chunk_size, until)) == basic_primes(len, until),
{
}

/// Chunking invariance, for two chunk sizes: with the same seeding, the
/// runs return the same list.
pub proof fn lemma_chunk_size_is_immaterial(
    until: u32,
    known: Seq<u32>,
    start_from: u32,
    chunk_size: u32,
    other_size: u32,
)
    requires
        basic_primes(known.len(), chunk_end(start_from, chunk_size, until)) == basic_primes(
            known.len(),
            chunk_end(start_from, other_size, until),
        ),
    ensures
        chunked(until, known, start_from, chunk_size) == chunked(
            until,
            known,
            start_from,
            other_size,
        ),
{
}

/// A run up to where a chunk ends is the run up to where that chunk
/// starts, extended over the chunk; and it is resumable there.
pub proof fn lemma_chunked_step(
    until: u32,
    known: Seq<u32>,
    start_from: u32,
    chunk_size: u32,
    k: nat,
)
    requires
        k >= 1,
        chunk_start(start_from, chunk_size, k) < until,
        resumable(
            known + basic_primes(known.len(), chunk_end(start_from, chunk_size, until)),
            start_from,
            until,
        ),
    ensures
        ({
            let start = chunk_start(start_from, chunk_size, k) as u32;
            let end = chunk_end(start, chunk_size, until);
            &&& chunked(end, known, start_from, chunk_size) == extended(
                chunked(start, known, start_from, chunk_size),
                start,
                end,
            )
            &&& resumable(chunked(start, known, start_from, chunk_size), start, until)
            &&& resumable(chunked(end, known, start_from, chunk_size), end, until)
        }),
{
    let start = chunk_start(start_from, chunk_size, k) as u32;
    let end = chunk_end(start, chunk_size, until);
    let seeded = known + basic_primes(known.len(), chunk_end(start_from, chunk_size, until));
    lemma_chunk_starts(start_from, chunk_size, k);
    lemma_extended_twice(seeded, start_from, start, end);
    lemma_extended_resumable(seeded, start_from, start, until);
    lemma_extended_resumable(seeded, start_from, end, until);
}

/// The cancellation law: a run that was stopped before a chunk other than
/// the first returns what a run up to the start of that chunk returns when
/// it is not stopped, and is such a run; its result is resumable there.
pub proof fn lemma_stopped_run<F: FnMut(u32, u32) -> bool>(
    pre_cycle: F,
    until: u32,
    known: Seq<u32>,
    start_from: u32,
    chunk_size: u32,
    k: nat,
    r: Seq<u32>,
)
    requires
        chunk_size != 0,
        ran_chunks(pre_cycle, until, known, start_from, chunk_size, k, r),
        k >= 1,
        chunk_start(start_from, chunk_size, k) < until,
    ensures
        r == chunked(chunk_start(start_from, chunk_size, k) as u32, known, start_from, chunk_size),
        ran_chunks(
            pre_cycle,
            chunk_start(start_from, chunk_size, k) as u32,
            known,
            start_from,
            chunk_size,
            k,
            r,
        ),
{
    let stop = chunk_start(start_from, chunk_size, k) as u32;
    assert forall|j: nat| j < k implies #[trigger] answered(
        pre_cycle,
        stop,
        start_from,
        chunk_size,
        j,
        true,
    ) by {
        assert(answered(pre_cycle, until, start_from, chunk_size, j, true));
        lemma_chunk_starts_ascend(start_from, chunk_size, j, k);
    }
    assert forall|j: nat| j < k implies #[trigger] has_chunk(stop, start_from, chunk_size, j) by {
        lemma_chunk_starts_ascend(start_from, chunk_size, j, k);
    }
}

/// A run whose hook never refuses a chunk returns what the run up to
/// `until` returns.
pub proof fn lemma_never_refused<F: FnMut(u32, u32) -> bool>(
    pre_cycle: F,
    until: u32,
    known: Seq<u32>,
    start_from: u32,
    chunk_size: u32,
    k: nat,
    r: Seq<u32>,
)
    requires
        ran_chunks(pre_cycle, until, known, start_from, chunk_size, k, r),
        forall|start: u32, end: u32| !call_ensures(pre_cycle, (start, end), false),
    ensures
        r == chunked(until, known, start_from, chunk_size),
{
    let asked = chunk_bounds(until, start_from, chunk_size, k);
    assert(!call_ensures(pre_cycle, (asked.0, asked.1), false));
}

/// The resume law for chunks: a run that was stopped before a chunk other
/// than the first, and is taken up again at the start of that chunk, ends
/// with what the run returns when it is not stopped.
pub proof fn lemma_chunked_resume(
    until: u32,
    known: Seq<u32>,
    start_from: u32,
    chunk_size: u32,
    k: nat,
)
    requires
        k >= 1,
        chunk_start(start_from, chunk_size, k) < until,
        known.len() >= 2 || chunk_end(start_from, chunk_size, until) > 3,
    ensures
        chunked(
            until,
            chunked(chunk_start(start_from, chunk_size, k) as u32, known, start_from, chunk_size),
            chunk_start(start_from, chunk_size, k) as u32,
            chunk_size,
        ) == chunked(until, known, start_from, chunk_size),
{
    let stop = chunk_start(start_from, chunk_size, k) as u32;
    let seeded = known + basic_primes(known.len(), chunk_end(start_from, chunk_size, until));
    let first = chunked(stop, known, start_from, chunk_size);
    lemma_chunk_starts(start_from, chunk_size, k);
    assert(first.len() >= seeded.len() >= 2);
    assert(first + basic_primes(first.len(), chunk_end(stop, chunk_size, until)) =~= first);
    lemma_extended_twice(seeded, start_from, stop, until);
}

} // verus!
