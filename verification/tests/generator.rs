use prime::generator::{
    end_of_chunk, par_prime_generator, par_prime_generator_map, par_prime_generator_map_chunks,
    prime_generator, prime_generator_map, reserve_estimated,
};
use std::cell::RefCell;
use std::sync::Mutex;

/// Primality by plain division, to compare against.
fn reference(n: u32) -> bool {
    if n < 2 {
        return false;
    }
    let mut d: u64 = 2;
    while d * d <= n as u64 {
        if n as u64 % d == 0 {
            return false;
        }
        d += 1;
    }
    true
}

fn primes_between(lo: u32, hi: u32) -> Vec<u32> {
    (lo..hi).filter(|n| reference(*n)).collect()
}

#[test]
fn generator_test() {
    assert_eq!(prime_generator(0, Vec::new(), 0), Vec::new());
    assert_eq!(
        prime_generator(20, Vec::new(), 0),
        vec![2, 3, 5, 7, 11, 13, 17, 19]
    );
    assert_eq!(
        prime_generator(20, vec![2, 3, 5, 7], 0),
        vec![2, 3, 5, 7, 11, 13, 17, 19]
    );
    assert_eq!(
        prime_generator(20, vec![2, 3, 5, 7, 11, 13, 17, 19, 23, 29], 0),
        vec![2, 3, 5, 7, 11, 13, 17, 19, 23, 29]
    );
}

#[test]
fn multi_generator_test() {
    assert_eq!(par_prime_generator(0, Vec::new(), 0), Vec::new());
    assert_eq!(
        par_prime_generator(20, Vec::new(), 0),
        vec![2, 3, 5, 7, 11, 13, 17, 19]
    );
    assert_eq!(
        par_prime_generator(20, vec![2, 3, 5, 7], 0),
        vec![2, 3, 5, 7, 11, 13, 17, 19]
    );
    assert_eq!(
        par_prime_generator(20, vec![2, 3, 5, 7, 11, 13, 17, 19, 23, 29], 0),
        vec![2, 3, 5, 7, 11, 13, 17, 19, 23, 29]
    );
}

#[test]
fn par_chunks_generator_test() {
    assert_eq!(
        par_prime_generator_map_chunks(0, Vec::new(), 0, 5, |_, _| true, |_| {}),
        Vec::new()
    );
    assert_eq!(
        par_prime_generator_map_chunks(20, Vec::new(), 0, 5, |_, _| true, |_| {}),
        vec![2, 3, 5, 7, 11, 13, 17, 19]
    );
    assert_eq!(
        par_prime_generator_map_chunks(20, vec![2, 3, 5, 7], 0, 5, |_, _| true, |_| {}),
        vec![2, 3, 5, 7, 11, 13, 17, 19]
    );
    assert_eq!(
        par_prime_generator_map_chunks(
            20,
            vec![2, 3, 5, 7, 11, 13, 17, 19, 23, 29],
            0,
            5,
            |_, _| true,
            |_| {},
        ),
        vec![2, 3, 5, 7, 11, 13, 17, 19, 23, 29]
    );
}

#[test]
fn small_bounds_seed_only_what_is_below() {
    for until in 0..=2 {
        assert_eq!(prime_generator(until, Vec::new(), 0), Vec::<u32>::new());
        assert_eq!(par_prime_generator(until, Vec::new(), 0), Vec::<u32>::new());
    }
    assert_eq!(prime_generator(3, Vec::new(), 0), vec![2]);
    assert_eq!(par_prime_generator(3, Vec::new(), 0), vec![2]);
    assert_eq!(prime_generator(4, Vec::new(), 0), vec![2, 3]);
    assert_eq!(par_prime_generator(4, Vec::new(), 0), vec![2, 3]);
    assert_eq!(prime_generator(4, vec![2], 0), vec![2, 3]);
    assert_eq!(prime_generator(3, vec![2], 0), vec![2]);
    assert_eq!(prime_generator(6, Vec::new(), 0), vec![2, 3, 5]);
}

#[test]
fn generators_agree_with_reference() {
    for until in [0, 1, 2, 3, 4, 5, 9, 10, 25, 26, 49, 50, 121, 122, 1_000, 10_007] {
        let expected = primes_between(0, until);
        assert_eq!(prime_generator(until, Vec::new(), 0), expected, "until = {until}");
        assert_eq!(par_prime_generator(until, Vec::new(), 0), expected, "until = {until}");
    }
}

#[test]
fn parallel_generator_tests_squares_of_the_root() {
    // 25 = 5 * 5 and 49 = 7 * 7 lie just below the bound; their root has to
    // be known before the parallel phase.
    assert_eq!(
        par_prime_generator(26, Vec::new(), 0),
        vec![2, 3, 5, 7, 11, 13, 17, 19, 23]
    );
    assert_eq!(par_prime_generator(50, Vec::new(), 0), primes_between(0, 50));
    assert_eq!(par_prime_generator(50, vec![2, 3], 0), primes_between(0, 50));
}

#[test]
fn start_from_skips_candidates() {
    assert_eq!(prime_generator(20, Vec::new(), 11), vec![2, 3, 11, 13, 17, 19]);
    assert_eq!(par_prime_generator(20, Vec::new(), 11), vec![2, 3, 11, 13, 17, 19]);
    // An even start goes on at the next odd number.
    assert_eq!(prime_generator(20, vec![2, 3], 6), vec![2, 3, 7, 11, 13, 17, 19]);
    assert_eq!(par_prime_generator(20, vec![2, 3], 6), vec![2, 3, 7, 11, 13, 17, 19]);
    assert_eq!(prime_generator(20, vec![2, 3], 10), vec![2, 3, 11, 13, 17, 19]);
    // A start before the last known prime changes nothing.
    assert_eq!(
        prime_generator(20, vec![2, 3, 5, 7], 4),
        vec![2, 3, 5, 7, 11, 13, 17, 19]
    );
    // A start at or after the bound leaves only the seeding.
    assert_eq!(prime_generator(20, Vec::new(), 20), vec![2, 3]);
    assert_eq!(par_prime_generator(20, Vec::new(), 30), vec![2, 3]);
}

#[test]
fn resuming_equals_going_at_once() {
    for max in [0, 1, 2, 3, 4, 5, 10, 30, 100, 500] {
        let direct = prime_generator(max, Vec::new(), 0);
        for split in 0..=max {
            let first = prime_generator(split, Vec::new(), 0);
            assert_eq!(prime_generator(max, first, 0), direct, "{split} then {max}");
        }
    }
    let direct = par_prime_generator(2_000, Vec::new(), 0);
    for split in [0, 3, 4, 44, 45, 46, 1_000, 1_999, 2_000] {
        let first = par_prime_generator(split, Vec::new(), 0);
        assert_eq!(par_prime_generator(2_000, first, 0), direct, "{split} then 2000");
        let first = prime_generator(split, Vec::new(), 0);
        assert_eq!(par_prime_generator(2_000, first, split), direct, "{split} then 2000");
    }
}

#[test]
fn found_gets_each_new_prime_in_ascending_order() {
    let mut seen = Vec::new();
    let all = prime_generator_map(30, vec![2, 3, 5], 0, |p| seen.push(p));
    assert_eq!(all, vec![2, 3, 5, 7, 11, 13, 17, 19, 23, 29]);
    assert_eq!(seen, vec![7, 11, 13, 17, 19, 23, 29]);

    let mut seen = Vec::new();
    prime_generator_map(15, Vec::new(), 0, |p| seen.push(p));
    assert_eq!(seen, vec![2, 3, 5, 7, 11, 13]);

    let mut seen = Vec::new();
    prime_generator_map(15, vec![2, 3, 5, 7, 11, 13, 17, 19], 0, |p| seen.push(p));
    assert_eq!(seen, Vec::<u32>::new());
}

#[test]
fn parallel_found_gets_each_new_prime_once() {
    let seen = Mutex::new(Vec::new());
    let all = par_prime_generator_map(200, vec![2, 3, 5], 0, |p| seen.lock().unwrap().push(p));
    assert_eq!(all, primes_between(0, 200));
    let mut seen = seen.into_inner().unwrap();
    seen.sort();
    assert_eq!(seen, primes_between(6, 200));
}

#[test]
fn chunk_size_does_not_change_the_result() {
    for max in [20u32, 100, 1_000] {
        let expected = par_prime_generator(max, Vec::new(), 0);
        assert_eq!(expected, primes_between(0, max));
        for chunk_size in [4, 5, 7, max - 1, max, max + 100, u32::MAX] {
            assert_eq!(
                par_prime_generator_map_chunks(max, Vec::new(), 0, chunk_size, |_, _| true, |_| {}),
                expected,
                "max = {max}, chunk_size = {chunk_size}"
            );
        }
        // With the first two primes known, any chunk size will do.
        for chunk_size in [1, 2, 3] {
            assert_eq!(
                par_prime_generator_map_chunks(max, vec![2, 3], 0, chunk_size, |_, _| true, |_| {}),
                expected,
                "max = {max}, chunk_size = {chunk_size}"
            );
        }
    }
}

#[test]
fn first_chunk_decides_the_seeding() {
    // Only the first chunk seeds 2 and 3, and only what is below its end.
    assert_eq!(
        par_prime_generator_map_chunks(20, Vec::new(), 0, 1, |_, _| true, |_| {}),
        vec![3, 5, 7, 11, 13, 17, 19]
    );
    assert_eq!(
        par_prime_generator_map_chunks(20, Vec::new(), 0, 2, |_, _| true, |_| {}),
        vec![3, 5, 7, 11, 13, 17, 19]
    );
    assert_eq!(
        par_prime_generator_map_chunks(20, Vec::new(), 0, 3, |_, _| true, |_| {}),
        vec![2, 3, 5, 7, 11, 13, 17, 19]
    );
}

#[test]
fn chunks_are_asked_and_reported_in_order() {
    let asked = RefCell::new(Vec::new());
    let reported = RefCell::new(Vec::new());
    let all = par_prime_generator_map_chunks(
        23,
        Vec::new(),
        0,
        10,
        |start, end| {
            asked.borrow_mut().push((start, end));
            true
        },
        |new_primes| reported.borrow_mut().push(new_primes.to_vec()),
    );
    assert_eq!(all, vec![2, 3, 5, 7, 11, 13, 17, 19]);
    assert_eq!(asked.into_inner(), vec![(0, 10), (10, 20), (20, 23)]);
    assert_eq!(
        reported.into_inner(),
        vec![vec![2, 3, 5, 7], vec![11, 13, 17, 19], vec![]]
    );
}

#[test]
fn empty_range_still_asks_once() {
    let asked = RefCell::new(Vec::new());
    let all = par_prime_generator_map_chunks(
        0,
        Vec::new(),
        0,
        5,
        |start, end| {
            asked.borrow_mut().push((start, end));
            true
        },
        |_| {},
    );
    assert_eq!(all, Vec::<u32>::new());
    assert_eq!(asked.into_inner(), vec![(0, 0)]);
}

#[test]
fn cancelling_returns_the_run_up_to_that_chunk() {
    for stop in [10u32, 20, 50, 90] {
        let mut asked = 0;
        let cancelled = par_prime_generator_map_chunks(
            100,
            Vec::new(),
            0,
            10,
            |start, _| {
                asked += 1;
                start < stop
            },
            |_| {},
        );
        assert_eq!(asked, stop / 10 + 1);
        assert_eq!(
            cancelled,
            par_prime_generator_map_chunks(stop, Vec::new(), 0, 10, |_, _| true, |_| {}),
            "stop = {stop}"
        );
        assert_eq!(cancelled, primes_between(0, stop));
    }
}

#[test]
fn cancelling_the_first_chunk_returns_the_list_untouched() {
    let mut reported = 0;
    assert_eq!(
        par_prime_generator_map_chunks(100, Vec::new(), 0, 10, |_, _| false, |_| reported += 1),
        Vec::<u32>::new()
    );
    assert_eq!(
        par_prime_generator_map_chunks(100, vec![2, 3, 5], 0, 10, |_, _| false, |_| reported += 1),
        vec![2, 3, 5]
    );
    assert_eq!(reported, 0);
}

#[test]
fn chunked_run_resumes_from_its_frontier() {
    let direct = primes_between(0, 1_000);
    let mut frontier = 0;
    let first = par_prime_generator_map_chunks(
        1_000,
        Vec::new(),
        0,
        64,
        |start, _| {
            frontier = start;
            start < 300
        },
        |_| {},
    );
    assert_eq!(frontier, 320);
    assert_eq!(first, primes_between(0, 320));
    assert_eq!(
        par_prime_generator_map_chunks(1_000, first, frontier, 64, |_, _| true, |_| {}),
        direct
    );
}

#[test]
fn chunk_ends_are_clamped_at_the_largest_bound() {
    // The primes below 65536 are the divisors for everything below 2^32.
    let known = prime_generator(65_536, Vec::new(), 0);
    let before = known.len();
    assert_eq!(before, 6_542);
    let start = u32::MAX - 100;
    let asked = RefCell::new(Vec::new());
    let all = par_prime_generator_map_chunks(
        u32::MAX,
        known,
        start,
        u32::MAX - 7,
        |a, b| {
            asked.borrow_mut().push((a, b));
            true
        },
        |_| {},
    );
    assert_eq!(asked.into_inner(), vec![(start, u32::MAX)]);
    assert_eq!(
        &all[before..],
        &[4_294_967_197, 4_294_967_231, 4_294_967_279, 4_294_967_291]
    );
    assert_eq!(&all[before..], &primes_between(start, u32::MAX)[..]);

    let known = prime_generator(65_536, Vec::new(), 0);
    let asked = RefCell::new(Vec::new());
    let all = par_prime_generator_map_chunks(
        u32::MAX,
        known,
        start,
        60,
        |a, b| {
            asked.borrow_mut().push((a, b));
            true
        },
        |_| {},
    );
    assert_eq!(
        asked.into_inner(),
        vec![(start, start + 60), (start + 60, u32::MAX)]
    );
    assert_eq!(&all[before..], &primes_between(start, u32::MAX)[..]);
}

#[test]
fn range_generators_reach_the_largest_bound() {
    let known = prime_generator(65_536, Vec::new(), 0);
    let before = known.len();
    let all = prime_generator(u32::MAX, known.clone(), u32::MAX - 100);
    assert_eq!(&all[before..], &primes_between(u32::MAX - 100, u32::MAX)[..]);
    let all = par_prime_generator(u32::MAX, known, u32::MAX - 100);
    assert_eq!(&all[before..], &primes_between(u32::MAX - 100, u32::MAX)[..]);
}

#[test]
fn reserving_changes_nothing_but_the_capacity() {
    for estimate in [0usize, 1, 3, 4, 1_000] {
        let mut known = vec![2, 3, 5];
        let additional = reserve_estimated(&mut known, estimate);
        assert_eq!(additional, estimate.saturating_sub(3));
        assert_eq!(known, vec![2, 3, 5]);
        assert!(known.capacity() >= estimate);
        assert_eq!(
            prime_generator(50, known.clone(), 0),
            prime_generator(50, vec![2, 3, 5], 0)
        );
        assert_eq!(
            par_prime_generator(50, known, 0),
            par_prime_generator(50, vec![2, 3, 5], 0)
        );
    }
}

#[test]
fn chunk_ends_one_size_on_or_at_the_bound() {
    assert_eq!(end_of_chunk(0, 5, 20), 5);
    assert_eq!(end_of_chunk(10, 5, 20), 15);
    assert_eq!(end_of_chunk(15, 5, 20), 20);
    assert_eq!(end_of_chunk(18, 5, 20), 20);
    assert_eq!(end_of_chunk(0, 25, 20), 20);
    // A chunk that starts at or after the bound ends at the bound.
    assert_eq!(end_of_chunk(20, 5, 20), 20);
    assert_eq!(end_of_chunk(30, 5, 20), 20);
    assert_eq!(end_of_chunk(0, 5, 0), 0);
    // No wrapping at the largest values.
    assert_eq!(end_of_chunk(u32::MAX - 3, 10, u32::MAX), u32::MAX);
    assert_eq!(end_of_chunk(u32::MAX - 3, 2, u32::MAX), u32::MAX - 1);
    assert_eq!(end_of_chunk(u32::MAX - 3, 3, u32::MAX), u32::MAX);
    assert_eq!(end_of_chunk(u32::MAX, u32::MAX, u32::MAX), u32::MAX);
}

#[test]
fn reserving_asks_for_what_the_estimate_has_beyond_the_length() {
    let mut known: Vec<u32> = Vec::new();
    assert_eq!(reserve_estimated(&mut known, 0), 0);
    assert_eq!(reserve_estimated(&mut known, 11), 11);
    let mut known = vec![2, 3, 5, 7];
    assert_eq!(reserve_estimated(&mut known, 3), 0);
    assert_eq!(reserve_estimated(&mut known, 4), 0);
    assert_eq!(reserve_estimated(&mut known, 5), 1);
    assert_eq!(reserve_estimated(&mut known, 25), 21);
    assert_eq!(known, vec![2, 3, 5, 7]);
    assert!(known.capacity() >= 25);
}
