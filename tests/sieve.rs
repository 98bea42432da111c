use nt::prime::isqrt;
use nt::segmented::{find_primes, find_primes_v5};
use nt::sieve::{find_primes_v1, find_primes_v2, find_primes_v3, find_primes_v4};

const UP_TO_30: [usize; 10] = [2, 3, 5, 7, 11, 13, 17, 19, 23, 29];

#[test]
fn every_variation_lists_primes_to_30() {
    assert_eq!(find_primes_v1(30), UP_TO_30.to_vec());
    assert_eq!(find_primes_v2(30), UP_TO_30.to_vec());
    assert_eq!(find_primes_v3(30), UP_TO_30.to_vec());
    assert_eq!(find_primes_v4(30), UP_TO_30.to_vec());
    assert_eq!(find_primes_v5(30), UP_TO_30.to_vec());
}

#[test]
fn small_limits() {
    for v in 1..=5u32 {
        assert_eq!(find_primes(0, v), Vec::<usize>::new());
        assert_eq!(find_primes(1, v), Vec::<usize>::new());
        assert_eq!(find_primes(2, v), vec![2]);
        assert_eq!(find_primes(3, v), vec![2, 3]);
        assert_eq!(find_primes(4, v), vec![2, 3]);
        assert_eq!(find_primes(9, v), vec![2, 3, 5, 7]);
    }
}

#[test]
fn unknown_variation_falls_back() {
    assert_eq!(find_primes(30, 42), UP_TO_30.to_vec());
}

#[test]
fn variations_agree_across_segments() {
    let limit = 1_100_000;
    let reference = find_primes_v1(limit);
    assert_eq!(find_primes_v2(limit), reference);
    assert_eq!(find_primes_v3(limit), reference);
    assert_eq!(find_primes_v4(limit), reference);
    assert_eq!(find_primes_v5(limit), reference);
}

#[test]
fn prime_counts() {
    assert_eq!(find_primes_v4(100).len(), 25);
    assert_eq!(find_primes_v2(1000).len(), 168);
    assert_eq!(find_primes_v5(1_000_000).len(), 78_498);
}

#[test]
fn integer_square_root() {
    assert_eq!(isqrt(0), 0);
    assert_eq!(isqrt(1), 1);
    assert_eq!(isqrt(24), 4);
    assert_eq!(isqrt(25), 5);
    assert_eq!(isqrt(1_000_000), 1000);
    assert_eq!(isqrt(usize::MAX), 4_294_967_295);
}
