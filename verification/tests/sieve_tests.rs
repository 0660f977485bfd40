use prime_sieve::sieve::all_primes_to;
use prime_sieve::sieve::compute_primes;
use prime_sieve::sieve::isqrt;
use prime_sieve::sieve::SieveError;

/// Trial-division primality check, independent of the library's sieve.
fn is_prime_by_trial_division(n: usize) -> bool {
    if n < 2 {
        return false;
    }
    let mut d: usize = 2;
    while d < n {
        if n % d == 0 {
            return false;
        }
        d += 1;
    }
    true
}

#[test]
fn rejects_bound_zero() {
    assert_eq!(compute_primes(0), Err(SieveError::InvalidArgument));
}

#[test]
fn rejects_bound_one() {
    assert_eq!(compute_primes(1), Err(SieveError::InvalidArgument));
}

#[test]
fn empty_below_two() {
    assert_eq!(compute_primes(2), Ok(vec![]));
}

#[test]
fn single_prime_below_three() {
    assert_eq!(compute_primes(3), Ok(vec![2]));
}

#[test]
fn primes_below_ten() {
    assert_eq!(compute_primes(10), Ok(vec![2, 3, 5, 7]));
}

#[test]
fn primes_below_thirty() {
    let primes = compute_primes(30).unwrap();
    assert_eq!(primes, vec![2, 3, 5, 7, 11, 13, 17, 19, 23, 29]);
    assert_eq!(primes.len(), 10);
}

#[test]
fn prime_count_below_ten_thousand() {
    let primes = compute_primes(10000).unwrap();
    assert_eq!(primes.len(), 1229);
}

#[test]
fn all_primes_to_matches_compute_primes() {
    assert_eq!(all_primes_to(10), vec![2, 3, 5, 7]);
    assert_eq!(all_primes_to(2), vec![]);
    assert_eq!(all_primes_to(10000), compute_primes(10000).unwrap());
}

#[test]
fn every_value_is_prime() {
    let primes = all_primes_to(1000);
    for &p in &primes {
        assert!(is_prime_by_trial_division(p), "{} is not prime", p);
    }
}

#[test]
fn every_prime_in_range_appears_exactly_once() {
    let primes = all_primes_to(1000);
    for q in 0..1000 {
        let expected = if is_prime_by_trial_division(q) { 1 } else { 0 };
        let count = primes.iter().filter(|&&p| p == q).count();
        assert_eq!(count, expected, "{} appears {} times", q, count);
    }
}

#[test]
fn result_is_strictly_ascending() {
    let primes = all_primes_to(1000);
    for w in primes.windows(2) {
        assert!(w[0] < w[1]);
    }
}

#[test]
fn perfect_square_bounds() {
    // bounds at and around perfect squares exercise the sieve limit
    assert_eq!(all_primes_to(4), vec![2, 3]);
    assert_eq!(all_primes_to(5), vec![2, 3]);
    assert_eq!(
        all_primes_to(25),
        vec![2, 3, 5, 7, 11, 13, 17, 19, 23]
    );
    assert_eq!(
        all_primes_to(26),
        vec![2, 3, 5, 7, 11, 13, 17, 19, 23]
    );
    assert_eq!(
        all_primes_to(49),
        vec![2, 3, 5, 7, 11, 13, 17, 19, 23, 29, 31, 37, 41, 43, 47]
    );
}

#[test]
fn integer_square_root_floors() {
    assert_eq!(isqrt(0), 0);
    assert_eq!(isqrt(1), 1);
    assert_eq!(isqrt(2), 1);
    assert_eq!(isqrt(3), 1);
    assert_eq!(isqrt(4), 2);
    assert_eq!(isqrt(8), 2);
    assert_eq!(isqrt(9), 3);
    assert_eq!(isqrt(10), 3);
    assert_eq!(isqrt(9999), 99);
    assert_eq!(isqrt(10000), 100);
    assert_eq!(isqrt(10200), 100);
    assert_eq!(isqrt(10201), 101);
}
