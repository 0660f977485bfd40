//! The mathematical notion of primality, and the facts about divisors that
//! justify a sieve: a composite number always has a prime factor no larger
//! than its square root, so striking multiples of the small primes is enough
//! to expose every prime below a bound.

use vstd::prelude::*;
use vstd::arithmetic::div_mod::lemma_fundamental_div_mod;
use vstd::arithmetic::div_mod::lemma_mod_multiples_basic;
use vstd::arithmetic::div_mod::lemma_mod_self_0;

verus! {

/// `d` divides `n` evenly.
pub open spec fn divides(d: int, n: int) -> bool {
    n % d == 0
}

/// A prime is at least 2 and has no divisor strictly between 1 and itself.
pub open spec fn is_prime(n: int) -> bool {
    n >= 2 && forall|d: int| 2 <= d < n ==> !(#[trigger] divides(d, n))
}

/// Some prime strictly below `hi` divides `k`, and its square is at most `k`.
/// This is exactly the set of numbers a sieve has struck after processing
/// every candidate below `hi`.
pub open spec fn has_prime_factor_below(k: int, hi: int) -> bool {
    exists|p: int| is_prime(p) && p < hi && p * p <= k && #[trigger] divides(p, k)
}

/// Divisibility is transitive.
proof fn lemma_divides_transitive(a: int, b: int, c: int)
    requires
        1 <= a,
        1 <= b,
        divides(a, b),
        divides(b, c),
    ensures
        divides(a, c),
{
    lemma_fundamental_div_mod(b, a);
    lemma_fundamental_div_mod(c, b);
    let q1: int = b / a;
    let q2: int = c / b;
    assert(c == (q2 * q1) * a) by (nonlinear_arith)
        requires
            b == a * q1,
            c == b * q2,
    ;
    lemma_mod_multiples_basic(q2 * q1, a);
}

/// Every integer of at least 2 has a prime factor (possibly itself).
pub proof fn lemma_exists_prime_factor(n: int)
    requires
        n >= 2,
    ensures
        exists|p: int| is_prime(p) && 2 <= p <= n && #[trigger] divides(p, n),
    decreases n,
{
    if is_prime(n) {
        lemma_mod_self_0(n);
        assert(is_prime(n) && 2 <= n <= n && divides(n, n));
    } else {
        assert(exists|d: int| 2 <= d < n && #[trigger] divides(d, n));
        let d: int = choose|d: int| 2 <= d < n && #[trigger] divides(d, n);
        lemma_exists_prime_factor(d);
        let p: int = choose|p: int| is_prime(p) && 2 <= p <= d && #[trigger] divides(p, d);
        lemma_divides_transitive(p, d, n);
        assert(is_prime(p) && 2 <= p <= n && divides(p, n));
    }
}

/// A composite number has a prime factor whose square does not exceed it:
/// of a factorisation n == d * e, the smaller side is at most the square
/// root of n, and any prime factor of that side is at most the side itself.
pub proof fn lemma_composite_has_small_prime_factor(n: int)
    requires
        n >= 2,
        !is_prime(n),
    ensures
        exists|p: int| is_prime(p) && p * p <= n && #[trigger] divides(p, n),
{
    let d: int = choose|d: int| 2 <= d < n && #[trigger] divides(d, n);
    lemma_fundamental_div_mod(n, d);
    let e: int = n / d;
    assert(n == d * e);
    assert(2 <= e) by (nonlinear_arith)
        requires
            n == d * e,
            2 <= d,
            d < n,
            n >= 2,
    ;
    let m: int = if d <= e { d } else { e };
    assert(m * m <= n) by (nonlinear_arith)
        requires
            n == d * e,
            2 <= d,
            2 <= e,
            m <= d,
            m <= e,
            0 <= m,
    ;
    if m == e {
        lemma_mod_multiples_basic(d, e);
        assert(divides(e, n));
    }
    lemma_exists_prime_factor(m);
    let p: int = choose|p: int| is_prime(p) && 2 <= p <= m && #[trigger] divides(p, m);
    lemma_divides_transitive(p, m, n);
    assert(p * p <= m * m) by (nonlinear_arith)
        requires
            2 <= p,
            p <= m,
    ;
    assert(is_prime(p) && p * p <= n && divides(p, n));
}

/// A number with a divisor strictly between 1 and itself is not prime.
proof fn lemma_proper_divisor_not_prime(p: int, k: int)
    requires
        2 <= p < k,
        divides(p, k),
    ensures
        !is_prime(k),
{
    if is_prime(k) {
        assert(!divides(p, k));
        assert(false);
    }
}

/// A number struck by the sieve is composite: it is divisible by a prime
/// that is strictly smaller than it.
pub proof fn lemma_small_factor_not_prime(k: int, hi: int)
    requires
        has_prime_factor_below(k, hi),
    ensures
        !is_prime(k),
{
    let p: int = choose|p: int| is_prime(p) && p < hi && p * p <= k && #[trigger] divides(p, k);
    assert(p < k) by (nonlinear_arith)
        requires
            2 <= p,
            p * p <= k,
    ;
    lemma_proper_divisor_not_prime(p, k);
}

/// A number left unstruck is prime, provided the sieve has processed every
/// candidate up to the number's own square root.
pub proof fn lemma_unstruck_is_prime(k: int, hi: int)
    requires
        2 <= k,
        0 <= hi,
        k < hi * hi,
        !has_prime_factor_below(k, hi),
    ensures
        is_prime(k),
{
    if !is_prime(k) {
        lemma_composite_has_small_prime_factor(k);
        let p: int = choose|p: int| is_prime(p) && p * p <= k && #[trigger] divides(p, k);
        assert(p < hi) by (nonlinear_arith)
            requires
                2 <= p,
                0 <= hi,
                p * p <= k,
                k < hi * hi,
        ;
        assert(has_prime_factor_below(k, hi));
        assert(false);
    }
}

/// Passing a composite candidate adds no newly struck numbers: only primes
/// strike multiples.
pub proof fn lemma_factor_below_step_composite(k: int, hi: int)
    requires
        !is_prime(hi),
    ensures
        has_prime_factor_below(k, hi + 1) == has_prime_factor_below(k, hi),
{
    if has_prime_factor_below(k, hi + 1) {
        let p: int = choose|p: int|
            is_prime(p) && p < hi + 1 && p * p <= k && #[trigger] divides(p, k);
        assert(p != hi);
        assert(has_prime_factor_below(k, hi));
    }
    if has_prime_factor_below(k, hi) {
        let p: int = choose|p: int| is_prime(p) && p < hi && p * p <= k && #[trigger] divides(p, k);
        assert(is_prime(p) && p < hi + 1 && p * p <= k && divides(p, k));
    }
}

/// Passing a prime candidate strikes exactly the multiples of that prime
/// from its square upward, on top of what was struck before.
pub proof fn lemma_factor_below_step_prime(k: int, hi: int)
    requires
        is_prime(hi),
    ensures
        has_prime_factor_below(k, hi + 1) == (has_prime_factor_below(k, hi) || (divides(hi, k)
            && hi * hi <= k)),
{
    if has_prime_factor_below(k, hi + 1) {
        let p: int = choose|p: int|
            is_prime(p) && p < hi + 1 && p * p <= k && #[trigger] divides(p, k);
        if p < hi {
            assert(has_prime_factor_below(k, hi));
        }
    }
    if has_prime_factor_below(k, hi) {
        let p: int = choose|p: int| is_prime(p) && p < hi && p * p <= k && #[trigger] divides(p, k);
        assert(is_prime(p) && p < hi + 1 && p * p <= k && divides(p, k));
    }
    if divides(hi, k) && hi * hi <= k {
        assert(is_prime(hi) && hi < hi + 1 && hi * hi <= k && divides(hi, k));
    }
}

/// Two multiples of `i` are at least `i` apart.
pub proof fn lemma_next_multiple(i: int, a: int, b: int)
    requires
        1 <= i,
        divides(i, a),
        divides(i, b),
        a < b,
    ensures
        a + i <= b,
{
    lemma_fundamental_div_mod(a, i);
    lemma_fundamental_div_mod(b, i);
    let qa: int = a / i;
    let qb: int = b / i;
    assert(a + i <= b) by (nonlinear_arith)
        requires
            a == i * qa,
            b == i * qb,
            a < b,
            1 <= i,
    ;
}

/// Stepping from one multiple of `i` to the next stays a multiple.
pub proof fn lemma_multiple_plus(i: int, j: int)
    requires
        1 <= i,
        divides(i, j),
    ensures
        divides(i, j + i),
{
    lemma_fundamental_div_mod(j, i);
    let q: int = j / i;
    assert(j + i == (q + 1) * i) by (nonlinear_arith)
        requires
            j == i * q,
    ;
    lemma_mod_multiples_basic(q + 1, i);
}

/// The square of `i` is a multiple of `i`.
pub proof fn lemma_square_is_multiple(i: int)
    requires
        1 <= i,
    ensures
        divides(i, i * i),
{
    lemma_mod_multiples_basic(i, i);
}

} // verus!
