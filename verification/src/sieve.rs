//! The sieve of Eratosthenes: compute the ordered sequence of all primes
//! strictly below a given bound.

use vstd::prelude::*;
use crate::primality::divides;
use crate::primality::has_prime_factor_below;
use crate::primality::is_prime;
use crate::primality::lemma_factor_below_step_composite;
use crate::primality::lemma_factor_below_step_prime;
use crate::primality::lemma_multiple_plus;
use crate::primality::lemma_next_multiple;
use crate::primality::lemma_small_factor_not_prime;
use crate::primality::lemma_square_is_multiple;
use crate::primality::lemma_unstruck_is_prime;

verus! {

/// The one failure the sieve reports: a bound that admits no candidate
/// numbers at all (`bound <= 1`).
#[derive(Clone, Copy, Debug, PartialEq, Eq, Structural)]
pub enum SieveError {
    InvalidArgument,
}

/// `s` lists exactly the primes below `bound`: every entry is prime and in
/// range, the entries are strictly ascending, and every prime in range
/// appears at some position.
pub open spec fn prime_seq_upto(s: Seq<usize>, bound: int) -> bool {
    &&& forall|t: int| 0 <= t < s.len() ==> is_prime(#[trigger] (s[t] as int))
    &&& forall|t: int| 0 <= t < s.len() ==> 2 <= #[trigger] (s[t] as int) < bound
    &&& forall|t1: int, t2: int| 0 <= t1 < t2 < s.len() ==> s[t1] < s[t2]
    &&& forall|q: int|
        2 <= q < bound && #[trigger] is_prime(q) ==> exists|t: int|
            0 <= t < s.len() && #[trigger] (s[t] as int) == q
}

/// Appending a prime `p` to a complete ascending listing of the primes
/// below `p` yields a complete ascending listing of the primes below `p + 1`.
proof fn lemma_prime_seq_push(s: Seq<usize>, p: usize)
    requires
        prime_seq_upto(s, p as int),
        is_prime(p as int),
    ensures
        prime_seq_upto(s.push(p), p as int + 1),
{
    let s2 = s.push(p);
    assert(s2[s.len() as int] as int == p as int);
    assert forall|t: int| 0 <= t < s2.len() implies is_prime(#[trigger] (s2[t] as int)) by {
        if t < s.len() {
            assert(s2[t] == s[t]);
        }
    }
    assert forall|t: int| 0 <= t < s2.len() implies 2 <= #[trigger] (s2[t] as int) < p as int
        + 1 by {
        if t < s.len() {
            assert(s2[t] == s[t]);
        }
    }
    assert forall|t1: int, t2: int| 0 <= t1 < t2 < s2.len() implies s2[t1] < s2[t2] by {
        assert(s2[t1] == s[t1]);
        if t2 < s.len() {
            assert(s2[t2] == s[t2]);
        }
    }
    assert forall|q: int| 2 <= q < p as int + 1 && #[trigger] is_prime(q) implies exists|t: int|
        0 <= t < s2.len() && #[trigger] (s2[t] as int) == q by {
        if q < p as int {
            let t: int = choose|t: int| 0 <= t < s.len() && #[trigger] (s[t] as int) == q;
            assert(s2[t] as int == q);
        } else {
            assert(s2[s.len() as int] as int == q);
        }
    }
}

/// A composite candidate adds nothing: the primes below `hi` are already
/// the primes below `hi + 1`.
proof fn lemma_prime_seq_skip(s: Seq<usize>, hi: int)
    requires
        prime_seq_upto(s, hi),
        !is_prime(hi),
    ensures
        prime_seq_upto(s, hi + 1),
{
    assert forall|q: int| 2 <= q < hi + 1 && #[trigger] is_prime(q) implies exists|t: int|
        0 <= t < s.len() && #[trigger] (s[t] as int) == q by {
        assert(q != hi);
    }
}

/// Integer square root: the greatest `r` with `r * r <= n`.
pub fn isqrt(n: usize) -> (r: usize)
    ensures
        r * r <= n,
        n < (r + 1) * (r + 1),
{
    let mut r: usize = 0;
    loop
        invariant
            r * r <= n,
            r <= n,
        ensures
            r * r <= n,
            n < (r + 1) * (r + 1),
        decreases n - r,
    {
        proof {
            assert(r + 1 <= 0x1_0000_0000) by (nonlinear_arith)
                requires
                    r * r <= n,
                    n <= 0xffff_ffff_ffff_ffff,
                    0 <= r,
            ;
        }
        let next: u128 = r as u128 + 1;
        proof {
            assert(next * next <= 0x1_0000_0000_0000_0000) by (nonlinear_arith)
                requires
                    next <= 0x1_0000_0000,
                    0 <= next,
            ;
        }
        if next * next <= n as u128 {
            proof {
                assert(next <= n) by (nonlinear_arith)
                    requires
                        next * next <= n,
                        1 <= next,
                ;
            }
            r = r + 1;
        } else {
            break;
        }
    }
    r
}

/// Compute all primes strictly below `val` with the sieve of Eratosthenes:
/// strike the multiples of each prime up to the square root of `val`,
/// starting at the prime's square; whatever is left unstruck is prime.
pub fn all_primes_to(val: usize) -> (primes: Vec<usize>)
    requires
        val > 1,
    ensures
        prime_seq_upto(primes@, val as int),
{
    let mut primes: Vec<usize> = Vec::new();

    // one flag per candidate; `true` means "known composite"
    let mut marked: Vec<bool> = Vec::new();
    while marked.len() < val
        invariant
            marked@.len() <= val,
            forall|k: int| 0 <= k < marked@.len() ==> !(#[trigger] marked@[k]),
        decreases val - marked@.len(),
    {
        marked.push(false);
    }

    let limit = isqrt(val);
    proof {
        assert(limit < val) by (nonlinear_arith)
            requires
                limit * limit <= val,
                1 < val,
                0 <= limit,
        ;
        assert(1 <= limit) by (nonlinear_arith)
            requires
                val < (limit + 1) * (limit + 1),
                1 < val,
                0 <= limit,
        ;
        // nothing is struck yet, and no prime below 2 exists
        assert forall|k: int| 0 <= k < val implies !has_prime_factor_below(k, 2) by {
            if has_prime_factor_below(k, 2) {
                let p: int = choose|p: int|
                    is_prime(p) && p < 2 && p * p <= k && #[trigger] divides(p, k);
                assert(false);
            }
        }
    }

    let mut i: usize = 2;
    while i <= limit
        invariant
            marked@.len() == val,
            1 < val,
            2 <= i <= limit + 1,
            1 <= limit,
            limit < val,
            limit * limit <= val,
            val < (limit + 1) * (limit + 1),
            prime_seq_upto(primes@, i as int),
            forall|k: int|
                0 <= k < val ==> ((#[trigger] marked@[k]) <==> has_prime_factor_below(
                    k,
                    i as int,
                )),
        decreases limit + 1 - i,
    {
        if !marked[i] {
            proof {
                // unstruck at its turn, so no smaller prime divides it: prime
                assert(!has_prime_factor_below(i as int, i as int));
                assert((i as int) < (i as int) * (i as int)) by (nonlinear_arith)
                    requires
                        2 <= i,
                ;
                lemma_unstruck_is_prime(i as int, i as int);
            }
            let ghost pre = primes@;
            primes.push(i);
            proof {
                lemma_prime_seq_push(pre, i);
                assert((i as int) * (i as int) <= limit * limit) by (nonlinear_arith)
                    requires
                        0 <= i,
                        i <= limit,
                ;
                lemma_square_is_multiple(i as int);
            }
            let mut j: usize = i * i;
            while j < val
                invariant_except_break
                    forall|k: int|
                        0 <= k < val ==> ((#[trigger] marked@[k]) <==> (has_prime_factor_below(
                            k,
                            i as int,
                        ) || (divides(i as int, k) && i * i <= k < j))),
                invariant
                    marked@.len() == val,
                    2 <= i,
                    i * i <= j,
                    divides(i as int, j as int),
                ensures
                    marked@.len() == val,
                    forall|k: int|
                        0 <= k < val ==> ((#[trigger] marked@[k]) <==> (has_prime_factor_below(
                            k,
                            i as int,
                        ) || (divides(i as int, k) && i * i <= k))),
                decreases val - j,
            {
                marked.set(j, true);
                proof {
                    // only `j` itself changes class: the next multiple is `j + i` away
                    assert forall|k: int|
                        0 <= k < val implies ((#[trigger] marked@[k]) <==> (
                        has_prime_factor_below(k, i as int) || (divides(i as int, k) && i * i <= k
                            < j + i))) by {
                        if k != j && divides(i as int, k) && j < k < j + i {
                            lemma_next_multiple(i as int, j as int, k);
                            assert(false);
                        }
                    }
                }
                if val - j <= i {
                    // the next multiple already reaches the bound
                    break;
                }
                proof {
                    lemma_multiple_plus(i as int, j as int);
                }
                j = j + i;
            }
            proof {
                assert forall|k: int|
                    0 <= k < val implies ((#[trigger] marked@[k]) <==> has_prime_factor_below(
                    k,
                    i as int + 1,
                )) by {
                    lemma_factor_below_step_prime(k, i as int);
                }
            }
        } else {
            proof {
                assert(has_prime_factor_below(i as int, i as int));
                lemma_small_factor_not_prime(i as int, i as int);
                lemma_prime_seq_skip(primes@, i as int);
                assert forall|k: int|
                    0 <= k < val implies ((#[trigger] marked@[k]) <==> has_prime_factor_below(
                    k,
                    i as int + 1,
                )) by {
                    lemma_factor_below_step_composite(k, i as int);
                }
            }
        }
        i = i + 1;
    }

    // every composite below `val` has a prime factor at most `limit`,
    // so the flags now classify every candidate exactly
    while i < val
        invariant
            marked@.len() == val,
            1 < val,
            1 <= limit,
            limit + 1 <= i <= val,
            val < (limit + 1) * (limit + 1),
            prime_seq_upto(primes@, i as int),
            forall|k: int|
                0 <= k < val ==> ((#[trigger] marked@[k]) <==> has_prime_factor_below(
                    k,
                    limit as int + 1,
                )),
        decreases val - i,
    {
        if !marked[i] {
            proof {
                lemma_unstruck_is_prime(i as int, limit as int + 1);
            }
            let ghost pre = primes@;
            primes.push(i);
            proof {
                lemma_prime_seq_push(pre, i);
            }
        } else {
            proof {
                lemma_small_factor_not_prime(i as int, limit as int + 1);
                lemma_prime_seq_skip(primes@, i as int);
            }
        }
        i = i + 1;
    }
    primes
}

/// Compute all primes strictly below `bound`, rejecting bounds that admit
/// no candidates: for `bound > 1` the result is exactly the ascending
/// sequence of primes in `[2, bound)`, and for `bound <= 1` the call fails
/// with `InvalidArgument`.
pub fn compute_primes(bound: usize) -> (r: Result<Vec<usize>, SieveError>)
    ensures
        bound > 1 ==> (r matches Ok(primes) && prime_seq_upto(primes@, bound as int)),
        bound <= 1 ==> r == Result::<Vec<usize>, SieveError>::Err(SieveError::InvalidArgument),
{
    if bound <= 1 {
        Err(SieveError::InvalidArgument)
    } else {
        Ok(all_primes_to(bound))
    }
}

/// Every prime appears at most once in the result: a strictly ascending
/// sequence holds equal values only at equal positions, so together with
/// the completeness clause of `prime_seq_upto`, each prime below the bound
/// appears exactly once.
pub proof fn lemma_primes_listed_once(s: Seq<usize>, bound: int, t1: int, t2: int)
    requires
        prime_seq_upto(s, bound),
        0 <= t1 < s.len(),
        0 <= t2 < s.len(),
        s[t1] == s[t2],
    ensures
        t1 == t2,
{
    if t1 < t2 {
        assert(s[t1] < s[t2]);
    }
    if t2 < t1 {
        assert(s[t2] < s[t1]);
    }
}

} // verus!
