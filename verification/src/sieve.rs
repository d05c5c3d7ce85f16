//! Sieve of Eratosthenes: all primes up to an inclusive bound, in
//! ascending order.
//!
//! The sieve marks 0 and 1 as non-prime, then for each candidate `p`
//! with `p * p <= limit` that is still marked prime, marks every
//! multiple of `p` from `p * p` upward as composite; smaller multiples
//! were already eliminated by smaller factors. The indices still marked
//! at the end are exactly the primes.

use vstd::arithmetic::div_mod::lemma_fundamental_div_mod;
use vstd::arithmetic::div_mod::lemma_mod_multiples_basic;
use vstd::arithmetic::div_mod::lemma_small_mod;
use vstd::prelude::*;

verus! {

/// A number is prime when it is at least 2 and no smaller number from 2
/// upward divides it.
pub open spec fn is_prime(n: int) -> bool {
    n >= 2 && forall|d: int| 2 <= d < n ==> #[trigger] (n % d) != 0
}

/// No candidate below `p` divides `i`, apart from `i` itself. This is
/// what a sieve cell still marked prime records after all candidates
/// below `p` have been processed.
pub open spec fn no_factor_below(i: int, p: int) -> bool {
    forall|d: int| 2 <= d < p && d != i ==> #[trigger] (i % d) != 0
}

/// Divisibility is transitive: a divisor of `p` divides every multiple
/// of `p`.
proof fn lemma_divides_transitive(d: int, p: int, i: int)
    requires
        2 <= d,
        2 <= p,
        p % d == 0,
        i % p == 0,
        0 <= i,
    ensures
        i % d == 0,
{
    lemma_fundamental_div_mod(i, p);
    lemma_fundamental_div_mod(p, d);
    let k = i / p;
    let m = p / d;
    assert(i == d * (m * k)) by (nonlinear_arith)
        requires
            i == p * k,
            p == d * m,
    ;
    lemma_mod_multiples_basic(m * k, d);
}

/// Two multiples of `p` less than `p` apart are equal.
proof fn lemma_multiple_spacing(a: int, b: int, p: int)
    requires
        1 <= p,
        0 <= b,
        a % p == 0,
        b % p == 0,
        b <= a < b + p,
    ensures
        a == b,
{
    lemma_fundamental_div_mod(a, p);
    lemma_fundamental_div_mod(b, p);
    assert(a == b) by (nonlinear_arith)
        requires
            a == p * (a / p),
            b == p * (b / p),
            b <= a < b + p,
            1 <= p,
    ;
}

/// For a cell that survived all candidates below a prime `p`, marking
/// the multiples of `p` from `p * p` upward leaves exactly the cells
/// that also have no factor `p`.
proof fn lemma_prime_step(i: int, p: int)
    requires
        2 <= p,
        2 <= i,
        no_factor_below(i, p),
    ensures
        no_factor_below(i, p + 1) <==> !(p * p <= i && i % p == 0),
{
    if i % p == 0 {
        if i < p {
            lemma_small_mod(i as nat, p as nat);
            assert(false);
        }
        lemma_fundamental_div_mod(i, p);
        let k = i / p;
        assert(i == p * k);
        assert(k >= 1) by (nonlinear_arith)
            requires
                i == p * k,
                i >= p,
                p >= 2,
        ;
        if k == 1 {
            assert(i == p) by (nonlinear_arith)
                requires
                    i == p * k,
                    k == 1,
            ;
            assert(!(p * p <= i)) by (nonlinear_arith)
                requires
                    i == p,
                    p >= 2,
            ;
            assert forall|d: int| 2 <= d < p + 1 && d != i implies #[trigger] (i % d) != 0 by {
                assert(d < p);
            }
        } else {
            assert(k >= 2);
            assert(i != p) by (nonlinear_arith)
                requires
                    i == p * k,
                    k >= 2,
                    p >= 2,
            ;
            if k >= p {
                assert(p * p <= i) by (nonlinear_arith)
                    requires
                        i == p * k,
                        k >= p,
                        p >= 2,
                ;
                assert(!no_factor_below(i, p + 1)) by {
                    assert(2 <= p < p + 1 && p != i && i % p == 0);
                }
            } else {
                // a cofactor 2 <= k < p would already have eliminated i
                assert(i % k == 0) by {
                    assert(i == k * p) by (nonlinear_arith)
                        requires
                            i == p * k,
                    ;
                    lemma_mod_multiples_basic(p, k);
                }
                assert(k != i) by (nonlinear_arith)
                    requires
                        i == p * k,
                        p >= 2,
                        k >= 2,
                ;
                assert(false);
            }
        }
    } else {
        assert forall|d: int| 2 <= d < p + 1 && d != i implies #[trigger] (i % d) != 0 by {
            if d == p {
            } else {
                assert(d < p);
            }
        }
    }
}

/// Processing a composite candidate `p` eliminates nothing new: any
/// multiple of `p` other than `p` itself was already eliminated by a
/// factor of `p`.
proof fn lemma_composite_step(i: int, p: int)
    requires
        2 <= p,
        2 <= i,
        no_factor_below(i, p),
        !no_factor_below(p, p),
    ensures
        no_factor_below(i, p + 1),
{
    let d0 = choose|d: int| 2 <= d < p && d != p && #[trigger] (p % d) == 0;
    assert(2 <= d0 < p && p % d0 == 0);
    assert forall|d: int| 2 <= d < p + 1 && d != i implies #[trigger] (i % d) != 0 by {
        if d == p {
            if i % p == 0 {
                if i < p {
                    lemma_small_mod(i as nat, p as nat);
                    assert(false);
                }
                lemma_divides_transitive(d0, p, i);
                assert(d0 != i);
                assert(false);
            }
        } else {
            assert(d < p);
        }
    }
}

/// Once every candidate up to the square root of `limit` has been
/// processed, the surviving cells at or below `limit` are exactly the
/// primes: a composite number always has a factor no larger than its
/// square root.
proof fn lemma_sieve_complete(i: int, p: int, limit: int)
    requires
        2 <= p,
        2 <= i <= limit,
        p * p > limit,
    ensures
        no_factor_below(i, p) <==> is_prime(i),
{
    if is_prime(i) {
        assert forall|d: int| 2 <= d < p && d != i implies #[trigger] (i % d) != 0 by {
            if d < i {
            } else {
                assert(d > i);
                lemma_small_mod(i as nat, d as nat);
            }
        }
    }
    if no_factor_below(i, p) && !is_prime(i) {
        let d = choose|d: int| 2 <= d < i && #[trigger] (i % d) == 0;
        lemma_fundamental_div_mod(i, d);
        let e = i / d;
        assert(i == d * e);
        assert(e >= 2) by (nonlinear_arith)
            requires
                i == d * e,
                2 <= d < i,
        ;
        assert(e < i) by (nonlinear_arith)
            requires
                i == d * e,
                2 <= d,
                2 <= e,
        ;
        assert(i % e == 0) by {
            lemma_mod_multiples_basic(d, e);
        }
        let f = if d <= e {
            d
        } else {
            e
        };
        assert(f * f <= i) by (nonlinear_arith)
            requires
                i == d * e,
                2 <= d,
                2 <= e,
                f == if d <= e {
                    d
                } else {
                    e
                },
        ;
        assert(f < p) by (nonlinear_arith)
            requires
                f * f <= i <= limit,
                limit < p * p,
                f >= 2,
                p >= 2,
        ;
        assert(f != i);
        assert(i % f == 0);
        assert(false);
    }
}

/// Sieve of Eratosthenes: returns every prime at most `limit`, in
/// strictly ascending order, each exactly once.
pub fn prime_sieve(limit: u32) -> (r: Vec<u32>)
    requires
        limit as int + 1 <= usize::MAX as int,
    ensures
        forall|k: int| 0 <= k < r@.len() ==> is_prime(#[trigger] r@[k] as int) && r@[k] <= limit,
        forall|k1: int, k2: int| 0 <= k1 < k2 < r@.len() ==> r@[k1] < r@[k2],
        forall|q: int| 2 <= q <= limit && is_prime(q) ==> r@.contains(q as u32),
{
    let n: usize = limit as usize + 1;
    let mut sieve: Vec<bool> = Vec::new();
    while sieve.len() < n
        invariant
            sieve.len() <= n,
            forall|k: int| 0 <= k < sieve.len() ==> sieve@[k] == true,
        decreases n - sieve.len(),
    {
        sieve.push(true);
    }
    sieve.set(0, false);
    if limit > 0 {
        sieve.set(1, false);
    }
    assert forall|i: int| 0 <= i <= limit implies #[trigger] sieve@[i] == (i >= 2 && no_factor_below(
        i,
        2,
    )) by {
        if i >= 2 {
            assert(no_factor_below(i, 2));
        }
    }

    let mut p: u64 = 2;
    while p * p <= limit as u64
        invariant
            2 <= p <= 0x2_0000,
            p as int * p as int <= 0x8_0000_0000,
            sieve@.len() == limit as int + 1,
            forall|i: int|
                0 <= i <= limit ==> #[trigger] sieve@[i] == (i >= 2 && no_factor_below(i, p as int)),
        decreases limit as int + 2 - p,
    {
        assert(p <= limit as u64) by (nonlinear_arith)
            requires
                p * p <= limit as u64,
                p >= 2,
        ;
        if sieve[p as usize] {
            let ghost pi = p as int;
            let mut m: u64 = p * p;
            proof {
                lemma_mod_multiples_basic(p as int, p as int);
                assert(m as int == pi * pi);
            }
            while m <= limit as u64
                invariant
                    2 <= p <= 0x2_0000,
                    p == pi,
                    p * p <= m,
                    m % p == 0,
                    m <= limit as u64 + p,
                    sieve@.len() == limit as int + 1,
                    forall|i: int|
                        0 <= i <= limit ==> #[trigger] sieve@[i] == (i >= 2 && no_factor_below(i, pi) && !(pi
                            * pi <= i < m && i % pi == 0)),
                decreases limit as int + p as int - m as int,
            {
                let ghost pre = sieve@;
                sieve.set(m as usize, false);
                proof {
                    lemma_mod_multiples_basic((m / p) as int, p as int);
                    assert((m as int + p as int) % (p as int) == 0) by {
                        lemma_fundamental_div_mod(m as int, p as int);
                        assert(m as int + p as int == p as int * (m as int / p as int + 1))
                            by (nonlinear_arith)
                            requires
                                m as int == p as int * (m as int / p as int),
                        ;
                        lemma_mod_multiples_basic(m as int / p as int + 1, p as int);
                    }
                    assert forall|i: int| 0 <= i <= limit implies #[trigger] sieve@[i] == (i >= 2
                        && no_factor_below(i, pi) && !(pi * pi <= i < m + p && i % pi
                        == 0)) by {
                        if i == m {
                            assert(sieve@[i] == false);
                            assert(pi * pi <= i && i % pi == 0);
                        } else {
                            assert(sieve@[i] == pre[i]);
                            if pi * pi <= i && i % pi == 0 && m <= i < m + p {
                                lemma_multiple_spacing(i, m as int, pi);
                            }
                        }
                    }
                }
                m = m + p;
            }
            proof {
                assert forall|i: int| 0 <= i <= limit implies #[trigger] sieve@[i] == (i >= 2
                    && no_factor_below(i, pi + 1)) by {
                    if i >= 2 {
                        if no_factor_below(i, pi) {
                            lemma_prime_step(i, pi);
                        } else {
                            assert(!no_factor_below(i, pi + 1)) by {
                                let d = choose|d: int|
                                    2 <= d < pi && d != i && #[trigger] (i % d) == 0;
                                assert(2 <= d < pi + 1 && d != i && i % d == 0);
                            }
                        }
                    }
                }
            }
        } else {
            proof {
                let ghost pi = p as int;
                assert(sieve@[pi] == false);
                assert(!no_factor_below(pi, pi));
                assert forall|i: int| 0 <= i <= limit implies #[trigger] sieve@[i] == (i >= 2
                    && no_factor_below(i, pi + 1)) by {
                    if i >= 2 {
                        if no_factor_below(i, pi) {
                            lemma_composite_step(i, pi);
                        } else {
                            assert(!no_factor_below(i, pi + 1)) by {
                                let d = choose|d: int|
                                    2 <= d < pi && d != i && #[trigger] (i % d) == 0;
                                assert(2 <= d < pi + 1 && d != i && i % d == 0);
                            }
                        }
                    }
                }
            }
        }
        proof {
            assert(p <= 0xFFFF) by (nonlinear_arith)
                requires
                    p as int * p as int <= 0xFFFF_FFFF,
                    p >= 2,
            ;
            assert((p + 1) as int * (p + 1) as int <= 0x8_0000_0000) by (nonlinear_arith)
                requires
                    p <= 0xFFFF,
            ;
        }
        p = p + 1;
    }
    proof {
        assert forall|i: int| 2 <= i <= limit implies #[trigger] sieve@[i] == is_prime(i) by {
            assert(p as int * p as int > limit) by (nonlinear_arith)
                requires
                    p * p > limit as u64,
            ;
            lemma_sieve_complete(i, p as int, limit as int);
        }
    }

    let mut primes: Vec<u32> = Vec::new();
    let mut i: u64 = 2;
    while i <= limit as u64
        invariant
            2 <= i,
            sieve@.len() == limit as int + 1,
            forall|j: int| 2 <= j <= limit ==> #[trigger] sieve@[j] == is_prime(j),
            forall|k: int|
                0 <= k < primes@.len() ==> is_prime(#[trigger] primes@[k] as int) && (primes@[k]
                    as int) < i && primes@[k] <= limit,
            forall|k1: int, k2: int| 0 <= k1 < k2 < primes@.len() ==> primes@[k1] < primes@[k2],
            forall|q: int| 2 <= q < i && is_prime(q) ==> primes@.contains(q as u32),
        decreases limit as int + 1 - i,
    {
        if sieve[i as usize] {
            let ghost pre = primes@;
            primes.push(i as u32);
            proof {
                assert forall|q: int| 2 <= q < i + 1 && is_prime(q) implies primes@.contains(
                    q as u32,
                ) by {
                    if q < i {
                        let k = choose|k: int| 0 <= k < pre.len() && pre[k] == q as u32;
                        assert(primes@[k] == q as u32);
                    } else {
                        assert(primes@[primes@.len() - 1] == q as u32);
                    }
                }
            }
        }
        i = i + 1;
    }
    primes
}

} // verus!
