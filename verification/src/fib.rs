//! Fibonacci numbers, computed iteratively and by naive double recursion.
//!
//! Both functions return the n-th Fibonacci number reduced modulo 2^64:
//! overflow wraps, as fixed-width unsigned arithmetic does, and that
//! wraparound is accepted behavior rather than an error.

use vstd::arithmetic::div_mod::lemma_add_mod_noop;
use vstd::arithmetic::div_mod::lemma_small_mod;
use vstd::prelude::*;

verus! {

/// The mathematical Fibonacci sequence: F(0) = 0, F(1) = 1,
/// F(k) = F(k-1) + F(k-2).
pub open spec fn spec_fib(n: nat) -> nat
    decreases n,
{
    if n == 0 {
        0
    } else if n == 1 {
        1
    } else {
        spec_fib((n - 1) as nat) + spec_fib((n - 2) as nat)
    }
}

/// 2^64, the modulus of wrapping `u64` arithmetic.
pub open spec fn fib_modulus() -> nat {
    0x1_0000_0000_0000_0000
}

/// `x.wrapping_add(y)` on `u64` is addition modulo 2^64.
proof fn lemma_wrapping_add_is_mod_add(x: u64, y: u64)
    ensures
        vstd::wrapping::u64_specs::wrapping_add(x, y) as nat == (x as nat + y as nat)
            % fib_modulus(),
{
    let s = x as int + y as int;
    let m = fib_modulus() as int;
    if s > u64::MAX {
        vstd::arithmetic::div_mod::lemma_mod_sub_multiples_vanish(s, m);
        lemma_small_mod((s - m) as nat, fib_modulus());
    } else {
        lemma_small_mod(s as nat, fib_modulus());
    }
}

/// The modular Fibonacci step: adding the two previous values modulo 2^64
/// yields the next value modulo 2^64.
proof fn lemma_fib_step_mod(k: nat)
    requires
        k >= 2,
    ensures
        ((spec_fib((k - 2) as nat) % fib_modulus()) as int + (spec_fib((k - 1) as nat)
            % fib_modulus()) as int) % (fib_modulus() as int) == spec_fib(k) % fib_modulus(),
{
    lemma_add_mod_noop(
        spec_fib((k - 2) as nat) as int,
        spec_fib((k - 1) as nat) as int,
        fib_modulus() as int,
    );
}

/// Iterative linear-time Fibonacci: two running values, one step per index.
pub fn fibonacci(n: u32) -> (r: u64)
    ensures
        r as nat == spec_fib(n as nat) % fib_modulus(),
{
    match n {
        0 => {
            proof {
                lemma_small_mod(0, fib_modulus());
            }
            0
        },
        1 => {
            proof {
                lemma_small_mod(1, fib_modulus());
            }
            1
        },
        _ => {
            let mut a: u64 = 0;
            let mut b: u64 = 1;
            let mut i: u64 = 2;
            proof {
                lemma_small_mod(0, fib_modulus());
                lemma_small_mod(1, fib_modulus());
            }
            while i <= n as u64
                invariant
                    2 <= i <= n as u64 + 1,
                    a as nat == spec_fib((i - 2) as nat) % fib_modulus(),
                    b as nat == spec_fib((i - 1) as nat) % fib_modulus(),
                decreases n as u64 + 1 - i,
            {
                let temp = a.wrapping_add(b);
                proof {
                    lemma_wrapping_add_is_mod_add(a, b);
                    lemma_fib_step_mod(i as nat);
                }
                a = b;
                b = temp;
                i = i + 1;
            }
            b
        },
    }
}

/// Naive doubly recursive Fibonacci: the exponential-time baseline, with
/// the same results as the iterative version on every input.
pub fn fibonacci_recursive(n: u32) -> (r: u64)
    ensures
        r as nat == spec_fib(n as nat) % fib_modulus(),
    decreases n,
{
    match n {
        0 => {
            proof {
                lemma_small_mod(0, fib_modulus());
            }
            0
        },
        1 => {
            proof {
                lemma_small_mod(1, fib_modulus());
            }
            1
        },
        _ => {
            let x = fibonacci_recursive(n - 1);
            let y = fibonacci_recursive(n - 2);
            let r = x.wrapping_add(y);
            proof {
                lemma_wrapping_add_is_mod_add(x, y);
                lemma_add_mod_noop(
                    spec_fib((n - 2) as nat) as int,
                    spec_fib((n - 1) as nat) as int,
                    fib_modulus() as int,
                );
            }
            r
        },
    }
}

/// The two Fibonacci implementations agree on every input: any two
/// results that meet their common contract are equal.
pub proof fn lemma_fibonacci_variants_agree(n: u32, r1: u64, r2: u64)
    requires
        r1 as nat == spec_fib(n as nat) % fib_modulus(),
        r2 as nat == spec_fib(n as nat) % fib_modulus(),
    ensures
        r1 == r2,
{
}

} // verus!
