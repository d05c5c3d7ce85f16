use numalgo::prime_sieve;

fn is_prime_by_trial_division(n: u32) -> bool {
    if n < 2 {
        return false;
    }
    let mut d: u32 = 2;
    while d < n {
        if n % d == 0 {
            return false;
        }
        d += 1;
    }
    true
}

#[test]
fn prime_sieve_examples() {
    assert_eq!(prime_sieve(10), vec![2, 3, 5, 7]);
    assert_eq!(prime_sieve(1), Vec::<u32>::new());
    assert_eq!(prime_sieve(2), vec![2]);
}

#[test]
fn prime_sieve_degenerate_limits() {
    assert_eq!(prime_sieve(0), Vec::<u32>::new());
    assert_eq!(prime_sieve(3), vec![2, 3]);
    assert_eq!(prime_sieve(4), vec![2, 3]);
}

#[test]
fn prime_sieve_matches_trial_division_up_to_ten_thousand() {
    let limit: u32 = 10_000;
    let primes = prime_sieve(limit);
    let expected: Vec<u32> = (0..=limit).filter(|&n| is_prime_by_trial_division(n)).collect();
    assert_eq!(primes.len(), expected.len());
    assert_eq!(primes, expected);
}

#[test]
fn prime_sieve_is_strictly_ascending() {
    let primes = prime_sieve(1000);
    for k in 1..primes.len() {
        assert!(primes[k - 1] < primes[k]);
    }
}
