use numalgo::fibonacci;
use numalgo::fibonacci_recursive;

#[test]
fn fibonacci_base_values() {
    assert_eq!(fibonacci(0), 0);
    assert_eq!(fibonacci(1), 1);
    assert_eq!(fibonacci(10), 55);
}

#[test]
fn fibonacci_more_values() {
    assert_eq!(fibonacci(2), 1);
    assert_eq!(fibonacci(3), 2);
    assert_eq!(fibonacci(20), 6765);
    assert_eq!(fibonacci(50), 12586269025);
}

#[test]
fn fibonacci_recursive_base_values() {
    assert_eq!(fibonacci_recursive(0), 0);
    assert_eq!(fibonacci_recursive(1), 1);
    assert_eq!(fibonacci_recursive(10), 55);
}

#[test]
fn fibonacci_variants_agree_up_to_thirty() {
    let mut n: u32 = 0;
    while n <= 30 {
        assert_eq!(fibonacci(n), fibonacci_recursive(n));
        n += 1;
    }
}

#[test]
fn fibonacci_wraps_modulo_two_to_the_sixty_four() {
    // F(100) = 354224848179261915075; reduced modulo 2^64 it is
    // 354224848179261915075 - 19 * 2^64.
    assert_eq!(fibonacci(100), 3736710778780434371);
}
