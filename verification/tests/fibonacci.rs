use zkvm_fib_bench::fibonacci::{fast_doubling, fib, fib_by_algorithm, in_bounds, linear, MODULUS};

fn reference(n: u32) -> (u32, u32) {
    let (mut a, mut b) = (0u64, 1u64);
    for _ in 0..n {
        let c = (a + b) % 7919;
        a = b;
        b = c;
    }
    (a as u32, b as u32)
}

#[test]
fn modulus_is_7919() {
    assert_eq!(MODULUS, 7919);
}

#[test]
fn fib_small_values() {
    assert_eq!(fib(0), (0, 1));
    assert_eq!(fib(1), (1, 1));
    assert_eq!(fib(2), (1, 2));
    assert_eq!(fib(10), (55, 89));
    assert_eq!(fib(20), (6765, 3027));
    assert_eq!(fib(21), (3027, 1873));
}

#[test]
fn fib_benchmark_size() {
    assert_eq!(fib(10_000), (5721, 3397));
    assert_eq!(linear(10_000), (5721, 3397));
    assert_eq!(fast_doubling(10_000), (5721, 3397));
}

#[test]
fn linear_matches_reference() {
    for n in [0u32, 1, 2, 3, 10, 100, 1000, 100_000] {
        assert_eq!(linear(n), reference(n));
    }
    assert_eq!(linear(100), (3594, 6073));
    assert_eq!(linear(1000), (5965, 3651));
    assert_eq!(linear(100_000), (5629, 3187));
}

#[test]
fn fast_doubling_agrees_with_linear() {
    for n in 0u32..2000 {
        assert_eq!(fast_doubling(n), linear(n));
    }
    for n in [65_535u32, 65_536, 1 << 20, 3_000_001] {
        assert_eq!(fast_doubling(n), linear(n));
    }
}

#[test]
fn jolt_fib_agrees_with_linear() {
    for n in 0u32..500 {
        assert_eq!(fib(n), linear(n));
    }
}

#[test]
fn fast_doubling_large_inputs() {
    assert_eq!(fast_doubling(u32::MAX), (967, 132));
    assert_eq!(fast_doubling(123_456_789), (2168, 5520));
}

#[test]
fn results_stay_below_modulus() {
    for n in [0u32, 7, 19, 10_000, u32::MAX] {
        let (a, b) = fast_doubling(n);
        assert!(a < 7919 && b < 7919);
    }
}

#[test]
fn algorithm_choice_keeps_the_journal() {
    for n in [0u32, 1, 5, 10_000, 77_777] {
        let expected = linear(n);
        assert_eq!(fib_by_algorithm(n, 0), expected);
        assert_eq!(fib_by_algorithm(n, 1), expected);
        assert_eq!(fib_by_algorithm(n, 2), expected);
    }
}

#[test]
fn bounds_check() {
    assert!(in_bounds(42));
    assert!(in_bounds(10));
    assert!(in_bounds(100));
    assert!(!in_bounds(9));
    assert!(!in_bounds(101));
    assert!(!in_bounds(0));
    assert!(!in_bounds(u32::MAX));
}
