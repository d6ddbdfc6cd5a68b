use learnkit::fibonacci::{fibonacci, fibonacci_functional, fibonacci_iterative, fibonacci_with_cache};
use std::collections::HashMap;

const FIRST: [u64; 13] = [0, 1, 1, 2, 3, 5, 8, 13, 21, 34, 55, 89, 144];

#[test]
fn fibonacci_small_values_agree() {
    for (n, &expected) in FIRST.iter().enumerate() {
        let n = n as u64;
        assert_eq!(fibonacci(n), expected);
        assert_eq!(fibonacci_iterative(n), expected);
        assert_eq!(fibonacci_functional(n), expected);
        let mut cache = HashMap::new();
        assert_eq!(fibonacci_with_cache(n, &mut cache), expected);
    }
}

#[test]
fn fibonacci_large_values() {
    assert_eq!(fibonacci(50), 12586269025);
    assert_eq!(fibonacci_iterative(90), 2880067194370816120);
    assert_eq!(fibonacci_functional(92), 7540113804746346429);
    // The largest Fibonacci number that fits in a u64.
    assert_eq!(fibonacci_iterative(93), 12200160415121876738);
    assert_eq!(fibonacci(93), 12200160415121876738);
}

#[test]
fn fibonacci_cache_is_filled_and_reused() {
    let mut cache = HashMap::new();
    assert_eq!(fibonacci_with_cache(20, &mut cache), 6765);
    for k in 2..=20u64 {
        assert_eq!(cache.get(&k), Some(&fibonacci_iterative(k)));
    }
    assert!(!cache.contains_key(&0) && !cache.contains_key(&1) && !cache.contains_key(&21));
    let before = cache.len();
    assert_eq!(fibonacci_with_cache(15, &mut cache), 610);
    assert_eq!(cache.len(), before);
    assert_eq!(fibonacci_with_cache(1, &mut cache), 1);
    assert_eq!(fibonacci_with_cache(0, &mut cache), 0);
    assert_eq!(cache.len(), before);
}
