//! Several ways of computing Fibonacci numbers, all proved to agree with
//! the mathematical definition.
use std::collections::HashMap;
use vstd::prelude::*;

verus! {

/// The Fibonacci numbers: `fib(0) = 0`, `fib(1) = 1`,
/// `fib(n) = fib(n - 1) + fib(n - 2)`.
pub open spec fn fib(n: nat) -> nat
    decreases n,
{
    if n <= 1 {
        n
    } else {
        fib((n - 1) as nat) + fib((n - 2) as nat)
    }
}

/// `fib` never decreases.
pub proof fn lemma_fib_monotonic(i: nat, j: nat)
    requires
        i <= j,
    ensures
        fib(i) <= fib(j),
    decreases j - i,
{
    if i < j {
        lemma_fib_monotonic(i, (j - 1) as nat);
        if j >= 2 {
            assert(fib(j) == fib((j - 1) as nat) + fib((j - 2) as nat));
        }
    }
}

/// Every value stored in a cache is the Fibonacci number of its key.
pub open spec fn cache_is_sound(cache: Map<u64, u64>) -> bool {
    forall|k: u64| #[trigger] cache.contains_key(k) ==> cache[k] == fib(k as nat)
}

/// Memoised Fibonacci: each call starts from an empty cache.
pub fn fibonacci(n: u64) -> (r: u64)
    requires
        fib(n as nat) <= u64::MAX,
    ensures
        r == fib(n as nat),
{
    if n <= 1 {
        return n;
    }
    let mut cache: HashMap<u64, u64> = HashMap::new();
    fibonacci_with_cache(n, &mut cache)
}

/// Memoised Fibonacci with a cache supplied by the caller.
///
/// Cached results are reused; every number computed on the way is added
/// to the cache.
pub fn fibonacci_with_cache(n: u64, cache: &mut HashMap<u64, u64>) -> (r: u64)
    requires
        fib(n as nat) <= u64::MAX,
        cache_is_sound(old(cache)@),
    ensures
        r == fib(n as nat),
        cache_is_sound(final(cache)@),
        forall|k: u64| #[trigger]
            old(cache)@.contains_key(k) ==> final(cache)@.contains_key(k),
        forall|k: u64| #[trigger]
            final(cache)@.contains_key(k) && !old(cache)@.contains_key(k) ==> 2 <= k <= n,
        n >= 2 ==> final(cache)@.contains_key(n),
        n <= 1 || old(cache)@.contains_key(n) ==> final(cache)@ == old(cache)@,
    decreases n,
{
    if n <= 1 {
        return n;
    }
    match cache.get(&n) {
        Some(v) => {
            return *v;
        },
        None => {},
    }
    proof {
        lemma_fib_monotonic((n - 1) as nat, n as nat);
        lemma_fib_monotonic((n - 2) as nat, n as nat);
    }
    let a = fibonacci_with_cache(n - 1, cache);
    let b = fibonacci_with_cache(n - 2, cache);
    let result = a + b;
    cache.insert(n, result);
    result
}

/// Iterative Fibonacci.
pub fn fibonacci_iterative(n: u64) -> (r: u64)
    requires
        fib(n as nat) <= u64::MAX,
    ensures
        r == fib(n as nat),
{
    if n <= 1 {
        return n;
    }
    let mut a: u64 = 0;
    let mut b: u64 = 1;
    let mut i: u64 = 1;
    while i < n
        invariant
            1 <= i <= n,
            a == fib((i - 1) as nat),
            b == fib(i as nat),
            fib(n as nat) <= u64::MAX,
        decreases n - i,
    {
        proof {
            lemma_fib_monotonic(i as nat + 1, n as nat);
        }
        let temp = a + b;
        a = b;
        b = temp;
        i = i + 1;
    }
    b
}

/// Fibonacci by folding the pair `(fib(i), fib(i + 1))` forward `n` times.
///
/// The last step also computes `fib(n + 1)`, which must therefore fit.
pub fn fibonacci_functional(n: u64) -> (r: u64)
    requires
        fib(n as nat + 1) <= u64::MAX,
    ensures
        r == fib(n as nat),
{
    let mut a: u64 = 0;
    let mut b: u64 = 1;
    let mut i: u64 = 0;
    while i < n
        invariant
            i <= n,
            a == fib(i as nat),
            b == fib(i as nat + 1),
            fib(n as nat + 1) <= u64::MAX,
        decreases n - i,
    {
        proof {
            lemma_fib_monotonic(i as nat + 2, n as nat + 1);
        }
        let next = a + b;
        a = b;
        b = next;
        i = i + 1;
    }
    a
}

} // verus!
