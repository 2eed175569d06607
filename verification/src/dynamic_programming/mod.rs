//! Dynamic programming: the Fibonacci numbers.

use vstd::prelude::*;

verus! {

/// The Fibonacci numbers, counted from `fib(1) == fib(2) == 1`.
pub open spec fn fib(n: nat) -> nat
    decreases n,
{
    if n <= 2 {
        1
    } else {
        fib((n - 1) as nat) + fib((n - 2) as nat)
    }
}

/// The Fibonacci numbers never decrease.
pub proof fn lemma_fib_monotonic(a: nat, b: nat)
    requires
        a <= b,
    ensures
        fib(a) <= fib(b),
    decreases b,
{
    if a < b {
        if b <= 2 {
        } else {
            lemma_fib_monotonic(a, (b - 1) as nat);
        }
    }
}

/// Computes the Fibonacci number of rank `x`.
pub fn fibonacci(x: u32) -> (result: u32)
    requires
        x >= 1,
        fib(x as nat) <= u32::MAX,
    ensures
        result == fib(x as nat),
    decreases x,
{
    if x == 1 || x == 2 {
        1
    } else {
        proof {
            lemma_fib_monotonic((x - 1) as nat, x as nat);
            lemma_fib_monotonic((x - 2) as nat, x as nat);
        }
        fibonacci(x - 1) + fibonacci(x - 2)
    }
}

} // verus!
