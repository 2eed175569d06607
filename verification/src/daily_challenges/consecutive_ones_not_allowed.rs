use vstd::prelude::*;

verus! {

/// The number of binary strings of length `n` without two consecutive
/// ones. A string of length `n + 1` is such a string of length `n` with a
/// zero in front, or such a string of length `n - 1` with `10` in front.
pub open spec fn count(n: nat) -> nat
    decreases n,
{
    if n <= 1 {
        2
    } else if n == 2 {
        3
    } else {
        count((n - 1) as nat) + count((n - 2) as nat)
    }
}

/// The count never decreases with the length.
pub proof fn lemma_count_monotonic(a: nat, b: nat)
    requires
        a <= b,
    ensures
        count(a) <= count(b),
    decreases b,
{
    if a < b {
        if b <= 2 {
        } else {
            lemma_count_monotonic(a, (b - 1) as nat);
        }
    }
}

/// Counts the binary strings of length `n` in which no two ones are
/// consecutive.
pub fn consecutive_ones_not_allowed(n: u32) -> (result: u32)
    requires
        count(n as nat) <= u32::MAX,
    ensures
        result == count(n as nat),
{
    let mut i: u32 = 1;
    let mut combinations_starting_with_0: u32 = 1;
    let mut combinations_starting_with_1: u32 = 1;
    let mut total_combinations: u32 = combinations_starting_with_0 + combinations_starting_with_1;
    while i < n
        invariant
            1 <= i,
            i <= n || (n == 0 && i == 1),
            count(n as nat) <= u32::MAX,
            total_combinations == count(i as nat),
            i >= 2 ==> combinations_starting_with_0 == count((i - 1) as nat),
            i == 1 ==> combinations_starting_with_0 == 1,
        decreases n - i,
    {
        proof {
            lemma_count_monotonic((i + 1) as nat, n as nat);
        }
        combinations_starting_with_1 = combinations_starting_with_0;
        combinations_starting_with_0 = total_combinations;
        total_combinations = combinations_starting_with_0 + combinations_starting_with_1;
        i += 1;
    }
    total_combinations
}

} // verus!
