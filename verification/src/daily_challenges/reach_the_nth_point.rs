use vstd::prelude::*;

verus! {

/// The number of ways to go from point `i` to point `n` by steps of one
/// or two.
pub open spec fn ways(i: nat, n: nat) -> nat
    decreases n + 2 - i,
{
    if i > n {
        0
    } else if i == n {
        1
    } else {
        ways(i + 1, n) + ways(i + 2, n)
    }
}

/// A memo table is sound if every entry it holds is the number of ways
/// from its position to `n`.
pub open spec fn memo_ok(buffer: Seq<Option<u32>>, n: nat) -> bool {
    forall|j: int|
        0 <= j < buffer.len() && (#[trigger] buffer[j]).is_some() ==> buffer[j].unwrap() == ways(
            j as nat,
            n,
        )
}

/// Counts the ways to reach point `n` from point 0 by steps of one or
/// two, trying every way.
pub fn naive_reach_the_nth_point(n: u32) -> (result: u32)
    requires
        n < u32::MAX,
        ways(0, n as nat) <= u32::MAX,
    ensures
        result == ways(0, n as nat),
{
    return naive_to_next_point(0, n);
}

/// Counts the ways to reach point `n` from point `i` by steps of one or
/// two, trying every way.
pub fn naive_to_next_point(i: u32, n: u32) -> (result: u32)
    requires
        n < u32::MAX,
        ways(i as nat, n as nat) <= u32::MAX,
    ensures
        result == ways(i as nat, n as nat),
    decreases n + 2 - i,
{
    if i > n {
        return 0;
    }
    if i == n {
        return 1;
    }
    return naive_to_next_point(i + 1, n) + naive_to_next_point(i + 2, n);
}

/// Counts the ways to reach point `n` from point 0 by steps of one or
/// two, remembering what has been counted.
pub fn optimized_reach_the_nth_point(n: u32) -> (result: u32)
    requires
        n < u32::MAX,
        ways(0, n as nat) <= u32::MAX,
    ensures
        result == ways(0, n as nat),
{
    let mut buffer: Vec<Option<u32>> = Vec::new();
    let mut k: u32 = 0;
    while k < n
        invariant
            k <= n,
            buffer@.len() == k,
            forall|j: int| 0 <= j < k ==> (#[trigger] buffer@[j]).is_none(),
        decreases n - k,
    {
        buffer.push(None);
        k += 1;
    }
    proof {
        lemma_ways_bounded(0, n as nat);
    }
    return optimized_to_next_point(0, n, &mut buffer);
}

/// From any point on the way, no more ways lead to `n` than from the
/// start: the counts never increase along the way.
pub proof fn lemma_ways_monotonic(i: nat, n: nat)
    ensures
        ways(i + 1, n) <= ways(i, n),
    decreases n + 2 - i,
{
    if i + 1 < n {
        lemma_ways_monotonic(i + 1, n);
    }
}

/// From every point from `i` on, at most as many ways lead to `n` as from
/// `i`.
pub proof fn lemma_ways_bounded(i: nat, n: nat)
    ensures
        forall|j: nat| i <= j ==> #[trigger] ways(j, n) <= ways(i, n),
    decreases n + 2 - i,
{
    assert forall|j: nat| i <= j implies #[trigger] ways(j, n) <= ways(i, n) by {
        if j > n {
        } else if j > i {
            lemma_ways_bounded(i + 1, n);
            lemma_ways_monotonic(i, n);
        }
    }
}

/// Counts the ways to reach point `n` from point `i` by steps of one or
/// two, looking up and filling the memo table `buffer`.
pub fn optimized_to_next_point(i: u32, n: u32, buffer: &mut Vec<Option<u32>>) -> (result: u32)
    requires
        n < u32::MAX,
        old(buffer)@.len() >= n,
        memo_ok(old(buffer)@, n as nat),
        ways(i as nat, n as nat) <= u32::MAX,
    ensures
        result == ways(i as nat, n as nat),
        final(buffer)@.len() == old(buffer)@.len(),
        memo_ok(final(buffer)@, n as nat),
    decreases n + 2 - i,
{
    if i > n {
        return 0;
    }
    if i == n {
        return 1;
    }
    if buffer[i as usize].is_some() {
        return buffer[i as usize].unwrap();
    }
    let first = optimized_to_next_point(i + 1, n, buffer);
    let second = optimized_to_next_point(i + 2, n, buffer);
    let result = first + second;
    buffer.set(i as usize, Some(result));
    result
}

} // verus!
