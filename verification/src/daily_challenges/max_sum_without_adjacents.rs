use vstd::prelude::*;

verus! {

/// The greatest sum of elements of `s` from position `i` on that are not
/// neighbours: the element at `i` is taken, and the choice goes on two
/// places further, or it is left, and the choice goes on at the next
/// place.
pub open spec fn best(s: Seq<u32>, i: int, n: int) -> int
    decreases n - i,
{
    if i >= n {
        0
    } else if i == n - 1 {
        s[i] as int
    } else {
        let with = s[i] + best(s, i + 2, n);
        let without = best(s, i + 1, n);
        if with >= without {
            with
        } else {
            without
        }
    }
}

/// A memo table is sound if every entry it holds is the greatest sum from
/// its position on.
pub open spec fn memo_ok(buffer: Seq<Option<u32>>, s: Seq<u32>, n: int) -> bool {
    forall|j: int|
        0 <= j < buffer.len() && (#[trigger] buffer[j]).is_some() ==> buffer[j].unwrap() == best(
            s,
            j,
            n,
        )
}

/// Starting later never gives a greater sum, and no sum is negative.
pub proof fn lemma_best_monotonic(s: Seq<u32>, i: int, n: int)
    ensures
        0 <= best(s, i + 1, n) <= best(s, i, n),
    decreases n - i,
{
    if i + 1 < n {
        lemma_best_monotonic(s, i + 1, n);
        lemma_best_monotonic(s, i + 2, n);
    }
}

/// Finds the greatest sum of elements of the first `n` elements of `vec`,
/// from position `i` on, that are not neighbours, looking up and filling
/// the memo table `buffer`.
pub fn collect_max(vec: &[u32], buffer: &mut Vec<Option<u32>>, i: usize, n: usize) -> (result: u32)
    requires
        n <= vec@.len(),
        old(buffer)@.len() >= n,
        memo_ok(old(buffer)@, vec@, n as int),
        best(vec@, i as int, n as int) <= u32::MAX,
    ensures
        result == best(vec@, i as int, n as int),
        final(buffer)@.len() == old(buffer)@.len(),
        memo_ok(final(buffer)@, vec@, n as int),
    decreases n - i,
{
    if i >= n {
        return 0;
    }
    if i == n - 1 {
        return vec[i];
    }
    if buffer[i].is_some() {
        return buffer[i].unwrap();
    }
    proof {
        lemma_best_monotonic(vec@, i as int, n as int);
        lemma_best_monotonic(vec@, i + 1, n as int);
        lemma_best_monotonic(vec@, i + 2, n as int);
    }
    let with = vec[i] + collect_max(vec, buffer, i + 2, n);
    let without = collect_max(vec, buffer, i + 1, n);
    let result = if with >= without {
        with
    } else {
        without
    };
    buffer.set(i, Some(result));
    result
}

/// Finds the greatest sum of elements of `vec` that are not neighbours.
pub fn find_max(vec: &[u32]) -> (result: u32)
    requires
        best(vec@, 0, vec@.len() as int) <= u32::MAX,
    ensures
        result == best(vec@, 0, vec@.len() as int),
{
    let n = vec.len();
    let mut buffer: Vec<Option<u32>> = Vec::new();
    let mut k: usize = 0;
    while k < n
        invariant
            k <= n,
            buffer@.len() == k,
            forall|j: int| 0 <= j < k ==> (#[trigger] buffer@[j]).is_none(),
        decreases n - k,
    {
        buffer.push(None);
        k += 1;
    }
    proof {
        lemma_best_monotonic(vec@, 0, n as int);
    }
    let first = collect_max(vec, &mut buffer, 0, n);
    let second = collect_max(vec, &mut buffer, 1, n);
    if first >= second {
        first
    } else {
        second
    }
}

} // verus!
