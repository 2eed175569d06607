use vstd::prelude::*;

verus! {

/// The sum of the elements of `s` from `lo` up to `hi`.
pub open spec fn stretch_sum(s: Seq<u32>, lo: int, hi: int) -> int
    decreases hi - lo,
{
    if hi <= lo {
        0
    } else {
        stretch_sum(s, lo, hi - 1) + s[hi - 1]
    }
}

/// No sum of a stretch is negative.
pub proof fn lemma_stretch_sum_nonnegative(s: Seq<u32>, lo: int, hi: int)
    ensures
        stretch_sum(s, lo, hi) >= 0,
    decreases hi - lo,
{
    if lo < hi {
        lemma_stretch_sum_nonnegative(s, lo, hi - 1);
    }
}

/// Taking the first element out of a stretch takes it out of the sum.
pub proof fn lemma_stretch_sum_front(s: Seq<u32>, lo: int, hi: int)
    requires
        lo < hi,
    ensures
        stretch_sum(s, lo, hi) == s[lo] + stretch_sum(s, lo + 1, hi),
    decreases hi - lo,
{
    if hi - 1 > lo {
        lemma_stretch_sum_front(s, lo, hi - 1);
        assert(stretch_sum(s, lo + 1, hi) == stretch_sum(s, lo + 1, hi - 1) + s[hi - 1]);
    } else {
        assert(stretch_sum(s, lo, hi) == stretch_sum(s, lo, hi - 1) + s[hi - 1]);
        assert(stretch_sum(s, lo, lo) == 0);
        assert(stretch_sum(s, lo + 1, hi) == 0);
    }
}

/// Finds the greatest sum of `window_size` consecutive elements of `vec`,
/// or returns `None` if the window is empty or longer than `vec`.
pub fn max_sum_sub_array_of_size_k(vec: &[u32], window_size: usize) -> (result: Option<u32>)
    requires
        forall|lo: int, hi: int|
            0 <= lo <= hi <= vec@.len() ==> #[trigger] stretch_sum(vec@, lo, hi) <= u32::MAX,
    ensures
        match result {
            Some(best) => {
                &&& 0 < window_size <= vec@.len()
                &&& exists|start: int|
                    0 <= start <= vec@.len() - window_size && best == #[trigger] stretch_sum(
                        vec@,
                        start,
                        start + window_size,
                    )
                &&& forall|start: int|
                    0 <= start <= vec@.len() - window_size ==> #[trigger] stretch_sum(
                        vec@,
                        start,
                        start + window_size,
                    ) <= best
            },
            None => window_size == 0 || window_size > vec@.len(),
        },
{
    if window_size == 0 || window_size > vec.len() {
        return None;
    }
    let n = vec.len();
    let mut window_sum: u32 = 0;
    let mut i: usize = 0;
    while i < window_size
        invariant
            i <= window_size <= vec@.len(),
            window_sum == stretch_sum(vec@, 0, i as int),
            forall|lo: int, hi: int|
                0 <= lo <= hi <= vec@.len() ==> #[trigger] stretch_sum(vec@, lo, hi) <= u32::MAX,
        decreases window_size - i,
    {
        proof {
            assert(stretch_sum(vec@, 0, i + 1) <= u32::MAX);
        }
        window_sum += vec[i];
        i += 1;
    }
    let mut max_window_sum: u32 = window_sum;
    let mut i: usize = window_size;
    let ghost mut best_start: int = 0;
    while i < n
        invariant
            n == vec@.len(),
            0 < window_size <= i <= n,
            window_sum == stretch_sum(vec@, i - window_size, i as int),
            0 <= best_start <= i - window_size,
            max_window_sum == stretch_sum(vec@, best_start, best_start + window_size),
            forall|start: int|
                0 <= start <= i - window_size ==> #[trigger] stretch_sum(
                    vec@,
                    start,
                    start + window_size,
                ) <= max_window_sum,
            forall|lo: int, hi: int|
                0 <= lo <= hi <= vec@.len() ==> #[trigger] stretch_sum(vec@, lo, hi) <= u32::MAX,
        decreases n - i,
    {
        proof {
            lemma_stretch_sum_front(vec@, i - window_size, i + 1);
            lemma_stretch_sum_nonnegative(vec@, i - window_size + 1, i + 1);
            assert(stretch_sum(vec@, i - window_size, i + 1) <= u32::MAX);
            assert(stretch_sum(vec@, i - window_size + 1, i + 1) <= u32::MAX);
            assert(stretch_sum(vec@, i - window_size, i + 1) == stretch_sum(
                vec@,
                i - window_size,
                i as int,
            ) + vec@[i as int]);
        }
        window_sum = window_sum + vec[i] - vec[i - window_size];
        if window_sum > max_window_sum {
            max_window_sum = window_sum;
            proof {
                best_start = i - window_size + 1;
            }
        }
        i += 1;
    }
    Some(max_window_sum)
}

} // verus!
