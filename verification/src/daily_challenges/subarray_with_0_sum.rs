use vstd::prelude::*;
use std::collections::HashMap;
use crate::problem_solving_patterns::sliding_window::range_sum;

verus! {

/// Whether some non-empty stretch of `s` adds up to zero.
pub open spec fn has_zero_stretch(s: Seq<i32>) -> bool {
    exists|lo: int, hi: int| 0 <= lo < hi <= s.len() && #[trigger] range_sum(s, lo, hi) == 0
}

/// The sum of a stretch is the difference of two sums from the start.
pub proof fn lemma_range_sum_difference(s: Seq<i32>, lo: int, hi: int)
    requires
        0 <= lo <= hi,
    ensures
        range_sum(s, lo, hi) == range_sum(s, 0, hi) - range_sum(s, 0, lo),
    decreases hi - lo,
{
    if lo < hi {
        lemma_range_sum_difference(s, lo, hi - 1);
    }
}

/// Tells whether some non-empty stretch of `vec` adds up to zero: that is
/// so exactly when the sum from the start comes back to a value that it
/// had before.
pub fn subarray_with_0_sum(vec: &[i32]) -> (result: bool)
    requires
        forall|k: int|
            0 <= k <= vec@.len() ==> i32::MIN <= #[trigger] range_sum(vec@, 0, k) <= i32::MAX,
    ensures
        result == has_zero_stretch(vec@),
{
    broadcast use vstd::std_specs::hash::group_hash_axioms;

    let mut sum_hashmap: HashMap<i32, bool> = HashMap::new();
    let mut sum: i32 = 0;
    let mut i: usize = 0;
    while i < vec.len()
        invariant
            i <= vec@.len(),
            sum == range_sum(vec@, 0, i as int),
            forall|k: int|
                0 <= k <= vec@.len() ==> i32::MIN <= #[trigger] range_sum(vec@, 0, k) <= i32::MAX,
            forall|k: int| 1 <= k <= i ==> sum_hashmap@.contains_key(
                #[trigger] range_sum(vec@, 0, k) as i32,
            ),
            forall|key: i32| #[trigger]
                sum_hashmap@.contains_key(key) ==> exists|k: int|
                    1 <= k <= i && #[trigger] range_sum(vec@, 0, k) == key,
            forall|lo: int, hi: int|
                0 <= lo < hi <= i ==> #[trigger] range_sum(vec@, lo, hi) != 0,
        decreases vec@.len() - i,
    {
        proof {
            assert(i32::MIN <= range_sum(vec@, 0, i + 1) <= i32::MAX);
        }
        sum += vec[i];
        if sum_hashmap.contains_key(&sum) || sum == 0 {
            proof {
                if sum == 0 {
                    assert(range_sum(vec@, 0, i + 1) == 0);
                } else {
                    let k = choose|k: int| 1 <= k <= i && #[trigger] range_sum(vec@, 0, k) == sum;
                    lemma_range_sum_difference(vec@, k, i + 1);
                    assert(range_sum(vec@, k, i + 1) == 0);
                }
            }
            return true;
        } else {
            sum_hashmap.insert(sum, true);
            proof {
                assert forall|lo: int, hi: int| 0 <= lo < hi <= i + 1 implies #[trigger] range_sum(
                    vec@,
                    lo,
                    hi,
                ) != 0 by {
                    if hi == i + 1 {
                        lemma_range_sum_difference(vec@, lo, hi);
                        if lo > 0 {
                            assert(sum_hashmap@.remove(sum).contains_key(
                                range_sum(vec@, 0, lo) as i32,
                            ) || range_sum(vec@, 0, lo) == sum);
                        }
                    }
                }
                assert forall|key: i32| #[trigger] sum_hashmap@.contains_key(key) implies exists|
                    k: int,
                |
                    1 <= k <= i + 1 && #[trigger] range_sum(vec@, 0, k) == key by {
                    if key == sum {
                        assert(range_sum(vec@, 0, i + 1) == key);
                    } else {
                        let k = choose|k: int|
                            1 <= k <= i && #[trigger] range_sum(vec@, 0, k) == key;
                        assert(1 <= k <= i + 1 && range_sum(vec@, 0, k) == key);
                    }
                }
            }
        }
        i += 1;
    }
    false
}

} // verus!
