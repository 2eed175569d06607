use vstd::prelude::*;
use crate::ordering::{greater, le, lemma_swap_multiset, sorted, total_order};

verus! {

/// Sorts `vec` in ascending order: again and again, the least element of
/// the part that is not sorted yet is swapped to the front of that part.
pub fn sort<T>(vec: &mut [T]) where T: Ord + Copy
    requires
        total_order::<T>(),
    ensures
        sorted(final(vec)@),
        final(vec)@.to_multiset() == old(vec)@.to_multiset(),
{
    let n = vec.len();
    let mut i: usize = 0;
    while i < n
        invariant
            total_order::<T>(),
            n == vec@.len(),
            i <= n,
            vec@.to_multiset() == old(vec)@.to_multiset(),
            forall|a: int, b: int| 0 <= a <= b < i ==> le(vec@[a], vec@[b]),
            forall|a: int, b: int| 0 <= a < i <= b < n ==> le(vec@[a], vec@[b]),
        decreases n - i,
    {
        let mut min_index = i;
        let mut j: usize = i;
        while j < n
            invariant
                total_order::<T>(),
                n == vec@.len(),
                i <= j <= n,
                i <= min_index < n,
                forall|k: int| i <= k < j ==> le(vec@[min_index as int], vec@[k]),
            decreases n - j,
        {
            if greater(&vec[min_index], &vec[j]) {
                proof {
                    assert(le(vec@[j as int], vec@[min_index as int]));
                }
                min_index = j;
            }
            j += 1;
        }
        if i != min_index {
            let ghost before = vec@;
            let temp = vec[i];
            vec[i] = vec[min_index];
            vec[min_index] = temp;
            proof {
                assert(vec@ == before.update(i as int, before[min_index as int]).update(
                    min_index as int,
                    before[i as int],
                ));
                lemma_swap_multiset(before, i as int, min_index as int);
            }
        }
        i += 1;
    }
}

} // verus!
