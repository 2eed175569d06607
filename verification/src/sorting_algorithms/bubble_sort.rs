use vstd::prelude::*;
use crate::ordering::{
    greater, le, lemma_adjacent_sorted, lemma_le_reflexive, lemma_swap_multiset, sorted,
    total_order,
};

verus! {

/// Sorts `vec` in ascending order: each pass lets the greatest element of
/// the part that is not sorted yet bubble up to the end of that part, and
/// a pass that exchanges nothing ends the work.
pub fn sort<T>(vec: &mut [T]) where T: Ord + Copy
    requires
        total_order::<T>(),
    ensures
        sorted(final(vec)@),
        final(vec)@.to_multiset() == old(vec)@.to_multiset(),
{
    let n = vec.len();
    let mut end: usize = n;
    let mut swapped = true;
    while end > 0 && swapped
        invariant
            total_order::<T>(),
            n == vec@.len(),
            end <= n,
            vec@.to_multiset() == old(vec)@.to_multiset(),
            forall|a: int, b: int| end <= a <= b < n ==> le(vec@[a], vec@[b]),
            forall|a: int, b: int| 0 <= a < end <= b < n ==> le(vec@[a], vec@[b]),
            !swapped ==> forall|a: int, b: int| 0 <= a <= b < n ==> le(vec@[a], vec@[b]),
        decreases end,
    {
        end -= 1;
        swapped = false;
        let mut j: usize = 0;
        proof {
            lemma_le_reflexive(vec@[0]);
        }
        while j < end
            invariant
                total_order::<T>(),
                n == vec@.len(),
                j <= end < n,
                vec@.to_multiset() == old(vec)@.to_multiset(),
                forall|a: int, b: int| end < a <= b < n ==> le(vec@[a], vec@[b]),
                forall|a: int, b: int| 0 <= a <= end < b < n ==> le(vec@[a], vec@[b]),
                forall|k: int| 0 <= k <= j ==> le(#[trigger] vec@[k], vec@[j as int]),
                !swapped ==> forall|k: int| 0 <= k < j ==> le(#[trigger] vec@[k], vec@[k + 1]),
            decreases end - j,
        {
            let ghost before = vec@;
            if greater(&vec[j], &vec[j + 1]) {
                let temp = vec[j];
                vec[j] = vec[j + 1];
                vec[j + 1] = temp;
                swapped = true;
                proof {
                    assert(vec@ == before.update(j as int, before[j + 1]).update(
                        j + 1,
                        before[j as int],
                    ));
                    lemma_swap_multiset(before, j as int, j + 1);
                    assert(le(before[j + 1], before[j as int]));
                    assert forall|k: int| 0 <= k <= j + 1 implies le(#[trigger] vec@[k], vec@[j + 1]) by {
                        if k < j {
                            assert(le(before[k], before[j as int]));
                        } else {
                            lemma_le_reflexive(before[j as int]);
                        }
                    }
                }
            } else {
                proof {
                    assert(le(before[j as int], before[j + 1]));
                    assert forall|k: int| 0 <= k <= j + 1 implies le(#[trigger] vec@[k], vec@[j + 1]) by {
                        if k <= j {
                            assert(le(before[k], before[j as int]));
                        } else {
                            lemma_le_reflexive(before[j + 1]);
                        }
                    }
                }
            }
            j += 1;
        }
        proof {
            if !swapped {
                assert forall|a: int, b: int| 0 <= a <= b < n implies le(vec@[a], vec@[b]) by {
                    if b <= end {
                        lemma_adjacent_sorted(vec@, 0, end as int, a, b);
                    }
                }
            }
        }
    }
    proof {
        if swapped {
            assert(end == 0);
        }
    }
}

} // verus!
