use vstd::prelude::*;
use crate::ordering::{greater, le, lemma_le_reflexive, sorted, total_order};

verus! {

/// Sorts `vec` in ascending order: each element in turn is taken out and
/// put back where it belongs among the elements before it, which are
/// sorted already and move up by one place to make room.
pub fn sort<T>(vec: &mut [T]) where T: Ord + Copy
    requires
        total_order::<T>(),
    ensures
        sorted(final(vec)@),
        final(vec)@.to_multiset() == old(vec)@.to_multiset(),
{
    let n = vec.len();
    let mut i: usize = 1;
    while i < n
        invariant
            total_order::<T>(),
            n == vec@.len(),
            1 <= i,
            vec@.to_multiset() == old(vec)@.to_multiset(),
            forall|a: int, b: int| 0 <= a <= b < i && b < n ==> le(vec@[a], vec@[b]),
        decreases n - i,
    {
        let curr_val = vec[i];
        let ghost before = vec@;
        let mut j: usize = i;
        while j > 0 && greater(&vec[j - 1], &curr_val)
            invariant
                total_order::<T>(),
                n == vec@.len(),
                before.len() == n,
                j <= i < n,
                curr_val == before[i as int],
                forall|a: int, b: int| 0 <= a <= b < i ==> le(before[a], before[b]),
                forall|k: int| 0 <= k < j ==> vec@[k] == before[k],
                forall|k: int| j < k <= i ==> vec@[k] == before[k - 1],
                forall|k: int| i < k < n ==> vec@[k] == before[k],
                forall|k: int| j <= k < i ==> !le(before[k], curr_val),
            decreases j,
        {
            vec[j] = vec[j - 1];
            j -= 1;
        }
        vec[j] = curr_val;
        proof {
            let inserted = before.remove(i as int).insert(j as int, curr_val);
            assert(vec@ =~= inserted);
            vstd::seq_lib::to_multiset_remove(before, i as int);
            vstd::seq_lib::to_multiset_insert(before.remove(i as int), j as int, curr_val);
            assert(before.to_multiset().count(curr_val) > 0) by {
                before.to_multiset_ensures();
                assert(before.contains(curr_val));
            }
            assert(inserted.to_multiset() =~= before.to_multiset()) by {
                broadcast use vstd::multiset::group_multiset_axioms;

            }
            assert forall|a: int, b: int| 0 <= a <= b < i + 1 implies le(vec@[a], vec@[b]) by {
                if a == b {
                    lemma_le_reflexive(vec@[a]);
                } else if b < j {
                } else if b == j {
                    assert(le(before[a], before[j - 1]));
                    assert(le(before[j - 1], curr_val));
                } else if a < j {
                    assert(le(before[a], before[b - 1]));
                } else if a == j {
                    assert(!le(before[b - 1], curr_val));
                    assert(le(before[b - 1], curr_val) || le(curr_val, before[b - 1]));
                } else {
                    assert(le(before[a - 1], before[b - 1]));
                }
            }
        }
        i += 1;
    }
}

} // verus!
