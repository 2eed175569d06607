use vstd::prelude::*;
use crate::ordering::{le, less, same, sorted, total_order};

verus! {

/// Looks for `target` in the sorted slice `vec` by halving the stretch in
/// which it can be, and returns `target` itself if an element equal to it
/// is found.
///
/// The slice must not be empty, and `target` must not be less than its
/// first element.
pub fn search<'a, T>(vec: &'a [T], target: &'a T) -> (found: Option<&'a T>) where T: Eq + Ord
    requires
        total_order::<T>(),
        sorted(vec@),
        vec@.len() > 0,
        le(vec@[0], *target),
    ensures
        match found {
            Some(item) => *item == *target && exists|i: int|
                0 <= i < vec@.len() && le(#[trigger] vec@[i], *target) && le(*target, vec@[i]),
            None => forall|i: int|
                0 <= i < vec@.len() ==> !(le(#[trigger] vec@[i], *target) && le(*target, vec@[i])),
        },
{
    let mut left: usize = 0;
    let mut right: usize = vec.len() - 1;
    while right >= left
        invariant
            total_order::<T>(),
            sorted(vec@),
            le(vec@[0], *target),
            left <= vec@.len(),
            right < vec@.len(),
            forall|i: int| 0 <= i < left ==> !le(*target, #[trigger] vec@[i]),
            forall|i: int| right < i < vec@.len() ==> !le(#[trigger] vec@[i], *target),
        decreases right + 1 - left,
    {
        let middle = left + (right - left) / 2;
        let middle_value = &vec[middle];
        if same(middle_value, target) {
            return Some(target);
        } else if less(middle_value, target) {
            proof {
                assert forall|i: int| 0 <= i < middle + 1 implies !le(
                    *target,
                    #[trigger] vec@[i],
                ) by {
                    assert(le(vec@[i], vec@[middle as int]));
                    if le(*target, vec@[i]) {
                        assert(le(*target, vec@[middle as int]));
                    }
                }
            }
            left = middle + 1;
        } else {
            proof {
                assert(le(*middle_value, *target) || le(*target, *middle_value));
                assert(!le(*middle_value, *target));
                assert(middle > 0);
                assert forall|i: int| middle - 1 < i < vec@.len() implies !le(
                    #[trigger] vec@[i],
                    *target,
                ) by {
                    assert(le(vec@[middle as int], vec@[i]));
                    if le(vec@[i], *target) {
                        assert(le(vec@[middle as int], *target));
                    }
                }
            }
            right = middle - 1;
        }
    }
    proof {
        assert forall|i: int| 0 <= i < vec@.len() implies !(le(#[trigger] vec@[i], *target) && le(
            *target,
            vec@[i],
        )) by {
            if i < left {
            } else {
                assert(right < i);
            }
        }
    }
    None
}

} // verus!
