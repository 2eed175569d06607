use vstd::prelude::*;

verus! {

/// `s` is in ascending order.
pub open spec fn ascending(s: Seq<i32>) -> bool {
    forall|i: int, j: int| 0 <= i <= j < s.len() ==> s[i] <= s[j]
}

/// Looks for `target` in the sorted vector `vec` by halving the stretch
/// in which it can be, and returns a position at which it stands.
///
/// Unless the vector is empty, `target` must not be less than its first
/// element.
pub fn b_search(vec: &Vec<i32>, target: i32) -> (found: Option<usize>)
    requires
        ascending(vec@),
        vec@.len() > 0 ==> vec@[0] <= target,
    ensures
        match found {
            Some(i) => i < vec@.len() && vec@[i as int] == target,
            None => forall|i: int| 0 <= i < vec@.len() ==> vec@[i] != target,
        },
{
    if vec.len() == 0 {
        return None;
    }
    let n = vec.len();
    let mut left_pointer: usize = 0;
    let mut right_pointer: usize = n - 1;
    while left_pointer <= right_pointer
        invariant
            n == vec@.len(),
            ascending(vec@),
            vec@[0] <= target,
            left_pointer <= vec@.len(),
            right_pointer < vec@.len(),
            forall|i: int| 0 <= i < left_pointer ==> vec@[i] < target,
            forall|i: int| right_pointer < i < vec@.len() ==> vec@[i] > target,
        decreases right_pointer + 1 - left_pointer,
    {
        let middle_pointer = left_pointer + (right_pointer - left_pointer) / 2;
        assert(left_pointer <= middle_pointer <= right_pointer);
        let middle_pointer_val = vec[middle_pointer];
        if middle_pointer_val == target {
            return Some(middle_pointer);
        } else if middle_pointer_val < target {
            left_pointer = middle_pointer + 1;
        } else {
            right_pointer = middle_pointer - 1;
        }
    }
    None
}

} // verus!
