use vstd::prelude::*;
use crate::ordering::{equal, equality_known, is_equal};

verus! {

/// Looks for an element equal to `val`, from the front of `vec`, and
/// returns the first one found.
pub fn search<'a, T>(vec: &'a [T], val: &'a T) -> (found: Option<&'a T>) where T: Eq
    requires
        equality_known::<T>(),
    ensures
        match found {
            Some(item) => exists|i: int|
                0 <= i < vec@.len() && *item == #[trigger] vec@[i] && equal(vec@[i], *val)
                    && forall|j: int| 0 <= j < i ==> !equal(#[trigger] vec@[j], *val),
            None => forall|j: int| 0 <= j < vec@.len() ==> !equal(#[trigger] vec@[j], *val),
        },
{
    let mut i: usize = 0;
    while i < vec.len()
        invariant
            equality_known::<T>(),
            i <= vec@.len(),
            forall|j: int| 0 <= j < i ==> !equal(#[trigger] vec@[j], *val),
        decreases vec@.len() - i,
    {
        if is_equal(&vec[i], val) {
            return Some(&vec[i]);
        }
        i += 1;
    }
    None
}

} // verus!
