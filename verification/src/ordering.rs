//! What it means for the comparison operators of a type to describe a
//! total order, and comparisons whose results are stated over that order.

use vstd::prelude::*;
use std::cmp::Ordering;
use vstd::std_specs::cmp::{PartialEqSpec, PartialOrdSpec};

verus! {

/// `a` is less than or equal to `b`.
pub open spec fn le<T: PartialOrd>(a: T, b: T) -> bool {
    a.partial_cmp_spec(&b) == Some(Ordering::Less) || a.partial_cmp_spec(&b) == Some(
        Ordering::Equal,
    )
}

/// The comparison operators of `T` behave as specified, and what they
/// specify is a total order: any two values can be compared, the order is
/// transitive, and two values are equal exactly when each is less than or
/// equal to the other.
pub open spec fn total_order<T: PartialOrd>() -> bool {
    &&& T::obeys_eq_spec()
    &&& T::obeys_partial_cmp_spec()
    &&& forall|a: T, b: T| #[trigger] le(a, b) || le(b, a)
    &&& forall|a: T, b: T, c: T| #[trigger] le(a, b) && #[trigger] le(b, c) ==> le(a, c)
    &&& forall|a: T, b: T|
        #![trigger a.partial_cmp_spec(&b)]
        (a.partial_cmp_spec(&b) == Some(Ordering::Greater)) == !le(a, b)
    &&& forall|a: T, b: T|
        #![trigger a.eq_spec(&b)]
        a.eq_spec(&b) == (a.partial_cmp_spec(&b) == Some(Ordering::Equal))
    &&& forall|a: T, b: T|
        #![trigger a.eq_spec(&b)]
        a.eq_spec(&b) == (le(a, b) && le(b, a))
}

/// The equality operator of `T` behaves as specified.
pub open spec fn equality_known<T: PartialEq>() -> bool {
    T::obeys_eq_spec()
}

/// `a` and `b` are equal according to the equality operator of `T`.
pub open spec fn equal<T: PartialEq>(a: T, b: T) -> bool {
    a.eq_spec(&b)
}

/// Tells whether `a` and `b` are equal.
pub fn is_equal<T: PartialEq>(a: &T, b: &T) -> (result: bool)
    requires
        equality_known::<T>(),
    ensures
        result == equal(*a, *b),
{
    *a == *b
}

/// `s` is in ascending order.
pub open spec fn sorted<T: PartialOrd>(s: Seq<T>) -> bool {
    forall|i: int, j: int| 0 <= i <= j < s.len() ==> le(s[i], s[j])
}

/// Every value is less than or equal to itself.
pub proof fn lemma_le_reflexive<T: PartialOrd>(a: T)
    requires
        total_order::<T>(),
    ensures
        le(a, a),
{
    assert(le(a, a) || le(a, a));
}

/// A stretch of a sequence in which each element is less than or equal to
/// the next one is in ascending order.
pub proof fn lemma_adjacent_sorted<T: PartialOrd>(s: Seq<T>, lo: int, hi: int, a: int, b: int)
    requires
        total_order::<T>(),
        0 <= lo <= a <= b <= hi < s.len(),
        forall|k: int| lo <= k < hi ==> le(#[trigger] s[k], s[k + 1]),
    ensures
        le(s[a], s[b]),
    decreases b - a,
{
    if a == b {
        lemma_le_reflexive(s[a]);
    } else {
        lemma_adjacent_sorted(s, lo, hi, a, b - 1);
        assert(le(s[b - 1], s[b - 1 + 1]));
        assert(le(s[a], s[b - 1]) && le(s[b - 1], s[b]));
    }
}

/// Exchanging two elements of a sequence keeps its elements.
pub proof fn lemma_swap_multiset<A>(s: Seq<A>, i: int, j: int)
    requires
        0 <= i < s.len(),
        0 <= j < s.len(),
    ensures
        s.update(i, s[j]).update(j, s[i]).to_multiset() == s.to_multiset(),
{
    broadcast use vstd::multiset::group_multiset_axioms;

    let t = s.update(i, s[j]);
    vstd::seq_lib::to_multiset_update(s, i, s[j]);
    vstd::seq_lib::to_multiset_update(t, j, s[i]);
    s.to_multiset_ensures();
    assert(s.to_multiset().count(s[i]) > 0) by {
        assert(s.contains(s[i]));
    }
    assert(s.to_multiset().count(s[j]) > 0) by {
        assert(s.contains(s[j]));
    }
    assert(t.update(j, s[i]).to_multiset() =~= s.to_multiset());
}

/// Tells whether `a` is strictly greater than `b`.
pub fn greater<T: PartialOrd>(a: &T, b: &T) -> (result: bool)
    requires
        total_order::<T>(),
    ensures
        result == !le(*a, *b),
{
    *a > *b
}

/// Tells whether `a` is strictly less than `b`.
pub fn less<T: PartialOrd>(a: &T, b: &T) -> (result: bool)
    requires
        total_order::<T>(),
    ensures
        result == !le(*b, *a),
{
    let result = *a < *b;
    proof {
        assert(le(*a, *b) || le(*b, *a));
        if le(*b, *a) && result {
            assert(a.eq_spec(b) == (le(*a, *b) && le(*b, *a)));
        }
        if !le(*b, *a) {
            assert(b.partial_cmp_spec(a) == Some(Ordering::Greater));
            assert(a.eq_spec(b) == (le(*a, *b) && le(*b, *a)));
        }
    }
    result
}

/// Tells whether `a` and `b` are equal in the order.
pub fn same<T: PartialOrd>(a: &T, b: &T) -> (result: bool)
    requires
        total_order::<T>(),
    ensures
        result == (le(*a, *b) && le(*b, *a)),
{
    *a == *b
}

/// The built-in order of the 32-bit signed integers is a total order, and
/// it is the order of the integers.
pub proof fn lemma_total_order_i32()
    ensures
        total_order::<i32>(),
        forall|a: i32, b: i32| #[trigger] le(a, b) == (a <= b),
{
}

/// The built-in order of the 32-bit unsigned integers is a total order,
/// and it is the order of the integers.
pub proof fn lemma_total_order_u32()
    ensures
        total_order::<u32>(),
        forall|a: u32, b: u32| #[trigger] le(a, b) == (a <= b),
{
}

} // verus!
