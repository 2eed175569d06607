use vstd::prelude::*;
use vstd::slice::{slice_subrange, slice_to_vec};
use crate::ordering::{le, less, lemma_le_reflexive, sorted, total_order};

verus! {

/// Sorts `vec` in ascending order and returns the result: the two halves
/// are sorted on their own and then merged.
pub fn sort<A>(vec: &[A]) -> (result: Vec<A>) where A: Ord + Copy
    requires
        total_order::<A>(),
    ensures
        sorted(result@),
        result@.to_multiset() == vec@.to_multiset(),
    decreases vec@.len(),
{
    if vec.len() <= 1 {
        proof {
            if vec@.len() == 1 {
                lemma_le_reflexive(vec@[0]);
            }
        }
        return slice_to_vec(vec);
    }
    let middle = vec.len() / 2;
    let left = sort(slice_subrange(vec, 0, middle));
    let right = sort(slice_subrange(vec, middle, vec.len()));
    proof {
        let first = vec@.subrange(0, middle as int);
        let second = vec@.subrange(middle as int, vec@.len() as int);
        assert(vec@ =~= first + second);
        vstd::seq_lib::lemma_multiset_commutative(first, second);
    }
    naive_merge_sorted_vecs(left.as_slice(), right.as_slice())
}

/// Merges `vec_1` and `vec_2` into one vector that holds the elements of
/// both: the result is made by taking, again and again, the lesser of the
/// two first elements not taken yet (the one of `vec_2` if they are
/// equal). If both inputs are in ascending order, so is the result.
pub fn naive_merge_sorted_vecs<A>(vec_1: &[A], vec_2: &[A]) -> (result: Vec<A>) where
    A: Ord + Copy,

    requires
        total_order::<A>(),
    ensures
        result@.to_multiset() == vec_1@.to_multiset().add(vec_2@.to_multiset()),
        sorted(vec_1@) && sorted(vec_2@) ==> sorted(result@),
{
    let mut result: Vec<A> = Vec::new();
    let mut curs_1: usize = 0;
    let mut curs_2: usize = 0;
    let ghost inputs_sorted = sorted(vec_1@) && sorted(vec_2@);
    proof {
        broadcast use vstd::multiset::group_multiset_axioms;

        assert(vec_1@.take(0) =~= Seq::<A>::empty());
        assert(vec_2@.take(0) =~= Seq::<A>::empty());
        assert(result@ =~= Seq::<A>::empty());
        Seq::<A>::empty().to_multiset_ensures();
        vstd::multiset::lemma_multiset_empty_len(Seq::<A>::empty().to_multiset());
        assert(result@.to_multiset() =~= vec_1@.take(0).to_multiset().add(
            vec_2@.take(0).to_multiset(),
        ));
    }
    while curs_1 < vec_1.len() || curs_2 < vec_2.len()
        invariant
            total_order::<A>(),
            curs_1 <= vec_1@.len(),
            curs_2 <= vec_2@.len(),
            inputs_sorted == (sorted(vec_1@) && sorted(vec_2@)),
            result@.to_multiset() == vec_1@.take(curs_1 as int).to_multiset().add(
                vec_2@.take(curs_2 as int).to_multiset(),
            ),
            inputs_sorted ==> sorted(result@),
            inputs_sorted ==> forall|k: int, a: int|
                0 <= k < result@.len() && curs_1 <= a < vec_1@.len() ==> le(result@[k], vec_1@[a]),
            inputs_sorted ==> forall|k: int, a: int|
                0 <= k < result@.len() && curs_2 <= a < vec_2@.len() ==> le(result@[k], vec_2@[a]),
        decreases vec_1@.len() - curs_1 + vec_2@.len() - curs_2,
    {
        let ghost before = result@;
        let take_first = if curs_1 < vec_1.len() && curs_2 < vec_2.len() {
            less(&vec_1[curs_1], &vec_2[curs_2])
        } else {
            curs_1 < vec_1.len()
        };
        if take_first {
            let value = vec_1[curs_1];
            result.push(value);
            proof {
                broadcast use vstd::multiset::group_multiset_axioms;

                assert(vec_1@.take(curs_1 + 1) =~= vec_1@.take(curs_1 as int).push(value));
                vstd::seq_lib::to_multiset_build(vec_1@.take(curs_1 as int), value);
                vstd::seq_lib::to_multiset_build(before, value);
                assert(result@.to_multiset() =~= vec_1@.take(curs_1 + 1).to_multiset().add(
                    vec_2@.take(curs_2 as int).to_multiset(),
                ));
                if inputs_sorted {
                    lemma_le_reflexive(value);
                    assert forall|i: int, j: int| 0 <= i <= j < result@.len() implies le(
                        result@[i],
                        result@[j],
                    ) by {
                        if j < before.len() {
                            assert(le(before[i], before[j]));
                        } else if i < before.len() {
                            assert(le(before[i], vec_1@[curs_1 as int]));
                        }
                    }
                    assert forall|k: int, a: int|
                        0 <= k < result@.len() && curs_1 + 1 <= a < vec_1@.len() implies le(
                        result@[k],
                        vec_1@[a],
                    ) by {
                        if k < before.len() {
                            assert(le(before[k], vec_1@[a]));
                        } else {
                            assert(le(vec_1@[curs_1 as int], vec_1@[a]));
                        }
                    }
                    assert forall|k: int, a: int|
                        0 <= k < result@.len() && curs_2 <= a < vec_2@.len() implies le(
                        result@[k],
                        vec_2@[a],
                    ) by {
                        if k < before.len() {
                            assert(le(before[k], vec_2@[a]));
                        } else {
                            assert(!le(vec_2@[curs_2 as int], value));
                            assert(le(value, vec_2@[curs_2 as int]) || le(
                                vec_2@[curs_2 as int],
                                value,
                            ));
                            assert(le(vec_2@[curs_2 as int], vec_2@[a]));
                        }
                    }
                }
            }
            curs_1 += 1;
        } else {
            let value = vec_2[curs_2];
            result.push(value);
            proof {
                broadcast use vstd::multiset::group_multiset_axioms;

                assert(vec_2@.take(curs_2 + 1) =~= vec_2@.take(curs_2 as int).push(value));
                vstd::seq_lib::to_multiset_build(vec_2@.take(curs_2 as int), value);
                vstd::seq_lib::to_multiset_build(before, value);
                assert(result@.to_multiset() =~= vec_1@.take(curs_1 as int).to_multiset().add(
                    vec_2@.take(curs_2 + 1).to_multiset(),
                ));
                if inputs_sorted {
                    lemma_le_reflexive(value);
                    assert forall|i: int, j: int| 0 <= i <= j < result@.len() implies le(
                        result@[i],
                        result@[j],
                    ) by {
                        if j < before.len() {
                            assert(le(before[i], before[j]));
                        } else if i < before.len() {
                            assert(le(before[i], vec_2@[curs_2 as int]));
                        }
                    }
                    assert forall|k: int, a: int|
                        0 <= k < result@.len() && curs_2 + 1 <= a < vec_2@.len() implies le(
                        result@[k],
                        vec_2@[a],
                    ) by {
                        if k < before.len() {
                            assert(le(before[k], vec_2@[a]));
                        } else {
                            assert(le(vec_2@[curs_2 as int], vec_2@[a]));
                        }
                    }
                    assert forall|k: int, a: int|
                        0 <= k < result@.len() && curs_1 <= a < vec_1@.len() implies le(
                        result@[k],
                        vec_1@[a],
                    ) by {
                        if k < before.len() {
                            assert(le(before[k], vec_1@[a]));
                        } else {
                            assert(le(value, vec_1@[curs_1 as int]));
                            assert(le(vec_1@[curs_1 as int], vec_1@[a]));
                        }
                    }
                }
            }
            curs_2 += 1;
        }
    }
    proof {
        assert(vec_1@.take(curs_1 as int) =~= vec_1@);
        assert(vec_2@.take(curs_2 as int) =~= vec_2@);
    }
    result
}

} // verus!
