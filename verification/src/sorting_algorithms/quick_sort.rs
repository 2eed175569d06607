use vstd::prelude::*;
use crate::ordering::{greater, le, lemma_le_reflexive, lemma_swap_multiset, sorted, total_order};

verus! {

/// The elements of `s` from `lo` up to `hi`, as a bag.
pub open spec fn bag<A>(s: Seq<A>, lo: int, hi: int) -> vstd::multiset::Multiset<A> {
    s.subrange(lo, hi).to_multiset()
}

/// `after` differs from `before` only between `lo` and `hi`, where it
/// holds the same elements, possibly in another order.
pub open spec fn rearranged<A>(before: Seq<A>, after: Seq<A>, lo: int, hi: int) -> bool {
    &&& after.len() == before.len()
    &&& forall|k: int| 0 <= k < lo ==> after[k] == before[k]
    &&& forall|k: int| hi <= k < before.len() ==> after[k] == before[k]
    &&& bag(after, lo, hi) == bag(before, lo, hi)
}

/// The stretch of `s` from `lo` up to `hi` is split around position `p`:
/// nothing before `p` is greater than the element at `p`, and everything
/// after `p` is.
pub open spec fn split_around<A: Ord>(s: Seq<A>, lo: int, p: int, hi: int) -> bool {
    &&& forall|k: int| lo <= k < p ==> le(#[trigger] s[k], s[p])
    &&& forall|k: int| p < k < hi ==> !le(#[trigger] s[k], s[p])
}

/// Every element of a stretch that was rearranged was in that stretch
/// before.
proof fn lemma_rearranged_member<A>(before: Seq<A>, after: Seq<A>, lo: int, hi: int, k: int) -> (j:
    int)
    requires
        0 <= lo <= k < hi <= before.len(),
        after.len() == before.len(),
        bag(after, lo, hi) == bag(before, lo, hi),
    ensures
        lo <= j < hi,
        before[j] == after[k],
{
    let a = after.subrange(lo, hi);
    let b = before.subrange(lo, hi);
    a.to_multiset_ensures();
    b.to_multiset_ensures();
    let x = after[k];
    assert(a.len() == hi - lo && b.len() == hi - lo);
    assert(a[k - lo] == x);
    assert(a.contains(x));
    assert(a.to_multiset().count(x) > 0);
    assert(b.to_multiset().count(x) > 0);
    assert(b.contains(x));
    let i = b.index_of(x);
    assert(0 <= i < b.len() && b[i] == x);
    lo + i
}

/// Exchanging two elements between `lo` and `hi` rearranges that stretch.
proof fn lemma_swap_rearranged<A>(s: Seq<A>, lo: int, hi: int, i: int, j: int)
    requires
        0 <= lo <= i < hi <= s.len(),
        lo <= j < hi,
    ensures
        rearranged(s, s.update(i, s[j]).update(j, s[i]), lo, hi),
{
    let t = s.update(i, s[j]).update(j, s[i]);
    let sub = s.subrange(lo, hi);
    assert(t.subrange(lo, hi) =~= sub.update(i - lo, sub[j - lo]).update(j - lo, sub[i - lo]));
    lemma_swap_multiset(sub, i - lo, j - lo);
}

/// Rearranging a stretch rearranges every stretch that holds it.
proof fn lemma_rearranged_wider<A>(
    before: Seq<A>,
    after: Seq<A>,
    lo: int,
    hi: int,
    wide_lo: int,
    wide_hi: int,
)
    requires
        0 <= wide_lo <= lo <= hi <= wide_hi <= before.len(),
        rearranged(before, after, lo, hi),
    ensures
        rearranged(before, after, wide_lo, wide_hi),
{
    let b = before.subrange(wide_lo, wide_hi);
    let a = after.subrange(wide_lo, wide_hi);
    assert(b =~= before.subrange(wide_lo, lo) + before.subrange(lo, hi) + before.subrange(
        hi,
        wide_hi,
    ));
    assert(a =~= after.subrange(wide_lo, lo) + after.subrange(lo, hi) + after.subrange(
        hi,
        wide_hi,
    ));
    assert(after.subrange(wide_lo, lo) =~= before.subrange(wide_lo, lo));
    assert(after.subrange(hi, wide_hi) =~= before.subrange(hi, wide_hi));
    vstd::seq_lib::lemma_multiset_commutative(
        before.subrange(wide_lo, lo) + before.subrange(lo, hi),
        before.subrange(hi, wide_hi),
    );
    vstd::seq_lib::lemma_multiset_commutative(
        before.subrange(wide_lo, lo),
        before.subrange(lo, hi),
    );
    vstd::seq_lib::lemma_multiset_commutative(
        after.subrange(wide_lo, lo) + after.subrange(lo, hi),
        after.subrange(hi, wide_hi),
    );
    vstd::seq_lib::lemma_multiset_commutative(after.subrange(wide_lo, lo), after.subrange(lo, hi));
}

/// Sorts `vec` in ascending order: the first element is moved to its
/// final place, with the elements that are not greater before it and the
/// greater ones after it, and the two sides are sorted in the same way.
pub fn sort<A>(vec: &mut [A]) where A: Ord + Copy
    requires
        total_order::<A>(),
    ensures
        sorted(final(vec)@),
        final(vec)@.to_multiset() == old(vec)@.to_multiset(),
{
    let n = vec.len();
    sort_range(vec, 0, n);
    proof {
        assert(vec@.subrange(0, n as int) =~= vec@);
        assert(old(vec)@.subrange(0, n as int) =~= old(vec)@);
    }
}

/// Sorts the stretch of `vec` from `lo` up to `hi`.
fn sort_range<A>(vec: &mut [A], lo: usize, hi: usize) where A: Ord + Copy
    requires
        total_order::<A>(),
        lo <= hi <= old(vec)@.len(),
    ensures
        rearranged(old(vec)@, final(vec)@, lo as int, hi as int),
        forall|a: int, b: int| lo <= a <= b < hi ==> le(final(vec)@[a], final(vec)@[b]),
    decreases hi - lo,
{
    if hi - lo > 1 {
        let p = pivot_range(vec, lo, hi);
        let ghost split = vec@;
        sort_range(vec, lo, p);
        let ghost half = vec@;
        sort_range(vec, p + 1, hi);
        proof {
            lemma_rearranged_wider(split, half, lo as int, p as int, lo as int, hi as int);
            lemma_rearranged_wider(half, vec@, p + 1, hi as int, lo as int, hi as int);
            assert(vec@[p as int] == split[p as int]);
            assert(bag(vec@, lo as int, p as int) == bag(split, lo as int, p as int)) by {
                assert(vec@.subrange(lo as int, p as int) =~= half.subrange(lo as int, p as int));
            }
            assert(bag(vec@, p + 1, hi as int) == bag(split, p + 1, hi as int)) by {
                assert(half.subrange(p + 1, hi as int) =~= split.subrange(p + 1, hi as int));
            }
            assert forall|a: int, b: int| lo <= a <= b < hi implies le(vec@[a], vec@[b]) by {
                let pv = split[p as int];
                if b < p {
                    assert(vec@[a] == half[a] && vec@[b] == half[b]);
                } else if a > p {
                } else if a == b {
                    lemma_le_reflexive(vec@[a]);
                } else {
                    if a < p {
                        let j = lemma_rearranged_member(split, vec@, lo as int, p as int, a);
                        assert(le(split[j], pv));
                    } else {
                        lemma_le_reflexive(pv);
                    }
                    if b > p {
                        let j = lemma_rearranged_member(split, vec@, p + 1, hi as int, b);
                        assert(!le(split[j], pv));
                        assert(le(split[j], pv) || le(pv, split[j]));
                    } else {
                        lemma_le_reflexive(pv);
                    }
                    assert(le(vec@[a], pv) && le(pv, vec@[b]));
                }
            }
        }
    }
}

/// Moves the first element of `vec` to its final place, with the
/// elements that are not greater before it and the greater ones after it,
/// and returns that place.
pub fn pivot<A>(vec: &mut [A]) -> (place: usize) where A: Ord + Copy
    requires
        total_order::<A>(),
    ensures
        final(vec)@.to_multiset() == old(vec)@.to_multiset(),
        final(vec)@.len() == old(vec)@.len(),
        old(vec)@.len() < 2 ==> place == 0 && final(vec)@ == old(vec)@,
        old(vec)@.len() >= 2 ==> place < final(vec)@.len() && final(vec)@[place as int] == old(
            vec,
        )@[0] && split_around(final(vec)@, 0, place as int, final(vec)@.len() as int),
{
    if vec.len() < 2 {
        return 0;
    }
    let n = vec.len();
    let place = pivot_range(vec, 0, n);
    proof {
        assert(vec@.subrange(0, n as int) =~= vec@);
        assert(old(vec)@.subrange(0, n as int) =~= old(vec)@);
    }
    place
}

/// Moves the element at `lo` to its final place in the stretch of `vec`
/// from `lo` up to `hi`, and returns that place.
fn pivot_range<A>(vec: &mut [A], lo: usize, hi: usize) -> (place: usize) where A: Ord + Copy
    requires
        total_order::<A>(),
        lo < hi <= old(vec)@.len(),
    ensures
        lo <= place < hi,
        rearranged(old(vec)@, final(vec)@, lo as int, hi as int),
        final(vec)@[place as int] == old(vec)@[lo as int],
        split_around(final(vec)@, lo as int, place as int, hi as int),
{
    let pivot = vec[lo];
    let mut counter: usize = lo;
    let mut i: usize = lo + 1;
    while i < hi
        invariant
            total_order::<A>(),
            lo <= counter < i <= hi <= vec@.len(),
            rearranged(old(vec)@, vec@, lo as int, hi as int),
            vec@[lo as int] == pivot,
            pivot == old(vec)@[lo as int],
            forall|k: int| lo < k <= counter ==> le(#[trigger] vec@[k], pivot),
            forall|k: int| counter < k < i ==> !le(#[trigger] vec@[k], pivot),
        decreases hi - i,
    {
        let val = vec[i];
        if !greater(&val, &pivot) {
            let ghost before = vec@;
            let temp = vec[counter + 1];
            vec[counter + 1] = val;
            vec[i] = temp;
            proof {
                assert(vec@ == before.update(counter + 1, before[i as int]).update(
                    i as int,
                    before[counter + 1],
                ));
                lemma_swap_rearranged(before, lo as int, hi as int, counter + 1, i as int);
            }
            counter += 1;
        }
        i += 1;
    }
    let ghost before = vec@;
    vec[lo] = vec[counter];
    vec[counter] = pivot;
    proof {
        assert(vec@ == before.update(lo as int, before[counter as int]).update(
            counter as int,
            before[lo as int],
        ));
        lemma_swap_rearranged(before, lo as int, hi as int, lo as int, counter as int);
        lemma_le_reflexive(pivot);
    }
    counter
}

} // verus!
