use vstd::prelude::*;
use vstd::multiset::Multiset;
use crate::ordering::{greater, le, lemma_le_reflexive, lemma_swap_multiset, less, total_order};

verus! {

/// The position of the parent of the node at position `i`.
pub open spec fn parent(i: int) -> int {
    (i - 1) / 2
}

/// The position of the greater child of the node at position `i`, which
/// has a child: the first child if it is greater than the second or is
/// the only one, else the second.
pub open spec fn greater_child<T: PartialOrd>(s: Seq<T>, i: int) -> int {
    if 2 * i + 2 >= s.len() || !le(s[2 * i + 1], s[2 * i + 2]) {
        2 * i + 1
    } else {
        2 * i + 2
    }
}

/// In a max-heap no node is greater than its parent.
pub open spec fn heap_ordered<T: PartialOrd>(s: Seq<T>) -> bool {
    forall|i: int| 0 < i < s.len() ==> le(#[trigger] s[i], s[parent(i)])
}

/// No node but the one at `hole` is greater than its parent, and the
/// children of `hole` are not greater than its parent.
spec fn ordered_but<T: PartialOrd>(s: Seq<T>, hole: int) -> bool {
    &&& forall|i: int| 0 < i < s.len() && i != hole ==> le(#[trigger] s[i], s[parent(i)])
    &&& forall|i: int|
        0 < i < s.len() && parent(i) == hole && hole > 0 ==> le(#[trigger] s[i], s[parent(hole)])
}

/// No node whose parent is not at `hole` is greater than its parent, and
/// the children of `hole` are not greater than its parent.
spec fn ordered_below<T: PartialOrd>(s: Seq<T>, hole: int) -> bool {
    &&& forall|i: int|
        0 < i < s.len() && parent(i) != hole ==> le(#[trigger] s[i], s[parent(i)])
    &&& forall|i: int|
        0 < i < s.len() && parent(i) == hole && hole > 0 ==> le(#[trigger] s[i], s[parent(hole)])
}

/// In a max-heap the root is the greatest element.
pub proof fn lemma_root_is_greatest<T: PartialOrd>(s: Seq<T>, i: int)
    requires
        total_order::<T>(),
        heap_ordered(s),
        0 <= i < s.len(),
    ensures
        le(s[i], s[0]),
    decreases i,
{
    if i == 0 {
        lemma_le_reflexive(s[0]);
    } else {
        lemma_root_is_greatest(s, parent(i));
        assert(le(s[i], s[parent(i)]));
    }
}

/// A max-heap: a binary tree kept in a vector, level by level, in which
/// no node is greater than its parent.
pub struct MaxBinaryHeap<T: Copy + PartialOrd> {
    pub values: Vec<T>,
}

impl<T: Copy + PartialOrd> MaxBinaryHeap<T> {
    /// Creates an empty heap.
    pub fn new() -> (heap: Self)
        ensures
            heap.values@ == Seq::<T>::empty(),
    {
        Self { values: Vec::new() }
    }

    /// Adds `value` to the heap: it is put after the last node and
    /// exchanged with its parent as long as it is not less than it.
    pub fn insert(&mut self, value: T)
        requires
            total_order::<T>(),
        ensures
            final(self).values@.to_multiset() == old(self).values@.to_multiset().insert(value),
            heap_ordered(old(self).values@) ==> heap_ordered(final(self).values@),
    {
        let ghost ordered = heap_ordered(self.values@);
        proof {
            vstd::seq_lib::to_multiset_build(self.values@, value);
        }
        self.values.push(value);
        let mut value_index = self.values.len() - 1;
        let mut parent_index_option = self.get_parent_index_of(value_index);
        let ghost whole = self.values@.to_multiset();
        proof {
            if ordered {
                assert forall|i: int|
                    0 < i < self.values@.len() && i != value_index implies le(
                    #[trigger] self.values@[i],
                    self.values@[parent(i)],
                ) by {
                    assert(le(old(self).values@[i], old(self).values@[parent(i)]));
                }
            }
        }
        loop
            invariant_except_break
                parent_index_option == (if value_index == 0 {
                    None::<usize>
                } else {
                    Some(parent(value_index as int) as usize)
                }),
            invariant
                total_order::<T>(),
                value_index < self.values@.len(),
                self.values@.to_multiset() == whole,
                ordered ==> ordered_but(self.values@, value_index as int),
            ensures
                ordered ==> heap_ordered(self.values@),
            decreases value_index,
        {
            match parent_index_option {
                None => {
                    break ;
                },
                Some(parent_index) => {
                    if less(&self.values[value_index], &self.values[parent_index]) {
                        proof {
                            let v = self.values@[value_index as int];
                            let p = self.values@[parent_index as int];
                            assert(le(v, p) || le(p, v));
                        }
                        break ;
                    }
                    let ghost before = self.values@;
                    let temp = self.values[parent_index];
                    let child = self.values[value_index];
                    self.values.set(parent_index, child);
                    self.values.set(value_index, temp);
                    proof {
                        assert(self.values@ == before.update(
                            parent_index as int,
                            before[value_index as int],
                        ).update(value_index as int, before[parent_index as int]));
                        lemma_swap_multiset(before, parent_index as int, value_index as int);
                        if ordered {
                            let s = self.values@;
                            let v = before[value_index as int];
                            let p = before[parent_index as int];
                            assert(le(p, v));
                            assert forall|i: int|
                                0 < i < s.len() && i != parent_index implies le(
                                #[trigger] s[i],
                                s[parent(i)],
                            ) by {
                                if i == value_index {
                                } else if parent(i) == value_index {
                                    assert(le(before[i], before[parent(value_index as int)]));
                                } else if parent(i) == parent_index {
                                    assert(le(before[i], before[parent(i)]));
                                } else {
                                    assert(le(before[i], before[parent(i)]));
                                }
                            }
                            assert forall|i: int|
                                0 < i < s.len() && parent(i) == parent_index && parent_index
                                    > 0 implies le(#[trigger] s[i], s[parent(parent_index as int)]) by {
                                assert(le(
                                    before[parent_index as int],
                                    before[parent(parent_index as int)],
                                ));
                                if i != value_index {
                                    assert(le(before[i], before[parent_index as int]));
                                }
                            }
                        }
                    }
                    value_index = parent_index;
                    parent_index_option = self.get_parent_index_of(value_index);
                },
            }
        }
    }

    /// Takes the greatest element out of the heap and returns it, or
    /// returns `None` if the heap is empty: the last node takes the place
    /// of the root and is exchanged with its greater child as long as it
    /// is not greater than it.
    pub fn extract(&mut self) -> (top: Option<T>)
        requires
            total_order::<T>(),
        ensures
            match top {
                None => old(self).values@.len() == 0 && final(self).values@ == old(self).values@,
                Some(greatest) => {
                    &&& old(self).values@.len() > 0
                    &&& greatest == old(self).values@[0]
                    &&& old(self).values@.to_multiset() == final(self).values@.to_multiset().insert(
                        greatest,
                    )
                    &&& heap_ordered(old(self).values@) ==> heap_ordered(final(self).values@)
                        && forall|k: int|
                        0 <= k < old(self).values@.len() ==> le(
                            #[trigger] old(self).values@[k],
                            greatest,
                        )
                },
            },
    {
        let ghost ordered = heap_ordered(self.values@);
        let ghost start = self.values@;
        let last = self.values.pop();
        let ghost popped = self.values@;
        if last.is_none() || self.values.len() == 0 {
            proof {
                broadcast use vstd::multiset::group_multiset_axioms;

                if last.is_some() {
                    assert(start =~= popped.push(last.unwrap()));
                    vstd::seq_lib::to_multiset_build(popped, last.unwrap());
                    lemma_le_reflexive(start[0]);
                }
            }
            return last;
        }
        let first = self.values[0];
        self.values.set(0, last.unwrap());
        let ghost whole = self.values@.to_multiset();
        proof {
            broadcast use vstd::multiset::group_multiset_axioms;

            assert(start =~= popped.push(last.unwrap()));
            vstd::seq_lib::to_multiset_build(popped, last.unwrap());
            vstd::seq_lib::to_multiset_update(popped, 0, last.unwrap());
            popped.to_multiset_ensures();
            assert(popped.to_multiset().count(first) > 0) by {
                assert(popped.contains(first));
            }
            assert(start.to_multiset() =~= whole.insert(first));
            if ordered {
                assert forall|k: int| 0 <= k < start.len() implies le(#[trigger] start[k], first) by {
                    lemma_root_is_greatest(start, k);
                }
                assert forall|i: int|
                    0 < i < self.values@.len() && parent(i) != 0 implies le(
                    #[trigger] self.values@[i],
                    self.values@[parent(i)],
                ) by {
                    assert(le(start[i], start[parent(i)]));
                }
            }
        }
        let mut value_index: usize = 0;
        let mut index_of_greater_child_option = self.get_index_of_greater_child(value_index);
        loop
            invariant_except_break
                match index_of_greater_child_option {
                    Some(child) => value_index * 2 + 1 < self.values@.len() && child
                        == greater_child(self.values@, value_index as int),
                    None => value_index * 2 + 1 >= self.values@.len(),
                },
            invariant
                total_order::<T>(),
                value_index < self.values@.len(),
                self.values@.to_multiset() == whole,
                ordered ==> ordered_below(self.values@, value_index as int),
            ensures
                ordered ==> heap_ordered(self.values@),
            decreases self.values@.len() - value_index,
        {
            match index_of_greater_child_option {
                None => {
                    break ;
                },
                Some(index_of_greater_child) => {
                    let ghost s = self.values@;
                    let ghost first_child = value_index * 2 + 1;
                    let ghost second_child = value_index * 2 + 2;
                    proof {
                        assert(parent(first_child) == value_index);
                        assert(parent(second_child) == value_index);
                        if second_child < s.len() {
                            assert(le(s[first_child], s[second_child]) || le(
                                s[second_child],
                                s[first_child],
                            ));
                        }
                        lemma_le_reflexive(s[index_of_greater_child as int]);
                    }
                    if greater(&self.values[value_index], &self.values[index_of_greater_child]) {
                        proof {
                            if ordered {
                                let v = s[value_index as int];
                                let c = s[index_of_greater_child as int];
                                assert(le(c, v) || le(v, c));
                                assert forall|i: int| 0 < i < s.len() implies le(
                                    #[trigger] s[i],
                                    s[parent(i)],
                                ) by {
                                    if parent(i) == value_index {
                                        assert(i == first_child || i == second_child);
                                        assert(le(s[i], c));
                                    }
                                }
                            }
                        }
                        break ;
                    }
                    let temp = self.values[index_of_greater_child];
                    let moved = self.values[value_index];
                    self.values.set(index_of_greater_child, moved);
                    self.values.set(value_index, temp);
                    proof {
                        assert(self.values@ == s.update(
                            index_of_greater_child as int,
                            s[value_index as int],
                        ).update(value_index as int, s[index_of_greater_child as int]));
                        lemma_swap_multiset(s, index_of_greater_child as int, value_index as int);
                        if ordered {
                            let t = self.values@;
                            let c = index_of_greater_child as int;
                            assert(le(s[value_index as int], s[c]));
                            assert forall|i: int| 0 < i < t.len() && parent(i) != c implies le(
                                #[trigger] t[i],
                                t[parent(i)],
                            ) by {
                                if i == c {
                                } else if parent(i) == value_index {
                                    assert(i == first_child || i == second_child);
                                } else if i == value_index {
                                    assert(le(s[c], s[parent(value_index as int)]));
                                } else {
                                    assert(le(s[i], s[parent(i)]));
                                }
                            }
                            assert forall|i: int| 0 < i < t.len() && parent(i) == c && c
                                > 0 implies le(#[trigger] t[i], t[parent(c)]) by {
                                assert(le(s[i], s[parent(i)]));
                            }
                        }
                    }
                    value_index = index_of_greater_child;
                    index_of_greater_child_option = self.get_index_of_greater_child(value_index);
                },
            }
        }
        Some(first)
    }

    /// Returns the position of the parent of the node at position
    /// `index`; the root has none.
    pub fn get_parent_index_of(&self, index: usize) -> (found: Option<usize>)
        ensures
            found == (if index == 0 {
                None::<usize>
            } else {
                Some(parent(index as int) as usize)
            }),
    {
        if index == 0 {
            None
        } else {
            Some((index - 1) / 2)
        }
    }

    /// Returns the position of the first child of the node at position
    /// `index`, if the heap holds it.
    pub fn get_index_of_first_child(&self, index: usize) -> (found: Option<usize>)
        ensures
            match found {
                Some(child) => child == index * 2 + 1 && child < self.values@.len(),
                None => index * 2 + 1 >= self.values@.len(),
            },
    {
        // The heap holds the child exactly if `index` is less than half
        // its length, and only then is the position of the child sure to
        // be a number that can be represented.
        if index < self.values.len() / 2 {
            Some(index * 2 + 1)
        } else {
            None
        }
    }

    /// Returns the position of the second child of the node at position
    /// `index`, if the heap holds it.
    pub fn get_index_of_second_child(&self, index: usize) -> (found: Option<usize>)
        ensures
            match found {
                Some(child) => child == index * 2 + 2 && child < self.values@.len(),
                None => index * 2 + 2 >= self.values@.len(),
            },
    {
        if self.values.len() > 0 && index < (self.values.len() - 1) / 2 {
            Some(index * 2 + 2)
        } else {
            None
        }
    }

    /// Returns the position of the greater child of the node at position
    /// `index`: the first child if it is greater than the second or is
    /// the only one, else the second; `None` if the node has no child.
    pub fn get_index_of_greater_child(&self, index: usize) -> (found: Option<usize>)
        requires
            total_order::<T>(),
        ensures
            match found {
                Some(child) => index * 2 + 1 < self.values@.len() && child == greater_child(
                    self.values@,
                    index as int,
                ),
                None => index * 2 + 1 >= self.values@.len(),
            },
    {
        let index_of_first_child = self.get_index_of_first_child(index);
        let index_of_second_child = self.get_index_of_second_child(index);
        match index_of_second_child {
            None => index_of_first_child,
            Some(second) => {
                let first = second - 1;
                if greater(&self.values[first], &self.values[second]) {
                    index_of_first_child
                } else {
                    index_of_second_child
                }
            },
        }
    }
}

} // verus!
