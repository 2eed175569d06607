//! The priority frontier of the shortest-path search: a bag of
//! `(distance, vertex)` entries that hands out a least entry first. The
//! entries are kept in a binary heap.

use vstd::prelude::*;
use vstd::multiset::Multiset;
use std::cmp::Ordering;
use vstd::std_specs::cmp::{PartialEqSpec, PartialOrdSpec};
use crate::ordering::{le, total_order};
use crate::tree::binary_heap::{heap_ordered, MaxBinaryHeap};

verus! {

/// A vertex with a distance at which it can be reached.
///
/// The order is that of a priority: an entry is greater than another if
/// its distance is less, or if the distances are equal and its vertex
/// number is less.
#[derive(Clone, Copy, Debug)]
pub struct VertexByDistance {
    pub vertex: usize,
    pub distance: u128,
}

/// Whether `a` comes before `b` in the frontier or is equal to it: by
/// distance, and among equal distances by vertex number.
pub open spec fn no_later(a: VertexByDistance, b: VertexByDistance) -> bool {
    a.distance < b.distance || (a.distance == b.distance && a.vertex <= b.vertex)
}

impl PartialEq for VertexByDistance {
    fn eq(&self, other: &Self) -> (result: bool) {
        self.distance == other.distance && self.vertex == other.vertex
    }
}

impl vstd::std_specs::cmp::PartialEqSpecImpl for VertexByDistance {
    open spec fn obeys_eq_spec() -> bool {
        true
    }

    open spec fn eq_spec(&self, other: &Self) -> bool {
        self.distance == other.distance && self.vertex == other.vertex
    }
}

impl PartialOrd for VertexByDistance {
    fn partial_cmp(&self, other: &Self) -> (result: Option<Ordering>) {
        if self.distance < other.distance {
            Some(Ordering::Greater)
        } else if self.distance > other.distance {
            Some(Ordering::Less)
        } else if self.vertex < other.vertex {
            Some(Ordering::Greater)
        } else if self.vertex > other.vertex {
            Some(Ordering::Less)
        } else {
            Some(Ordering::Equal)
        }
    }
}

impl vstd::std_specs::cmp::PartialOrdSpecImpl for VertexByDistance {
    open spec fn obeys_partial_cmp_spec() -> bool {
        true
    }

    open spec fn partial_cmp_spec(&self, other: &Self) -> Option<Ordering> {
        if self.distance < other.distance {
            Some(Ordering::Greater)
        } else if self.distance > other.distance {
            Some(Ordering::Less)
        } else if self.vertex < other.vertex {
            Some(Ordering::Greater)
        } else if self.vertex > other.vertex {
            Some(Ordering::Less)
        } else {
            Some(Ordering::Equal)
        }
    }
}

/// The order of the entries is a total order, and it is the order of the
/// frontier turned round: the greatest entry is the one that comes first.
pub proof fn lemma_priority_order()
    ensures
        total_order::<VertexByDistance>(),
        forall|a: VertexByDistance, b: VertexByDistance| #[trigger] le(a, b) == no_later(b, a),
{
    assert forall|a: VertexByDistance, b: VertexByDistance| #[trigger] le(a, b) == no_later(
        b,
        a,
    ) by {}
    assert forall|a: VertexByDistance, b: VertexByDistance|
        #![trigger a.eq_spec(&b)]
        a.eq_spec(&b) == (le(a, b) && le(b, a)) by {}
}

/// The order of the frontier: by distance, and among equal distances by
/// vertex number. It is a total order on entries.
pub open spec fn entry_le(a: (u128, usize), b: (u128, usize)) -> bool {
    a.0 < b.0 || (a.0 == b.0 && a.1 <= b.1)
}

/// The distance and the vertex of each node of the heap.
spec fn pairs(nodes: Seq<VertexByDistance>) -> Seq<(u128, usize)> {
    nodes.map_values(|node: VertexByDistance| (node.distance, node.vertex))
}

/// A pair occurs among the pairs of the nodes as often as its node occurs
/// among the nodes.
proof fn lemma_pairs_count(nodes: Seq<VertexByDistance>, pair: (u128, usize))
    ensures
        pairs(nodes).to_multiset().count(pair) == nodes.to_multiset().count(
            VertexByDistance { vertex: pair.1, distance: pair.0 },
        ),
    decreases nodes.len(),
{
    broadcast use vstd::seq_lib::group_to_multiset_ensures;

    let node = VertexByDistance { vertex: pair.1, distance: pair.0 };
    if nodes.len() == 0 {
        assert(!pairs(nodes).contains(pair));
        assert(!nodes.contains(node));
    } else {
        let front = nodes.drop_last();
        let last = nodes.last();
        lemma_pairs_count(front, pair);
        assert(nodes =~= front.push(last));
        assert(pairs(nodes) =~= pairs(front).push((last.distance, last.vertex)));
        assert(nodes.to_multiset() =~= front.to_multiset().insert(last));
        assert(pairs(nodes).to_multiset() =~= pairs(front).to_multiset().insert(
            (last.distance, last.vertex),
        ));
    }
}

/// A min-priority queue of `(distance, vertex)` entries.
pub struct Frontier {
    heap: MaxBinaryHeap<VertexByDistance>,
}

impl View for Frontier {
    type V = Multiset<(u128, usize)>;

    closed spec fn view(&self) -> Multiset<(u128, usize)> {
        pairs(self.heap.values@).to_multiset()
    }
}

impl Frontier {
    #[verifier::type_invariant]
    spec fn inv(&self) -> bool {
        heap_ordered(self.heap.values@)
    }

    /// Creates an empty frontier.
    pub fn new() -> (frontier: Frontier)
        ensures
            frontier@ == Multiset::<(u128, usize)>::empty(),
            frontier@.len() == 0,
    {
        let frontier = Frontier { heap: MaxBinaryHeap::new() };
        proof {
            broadcast use vstd::seq_lib::group_to_multiset_ensures;
            broadcast use vstd::multiset::group_multiset_axioms;

            assert(pairs(frontier.heap.values@) =~= Seq::<(u128, usize)>::empty());
            pairs(frontier.heap.values@).to_multiset_ensures();
            vstd::multiset::lemma_multiset_empty_len(frontier@);
        }
        frontier
    }

    /// Adds `entry` to the frontier.
    pub fn push(&mut self, entry: (u128, usize))
        ensures
            final(self)@ == old(self)@.insert(entry),
            final(self)@.len() == old(self)@.len() + 1,
            forall|x: (u128, usize)|
                #![trigger final(self)@.count(x)]
                final(self)@.count(x) == old(self)@.count(x) + if x == entry {
                    1nat
                } else {
                    0nat
                },
    {
        proof {
            use_type_invariant(&*self);
            lemma_priority_order();
        }
        let mut heap = MaxBinaryHeap::new();
        core::mem::swap(&mut self.heap, &mut heap);
        let ghost before = heap.values@;
        heap.insert(VertexByDistance { vertex: entry.1, distance: entry.0 });
        let ghost after = heap.values@;
        core::mem::swap(&mut self.heap, &mut heap);
        proof {
            broadcast use vstd::multiset::group_multiset_axioms;

            assert forall|x: (u128, usize)|
                pairs(after).to_multiset().count(x) == pairs(before).to_multiset().count(x)
                    + if x == entry {
                    1nat
                } else {
                    0nat
                } by {
                lemma_pairs_count(after, x);
                lemma_pairs_count(before, x);
            }
            assert(pairs(after).to_multiset() =~= pairs(before).to_multiset().insert(entry));
        }
    }

    /// Removes a least entry from the frontier and returns it, or returns
    /// `None` if the frontier is empty.
    pub fn pop(&mut self) -> (least: Option<(u128, usize)>)
        ensures
            match least {
                Some(entry) => {
                    &&& old(self)@.count(entry) > 0
                    &&& final(self)@ == old(self)@.remove(entry)
                    &&& final(self)@.len() == old(self)@.len() - 1
                    &&& forall|x: (u128, usize)|
                        #![trigger final(self)@.count(x)]
                        final(self)@.count(x) == old(self)@.count(x) - if x == entry {
                            1int
                        } else {
                            0int
                        }
                    &&& forall|x: (u128, usize)| #[trigger]
                        old(self)@.count(x) > 0 ==> entry_le(entry, x)
                },
                None => {
                    &&& final(self)@ == old(self)@
                    &&& old(self)@.len() == 0
                    &&& forall|x: (u128, usize)| #[trigger] old(self)@.count(x) == 0
                },
            },
    {
        proof {
            use_type_invariant(&*self);
            lemma_priority_order();
        }
        let mut heap = MaxBinaryHeap::new();
        core::mem::swap(&mut self.heap, &mut heap);
        let ghost before = heap.values@;
        let top = heap.extract();
        let ghost after = heap.values@;
        core::mem::swap(&mut self.heap, &mut heap);
        proof {
            broadcast use vstd::seq_lib::group_to_multiset_ensures;
            broadcast use vstd::multiset::group_multiset_axioms;

        }
        match top {
            None => {
                proof {
                    assert(pairs(before) =~= Seq::<(u128, usize)>::empty());
                    assert forall|x: (u128, usize)| #[trigger]
                        pairs(before).to_multiset().count(x) == 0 by {
                        assert(!pairs(before).contains(x));
                    }
                }
                None
            },
            Some(node) => {
                let entry = (node.distance, node.vertex);
                proof {
                    assert forall|x: (u128, usize)|
                        pairs(before).to_multiset().count(x) == pairs(after).to_multiset().count(x)
                            + if x == entry {
                            1nat
                        } else {
                            0nat
                        } by {
                        lemma_pairs_count(after, x);
                        lemma_pairs_count(before, x);
                    }
                    assert(pairs(after).to_multiset() =~= pairs(before).to_multiset().remove(entry));
                    assert forall|x: (u128, usize)| #[trigger]
                        pairs(before).to_multiset().count(x) > 0 implies entry_le(entry, x) by {
                        assert(pairs(before).contains(x));
                        let k = pairs(before).index_of(x);
                        assert(le(before[k], node));
                    }
                }
                Some(entry)
            },
        }
    }
}

} // verus!
