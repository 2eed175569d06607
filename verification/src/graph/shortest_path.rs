//! Single-source, single-target shortest-path search over vertices numbered
//! `0 .. n`: the mathematical definition of the search, and the proof that
//! what it finds is a path of least total weight.

use vstd::prelude::*;
use vstd::set_lib::{lemma_int_range, lemma_len_subset, set_int_range};

verus! {

/// A directed graph over the vertices `0 .. n` whose edges carry
/// non-negative weights. There is at most one edge per ordered pair.
pub struct IndexGraph {
    pub n: nat,
    pub weight: Map<(int, int), nat>,
}

impl IndexGraph {
    /// Every edge joins two vertices of the graph.
    pub open spec fn wf(self) -> bool {
        forall|u: int, v: int| #[trigger]
            self.weight.contains_key((u, v)) ==> 0 <= u < self.n && 0 <= v < self.n
    }

    /// Whether there is an edge from `u` to `v`.
    pub open spec fn has_edge(self, u: int, v: int) -> bool {
        self.weight.contains_key((u, v))
    }

    /// A path is a non-empty sequence of vertices in which every vertex
    /// has an edge to the one that follows it.
    pub open spec fn is_path(self, p: Seq<int>) -> bool {
        &&& p.len() >= 1
        &&& forall|i: int| 0 <= i < p.len() ==> 0 <= #[trigger] p[i] < self.n
        &&& forall|i: int| 0 <= i < p.len() - 1 ==> self.has_edge(#[trigger] p[i], p[i + 1])
    }

    /// The total weight of the edges along `p`.
    pub open spec fn path_weight(self, p: Seq<int>) -> nat
        decreases p.len(),
    {
        if p.len() <= 1 {
            0
        } else {
            self.path_weight(p.drop_last()) + self.weight[(p[p.len() - 2], p[p.len() - 1])]
        }
    }

    /// `p` is a path that starts at `source` and ends at `target`.
    pub open spec fn connects(self, p: Seq<int>, source: int, target: int) -> bool {
        self.is_path(p) && p[0] == source && p[p.len() - 1] == target
    }

    /// Whether some path leads from `source` to `target`.
    pub open spec fn reachable(self, source: int, target: int) -> bool {
        exists|p: Seq<int>| self.connects(p, source, target)
    }

    /// `p` leads from `source` to `target`, and no path between the two
    /// weighs less.
    pub open spec fn is_shortest(self, p: Seq<int>, source: int, target: int) -> bool {
        &&& self.connects(p, source, target)
        &&& forall|q: Seq<int>| #[trigger]
            self.connects(q, source, target) ==> self.path_weight(p) <= self.path_weight(q)
    }
}

/// The state of a search: the vertices whose distance from the source is
/// final, the best distance known so far for each discovered vertex, and
/// for each discovered vertex but the source the vertex before it on the
/// best path known so far.
pub struct SearchState {
    pub settled: Set<int>,
    pub dist: Map<int, nat>,
    pub pred: Map<int, int>,
}

impl SearchState {
    /// The state before anything is settled: only the source is known, at
    /// distance zero.
    pub open spec fn initial(source: int) -> SearchState {
        SearchState {
            settled: Set::empty(),
            dist: Map::empty().insert(source, 0nat),
            pred: Map::empty(),
        }
    }

    /// A vertex that has been discovered and is not settled yet.
    pub open spec fn is_candidate(self, v: int) -> bool {
        self.dist.contains_key(v) && !self.settled.contains(v)
    }

    /// The order in which candidates leave the frontier: by distance, and
    /// among equally distant vertices by number.
    pub open spec fn precedes(self, u: int, v: int) -> bool {
        self.dist[u] < self.dist[v] || (self.dist[u] == self.dist[v] && u <= v)
    }

    /// `u` is the candidate that leaves the frontier next.
    pub open spec fn is_next(self, u: int) -> bool {
        &&& self.is_candidate(u)
        &&& forall|v: int| #[trigger] self.is_candidate(v) ==> self.precedes(u, v)
    }

    /// Whether any candidate is left.
    pub open spec fn has_next(self) -> bool {
        exists|u: int| self.is_next(u)
    }

    /// The candidate that leaves the frontier next.
    pub open spec fn next(self) -> int {
        choose|u: int| self.is_next(u)
    }

    /// The state after `u` has been marked as settled.
    pub open spec fn settle(self, u: int) -> SearchState {
        SearchState { settled: self.settled.insert(u), dist: self.dist, pred: self.pred }
    }
}

/// Whether going through the newly settled `u` gives the unsettled
/// neighbour `v` a distance that is strictly better than what is known.
pub open spec fn improves(g: IndexGraph, st: SearchState, u: int, v: int) -> bool {
    &&& g.has_edge(u, v)
    &&& v != u
    &&& !st.settled.contains(v)
    &&& st.dist.contains_key(v) ==> st.dist[u] + g.weight[(u, v)] < st.dist[v]
}

/// The state after `u` has been settled and each of its outgoing edges
/// has been examined.
pub open spec fn relax(g: IndexGraph, st: SearchState, u: int) -> SearchState {
    SearchState {
        settled: st.settled.insert(u),
        dist: Map::new(
            |v: int| st.dist.contains_key(v) || improves(g, st, u, v),
            |v: int|
                if improves(g, st, u, v) {
                    st.dist[u] + g.weight[(u, v)]
                } else {
                    st.dist[v]
                },
        ),
        pred: Map::new(
            |v: int| st.pred.contains_key(v) || improves(g, st, u, v),
            |v: int|
                if improves(g, st, u, v) {
                    u
                } else {
                    st.pred[v]
                },
        ),
    }
}

/// Runs the search from `st` for at most `fuel` further vertices: settle
/// the next candidate; stop if it is the target or if none is left;
/// otherwise examine its edges and go on.
pub open spec fn search(g: IndexGraph, st: SearchState, target: int, fuel: nat) -> SearchState
    decreases fuel,
{
    if !st.has_next() || fuel == 0 {
        st
    } else if st.next() == target {
        st.settle(target)
    } else {
        search(g, relax(g, st, st.next()), target, (fuel - 1) as nat)
    }
}

/// The vertices met when walking back from `v` along the predecessors.
pub open spec fn back_chain(st: SearchState, v: int, fuel: nat) -> Seq<int>
    decreases fuel,
{
    if fuel == 0 {
        Seq::empty()
    } else if st.pred.contains_key(v) {
        seq![v] + back_chain(st, st.pred[v], (fuel - 1) as nat)
    } else {
        seq![v]
    }
}

/// The state in which the search from `source` for `target` ends.
pub open spec fn final_state(g: IndexGraph, source: int, target: int) -> SearchState {
    search(g, SearchState::initial(source), target, g.n)
}

/// The result of the search: the vertices from `source` to `target` along
/// the predecessors if the target was settled, and nothing otherwise.
pub open spec fn found_path(g: IndexGraph, source: int, target: int) -> Seq<int> {
    let end = final_state(g, source, target);
    if end.settled.contains(target) {
        back_chain(end, target, g.n).reverse()
    } else {
        Seq::empty()
    }
}

/// Every path from `source` to `u` weighs at least `d`.
pub open spec fn lower_bound(g: IndexGraph, source: int, u: int, d: nat) -> bool {
    forall|q: Seq<int>| #[trigger] g.connects(q, source, u) ==> d <= g.path_weight(q)
}

/// What is recorded for a discovered vertex `v` other than the source: a
/// settled predecessor, settled earlier than `v`, with an edge to `v` that
/// accounts for the distance of `v`.
pub open spec fn pred_ok(g: IndexGraph, st: SearchState, order: Seq<int>, v: int) -> bool {
    let p = st.pred[v];
    &&& st.pred.contains_key(v)
    &&& st.settled.contains(p)
    &&& g.has_edge(p, v)
    &&& st.dist[v] == st.dist[p] + g.weight[(p, v)]
    &&& st.settled.contains(v) ==> order.index_of(p) < order.index_of(v)
}

/// The part of the invariant that speaks of what is recorded for each
/// vertex. `order` lists the settled vertices in the order in which they
/// were settled.
pub open spec fn records_inv(g: IndexGraph, source: int, st: SearchState, order: Seq<int>) -> bool {
    &&& order.no_duplicates()
    &&& forall|v: int| #[trigger] st.settled.contains(v) <==> order.contains(v)
    &&& st.dist.contains_key(source) && st.dist[source] == 0 && !st.pred.contains_key(source)
    &&& forall|v: int| #[trigger] st.dist.contains_key(v) ==> 0 <= v < g.n
    &&& forall|v: int| #[trigger] st.settled.contains(v) ==> st.dist.contains_key(v)
    &&& forall|v: int| #[trigger] st.pred.contains_key(v) ==> st.dist.contains_key(v)
    &&& forall|v: int|
        #![trigger st.dist.contains_key(v)]
        st.dist.contains_key(v) && v != source ==> pred_ok(g, st, order, v)
}

/// The part of the invariant that speaks of distances: the distance of a
/// settled vertex is the least possible, the edges that leave a settled
/// vertex other than the target have been examined, and no candidate is
/// closer to the source than a settled vertex.
pub open spec fn distances_inv(g: IndexGraph, source: int, target: int, st: SearchState) -> bool {
    &&& forall|u: int|
        #![trigger st.settled.contains(u)]
        st.settled.contains(u) ==> lower_bound(g, source, u, st.dist[u])
    &&& forall|u: int, v: int|
        st.settled.contains(u) && u != target && #[trigger] g.has_edge(u, v)
            ==> st.dist.contains_key(v) && st.dist[v] <= st.dist[u] + g.weight[(u, v)]
    &&& forall|x: int, y: int|
        #![trigger st.settled.contains(x), st.is_candidate(y)]
        st.settled.contains(x) && st.is_candidate(y) ==> st.dist[x] <= st.dist[y]
}

/// The invariant of the search.
pub open spec fn search_inv(
    g: IndexGraph,
    source: int,
    target: int,
    st: SearchState,
    order: Seq<int>,
) -> bool {
    records_inv(g, source, st, order) && distances_inv(g, source, target, st)
}

/// At most one candidate can be the next one.
pub proof fn lemma_next_unique(st: SearchState, u: int, v: int)
    requires
        st.is_next(u),
        st.is_next(v),
    ensures
        u == v,
{
    assert(st.precedes(u, v));
    assert(st.precedes(v, u));
}

/// Among the candidates below `k`, if there is any, one precedes all
/// the others.
proof fn lemma_least_candidate(st: SearchState, k: nat) -> (least: Option<int>)
    ensures
        match least {
            Some(m) => {
                &&& 0 <= m < k
                &&& st.is_candidate(m)
                &&& forall|v: int| 0 <= v < k && #[trigger] st.is_candidate(v) ==> st.precedes(m, v)
            },
            None => forall|v: int| 0 <= v < k ==> !#[trigger] st.is_candidate(v),
        },
    decreases k,
{
    if k == 0 {
        None
    } else {
        let last = k - 1;
        match lemma_least_candidate(st, last as nat) {
            None => {
                if st.is_candidate(last) {
                    Some(last)
                } else {
                    None
                }
            },
            Some(m) => {
                if st.is_candidate(last) && !st.precedes(m, last) {
                    assert forall|v: int| 0 <= v < k && #[trigger] st.is_candidate(v) implies st.precedes(
                        last,
                        v,
                    ) by {
                        if v < last {
                            assert(st.precedes(m, v));
                        }
                    }
                    Some(last)
                } else {
                    Some(m)
                }
            },
        }
    }
}

/// As long as a candidate is left, one of them is the next.
pub proof fn lemma_has_next(g: IndexGraph, st: SearchState, witness: int)
    requires
        forall|v: int| #[trigger] st.dist.contains_key(v) ==> 0 <= v < g.n,
        st.is_candidate(witness),
    ensures
        st.has_next(),
{
    match lemma_least_candidate(st, g.n) {
        Some(m) => {
            assert(st.is_next(m));
        },
        None => {
            assert(!st.is_candidate(witness));
        },
    }
}

/// A sequence of distinct vertices that leaves one vertex out is shorter
/// than the number of vertices.
pub proof fn lemma_order_not_full(order: Seq<int>, n: nat, u: int)
    requires
        order.no_duplicates(),
        forall|i: int| 0 <= i < order.len() ==> 0 <= #[trigger] order[i] < n,
        0 <= u < n,
        !order.contains(u),
    ensures
        order.len() < n,
{
    let longer = order.push(u);
    assert forall|i: int, j: int| 0 <= i < longer.len() && 0 <= j < longer.len() && i != j implies longer[i]
        != longer[j] by {
        if i < order.len() && j < order.len() {
            assert(longer[i] == order[i] && longer[j] == order[j]);
        } else if i < order.len() {
            assert(longer[i] == order[i]);
            assert(order.contains(order[i]));
        } else {
            assert(longer[j] == order[j]);
            assert(order.contains(order[j]));
        }
    }
    longer.unique_seq_to_set();
    lemma_int_range(0, n as int);
    assert(longer.to_set().subset_of(set_int_range(0, n as int))) by {
        assert forall|v: int| longer.to_set().contains(v) implies set_int_range(
            0,
            n as int,
        ).contains(v) by {
            let i = longer.index_of(v);
            assert(longer.contains(v));
            if i < order.len() {
                assert(longer[i] == order[i]);
            }
        }
    }
    lemma_len_subset(longer.to_set(), set_int_range(0, n as int));
}

/// Membership in a sequence extended by one element.
proof fn lemma_push_contains(order: Seq<int>, u: int)
    ensures
        forall|v: int| order.push(u).contains(v) <==> (order.contains(v) || v == u),
{
    let longer = order.push(u);
    assert forall|v: int| longer.contains(v) <==> (order.contains(v) || v == u) by {
        if longer.contains(v) {
            let i = longer.index_of(v);
            if i < order.len() {
                assert(order[i] == v);
            }
        }
        if order.contains(v) {
            let i = order.index_of(v);
            assert(longer[i] == v);
        }
        if v == u {
            assert(longer[order.len() as int] == v);
        }
    }
}

/// Positions in a duplicate-free sequence extended by a fresh element.
proof fn lemma_push_index_of(order: Seq<int>, u: int, v: int)
    requires
        order.no_duplicates(),
        !order.contains(u),
        order.contains(v) || v == u,
    ensures
        order.push(u).no_duplicates(),
        order.push(u).contains(v),
        v == u ==> order.push(u).index_of(v) == order.len(),
        order.contains(v) ==> order.push(u).index_of(v) == order.index_of(v),
        order.contains(v) ==> 0 <= order.index_of(v) < order.len(),
{
    let longer = order.push(u);
    lemma_push_contains(order, u);
    assert forall|i: int, j: int| 0 <= i < longer.len() && 0 <= j < longer.len() && i != j implies longer[i]
        != longer[j] by {
        if i < order.len() && j < order.len() {
            assert(longer[i] == order[i] && longer[j] == order[j]);
        } else if i < order.len() {
            assert(longer[i] == order[i]);
            assert(order.contains(order[i]));
        } else {
            assert(longer[j] == order[j]);
            assert(order.contains(order[j]));
        }
    }
    let i = longer.index_of(v);
    assert(0 <= i < longer.len() && longer[i] == v);
    if order.contains(v) {
        let j = order.index_of(v);
        assert(longer[j] == v);
    } else {
        assert(longer[order.len() as int] == v);
    }
}

/// A path that starts at the source and ends at an unsettled vertex weighs
/// at least as much as the distance known for some candidate.
proof fn lemma_candidate_on_path(
    g: IndexGraph,
    source: int,
    target: int,
    st: SearchState,
    order: Seq<int>,
    q: Seq<int>,
) -> (y: int)
    requires
        search_inv(g, source, target, st, order),
        !st.settled.contains(target),
        g.is_path(q),
        q[0] == source,
        !st.settled.contains(q[q.len() - 1]),
    ensures
        st.is_candidate(y),
        st.dist[y] <= g.path_weight(q),
    decreases q.len(),
{
    let last = q[q.len() - 1];
    if q.len() == 1 {
        source
    } else {
        let shorter = q.drop_last();
        let x = q[q.len() - 2];
        assert(g.is_path(shorter)) by {
            assert forall|i: int| 0 <= i < shorter.len() - 1 implies g.has_edge(
                #[trigger] shorter[i],
                shorter[i + 1],
            ) by {
                assert(g.has_edge(q[i], q[i + 1]));
            }
            assert forall|i: int| 0 <= i < shorter.len() implies 0 <= #[trigger] shorter[i]
                < g.n by {
                assert(0 <= q[i] < g.n);
            }
        }
        assert(shorter[shorter.len() - 1] == x);
        assert(g.has_edge(q[q.len() - 2], q[q.len() - 2 + 1]));
        if st.settled.contains(x) {
            assert(lower_bound(g, source, x, st.dist[x]));
            assert(g.connects(shorter, source, x));
            assert(g.has_edge(x, last));
            last
        } else {
            lemma_candidate_on_path(g, source, target, st, order, shorter)
        }
    }
}

/// The distance known for the next candidate is a lower bound on the
/// weight of every path that leads to it.
proof fn lemma_next_is_optimal(
    g: IndexGraph,
    source: int,
    target: int,
    st: SearchState,
    order: Seq<int>,
    u: int,
)
    requires
        search_inv(g, source, target, st, order),
        !st.settled.contains(target),
        st.is_next(u),
    ensures
        lower_bound(g, source, u, st.dist[u]),
{
    assert forall|q: Seq<int>| #[trigger] g.connects(q, source, u) implies st.dist[u]
        <= g.path_weight(q) by {
        let y = lemma_candidate_on_path(g, source, target, st, order, q);
        assert(st.precedes(u, y));
    }
}

/// The search starts in a state that satisfies the invariant.
pub proof fn lemma_initial_inv(g: IndexGraph, source: int, target: int)
    requires
        0 <= source < g.n,
    ensures
        search_inv(g, source, target, SearchState::initial(source), Seq::<int>::empty()),
{
}

/// Settling the target when it is the next candidate keeps the invariant.
pub proof fn lemma_settle_inv(
    g: IndexGraph,
    source: int,
    target: int,
    st: SearchState,
    order: Seq<int>,
)
    requires
        g.wf(),
        search_inv(g, source, target, st, order),
        !st.settled.contains(target),
        st.is_next(target),
    ensures
        search_inv(g, source, target, st.settle(target), order.push(target)),
{
    let u = target;
    let st2 = st.settle(u);
    let order2 = order.push(u);
    lemma_next_is_optimal(g, source, target, st, order, u);
    lemma_push_contains(order, u);
    lemma_push_index_of(order, u, u);
    assert forall|v: int|
        #![trigger st2.dist.contains_key(v)]
        st2.dist.contains_key(v) && v != source implies pred_ok(g, st2, order2, v) by {
        assert(pred_ok(g, st, order, v));
        let p = st.pred[v];
        lemma_push_index_of(order, u, p);
        if st.settled.contains(v) {
            lemma_push_index_of(order, u, v);
        }
    }
    assert forall|x: int, y: int|
        #![trigger st2.settled.contains(x), st2.is_candidate(y)]
        st2.settled.contains(x) && st2.is_candidate(y) implies st2.dist[x] <= st2.dist[y] by {
        assert(st.is_candidate(y));
        if x == u {
            assert(st.precedes(u, y));
        } else {
            assert(st.settled.contains(x));
        }
    }
}

/// Settling the next candidate and examining its edges keeps the
/// invariant.
pub proof fn lemma_relax_inv(
    g: IndexGraph,
    source: int,
    target: int,
    st: SearchState,
    order: Seq<int>,
    u: int,
)
    requires
        g.wf(),
        search_inv(g, source, target, st, order),
        !st.settled.contains(target),
        st.is_next(u),
        u != target,
    ensures
        search_inv(g, source, target, relax(g, st, u), order.push(u)),
        !relax(g, st, u).settled.contains(target),
{
    let st2 = relax(g, st, u);
    let order2 = order.push(u);
    lemma_next_is_optimal(g, source, target, st, order, u);
    lemma_push_contains(order, u);
    lemma_push_index_of(order, u, u);
    assert(!improves(g, st, u, source));
    assert forall|v: int| #[trigger] st2.dist.contains_key(v) implies 0 <= v < g.n by {
        if improves(g, st, u, v) {
            assert(g.weight.contains_key((u, v)));
        }
    }
    assert forall|v: int|
        #![trigger st2.dist.contains_key(v)]
        st2.dist.contains_key(v) && v != source implies pred_ok(g, st2, order2, v) by {
        if improves(g, st, u, v) {
            assert(!improves(g, st, u, u));
        } else {
            assert(st.dist.contains_key(v));
            assert(pred_ok(g, st, order, v));
            let p = st.pred[v];
            assert(!improves(g, st, u, p));
            lemma_push_index_of(order, u, p);
            if st.settled.contains(v) {
                lemma_push_index_of(order, u, v);
            }
        }
    }
    assert forall|x: int| #[trigger] st2.settled.contains(x) implies lower_bound(
        g,
        source,
        x,
        st2.dist[x],
    ) by {
        assert(!improves(g, st, u, x));
        if x != u {
            assert(st.settled.contains(x));
        }
    }
    assert forall|x: int, v: int|
        st2.settled.contains(x) && x != target && #[trigger] g.has_edge(x, v) implies st2.dist.contains_key(
        v,
    ) && st2.dist[v] <= st2.dist[x] + g.weight[(x, v)] by {
        assert(!improves(g, st, u, x));
        if x == u {
            if !improves(g, st, u, v) {
                if v != u && st.settled.contains(v) {
                    assert(st.is_candidate(u));
                    assert(st.dist[v] <= st.dist[u]);
                }
            }
        } else {
            assert(st.settled.contains(x));
            assert(st.dist.contains_key(v) && st.dist[v] <= st.dist[x] + g.weight[(x, v)]);
        }
    }
    assert forall|x: int, y: int|
        #![trigger st2.settled.contains(x), st2.is_candidate(y)]
        st2.settled.contains(x) && st2.is_candidate(y) implies st2.dist[x] <= st2.dist[y] by {
        assert(!improves(g, st, u, x));
        assert(st.is_candidate(u));
        if x != u {
            assert(st.settled.contains(x));
            assert(st.dist[x] <= st.dist[u]);
        }
        if !improves(g, st, u, y) {
            assert(st.is_candidate(y));
            assert(st.precedes(u, y));
        }
    }
}

/// Where no candidate is left, nothing outside the settled vertices can be
/// reached from the source.
proof fn lemma_exhausted(
    g: IndexGraph,
    source: int,
    target: int,
    st: SearchState,
    order: Seq<int>,
)
    requires
        search_inv(g, source, target, st, order),
        !st.settled.contains(target),
        !st.has_next(),
    ensures
        !g.reachable(source, target),
{
    if g.reachable(source, target) {
        let q = choose|q: Seq<int>| g.connects(q, source, target);
        let y = lemma_candidate_on_path(g, source, target, st, order, q);
        lemma_has_next(g, st, y);
    }
}

/// The search keeps its invariant to the end, and it ends with the target
/// settled unless the target cannot be reached at all.
pub proof fn lemma_search(
    g: IndexGraph,
    source: int,
    target: int,
    st: SearchState,
    order: Seq<int>,
    fuel: nat,
) -> (end_order: Seq<int>)
    requires
        g.wf(),
        0 <= target < g.n,
        search_inv(g, source, target, st, order),
        !st.settled.contains(target),
        fuel + order.len() >= g.n,
    ensures
        search_inv(g, source, target, search(g, st, target, fuel), end_order),
        search(g, st, target, fuel).settled.contains(target) || !g.reachable(source, target),
    decreases fuel,
{
    if !st.has_next() {
        lemma_exhausted(g, source, target, st, order);
        order
    } else {
        let u = st.next();
        assert(st.is_next(u));
        assert(order.len() < g.n) by {
            lemma_order_bounded(g, source, st, order);
            lemma_order_not_full(order, g.n, u);
        }
        if u == target {
            lemma_settle_inv(g, source, target, st, order);
            order.push(u)
        } else {
            lemma_relax_inv(g, source, target, st, order, u);
            lemma_search(g, source, target, relax(g, st, u), order.push(u), (fuel - 1) as nat)
        }
    }
}

/// Walking back from a settled vertex along the predecessors reaches the
/// source, and the vertices met, read backwards, form a path whose weight
/// is the distance recorded for that vertex.
pub proof fn lemma_back_chain(
    g: IndexGraph,
    source: int,
    st: SearchState,
    order: Seq<int>,
    v: int,
    fuel: nat,
)
    requires
        g.wf(),
        records_inv(g, source, st, order),
        st.settled.contains(v),
        fuel > order.index_of(v),
    ensures
        ({
            let c = back_chain(st, v, fuel);
            &&& 1 <= c.len() <= order.index_of(v) + 1
            &&& c[0] == v
            &&& c[c.len() - 1] == source
            &&& !st.pred.contains_key(c[c.len() - 1])
            &&& forall|i: int|
                0 <= i < c.len() - 1 ==> st.pred.contains_key(#[trigger] c[i]) && st.pred[c[i]]
                    == c[i + 1]
            &&& g.connects(c.reverse(), source, v)
            &&& g.path_weight(c.reverse()) == st.dist[v]
        }),
    decreases order.index_of(v),
{
    let c = back_chain(st, v, fuel);
    assert(order.contains(v));
    assert(0 <= order.index_of(v) < order.len());
    assert(0 <= v < g.n);
    if v == source {
        assert(c =~= seq![v]);
        assert(c.reverse() =~= seq![v]);
    } else {
        assert(pred_ok(g, st, order, v));
        let p = st.pred[v];
        let rest = back_chain(st, p, (fuel - 1) as nat);
        assert(order.contains(p));
        lemma_back_chain(g, source, st, order, p, (fuel - 1) as nat);
        assert(c =~= seq![v] + rest);
        let forward = c.reverse();
        assert(forward.drop_last() =~= rest.reverse());
        assert(forward[forward.len() - 1] == v);
        assert(forward[forward.len() - 2] == p);
        assert forall|i: int| 0 <= i < c.len() - 1 implies st.pred.contains_key(#[trigger] c[i])
            && st.pred[c[i]] == c[i + 1] by {
            if i > 0 {
                assert(c[i] == rest[i - 1]);
                assert(c[i + 1] == rest[i]);
            }
        }
        assert(g.is_path(forward)) by {
            let before = rest.reverse();
            assert forall|i: int| 0 <= i < forward.len() implies 0 <= #[trigger] forward[i]
                < g.n by {
                if i < before.len() {
                    assert(forward[i] == before[i]);
                }
            }
            assert forall|i: int| 0 <= i < forward.len() - 1 implies g.has_edge(
                #[trigger] forward[i],
                forward[i + 1],
            ) by {
                if i < before.len() - 1 {
                    assert(forward[i] == before[i]);
                    assert(forward[i + 1] == before[i + 1]);
                    assert(g.has_edge(before[i], before[i + 1]));
                } else {
                    assert(forward[i] == p);
                }
            }
        }
    }
}

/// No more vertices are settled than the graph has.
pub proof fn lemma_order_bounded(g: IndexGraph, source: int, st: SearchState, order: Seq<int>)
    requires
        records_inv(g, source, st, order),
    ensures
        order.len() <= g.n,
        forall|i: int| 0 <= i < order.len() ==> 0 <= #[trigger] order[i] < g.n,
{
    assert forall|i: int| 0 <= i < order.len() implies 0 <= #[trigger] order[i] < g.n by {
        assert(order.contains(order[i]));
        assert(st.settled.contains(order[i]));
    }
    if order.len() > 0 {
        let last = order[order.len() - 1];
        let shorter = order.drop_last();
        assert forall|i: int| 0 <= i < shorter.len() implies 0 <= #[trigger] shorter[i] < g.n by {
            assert(shorter[i] == order[i]);
        }
        assert(!shorter.contains(last)) by {
            if shorter.contains(last) {
                let i = shorter.index_of(last);
                assert(order[i] == last);
            }
        }
        assert(shorter.no_duplicates()) by {
            assert forall|i: int, j: int|
                0 <= i < shorter.len() && 0 <= j < shorter.len() && i != j implies shorter[i]
                != shorter[j] by {
                assert(shorter[i] == order[i] && shorter[j] == order[j]);
            }
        }
        lemma_order_not_full(shorter, g.n, last);
    }
}

/// What the search finds is a path of least weight from the source to the
/// target whenever the target can be reached, and nothing otherwise.
pub proof fn lemma_found_path(g: IndexGraph, source: int, target: int)
    requires
        g.wf(),
        0 <= source < g.n,
        0 <= target < g.n,
    ensures
        g.reachable(source, target) ==> g.is_shortest(
            found_path(g, source, target),
            source,
            target,
        ),
        !g.reachable(source, target) ==> found_path(g, source, target) == Seq::<int>::empty(),
        found_path(g, source, target).len() <= g.n,
{
    lemma_initial_inv(g, source, target);
    let start = SearchState::initial(source);
    let order = lemma_search(g, source, target, start, Seq::<int>::empty(), g.n);
    let end = final_state(g, source, target);
    if end.settled.contains(target) {
        assert(order.contains(target));
        assert(0 <= order.index_of(target) < order.len());
        lemma_order_bounded(g, source, end, order);
        lemma_back_chain(g, source, end, order, target, g.n);
        let path = found_path(g, source, target);
        assert(g.connects(path, source, target));
        assert(lower_bound(g, source, target, end.dist[target]));
    }
}

} // verus!
