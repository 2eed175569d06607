//! The mathematical model of a weighted directed graph, and what it
//! means for a sequence of identifiers to be a shortest route in it.

use vstd::prelude::*;
use super::identifiable::Identifiable;
use super::messages::{duplicate_edge, duplicate_vertex, edge_not_found, vertex_not_found};
use super::oriented_weighted_graph::lemma_index_of_range;
use super::traversal::traversal_of;
use super::shortest_path::{
    back_chain, final_state, found_path, lemma_found_path, IndexGraph, SearchState,
};

verus! {

/// Mathematical model of a directed, weighted graph.
///
/// `vertices` maps each identifier to the payload stored under it, and
/// `edges` maps each identifier to its outgoing edges: the identifier of
/// each neighbour together with the weight of the edge leading to it.
/// `ids` lists the identifiers oldest first; it only matters where ties
/// between equally short paths have to be broken.
pub struct WeightedGraphView<T> {
    pub ids: Seq<Seq<char>>,
    pub vertices: Map<Seq<char>, T>,
    pub edges: Map<Seq<char>, Map<Seq<char>, u32>>,
}

impl<T: Identifiable> WeightedGraphView<T> {
    /// The invariants of the data model: identifiers are unique, vertices
    /// and edge sets are added and removed together, every vertex is keyed
    /// by its own identifier, and every edge leads to an existing vertex.
    pub open spec fn wf(self) -> bool {
        &&& self.ids.no_duplicates()
        &&& forall|k: Seq<char>| self.vertices.contains_key(k) <==> self.ids.contains(k)
        &&& forall|k: Seq<char>| self.edges.contains_key(k) <==> self.ids.contains(k)
        &&& forall|k: Seq<char>| #[trigger]
            self.vertices.contains_key(k) ==> self.vertices[k].id() == k
        &&& forall|s: Seq<char>, t: Seq<char>| #[trigger]
            self.has_edge(s, t) ==> self.vertices.contains_key(s) && self.vertices.contains_key(t)
    }

    /// Whether a vertex with identifier `id` is present.
    pub open spec fn has_vertex(self, id: Seq<char>) -> bool {
        self.vertices.contains_key(id)
    }

    /// Whether there is an edge from `source` to `target`.
    pub open spec fn has_edge(self, source: Seq<char>, target: Seq<char>) -> bool {
        self.edges.contains_key(source) && self.edges[source].contains_key(target)
    }

    /// The weight of the edge from `source` to `target`.
    pub open spec fn weight(self, source: Seq<char>, target: Seq<char>) -> nat
        recommends
            self.has_edge(source, target),
    {
        self.edges[source][target] as nat
    }
}

/// The edges that remain once the vertex `id` is gone: its own outgoing
/// edges disappear, and so does every edge leading to it.
pub open spec fn without_vertex(
    edges: Map<Seq<char>, Map<Seq<char>, u32>>,
    id: Seq<char>,
) -> Map<Seq<char>, Map<Seq<char>, u32>> {
    Map::new(
        |source: Seq<char>| edges.contains_key(source) && source != id,
        |source: Seq<char>| edges[source].remove(id),
    )
}

/// The identifiers that a sequence of strings spells out.
pub open spec fn names(path: Seq<String>) -> Seq<Seq<char>> {
    path.map_values(|id: String| id@)
}

/// `list` holds the edges of `edges`, each exactly once.
pub open spec fn lists(list: Seq<(String, u32)>, edges: Map<Seq<char>, u32>) -> bool {
    &&& forall|a: int, b: int|
        0 <= a < list.len() && 0 <= b < list.len() && a != b ==> (#[trigger] list[a]).0@ != (
        #[trigger] list[b]).0@
    &&& forall|k: int|
        0 <= k < list.len() ==> edges.contains_key((#[trigger] list[k]).0@) && edges[list[k].0@]
            == list[k].1
    &&& forall|t: Seq<char>|
        edges.contains_key(t) ==> exists|k: int| 0 <= k < list.len() && (#[trigger] list[k]).0@ == t
}

/// What a result says once its strings are read as sequences of
/// characters.
pub open spec fn outcome(result: Result<(), String>) -> Result<(), Seq<char>> {
    match result {
        Ok(_) => Ok(()),
        Err(msg) => Err(msg@),
    }
}

/// What the result of a search says once its strings are read as
/// sequences of characters.
pub open spec fn route_outcome(result: Result<Vec<String>, String>) -> Result<
    Seq<Seq<char>>,
    Seq<char>,
> {
    match result {
        Ok(path) => Ok(names(path@)),
        Err(msg) => Err(msg@),
    }
}

impl<T: Identifiable> WeightedGraphView<T> {
    /// Adding `vertex`: the graph that results, and the outcome reported.
    /// A vertex whose identifier is taken is refused with
    /// `DuplicateVertex`.
    pub open spec fn add_vertex(self, vertex: T) -> (Self, Result<(), Seq<char>>) {
        let id = vertex.id();
        if self.has_vertex(id) {
            (self, Err(duplicate_vertex(id)))
        } else {
            (
                WeightedGraphView {
                    ids: self.ids.push(id),
                    vertices: self.vertices.insert(id, vertex),
                    edges: self.edges.insert(id, Map::empty()),
                },
                Ok(()),
            )
        }
    }

    /// Adding an edge from `source` to `target`: the graph that results,
    /// and the outcome reported. An absent endpoint is reported as
    /// `VertexNotFound`, the source first; an edge that is already there
    /// is refused with `DuplicateEdge`.
    pub open spec fn add_edge(self, source: Seq<char>, target: Seq<char>, weight: u32) -> (
        Self,
        Result<(), Seq<char>>,
    ) {
        if !self.has_vertex(source) {
            (self, Err(vertex_not_found(source)))
        } else if !self.has_vertex(target) {
            (self, Err(vertex_not_found(target)))
        } else if self.has_edge(source, target) {
            (self, Err(duplicate_edge(source, target)))
        } else {
            (
                WeightedGraphView {
                    ids: self.ids,
                    vertices: self.vertices,
                    edges: self.edges.insert(source, self.edges[source].insert(target, weight)),
                },
                Ok(()),
            )
        }
    }

    /// Removing the edge from `source` to `target`: the graph that
    /// results, and the outcome reported. An absent endpoint is reported
    /// as `VertexNotFound`, the source first; a missing edge as
    /// `EdgeNotFound`.
    pub open spec fn remove_edge(self, source: Seq<char>, target: Seq<char>) -> (
        Self,
        Result<(), Seq<char>>,
    ) {
        if !self.has_vertex(source) {
            (self, Err(vertex_not_found(source)))
        } else if !self.has_vertex(target) {
            (self, Err(vertex_not_found(target)))
        } else if !self.has_edge(source, target) {
            (self, Err(edge_not_found(source, target)))
        } else {
            (
                WeightedGraphView {
                    ids: self.ids,
                    vertices: self.vertices,
                    edges: self.edges.insert(source, self.edges[source].remove(target)),
                },
                Ok(()),
            )
        }
    }

    /// Removing the vertex `id`: the graph that results, and the outcome
    /// reported. The vertex goes together with the edges that leave it and
    /// the edges that lead to it; an absent vertex is reported as
    /// `VertexNotFound`.
    pub open spec fn remove_vertex(self, id: Seq<char>) -> (Self, Result<(), Seq<char>>) {
        if !self.has_vertex(id) {
            (self, Err(vertex_not_found(id)))
        } else {
            (
                WeightedGraphView {
                    ids: self.ids.remove(self.ids.index_of(id)),
                    vertices: self.vertices.remove(id),
                    edges: without_vertex(self.edges, id),
                },
                Ok(()),
            )
        }
    }

    /// Searching for a shortest path from `source` to `target`: an absent
    /// endpoint is reported as `VertexNotFound`, the source first;
    /// otherwise the outcome is the route that the search returns.
    pub open spec fn shortest_path(self, source: Seq<char>, target: Seq<char>) -> Result<
        Seq<Seq<char>>,
        Seq<char>,
    > {
        if !self.has_vertex(source) {
            Err(vertex_not_found(source))
        } else if !self.has_vertex(target) {
            Err(vertex_not_found(target))
        } else {
            Ok(self.shortest_route(source, target))
        }
    }

    /// Once a vertex has been added it is present, and adding a vertex
    /// with the same identifier again is refused with `DuplicateVertex`
    /// and changes nothing.
    pub proof fn lemma_add_vertex_twice(self, first: T, second: T)
        requires
            self.add_vertex(first).1 is Ok,
            second.id() == first.id(),
        ensures
            self.add_vertex(first).0.has_vertex(first.id()),
            self.add_vertex(first).0.vertices[first.id()] == first,
            self.add_vertex(first).0.add_vertex(second) == (
                self.add_vertex(first).0,
                Err::<(), Seq<char>>(duplicate_vertex(first.id())),
            ),
    {
    }

    /// Removing a vertex that is present removes it together with every
    /// edge of which it was the source or the target, and leaves every
    /// other vertex and edge as it was.
    pub proof fn lemma_remove_vertex_present(self, id: Seq<char>)
        requires
            self.wf(),
            self.has_vertex(id),
        ensures
            self.remove_vertex(id).1 is Ok,
            !self.remove_vertex(id).0.has_vertex(id),
            forall|other: Seq<char>|
                other != id ==> (#[trigger] self.remove_vertex(id).0.has_vertex(other)
                    <==> self.has_vertex(other)),
            forall|other: Seq<char>|
                other != id && self.has_vertex(other) ==> #[trigger] self.remove_vertex(
                    id,
                ).0.vertices[other] == self.vertices[other],
            forall|s: Seq<char>, t: Seq<char>| #[trigger]
                self.remove_vertex(id).0.has_edge(s, t) <==> self.has_edge(s, t) && s != id && t
                    != id,
            forall|s: Seq<char>, t: Seq<char>| #[trigger]
                self.remove_vertex(id).0.has_edge(s, t) ==> self.remove_vertex(id).0.weight(s, t)
                    == self.weight(s, t),
    {
    }

    /// Removing a vertex that is absent fails with `VertexNotFound` and
    /// leaves the graph unchanged.
    pub proof fn lemma_remove_vertex_absent(self, id: Seq<char>)
        requires
            !self.has_vertex(id),
        ensures
            self.remove_vertex(id) == (self, Err::<(), Seq<char>>(vertex_not_found(id))),
    {
    }

    /// Adding an edge between two existing vertices a second time is
    /// refused with `DuplicateEdge`, whatever the weight, and the edges
    /// stay as the first call left them.
    pub proof fn lemma_add_edge_twice(
        self,
        source: Seq<char>,
        target: Seq<char>,
        first: u32,
        second: u32,
    )
        requires
            self.wf(),
            self.has_vertex(source),
            self.has_vertex(target),
            !self.has_edge(source, target),
        ensures
            self.add_edge(source, target, first).1 is Ok,
            self.add_edge(source, target, first).0.has_edge(source, target),
            self.add_edge(source, target, first).0.weight(source, target) == first,
            self.add_edge(source, target, first).0.add_edge(source, target, second) == (
                self.add_edge(source, target, first).0,
                Err::<(), Seq<char>>(duplicate_edge(source, target)),
            ),
    {
    }

    /// Each operation takes a well-formed graph to a well-formed graph.
    pub proof fn lemma_operations_keep_wf(
        self,
        vertex: T,
        source: Seq<char>,
        target: Seq<char>,
        weight: u32,
    )
        requires
            self.wf(),
        ensures
            self.add_vertex(vertex).0.wf(),
            self.add_edge(source, target, weight).0.wf(),
            self.remove_edge(source, target).0.wf(),
            self.remove_vertex(source).0.wf(),
    {
        self.lemma_add_vertex_keeps_wf(vertex);
        self.lemma_add_edge_keeps_wf(source, target, weight);
        self.lemma_remove_edge_keeps_wf(source, target);
        self.lemma_remove_vertex_keeps_wf(source);
    }

    proof fn lemma_add_vertex_keeps_wf(self, vertex: T)
        requires
            self.wf(),
        ensures
            self.add_vertex(vertex).0.wf(),
    {
        let id = vertex.id();
        let after = self.add_vertex(vertex).0;
        if !self.has_vertex(id) {
            assert forall|k: Seq<char>| after.ids.contains(k) <==> (self.ids.contains(k) || k
                == id) by {
                if self.ids.contains(k) {
                    let i = self.ids.index_of(k);
                    assert(after.ids[i] == k);
                }
                if k == id {
                    assert(after.ids[self.ids.len() as int] == k);
                }
                if after.ids.contains(k) {
                    let i = after.ids.index_of(k);
                    if i < self.ids.len() {
                        assert(self.ids[i] == k);
                    }
                }
            }
            assert(after.ids.no_duplicates()) by {
                assert forall|i: int, j: int|
                    0 <= i < after.ids.len() && 0 <= j < after.ids.len() && i != j implies after.ids[i]
                    != after.ids[j] by {
                    if i < self.ids.len() {
                        assert(self.ids.contains(self.ids[i]));
                    }
                    if j < self.ids.len() {
                        assert(self.ids.contains(self.ids[j]));
                    }
                }
            }
            assert forall|s: Seq<char>, t: Seq<char>| #[trigger]
                after.has_edge(s, t) implies after.vertices.contains_key(s)
                && after.vertices.contains_key(t) by {
                if s == id {
                    assert(after.edges[s] == Map::<Seq<char>, u32>::empty());
                    assert(!Map::<Seq<char>, u32>::empty().contains_key(t));
                } else {
                    assert(after.edges[s] == self.edges[s]);
                    assert(self.has_edge(s, t));
                }
            }
        }
    }

    proof fn lemma_add_edge_keeps_wf(self, source: Seq<char>, target: Seq<char>, weight: u32)
        requires
            self.wf(),
        ensures
            self.add_edge(source, target, weight).0.wf(),
    {
        let after = self.add_edge(source, target, weight).0;
        assert forall|s: Seq<char>, t: Seq<char>| #[trigger]
            after.has_edge(s, t) implies after.vertices.contains_key(s)
            && after.vertices.contains_key(t) by {
            if self.add_edge(source, target, weight).1 is Ok {
                assert(self.ids.contains(source));
                assert(self.edges.contains_key(source));
                if s != source {
                    assert(after.edges[s] == self.edges[s]);
                    assert(self.has_edge(s, t));
                } else if t != target {
                    assert(self.edges[source].contains_key(t));
                    assert(self.has_edge(s, t));
                }
            }
        }
    }

    proof fn lemma_remove_edge_keeps_wf(self, source: Seq<char>, target: Seq<char>)
        requires
            self.wf(),
        ensures
            self.remove_edge(source, target).0.wf(),
    {
        let after = self.remove_edge(source, target).0;
        assert forall|s: Seq<char>, t: Seq<char>| #[trigger]
            after.has_edge(s, t) implies after.vertices.contains_key(s)
            && after.vertices.contains_key(t) by {
            if self.remove_edge(source, target).1 is Ok {
                assert(self.ids.contains(source));
                assert(self.edges.contains_key(source));
                if s != source {
                    assert(after.edges[s] == self.edges[s]);
                }
            }
            assert(self.has_edge(s, t));
        }
    }

    proof fn lemma_remove_vertex_keeps_wf(self, id: Seq<char>)
        requires
            self.wf(),
        ensures
            self.remove_vertex(id).0.wf(),
    {
        let after = self.remove_vertex(id).0;
        if self.has_vertex(id) {
            let index = self.ids.index_of(id);
            assert(self.ids.contains(id));
            assert forall|i: int| 0 <= i < after.ids.len() implies #[trigger] after.ids[i]
                == self.ids[if i < index {
                i
            } else {
                i + 1
            }] by {}
            assert forall|k: Seq<char>| after.ids.contains(k) <==> (self.ids.contains(k) && k
                != id) by {
                if after.ids.contains(k) {
                    let i = after.ids.index_of(k);
                    let j = if i < index {
                        i
                    } else {
                        i + 1
                    };
                    assert(after.ids[i] == self.ids[j]);
                }
                if self.ids.contains(k) && k != id {
                    let j = self.ids.index_of(k);
                    if j < index {
                        assert(after.ids[j] == k);
                    } else {
                        assert(after.ids[j - 1] == k);
                    }
                }
            }
            assert(after.ids.no_duplicates());
            assert forall|s: Seq<char>, t: Seq<char>| #[trigger]
                after.has_edge(s, t) implies after.vertices.contains_key(s)
                && after.vertices.contains_key(t) by {
                assert(self.has_edge(s, t));
            }
        }
    }

    /// A search between endpoints of which one is absent fails with
    /// `VertexNotFound`; a search between two vertices that are present
    /// succeeds, with a route of least total weight if the target can be
    /// reached, and with the empty route if it cannot.
    pub proof fn lemma_shortest_path(self, source: Seq<char>, target: Seq<char>)
        requires
            self.wf(),
        ensures
            self.shortest_path(source, target) is Err <==> !self.has_vertex(source)
                || !self.has_vertex(target),
            match self.shortest_path(source, target) {
                Ok(route) => if self.reachable(source, target) {
                    self.is_shortest_route(route, source, target)
                } else {
                    route == Seq::<Seq<char>>::empty()
                },
                Err(msg) => msg == vertex_not_found(source) || msg == vertex_not_found(target),
            },
    {
        if self.has_vertex(source) && self.has_vertex(target) {
            self.lemma_shortest_route(source, target);
        }
    }

    /// A search from a vertex to itself returns that vertex alone.
    pub proof fn lemma_route_to_self(self, id: Seq<char>)
        requires
            self.wf(),
            self.has_vertex(id),
        ensures
            self.shortest_route(id, id) == seq![id],
            self.route_weight(seq![id]) == 0,
    {
        let g = self.index_graph();
        let s = self.ids.index_of(id);
        assert(self.ids.contains(id));
        let start = SearchState::initial(s);
        assert(start.is_next(s));
        assert(start.has_next());
        let u = start.next();
        assert(start.is_next(u));
        assert(u == s);
        let end = final_state(g, s, s);
        assert(end == start.settle(s));
        assert(end.settled.contains(s));
        assert(back_chain(end, s, g.n) =~= seq![s]);
        assert(seq![s].reverse() =~= seq![s]);
        assert(found_path(g, s, s) == seq![s]);
        assert(self.named(seq![s]) =~= seq![id]);
    }
}

impl<T: Identifiable> WeightedGraphView<T> {
    /// A route is a non-empty sequence of identifiers of vertices in which
    /// every vertex has an edge to the one that follows it.
    pub open spec fn is_route(self, p: Seq<Seq<char>>) -> bool {
        &&& p.len() >= 1
        &&& forall|i: int| 0 <= i < p.len() ==> self.has_vertex(#[trigger] p[i])
        &&& forall|i: int| 0 <= i < p.len() - 1 ==> self.has_edge(#[trigger] p[i], p[i + 1])
    }

    /// The total weight of the edges along the route `p`.
    pub open spec fn route_weight(self, p: Seq<Seq<char>>) -> nat
        decreases p.len(),
    {
        if p.len() <= 1 {
            0
        } else {
            self.route_weight(p.drop_last()) + self.weight(p[p.len() - 2], p[p.len() - 1])
        }
    }

    /// `p` is a route that starts at `source` and ends at `target`.
    pub open spec fn connects(self, p: Seq<Seq<char>>, source: Seq<char>, target: Seq<char>) -> bool {
        self.is_route(p) && p[0] == source && p[p.len() - 1] == target
    }

    /// Whether some route leads from `source` to `target`.
    pub open spec fn reachable(self, source: Seq<char>, target: Seq<char>) -> bool {
        exists|p: Seq<Seq<char>>| self.connects(p, source, target)
    }

    /// `p` leads from `source` to `target`, and no route between the two
    /// weighs less.
    pub open spec fn is_shortest_route(
        self,
        p: Seq<Seq<char>>,
        source: Seq<char>,
        target: Seq<char>,
    ) -> bool {
        &&& self.connects(p, source, target)
        &&& forall|q: Seq<Seq<char>>| #[trigger]
            self.connects(q, source, target) ==> self.route_weight(p) <= self.route_weight(q)
    }

    /// The same graph with each vertex replaced by its position in `ids`.
    pub open spec fn index_graph(self) -> IndexGraph {
        IndexGraph {
            n: self.ids.len(),
            weight: Map::new(
                |p: (int, int)|
                    0 <= p.0 < self.ids.len() && 0 <= p.1 < self.ids.len() && self.has_edge(
                        self.ids[p.0],
                        self.ids[p.1],
                    ),
                |p: (int, int)| self.weight(self.ids[p.0], self.ids[p.1]),
            ),
        }
    }

    /// The identifiers of the vertices at the given positions.
    pub open spec fn named(self, path: Seq<int>) -> Seq<Seq<char>> {
        path.map_values(|i: int| self.ids[i])
    }

    /// The positions of the vertices with the given identifiers.
    pub open spec fn numbered(self, route: Seq<Seq<char>>) -> Seq<int> {
        route.map_values(|id: Seq<char>| self.ids.index_of(id))
    }

    /// The route that a shortest-path search from `source` to `target`
    /// returns: the search settles vertices by distance from the source
    /// and, among equally distant ones, oldest vertex first; it stops as
    /// soon as the target is settled, and the route is read off the
    /// predecessors that it recorded. The route is empty if the search
    /// never reaches the target.
    pub open spec fn shortest_route(self, source: Seq<char>, target: Seq<char>) -> Seq<Seq<char>> {
        self.named(
            found_path(self.index_graph(), self.ids.index_of(source), self.ids.index_of(target)),
        )
    }

    /// What a traversal from `start` has to give: the vertices that can
    /// be reached from `start`, `start` first.
    pub open spec fn is_traversal(self, start: Seq<char>, order: Seq<Seq<char>>) -> bool {
        &&& order.len() > 0
        &&& order[0] == start
        &&& forall|id: Seq<char>| order.contains(id) <==> self.reachable(start, id)
    }

    /// A path of the numbered graph, with each position replaced by the
    /// identifier found there, is a route of the same weight.
    pub proof fn lemma_named_path(self, p: Seq<int>)
        requires
            self.wf(),
            self.index_graph().is_path(p),
        ensures
            self.is_route(self.named(p)),
            self.route_weight(self.named(p)) == self.index_graph().path_weight(p),
            self.named(p).len() == p.len(),
            self.named(p)[0] == self.ids[p[0]],
            self.named(p)[p.len() - 1] == self.ids[p[p.len() - 1]],
        decreases p.len(),
    {
        let g = self.index_graph();
        let r = self.named(p);
        assert forall|i: int| 0 <= i < r.len() implies self.has_vertex(#[trigger] r[i]) by {
            assert(0 <= p[i] < g.n);
            assert(self.ids.contains(self.ids[p[i]]));
        }
        assert forall|i: int| 0 <= i < r.len() - 1 implies self.has_edge(#[trigger] r[i], r[i + 1]) by {
            assert(g.has_edge(p[i], p[i + 1]));
        }
        if p.len() > 1 {
            let shorter = p.drop_last();
            assert(g.is_path(shorter)) by {
                assert forall|i: int| 0 <= i < shorter.len() implies 0 <= #[trigger] shorter[i]
                    < g.n by {
                    assert(shorter[i] == p[i]);
                }
                assert forall|i: int| 0 <= i < shorter.len() - 1 implies g.has_edge(
                    #[trigger] shorter[i],
                    shorter[i + 1],
                ) by {
                    assert(g.has_edge(p[i], p[i + 1]));
                }
            }
            self.lemma_named_path(shorter);
            assert(r.drop_last() =~= self.named(shorter));
            assert(g.has_edge(p[p.len() - 2], p[p.len() - 2 + 1]));
        }
    }

    /// A route, with each identifier replaced by its position, is a path
    /// of the numbered graph of the same weight.
    pub proof fn lemma_numbered_route(self, r: Seq<Seq<char>>)
        requires
            self.wf(),
            self.is_route(r),
        ensures
            self.index_graph().is_path(self.numbered(r)),
            self.index_graph().path_weight(self.numbered(r)) == self.route_weight(r),
            self.numbered(r).len() == r.len(),
            self.numbered(r)[0] == self.ids.index_of(r[0]),
            self.numbered(r)[r.len() - 1] == self.ids.index_of(r[r.len() - 1]),
        decreases r.len(),
    {
        let g = self.index_graph();
        let p = self.numbered(r);
        assert forall|i: int| 0 <= i < p.len() implies 0 <= #[trigger] p[i] < g.n
            && self.ids[p[i]] == r[i] by {
            assert(self.has_vertex(r[i]));
            assert(self.ids.contains(r[i]));
        }
        assert forall|i: int| 0 <= i < p.len() - 1 implies g.has_edge(#[trigger] p[i], p[i + 1]) by {
            assert(self.has_edge(r[i], r[i + 1]));
            assert(0 <= p[i] < g.n && self.ids[p[i]] == r[i]);
            assert(0 <= p[i + 1] < g.n && self.ids[p[i + 1]] == r[i + 1]);
        }
        if r.len() > 1 {
            let shorter = r.drop_last();
            assert(self.is_route(shorter)) by {
                assert forall|i: int| 0 <= i < shorter.len() implies self.has_vertex(
                    #[trigger] shorter[i],
                ) by {
                    assert(shorter[i] == r[i]);
                }
                assert forall|i: int| 0 <= i < shorter.len() - 1 implies self.has_edge(
                    #[trigger] shorter[i],
                    shorter[i + 1],
                ) by {
                    assert(self.has_edge(r[i], r[i + 1]));
                }
            }
            self.lemma_numbered_route(shorter);
            assert(p.drop_last() =~= self.numbered(shorter));
            let a = p[p.len() - 2];
            let b = p[p.len() - 1];
            assert(0 <= a < g.n && self.ids[a] == r[r.len() - 2]);
            assert(0 <= b < g.n && self.ids[b] == r[r.len() - 1]);
            assert(self.has_edge(r[r.len() - 2], r[r.len() - 2 + 1]));
        }
    }

    /// The route that the search returns is a route of least total weight
    /// from `source` to `target` whenever `target` can be reached from
    /// `source`, and it is empty otherwise.
    pub proof fn lemma_shortest_route(self, source: Seq<char>, target: Seq<char>)
        requires
            self.wf(),
            self.has_vertex(source),
            self.has_vertex(target),
        ensures
            self.reachable(source, target) ==> self.is_shortest_route(
                self.shortest_route(source, target),
                source,
                target,
            ),
            !self.reachable(source, target) ==> self.shortest_route(source, target)
                == Seq::<Seq<char>>::empty(),
    {
        let g = self.index_graph();
        let s = self.ids.index_of(source);
        let t = self.ids.index_of(target);
        assert(self.ids.contains(source) && self.ids.contains(target));
        lemma_found_path(g, s, t);
        let p = found_path(g, s, t);
        if self.reachable(source, target) {
            let r = choose|r: Seq<Seq<char>>| self.connects(r, source, target);
            self.lemma_numbered_route(r);
            assert(g.connects(self.numbered(r), s, t));
            assert(g.is_shortest(p, s, t));
            self.lemma_named_path(p);
            assert forall|q: Seq<Seq<char>>| #[trigger]
                self.connects(q, source, target) implies self.route_weight(self.named(p))
                <= self.route_weight(q) by {
                self.lemma_numbered_route(q);
                assert(g.connects(self.numbered(q), s, t));
            }
        } else {
            if g.reachable(s, t) {
                let q = choose|q: Seq<int>| g.connects(q, s, t);
                self.lemma_named_path(q);
                assert(self.connects(self.named(q), source, target));
            }
            assert(self.named(p) =~= Seq::<Seq<char>>::empty());
        }
    }

    /// A traversal of the numbered graph, with each position replaced by
    /// the identifier found there, is a traversal of the graph. Positions
    /// that differ give identifiers that differ.
    pub proof fn lemma_named_traversal(self, start: Seq<char>, order: Seq<int>)
        requires
            self.wf(),
            self.has_vertex(start),
            traversal_of(self.index_graph(), self.ids.index_of(start), order),
        ensures
            self.is_traversal(start, self.named(order)),
            order.no_duplicates() ==> self.named(order).no_duplicates(),
    {
        let g = self.index_graph();
        let s = self.ids.index_of(start);
        let listed = self.named(order);
        lemma_index_of_range(self.ids, start);
        assert forall|i: int| 0 <= i < order.len() implies 0 <= #[trigger] order[i] < g.n by {
            assert(order.contains(order[i]));
            let p = choose|p: Seq<int>| g.connects(p, s, order[i]);
            assert(0 <= p[p.len() - 1] < g.n);
        }
        assert forall|id: Seq<char>| listed.contains(id) <==> self.reachable(start, id) by {
            if listed.contains(id) {
                let i = listed.index_of(id);
                assert(order.contains(order[i]));
                let p = choose|p: Seq<int>| g.connects(p, s, order[i]);
                self.lemma_named_path(p);
                assert(self.connects(self.named(p), start, id));
            }
            if self.reachable(start, id) {
                let r = choose|r: Seq<Seq<char>>| self.connects(r, start, id);
                self.lemma_numbered_route(r);
                assert(self.has_vertex(r[r.len() - 1]));
                lemma_index_of_range(self.ids, id);
                let v = self.ids.index_of(id);
                assert(g.connects(self.numbered(r), s, v));
                assert(order.contains(v));
                let i = order.index_of(v);
                assert(listed[i] == id);
            }
        }
        if order.no_duplicates() {
            assert forall|i: int, j: int|
                0 <= i < listed.len() && 0 <= j < listed.len() && i != j implies listed[i]
                != listed[j] by {
                assert(order[i] != order[j]);
                assert(0 <= order[i] < g.n && 0 <= order[j] < g.n);
            }
        }
    }

    /// The search is a function of the graph and of the two endpoints: two
    /// searches between the same endpoints of the same graph return the
    /// same route.
    pub proof fn lemma_search_is_deterministic(
        self,
        other: Self,
        source: Seq<char>,
        target: Seq<char>,
    )
        requires
            self.ids == other.ids,
            self.edges == other.edges,
        ensures
            self.shortest_route(source, target) == other.shortest_route(source, target),
    {
        assert(self.index_graph().weight =~= other.index_graph().weight);
    }
}

} // verus!
