//! A directed graph without weights.

use vstd::prelude::*;
use super::identifiable::Identifiable;
use super::index_search::as_ints;
use super::messages::{duplicate_edge, duplicate_vertex, edge_not_found, vertex_not_found};
use super::messages::vertex_not_found_message;
use super::oriented_weighted_graph::OrientedWeightedGraph;
use super::traversal::{breadth_first, depth_first_iterative, depth_first_recursive};
use super::weighted_view::{names, outcome, WeightedGraphView};

verus! {

/// Mathematical model of a directed graph.
///
/// `vertices` maps each identifier to the payload stored under it, and
/// `edges` maps each identifier to the identifiers of the vertices that
/// an edge leads to. `ids` lists the identifiers oldest first.
pub struct OrientedGraphView<T> {
    pub ids: Seq<Seq<char>>,
    pub vertices: Map<Seq<char>, T>,
    pub edges: Map<Seq<char>, Set<Seq<char>>>,
}

impl<T: Identifiable> OrientedGraphView<T> {
    /// The invariants of the data model: identifiers are unique, vertices
    /// and edge sets are added and removed together, every vertex is keyed
    /// by its own identifier, and every edge leads to an existing vertex.
    pub open spec fn wf(self) -> bool {
        &&& self.ids.no_duplicates()
        &&& forall|k: Seq<char>| self.vertices.contains_key(k) <==> self.ids.contains(k)
        &&& forall|k: Seq<char>| self.edges.contains_key(k) <==> self.ids.contains(k)
        &&& forall|k: Seq<char>| #[trigger]
            self.vertices.contains_key(k) ==> self.vertices[k].id() == k
        &&& forall|s: Seq<char>, t: Seq<char>| #[trigger]
            self.has_edge(s, t) ==> self.vertices.contains_key(s) && self.vertices.contains_key(t)
    }

    /// Whether a vertex with identifier `id` is present.
    pub open spec fn has_vertex(self, id: Seq<char>) -> bool {
        self.vertices.contains_key(id)
    }

    /// Whether there is an edge from `source` to `target`.
    pub open spec fn has_edge(self, source: Seq<char>, target: Seq<char>) -> bool {
        self.edges.contains_key(source) && self.edges[source].contains(target)
    }

    /// `p` is a route: a non-empty sequence of vertices in which each is
    /// joined to the next by an edge.
    pub open spec fn is_route(self, p: Seq<Seq<char>>) -> bool {
        &&& p.len() >= 1
        &&& forall|i: int| 0 <= i < p.len() ==> self.has_vertex(#[trigger] p[i])
        &&& forall|i: int| 0 <= i < p.len() - 1 ==> self.has_edge(#[trigger] p[i], p[i + 1])
    }

    /// Whether some route leads from `source` to `target`.
    pub open spec fn reachable(self, source: Seq<char>, target: Seq<char>) -> bool {
        exists|p: Seq<Seq<char>>|
            self.is_route(p) && p[0] == source && #[trigger] p[p.len() - 1] == target
    }

    /// What a traversal from `start` has to give: the vertices that can
    /// be reached from `start`, `start` first.
    pub open spec fn is_traversal(self, start: Seq<char>, order: Seq<Seq<char>>) -> bool {
        &&& order.len() > 0
        &&& order[0] == start
        &&& forall|id: Seq<char>| order.contains(id) <==> self.reachable(start, id)
    }

    /// Adding `vertex`: the graph that results, and the outcome reported.
    /// A vertex whose identifier is taken is refused with
    /// `DuplicateVertex`.
    pub open spec fn add_vertex(self, vertex: T) -> (Self, Result<(), Seq<char>>) {
        let id = vertex.id();
        if self.has_vertex(id) {
            (self, Err(duplicate_vertex(id)))
        } else {
            (
                OrientedGraphView {
                    ids: self.ids.push(id),
                    vertices: self.vertices.insert(id, vertex),
                    edges: self.edges.insert(id, Set::empty()),
                },
                Ok(()),
            )
        }
    }

    /// Adding an edge from `source` to `target`: the graph that results,
    /// and the outcome reported. An absent endpoint is reported as
    /// `VertexNotFound`, the source first; an edge that is already there
    /// is refused with `DuplicateEdge`.
    pub open spec fn add_edge(self, source: Seq<char>, target: Seq<char>) -> (
        Self,
        Result<(), Seq<char>>,
    ) {
        if !self.has_vertex(source) {
            (self, Err(vertex_not_found(source)))
        } else if !self.has_vertex(target) {
            (self, Err(vertex_not_found(target)))
        } else if self.has_edge(source, target) {
            (self, Err(duplicate_edge(source, target)))
        } else {
            (
                OrientedGraphView {
                    ids: self.ids,
                    vertices: self.vertices,
                    edges: self.edges.insert(source, self.edges[source].insert(target)),
                },
                Ok(()),
            )
        }
    }

    /// Removing the edge from `source` to `target`: the graph that
    /// results, and the outcome reported. An absent endpoint is reported
    /// as `VertexNotFound`, the source first; a missing edge as
    /// `EdgeNotFound`.
    pub open spec fn remove_edge(self, source: Seq<char>, target: Seq<char>) -> (
        Self,
        Result<(), Seq<char>>,
    ) {
        if !self.has_vertex(source) {
            (self, Err(vertex_not_found(source)))
        } else if !self.has_vertex(target) {
            (self, Err(vertex_not_found(target)))
        } else if !self.has_edge(source, target) {
            (self, Err(edge_not_found(source, target)))
        } else {
            (
                OrientedGraphView {
                    ids: self.ids,
                    vertices: self.vertices,
                    edges: self.edges.insert(source, self.edges[source].remove(target)),
                },
                Ok(()),
            )
        }
    }

    /// Removing the vertex `id`: the graph that results, and the outcome
    /// reported. The vertex goes together with the edges that leave it and
    /// the edges that lead to it; an absent vertex is reported as
    /// `VertexNotFound`.
    pub open spec fn remove_vertex(self, id: Seq<char>) -> (Self, Result<(), Seq<char>>) {
        if !self.has_vertex(id) {
            (self, Err(vertex_not_found(id)))
        } else {
            (
                OrientedGraphView {
                    ids: self.ids.remove(self.ids.index_of(id)),
                    vertices: self.vertices.remove(id),
                    edges: Map::new(
                        |source: Seq<char>| self.edges.contains_key(source) && source != id,
                        |source: Seq<char>| self.edges[source].remove(id),
                    ),
                },
                Ok(()),
            )
        }
    }
}

/// The directed graph that remains of a weighted graph when the weights
/// are forgotten.
pub open spec fn unweighted<T>(graph: WeightedGraphView<T>) -> OrientedGraphView<T> {
    OrientedGraphView {
        ids: graph.ids,
        vertices: graph.vertices,
        edges: Map::new(
            |source: Seq<char>| graph.edges.contains_key(source),
            |source: Seq<char>| graph.edges[source].dom(),
        ),
    }
}

/// Forgetting the weights of a well-formed graph gives a well-formed
/// graph.
proof fn lemma_unweighted_wf<T: Identifiable>(graph: WeightedGraphView<T>)
    requires
        graph.wf(),
    ensures
        unweighted(graph).wf(),
{
    let plain = unweighted(graph);
    assert forall|s: Seq<char>, t: Seq<char>| #[trigger] plain.has_edge(s, t) implies plain.vertices.contains_key(
        s,
    ) && plain.vertices.contains_key(t) by {
        assert(graph.has_edge(s, t));
    }
}

/// Forgetting the weights changes nothing about what can be reached, so a
/// traversal of the weighted graph is one of the graph without weights.
proof fn lemma_unweighted_traversal<T: Identifiable>(
    graph: WeightedGraphView<T>,
    start: Seq<char>,
    order: Seq<Seq<char>>,
)
    requires
        graph.is_traversal(start, order),
    ensures
        unweighted(graph).is_traversal(start, order),
{
    let plain = unweighted(graph);
    assert forall|p: Seq<Seq<char>>| plain.is_route(p) == graph.is_route(p) by {
        if plain.is_route(p) {
            assert forall|i: int| 0 <= i < p.len() - 1 implies graph.has_edge(
                #[trigger] p[i],
                p[i + 1],
            ) by {
                assert(plain.has_edge(p[i], p[i + 1]));
            }
        }
        if graph.is_route(p) {
            assert forall|i: int| 0 <= i < p.len() - 1 implies plain.has_edge(
                #[trigger] p[i],
                p[i + 1],
            ) by {
                assert(graph.has_edge(p[i], p[i + 1]));
            }
        }
    }
    assert forall|id: Seq<char>| plain.reachable(start, id) == graph.reachable(start, id) by {
        if plain.reachable(start, id) {
            let p = choose|p: Seq<Seq<char>>|
                plain.is_route(p) && p[0] == start && #[trigger] p[p.len() - 1] == id;
            assert(graph.is_route(p));
            assert(graph.connects(p, start, id));
        }
        if graph.reachable(start, id) {
            let p = choose|p: Seq<Seq<char>>| graph.connects(p, start, id);
            assert(plain.is_route(p));
            assert(p[p.len() - 1] == id);
        }
    }
}

/// Forgetting the weights commutes with adding a vertex.
proof fn lemma_unweighted_add_vertex<T: Identifiable>(graph: WeightedGraphView<T>, vertex: T)
    requires
        graph.wf(),
    ensures
        unweighted(graph.add_vertex(vertex).0) == unweighted(graph).add_vertex(vertex).0,
        graph.add_vertex(vertex).1 == unweighted(graph).add_vertex(vertex).1,
{
    let plain = unweighted(graph);
    assert(unweighted(graph.add_vertex(vertex).0).edges =~= plain.add_vertex(vertex).0.edges) by {
        assert(Map::<Seq<char>, u32>::empty().dom() =~= Set::<Seq<char>>::empty());
    }
}

/// Forgetting the weights commutes with adding an edge, with removing an
/// edge and with removing a vertex.
proof fn lemma_unweighted_operations<T: Identifiable>(
    graph: WeightedGraphView<T>,
    source: Seq<char>,
    target: Seq<char>,
)
    requires
        graph.wf(),
    ensures
        unweighted(graph.add_edge(source, target, 0).0) == unweighted(graph).add_edge(
            source,
            target,
        ).0,
        graph.add_edge(source, target, 0).1 == unweighted(graph).add_edge(source, target).1,
        unweighted(graph.remove_edge(source, target).0) == unweighted(graph).remove_edge(
            source,
            target,
        ).0,
        graph.remove_edge(source, target).1 == unweighted(graph).remove_edge(source, target).1,
        unweighted(graph.remove_vertex(source).0) == unweighted(graph).remove_vertex(source).0,
        graph.remove_vertex(source).1 == unweighted(graph).remove_vertex(source).1,
{
    let plain = unweighted(graph);
    assert(graph.has_edge(source, target) <==> plain.has_edge(source, target));
    assert(graph.has_vertex(source) ==> graph.edges.contains_key(source)) by {
        if graph.has_vertex(source) {
            assert(graph.ids.contains(source));
        }
    }
    assert(unweighted(graph.add_edge(source, target, 0).0).edges =~= plain.add_edge(
        source,
        target,
    ).0.edges) by {
        if graph.add_edge(source, target, 0).1 is Ok {
            assert(graph.edges[source].insert(target, 0).dom() =~= graph.edges[source].dom().insert(
                target,
            ));
        }
    }
    assert(unweighted(graph.remove_edge(source, target).0).edges =~= plain.remove_edge(
        source,
        target,
    ).0.edges) by {
        if graph.remove_edge(source, target).1 is Ok {
            assert(graph.edges[source].remove(target).dom() =~= graph.edges[source].dom().remove(
                target,
            ));
        }
    }
    assert(unweighted(graph.remove_vertex(source).0).edges =~= plain.remove_vertex(
        source,
    ).0.edges) by {
        assert forall|k: Seq<char>| graph.edges.contains_key(k) implies #[trigger] graph.edges[k].remove(
            source,
        ).dom() == graph.edges[k].dom().remove(source) by {
            assert(graph.edges[k].remove(source).dom() =~= graph.edges[k].dom().remove(source));
        }
    }
}

/// A directed graph that owns its vertices.
///
/// Vertices are referred to by their identifier only: an edge from A to B
/// is an entry for B in the outgoing edges of A, and says nothing of an
/// edge from B to A.
pub struct OrientedGraph<T: Identifiable> {
    inner: OrientedWeightedGraph<T>,
}

impl<T: Identifiable> View for OrientedGraph<T> {
    type V = OrientedGraphView<T>;

    closed spec fn view(&self) -> OrientedGraphView<T> {
        unweighted(self.inner@)
    }
}

impl<T: Identifiable> OrientedGraph<T> {
    #[verifier::type_invariant]
    spec fn inv(&self) -> bool {
        self.inner@.wf()
    }

    /// Creates a graph with no vertex and no edge.
    pub fn new() -> (graph: Self)
        ensures
            graph@.ids == Seq::<Seq<char>>::empty(),
            graph@.vertices == Map::<Seq<char>, T>::empty(),
            graph@.edges == Map::<Seq<char>, Set<Seq<char>>>::empty(),
            graph@.wf(),
    {
        let graph = Self { inner: OrientedWeightedGraph::new() };
        proof {
            assert(graph@.edges =~= Map::<Seq<char>, Set<Seq<char>>>::empty());
            lemma_unweighted_wf(graph.inner@);
        }
        graph
    }

    /// Adds `vertex` under its own identifier.
    ///
    /// Fails with `DuplicateVertex`, and changes nothing, if a vertex with
    /// the same identifier is already present.
    pub fn add_vertex(&mut self, vertex: T) -> (result: Result<(), String>)
        ensures
            (final(self)@, outcome(result)) == old(self)@.add_vertex(vertex),
            result is Err ==> *final(self) == *old(self),
            final(self)@.wf(),
    {
        proof {
            use_type_invariant(&*self);
            lemma_unweighted_add_vertex(self.inner@, vertex);
        }
        let mut inner = OrientedWeightedGraph::new();
        core::mem::swap(&mut self.inner, &mut inner);
        let result = inner.add_vertex(vertex);
        proof {
            lemma_unweighted_wf(inner@);
        }
        core::mem::swap(&mut self.inner, &mut inner);
        result
    }

    /// Adds an edge from `vertex1_id` to `vertex2_id`.
    ///
    /// Fails with `VertexNotFound` if either endpoint is absent (the source
    /// is looked up first), and with `DuplicateEdge` if there already is an
    /// edge from the source to the target. Nothing changes on failure.
    pub fn add_edge(&mut self, vertex1_id: String, vertex2_id: String) -> (result: Result<
        (),
        String,
    >)
        ensures
            (final(self)@, outcome(result)) == old(self)@.add_edge(vertex1_id@, vertex2_id@),
            result is Err ==> *final(self) == *old(self),
            final(self)@.wf(),
    {
        proof {
            use_type_invariant(&*self);
        }
        let mut inner = OrientedWeightedGraph::new();
        core::mem::swap(&mut self.inner, &mut inner);
        proof {
            lemma_unweighted_operations(inner@, vertex1_id@, vertex2_id@);
        }
        let result = inner.add_edge(vertex1_id, vertex2_id, 0);
        proof {
            lemma_unweighted_wf(inner@);
        }
        core::mem::swap(&mut self.inner, &mut inner);
        result
    }

    /// Removes the edge from `vertex1_id` to `vertex2_id`.
    ///
    /// Fails with `VertexNotFound` if either endpoint is absent (the source
    /// is looked up first), and with `EdgeNotFound` if there is no edge
    /// from the source to the target. Nothing changes on failure.
    pub fn remove_edge(&mut self, vertex1_id: String, vertex2_id: String) -> (result: Result<
        (),
        String,
    >)
        ensures
            (final(self)@, outcome(result)) == old(self)@.remove_edge(vertex1_id@, vertex2_id@),
            result is Err ==> *final(self) == *old(self),
            final(self)@.wf(),
    {
        proof {
            use_type_invariant(&*self);
        }
        let mut inner = OrientedWeightedGraph::new();
        core::mem::swap(&mut self.inner, &mut inner);
        proof {
            lemma_unweighted_operations(inner@, vertex1_id@, vertex2_id@);
        }
        let result = inner.remove_edge(vertex1_id, vertex2_id);
        proof {
            lemma_unweighted_wf(inner@);
        }
        core::mem::swap(&mut self.inner, &mut inner);
        result
    }

    /// Removes the vertex with identifier `vertex_id`, its outgoing edges,
    /// and every edge that leads to it from another vertex.
    ///
    /// Fails with `VertexNotFound`, and changes nothing, if the vertex is
    /// absent.
    pub fn remove_vertex(&mut self, vertex_id: String) -> (result: Result<(), String>)
        ensures
            (final(self)@, outcome(result)) == old(self)@.remove_vertex(vertex_id@),
            result is Err ==> *final(self) == *old(self),
            final(self)@.wf(),
    {
        proof {
            use_type_invariant(&*self);
        }
        let mut inner = OrientedWeightedGraph::new();
        core::mem::swap(&mut self.inner, &mut inner);
        proof {
            lemma_unweighted_operations(inner@, vertex_id@, Seq::empty());
        }
        let result = inner.remove_vertex(vertex_id);
        proof {
            lemma_unweighted_wf(inner@);
        }
        core::mem::swap(&mut self.inner, &mut inner);
        result
    }

    /// Tells whether a vertex with identifier `id` is present.
    pub fn vertex_exists(&self, id: &String) -> (exists: bool)
        ensures
            exists == self@.has_vertex(id@),
    {
        self.inner.vertex_exists(id)
    }

    /// Succeeds if a vertex with identifier `id` is present, and fails with
    /// `VertexNotFound` otherwise.
    pub fn vertex_exists_or_err(&self, id: &String) -> (result: Result<(), String>)
        ensures
            match result {
                Ok(_) => self@.has_vertex(id@),
                Err(msg) => !self@.has_vertex(id@) && msg@ == vertex_not_found(id@),
            },
    {
        if self.vertex_exists(id) {
            Ok(())
        } else {
            Err(vertex_not_found_message(id))
        }
    }

    /// Looks up the vertex with identifier `id`.
    pub fn get_vertex_ref(&self, id: &str) -> (found: Option<&T>)
        ensures
            match found {
                Some(vertex) => self@.has_vertex(id@) && *vertex == self@.vertices[id@],
                None => !self@.has_vertex(id@),
            },
    {
        self.inner.get_vertex_ref(id)
    }

    /// Returns the identifiers of the vertices, oldest first.
    pub fn vertex_ids(&self) -> (ids: Vec<String>)
        ensures
            names(ids@) == self@.ids,
    {
        self.inner.vertex_ids()
    }

    /// Returns the identifiers of the vertices that an edge leads to from
    /// the vertex `id`, oldest edge first and each once; or `None` if
    /// there is no such vertex.
    pub fn neighbors(&self, id: &String) -> (found: Option<Vec<String>>)
        ensures
            match found {
                Some(list) => {
                    &&& self@.has_vertex(id@)
                    &&& names(list@).no_duplicates()
                    &&& forall|t: Seq<char>| names(list@).contains(t) <==> self@.has_edge(id@, t)
                },
                None => !self@.has_vertex(id@),
            },
    {
        proof {
            use_type_invariant(self);
        }
        match self.inner.neighbors(id) {
            None => None,
            Some(pairs) => {
                let mut list: Vec<String> = Vec::new();
                let mut k: usize = 0;
                while k < pairs.len()
                    invariant
                        k <= pairs@.len(),
                        list@.len() == k,
                        forall|j: int| 0 <= j < k ==> (#[trigger] list@[j])@ == pairs@[j].0@,
                    decreases pairs@.len() - k,
                {
                    list.push(pairs[k].0.clone());
                    k += 1;
                }
                proof {
                    let found = names(list@);
                    assert(self.inner@.ids.contains(id@));
                    assert forall|a: int, b: int|
                        0 <= a < found.len() && 0 <= b < found.len() && a != b implies found[a]
                        != found[b] by {
                        assert(pairs@[a].0@ != pairs@[b].0@);
                    }
                    assert forall|t: Seq<char>| found.contains(t) <==> self@.has_edge(id@, t) by {
                        if found.contains(t) {
                            let j = found.index_of(t);
                            assert(pairs@[j].0@ == t);
                        }
                        if self@.has_edge(id@, t) {
                            assert(self.inner@.edges[id@].contains_key(t));
                            let j = choose|j: int|
                                0 <= j < pairs@.len() && (#[trigger] pairs@[j]).0@ == t;
                            assert(found[j] == t);
                        }
                    }
                }
                Some(list)
            },
        }
    }

    /// Tells whether there is an edge from `source_id` to `target_id`.
    pub fn edge_exists(&self, source_id: &String, target_id: &String) -> (exists: bool)
        ensures
            exists == self@.has_edge(source_id@, target_id@),
    {
        self.inner.edge_weight(source_id, target_id).is_some()
    }

    /// Lists the vertices that can be reached from the start vertex, depth
    /// first, following the edges of each vertex through the call stack.
    ///
    /// Fails with `VertexNotFound` if the start vertex is absent. Otherwise
    /// the list begins with the start vertex and holds each vertex that
    /// can be reached from it once.
    pub fn traverse_depth_first_recursive(&self, start_vertex_id: String) -> (result: Result<
        Vec<String>,
        String,
    >)
        ensures
            match result {
                Ok(order) => self@.has_vertex(start_vertex_id@) && self@.is_traversal(
                    start_vertex_id@,
                    names(order@),
                ) && names(order@).no_duplicates(),
                Err(msg) => !self@.has_vertex(start_vertex_id@) && msg@ == vertex_not_found(
                    start_vertex_id@,
                ),
            },
    {
        let start = match self.inner.position(&start_vertex_id) {
            Some(i) => i,
            None => {
                return Err(vertex_not_found_message(&start_vertex_id));
            },
        };
        let rows = self.inner.adjacency();
        let indices = depth_first_recursive(&rows, start);
        let order = self.inner.named(&indices);
        proof {
            self.inner@.lemma_named_traversal(start_vertex_id@, as_ints(indices@));
            lemma_unweighted_traversal(self.inner@, start_vertex_id@, names(order@));
        }
        Ok(order)
    }

    /// Lists the vertices that can be reached from the start vertex, depth
    /// first, with a stack of the vertices still to be handled.
    ///
    /// Fails with `VertexNotFound` if the start vertex is absent. Otherwise
    /// the list begins with the start vertex and holds each vertex that
    /// can be reached from it, and no other. A vertex found along several
    /// edges before it is handled is listed more than once.
    pub fn traverse_depth_first_iterative(&self, start_vertex_id: String) -> (result: Result<
        Vec<String>,
        String,
    >)
        ensures
            match result {
                Ok(order) => self@.has_vertex(start_vertex_id@) && self@.is_traversal(
                    start_vertex_id@,
                    names(order@),
                ),
                Err(msg) => !self@.has_vertex(start_vertex_id@) && msg@ == vertex_not_found(
                    start_vertex_id@,
                ),
            },
    {
        let start = match self.inner.position(&start_vertex_id) {
            Some(i) => i,
            None => {
                return Err(vertex_not_found_message(&start_vertex_id));
            },
        };
        let rows = self.inner.adjacency();
        let indices = depth_first_iterative(&rows, start);
        let order = self.inner.named(&indices);
        proof {
            self.inner@.lemma_named_traversal(start_vertex_id@, as_ints(indices@));
            lemma_unweighted_traversal(self.inner@, start_vertex_id@, names(order@));
        }
        Ok(order)
    }

    /// Lists the vertices that can be reached from the start vertex,
    /// breadth first, with a queue of the vertices still to be handled.
    ///
    /// Fails with `VertexNotFound` if the start vertex is absent. Otherwise
    /// the list begins with the start vertex and holds each vertex that
    /// can be reached from it, and no other. A vertex found along several
    /// edges before it is handled is listed more than once.
    pub fn traverse_breadth_first(&self, start_vertex_id: String) -> (result: Result<
        Vec<String>,
        String,
    >)
        ensures
            match result {
                Ok(order) => self@.has_vertex(start_vertex_id@) && self@.is_traversal(
                    start_vertex_id@,
                    names(order@),
                ),
                Err(msg) => !self@.has_vertex(start_vertex_id@) && msg@ == vertex_not_found(
                    start_vertex_id@,
                ),
            },
    {
        let start = match self.inner.position(&start_vertex_id) {
            Some(i) => i,
            None => {
                return Err(vertex_not_found_message(&start_vertex_id));
            },
        };
        let rows = self.inner.adjacency();
        let indices = breadth_first(&rows, start);
        let order = self.inner.named(&indices);
        proof {
            self.inner@.lemma_named_traversal(start_vertex_id@, as_ints(indices@));
            lemma_unweighted_traversal(self.inner@, start_vertex_id@, names(order@));
        }
        Ok(order)
    }
}

} // verus!
