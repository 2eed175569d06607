use vstd::prelude::*;
use super::identifiable::Identifiable;
use super::weighted_view::{
    lists, names, outcome, route_outcome, without_vertex, WeightedGraphView,
};
use super::index_search::{adjacency_ok, as_ints, graph_of, row_ok, shortest_index_path};
use super::messages::vertex_not_found;
use super::messages::{duplicate_vertex_message, vertex_not_found_message};
use super::messages::{duplicate_edge_message, edge_not_found_message};

verus! {

/// One vertex of the arena: its identifier, its payload and its outgoing
/// edges, each given by the identifier of the neighbour and a weight.
struct WeightedEntry<T> {
    id: String,
    payload: T,
    edges: Vec<(String, u32)>,
}

/// A directed, weighted graph that owns its vertices.
///
/// Vertices are kept in an arena and are referred to by their identifier
/// only: an edge from A to B is an entry `(B, weight)` in the outgoing edges
/// of A, and says nothing of an edge from B to A.
pub struct OrientedWeightedGraph<T: Identifiable> {
    entries: Vec<WeightedEntry<T>>,
}

spec fn ids_of<T>(entries: Seq<WeightedEntry<T>>) -> Seq<Seq<char>> {
    Seq::new(entries.len(), |i: int| entries[i].id@)
}

spec fn targets_of(edges: Seq<(String, u32)>) -> Seq<Seq<char>> {
    Seq::new(edges.len(), |k: int| edges[k].0@)
}

spec fn edge_map(edges: Seq<(String, u32)>) -> Map<Seq<char>, u32> {
    Map::new(
        |t: Seq<char>| targets_of(edges).contains(t),
        |t: Seq<char>| edges[targets_of(edges).index_of(t)].1,
    )
}

spec fn entry_ok<T: Identifiable>(entry: WeightedEntry<T>, ids: Seq<Seq<char>>) -> bool {
    &&& entry.payload.id() == entry.id@
    &&& targets_of(entry.edges@).no_duplicates()
    &&& forall|k: int|
        0 <= k < entry.edges@.len() ==> ids.contains(#[trigger] targets_of(entry.edges@)[k])
}

spec fn entries_ok<T: Identifiable>(entries: Seq<WeightedEntry<T>>) -> bool {
    &&& ids_of(entries).no_duplicates()
    &&& forall|i: int| 0 <= i < entries.len() ==> entry_ok(#[trigger] entries[i], ids_of(entries))
}

spec fn model_of<T: Identifiable>(entries: Seq<WeightedEntry<T>>) -> WeightedGraphView<T> {
    let ids = ids_of(entries);
    WeightedGraphView {
        ids,
        vertices: Map::new(
            |k: Seq<char>| ids.contains(k),
            |k: Seq<char>| entries[ids.index_of(k)].payload,
        ),
        edges: Map::new(
            |k: Seq<char>| ids.contains(k),
            |k: Seq<char>| edge_map(entries[ids.index_of(k)].edges@),
        ),
    }
}

/// In a sequence without duplicates, every element is found at its own
/// position.
pub(crate) proof fn lemma_index_of_unique<A>(s: Seq<A>, i: int)
    requires
        s.no_duplicates(),
        0 <= i < s.len(),
    ensures
        s.contains(s[i]),
        s.index_of(s[i]) == i,
{
    let j = s.index_of(s[i]);
    assert(s.contains(s[i]));
    assert(0 <= j < s.len() && s[j] == s[i]);
}

pub(crate) proof fn lemma_index_of_range<A>(s: Seq<A>, a: A)
    requires
        s.contains(a),
    ensures
        0 <= s.index_of(a) < s.len(),
        s[s.index_of(a)] == a,
{
}

/// What the model says of the vertex stored at position `i`.
proof fn lemma_model_at<T: Identifiable>(entries: Seq<WeightedEntry<T>>, i: int)
    requires
        entries_ok(entries),
        0 <= i < entries.len(),
    ensures
        model_of(entries).vertices.contains_key(entries[i].id@),
        model_of(entries).vertices[entries[i].id@] == entries[i].payload,
        model_of(entries).edges.contains_key(entries[i].id@),
        model_of(entries).edges[entries[i].id@] == edge_map(entries[i].edges@),
{
    let ids = ids_of(entries);
    assert(ids[i] == entries[i].id@);
    lemma_index_of_unique(ids, i);
}

/// What an edge map says of the edge stored at position `k`.
proof fn lemma_edge_map_at(edges: Seq<(String, u32)>, k: int)
    requires
        targets_of(edges).no_duplicates(),
        0 <= k < edges.len(),
    ensures
        edge_map(edges).contains_key(edges[k].0@),
        edge_map(edges)[edges[k].0@] == edges[k].1,
{
    let targets = targets_of(edges);
    assert(targets[k] == edges[k].0@);
    lemma_index_of_unique(targets, k);
}

/// The model of a well-formed arena satisfies the invariants of the data
/// model.
proof fn lemma_model_wf<T: Identifiable>(entries: Seq<WeightedEntry<T>>)
    requires
        entries_ok(entries),
    ensures
        model_of(entries).wf(),
{
    let ids = ids_of(entries);
    let m = model_of(entries);
    assert forall|k: Seq<char>| #[trigger] m.vertices.contains_key(k) implies m.vertices[k].id()
        == k by {
        let i = ids.index_of(k);
        lemma_index_of_range(ids, k);
        assert(entry_ok(entries[i], ids));
    }
    assert forall|s: Seq<char>, t: Seq<char>| #[trigger] m.has_edge(s, t) implies m.vertices.contains_key(s)
        && m.vertices.contains_key(t) by {
        let i = ids.index_of(s);
        lemma_index_of_range(ids, s);
        assert(entry_ok(entries[i], ids));
        let targets = targets_of(entries[i].edges@);
        let k = targets.index_of(t);
        lemma_index_of_range(targets, t);
        assert(ids.contains(targets[k]));
    }
}

impl<T: Identifiable> View for OrientedWeightedGraph<T> {
    type V = WeightedGraphView<T>;

    closed spec fn view(&self) -> WeightedGraphView<T> {
        model_of(self.entries@)
    }
}

impl<T: Identifiable> OrientedWeightedGraph<T> {
    #[verifier::type_invariant]
    spec fn inv(&self) -> bool {
        entries_ok(self.entries@)
    }

    /// Creates a graph with no vertex and no edge.
    pub fn new() -> (graph: Self)
        ensures
            graph@.ids == Seq::<Seq<char>>::empty(),
            graph@.vertices == Map::<Seq<char>, T>::empty(),
            graph@.edges == Map::<Seq<char>, Map<Seq<char>, u32>>::empty(),
            graph@.wf(),
    {
        let graph = Self { entries: Vec::new() };
        proof {
            assert(ids_of(graph.entries@) =~= Seq::<Seq<char>>::empty());
            assert(graph@.vertices =~= Map::<Seq<char>, T>::empty());
            assert(graph@.edges =~= Map::<Seq<char>, Map<Seq<char>, u32>>::empty());
        }
        graph
    }

    /// Position in the arena of the vertex with identifier `id`, if any.
    fn find_index(&self, id: &String) -> (found: Option<usize>)
        ensures
            match found {
                Some(i) => i < self.entries@.len() && self.entries@[i as int].id@ == id@
                    && ids_of(self.entries@).contains(id@) && ids_of(self.entries@).index_of(id@)
                    == i,
                None => !ids_of(self.entries@).contains(id@),
            },
    {
        proof {
            use_type_invariant(self);
        }
        let mut i: usize = 0;
        while i < self.entries.len()
            invariant
                i <= self.entries@.len(),
                ids_of(self.entries@).no_duplicates(),
                forall|j: int| 0 <= j < i ==> self.entries@[j].id@ != id@,
            decreases self.entries@.len() - i,
        {
            if self.entries[i].id == *id {
                proof {
                    assert(ids_of(self.entries@)[i as int] == id@);
                    lemma_index_of_unique(ids_of(self.entries@), i as int);
                }
                return Some(i);
            }
            i += 1;
        }
        proof {
            let ids = ids_of(self.entries@);
            assert forall|j: int| 0 <= j < ids.len() implies ids[j] != id@ by {
                assert(ids[j] == self.entries@[j].id@);
            }
        }
        None
    }

    /// Tells whether a vertex with identifier `id` is present.
    pub fn vertex_exists(&self, id: &String) -> (exists: bool)
        ensures
            exists == self@.has_vertex(id@),
    {
        self.find_index(id).is_some()
    }

    /// Succeeds if a vertex with identifier `id` is present, and fails with
    /// `VertexNotFound` otherwise.
    pub fn vertex_exists_or_err(&self, id: &String) -> (result: Result<(), String>)
        ensures
            match result {
                Ok(_) => self@.has_vertex(id@),
                Err(msg) => !self@.has_vertex(id@) && msg@ == vertex_not_found(id@),
            },
    {
        if self.vertex_exists(id) {
            Ok(())
        } else {
            Err(vertex_not_found_message(id))
        }
    }

    /// Adds `vertex` under its own identifier.
    ///
    /// Fails with `DuplicateVertex`, and changes nothing, if a vertex with
    /// the same identifier is already present.
    pub fn add_vertex(&mut self, vertex: T) -> (result: Result<(), String>)
        ensures
            (final(self)@, outcome(result)) == old(self)@.add_vertex(vertex),
            result is Err ==> *final(self) == *old(self),
            final(self)@.wf(),
    {
        proof {
            use_type_invariant(&*self);
            lemma_model_wf(self.entries@);
        }
        let vertex_id = vertex.get_id();
        if self.vertex_exists(&vertex_id) {
            Err(duplicate_vertex_message(&vertex_id))
        } else {
            let entry = WeightedEntry { id: vertex_id, payload: vertex, edges: Vec::new() };
            let mut entries: Vec<WeightedEntry<T>> = Vec::new();
            core::mem::swap(&mut self.entries, &mut entries);
            proof {
                lemma_push_entry(entries@, entry);
            }
            entries.push(entry);
            core::mem::swap(&mut self.entries, &mut entries);
            Ok(())
        }
    }

    /// Position of the edge leading to `target` in a list of outgoing edges,
    /// if there is one.
    fn find_edge(edges: &Vec<(String, u32)>, target: &String) -> (found: Option<usize>)
        requires
            targets_of(edges@).no_duplicates(),
        ensures
            match found {
                Some(k) => k < edges@.len() && edges@[k as int].0@ == target@ && targets_of(
                    edges@,
                ).contains(target@) && targets_of(edges@).index_of(target@) == k,
                None => !targets_of(edges@).contains(target@),
            },
    {
        let mut k: usize = 0;
        while k < edges.len()
            invariant
                k <= edges@.len(),
                targets_of(edges@).no_duplicates(),
                forall|j: int| 0 <= j < k ==> edges@[j].0@ != target@,
            decreases edges@.len() - k,
        {
            if edges[k].0 == *target {
                proof {
                    assert(targets_of(edges@)[k as int] == target@);
                    lemma_index_of_unique(targets_of(edges@), k as int);
                }
                return Some(k);
            }
            k += 1;
        }
        proof {
            let targets = targets_of(edges@);
            assert forall|j: int| 0 <= j < targets.len() implies targets[j] != target@ by {
                assert(targets[j] == edges@[j].0@);
            }
        }
        None
    }

    /// Adds an edge from `vertex1_id` to `vertex2_id` with the given weight.
    ///
    /// Fails with `VertexNotFound` if either endpoint is absent (the source
    /// is looked up first), and with `DuplicateEdge` if there already is an
    /// edge from the source to the target. Nothing changes on failure.
    pub fn add_edge(&mut self, vertex1_id: String, vertex2_id: String, weight: u32) -> (result:
        Result<(), String>)
        ensures
            (final(self)@, outcome(result)) == old(self)@.add_edge(
                vertex1_id@,
                vertex2_id@,
                weight,
            ),
            result is Err ==> *final(self) == *old(self),
            final(self)@.wf(),
    {
        proof {
            use_type_invariant(&*self);
            lemma_model_wf(self.entries@);
        }
        let source = match self.find_index(&vertex1_id) {
            Some(i) => i,
            None => {
                return Err(vertex_not_found_message(&vertex1_id));
            },
        };
        if !self.vertex_exists(&vertex2_id) {
            return Err(vertex_not_found_message(&vertex2_id));
        }
        proof {
            lemma_model_at(self.entries@, source as int);
            assert(entry_ok(self.entries@[source as int], ids_of(self.entries@)));
        }
        match Self::find_edge(&self.entries[source].edges, &vertex2_id) {
            Some(_) => Err(duplicate_edge_message(&vertex1_id, &vertex2_id)),
            None => {
                let mut entries: Vec<WeightedEntry<T>> = Vec::new();
                core::mem::swap(&mut self.entries, &mut entries);
                let ghost before = entries@;
                entries[source].edges.push((vertex2_id, weight));
                proof {
                    lemma_edge_pushed(before, entries@, source as int, vertex2_id, weight);
                }
                core::mem::swap(&mut self.entries, &mut entries);
                Ok(())
            },
        }
    }

    /// Removes the edge from `vertex1_id` to `vertex2_id`.
    ///
    /// Fails with `VertexNotFound` if either endpoint is absent (the source
    /// is looked up first), and with `EdgeNotFound` if there is no edge
    /// from the source to the target. Nothing changes on failure.
    pub fn remove_edge(&mut self, vertex1_id: String, vertex2_id: String) -> (result: Result<
        (),
        String,
    >)
        ensures
            (final(self)@, outcome(result)) == old(self)@.remove_edge(vertex1_id@, vertex2_id@),
            result is Err ==> *final(self) == *old(self),
            final(self)@.wf(),
    {
        proof {
            use_type_invariant(&*self);
            lemma_model_wf(self.entries@);
        }
        let source = match self.find_index(&vertex1_id) {
            Some(i) => i,
            None => {
                return Err(vertex_not_found_message(&vertex1_id));
            },
        };
        if !self.vertex_exists(&vertex2_id) {
            return Err(vertex_not_found_message(&vertex2_id));
        }
        proof {
            lemma_model_at(self.entries@, source as int);
            assert(entry_ok(self.entries@[source as int], ids_of(self.entries@)));
        }
        match Self::find_edge(&self.entries[source].edges, &vertex2_id) {
            None => Err(edge_not_found_message(&vertex1_id, &vertex2_id)),
            Some(k) => {
                let mut entries: Vec<WeightedEntry<T>> = Vec::new();
                core::mem::swap(&mut self.entries, &mut entries);
                let ghost before = entries@;
                entries[source].edges.remove(k);
                proof {
                    lemma_edge_removed(before, entries@, source as int, k as int);
                }
                core::mem::swap(&mut self.entries, &mut entries);
                Ok(())
            },
        }
    }

    /// Removes the vertex with identifier `vertex_id`, its outgoing edges,
    /// and every edge that leads to it from another vertex.
    ///
    /// Fails with `VertexNotFound`, and changes nothing, if the vertex is
    /// absent.
    pub fn remove_vertex(&mut self, vertex_id: String) -> (result: Result<(), String>)
        ensures
            (final(self)@, outcome(result)) == old(self)@.remove_vertex(vertex_id@),
            result is Err ==> *final(self) == *old(self),
            final(self)@.wf(),
    {
        proof {
            use_type_invariant(&*self);
            lemma_model_wf(self.entries@);
        }
        let index = match self.find_index(&vertex_id) {
            Some(i) => i,
            None => {
                return Err(vertex_not_found_message(&vertex_id));
            },
        };
        let mut entries: Vec<WeightedEntry<T>> = Vec::new();
        core::mem::swap(&mut self.entries, &mut entries);
        let ghost before = entries@;
        let mut j: usize = 0;
        while j < entries.len()
            invariant
                j <= entries@.len(),
                entries_ok(before),
                same_vertices(before, entries@),
                forall|i: int|
                    0 <= i < j ==> purged(
                        before[i].edges@,
                        (#[trigger] entries@[i]).edges@,
                        vertex_id@,
                    ),
                forall|i: int| j <= i < before.len() ==> entries@[i] == before[i],
            decreases entries@.len() - j,
        {
            proof {
                assert(entry_ok(before[j as int], ids_of(before)));
            }
            let ghost current = entries@;
            match Self::find_edge(&entries[j].edges, &vertex_id) {
                Some(k) => {
                    entries[j].edges.remove(k);
                    proof {
                        lemma_edge_map_remove(before[j as int].edges@, k as int);
                    }
                },
                None => {
                    proof {
                        lemma_purged_absent(before[j as int].edges@, vertex_id@);
                    }
                },
            }
            proof {
                assert forall|i: int| 0 <= i < j implies purged(
                    before[i].edges@,
                    (#[trigger] entries@[i]).edges@,
                    vertex_id@,
                ) by {
                    assert(entries@[i] == current[i]);
                }
            }
            j += 1;
        }
        proof {
            lemma_vertex_removed(before, entries@, index as int);
        }
        entries.remove(index);
        core::mem::swap(&mut self.entries, &mut entries);
        Ok(())
    }

    /// Looks up the vertex with identifier `id`.
    pub fn get_vertex_ref(&self, id: &str) -> (found: Option<&T>)
        ensures
            match found {
                Some(vertex) => self@.has_vertex(id@) && *vertex == self@.vertices[id@],
                None => !self@.has_vertex(id@),
            },
    {
        proof {
            use_type_invariant(self);
        }
        let key = String::from_str(id);
        match self.find_index(&key) {
            Some(i) => {
                proof {
                    lemma_model_at(self.entries@, i as int);
                }
                Some(&self.entries[i].payload)
            },
            None => None,
        }
    }

    /// Returns the identifiers of the vertices, oldest first.
    pub fn vertex_ids(&self) -> (ids: Vec<String>)
        ensures
            names(ids@) == self@.ids,
    {
        let mut ids: Vec<String> = Vec::new();
        let mut i: usize = 0;
        while i < self.entries.len()
            invariant
                i <= self.entries@.len(),
                ids@.len() == i,
                forall|j: int| 0 <= j < i ==> (#[trigger] ids@[j])@ == self.entries@[j].id@,
            decreases self.entries@.len() - i,
        {
            ids.push(self.entries[i].id.clone());
            i += 1;
        }
        proof {
            assert(names(ids@) =~= self@.ids);
        }
        ids
    }

    /// Returns the outgoing edges of the vertex `id`, oldest first, each
    /// as the identifier of the neighbour and the weight of the edge; or
    /// `None` if there is no such vertex.
    pub fn neighbors(&self, id: &String) -> (found: Option<Vec<(String, u32)>>)
        ensures
            match found {
                Some(list) => self@.has_vertex(id@) && lists(list@, self@.edges[id@]),
                None => !self@.has_vertex(id@),
            },
    {
        proof {
            use_type_invariant(self);
        }
        match self.find_index(id) {
            None => None,
            Some(i) => {
                let mut list: Vec<(String, u32)> = Vec::new();
                let mut k: usize = 0;
                while k < self.entries[i].edges.len()
                    invariant
                        i < self.entries@.len(),
                        k <= self.entries@[i as int].edges@.len(),
                        list@.len() == k,
                        forall|j: int|
                            0 <= j < k ==> (#[trigger] list@[j]).0@
                                == self.entries@[i as int].edges@[j].0@ && list@[j].1
                                == self.entries@[i as int].edges@[j].1,
                    decreases self.entries@[i as int].edges@.len() - k,
                {
                    let target = self.entries[i].edges[k].0.clone();
                    list.push((target, self.entries[i].edges[k].1));
                    k += 1;
                }
                proof {
                    let edges = self.entries@[i as int].edges@;
                    lemma_model_at(self.entries@, i as int);
                    assert(entry_ok(self.entries@[i as int], ids_of(self.entries@)));
                    assert(targets_of(list@) =~= targets_of(edges));
                    assert forall|j: int| 0 <= j < list@.len() implies self@.edges[id@].contains_key(
                        (#[trigger] list@[j]).0@,
                    ) && self@.edges[id@][list@[j].0@] == list@[j].1 by {
                        lemma_edge_map_at(edges, j);
                    }
                    assert forall|t: Seq<char>| self@.edges[id@].contains_key(t) implies exists|
                        j: int,
                    |
                        0 <= j < list@.len() && (#[trigger] list@[j]).0@ == t by {
                        let j = targets_of(edges).index_of(t);
                        assert(targets_of(edges)[j] == t);
                        assert(list@[j].0@ == t);
                    }
                    assert forall|a: int, b: int|
                        0 <= a < list@.len() && 0 <= b < list@.len() && a != b implies (
                    #[trigger] list@[a]).0@ != (#[trigger] list@[b]).0@ by {
                        assert(targets_of(edges)[a] != targets_of(edges)[b]);
                    }
                }
                Some(list)
            },
        }
    }

    /// Looks up the weight of the edge from `source_id` to `target_id`.
    pub fn edge_weight(&self, source_id: &String, target_id: &String) -> (found: Option<u32>)
        ensures
            match found {
                Some(weight) => self@.has_edge(source_id@, target_id@) && weight
                    == self@.edges[source_id@][target_id@],
                None => !self@.has_edge(source_id@, target_id@),
            },
    {
        proof {
            use_type_invariant(self);
        }
        match self.find_index(source_id) {
            Some(i) => {
                proof {
                    lemma_model_at(self.entries@, i as int);
                    assert(entry_ok(self.entries@[i as int], ids_of(self.entries@)));
                }
                match Self::find_edge(&self.entries[i].edges, target_id) {
                    Some(k) => {
                        proof {
                            lemma_edge_map_at(self.entries@[i as int].edges@, k as int);
                        }
                        Some(self.entries[i].edges[k].1)
                    },
                    None => None,
                }
            },
            None => None,
        }
    }
}

/// `after` is the edge list `before` without the edge leading to `id`.
spec fn purged(before: Seq<(String, u32)>, after: Seq<(String, u32)>, id: Seq<char>) -> bool {
    &&& targets_of(after).no_duplicates()
    &&& edge_map(after) == edge_map(before).remove(id)
    &&& forall|k: int|
        0 <= k < after.len() ==> targets_of(before).contains(#[trigger] targets_of(after)[k])
            && targets_of(after)[k] != id
}

/// An edge list that holds no edge to `id` is its own purged form.
proof fn lemma_purged_absent(edges: Seq<(String, u32)>, id: Seq<char>)
    requires
        targets_of(edges).no_duplicates(),
        !targets_of(edges).contains(id),
    ensures
        purged(edges, edges, id),
{
    assert(edge_map(edges) =~= edge_map(edges).remove(id));
}

/// Removing the edge at position `k` removes its target from the edge map,
/// and leaves the list purged of that target.
proof fn lemma_edge_map_remove(edges: Seq<(String, u32)>, k: int)
    requires
        targets_of(edges).no_duplicates(),
        0 <= k < edges.len(),
    ensures
        targets_of(edges.remove(k)) == targets_of(edges).remove(k),
        targets_of(edges.remove(k)).no_duplicates(),
        edge_map(edges.remove(k)) == edge_map(edges).remove(edges[k].0@),
        purged(edges, edges.remove(k), edges[k].0@),
{
    let after = edges.remove(k);
    let t1 = targets_of(edges);
    let t2 = targets_of(after);
    let gone = edges[k].0@;
    assert(t1[k] == gone);
    assert(t2 =~= t1.remove(k));
    assert forall|a: int| 0 <= a < t2.len() implies t1.contains(#[trigger] t2[a]) && t2[a]
        != gone by {
        if a < k {
            assert(t2[a] == t1[a]);
        } else {
            assert(t2[a] == t1[a + 1]);
        }
    }
    assert forall|a: int, b: int| 0 <= a < t2.len() && 0 <= b < t2.len() && a != b implies t2[a]
        != t2[b] by {
        let a1 = if a < k { a } else { a + 1 };
        let b1 = if b < k { b } else { b + 1 };
        assert(t2[a] == t1[a1] && t2[b] == t1[b1]);
    }
    assert forall|t: Seq<char>| t2.contains(t) <==> (t1.contains(t) && t != gone) by {
        if t1.contains(t) && t != gone {
            let j = t1.index_of(t);
            if j < k {
                assert(t2[j] == t);
            } else {
                assert(t2[j - 1] == t);
            }
        }
    }
    assert forall|t: Seq<char>| t2.contains(t) implies #[trigger] edge_map(after)[t] == edge_map(
        edges,
    ).remove(gone)[t] by {
        let a = t2.index_of(t);
        lemma_index_of_range(t2, t);
        lemma_edge_map_at(after, a);
        let a1 = if a < k { a } else { a + 1 };
        assert(after[a] == edges[a1]);
        lemma_edge_map_at(edges, a1);
    }
    assert(edge_map(after) =~= edge_map(edges).remove(gone));
}

/// The effect on the model of removing the edge at position `k` from the
/// edges of the vertex at position `i`.
proof fn lemma_edge_removed<T: Identifiable>(
    before: Seq<WeightedEntry<T>>,
    after: Seq<WeightedEntry<T>>,
    i: int,
    k: int,
)
    requires
        entries_ok(before),
        0 <= i < before.len(),
        0 <= k < before[i].edges@.len(),
        same_vertices(before, after),
        forall|j: int| 0 <= j < before.len() && j != i ==> after[j] == before[j],
        after[i].edges@ == before[i].edges@.remove(k),
    ensures
        entries_ok(after),
        model_of(after).ids == model_of(before).ids,
        model_of(after).vertices == model_of(before).vertices,
        model_of(after).edges == model_of(before).edges.insert(
            before[i].id@,
            model_of(before).edges[before[i].id@].remove(before[i].edges@[k].0@),
        ),
        model_of(after).wf(),
{
    let ids = ids_of(before);
    assert(entry_ok(before[i], ids));
    lemma_edge_map_remove(before[i].edges@, k);
    assert forall|j: int| 0 <= j < after.len() implies entry_ok(#[trigger] after[j], ids) by {
        assert(entry_ok(before[j], ids));
        if j == i {
            let t1 = targets_of(before[i].edges@);
            let t2 = targets_of(after[i].edges@);
            assert forall|a: int| 0 <= a < t2.len() implies ids.contains(#[trigger] t2[a]) by {
                assert(t1.contains(t2[a]));
                let b = t1.index_of(t2[a]);
                assert(ids.contains(t1[b]));
            }
        }
    }
    lemma_same_vertices(before, after);
    lemma_same_vertices(before, before);
    lemma_model_at(before, i);
    let expected = model_of(before).edges.insert(
        before[i].id@,
        model_of(before).edges[before[i].id@].remove(before[i].edges@[k].0@),
    );
    assert forall|key: Seq<char>| ids.contains(key) implies #[trigger] model_of(after).edges[key]
        == expected[key] by {
        let j = ids.index_of(key);
        lemma_index_of_range(ids, key);
        assert(model_of(after).edges[ids[j]] == edge_map(after[j].edges@));
        assert(model_of(before).edges[ids[j]] == edge_map(before[j].edges@));
        if j != i {
            lemma_index_of_unique(ids, i);
        }
    }
    assert(model_of(after).edges =~= expected);
    lemma_model_wf(after);
}

/// The effect on the model of removing the vertex at position `index`, once
/// every edge list has been purged of edges leading to it.
proof fn lemma_vertex_removed<T: Identifiable>(
    before: Seq<WeightedEntry<T>>,
    cleaned: Seq<WeightedEntry<T>>,
    index: int,
)
    requires
        entries_ok(before),
        0 <= index < before.len(),
        same_vertices(before, cleaned),
        forall|j: int|
            0 <= j < before.len() ==> purged(
                before[j].edges@,
                (#[trigger] cleaned[j]).edges@,
                before[index].id@,
            ),
    ensures
        entries_ok(cleaned.remove(index)),
        ids_of(before).index_of(before[index].id@) == index,
        model_of(cleaned.remove(index)).ids == model_of(before).ids.remove(index),
        model_of(cleaned.remove(index)).vertices == model_of(before).vertices.remove(
            before[index].id@,
        ),
        model_of(cleaned.remove(index)).edges == without_vertex(
            model_of(before).edges,
            before[index].id@,
        ),
        model_of(cleaned.remove(index)).wf(),
{
    let ids = ids_of(before);
    let gone = before[index].id@;
    let after = cleaned.remove(index);
    let ids2 = ids_of(after);
    assert(ids[index] == gone);
    lemma_index_of_unique(ids, index);
    assert(ids2 =~= ids.remove(index)) by {
        assert forall|a: int| 0 <= a < ids2.len() implies ids2[a] == ids.remove(index)[a] by {
            let a1 = if a < index { a } else { a + 1 };
            assert(after[a] == cleaned[a1]);
            assert(cleaned[a1].id == before[a1].id);
        }
    }
    assert forall|a: int, b: int| 0 <= a < ids2.len() && 0 <= b < ids2.len() && a != b implies ids2[a]
        != ids2[b] by {
        let a1 = if a < index { a } else { a + 1 };
        let b1 = if b < index { b } else { b + 1 };
        assert(ids2[a] == ids[a1] && ids2[b] == ids[b1]);
    }
    assert forall|key: Seq<char>| ids2.contains(key) <==> (ids.contains(key) && key != gone) by {
        if ids2.contains(key) {
            let a = ids2.index_of(key);
            let a1 = if a < index { a } else { a + 1 };
            assert(ids2[a] == ids[a1]);
        }
        if ids.contains(key) && key != gone {
            let j = ids.index_of(key);
            if j < index {
                assert(ids2[j] == key);
            } else {
                assert(ids2[j - 1] == key);
            }
        }
    }
    assert forall|a: int| 0 <= a < after.len() implies entry_ok(#[trigger] after[a], ids2) by {
        let a1 = if a < index { a } else { a + 1 };
        assert(after[a] == cleaned[a1]);
        assert(entry_ok(before[a1], ids));
        assert(purged(before[a1].edges@, cleaned[a1].edges@, gone));
        let t1 = targets_of(before[a1].edges@);
        let t2 = targets_of(after[a].edges@);
        assert forall|k: int| 0 <= k < t2.len() implies ids2.contains(#[trigger] t2[k]) by {
            assert(t1.contains(t2[k]) && t2[k] != gone);
            let b = t1.index_of(t2[k]);
            assert(ids.contains(t1[b]));
        }
    }
    assert(entries_ok(after));
    let m = model_of(before);
    let m2 = model_of(after);
    assert forall|key: Seq<char>| ids2.contains(key) implies #[trigger] m2.vertices[key]
        == m.vertices.remove(gone)[key] by {
        let a = ids2.index_of(key);
        lemma_index_of_range(ids2, key);
        let a1 = if a < index { a } else { a + 1 };
        assert(after[a] == cleaned[a1]);
        assert(cleaned[a1].payload == before[a1].payload && cleaned[a1].id == before[a1].id);
        lemma_model_at(after, a);
        lemma_model_at(before, a1);
    }
    assert(m2.vertices =~= m.vertices.remove(gone));
    assert forall|key: Seq<char>| ids2.contains(key) implies #[trigger] m2.edges[key]
        == without_vertex(m.edges, gone)[key] by {
        let a = ids2.index_of(key);
        lemma_index_of_range(ids2, key);
        let a1 = if a < index { a } else { a + 1 };
        assert(after[a] == cleaned[a1]);
        assert(cleaned[a1].id == before[a1].id);
        assert(purged(before[a1].edges@, cleaned[a1].edges@, gone));
        lemma_model_at(after, a);
        lemma_model_at(before, a1);
    }
    assert(m2.edges =~= without_vertex(m.edges, gone));
    lemma_model_wf(after);
}

impl<T: Identifiable> OrientedWeightedGraph<T> {
    /// The adjacency table of the graph: row `i` lists the edges that
    /// leave the vertex at position `i`, with each target given by its
    /// position.
    pub(crate) fn adjacency(&self) -> (rows: Vec<Vec<(usize, u32)>>)
        ensures
            rows@.len() == self@.ids.len(),
            adjacency_ok(rows@),
            graph_of(rows@) == self@.index_graph(),
    {
        proof {
            use_type_invariant(self);
        }
        let ghost ids = ids_of(self.entries@);
        let mut rows: Vec<Vec<(usize, u32)>> = Vec::new();
        let mut i: usize = 0;
        while i < self.entries.len()
            invariant
                i <= self.entries@.len(),
                rows@.len() == i,
                ids == ids_of(self.entries@),
                entries_ok(self.entries@),
                forall|j: int|
                    0 <= j < i ==> row_matches(
                        self.entries@[j].edges@,
                        (#[trigger] rows@[j])@,
                        ids,
                    ),
            decreases self.entries@.len() - i,
        {
            let mut row: Vec<(usize, u32)> = Vec::new();
            let mut k: usize = 0;
            proof {
                assert(entry_ok(self.entries@[i as int], ids));
            }
            while k < self.entries[i].edges.len()
                invariant
                    i < self.entries@.len(),
                    k <= self.entries@[i as int].edges@.len(),
                    row@.len() == k,
                    ids == ids_of(self.entries@),
                    entries_ok(self.entries@),
                    entry_ok(self.entries@[i as int], ids),
                    forall|a: int|
                        0 <= a < k ==> (#[trigger] row@[a]).0 < ids.len() && ids[row@[a].0 as int]
                            == self.entries@[i as int].edges@[a].0@ && row@[a].1
                            == self.entries@[i as int].edges@[a].1,
                decreases self.entries@[i as int].edges@.len() - k,
            {
                proof {
                    let targets = targets_of(self.entries@[i as int].edges@);
                    assert(ids.contains(targets[k as int]));
                }
                let found = self.find_index(&self.entries[i].edges[k].0);
                let position = found.unwrap();
                row.push((position, self.entries[i].edges[k].1));
                k += 1;
            }
            rows.push(row);
            i += 1;
        }
        proof {
            lemma_adjacency(self.entries@, rows@);
        }
        rows
    }

    /// Searches for a path of least total weight from `source_id` to
    /// `target_id`.
    ///
    /// Fails with `VertexNotFound` if either endpoint is absent (the
    /// source is looked up first). Otherwise returns the identifiers of
    /// the vertices along a shortest path, from the source to the target
    /// inclusive; a search from a vertex to itself returns that vertex
    /// alone. If the target cannot be reached the result is empty: that no
    /// path exists is an answer, not an error.
    ///
    /// Among equally short paths the result is the one fixed by
    /// [`WeightedGraphView::shortest_route`], so that a repeated search
    /// gives the same answer.
    pub fn shortest_path(&self, source_id: String, target_id: String) -> (result: Result<
        Vec<String>,
        String,
    >)
        ensures
            route_outcome(result) == self@.shortest_path(source_id@, target_id@),
            match result {
                Ok(path) => if self@.reachable(source_id@, target_id@) {
                    self@.is_shortest_route(names(path@), source_id@, target_id@)
                } else {
                    path@.len() == 0
                },
                Err(_) => !self@.has_vertex(source_id@) || !self@.has_vertex(target_id@),
            },
    {
        proof {
            use_type_invariant(self);
            lemma_model_wf(self.entries@);
        }
        let source = match self.find_index(&source_id) {
            Some(i) => i,
            None => {
                return Err(vertex_not_found_message(&source_id));
            },
        };
        let target = match self.find_index(&target_id) {
            Some(i) => i,
            None => {
                return Err(vertex_not_found_message(&target_id));
            },
        };
        let rows = self.adjacency();
        let indices = shortest_index_path(&rows, source, target);
        proof {
            self@.lemma_shortest_route(source_id@, target_id@);
        }
        let path = self.named(&indices);
        proof {
            assert(names(path@) == self@.shortest_route(source_id@, target_id@));
        }
        Ok(path)
    }

    /// The position of the vertex with identifier `id` among the
    /// identifiers, if it is present.
    pub(crate) fn position(&self, id: &String) -> (found: Option<usize>)
        ensures
            self@.wf(),
            match found {
                Some(i) => self@.has_vertex(id@) && i < self@.ids.len() && i
                    == self@.ids.index_of(id@),
                None => !self@.has_vertex(id@),
            },
    {
        proof {
            use_type_invariant(self);
            lemma_model_wf(self.entries@);
        }
        self.find_index(id)
    }

    /// The identifiers of the vertices at the given positions.
    pub(crate) fn named(&self, indices: &Vec<usize>) -> (path: Vec<String>)
        requires
            forall|j: int| 0 <= j < indices@.len() ==> indices@[j] < self@.ids.len(),
        ensures
            names(path@) == self@.named(as_ints(indices@)),
    {
        let ghost ids = ids_of(self.entries@);
        let mut path: Vec<String> = Vec::new();
        let mut i: usize = 0;
        while i < indices.len()
            invariant
                i <= indices@.len(),
                path@.len() == i,
                ids == ids_of(self.entries@),
                forall|j: int| 0 <= j < indices@.len() ==> indices@[j] < self.entries@.len(),
                forall|j: int| 0 <= j < i ==> (#[trigger] path@[j])@ == ids[indices@[j] as int],
            decreases indices@.len() - i,
        {
            path.push(self.entries[indices[i]].id.clone());
            i += 1;
        }
        proof {
            assert(names(path@) =~= self@.named(as_ints(indices@)));
        }
        path
    }
}

/// `row` lists the edges of `edges` in the same order, with each target
/// given by its position in `ids`.
spec fn row_matches(edges: Seq<(String, u32)>, row: Seq<(usize, u32)>, ids: Seq<Seq<char>>) -> bool {
    &&& row.len() == edges.len()
    &&& forall|k: int|
        0 <= k < row.len() ==> (#[trigger] row[k]).0 < ids.len() && ids[row[k].0 as int]
            == edges[k].0@ && row[k].1 == edges[k].1
}

/// A table whose rows match the edge lists of the arena is a well-formed
/// adjacency table, and it stands for the numbered graph of the model.
proof fn lemma_adjacency<T: Identifiable>(
    entries: Seq<WeightedEntry<T>>,
    rows: Seq<Vec<(usize, u32)>>,
)
    requires
        entries_ok(entries),
        rows.len() == entries.len(),
        forall|j: int|
            0 <= j < rows.len() ==> row_matches(
                entries[j].edges@,
                (#[trigger] rows[j])@,
                ids_of(entries),
            ),
    ensures
        adjacency_ok(rows),
        graph_of(rows) == model_of(entries).index_graph(),
{
    let ids = ids_of(entries);
    let m = model_of(entries);
    let n = rows.len();
    assert forall|u: int| 0 <= u < rows.len() implies row_ok((#[trigger] rows[u])@, rows.len()) by {
        let row = rows[u]@;
        let edges = entries[u].edges@;
        assert(row_matches(edges, row, ids));
        assert(entry_ok(entries[u], ids));
        let targets = targets_of(edges);
        assert forall|j: int, k: int|
            0 <= j < row.len() && 0 <= k < row.len() && j != k implies (#[trigger] row[j]).0 != (
        #[trigger] row[k]).0 by {
            assert(targets[j] == edges[j].0@ && targets[k] == edges[k].0@);
        }
    }
    let g1 = graph_of(rows);
    let g2 = m.index_graph();
    assert forall|p: (int, int)| g1.weight.contains_key(p) <==> g2.weight.contains_key(p) by {
        let u = p.0;
        let v = p.1;
        if 0 <= u < n {
            let row = rows[u]@;
            let edges = entries[u].edges@;
            let targets = targets_of(edges);
            assert(row_matches(edges, row, ids));
            assert(entry_ok(entries[u], ids));
            lemma_model_at(entries, u);
            assert(ids[u] == entries[u].id@);
            if g1.weight.contains_key(p) {
                let k = choose|k: int| 0 <= k < row.len() && (#[trigger] row[k]).0 == v;
                assert(targets[k] == ids[v]);
                assert(targets.contains(ids[v]));
            }
            if g2.weight.contains_key(p) {
                assert(targets.contains(ids[v]));
                let k = targets.index_of(ids[v]);
                assert(targets[k] == edges[k].0@);
                assert(ids[row[k].0 as int] == ids[v]);
                assert(row[k].0 == v);
            }
        }
    }
    assert forall|p: (int, int)| g1.weight.contains_key(p) implies g1.weight[p]
        == g2.weight[p] by {
        let u = p.0;
        let v = p.1;
        let row = rows[u]@;
        let edges = entries[u].edges@;
        let targets = targets_of(edges);
        assert(row_matches(edges, row, ids));
        assert(entry_ok(entries[u], ids));
        assert(row_ok(row, n));
        lemma_model_at(entries, u);
        assert(ids[u] == entries[u].id@);
        let k = choose|k: int| 0 <= k < row.len() && (#[trigger] row[k]).0 == v;
        assert(targets[k] == ids[v]);
        lemma_edge_map_at(edges, k);
    }
    assert(g1.weight =~= g2.weight);
}

/// `after` holds the same vertices as `before`, in the same order; only
/// edge lists may differ.
spec fn same_vertices<T>(before: Seq<WeightedEntry<T>>, after: Seq<WeightedEntry<T>>) -> bool {
    &&& after.len() == before.len()
    &&& forall|j: int|
        0 <= j < before.len() ==> (#[trigger] after[j]).id == before[j].id && after[j].payload
            == before[j].payload
}

/// Changing edge lists only leaves identifiers and payloads of the model
/// as they were, and the edges of each vertex are those of its new list.
proof fn lemma_same_vertices<T: Identifiable>(
    before: Seq<WeightedEntry<T>>,
    after: Seq<WeightedEntry<T>>,
)
    requires
        entries_ok(before),
        same_vertices(before, after),
        forall|j: int|
            0 <= j < after.len() ==> entry_ok(#[trigger] after[j], ids_of(before)),
    ensures
        entries_ok(after),
        ids_of(after) == ids_of(before),
        model_of(after).ids == model_of(before).ids,
        model_of(after).vertices == model_of(before).vertices,
        model_of(after).edges.dom() == model_of(before).edges.dom(),
        forall|j: int|
            0 <= j < after.len() ==> model_of(after).edges[#[trigger] ids_of(before)[j]]
                == edge_map(after[j].edges@),
{
    let ids = ids_of(before);
    assert(ids_of(after) =~= ids) by {
        assert forall|j: int| 0 <= j < ids.len() implies ids_of(after)[j] == ids[j] by {
            assert(after[j].id == before[j].id);
        }
    }
    assert forall|k: Seq<char>| ids.contains(k) implies #[trigger] model_of(after).vertices[k]
        == model_of(before).vertices[k] by {
        let i = ids.index_of(k);
        lemma_index_of_range(ids, k);
        assert(after[i].payload == before[i].payload);
    }
    assert(model_of(after).vertices =~= model_of(before).vertices);
    assert(model_of(after).edges.dom() =~= model_of(before).edges.dom());
    assert forall|j: int| 0 <= j < after.len() implies model_of(after).edges[#[trigger] ids[j]]
        == edge_map(after[j].edges@) by {
        lemma_index_of_unique(ids, j);
    }
}

/// Appending an edge to a target that the list does not hold yet inserts
/// it into the edge map.
proof fn lemma_edge_map_push(edges: Seq<(String, u32)>, target: String, weight: u32)
    requires
        targets_of(edges).no_duplicates(),
        !targets_of(edges).contains(target@),
    ensures
        targets_of(edges.push((target, weight))) == targets_of(edges).push(target@),
        targets_of(edges.push((target, weight))).no_duplicates(),
        edge_map(edges.push((target, weight))) == edge_map(edges).insert(target@, weight),
{
    let after = edges.push((target, weight));
    let t1 = targets_of(edges);
    let t2 = targets_of(after);
    assert(t2 =~= t1.push(target@));
    assert(t2.no_duplicates());
    assert forall|t: Seq<char>| t2.contains(t) <==> (t1.contains(t) || t == target@) by {
        if t1.contains(t) {
            let j = t1.index_of(t);
            assert(t2[j] == t);
        }
        if t == target@ {
            assert(t2[edges.len() as int] == t);
        }
    }
    assert forall|t: Seq<char>| t2.contains(t) implies #[trigger] edge_map(after)[t] == edge_map(
        edges,
    ).insert(target@, weight)[t] by {
        let k = t2.index_of(t);
        lemma_index_of_range(t2, t);
        lemma_edge_map_at(after, k);
        if k < edges.len() {
            assert(after[k] == edges[k]);
            lemma_edge_map_at(edges, k);
        }
    }
    assert(edge_map(after) =~= edge_map(edges).insert(target@, weight));
}

/// The effect on the model of appending the edge `(target, weight)` to the
/// edges of the vertex at position `i`.
proof fn lemma_edge_pushed<T: Identifiable>(
    before: Seq<WeightedEntry<T>>,
    after: Seq<WeightedEntry<T>>,
    i: int,
    target: String,
    weight: u32,
)
    requires
        entries_ok(before),
        0 <= i < before.len(),
        ids_of(before).contains(target@),
        !targets_of(before[i].edges@).contains(target@),
        same_vertices(before, after),
        forall|j: int| 0 <= j < before.len() && j != i ==> after[j] == before[j],
        after[i].edges@ == before[i].edges@.push((target, weight)),
    ensures
        entries_ok(after),
        model_of(after).ids == model_of(before).ids,
        model_of(after).vertices == model_of(before).vertices,
        model_of(after).edges == model_of(before).edges.insert(
            before[i].id@,
            model_of(before).edges[before[i].id@].insert(target@, weight),
        ),
        model_of(after).wf(),
{
    let ids = ids_of(before);
    lemma_edge_map_push(before[i].edges@, target, weight);
    assert forall|j: int| 0 <= j < after.len() implies entry_ok(#[trigger] after[j], ids) by {
        assert(entry_ok(before[j], ids));
        if j == i {
            let t1 = targets_of(before[i].edges@);
            let t2 = targets_of(after[i].edges@);
            assert forall|k: int| 0 <= k < t2.len() implies ids.contains(#[trigger] t2[k]) by {
                if k < t1.len() {
                    assert(t2[k] == t1[k]);
                }
            }
        }
    }
    lemma_same_vertices(before, after);
    lemma_same_vertices(before, before);
    lemma_model_at(before, i);
    let expected = model_of(before).edges.insert(
        before[i].id@,
        model_of(before).edges[before[i].id@].insert(target@, weight),
    );
    assert forall|k: Seq<char>| ids.contains(k) implies #[trigger] model_of(after).edges[k]
        == expected[k] by {
        let j = ids.index_of(k);
        lemma_index_of_range(ids, k);
        assert(model_of(after).edges[ids[j]] == edge_map(after[j].edges@));
        assert(model_of(before).edges[ids[j]] == edge_map(before[j].edges@));
        if j != i {
            lemma_index_of_unique(ids, i);
        }
    }
    assert(model_of(after).edges =~= expected);
    lemma_model_wf(after);
}

/// Appending a fresh vertex without edges keeps the arena well formed and
/// extends the model by exactly that vertex.
proof fn lemma_push_entry<T: Identifiable>(entries: Seq<WeightedEntry<T>>, entry: WeightedEntry<T>)
    requires
        entries_ok(entries),
        !ids_of(entries).contains(entry.id@),
        entry.payload.id() == entry.id@,
        entry.edges@.len() == 0,
    ensures
        entries_ok(entries.push(entry)),
        model_of(entries.push(entry)).ids == model_of(entries).ids.push(entry.id@),
        model_of(entries.push(entry)).vertices == model_of(entries).vertices.insert(
            entry.id@,
            entry.payload,
        ),
        model_of(entries.push(entry)).edges == model_of(entries).edges.insert(
            entry.id@,
            Map::<Seq<char>, u32>::empty(),
        ),
        model_of(entries.push(entry)).wf(),
{
    let after = entries.push(entry);
    let ids = ids_of(entries);
    let ids2 = ids_of(after);
    assert(ids2 =~= ids.push(entry.id@));
    assert(ids2.no_duplicates());
    assert forall|i: int| 0 <= i < after.len() implies entry_ok(#[trigger] after[i], ids2) by {
        if i < entries.len() {
            assert(after[i] == entries[i]);
            assert(entry_ok(entries[i], ids));
            let targets = targets_of(entries[i].edges@);
            assert forall|k: int| 0 <= k < targets.len() implies ids2.contains(
                #[trigger] targets[k],
            ) by {
                assert(ids.contains(targets[k]));
                let j = ids.index_of(targets[k]);
                assert(ids2[j] == targets[k]);
            }
        } else {
            assert(targets_of(entry.edges@) =~= Seq::<Seq<char>>::empty());
            assert(ids2[entries.len() as int] == entry.id@);
        }
    }
    assert(entries_ok(after));
    let m = model_of(entries);
    let m2 = model_of(after);
    assert forall|k: Seq<char>| ids2.contains(k) <==> (ids.contains(k) || k == entry.id@) by {
        if ids.contains(k) {
            let j = ids.index_of(k);
            assert(ids2[j] == k);
        }
        if k == entry.id@ {
            assert(ids2[entries.len() as int] == k);
        }
    }
    assert forall|k: Seq<char>| ids2.contains(k) implies #[trigger] m2.vertices[k]
        == m.vertices.insert(entry.id@, entry.payload)[k] by {
        let i = ids2.index_of(k);
        lemma_index_of_range(ids2, k);
        lemma_model_at(after, i);
        if i < entries.len() {
            assert(after[i] == entries[i]);
            lemma_model_at(entries, i);
        }
    }
    assert forall|k: Seq<char>| ids2.contains(k) implies #[trigger] m2.edges[k] == m.edges.insert(
        entry.id@,
        Map::<Seq<char>, u32>::empty(),
    )[k] by {
        let i = ids2.index_of(k);
        lemma_index_of_range(ids2, k);
        lemma_model_at(after, i);
        if i < entries.len() {
            assert(after[i] == entries[i]);
            lemma_model_at(entries, i);
        } else {
            assert(edge_map(entry.edges@) =~= Map::<Seq<char>, u32>::empty());
        }
    }
    assert(m2.vertices =~= m.vertices.insert(entry.id@, entry.payload));
    assert(m2.edges =~= m.edges.insert(entry.id@, Map::<Seq<char>, u32>::empty()));
    lemma_model_wf(after);
}

} // verus!
