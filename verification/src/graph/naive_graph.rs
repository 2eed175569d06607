//! A directed graph whose edges are kept as plain lists: the same edge
//! can be added more than once.

use vstd::prelude::*;
use super::identifiable::Identifiable;
use super::messages::{duplicate_vertex, edge_not_found, vertex_not_found};
use super::messages::{duplicate_vertex_message, edge_not_found_message, vertex_not_found_message};
use super::oriented_weighted_graph::{lemma_index_of_range, lemma_index_of_unique};
use super::weighted_view::{names, outcome};

verus! {

/// Mathematical model of a graph with edge lists.
///
/// `vertices` maps each identifier to the payload stored under it, and
/// `edges` maps each identifier to the identifiers of the vertices that
/// an edge leads to, one entry per edge, oldest first. `ids` lists the
/// identifiers oldest first.
pub struct GraphView<T> {
    pub ids: Seq<Seq<char>>,
    pub vertices: Map<Seq<char>, T>,
    pub edges: Map<Seq<char>, Seq<Seq<char>>>,
}

/// The list `list` without its first entry equal to `target`.
pub open spec fn without_first(list: Seq<Seq<char>>, target: Seq<char>) -> Seq<Seq<char>>
    decreases list.len(),
{
    if list.len() == 0 {
        list
    } else if list[0] == target {
        list.drop_first()
    } else {
        seq![list[0]] + without_first(list.drop_first(), target)
    }
}

/// The list `list` without its entries equal to `target`.
pub open spec fn without(list: Seq<Seq<char>>, target: Seq<char>) -> Seq<Seq<char>>
    decreases list.len(),
{
    if list.len() == 0 {
        list
    } else if list[list.len() - 1] == target {
        without(list.drop_last(), target)
    } else {
        without(list.drop_last(), target).push(list[list.len() - 1])
    }
}

/// Text of the error reported when a vertex is looked up by an identifier
/// that no vertex has.
pub open spec fn no_vertex_with_id(id: Seq<char>) -> Seq<char> {
    "Vertex with id "@ + id + " does not exists"@
}

impl<T: Identifiable> GraphView<T> {
    /// The invariants of the data model: identifiers are unique, vertices
    /// and edge lists are added and removed together, every vertex is
    /// keyed by its own identifier, and every edge leads to an existing
    /// vertex.
    pub open spec fn wf(self) -> bool {
        &&& self.ids.no_duplicates()
        &&& forall|k: Seq<char>| self.vertices.contains_key(k) <==> self.ids.contains(k)
        &&& forall|k: Seq<char>| self.edges.contains_key(k) <==> self.ids.contains(k)
        &&& forall|k: Seq<char>| #[trigger]
            self.vertices.contains_key(k) ==> self.vertices[k].id() == k
        &&& forall|s: Seq<char>, t: Seq<char>| #[trigger]
            self.has_edge(s, t) ==> self.vertices.contains_key(s) && self.vertices.contains_key(t)
    }

    /// Whether a vertex with identifier `id` is present.
    pub open spec fn has_vertex(self, id: Seq<char>) -> bool {
        self.vertices.contains_key(id)
    }

    /// Whether there is an edge from `source` to `target`.
    pub open spec fn has_edge(self, source: Seq<char>, target: Seq<char>) -> bool {
        self.edges.contains_key(source) && self.edges[source].contains(target)
    }

    /// Adding `vertex`: the graph that results, and the outcome reported.
    /// A vertex whose identifier is taken is refused with
    /// `DuplicateVertex`.
    pub open spec fn add_vertex(self, vertex: T) -> (Self, Result<(), Seq<char>>) {
        let id = vertex.id();
        if self.has_vertex(id) {
            (self, Err(duplicate_vertex(id)))
        } else {
            (
                GraphView {
                    ids: self.ids.push(id),
                    vertices: self.vertices.insert(id, vertex),
                    edges: self.edges.insert(id, Seq::empty()),
                },
                Ok(()),
            )
        }
    }

    /// Adding an edge from `source` to `target`: the graph that results,
    /// and the outcome reported. An absent endpoint is reported as
    /// `VertexNotFound`, the source first; an edge that is already there
    /// is added once more.
    pub open spec fn add_edge(self, source: Seq<char>, target: Seq<char>) -> (
        Self,
        Result<(), Seq<char>>,
    ) {
        if !self.has_vertex(source) {
            (self, Err(vertex_not_found(source)))
        } else if !self.has_vertex(target) {
            (self, Err(vertex_not_found(target)))
        } else {
            (
                GraphView {
                    ids: self.ids,
                    vertices: self.vertices,
                    edges: self.edges.insert(source, self.edges[source].push(target)),
                },
                Ok(()),
            )
        }
    }

    /// Removing an edge from `source` to `target`, the oldest one if there
    /// are several: the graph that results, and the outcome reported. An
    /// absent endpoint is reported as `VertexNotFound`, the source first;
    /// a missing edge as `EdgeNotFound`.
    pub open spec fn remove_edge(self, source: Seq<char>, target: Seq<char>) -> (
        Self,
        Result<(), Seq<char>>,
    ) {
        if !self.has_vertex(source) {
            (self, Err(vertex_not_found(source)))
        } else if !self.has_vertex(target) {
            (self, Err(vertex_not_found(target)))
        } else if !self.has_edge(source, target) {
            (self, Err(edge_not_found(source, target)))
        } else {
            (
                GraphView {
                    ids: self.ids,
                    vertices: self.vertices,
                    edges: self.edges.insert(source, without_first(self.edges[source], target)),
                },
                Ok(()),
            )
        }
    }

    /// Removing the vertex `id`: the graph that results, and the outcome
    /// reported. The vertex goes together with the edges that leave it and
    /// the edges that lead to it; an absent vertex is reported as
    /// `VertexNotFound`.
    pub open spec fn remove_vertex(self, id: Seq<char>) -> (Self, Result<(), Seq<char>>) {
        if !self.has_vertex(id) {
            (self, Err(vertex_not_found(id)))
        } else {
            (
                GraphView {
                    ids: self.ids.remove(self.ids.index_of(id)),
                    vertices: self.vertices.remove(id),
                    edges: Map::new(
                        |source: Seq<char>| self.edges.contains_key(source) && source != id,
                        |source: Seq<char>| without(self.edges[source], id),
                    ),
                },
                Ok(()),
            )
        }
    }
}

/// What is left of a list once the entries equal to `target` are gone was
/// in the list, and is not equal to `target`.
pub proof fn lemma_without_members(list: Seq<Seq<char>>, target: Seq<char>)
    ensures
        forall|t: Seq<char>| #[trigger]
            without(list, target).contains(t) <==> list.contains(t) && t != target,
    decreases list.len(),
{
    let rest = without(list, target);
    if list.len() > 0 {
        let shorter = list.drop_last();
        let last = list[list.len() - 1];
        lemma_without_members(shorter, target);
        let inner = without(shorter, target);
        assert forall|t: Seq<char>| #[trigger] rest.contains(t) <==> list.contains(t) && t
            != target by {
            if rest.contains(t) {
                let i = rest.index_of(t);
                if last != target && i == inner.len() {
                    assert(list[list.len() - 1] == t);
                } else {
                    assert(inner[i] == t);
                    assert(inner.contains(t));
                    let j = shorter.index_of(t);
                    assert(list[j] == t);
                }
            }
            if list.contains(t) && t != target {
                let j = list.index_of(t);
                if j < shorter.len() {
                    assert(shorter[j] == t);
                    assert(shorter.contains(t));
                    assert(inner.contains(t));
                    let i = inner.index_of(t);
                    assert(rest[i] == t);
                } else {
                    assert(rest[rest.len() - 1] == t);
                }
            }
        }
    }
}

/// Removing the entry at the first position at which `target` stands
/// gives the list without its first entry equal to `target`.
pub proof fn lemma_without_first_at(list: Seq<Seq<char>>, target: Seq<char>, k: int)
    requires
        0 <= k < list.len(),
        list[k] == target,
        forall|j: int| 0 <= j < k ==> list[j] != target,
    ensures
        without_first(list, target) == list.remove(k),
    decreases k,
{
    if k == 0 {
        assert(list.remove(0) =~= list.drop_first());
    } else {
        let rest = list.drop_first();
        assert forall|j: int| 0 <= j < k - 1 implies rest[j] != target by {
            assert(rest[j] == list[j + 1]);
        }
        lemma_without_first_at(rest, target, k - 1);
        assert(list.remove(k) =~= seq![list[0]] + rest.remove(k - 1));
    }
}

/// One vertex of the arena: its identifier, its payload and the
/// identifiers of the vertices that its edges lead to.
struct Entry<T> {
    id: String,
    payload: T,
    edges: Vec<String>,
}

/// A directed graph that owns its vertices and keeps the edges that leave
/// each vertex as a list.
///
/// Vertices are referred to by their identifier only: an edge from A to B
/// is an entry for B in the list of A, and says nothing of an edge from B
/// to A.
pub struct Graph<T: Identifiable> {
    entries: Vec<Entry<T>>,
}

spec fn ids_of<T>(entries: Seq<Entry<T>>) -> Seq<Seq<char>> {
    Seq::new(entries.len(), |i: int| entries[i].id@)
}

spec fn entry_ok<T: Identifiable>(entry: Entry<T>, ids: Seq<Seq<char>>) -> bool {
    &&& entry.payload.id() == entry.id@
    &&& forall|k: int| 0 <= k < entry.edges@.len() ==> ids.contains(#[trigger] names(entry.edges@)[k])
}

spec fn entries_ok<T: Identifiable>(entries: Seq<Entry<T>>) -> bool {
    &&& ids_of(entries).no_duplicates()
    &&& forall|i: int| 0 <= i < entries.len() ==> entry_ok(#[trigger] entries[i], ids_of(entries))
}

spec fn model_of<T: Identifiable>(entries: Seq<Entry<T>>) -> GraphView<T> {
    let ids = ids_of(entries);
    GraphView {
        ids,
        vertices: Map::new(
            |k: Seq<char>| ids.contains(k),
            |k: Seq<char>| entries[ids.index_of(k)].payload,
        ),
        edges: Map::new(
            |k: Seq<char>| ids.contains(k),
            |k: Seq<char>| names(entries[ids.index_of(k)].edges@),
        ),
    }
}

/// `after` holds the same vertices as `before`, in the same order; only
/// edge lists may differ.
spec fn same_vertices<T>(before: Seq<Entry<T>>, after: Seq<Entry<T>>) -> bool {
    &&& after.len() == before.len()
    &&& forall|j: int|
        0 <= j < before.len() ==> (#[trigger] after[j]).id == before[j].id && after[j].payload
            == before[j].payload
}

/// What the model says of the vertex stored at position `i`.
proof fn lemma_model_at<T: Identifiable>(entries: Seq<Entry<T>>, i: int)
    requires
        entries_ok(entries),
        0 <= i < entries.len(),
    ensures
        model_of(entries).vertices.contains_key(entries[i].id@),
        model_of(entries).vertices[entries[i].id@] == entries[i].payload,
        model_of(entries).edges.contains_key(entries[i].id@),
        model_of(entries).edges[entries[i].id@] == names(entries[i].edges@),
{
    let ids = ids_of(entries);
    assert(ids[i] == entries[i].id@);
    lemma_index_of_unique(ids, i);
}

/// The model of a well-formed arena satisfies the invariants of the data
/// model.
proof fn lemma_model_wf<T: Identifiable>(entries: Seq<Entry<T>>)
    requires
        entries_ok(entries),
    ensures
        model_of(entries).wf(),
{
    let ids = ids_of(entries);
    let m = model_of(entries);
    assert forall|k: Seq<char>| #[trigger] m.vertices.contains_key(k) implies m.vertices[k].id()
        == k by {
        let i = ids.index_of(k);
        lemma_index_of_range(ids, k);
        assert(entry_ok(entries[i], ids));
    }
    assert forall|s: Seq<char>, t: Seq<char>| #[trigger] m.has_edge(s, t) implies m.vertices.contains_key(
        s,
    ) && m.vertices.contains_key(t) by {
        let i = ids.index_of(s);
        lemma_index_of_range(ids, s);
        assert(entry_ok(entries[i], ids));
        let targets = names(entries[i].edges@);
        let k = targets.index_of(t);
        lemma_index_of_range(targets, t);
        assert(ids.contains(targets[k]));
    }
}

/// Appending a fresh vertex without edges keeps the arena well formed and
/// extends the model by exactly that vertex.
proof fn lemma_push_entry<T: Identifiable>(entries: Seq<Entry<T>>, entry: Entry<T>)
    requires
        entries_ok(entries),
        !ids_of(entries).contains(entry.id@),
        entry.payload.id() == entry.id@,
        entry.edges@.len() == 0,
    ensures
        entries_ok(entries.push(entry)),
        model_of(entries.push(entry)) == model_of(entries).add_vertex(entry.payload).0,
        model_of(entries).add_vertex(entry.payload).1 is Ok,
{
    let after = entries.push(entry);
    let ids = ids_of(entries);
    let ids2 = ids_of(after);
    assert(ids2 =~= ids.push(entry.id@));
    assert(ids2.no_duplicates());
    assert forall|k: Seq<char>| ids2.contains(k) <==> (ids.contains(k) || k == entry.id@) by {
        if ids.contains(k) {
            let j = ids.index_of(k);
            assert(ids2[j] == k);
        }
        if k == entry.id@ {
            assert(ids2[entries.len() as int] == k);
        }
    }
    assert forall|i: int| 0 <= i < after.len() implies entry_ok(#[trigger] after[i], ids2) by {
        if i < entries.len() {
            assert(after[i] == entries[i]);
            assert(entry_ok(entries[i], ids));
            let targets = names(entries[i].edges@);
            assert forall|k: int| 0 <= k < targets.len() implies ids2.contains(
                #[trigger] targets[k],
            ) by {
                assert(ids.contains(targets[k]));
            }
        }
    }
    let m = model_of(entries);
    let m2 = model_of(after);
    let expected = m.add_vertex(entry.payload).0;
    assert forall|k: Seq<char>| ids2.contains(k) implies #[trigger] m2.vertices[k]
        == expected.vertices[k] by {
        let i = ids2.index_of(k);
        lemma_index_of_range(ids2, k);
        lemma_model_at(after, i);
        if i < entries.len() {
            assert(after[i] == entries[i]);
            lemma_model_at(entries, i);
        }
    }
    assert forall|k: Seq<char>| ids2.contains(k) implies #[trigger] m2.edges[k]
        == expected.edges[k] by {
        let i = ids2.index_of(k);
        lemma_index_of_range(ids2, k);
        lemma_model_at(after, i);
        if i < entries.len() {
            assert(after[i] == entries[i]);
            lemma_model_at(entries, i);
        } else {
            assert(names(entry.edges@) =~= Seq::<Seq<char>>::empty());
        }
    }
    assert(m2.vertices =~= expected.vertices);
    assert(m2.edges =~= expected.edges);
}

/// The effect on the model of replacing the edge list of the vertex at
/// position `i`.
proof fn lemma_edges_replaced<T: Identifiable>(
    before: Seq<Entry<T>>,
    after: Seq<Entry<T>>,
    i: int,
)
    requires
        entries_ok(before),
        0 <= i < before.len(),
        same_vertices(before, after),
        forall|j: int| 0 <= j < before.len() && j != i ==> after[j] == before[j],
        forall|k: int|
            0 <= k < after[i].edges@.len() ==> ids_of(before).contains(
                #[trigger] names(after[i].edges@)[k],
            ),
    ensures
        entries_ok(after),
        model_of(after).ids == model_of(before).ids,
        model_of(after).vertices == model_of(before).vertices,
        model_of(after).edges == model_of(before).edges.insert(
            before[i].id@,
            names(after[i].edges@),
        ),
{
    let ids = ids_of(before);
    assert(ids_of(after) =~= ids) by {
        assert forall|j: int| 0 <= j < ids.len() implies ids_of(after)[j] == ids[j] by {
            assert(after[j].id == before[j].id);
        }
    }
    assert forall|j: int| 0 <= j < after.len() implies entry_ok(#[trigger] after[j], ids) by {
        assert(entry_ok(before[j], ids));
        assert(after[j].payload == before[j].payload && after[j].id == before[j].id);
    }
    assert forall|k: Seq<char>| ids.contains(k) implies #[trigger] model_of(after).vertices[k]
        == model_of(before).vertices[k] by {
        let j = ids.index_of(k);
        lemma_index_of_range(ids, k);
        assert(after[j].payload == before[j].payload);
    }
    assert(model_of(after).vertices =~= model_of(before).vertices);
    let expected = model_of(before).edges.insert(before[i].id@, names(after[i].edges@));
    assert(ids[i] == before[i].id@);
    assert forall|k: Seq<char>| ids.contains(k) implies #[trigger] model_of(after).edges[k]
        == expected[k] by {
        let j = ids.index_of(k);
        lemma_index_of_range(ids, k);
        if j != i {
            lemma_index_of_unique(ids, i);
        }
    }
    assert(model_of(after).edges =~= expected);
}

/// The effect on the model of removing the vertex at position `index`,
/// once every edge list has been cleared of edges leading to it.
proof fn lemma_vertex_removed<T: Identifiable>(
    before: Seq<Entry<T>>,
    cleaned: Seq<Entry<T>>,
    index: int,
)
    requires
        entries_ok(before),
        0 <= index < before.len(),
        same_vertices(before, cleaned),
        forall|j: int|
            0 <= j < before.len() ==> names((#[trigger] cleaned[j]).edges@) == without(
                names(before[j].edges@),
                before[index].id@,
            ),
    ensures
        entries_ok(cleaned.remove(index)),
        model_of(cleaned.remove(index)) == model_of(before).remove_vertex(before[index].id@).0,
        model_of(before).remove_vertex(before[index].id@).1 is Ok,
{
    let ids = ids_of(before);
    let gone = before[index].id@;
    let after = cleaned.remove(index);
    let ids2 = ids_of(after);
    assert(ids[index] == gone);
    lemma_index_of_unique(ids, index);
    lemma_model_at(before, index);
    assert(ids2 =~= ids.remove(index)) by {
        assert forall|a: int| 0 <= a < ids2.len() implies ids2[a] == ids.remove(index)[a] by {
            let a1 = if a < index {
                a
            } else {
                a + 1
            };
            assert(after[a] == cleaned[a1]);
            assert(cleaned[a1].id == before[a1].id);
        }
    }
    assert forall|a: int, b: int| 0 <= a < ids2.len() && 0 <= b < ids2.len() && a != b implies ids2[a]
        != ids2[b] by {
        let a1 = if a < index {
            a
        } else {
            a + 1
        };
        let b1 = if b < index {
            b
        } else {
            b + 1
        };
        assert(ids2[a] == ids[a1] && ids2[b] == ids[b1]);
    }
    assert forall|key: Seq<char>| ids2.contains(key) <==> (ids.contains(key) && key != gone) by {
        if ids2.contains(key) {
            let a = ids2.index_of(key);
            let a1 = if a < index {
                a
            } else {
                a + 1
            };
            assert(ids2[a] == ids[a1]);
        }
        if ids.contains(key) && key != gone {
            let j = ids.index_of(key);
            if j < index {
                assert(ids2[j] == key);
            } else {
                assert(ids2[j - 1] == key);
            }
        }
    }
    assert forall|a: int| 0 <= a < after.len() implies entry_ok(#[trigger] after[a], ids2) by {
        let a1 = if a < index {
            a
        } else {
            a + 1
        };
        assert(after[a] == cleaned[a1]);
        assert(entry_ok(before[a1], ids));
        assert(cleaned[a1].payload == before[a1].payload && cleaned[a1].id == before[a1].id);
        let t1 = names(before[a1].edges@);
        let t2 = names(after[a].edges@);
        lemma_without_members(t1, gone);
        assert forall|k: int| 0 <= k < t2.len() implies ids2.contains(#[trigger] t2[k]) by {
            assert(t2.contains(t2[k]));
            assert(t1.contains(t2[k]) && t2[k] != gone);
            let b = t1.index_of(t2[k]);
            assert(ids.contains(t1[b]));
        }
    }
    assert(entries_ok(after));
    let m = model_of(before);
    let m2 = model_of(after);
    let expected = m.remove_vertex(gone).0;
    assert forall|key: Seq<char>| ids2.contains(key) implies #[trigger] m2.vertices[key]
        == expected.vertices[key] by {
        let a = ids2.index_of(key);
        lemma_index_of_range(ids2, key);
        let a1 = if a < index {
            a
        } else {
            a + 1
        };
        assert(after[a] == cleaned[a1]);
        assert(cleaned[a1].payload == before[a1].payload && cleaned[a1].id == before[a1].id);
        lemma_model_at(after, a);
        lemma_model_at(before, a1);
    }
    assert(m2.vertices =~= expected.vertices);
    assert forall|key: Seq<char>| ids2.contains(key) implies #[trigger] m2.edges[key]
        == expected.edges[key] by {
        let a = ids2.index_of(key);
        lemma_index_of_range(ids2, key);
        let a1 = if a < index {
            a
        } else {
            a + 1
        };
        assert(after[a] == cleaned[a1]);
        assert(cleaned[a1].id == before[a1].id);
        lemma_model_at(after, a);
        lemma_model_at(before, a1);
    }
    assert(m2.edges =~= expected.edges);
}

impl<T: Identifiable> View for Graph<T> {
    type V = GraphView<T>;

    closed spec fn view(&self) -> GraphView<T> {
        model_of(self.entries@)
    }
}

impl<T: Identifiable> Graph<T> {
    #[verifier::type_invariant]
    spec fn inv(&self) -> bool {
        entries_ok(self.entries@)
    }

    /// Creates a graph with no vertex and no edge.
    pub fn new() -> (graph: Self)
        ensures
            graph@.ids == Seq::<Seq<char>>::empty(),
            graph@.vertices == Map::<Seq<char>, T>::empty(),
            graph@.edges == Map::<Seq<char>, Seq<Seq<char>>>::empty(),
            graph@.wf(),
    {
        let graph = Self { entries: Vec::new() };
        proof {
            assert(ids_of(graph.entries@) =~= Seq::<Seq<char>>::empty());
            assert(graph@.vertices =~= Map::<Seq<char>, T>::empty());
            assert(graph@.edges =~= Map::<Seq<char>, Seq<Seq<char>>>::empty());
            lemma_model_wf(graph.entries@);
        }
        graph
    }

    /// Position in the arena of the vertex with identifier `id`, if any.
    fn find_index(&self, id: &String) -> (found: Option<usize>)
        ensures
            match found {
                Some(i) => i < self.entries@.len() && self.entries@[i as int].id@ == id@
                    && ids_of(self.entries@).contains(id@) && ids_of(self.entries@).index_of(id@)
                    == i,
                None => !ids_of(self.entries@).contains(id@),
            },
    {
        proof {
            use_type_invariant(self);
        }
        let mut i: usize = 0;
        while i < self.entries.len()
            invariant
                i <= self.entries@.len(),
                ids_of(self.entries@).no_duplicates(),
                forall|j: int| 0 <= j < i ==> self.entries@[j].id@ != id@,
            decreases self.entries@.len() - i,
        {
            if self.entries[i].id == *id {
                proof {
                    assert(ids_of(self.entries@)[i as int] == id@);
                    lemma_index_of_unique(ids_of(self.entries@), i as int);
                }
                return Some(i);
            }
            i += 1;
        }
        proof {
            let ids = ids_of(self.entries@);
            assert forall|j: int| 0 <= j < ids.len() implies ids[j] != id@ by {
                assert(ids[j] == self.entries@[j].id@);
            }
        }
        None
    }

    /// First position in `edges` of an entry equal to `target`, if any.
    fn find_edge(edges: &Vec<String>, target: &String) -> (found: Option<usize>)
        ensures
            match found {
                Some(k) => k < edges@.len() && names(edges@)[k as int] == target@ && forall|j: int|
                    0 <= j < k ==> names(edges@)[j] != target@,
                None => !names(edges@).contains(target@),
            },
    {
        let mut k: usize = 0;
        while k < edges.len()
            invariant
                k <= edges@.len(),
                forall|j: int| 0 <= j < k ==> names(edges@)[j] != target@,
            decreases edges@.len() - k,
        {
            if edges[k] == *target {
                return Some(k);
            }
            k += 1;
        }
        None
    }

    /// Adds `vertex` under its own identifier.
    ///
    /// Fails with `DuplicateVertex`, and changes nothing, if a vertex with
    /// the same identifier is already present.
    pub fn add_vertex(&mut self, vertex: T) -> (result: Result<(), String>)
        ensures
            (final(self)@, outcome(result)) == old(self)@.add_vertex(vertex),
            result is Err ==> *final(self) == *old(self),
            final(self)@.wf(),
    {
        proof {
            use_type_invariant(&*self);
            lemma_model_wf(self.entries@);
        }
        let vertex_id = vertex.get_id();
        if self.vertex_exists(&vertex_id) {
            Err(duplicate_vertex_message(&vertex_id))
        } else {
            let entry = Entry { id: vertex_id, payload: vertex, edges: Vec::new() };
            let mut entries: Vec<Entry<T>> = Vec::new();
            core::mem::swap(&mut self.entries, &mut entries);
            proof {
                lemma_push_entry(entries@, entry);
                lemma_model_wf(entries@.push(entry));
            }
            entries.push(entry);
            core::mem::swap(&mut self.entries, &mut entries);
            Ok(())
        }
    }

    /// Adds an edge from `vertex1_id` to `vertex2_id`, whether or not
    /// there is one already.
    ///
    /// Fails with `VertexNotFound`, and changes nothing, if either
    /// endpoint is absent (the source is looked up first).
    pub fn add_edge(&mut self, vertex1_id: String, vertex2_id: String) -> (result: Result<
        (),
        String,
    >)
        ensures
            (final(self)@, outcome(result)) == old(self)@.add_edge(vertex1_id@, vertex2_id@),
            result is Err ==> *final(self) == *old(self),
            final(self)@.wf(),
    {
        proof {
            use_type_invariant(&*self);
            lemma_model_wf(self.entries@);
        }
        let source = match self.find_index(&vertex1_id) {
            Some(i) => i,
            None => {
                return Err(vertex_not_found_message(&vertex1_id));
            },
        };
        if !self.vertex_exists(&vertex2_id) {
            return Err(vertex_not_found_message(&vertex2_id));
        }
        let mut entries: Vec<Entry<T>> = Vec::new();
        core::mem::swap(&mut self.entries, &mut entries);
        let ghost before = entries@;
        entries[source].edges.push(vertex2_id);
        proof {
            let ids = ids_of(before);
            lemma_model_at(before, source as int);
            assert(entry_ok(before[source as int], ids));
            let old_names = names(before[source as int].edges@);
            let new_names = names(entries@[source as int].edges@);
            assert(new_names =~= old_names.push(vertex2_id@));
            assert forall|k: int| 0 <= k < new_names.len() implies ids.contains(
                #[trigger] new_names[k],
            ) by {
                if k < old_names.len() {
                    assert(new_names[k] == old_names[k]);
                }
            }
            lemma_edges_replaced(before, entries@, source as int);
            lemma_model_wf(entries@);
        }
        core::mem::swap(&mut self.entries, &mut entries);
        Ok(())
    }

    /// Removes an edge from `vertex1_id` to `vertex2_id`, the oldest one
    /// if there are several.
    ///
    /// Fails with `VertexNotFound` if either endpoint is absent (the source
    /// is looked up first), and with `EdgeNotFound` if there is no edge
    /// from the source to the target. Nothing changes on failure.
    pub fn remove_edge(&mut self, vertex1_id: String, vertex2_id: String) -> (result: Result<
        (),
        String,
    >)
        ensures
            (final(self)@, outcome(result)) == old(self)@.remove_edge(vertex1_id@, vertex2_id@),
            result is Err ==> *final(self) == *old(self),
            final(self)@.wf(),
    {
        proof {
            use_type_invariant(&*self);
            lemma_model_wf(self.entries@);
        }
        let source = match self.find_index(&vertex1_id) {
            Some(i) => i,
            None => {
                return Err(vertex_not_found_message(&vertex1_id));
            },
        };
        if !self.vertex_exists(&vertex2_id) {
            return Err(vertex_not_found_message(&vertex2_id));
        }
        proof {
            lemma_model_at(self.entries@, source as int);
        }
        match Self::find_edge(&self.entries[source].edges, &vertex2_id) {
            None => Err(edge_not_found_message(&vertex1_id, &vertex2_id)),
            Some(k) => {
                let mut entries: Vec<Entry<T>> = Vec::new();
                core::mem::swap(&mut self.entries, &mut entries);
                let ghost before = entries@;
                entries[source].edges.remove(k);
                proof {
                    let ids = ids_of(before);
                    assert(entry_ok(before[source as int], ids));
                    let old_names = names(before[source as int].edges@);
                    let new_names = names(entries@[source as int].edges@);
                    assert(new_names =~= old_names.remove(k as int));
                    assert(old_names.contains(vertex2_id@));
                    lemma_without_first_at(old_names, vertex2_id@, k as int);
                    assert forall|j: int| 0 <= j < new_names.len() implies ids.contains(
                        #[trigger] new_names[j],
                    ) by {
                        let j1 = if j < k {
                            j
                        } else {
                            j + 1
                        };
                        assert(new_names[j] == old_names[j1]);
                    }
                    lemma_edges_replaced(before, entries@, source as int);
                    lemma_model_wf(entries@);
                }
                core::mem::swap(&mut self.entries, &mut entries);
                Ok(())
            },
        }
    }

    /// Removes the vertex with identifier `vertex_id`, its outgoing edges,
    /// and every edge that leads to it from another vertex.
    ///
    /// Fails with `VertexNotFound`, and changes nothing, if the vertex is
    /// absent.
    pub fn remove_vertex(&mut self, vertex_id: String) -> (result: Result<(), String>)
        ensures
            (final(self)@, outcome(result)) == old(self)@.remove_vertex(vertex_id@),
            result is Err ==> *final(self) == *old(self),
            final(self)@.wf(),
    {
        proof {
            use_type_invariant(&*self);
            lemma_model_wf(self.entries@);
        }
        let index = match self.find_index(&vertex_id) {
            Some(i) => i,
            None => {
                return Err(vertex_not_found_message(&vertex_id));
            },
        };
        let mut entries: Vec<Entry<T>> = Vec::new();
        core::mem::swap(&mut self.entries, &mut entries);
        let ghost before = entries@;
        let mut j: usize = 0;
        while j < entries.len()
            invariant
                j <= entries@.len(),
                same_vertices(before, entries@),
                forall|i: int|
                    0 <= i < j ==> names((#[trigger] entries@[i]).edges@) == without(
                        names(before[i].edges@),
                        vertex_id@,
                    ),
                forall|i: int| j <= i < before.len() ==> entries@[i] == before[i],
            decreases entries@.len() - j,
        {
            let ghost current = entries@;
            let ghost old_names = names(before[j as int].edges@);
            let mut kept: Vec<String> = Vec::new();
            let mut k: usize = 0;
            while k < entries[j].edges.len()
                invariant
                    j < entries@.len(),
                    entries@ == current,
                    current[j as int] == before[j as int],
                    old_names == names(before[j as int].edges@),
                    k <= old_names.len(),
                    names(kept@) == without(old_names.take(k as int), vertex_id@),
                decreases old_names.len() - k,
            {
                proof {
                    assert(old_names.take(k + 1).drop_last() =~= old_names.take(k as int));
                    assert(old_names.take(k + 1)[k as int] == old_names[k as int]);
                }
                if !(entries[j].edges[k] == vertex_id) {
                    let ghost before_push = kept@;
                    let target = entries[j].edges[k].clone();
                    kept.push(target);
                    proof {
                        assert(names(kept@) =~= names(before_push).push(old_names[k as int]));
                    }
                }
                k += 1;
            }
            proof {
                assert(old_names.take(k as int) =~= old_names);
            }
            entries[j].edges = kept;
            proof {
                assert forall|i: int| 0 <= i < j implies names((#[trigger] entries@[i]).edges@)
                    == without(names(before[i].edges@), vertex_id@) by {
                    assert(entries@[i] == current[i]);
                }
            }
            j += 1;
        }
        proof {
            lemma_vertex_removed(before, entries@, index as int);
            lemma_model_wf(entries@.remove(index as int));
        }
        entries.remove(index);
        core::mem::swap(&mut self.entries, &mut entries);
        Ok(())
    }

    /// Tells whether a vertex with identifier `id` is present.
    pub fn vertex_exists(&self, id: &String) -> (exists: bool)
        ensures
            exists == self@.has_vertex(id@),
    {
        self.find_index(id).is_some()
    }

    /// Succeeds if a vertex with identifier `id` is present, and fails with
    /// `VertexNotFound` otherwise.
    pub fn vertex_exists_or_err(&self, id: &String) -> (result: Result<(), String>)
        ensures
            match result {
                Ok(_) => self@.has_vertex(id@),
                Err(msg) => !self@.has_vertex(id@) && msg@ == vertex_not_found(id@),
            },
    {
        if self.vertex_exists(id) {
            Ok(())
        } else {
            Err(vertex_not_found_message(id))
        }
    }

    /// Looks up the vertex with identifier `id`.
    pub fn get_vertex_ref(&self, id: &str) -> (found: Option<&T>)
        ensures
            match found {
                Some(vertex) => self@.has_vertex(id@) && *vertex == self@.vertices[id@],
                None => !self@.has_vertex(id@),
            },
    {
        proof {
            use_type_invariant(self);
        }
        let key = String::from_str(id);
        match self.find_index(&key) {
            Some(i) => {
                proof {
                    lemma_model_at(self.entries@, i as int);
                }
                Some(&self.entries[i].payload)
            },
            None => None,
        }
    }

    /// Looks up the vertex with identifier `id`, and fails with a message
    /// that names the identifier if there is none.
    pub fn get_vertex_ref_or_err(&self, id: &str) -> (result: Result<&T, String>)
        ensures
            match result {
                Ok(vertex) => self@.has_vertex(id@) && *vertex == self@.vertices[id@],
                Err(msg) => !self@.has_vertex(id@) && msg@ == no_vertex_with_id(id@),
            },
    {
        match self.get_vertex_ref(id) {
            Some(vertex) => Ok(vertex),
            None => Err(String::from_str("Vertex with id ").concat(id).concat(" does not exists")),
        }
    }

    /// Returns the identifiers of the vertices, oldest first.
    pub fn vertex_ids(&self) -> (ids: Vec<String>)
        ensures
            names(ids@) == self@.ids,
    {
        let mut ids: Vec<String> = Vec::new();
        let mut i: usize = 0;
        while i < self.entries.len()
            invariant
                i <= self.entries@.len(),
                ids@.len() == i,
                forall|j: int| 0 <= j < i ==> (#[trigger] ids@[j])@ == self.entries@[j].id@,
            decreases self.entries@.len() - i,
        {
            ids.push(self.entries[i].id.clone());
            i += 1;
        }
        proof {
            assert(names(ids@) =~= self@.ids);
        }
        ids
    }

    /// Returns the identifiers of the vertices that the edges of the
    /// vertex `id` lead to, one per edge and oldest first; or `None` if
    /// there is no such vertex.
    pub fn neighbors(&self, id: &String) -> (found: Option<Vec<String>>)
        ensures
            match found {
                Some(list) => self@.has_vertex(id@) && names(list@) == self@.edges[id@],
                None => !self@.has_vertex(id@),
            },
    {
        proof {
            use_type_invariant(self);
        }
        match self.find_index(id) {
            None => None,
            Some(i) => {
                let mut list: Vec<String> = Vec::new();
                let mut k: usize = 0;
                while k < self.entries[i].edges.len()
                    invariant
                        i < self.entries@.len(),
                        k <= self.entries@[i as int].edges@.len(),
                        list@.len() == k,
                        forall|j: int|
                            0 <= j < k ==> (#[trigger] list@[j])@
                                == self.entries@[i as int].edges@[j]@,
                    decreases self.entries@[i as int].edges@.len() - k,
                {
                    list.push(self.entries[i].edges[k].clone());
                    k += 1;
                }
                proof {
                    lemma_model_at(self.entries@, i as int);
                    assert(names(list@) =~= names(self.entries@[i as int].edges@));
                }
                Some(list)
            },
        }
    }
}

} // verus!
