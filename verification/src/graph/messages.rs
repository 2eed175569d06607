use vstd::prelude::*;

verus! {

/// Text of the error reported when a vertex with identifier `id` is already
/// present (`DuplicateVertex`).
pub open spec fn duplicate_vertex(id: Seq<char>) -> Seq<char> {
    "Vertex "@ + id + " already exists"@
}

/// Text of the error reported when no vertex has identifier `id`
/// (`VertexNotFound`).
pub open spec fn vertex_not_found(id: Seq<char>) -> Seq<char> {
    "Vertex "@ + id + " does not exist"@
}

/// Text of the error reported when an edge from `source` to `target` is
/// already present (`DuplicateEdge`).
pub open spec fn duplicate_edge(source: Seq<char>, target: Seq<char>) -> Seq<char> {
    "Edge between from vertex "@ + source + " to vertex "@ + target + " already exists"@
}

/// Text of the error reported when there is no edge from `source` to
/// `target` (`EdgeNotFound`).
pub open spec fn edge_not_found(source: Seq<char>, target: Seq<char>) -> Seq<char> {
    "Edge from vertex "@ + source + " to vertex "@ + target + " does not exist"@
}

/// Builds the `DuplicateVertex` error text.
pub fn duplicate_vertex_message(id: &String) -> (msg: String)
    ensures
        msg@ == duplicate_vertex(id@),
{
    String::from_str("Vertex ").concat(id.as_str()).concat(" already exists")
}

/// Builds the `VertexNotFound` error text.
pub fn vertex_not_found_message(id: &String) -> (msg: String)
    ensures
        msg@ == vertex_not_found(id@),
{
    String::from_str("Vertex ").concat(id.as_str()).concat(" does not exist")
}

/// Builds the `DuplicateEdge` error text.
pub fn duplicate_edge_message(source: &String, target: &String) -> (msg: String)
    ensures
        msg@ == duplicate_edge(source@, target@),
{
    String::from_str("Edge between from vertex ").concat(source.as_str()).concat(
        " to vertex ",
    ).concat(target.as_str()).concat(" already exists")
}

/// Builds the `EdgeNotFound` error text.
pub fn edge_not_found_message(source: &String, target: &String) -> (msg: String)
    ensures
        msg@ == edge_not_found(source@, target@),
{
    String::from_str("Edge from vertex ").concat(source.as_str()).concat(" to vertex ").concat(
        target.as_str(),
    ).concat(" does not exist")
}

} // verus!
