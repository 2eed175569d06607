use algorithms::graph::identifiable::Identifiable;
use algorithms::graph::index_search::shortest_index_path;
use algorithms::graph::oriented_weighted_graph::OrientedWeightedGraph;

#[derive(PartialEq, Clone, Debug)]
struct City {
    pub name: String,
}

impl Identifiable for City {
    fn get_id(&self) -> String {
        self.name.clone()
    }
}

fn city(name: &str) -> City {
    City { name: name.to_string() }
}

fn graph_of(names: &[&str], edges: &[(&str, &str, u32)]) -> OrientedWeightedGraph<City> {
    let mut graph: OrientedWeightedGraph<City> = OrientedWeightedGraph::new();
    for name in names {
        assert_eq!(graph.add_vertex(city(name)), Ok(()));
    }
    for (source, target, weight) in edges {
        assert_eq!(graph.add_edge(source.to_string(), target.to_string(), *weight), Ok(()));
    }
    graph
}

fn path(names: &[&str]) -> Result<Vec<String>, String> {
    Ok(names.iter().map(|name| name.to_string()).collect())
}

#[test]
fn oriented_weighted_graph_test_new() {
    let graph: OrientedWeightedGraph<City> = OrientedWeightedGraph::new();

    assert!(graph.vertex_ids().is_empty());
    assert_eq!(graph.neighbors(&"Tokio".to_string()), None);
}

#[test]
fn oriented_weighted_graph_test_add_vertex() -> Result<(), String> {
    let mut graph: OrientedWeightedGraph<City> = OrientedWeightedGraph::new();

    let tokio = City { name: "Tokio".to_string() };

    // Adding a city should work
    let mut result = graph.add_vertex(tokio.clone());
    assert_eq!(result, Ok(()));
    assert_eq!(graph.get_vertex_ref("Tokio"), Some(&tokio));

    // Adding the same city should Err
    result = graph.add_vertex(tokio);
    assert_eq!(result, Err("Vertex Tokio already exists".to_string()));

    Ok(())
}

#[test]
fn oriented_weighted_graph_test_add_edge() -> Result<(), String> {
    let mut graph: OrientedWeightedGraph<City> = OrientedWeightedGraph::new();

    // Add cities
    let tokio = City { name: "Tokio".to_string() };
    let vancouver = City { name: "Vancouver".to_string() };
    let _ = graph.add_vertex(tokio.clone())?;
    let _ = graph.add_vertex(vancouver.clone())?;

    // Adding the edge should work
    let mut result = graph.add_edge(tokio.name.clone(), vancouver.name.clone(), 10);
    assert_eq!(result, Ok(()));
    assert_eq!(graph.edge_weight(&tokio.name, &vancouver.name), Some(10));

    // Adding an edge with an absent city should Err
    result = graph.add_edge(tokio.name.clone(), "Montreal".to_string(), 10);
    assert_eq!(result, Err("Vertex Montreal does not exist".to_string()));

    // Adding an existing edge should Err
    result = graph.add_edge(tokio.name.clone(), vancouver.name.clone(), 10);
    assert_eq!(
        result,
        Err("Edge between from vertex Tokio to vertex Vancouver already exists".to_string())
    );

    Ok(())
}

#[test]
fn test_shortest_path() -> Result<(), String> {
    let mut graph: OrientedWeightedGraph<City> = OrientedWeightedGraph::new();

    // Add cities
    let a = City { name: "a".to_string() };
    let b = City { name: "b".to_string() };
    let c = City { name: "c".to_string() };
    let d = City { name: "d".to_string() };
    let e = City { name: "e".to_string() };
    let f = City { name: "f".to_string() };

    graph.add_vertex(a.clone())?;
    graph.add_vertex(b.clone())?;
    graph.add_vertex(c.clone())?;
    graph.add_vertex(d.clone())?;
    graph.add_vertex(e.clone())?;
    graph.add_vertex(f.clone())?;

    graph.add_edge("a".to_string(), "b".to_string(), 4)?;
    graph.add_edge("a".to_string(), "c".to_string(), 2)?;
    graph.add_edge("b".to_string(), "e".to_string(), 3)?;
    graph.add_edge("c".to_string(), "d".to_string(), 2)?;
    graph.add_edge("c".to_string(), "f".to_string(), 4)?;
    graph.add_edge("d".to_string(), "e".to_string(), 3)?;
    graph.add_edge("d".to_string(), "f".to_string(), 1)?;
    graph.add_edge("f".to_string(), "e".to_string(), 1)?;

    // Validate a simple path
    assert_eq!(
        graph.shortest_path("a".to_string(), "b".to_string()),
        Ok(vec!["a".to_string(), "b".to_string(),])
    );

    // Validate complex path
    assert_eq!(
        graph.shortest_path("a".to_string(), "e".to_string()),
        Ok(vec![
            "a".to_string(),
            "c".to_string(),
            "d".to_string(),
            "f".to_string(),
            "e".to_string(),
        ])
    );

    // Validate no path
    assert_eq!(graph.shortest_path("b".to_string(), "a".to_string()), Ok(vec![]));

    Ok(())
}

#[test]
fn added_vertex_exists_and_cannot_be_added_twice() {
    let mut graph: OrientedWeightedGraph<City> = OrientedWeightedGraph::new();
    assert!(!graph.vertex_exists(&"Oslo".to_string()));
    assert_eq!(graph.add_vertex(city("Oslo")), Ok(()));
    assert!(graph.vertex_exists(&"Oslo".to_string()));
    assert_eq!(graph.vertex_exists_or_err(&"Oslo".to_string()), Ok(()));
    assert_eq!(graph.add_vertex(city("Oslo")), Err("Vertex Oslo already exists".to_string()));
    assert_eq!(graph.vertex_ids(), vec!["Oslo".to_string()]);
    assert_eq!(
        graph.vertex_exists_or_err(&"Rome".to_string()),
        Err("Vertex Rome does not exist".to_string())
    );
}

#[test]
fn removing_a_vertex_removes_its_edges() {
    let mut graph = graph_of(
        &["a", "b", "c"],
        &[("a", "b", 1), ("b", "a", 2), ("b", "c", 3), ("c", "b", 4), ("a", "c", 5)],
    );
    assert_eq!(graph.remove_vertex("b".to_string()), Ok(()));
    assert!(!graph.vertex_exists(&"b".to_string()));
    assert_eq!(graph.get_vertex_ref("b"), None);
    assert_eq!(graph.vertex_ids(), vec!["a".to_string(), "c".to_string()]);
    assert_eq!(graph.neighbors(&"b".to_string()), None);
    assert_eq!(graph.neighbors(&"a".to_string()), Some(vec![("c".to_string(), 5)]));
    assert_eq!(graph.neighbors(&"c".to_string()), Some(vec![]));
    assert_eq!(graph.edge_weight(&"a".to_string(), &"b".to_string()), None);
    assert_eq!(graph.edge_weight(&"a".to_string(), &"c".to_string()), Some(5));
}

#[test]
fn removing_an_absent_vertex_changes_nothing() {
    let mut graph = graph_of(&["a", "b"], &[("a", "b", 1)]);
    assert_eq!(graph.remove_vertex("z".to_string()), Err("Vertex z does not exist".to_string()));
    assert_eq!(graph.vertex_ids(), vec!["a".to_string(), "b".to_string()]);
    assert_eq!(graph.edge_weight(&"a".to_string(), &"b".to_string()), Some(1));
}

#[test]
fn adding_an_edge_twice_keeps_the_first_weight() {
    let mut graph = graph_of(&["a", "b"], &[("a", "b", 7)]);
    assert_eq!(
        graph.add_edge("a".to_string(), "b".to_string(), 9),
        Err("Edge between from vertex a to vertex b already exists".to_string())
    );
    assert_eq!(graph.edge_weight(&"a".to_string(), &"b".to_string()), Some(7));
    assert_eq!(graph.neighbors(&"a".to_string()), Some(vec![("b".to_string(), 7)]));
    // The edge is directed: nothing leads back.
    assert_eq!(graph.edge_weight(&"b".to_string(), &"a".to_string()), None);
}

#[test]
fn add_edge_reports_the_missing_source_first() {
    let mut graph = graph_of(&["a"], &[]);
    assert_eq!(
        graph.add_edge("x".to_string(), "y".to_string(), 1),
        Err("Vertex x does not exist".to_string())
    );
    assert_eq!(
        graph.add_edge("a".to_string(), "y".to_string(), 1),
        Err("Vertex y does not exist".to_string())
    );
}

#[test]
fn remove_edge_reports_each_error() {
    let mut graph = graph_of(&["a", "b"], &[("a", "b", 3)]);
    assert_eq!(
        graph.remove_edge("x".to_string(), "b".to_string()),
        Err("Vertex x does not exist".to_string())
    );
    assert_eq!(
        graph.remove_edge("a".to_string(), "y".to_string()),
        Err("Vertex y does not exist".to_string())
    );
    assert_eq!(
        graph.remove_edge("b".to_string(), "a".to_string()),
        Err("Edge from vertex b to vertex a does not exist".to_string())
    );
    assert_eq!(graph.remove_edge("a".to_string(), "b".to_string()), Ok(()));
    assert_eq!(graph.edge_weight(&"a".to_string(), &"b".to_string()), None);
    assert_eq!(
        graph.remove_edge("a".to_string(), "b".to_string()),
        Err("Edge from vertex a to vertex b does not exist".to_string())
    );
    // The edge can be added again once it is gone.
    assert_eq!(graph.add_edge("a".to_string(), "b".to_string(), 4), Ok(()));
    assert_eq!(graph.edge_weight(&"a".to_string(), &"b".to_string()), Some(4));
}

#[test]
fn shortest_path_prefers_the_lighter_detour() {
    let graph = graph_of(&["a", "b", "c"], &[("a", "b", 4), ("a", "c", 2), ("c", "b", 1)]);
    assert_eq!(graph.shortest_path("a".to_string(), "b".to_string()), path(&["a", "c", "b"]));
}

#[test]
fn shortest_path_between_disconnected_vertices_is_empty() {
    let graph = graph_of(&["x", "y", "z"], &[("y", "x", 1), ("x", "z", 1)]);
    assert_eq!(graph.shortest_path("x".to_string(), "y".to_string()), Ok(vec![]));
}

#[test]
fn shortest_path_fails_on_an_absent_vertex() {
    let graph = graph_of(&["a", "b"], &[("a", "b", 1)]);
    assert_eq!(
        graph.shortest_path("a".to_string(), "q".to_string()),
        Err("Vertex q does not exist".to_string())
    );
    assert_eq!(
        graph.shortest_path("q".to_string(), "a".to_string()),
        Err("Vertex q does not exist".to_string())
    );
    assert_eq!(
        graph.shortest_path("p".to_string(), "q".to_string()),
        Err("Vertex p does not exist".to_string())
    );
}

#[test]
fn shortest_path_to_itself_is_the_vertex_alone() {
    let graph = graph_of(&["a", "b"], &[("a", "b", 1), ("b", "a", 1), ("a", "a", 5)]);
    assert_eq!(graph.shortest_path("a".to_string(), "a".to_string()), path(&["a"]));
    assert_eq!(graph.shortest_path("b".to_string(), "b".to_string()), path(&["b"]));
}

#[test]
fn shortest_path_gives_the_same_answer_twice() {
    // Two routes of the same weight lead from a to d.
    let graph = graph_of(
        &["a", "b", "c", "d"],
        &[("a", "c", 1), ("a", "b", 1), ("b", "d", 1), ("c", "d", 1)],
    );
    let first = graph.shortest_path("a".to_string(), "d".to_string());
    let second = graph.shortest_path("a".to_string(), "d".to_string());
    assert_eq!(first, second);
    // Among equally distant vertices the oldest is settled first.
    assert_eq!(first, path(&["a", "b", "d"]));
}

#[test]
fn shortest_path_handles_weights_of_zero_and_the_largest_weight() {
    let graph = graph_of(
        &["a", "b", "c", "d"],
        &[("a", "b", u32::MAX), ("b", "c", u32::MAX), ("a", "d", 0), ("d", "c", u32::MAX)],
    );
    assert_eq!(graph.shortest_path("a".to_string(), "c".to_string()), path(&["a", "d", "c"]));
    assert_eq!(graph.shortest_path("a".to_string(), "d".to_string()), path(&["a", "d"]));
}

#[test]
fn shortest_path_ignores_a_stale_entry_of_the_frontier() {
    // c is first discovered at distance 10, then improved to 3 through b.
    let graph = graph_of(
        &["a", "b", "c", "d"],
        &[("a", "c", 10), ("a", "b", 1), ("b", "c", 2), ("c", "d", 1)],
    );
    assert_eq!(
        graph.shortest_path("a".to_string(), "d".to_string()),
        path(&["a", "b", "c", "d"])
    );
}

#[test]
fn shortest_index_path_on_a_table() {
    let rows: Vec<Vec<(usize, u32)>> = vec![vec![(1, 4), (2, 2)], vec![], vec![(1, 1)]];
    assert_eq!(shortest_index_path(&rows, 0, 1), vec![0, 2, 1]);
    assert_eq!(shortest_index_path(&rows, 1, 0), Vec::<usize>::new());
    assert_eq!(shortest_index_path(&rows, 2, 2), vec![2]);
}
