use algorithms::graph::identifiable::Identifiable;
use algorithms::graph::naive_graph::Graph;

#[derive(PartialEq, Clone, Debug)]
struct City {
    pub name: String,
}

impl Identifiable for City {
    fn get_id(&self) -> String {
        self.name.clone()
    }
}

#[test]
fn naive_graph_test_new() {
    let graph: Graph<City> = Graph::new();

    assert!(graph.vertex_ids().is_empty());
    assert_eq!(graph.neighbors(&"Tokio".to_string()), None);
}

#[test]
fn naive_graph_test_add_vertex() {
    let mut graph: Graph<City> = Graph::new();

    let tokio = City { name: "Tokio".to_string() };

    // Adding a city should work
    let mut result = graph.add_vertex(tokio.clone());

    assert_eq!(result, Ok(()));
    assert_eq!(graph.get_vertex_ref("Tokio"), Some(&tokio));

    // Adding the same city should Err
    result = graph.add_vertex(tokio);

    assert_eq!(result, Err("Vertex Tokio already exists".to_string()))
}

#[test]
fn naive_graph_test_add_edge() {
    let mut graph: Graph<City> = Graph::new();

    let tokio = City { name: "Tokio".to_string() };

    let vancouver = City { name: "Vancouver".to_string() };

    // Add cities
    let _ = graph.add_vertex(tokio.clone());
    let _ = graph.add_vertex(vancouver.clone());

    // Adding the edge should work
    let mut result = graph.add_edge(tokio.name.clone(), vancouver.name.clone());

    assert_eq!(result, Ok(()));
    assert_eq!(graph.neighbors(&tokio.name), Some(vec![vancouver.name.clone()]));

    // Adding an edge with an absent city should Err
    result = graph.add_edge(tokio.name.clone(), "Montreal".to_string());

    assert_eq!(result, Err("Vertex Montreal does not exist".to_string()))
}

#[test]
fn naive_graph_test_remove_edge() {
    let mut graph: Graph<City> = Graph::new();

    // Add cities
    let tokio = City { name: "Tokio".to_string() };
    let vancouver = City { name: "Vancouver".to_string() };
    let _ = graph.add_vertex(tokio.clone());
    let _ = graph.add_vertex(vancouver.clone());
    let _ = graph.add_edge(tokio.name.clone(), vancouver.name.clone());

    // Should return error if vertex does not exists
    assert_eq!(
        graph.remove_edge(tokio.name.clone(), "Montreal".to_string()),
        Err("Vertex Montreal does not exist".to_string())
    );

    // Should return error if edge does not exists
    assert_eq!(
        graph.remove_edge(vancouver.name.clone(), tokio.name.clone()),
        Err("Edge from vertex Vancouver to vertex Tokio does not exist".to_string())
    );

    // Should remove edge
    assert_eq!(graph.remove_edge(tokio.name.clone(), vancouver.name.clone()), Ok(()));
    assert!(graph.neighbors(&tokio.name).unwrap().is_empty())
}

#[test]
fn naive_graph_test_remove_vertex() {
    let mut graph: Graph<City> = Graph::new();

    // Add cities
    let tokio = City { name: "Tokio".to_string() };
    let paris = City { name: "Paris".to_string() };
    let vancouver = City { name: "Vancouver".to_string() };
    let _ = graph.add_vertex(tokio.clone());
    let _ = graph.add_vertex(vancouver.clone());
    let _ = graph.add_edge(tokio.name.clone(), vancouver.name.clone());
    let _ = graph.add_edge(tokio.name.clone(), paris.name.clone());
    let _ = graph.add_edge(vancouver.name.clone(), tokio.name.clone());

    // Should return error if vertex does not exists
    assert_eq!(
        graph.remove_vertex("Montreal".to_string()),
        Err("Vertex Montreal does not exist".to_string())
    );

    // Should remove vertex and associated edges
    assert_eq!(graph.remove_vertex(tokio.name.clone()), Ok(()));
    assert_eq!(graph.get_vertex_ref(&tokio.name), None);
    assert_eq!(graph.neighbors(&tokio.name), None);
    assert!(graph.neighbors(&vancouver.name).unwrap().is_empty());
}

#[test]
fn naive_graph_keeps_repeated_edges_and_removes_the_oldest_first() {
    let mut graph: Graph<City> = Graph::new();
    for name in ["a", "b", "c"] {
        assert_eq!(graph.add_vertex(City { name: name.to_string() }), Ok(()));
    }
    for target in ["b", "c", "b", "a"] {
        assert_eq!(graph.add_edge("a".to_string(), target.to_string()), Ok(()));
    }
    assert_eq!(
        graph.neighbors(&"a".to_string()),
        Some(vec!["b".to_string(), "c".to_string(), "b".to_string(), "a".to_string()])
    );
    assert_eq!(graph.remove_edge("a".to_string(), "b".to_string()), Ok(()));
    assert_eq!(
        graph.neighbors(&"a".to_string()),
        Some(vec!["c".to_string(), "b".to_string(), "a".to_string()])
    );
    assert_eq!(graph.add_edge("c".to_string(), "b".to_string()), Ok(()));
    assert_eq!(graph.add_edge("c".to_string(), "b".to_string()), Ok(()));
    assert_eq!(graph.remove_vertex("b".to_string()), Ok(()));
    assert_eq!(graph.vertex_ids(), vec!["a".to_string(), "c".to_string()]);
    assert_eq!(graph.neighbors(&"a".to_string()), Some(vec!["c".to_string(), "a".to_string()]));
    assert_eq!(graph.neighbors(&"c".to_string()), Some(vec![]));
}

#[test]
fn naive_graph_looks_vertices_up() {
    let mut graph: Graph<City> = Graph::new();
    let oslo = City { name: "Oslo".to_string() };
    assert_eq!(graph.add_vertex(oslo.clone()), Ok(()));
    assert!(graph.vertex_exists(&"Oslo".to_string()));
    assert!(!graph.vertex_exists(&"Rome".to_string()));
    assert_eq!(graph.vertex_exists_or_err(&"Oslo".to_string()), Ok(()));
    assert_eq!(
        graph.vertex_exists_or_err(&"Rome".to_string()),
        Err("Vertex Rome does not exist".to_string())
    );
    assert_eq!(graph.get_vertex_ref_or_err("Oslo"), Ok(&oslo));
    assert_eq!(
        graph.get_vertex_ref_or_err("Rome"),
        Err("Vertex with id Rome does not exists".to_string())
    );
}
