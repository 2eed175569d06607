use algorithms::graph::identifiable::Identifiable;
use algorithms::graph::oriented_graph::OrientedGraph;

#[derive(PartialEq, Clone, Debug)]
struct City {
    pub name: String,
}

impl Identifiable for City {
    fn get_id(&self) -> String {
        self.name.clone()
    }
}

#[test]
fn oriented_graph_test_new() {
    let graph: OrientedGraph<City> = OrientedGraph::new();

    assert!(graph.vertex_ids().is_empty());
    assert_eq!(graph.neighbors(&"Tokio".to_string()), None);
}

#[test]
fn oriented_graph_test_add_vertex() -> Result<(), String> {
    let mut graph: OrientedGraph<City> = OrientedGraph::new();

    let tokio = City { name: "Tokio".to_string() };

    // Adding a city should work
    let mut result = graph.add_vertex(tokio.clone());
    assert_eq!(result, Ok(()));
    assert_eq!(graph.get_vertex_ref("Tokio"), Some(&tokio));

    // Adding the same city should Err
    result = graph.add_vertex(tokio);
    assert_eq!(result, Err("Vertex Tokio already exists".to_string()));

    Ok(())
}

#[test]
fn oriented_graph_test_add_edge() -> Result<(), String> {
    let mut graph: OrientedGraph<City> = OrientedGraph::new();

    // Add cities
    let tokio = City { name: "Tokio".to_string() };
    let vancouver = City { name: "Vancouver".to_string() };
    let _ = graph.add_vertex(tokio.clone())?;
    let _ = graph.add_vertex(vancouver.clone())?;

    // Adding the edge should work
    let mut result = graph.add_edge(tokio.name.clone(), vancouver.name.clone());
    assert_eq!(result, Ok(()));
    assert_eq!(graph.neighbors(&tokio.name).unwrap().contains(&vancouver.name), true);
    assert_eq!(graph.edge_exists(&tokio.name, &vancouver.name), true);

    // Adding an edge with an absent city should Err
    result = graph.add_edge(tokio.name.clone(), "Montreal".to_string());
    assert_eq!(result, Err("Vertex Montreal does not exist".to_string()));

    // Adding an existing edge should Err
    result = graph.add_edge(tokio.name.clone(), vancouver.name.clone());
    assert_eq!(
        result,
        Err("Edge between from vertex Tokio to vertex Vancouver already exists".to_string())
    );

    Ok(())
}

#[test]
fn oriented_graph_test_remove_edge() -> Result<(), String> {
    let mut graph: OrientedGraph<City> = OrientedGraph::new();

    // Add cities
    let tokio = City { name: "Tokio".to_string() };
    let vancouver = City { name: "Vancouver".to_string() };
    let _ = graph.add_vertex(tokio.clone())?;
    let _ = graph.add_vertex(vancouver.clone())?;
    let _ = graph.add_edge(tokio.name.clone(), vancouver.name.clone())?;

    // Should return error if vertex does not exists
    assert_eq!(
        graph.remove_edge(tokio.name.clone(), "Montreal".to_string()),
        Err("Vertex Montreal does not exist".to_string())
    );

    // Should return error if edge does not exists
    assert_eq!(
        graph.remove_edge(vancouver.name.clone(), tokio.name.clone()),
        Err("Edge from vertex Vancouver to vertex Tokio does not exist".to_string())
    );

    // Should remove edge
    assert_eq!(graph.remove_edge(tokio.name.clone(), vancouver.name.clone()), Ok(()));
    assert!(graph.neighbors(&tokio.name).unwrap().is_empty());

    Ok(())
}

#[test]
fn oriented_graph_test_remove_vertex() -> Result<(), String> {
    let mut graph: OrientedGraph<City> = OrientedGraph::new();

    // Add cities
    let tokio = City { name: "Tokio".to_string() };
    let vancouver = City { name: "Vancouver".to_string() };
    let _ = graph.add_vertex(tokio.clone())?;
    let _ = graph.add_vertex(vancouver.clone())?;

    // Add edges
    let _ = graph.add_edge(tokio.name.clone(), vancouver.name.clone())?;
    let _ = graph.add_edge(vancouver.name.clone(), tokio.name.clone())?;

    // Should return error if vertex does not exists
    assert_eq!(
        graph.remove_vertex("Montreal".to_string()),
        Err("Vertex Montreal does not exist".to_string())
    );

    // Should remove vertex and associated edges
    assert_eq!(graph.remove_vertex(tokio.name.clone()), Ok(()));
    assert_eq!(graph.get_vertex_ref(&tokio.name), None);
    assert_eq!(graph.neighbors(&tokio.name), None);
    assert!(graph.neighbors(&vancouver.name).unwrap().is_empty());

    Ok(())
}

#[test]
fn oriented_graph_tells_which_vertices_exist() {
    let mut graph: OrientedGraph<City> = OrientedGraph::new();
    assert_eq!(graph.add_vertex(City { name: "Oslo".to_string() }), Ok(()));
    assert!(graph.vertex_exists(&"Oslo".to_string()));
    assert!(!graph.vertex_exists(&"Rome".to_string()));
    assert_eq!(graph.vertex_exists_or_err(&"Oslo".to_string()), Ok(()));
    assert_eq!(
        graph.vertex_exists_or_err(&"Rome".to_string()),
        Err("Vertex Rome does not exist".to_string())
    );
    assert_eq!(graph.vertex_ids(), vec!["Oslo".to_string()]);
}

fn three_cities() -> Result<OrientedGraph<City>, String> {
    let mut graph: OrientedGraph<City> = OrientedGraph::new();

    graph.add_vertex(City { name: "Tokio".to_string() })?;
    graph.add_vertex(City { name: "Vancouver".to_string() })?;
    graph.add_vertex(City { name: "Paris".to_string() })?;

    graph.add_edge("Tokio".to_string(), "Vancouver".to_string())?;
    graph.add_edge("Tokio".to_string(), "Paris".to_string())?;
    graph.add_edge("Vancouver".to_string(), "Tokio".to_string())?;

    Ok(graph)
}

fn diamond() -> Result<OrientedGraph<City>, String> {
    let mut graph: OrientedGraph<City> = OrientedGraph::new();

    for name in ["a", "b", "c", "d", "e", "lonely"] {
        graph.add_vertex(City { name: name.to_string() })?;
    }
    graph.add_edge("a".to_string(), "b".to_string())?;
    graph.add_edge("a".to_string(), "c".to_string())?;
    graph.add_edge("b".to_string(), "d".to_string())?;
    graph.add_edge("c".to_string(), "d".to_string())?;
    graph.add_edge("d".to_string(), "e".to_string())?;
    graph.add_edge("e".to_string(), "a".to_string())?;

    Ok(graph)
}

fn strings(names: &[&str]) -> Vec<String> {
    names.iter().map(|name| name.to_string()).collect()
}

#[test]
fn test_traverse_depth_first_recursive() -> Result<(), String> {
    let graph = three_cities()?;

    // Should return error if node is node in the graph
    assert_eq!(
        graph.traverse_depth_first_recursive("Montreal".to_string()),
        Err("Vertex Montreal does not exist".to_string())
    );

    // Should return the list of explored nodes
    let result = graph.traverse_depth_first_recursive("Tokio".to_string());

    println!("Result {:#?}", result);

    assert_eq!(result, Ok(strings(&["Tokio", "Vancouver", "Paris"])));

    Ok(())
}

#[test]
fn test_traverse_depth_first_iterative() -> Result<(), String> {
    let graph = three_cities()?;

    // Should return error if node is node in the graph
    assert_eq!(
        graph.traverse_depth_first_iterative("Montreal".to_string()),
        Err("Vertex Montreal does not exist".to_string())
    );

    // Should return the list of explored nodes
    let result = graph.traverse_depth_first_iterative("Tokio".to_string());

    println!("Result {:#?}", result);

    assert_eq!(result, Ok(strings(&["Tokio", "Paris", "Vancouver"])));

    Ok(())
}

#[test]
fn test_traverse_breadth_first() -> Result<(), String> {
    let graph = three_cities()?;

    // Should return error if node is node in the graph
    assert_eq!(
        graph.traverse_breadth_first("Montreal".to_string()),
        Err("Vertex Montreal does not exist".to_string())
    );

    // Should return the list of explored nodes
    let result = graph.traverse_breadth_first("Tokio".to_string());

    println!("Result {:#?}", result);

    assert_eq!(result, Ok(strings(&["Tokio", "Vancouver", "Paris"])));

    Ok(())
}

#[test]
fn recursive_traversal_lists_each_reachable_vertex_once() -> Result<(), String> {
    let graph = diamond()?;

    assert_eq!(
        graph.traverse_depth_first_recursive("a".to_string()),
        Ok(strings(&["a", "b", "d", "e", "c"]))
    );
    assert_eq!(
        graph.traverse_depth_first_recursive("d".to_string()),
        Ok(strings(&["d", "e", "a", "b", "c"]))
    );
    assert_eq!(
        graph.traverse_depth_first_recursive("lonely".to_string()),
        Ok(strings(&["lonely"]))
    );

    Ok(())
}

#[test]
fn iterative_traversals_list_a_vertex_each_time_it_is_handled() -> Result<(), String> {
    let graph = diamond()?;

    // `d` is found from `b` and from `c` before it is handled.
    assert_eq!(
        graph.traverse_depth_first_iterative("a".to_string()),
        Ok(strings(&["a", "c", "d", "e", "b"]))
    );
    assert_eq!(
        graph.traverse_breadth_first("a".to_string()),
        Ok(strings(&["a", "b", "c", "d", "d", "e", "e"]))
    );
    assert_eq!(
        graph.traverse_breadth_first("lonely".to_string()),
        Ok(strings(&["lonely"]))
    );

    Ok(())
}
