use algorithms::graph::frontier::{Frontier, VertexByDistance};
use algorithms::graph::identifiable::Identifiable;
use algorithms::graph::index_search::shortest_index_path;
use algorithms::graph::oriented_weighted_graph::OrientedWeightedGraph;
use std::cmp::Ordering;

#[derive(PartialEq, Clone, Debug)]
struct Town {
    name: String,
}

impl Identifiable for Town {
    fn get_id(&self) -> String {
        self.name.clone()
    }
}

#[test]
fn the_frontier_hands_out_the_least_entry_first() {
    let mut frontier = Frontier::new();
    assert_eq!(frontier.pop(), None);

    for entry in [(7, 1), (3, 5), (9, 0), (3, 2), (0, 8), (7, 1), (u128::MAX, 4)] {
        frontier.push(entry);
    }

    let mut order = Vec::new();
    while let Some(entry) = frontier.pop() {
        order.push(entry);
    }
    assert_eq!(
        order,
        vec![(0, 8), (3, 2), (3, 5), (7, 1), (7, 1), (9, 0), (u128::MAX, 4)]
    );
    assert_eq!(frontier.pop(), None);
}

#[test]
fn the_frontier_can_be_filled_again_after_it_ran_empty() {
    let mut frontier = Frontier::new();
    frontier.push((5, 0));
    assert_eq!(frontier.pop(), Some((5, 0)));
    assert_eq!(frontier.pop(), None);
    frontier.push((2, 1));
    frontier.push((1, 2));
    assert_eq!(frontier.pop(), Some((1, 2)));
    frontier.push((0, 3));
    assert_eq!(frontier.pop(), Some((0, 3)));
    assert_eq!(frontier.pop(), Some((2, 1)));
    assert_eq!(frontier.pop(), None);
}

#[test]
fn the_frontier_sorts_many_entries() {
    let mut frontier = Frontier::new();
    let mut expected = Vec::new();
    let mut seed: u128 = 12345;
    for vertex in 0..2000usize {
        seed = (seed * 1103515245 + 12345) % 2147483648;
        let entry = (seed % 97, vertex % 13);
        frontier.push(entry);
        expected.push(entry);
    }
    expected.sort();

    let mut order = Vec::new();
    while let Some(entry) = frontier.pop() {
        order.push(entry);
    }
    assert_eq!(order, expected);
}

#[test]
fn a_nearer_vertex_has_the_greater_priority() {
    let near = VertexByDistance { vertex: 9, distance: 1 };
    let far = VertexByDistance { vertex: 0, distance: 2 };
    let twin = VertexByDistance { vertex: 3, distance: 1 };

    assert_eq!(near.partial_cmp(&far), Some(Ordering::Greater));
    assert_eq!(far.partial_cmp(&near), Some(Ordering::Less));
    assert_eq!(near.partial_cmp(&near), Some(Ordering::Equal));
    // Among equal distances the lower vertex number comes first.
    assert_eq!(twin.partial_cmp(&near), Some(Ordering::Greater));
    assert_eq!(near.partial_cmp(&twin), Some(Ordering::Less));
    assert!(near > far && far < near && twin > near);
    assert!(near == near && near != twin && near != far);
}

#[test]
fn the_search_finds_the_shortest_path_in_a_grid() {
    // A grid of 30 by 30 vertices; each is joined to its right and its
    // lower neighbour, at a weight that depends on the position.
    let side = 30usize;
    let weight = |from: usize, to: usize| -> u32 { ((from * 7 + to * 13) % 10 + 1) as u32 };
    let mut rows: Vec<Vec<(usize, u32)>> = Vec::new();
    for v in 0..side * side {
        let mut row = Vec::new();
        if v % side + 1 < side {
            row.push((v + 1, weight(v, v + 1)));
        }
        if v / side + 1 < side {
            row.push((v + side, weight(v, v + side)));
        }
        rows.push(row);
    }

    // The least total weights, by the order of the grid.
    let mut best = vec![0u64; side * side];
    for v in 1..side * side {
        let mut least = u64::MAX;
        if v % side > 0 {
            least = least.min(best[v - 1] + weight(v - 1, v) as u64);
        }
        if v / side > 0 {
            least = least.min(best[v - side] + weight(v - side, v) as u64);
        }
        best[v] = least;
    }

    let target = side * side - 1;
    let path = shortest_index_path(&rows, 0, target);
    assert_eq!(path.first(), Some(&0));
    assert_eq!(path.last(), Some(&target));
    assert_eq!(path.len(), 2 * side - 1);
    let mut total = 0u64;
    for step in path.windows(2) {
        let edge = rows[step[0]].iter().find(|edge| edge.0 == step[1]);
        total += edge.expect("each step follows an edge").1 as u64;
    }
    assert_eq!(total, best[target]);

    // Nothing leads back to the first vertex.
    assert_eq!(shortest_index_path(&rows, target, 0), Vec::<usize>::new());
}

#[test]
fn equally_short_paths_are_settled_by_the_age_of_the_vertices() {
    let mut graph: OrientedWeightedGraph<Town> = OrientedWeightedGraph::new();
    for name in ["start", "upper", "lower", "end"] {
        graph.add_vertex(Town { name: name.to_string() }).unwrap();
    }
    graph.add_edge("start".to_string(), "lower".to_string(), 1).unwrap();
    graph.add_edge("start".to_string(), "upper".to_string(), 1).unwrap();
    graph.add_edge("lower".to_string(), "end".to_string(), 1).unwrap();
    graph.add_edge("upper".to_string(), "end".to_string(), 1).unwrap();

    // `upper` is the older of the two vertices between, so it is settled
    // first and is the one from which `end` is reached.
    let path = graph.shortest_path("start".to_string(), "end".to_string());
    let expected: Vec<String> = ["start", "upper", "end"].iter().map(|s| s.to_string()).collect();
    assert_eq!(path, Ok(expected.clone()));
    assert_eq!(graph.shortest_path("start".to_string(), "end".to_string()), Ok(expected));
}
