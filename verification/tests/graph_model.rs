use graphust::layout::{
    Edge, Graph, InnerGraphPlacement, PointApproximation, RoundedPoint, SeedPoint,
};

fn names(graph: &Graph) -> Vec<String> {
    (0..graph.node_count()).map(|i| graph.node(i).name.clone()).collect()
}

fn edges(graph: &Graph) -> Vec<(usize, usize)> {
    (0..graph.edge_count()).map(|i| (graph.edge(i).from_index, graph.edge(i).to_index)).collect()
}

fn rounded(points: &[(i32, i32)]) -> Vec<RoundedPoint> {
    points.iter().map(|p| RoundedPoint { x: p.0, y: p.1 }).collect()
}

#[test]
fn inner_graph_placement_example_01() {
    let mut under_test = InnerGraphPlacement::new();
    let first = under_test.get_next_position();
    let second = under_test.get_next_position();
    let third = under_test.get_next_position();
    let fourth = under_test.get_next_position();
    assert_eq!((first.x as f32, first.y as f32), (0.0, 0.0));
    assert_eq!((second.x as f32, second.y as f32), (5.0, 0.0));
    assert_eq!((third.x as f32, third.y as f32), (10.0, 0.0));
    assert_eq!((fourth.x as f32, fourth.y as f32), (0.0, 5.0));
}

#[test]
fn nodes_are_seeded_row_by_row_three_to_a_row() {
    let mut graph = Graph::new();
    for name in ["a", "b", "c", "d", "e", "f", "g"] {
        graph.add_node(name);
    }
    let seeds: Vec<SeedPoint> = (0..7).map(|i| graph.node(i).position).collect();
    let expected: Vec<SeedPoint> = [(0, 0), (5, 0), (10, 0), (0, 5), (5, 5), (10, 5), (0, 10)]
        .iter()
        .map(|p: &(u128, u128)| SeedPoint { x: p.0, y: p.1 })
        .collect();
    assert_eq!(seeds, expected);
}

#[test]
fn adding_a_node_twice_adds_it_once() {
    let mut graph = Graph::new();
    graph.add_node("A");
    assert_eq!(graph.node_count(), 1);
    graph.add_node("A");
    assert_eq!(graph.node_count(), 1);
    graph.add_node("B");
    graph.add_node("A");
    graph.add_node("B");
    assert_eq!(names(&graph), vec!["A".to_owned(), "B".to_owned()]);
    assert_eq!(graph.node(1).position, SeedPoint { x: 5, y: 0 });
}

#[test]
fn an_edge_from_a_node_to_itself_is_not_added() {
    let mut graph = Graph::new();
    graph.add_node("A");
    graph.add_edge("A", "A");
    assert_eq!(graph.edge_count(), 0);
}

#[test]
fn an_edge_from_a_missing_node_to_itself_is_not_added() {
    let mut graph = Graph::new();
    graph.add_edge("A", "A");
    assert_eq!(graph.edge_count(), 0);
    assert_eq!(graph.node_count(), 0);
}

#[test]
fn an_edge_is_added_once_whatever_its_direction() {
    let mut graph = Graph::new();
    graph.add_node("A");
    graph.add_node("B");
    graph.add_node("C");
    graph.add_edge("B", "A");
    assert_eq!(edges(&graph), vec![(0, 1)]);
    graph.add_edge("A", "B");
    graph.add_edge("B", "A");
    assert_eq!(edges(&graph), vec![(0, 1)]);
    graph.add_edge("C", "A");
    graph.add_edge("B", "C");
    assert_eq!(edges(&graph), vec![(0, 1), (0, 2), (1, 2)]);
}

#[test]
fn an_edge_contains_its_two_ends() {
    let edge = Edge { from_index: 2, to_index: 5 };
    assert!(edge.contains(2));
    assert!(edge.contains(5));
    assert!(!edge.contains(3));
}

#[test]
fn the_edges_and_neighbours_of_a_node() {
    let mut graph = Graph::new();
    for name in ["A", "B", "C", "D"] {
        graph.add_node(name);
    }
    graph.add_edge("A", "B");
    graph.add_edge("C", "D");
    graph.add_edge("C", "B");
    graph.add_edge("B", "D");
    assert_eq!(
        graph.get_edges(1),
        vec![
            Edge { from_index: 0, to_index: 1 },
            Edge { from_index: 1, to_index: 2 },
            Edge { from_index: 1, to_index: 3 },
        ]
    );
    assert_eq!(graph.neighbours(1), vec![0, 2, 3]);
    assert_eq!(graph.neighbours(0), vec![1]);
    assert_eq!(graph.neighbours(3), vec![2, 1]);
    assert_eq!(graph.get_edges(0), vec![Edge { from_index: 0, to_index: 1 }]);
}

#[test]
fn finding_a_node_by_its_name() {
    let mut graph = Graph::new();
    graph.add_node("A");
    graph.add_node("B");
    assert_eq!(graph.find(&"B".to_owned()), Some(1));
    assert_eq!(graph.find(&"A".to_owned()), Some(0));
    assert_eq!(graph.find(&"C".to_owned()), None);
}

#[test]
fn the_layout_is_moved_so_that_it_starts_at_zero() {
    let mut graph = Graph::new();
    for name in ["A", "B", "C"] {
        graph.add_node(name);
    }
    let approximation =
        graph.get_transposed_nodes_approximation(&rounded(&[(-3, 7), (4, 2), (0, 5)]));
    let positions: Vec<PointApproximation> = approximation.iter().map(|n| n.position).collect();
    assert_eq!(
        positions,
        vec![
            PointApproximation { x: 0, y: 5 },
            PointApproximation { x: 7, y: 0 },
            PointApproximation { x: 3, y: 3 },
        ]
    );
    let found: Vec<&str> = approximation.iter().map(|n| n.name.as_str()).collect();
    assert_eq!(found, vec!["A", "B", "C"]);
    assert_eq!(positions.iter().map(|p| p.x).min(), Some(0));
    assert_eq!(positions.iter().map(|p| p.y).min(), Some(0));
}

#[test]
fn a_single_node_lands_on_the_origin() {
    let mut graph = Graph::new();
    graph.add_node("A");
    let approximation = graph.get_transposed_nodes_approximation(&rounded(&[(10, 10)]));
    assert_eq!(approximation[0].position, PointApproximation { x: 0, y: 0 });
}

#[test]
fn the_layout_may_span_the_whole_range_of_rounded_positions() {
    let mut graph = Graph::new();
    graph.add_node("A");
    graph.add_node("B");
    let approximation = graph
        .get_transposed_nodes_approximation(&rounded(&[(i32::MIN, i32::MAX), (i32::MAX, i32::MIN)]));
    assert_eq!(approximation[0].position, PointApproximation { x: 0, y: 4294967295 });
    assert_eq!(approximation[1].position, PointApproximation { x: 4294967295, y: 0 });
}
