use graphust::{draw, get_graph};
use graphust::input::{build_graph, read_input, read_relations, usable_layout};
use graphust::layout::{Graph, RoundedPoint, ITERATIONS};
use graphust::{Arrow, ArrowBody, ArrowHead, BorderType, Diagram, Node, Point};

fn distance(a: (f32, f32), b: (f32, f32)) -> f32 {
    ((b.0 - a.0).powi(2) + (b.1 - a.1).powi(2)).sqrt()
}

/// The force-directed simulation: a fixed number of steps from the seed
/// positions, then the layout moved to the origin and every coordinate
/// rounded.
fn settle(graph: &Graph, attraction_strength: f32, repulsion_strength: f32) -> Vec<RoundedPoint> {
    let count = graph.node_count();
    let mut positions: Vec<(f32, f32)> = Vec::new();
    for index in 0..count {
        let seed = graph.node(index).position;
        positions.push((seed.x as f32, seed.y as f32));
    }
    for _ in 0..ITERATIONS {
        let mut forces: Vec<(f32, f32)> = Vec::new();
        for index in 0..count {
            let mut force = (0.0f32, 0.0f32);
            let node = positions[index];
            for other_index in graph.neighbours(index) {
                let other = positions[other_index];
                let direction = (other.0 - node.0, other.1 - node.1);
                let magnitude = attraction_strength * (distance(node, other) / 5.0).log10();
                force.0 += magnitude * direction.0;
                force.1 += magnitude * direction.1;
            }
            for other_index in 0..count {
                if other_index == index {
                    continue;
                }
                let other = positions[other_index];
                let direction = (node.0 - other.0, node.1 - other.1);
                let magnitude = repulsion_strength / distance(node, other).powi(2);
                force.0 += magnitude * direction.0;
                force.1 += magnitude * direction.1;
            }
            forces.push(force);
        }
        for index in 0..count {
            let force = forces[index];
            if force.0 == 0.0 && force.1 == 0.0 {
                positions[index].0 += 0.1;
                positions[index].1 += 0.1;
            } else {
                positions[index].0 += force.0;
                positions[index].1 += force.1;
            }
        }
    }
    let min_x = positions.iter().map(|p| p.0).reduce(f32::min).unwrap_or(0.0);
    let min_y = positions.iter().map(|p| p.1).reduce(f32::min).unwrap_or(0.0);
    positions
        .iter()
        .map(|p| RoundedPoint { x: (p.0 - min_x).round() as i32, y: (p.1 - min_y).round() as i32 })
        .collect()
}

fn layout_of(input: &str) -> Vec<RoundedPoint> {
    match read_relations(input) {
        Ok(mappings) => settle(&build_graph(&mappings), 1.0, 1.0),
        Err(_) => Vec::new(),
    }
}

fn picture(input: &str) -> Result<String, String> {
    get_graph(input, &layout_of(input))
}

fn read(input: &str) -> Result<Diagram, String> {
    read_input(input, &layout_of(input))
}

/// The picture of `input` with the nodes laid out at `positions`, in the
/// order in which their names first occur.
fn picture_with(input: &str, positions: &[(i32, i32)]) -> Result<String, String> {
    get_graph(input, &rounded(positions))
}

/// The diagram of `input` with the nodes laid out at `positions`, in the
/// order in which their names first occur.
fn read_with(input: &str, positions: &[(i32, i32)]) -> Result<Diagram, String> {
    read_input(input, &rounded(positions))
}

fn boxed(name: &str) -> Node {
    Node { name: name.to_owned(), border: BorderType::Box }
}

fn arrow(start: (usize, usize), middle: (usize, usize), end: (usize, usize)) -> Arrow {
    Arrow {
        start: Point { x: start.0, y: start.1 },
        middle: Point { x: middle.0, y: middle.1 },
        end: Point { x: end.0, y: end.1 },
        body: ArrowBody::Basic,
        head: ArrowHead::Basic,
    }
}

fn assert_maps(expected: Diagram, result: Diagram) {
    assert_eq!(expected.nodes.len(), result.nodes.len());
    for (key, value) in &expected.nodes {
        let found: Vec<&(Point, Node)> = result.nodes.iter().filter(|entry| entry.0 == *key).collect();
        assert_eq!(found.len(), 1);
        assert_eq!(*value, found[0].1);
    }
    assert_eq!(expected.arrows.len(), result.arrows.len());
    for arrow in &expected.arrows {
        assert!(result.arrows.contains(arrow));
    }
}

fn diagram(nodes: Vec<((usize, usize), &str)>, arrows: Vec<Arrow>) -> Diagram {
    let mut expected = Diagram::new();
    for (point, name) in nodes {
        expected.insert_node(Point { x: point.0, y: point.1 }, boxed(name));
    }
    for arrow in arrows {
        expected.insert_arrow(arrow);
    }
    expected
}

#[test]
fn get_error() {
    let input = "A -> -> B";
    let output = picture(&input);
    assert!(output.is_err());
    if let Err(message) = output {
        assert_eq!(format!("Cannot understand this line: {}", input), message);
    }
}

#[test]
fn example01() {
    let input = "\
A -> B
B -> C
C -> A";
    let expected = "\
+---+                   +---+
| A |<------------------| C |
+---+                   +---+
  |                       ^  
  |                       |  
  |         +---+         |  
  --------->| B |---------|  
            +---+            
";
    let output = picture_with(&input, &[(0, 0), (3, 5), (6, 0)]);

    assert!(output.is_ok());
    if let Ok(ok_output) = output {
        assert_eq!(expected, ok_output);
    }
}

#[test]
fn example02() {
    let input = "\
\"This is our test\" -> B
B -> C
C -> \"This is our test\"";
    let expected = "\
+------------------+    +---+
| This is our test |<---| C |
+------------------+    +---+
  |                       ^  
  |                       |  
  |         +---+         |  
  --------->| B |---------|  
            +---+            
";
    let output = picture_with(&input, &[(0, 0), (3, 5), (6, 0)]);

    assert!(output.is_ok());
    if let Ok(ok_output) = output {
        assert_eq!(expected, ok_output);
    }
}

#[test]
fn get_map_example01() {
    let input = "A -> B";
    let expected = diagram(
        vec![((0, 0), "A"), ((20, 0), "B")],
        vec![arrow((5, 1), (6, 1), (19, 1))],
    );

    let result = read_with(input, &[(0, 0), (5, 0)]);
    if let Ok(mapped_result) = result {
        assert_maps(expected, mapped_result);
    } else {
        panic!("Map should not be None for this input!");
    }
}

#[test]
fn get_map_error01() {
    let input = "A -> B -> C";
    let result = read_with(input, &[]);
    if let Err(mapped_error) = result {
        assert_eq!("Cannot understand this line: A -> B -> C", mapped_error);
    } else {
        panic!("We were expecting an error for this input!");
    }
}

#[test]
fn get_map_example02() {
    let input = "\
A -> B
B -> C";
    let expected = diagram(
        vec![((0, 0), "A"), ((24, 0), "B"), ((48, 0), "C")],
        vec![arrow((5, 1), (6, 1), (23, 1)), arrow((29, 1), (30, 1), (47, 1))],
    );

    let result = read_with(input, &[(0, 0), (6, 0), (12, 0)]);
    if let Ok(mapped_result) = result {
        assert_maps(expected, mapped_result);
    } else {
        panic!("Map should not be None for this input!");
    }
}

#[test]
fn get_map_example03() {
    let input = "\
A -> B
B -> C
C -> A";
    let expected = diagram(
        vec![((0, 0), "A"), ((12, 5), "B"), ((24, 0), "C")],
        vec![
            arrow((2, 3), (2, 6), (11, 6)),
            arrow((17, 6), (26, 6), (26, 3)),
            arrow((23, 1), (22, 1), (5, 1)),
        ],
    );

    let result = read_with(input, &[(0, 0), (3, 5), (6, 0)]);
    if let Ok(mapped_result) = result {
        assert_maps(expected, mapped_result);
    } else {
        panic!("Map should not be None for this input!");
    }
}

#[test]
fn get_map_example04() {
    let input = "\
A -> B
B -> A";
    let expected = diagram(
        vec![((0, 0), "A"), ((20, 0), "B")],
        vec![arrow((5, 1), (6, 1), (19, 1)), arrow((19, 2), (18, 2), (5, 2))],
    );

    let result = read_with(input, &[(0, 0), (5, 0)]);
    if let Ok(mapped_result) = result {
        assert_maps(expected, mapped_result);
    } else {
        panic!("Map should not be None for this input!");
    }
}

#[test]
fn get_map_example05() {
    let input = "\
A -> B
B -> C
C -> D
D -> A
D -> B";
    let expected = diagram(
        vec![((0, 1), "A"), ((20, 0), "B"), ((36, 3), "C"), ((16, 5), "D")],
        vec![
            arrow((15, 6), (2, 6), (2, 4)),
            arrow((21, 7), (24, 7), (24, 3)),
            arrow((5, 2), (5, 3), (22, 3)),
            arrow((23, 3), (23, 4), (35, 4)),
            arrow((38, 6), (37, 6), (21, 6)),
        ],
    );

    let result = read_with(input, &[(0, 1), (5, 0), (9, 3), (4, 5)]);
    if let Ok(mapped_result) = result {
        assert_maps(expected, mapped_result);
    } else {
        panic!("Map should not be None for this input!");
    }
}

#[test]
fn get_map_example06() {
    let input = "\
A -> B
B -> C
C -> D
B -> E
E -> F";
    let expected = diagram(
        vec![
            ((0, 3), "A"),
            ((24, 5), "B"),
            ((40, 0), "C"),
            ((64, 0), "D"),
            ((36, 10), "E"),
            ((52, 15), "F"),
        ],
        vec![
            arrow((2, 6), (3, 6), (23, 6)),
            arrow((29, 6), (42, 6), (42, 3)),
            arrow((45, 1), (46, 1), (63, 1)),
            arrow((26, 8), (26, 11), (35, 11)),
            arrow((38, 13), (38, 16), (51, 16)),
        ],
    );

    let result = read_with(input, &[(0, 3), (6, 5), (10, 0), (16, 0), (9, 10), (13, 15)]);
    if let Ok(mapped_result) = result {
        assert_maps(expected, mapped_result);
    } else {
        panic!("Map should not be None for this input!");
    }
}

#[test]
fn get_map_example07() {
    let input = "\
A -> B
B -> C
C -> A
A -> D";
    let expected = diagram(
        vec![((16, 5), "A"), ((24, 0), "B"), ((36, 4), "C"), ((0, 9), "D")],
        vec![
            arrow((21, 6), (26, 6), (26, 3)),
            arrow((27, 3), (27, 5), (35, 5)),
            arrow((38, 7), (37, 7), (21, 7)),
            arrow((18, 8), (18, 10), (5, 10)),
        ],
    );

    let result = read_with(input, &[(4, 5), (6, 0), (9, 4), (0, 9)]);
    if let Ok(mapped_result) = result {
        assert_maps(expected, mapped_result);
    } else {
        panic!("Map should not be None for this input!");
    }
}

fn get_nodes_approximation_picture(graph: &Graph, settled: &Vec<RoundedPoint>) -> String {
    let nodes_approximation = graph.get_transposed_nodes_approximation(settled);
    let max_x = nodes_approximation.iter().map(|node| node.position.x).reduce(usize::max).unwrap();
    let max_y = nodes_approximation.iter().map(|node| node.position.y).reduce(usize::max).unwrap();

    let mut builder = String::new();
    for y in 0..=max_y {
        for x in 0..=max_x {
            let potential_char =
                nodes_approximation.iter().find(|a| a.position.x == x && a.position.y == y);
            match potential_char {
                None => builder.push(' '),
                Some(c) => builder.push(c.name.chars().next().unwrap()),
            }
        }
        builder.push('\n');
    }
    builder
}

fn triangle(attraction_strength: f32, repulsion_strength: f32) -> String {
    let mut graph = Graph::new();
    graph.add_node("A");
    graph.add_node("B");
    graph.add_node("C");
    graph.add_edge("A", "B");
    graph.add_edge("B", "C");
    graph.add_edge("C", "A");

    let settled = settle(&graph, attraction_strength, repulsion_strength);
    get_nodes_approximation_picture(&graph, &settled)
}

fn six_nodes(attraction_strength: f32, repulsion_strength: f32) -> String {
    let mut graph = Graph::new();
    graph.add_node("A");
    graph.add_node("B");
    graph.add_node("C");
    graph.add_node("D");
    graph.add_node("E");
    graph.add_node("F");
    graph.add_edge("A", "B");
    graph.add_edge("B", "C");
    graph.add_edge("C", "D");
    graph.add_edge("D", "B");
    graph.add_edge("D", "A");
    graph.add_edge("A", "E");
    graph.add_edge("E", "F");

    let settled = settle(&graph, attraction_strength, repulsion_strength);
    get_nodes_approximation_picture(&graph, &settled)
}

fn triangle_with_extra_edges(attraction_strength: f32, repulsion_strength: f32) -> String {
    let mut graph = Graph::new();
    graph.add_node("A");
    graph.add_node("A");
    graph.add_node("B");
    graph.add_node("C");
    graph.add_edge("A", "B");
    graph.add_edge("A", "B");
    graph.add_edge("A", "A");
    graph.add_edge("A", "B");
    graph.add_edge("B", "C");
    graph.add_edge("C", "A");

    let settled = settle(&graph, attraction_strength, repulsion_strength);
    get_nodes_approximation_picture(&graph, &settled)
}

#[test]
fn get_example01() {
    let result = triangle(1.0, 2.0);
    let expected = "A     C
       
       
       
       
   B   
";
    assert_eq!(result, expected);
}

#[test]
fn get_example01_with_unnecessary_edges() {
    let result = triangle_with_extra_edges(1.0, 2.0);
    let expected = "A     C
       
       
       
       
   B   
";
    assert_eq!(result, expected);
}

#[test]
fn get_example02() {
    let result = six_nodes(1.0, 1.0);
    let expected = "   C  
      
      
      
      
B    D
      
      
      
      
      
  A   
      
      
      
      
  E   
      
      
      
      
      
   F  
";
    assert_eq!(result, expected);
}

#[test]
fn one_relation_draws_two_boxes_and_a_rightward_arrow() {
    let expected = "\
+---+               +---+
| A |-------------->| B |
+---+               +---+
";
    assert_eq!(picture("A -> B"), Ok(expected.to_owned()));
}

fn count(text: &str, pattern: &str) -> usize {
    text.matches(pattern).count()
}

/// `point` lies in the ring of cells just outside the box at `anchor`.
fn beside(anchor: Point, label: &str, point: Point) -> bool {
    let (left, right) = (anchor.x as i64 - 1, (anchor.x + label.len() + 4) as i64);
    let (top, bottom) = (anchor.y as i64 - 1, (anchor.y + 3) as i64);
    let (x, y) = (point.x as i64, point.y as i64);
    let within = left <= x && x <= right && top <= y && y <= bottom;
    let inside = left < x && x < right && top < y && y < bottom;
    within && !inside
}

#[test]
fn a_cycle_is_drawn_as_a_closed_loop() {
    let input = "A -> B\nB -> C\nC -> A";
    let expected = "\
+---+               +---+
| A |<--------------| C |
+---+               +---+
  |                   ^  
  |                   |  
  |         +---+     |  
  --------->| B |-----|  
            +---+        
";
    let output = picture(input).unwrap();
    assert_eq!(output, expected);
    for label in ["| A |", "| B |", "| C |"] {
        assert_eq!(count(&output, label), 1);
    }
    let heads: usize = ["<", ">", "^", "v"].iter().map(|head| count(&output, head)).sum();
    assert_eq!(heads, 3);

    let map = read(input).unwrap();
    assert_eq!(map.nodes.len(), 3);
    assert_eq!(map.arrows.len(), 3);
    for (anchor, node) in &map.nodes {
        let leaving = map.arrows.iter().filter(|a| beside(*anchor, &node.name, a.start)).count();
        let arriving = map.arrows.iter().filter(|a| beside(*anchor, &node.name, a.end)).count();
        assert_eq!((leaving, arriving), (1, 1));
    }
}

#[test]
fn a_cycle_keeps_all_three_arrows() {
    let map = read("A -> B\nB -> C\nC -> A").unwrap();
    assert_eq!(map.nodes.len(), 3);
    assert_eq!(map.arrows.len(), 3);
}

#[test]
fn a_bad_line_gives_no_picture_and_names_the_line() {
    assert_eq!(
        picture("A -> B\nA -> -> B\nC -> D"),
        Err("Cannot understand this line: A -> -> B".to_owned())
    );
}

#[test]
fn the_first_bad_line_is_the_one_reported() {
    assert_eq!(picture("A B\nC D"), Err("Cannot understand this line: A B".to_owned()));
}

#[test]
fn the_same_graph_settles_the_same_way_twice() {
    let mappings = read_relations("A -> B\nB -> C\nC -> D\nD -> A\nD -> B").unwrap();
    let first = settle(&build_graph(&mappings), 1.0, 1.0);
    let second = settle(&build_graph(&mappings), 1.0, 1.0);
    assert_eq!(first, second);
    let graph = build_graph(&mappings);
    let once = graph.get_transposed_nodes_approximation(&first);
    let again = graph.get_transposed_nodes_approximation(&second);
    for (a, b) in once.iter().zip(again.iter()) {
        assert_eq!(a.name, b.name);
        assert_eq!(a.position, b.position);
    }
}

#[test]
fn a_reversed_relation_is_drawn_from_the_third_part_to_the_first() {
    assert_eq!(picture("B <- A"), picture("A -> B"));
}

#[test]
fn a_quoted_label_with_spaces_is_one_box() {
    let expected = "\
+-----+             +---+
| A B |------------>| C |
+-----+             +---+
";
    assert_eq!(picture("\"A B\" -> C"), Ok(expected.to_owned()));
}

#[test]
fn relations_in_both_directions_give_two_arrows() {
    let map = read("A -> B\nB -> A").unwrap();
    assert_eq!(map.nodes.len(), 2);
    assert_eq!(map.arrows.len(), 2);
    for arrow in &map.arrows {
        assert!(arrow.start.x == arrow.middle.x || arrow.start.y == arrow.middle.y);
        assert!(arrow.middle.x == arrow.end.x || arrow.middle.y == arrow.end.y);
    }
}

#[test]
fn every_arrow_of_a_larger_graph_is_axis_aligned() {
    let map = read("A -> B\nB -> C\nC -> D\nB -> E\nE -> F\nF -> A\nD -> E").unwrap();
    assert_eq!(map.nodes.len(), 6);
    for arrow in &map.arrows {
        assert!(arrow.start.x == arrow.middle.x || arrow.start.y == arrow.middle.y);
        assert!(arrow.middle.x == arrow.end.x || arrow.middle.y == arrow.end.y);
    }
}

fn rounded(points: &[(i32, i32)]) -> Vec<RoundedPoint> {
    points.iter().map(|p| RoundedPoint { x: p.0, y: p.1 }).collect()
}

#[test]
fn a_layout_serves_when_it_has_one_position_for_each_node() {
    let relations = read_relations("A -> B\nB -> C").unwrap();
    assert!(usable_layout(&relations, &rounded(&[(0, 0), (5, 0), (5, 5)])));
    assert!(usable_layout(&relations, &rounded(&[(-7, 3), (5, 0), (5, -5)])));
    assert!(!usable_layout(&relations, &rounded(&[(0, 0), (5, 0)])));
    assert!(!usable_layout(&relations, &rounded(&[(0, 0), (5, 0), (5, 5), (9, 9)])));
    assert!(!usable_layout(&relations, &rounded(&[])));
}

#[test]
fn a_layout_with_two_nodes_on_one_position_does_not_serve() {
    let relations = read_relations("A -> B\nB -> C").unwrap();
    assert!(!usable_layout(&relations, &rounded(&[(0, 0), (5, 0), (0, 0)])));
    assert!(!usable_layout(&relations, &rounded(&[(1, 1), (1, 1), (2, 2)])));
}

#[test]
fn no_layout_serves_a_text_without_relations() {
    assert!(!usable_layout(&read_relations("").unwrap(), &rounded(&[])));
    assert_eq!(draw("", &rounded(&[])), None);
}

#[test]
fn drawing_with_a_given_layout() {
    let expected = "\
+---+        
| A |        
+---+   +---+
  -|--->| B |
   ---->+---+
";
    assert_eq!(draw("A -> B\nA -> B", &rounded(&[(10, -1), (12, 1)])), Some(Ok(expected.to_owned())));
}

#[test]
fn drawing_gives_nothing_where_the_layout_does_not_serve() {
    assert_eq!(draw("A -> B", &rounded(&[(0, 0)])), None);
    assert_eq!(draw("A -> B", &rounded(&[(3, 3), (3, 3)])), None);
}

#[test]
fn drawing_complains_about_a_bad_line_whatever_the_layout() {
    let complaint = Some(Err("Cannot understand this line: A B".to_owned()));
    assert_eq!(draw("A B", &rounded(&[])), complaint);
    assert_eq!(draw("A B", &rounded(&[(0, 0), (1, 1)])), complaint);
}

#[test]
fn drawing_agrees_with_the_steps_taken_one_by_one() {
    let input = "A -> B\nB -> C\nC -> A";
    let settled = layout_of(input);
    assert_eq!(draw(input, &settled), Some(get_graph(input, &settled)));
    assert_eq!(get_graph(input, &settled), read_input(input, &settled).map(|map| map.get_picture()));
}

#[test]
fn between_neighbouring_anchors_the_last_piece_has_no_length() {
    let input = "B -> ab";
    let map = read_with(input, &[(2, 0), (0, 0)]).unwrap();
    assert_eq!(map.arrows, vec![arrow((7, 1), (6, 1), (6, 1))]);
    let expected = "\
+----+  +---+
| ab |>-| B |
+----+  +---+
";
    assert_eq!(picture_with(input, &[(2, 0), (0, 0)]), Ok(expected.to_owned()));
}

#[test]
fn a_straight_arrow_bends_one_cell_past_its_start() {
    let leftward = read_with("B -> A", &[(5, 0), (0, 0)]).unwrap();
    assert_eq!(leftward.arrows, vec![arrow((19, 1), (18, 1), (5, 1))]);
    let rightward = read_with("A -> B", &[(0, 0), (5, 0)]).unwrap();
    assert_eq!(rightward.arrows, vec![arrow((5, 1), (6, 1), (19, 1))]);
    let downward = read_with("A -> B", &[(0, 0), (0, 9)]).unwrap();
    assert_eq!(downward.arrows, vec![arrow((2, 3), (2, 4), (2, 8))]);
    let upward = read_with("B -> A", &[(0, 9), (0, 0)]).unwrap();
    assert_eq!(upward.arrows, vec![arrow((2, 8), (2, 7), (2, 3))]);
}
