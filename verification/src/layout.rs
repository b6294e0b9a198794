//! The graph that the layout works on: uniquely named nodes seeded on a
//! coarse grid, edges between them, and the step that turns settled
//! positions into grid positions that start at zero.

use vstd::prelude::*;

verus! {

/// The number of steps that the simulation runs, whatever it has reached
/// by then.
pub const ITERATIONS: usize = 100;

/// The columns of the grid on which nodes are seeded.
pub const SEED_COLUMNS: usize = 3;

/// The distance between two neighbours on the seed grid.
pub const SEED_SPACING: u128 = 5;

/// A position on the character grid, before it is stretched for drawing.
#[derive(Debug, PartialEq, Eq, Structural, Clone, Copy)]
pub struct PointApproximation {
    pub y: usize,
    pub x: usize,
}

/// A node with the position that the layout gave it.
#[derive(Debug)]
pub struct NodeApproximation {
    pub name: String,
    pub position: PointApproximation,
}

/// A laid-out node as plain values.
pub struct Placement {
    pub name: Seq<char>,
    pub position: PointApproximation,
}

impl View for NodeApproximation {
    type V = Placement;

    open spec fn view(&self) -> Placement {
        Placement { name: self.name@, position: self.position }
    }
}

/// A position at which a node has come to rest, in whole numbers. It need
/// not be at the origin: the layout is moved there whatever positions it
/// is given.
#[derive(Debug, PartialEq, Eq, Structural, Clone, Copy)]
pub struct RoundedPoint {
    pub x: i32,
    pub y: i32,
}

/// Where a node starts before the simulation moves it.
#[derive(Debug, PartialEq, Eq, Structural, Clone, Copy)]
pub struct SeedPoint {
    pub x: u128,
    pub y: u128,
}

/// The seed of the node created as number `index`: row by row, three to a
/// row, five apart.
pub open spec fn seed_of(index: int) -> SeedPoint {
    SeedPoint { x: ((index % 3) * 5) as u128, y: ((index / 3) * 5) as u128 }
}

/// Hands out the seed positions in turn.
pub struct InnerGraphPlacement {
    next_x: u128,
    next_y: u128,
    offset: u128,
    max_x_count: usize,
    handed_out: Ghost<nat>,
}

impl InnerGraphPlacement {
    /// How many positions were handed out.
    pub closed spec fn count(&self) -> nat {
        self.handed_out@
    }

    /// The next position is the seed of the next node.
    pub closed spec fn wf(&self) -> bool {
        &&& self.offset == SEED_SPACING
        &&& self.max_x_count == SEED_COLUMNS
        &&& self.handed_out@ <= usize::MAX + 1
        &&& SeedPoint { x: self.next_x, y: self.next_y } == seed_of(self.handed_out@ as int)
    }

    pub fn new() -> (placement: InnerGraphPlacement)
        ensures
            placement.wf(),
            placement.count() == 0,
    {
        InnerGraphPlacement {
            next_x: 0,
            next_y: 0,
            offset: SEED_SPACING,
            max_x_count: SEED_COLUMNS,
            handed_out: Ghost(0),
        }
    }

    /// The next seed position.
    pub fn get_next_position(&mut self) -> (position: SeedPoint)
        requires
            old(self).wf(),
            old(self).count() <= usize::MAX,
        ensures
            final(self).wf(),
            final(self).count() == old(self).count() + 1,
            position == seed_of(old(self).count() as int),
    {
        let position = SeedPoint { x: self.next_x, y: self.next_y };
        self.next_x += self.offset;
        if self.next_x > (self.max_x_count - 1) as u128 * self.offset {
            self.next_x = 0;
            self.next_y += self.offset;
        }
        self.handed_out = Ghost((self.handed_out@ + 1) as nat);
        position
    }
}

/// An edge between two nodes, each named by its index in the graph.
#[derive(Debug, PartialEq, Eq, Structural, Clone, Copy)]
pub struct Edge {
    pub from_index: usize,
    pub to_index: usize,
}

impl Edge {
    /// The edge touches the node `index`.
    pub open spec fn touches(&self, index: usize) -> bool {
        self.from_index == index || self.to_index == index
    }

    /// The node at the other end, seen from `index`.
    pub open spec fn other_end(&self, index: usize) -> usize {
        if self.from_index == index {
            self.to_index
        } else {
            self.from_index
        }
    }

    pub fn contains(&self, index: usize) -> (found: bool)
        ensures
            found == self.touches(index),
    {
        self.from_index == index || self.to_index == index
    }
}

/// A node of the graph: its name and where it starts.
pub struct GraphNode {
    pub name: String,
    pub position: SeedPoint,
}

/// The names of the nodes, in the order of their creation.
pub open spec fn names_of(nodes: Seq<GraphNode>) -> Seq<Seq<char>> {
    Seq::new(nodes.len(), |i: int| nodes[i].name@)
}

/// The smaller of two indices first, the larger second.
pub open spec fn ordered_pair(a: int, b: int) -> Edge {
    if a <= b {
        Edge { from_index: a as usize, to_index: b as usize }
    } else {
        Edge { from_index: b as usize, to_index: a as usize }
    }
}

/// What adding the node `name` makes of the names of a graph: nothing new
/// where the name is there already.
pub open spec fn with_node(names: Seq<Seq<char>>, name: Seq<char>) -> Seq<Seq<char>> {
    if names.contains(name) {
        names
    } else {
        names.push(name)
    }
}

/// In names that are apart, a name is found at its place.
pub proof fn lemma_index_of(names: Seq<Seq<char>>, i: int)
    requires
        names.no_duplicates(),
        0 <= i < names.len(),
    ensures
        names.index_of(names[i]) == i,
{
    let j = names.index_of(names[i]);
    assert(names.contains(names[i]));
    assert(0 <= j < names.len() && names[j] == names[i]);
}

/// Adding a node a second time changes nothing.
pub proof fn lemma_add_node_twice(names: Seq<Seq<char>>, name: Seq<char>)
    ensures
        with_node(with_node(names, name), name) == with_node(names, name),
{
    if !names.contains(name) {
        assert(names.push(name)[names.len() as int] == name);
    }
}

/// What adding the edge between `from` and `to` makes of the edges of a
/// graph with these names: nothing new for a loop from a node to itself,
/// and nothing new where the two nodes are joined already, in either
/// direction.
pub open spec fn with_edge(
    names: Seq<Seq<char>>,
    edges: Seq<Edge>,
    from: Seq<char>,
    to: Seq<char>,
) -> Seq<Edge> {
    let edge = ordered_pair(names.index_of(from), names.index_of(to));
    if from == to || edges.contains(edge) {
        edges
    } else {
        edges.push(edge)
    }
}

/// The edges that touch the node `index`, in the order of the sequence.
pub open spec fn edges_at(edges: Seq<Edge>, index: usize) -> Seq<Edge> {
    edges.filter(|e: Edge| e.touches(index))
}

/// Uniquely named nodes and the edges between them. Nothing is ever
/// removed.
pub struct Graph {
    nodes: Vec<GraphNode>,
    edges: Vec<Edge>,
    placement: InnerGraphPlacement,
}

impl Graph {
    /// The names of the nodes, in the order of their creation.
    pub closed spec fn names(&self) -> Seq<Seq<char>> {
        names_of(self.nodes@)
    }

    /// The nodes, in the order of their creation.
    pub closed spec fn nodes(&self) -> Seq<GraphNode> {
        self.nodes@
    }

    /// The edges, in the order of their creation.
    pub closed spec fn edges(&self) -> Seq<Edge> {
        self.edges@
    }

    /// No name occurs twice; every node sits on its seed; every edge joins
    /// two different nodes of the graph, the one of smaller index first, and
    /// no two edges join the same two nodes.
    pub closed spec fn wf(&self) -> bool {
        &&& self.placement.wf()
        &&& self.placement.count() == self.nodes@.len()
        &&& self.names().no_duplicates()
        &&& forall|i: int|
            0 <= i < self.nodes@.len() ==> (#[trigger] self.nodes@[i]).position == seed_of(i)
        &&& self.edges@.no_duplicates()
        &&& forall|k: int|
            0 <= k < self.edges@.len() ==> (#[trigger] self.edges@[k]).from_index
                < self.edges@[k].to_index < self.nodes@.len()
    }

    /// A graph without nodes.
    pub fn new() -> (graph: Graph)
        ensures
            graph.wf(),
            graph.names() == Seq::<Seq<char>>::empty(),
            graph.edges() == Seq::<Edge>::empty(),
    {
        let graph = Graph {
            nodes: Vec::new(),
            edges: Vec::new(),
            placement: InnerGraphPlacement::new(),
        };
        assert(graph.names() =~= Seq::<Seq<char>>::empty());
        graph
    }

    /// The index of the node called `name`, if the graph has it.
    pub fn find(&self, name: &String) -> (found: Option<usize>)
        requires
            self.wf(),
        ensures
            match found {
                Some(i) => i < self.names().len() && self.names()[i as int] == name@
                    && self.names().index_of(name@) == i,
                None => !self.names().contains(name@),
            },
    {
        let mut i: usize = 0;
        while i < self.nodes.len()
            invariant
                i <= self.nodes.len(),
                self.wf(),
                forall|j: int| 0 <= j < i ==> (#[trigger] self.names()[j]) != name@,
            decreases self.nodes.len() - i,
        {
            if self.nodes[i].name == *name {
                assert(self.names()[i as int] == name@);
                assert(self.names().contains(name@));
                let ghost k = self.names().index_of(name@);
                assert(self.names()[k] == name@);
                return Some(i);
            }
            i += 1;
        }
        None
    }

    /// Adds a node called `node_label`, unless the graph has one of that
    /// name: then nothing changes.
    pub fn add_node(&mut self, node_label: &str)
        requires
            old(self).wf(),
        ensures
            final(self).wf(),
            final(self).names() == with_node(old(self).names(), node_label@),
            final(self).edges() == old(self).edges(),
            old(self).names().contains(node_label@) ==> *final(self) == *old(self),
    {
        let name = node_label.to_owned();
        if self.find(&name).is_some() {
            return ;
        }
        let count = self.nodes.len();
        let position = self.placement.get_next_position();
        self.nodes.push(GraphNode { name, position });
        proof {
            assert(self.names() =~= old(self).names().push(node_label@));
            assert forall|i: int, j: int|
                0 <= i < self.names().len() && 0 <= j < self.names().len() && i != j implies self.names()[i]
                != self.names()[j] by {
                if i < old(self).names().len() {
                    assert(old(self).names()[i] == self.names()[i]);
                }
                if j < old(self).names().len() {
                    assert(old(self).names()[j] == self.names()[j]);
                }
            }
        }
    }

    /// Adds an edge between the nodes called `node_from_label` and
    /// `node_to_label`, unless the two names are the same or the two nodes
    /// are joined already, in either direction: then nothing changes.
    pub fn add_edge(&mut self, node_from_label: &str, node_to_label: &str)
        requires
            old(self).wf(),
            node_from_label@ != node_to_label@ ==> old(self).names().contains(node_from_label@)
                && old(self).names().contains(node_to_label@),
        ensures
            final(self).wf(),
            final(self).nodes() == old(self).nodes(),
            final(self).names() == old(self).names(),
            final(self).edges() == with_edge(
                old(self).names(),
                old(self).edges(),
                node_from_label@,
                node_to_label@,
            ),
            node_from_label@ == node_to_label@ || old(self).edges().contains(
                ordered_pair(
                    old(self).names().index_of(node_from_label@),
                    old(self).names().index_of(node_to_label@),
                ),
            ) ==> *final(self) == *old(self),
    {
        let from = node_from_label.to_owned();
        let to = node_to_label.to_owned();
        if from == to {
            return ;
        }
        let a = self.find(&from).unwrap();
        let b = self.find(&to).unwrap();
        let edge = if a <= b {
            Edge { from_index: a, to_index: b }
        } else {
            Edge { from_index: b, to_index: a }
        };
        let mut k: usize = 0;
        while k < self.edges.len()
            invariant
                k <= self.edges.len(),
                *self == *old(self),
                self.wf(),
                node_from_label@ != node_to_label@,
                edge == ordered_pair(
                    self.names().index_of(node_from_label@),
                    self.names().index_of(node_to_label@),
                ),
                forall|j: int| 0 <= j < k ==> #[trigger] self.edges@[j] != edge,
            decreases self.edges.len() - k,
        {
            if self.edges[k] == edge {
                assert(self.edges@.contains(edge));
                return ;
            }
            k += 1;
        }
        self.edges.push(edge);
        proof {
            assert(!old(self).edges@.contains(edge));
            assert(self.edges@.no_duplicates());
        }
    }

    /// The number of nodes.
    pub fn node_count(&self) -> (n: usize)
        ensures
            n == self.names().len(),
    {
        self.nodes.len()
    }

    /// The node created as number `index`: its name, and its seed on the
    /// grid.
    pub fn node(&self, index: usize) -> (node: &GraphNode)
        requires
            self.wf(),
            index < self.names().len(),
        ensures
            *node == self.nodes()[index as int],
            node.name@ == self.names()[index as int],
            node.position == seed_of(index as int),
    {
        &self.nodes[index]
    }

    /// Every edge joins two different nodes of the graph, the one of
    /// smaller index first, and no edge is there twice.
    pub proof fn lemma_edges(&self)
        requires
            self.wf(),
        ensures
            self.names().no_duplicates(),
            self.edges().no_duplicates(),
            forall|k: int|
                0 <= k < self.edges().len() ==> (#[trigger] self.edges()[k]).from_index
                    < self.edges()[k].to_index < self.names().len(),
    {
    }

    /// The number of edges.
    pub fn edge_count(&self) -> (n: usize)
        ensures
            n == self.edges().len(),
    {
        self.edges.len()
    }

    /// The edge created as number `index`.
    pub fn edge(&self, index: usize) -> (edge: Edge)
        requires
            index < self.edges().len(),
        ensures
            edge == self.edges()[index as int],
    {
        self.edges[index]
    }

    /// The edges that touch the node `node_index`, in the order of their
    /// creation.
    pub fn get_edges(&self, node_index: usize) -> (touching: Vec<Edge>)
        ensures
            touching@ == edges_at(self.edges(), node_index),
    {
        let mut touching: Vec<Edge> = Vec::new();
        let mut k: usize = 0;
        while k < self.edges.len()
            invariant
                k <= self.edges.len(),
                touching@ == edges_at(self.edges@.take(k as int), node_index),
            decreases self.edges.len() - k,
        {
            let edge = self.edges[k];
            proof {
                let next = self.edges@.take(k + 1);
                assert(next.drop_last() =~= self.edges@.take(k as int));
                assert(next.last() == edge);
                reveal(Seq::filter);
            }
            if edge.contains(node_index) {
                touching.push(edge);
            }
            k += 1;
        }
        assert(self.edges@.take(self.edges@.len() as int) =~= self.edges@);
        touching
    }

    /// The nodes that pull at the node `node_index`: for each edge that
    /// touches it, in the order of their creation, the node at its other end.
    pub fn neighbours(&self, node_index: usize) -> (others: Vec<usize>)
        ensures
            others@ == edges_at(self.edges(), node_index).map_values(
                |e: Edge| e.other_end(node_index),
            ),
    {
        let touching = self.get_edges(node_index);
        let mut others: Vec<usize> = Vec::new();
        let mut k: usize = 0;
        while k < touching.len()
            invariant
                k <= touching.len(),
                others@ == touching@.take(k as int).map_values(|e: Edge| e.other_end(node_index)),
            decreases touching.len() - k,
        {
            let edge = touching[k];
            let other_node_index = if edge.from_index == node_index {
                edge.to_index
            } else {
                edge.from_index
            };
            others.push(other_node_index);
            assert(others@ =~= touching@.take(k + 1).map_values(
                |e: Edge| e.other_end(node_index),
            ));
            k += 1;
        }
        assert(touching@.take(touching@.len() as int) =~= touching@);
        others
    }

    /// Moves the settled positions so that the smallest column and the
    /// smallest row become zero, and gives each node its position. The
    /// positions in `settled` are those of the nodes, in the order of their
    /// creation.
    pub fn get_transposed_nodes_approximation(&self, settled: &Vec<RoundedPoint>) -> (approximation:
        Vec<NodeApproximation>)
        requires
            settled@.len() == self.names().len(),
            settled@.len() > 0,
        ensures
            approximation@.len() == self.names().len(),
            forall|i: int|
                0 <= i < approximation@.len() ==> {
                    &&& (#[trigger] approximation@[i]).name@ == self.names()[i]
                    &&& approximation@[i].position.x == settled@[i].x - least_x(settled@)
                    &&& approximation@[i].position.y == settled@[i].y - least_y(settled@)
                },
            exists|i: int| 0 <= i < approximation@.len() && (#[trigger] approximation@[i]).position.x == 0,
            exists|i: int| 0 <= i < approximation@.len() && (#[trigger] approximation@[i]).position.y == 0,
    {
        let mut min_x: i32 = settled[0].x;
        let mut min_y: i32 = settled[0].y;
        let mut i: usize = 1;
        while i < settled.len()
            invariant
                1 <= i <= settled.len(),
                exists|j: int| 0 <= j < i && (#[trigger] settled@[j]).x == min_x,
                exists|j: int| 0 <= j < i && (#[trigger] settled@[j]).y == min_y,
                forall|j: int| 0 <= j < i ==> (#[trigger] settled@[j]).x >= min_x,
                forall|j: int| 0 <= j < i ==> (#[trigger] settled@[j]).y >= min_y,
            decreases settled.len() - i,
        {
            if settled[i].x < min_x {
                min_x = settled[i].x;
            }
            if settled[i].y < min_y {
                min_y = settled[i].y;
            }
            i += 1;
        }
        proof {
            assert(is_least_x(settled@, min_x as int));
            assert(is_least_y(settled@, min_y as int));
            lemma_least_unique(settled@, min_x as int, min_y as int);
        }
        let ghost at_min_x = choose|j: int| 0 <= j < settled@.len() && (#[trigger] settled@[j]).x == min_x;
        let ghost at_min_y = choose|j: int| 0 <= j < settled@.len() && (#[trigger] settled@[j]).y == min_y;
        let mut approximation: Vec<NodeApproximation> = Vec::new();
        let mut n: usize = 0;
        while n < self.nodes.len()
            invariant
                n <= self.nodes.len(),
                settled@.len() == self.nodes@.len(),
                approximation@.len() == n,
                min_x == least_x(settled@),
                min_y == least_y(settled@),
                forall|j: int| 0 <= j < settled@.len() ==> (#[trigger] settled@[j]).x >= min_x,
                forall|j: int| 0 <= j < settled@.len() ==> (#[trigger] settled@[j]).y >= min_y,
                forall|j: int|
                    0 <= j < n ==> {
                        &&& (#[trigger] approximation@[j]).name@ == self.names()[j]
                        &&& approximation@[j].position.x == settled@[j].x - min_x
                        &&& approximation@[j].position.y == settled@[j].y - min_y
                    },
            decreases self.nodes.len() - n,
        {
            let inner_node = &self.nodes[n];
            let x: i64 = settled[n].x as i64 - min_x as i64;
            let y: i64 = settled[n].y as i64 - min_y as i64;
            assert(0 <= x <= 0xffff_ffff && 0 <= y <= 0xffff_ffff);
            approximation.push(
                NodeApproximation {
                    name: inner_node.name.clone(),
                    position: PointApproximation { x: x as usize, y: y as usize },
                },
            );
            n += 1;
        }
        proof {
            assert(approximation@[at_min_x].position.x == 0);
            assert(approximation@[at_min_y].position.y == 0);
        }
        approximation
    }
}

/// `least` is the smallest column among the points.
pub open spec fn is_least_x(points: Seq<RoundedPoint>, least: int) -> bool {
    &&& exists|i: int| 0 <= i < points.len() && (#[trigger] points[i]).x == least
    &&& forall|i: int| 0 <= i < points.len() ==> (#[trigger] points[i]).x >= least
}

/// `least` is the smallest row among the points.
pub open spec fn is_least_y(points: Seq<RoundedPoint>, least: int) -> bool {
    &&& exists|i: int| 0 <= i < points.len() && (#[trigger] points[i]).y == least
    &&& forall|i: int| 0 <= i < points.len() ==> (#[trigger] points[i]).y >= least
}

/// The smallest column among points of which there is at least one.
pub open spec fn least_x(points: Seq<RoundedPoint>) -> int {
    choose|least: int| is_least_x(points, least)
}

/// The smallest row among points of which there is at least one.
pub open spec fn least_y(points: Seq<RoundedPoint>) -> int {
    choose|least: int| is_least_y(points, least)
}

/// Points have one smallest column and one smallest row.
pub proof fn lemma_least_unique(points: Seq<RoundedPoint>, x: int, y: int)
    requires
        is_least_x(points, x),
        is_least_y(points, y),
    ensures
        least_x(points) == x,
        least_y(points) == y,
{
}

} // verus!
