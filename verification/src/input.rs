//! From text to a diagram: the relation notation, the boxes at their
//! stretched positions, and the routing of one elbow arrow per relation.

use crate::canvas::Point;
use crate::domain::{label_width, placed, with_arrow, Arrow, Diagram, Node, NodeView};
use crate::layout::{
    least_x, least_y, lemma_index_of, ordered_pair, with_edge, with_node, Edge, Graph,
    NodeApproximation, Placement, PointApproximation, RoundedPoint,
};
use crate::style::{ArrowBody, ArrowHead, BorderType};
use crate::text::{chars_of, lines_of, reversed, split_lines};
use vstd::prelude::*;
use vstd::string::*;

verus! {

/// One relation: an arrow from `source` to `target`, drawn as `arrow` says.
#[derive(Debug)]
pub struct InnerMapping {
    pub source: String,
    pub arrow: String,
    pub target: String,
}

/// A relation as plain text.
pub struct Relation {
    pub source: Seq<char>,
    pub arrow: Seq<char>,
    pub target: Seq<char>,
}

impl View for InnerMapping {
    type V = Relation;

    open spec fn view(&self) -> Relation {
        Relation { source: self.source@, arrow: self.arrow@, target: self.target@ }
    }
}

/// The shaft that a relation token asks for. Every token asks for the basic
/// one.
pub fn read_arrow_body(arrow: &str) -> (body: ArrowBody)
    ensures
        body == ArrowBody::Basic,
{
    ArrowBody::Basic
}

/// The head that a relation token asks for. Every token asks for the basic
/// one.
pub fn read_arrow_head(arrow: &str) -> (head: ArrowHead)
    ensures
        head == ArrowHead::Basic,
{
    ArrowHead::Basic
}

/// The state of the tokenizer after some characters of a line.
pub struct Tokens {
    /// The parts that are complete.
    pub parts: Seq<Seq<char>>,
    /// The part that is still open.
    pub current: Seq<char>,
    /// A quote was opened and not closed yet.
    pub in_quotes: bool,
}

/// The tokenizer after one more character: a space outside quotes ends the
/// open part, a double quote switches quoting and is dropped, any other
/// character joins the open part.
pub open spec fn tokens_after(state: Tokens, c: char) -> Tokens {
    if c == ' ' && !state.in_quotes {
        Tokens { parts: state.parts.push(state.current), current: Seq::empty(), in_quotes: false }
    } else if c == '"' {
        Tokens { in_quotes: !state.in_quotes, ..state }
    } else {
        Tokens { current: state.current.push(c), ..state }
    }
}

/// The tokenizer after all of `line`.
pub open spec fn tokens_of(line: Seq<char>) -> Tokens
    decreases line.len(),
{
    if line.len() == 0 {
        Tokens { parts: Seq::empty(), current: Seq::empty(), in_quotes: false }
    } else {
        tokens_after(tokens_of(line.drop_last()), line.last())
    }
}

/// The parts of a line: what stands between spaces, where a space between
/// double quotes does not split and the quotes themselves are dropped.
pub open spec fn line_parts(line: Seq<char>) -> Seq<Seq<char>> {
    tokens_of(line).parts.push(tokens_of(line).current)
}

/// The parts of `line`.
pub fn get_line_parts_respecting_quotes(line: &str) -> (parts: Vec<String>)
    ensures
        parts@.len() == line_parts(line@).len(),
        forall|i: int| 0 <= i < parts@.len() ==> (#[trigger] parts@[i])@ == line_parts(line@)[i],
{
    broadcast use vstd::string::group_string_axioms;

    let mut parts: Vec<String> = Vec::new();
    let mut current_part = String::new();
    let mut in_quotes = false;
    for c in iter: line.chars()
        invariant
            iter.seq() == line@,
            parts@.len() == tokens_of(line@.take(iter.index())).parts.len(),
            forall|i: int|
                0 <= i < parts@.len() ==> (#[trigger] parts@[i])@ == tokens_of(
                    line@.take(iter.index()),
                ).parts[i],
            current_part@ == tokens_of(line@.take(iter.index())).current,
            in_quotes == tokens_of(line@.take(iter.index())).in_quotes,
    {
        proof {
            let next = line@.take(iter.index() + 1);
            assert(next.drop_last() =~= line@.take(iter.index()));
            assert(next.last() == c);
        }
        if c == ' ' && !in_quotes {
            parts.push(current_part);
            current_part = String::new();
        } else if c == '"' {
            in_quotes = !in_quotes;
        } else {
            current_part.push(c);
        }
    }
    assert(line@.take(line@.len() as int) =~= line@);
    parts.push(current_part);
    parts
}

/// The words that open the complaint about a line.
pub open spec fn complaint_prefix() -> Seq<char> {
    "Cannot understand this line: "@
}

/// What a line says: a relation, where it has three parts, and else a
/// complaint that quotes the line. A token that begins with `<` points
/// backwards: the relation then runs from the third part to the first, with
/// the token read from its end.
pub open spec fn relation_of(line: Seq<char>) -> Result<Relation, Seq<char>> {
    let parts = line_parts(line);
    if parts.len() != 3 {
        Err(complaint_prefix() + line)
    } else if parts[1].len() > 0 && parts[1][0] == '<' {
        Ok(Relation { source: parts[2], arrow: parts[1].reverse(), target: parts[0] })
    } else {
        Ok(Relation { source: parts[0], arrow: parts[1], target: parts[2] })
    }
}

/// `read` says of a line what `relation_of` says of it.
pub open spec fn reads_as(read: Result<InnerMapping, String>, line: Seq<char>) -> bool {
    match read {
        Ok(mapping) => relation_of(line) == Ok::<Relation, Seq<char>>(mapping@),
        Err(complaint) => relation_of(line) == Err::<Relation, Seq<char>>(complaint@),
    }
}

/// What one line says.
pub fn read_line(line: &str) -> (read: Result<InnerMapping, String>)
    ensures
        reads_as(read, line@),
{
    let mut parts = get_line_parts_respecting_quotes(line);
    if parts.len() != 3 {
        let mut complaint = String::from_str("Cannot understand this line: ");
        complaint.append(line);
        return Err(complaint);
    }
    let third = parts.pop().unwrap();
    let arrow = parts.pop().unwrap();
    let first = parts.pop().unwrap();
    let token = chars_of(arrow.as_str());
    let arrow_correct_direction = !(token.len() > 0 && token[0] == '<');
    if arrow_correct_direction {
        Ok(InnerMapping { source: first, arrow, target: third })
    } else {
        Ok(InnerMapping { source: third, arrow: reversed(&token), target: first })
    }
}

/// What each line of `text` says, line by line.
pub fn get_inner_mappings(text: &str) -> (read: Vec<Result<InnerMapping, String>>)
    ensures
        read@.len() == lines_of(text@).len(),
        forall|i: int| 0 <= i < read@.len() ==> reads_as(#[trigger] read@[i], lines_of(text@)[i]),
{
    let lines = split_lines(text);
    let mut read: Vec<Result<InnerMapping, String>> = Vec::new();
    let mut i: usize = 0;
    while i < lines.len()
        invariant
            i <= lines.len(),
            lines@.len() == lines_of(text@).len(),
            forall|k: int| 0 <= k < lines@.len() ==> (#[trigger] lines@[k])@ == lines_of(text@)[k],
            read@.len() == i,
            forall|k: int| 0 <= k < i ==> reads_as(#[trigger] read@[k], lines_of(text@)[k]),
        decreases lines.len() - i,
    {
        let one = read_line(lines[i].as_str());
        read.push(one);
        i += 1;
    }
    read
}

/// How many columns a layout column is stretched to, to leave room for the
/// boxes.
pub const STRETCH: usize = 4;

/// The columns of a box that its label does not take.
pub const BOX_WIDTH: usize = 4;

/// The rows of a box.
pub const BOX_HEIGHT: usize = 3;

/// The point on the character grid where the box of a laid-out node has its
/// top-left corner: columns are stretched, rows are not.
pub open spec fn stretched(position: PointApproximation) -> Point {
    Point { x: (position.x * STRETCH) as usize, y: position.y }
}

/// The box that a laid-out node is drawn as.
pub open spec fn box_of(node: Placement) -> NodeView {
    NodeView { name: node.name, border: BorderType::Box }
}

/// The laid-out nodes as plain values.
pub open spec fn placements(approximation: Seq<NodeApproximation>) -> Seq<Placement> {
    approximation.map_values(|node: NodeApproximation| node@)
}

/// The nodes of a diagram after the laid-out nodes were put into it in
/// turn, each at its stretched position.
pub open spec fn place_all(nodes: Seq<(Point, NodeView)>, approximation: Seq<Placement>) -> Seq<
    (Point, NodeView),
>
    decreases approximation.len(),
{
    if approximation.len() == 0 {
        nodes
    } else {
        placed(
            place_all(nodes, approximation.drop_last()),
            stretched(approximation.last().position),
            box_of(approximation.last()),
        )
    }
}

/// Every laid-out node can be stretched without leaving the grid.
pub open spec fn stretchable(approximation: Seq<Placement>) -> bool {
    forall|i: int|
        0 <= i < approximation.len() ==> (#[trigger] approximation[i]).position.x * STRETCH
            <= usize::MAX
}

/// No two laid-out nodes are at the same position.
pub open spec fn apart(approximation: Seq<Placement>) -> bool {
    forall|i: int, j: int|
        0 <= i < j < approximation.len() ==> (#[trigger] approximation[i]).position != (
        #[trigger] approximation[j]).position
}

/// Puts a box into `map` for every laid-out node, at its stretched
/// position.
pub fn include_nodes(map: &mut Diagram, approximation: &Vec<NodeApproximation>)
    requires
        old(map).wf(),
        stretchable(placements(approximation@)),
    ensures
        final(map).wf(),
        final(map).arrows == old(map).arrows,
        final(map).boxes() == place_all(old(map).boxes(), placements(approximation@)),
{
    let mut i: usize = 0;
    while i < approximation.len()
        invariant
            i <= approximation.len(),
            stretchable(placements(approximation@)),
            map.wf(),
            map.arrows == old(map).arrows,
            map.boxes() == place_all(old(map).boxes(), placements(approximation@).take(i as int)),
        decreases approximation.len() - i,
    {
        let node = &approximation[i];
        proof {
            let next = placements(approximation@).take(i + 1);
            assert(next.drop_last() =~= placements(approximation@).take(i as int));
            assert(next.last() == approximation@[i as int]@);
            assert(placements(approximation@)[i as int].position.x * STRETCH <= usize::MAX);
        }
        map.insert_node(
            Point { x: node.position.x * STRETCH, y: node.position.y },
            Node { name: node.name.clone(), border: BorderType::Box },
        );
        i += 1;
    }
    assert(placements(approximation@).take(approximation@.len() as int) =~= placements(
        approximation@,
    ));
}

/// Laid-out nodes that are apart give one box each, in their order.
pub proof fn lemma_one_box_per_node(approximation: Seq<Placement>)
    requires
        stretchable(approximation),
        apart(approximation),
    ensures
        place_all(Seq::empty(), approximation).len() == approximation.len(),
        forall|i: int|
            0 <= i < approximation.len() ==> (#[trigger] place_all(Seq::empty(), approximation)[i])
                == (stretched(approximation[i].position), box_of(approximation[i])),
    decreases approximation.len(),
{
    if approximation.len() > 0 {
        let front = approximation.drop_last();
        assert(apart(front)) by {
            assert forall|i: int, j: int| 0 <= i < j < front.len() implies (#[trigger] front[i]).position
                != (#[trigger] front[j]).position by {
                assert(approximation[i].position != approximation[j].position);
            }
        }
        assert(stretchable(front)) by {
            assert forall|i: int| 0 <= i < front.len() implies (#[trigger] front[i]).position.x
                * STRETCH <= usize::MAX by {
                assert(approximation[i].position.x * STRETCH <= usize::MAX);
            }
        }
        lemma_one_box_per_node(front);
        let before = place_all(Seq::empty(), front);
        let last = approximation.last();
        assert forall|i: int| 0 <= i < before.len() implies (#[trigger] before[i]).0 != stretched(
            last.position,
        ) by {
            assert(front[i] == approximation[i]);
            assert(approximation[i].position != approximation[approximation.len() - 1].position);
            assert(approximation[i].position.x * STRETCH <= usize::MAX);
            assert(last.position.x * STRETCH <= usize::MAX);
        }
        assert forall|i: int| 0 <= i < approximation.len() implies (#[trigger] place_all(
            Seq::empty(),
            approximation,
        )[i]) == (stretched(approximation[i].position), box_of(approximation[i])) by {
            if i < front.len() {
                assert(front[i] == approximation[i]);
            }
        }
    }
}

/// A side of a box.
#[derive(Debug, PartialEq, Eq, Structural, Hash, Copy, Clone)]
pub enum Direction {
    Top,
    Bottom,
    Left,
    Right,
}

/// For each side of a box, the offset that the next arrow on that side
/// gets.
#[derive(Debug, PartialEq, Eq, Structural, Copy, Clone)]
pub struct UsedAnchors {
    pub top: usize,
    pub bottom: usize,
    pub left: usize,
    pub right: usize,
}

impl UsedAnchors {
    /// The offsets of a box that no arrow touches yet: 2 on the top and the
    /// bottom, under the label's first character, and 1 on the left and the
    /// right, the middle row.
    pub open spec fn fresh() -> UsedAnchors {
        UsedAnchors { top: 2, bottom: 2, left: 1, right: 1 }
    }

    /// The offset that the next arrow on the side `direction` gets.
    pub open spec fn at(self, direction: Direction) -> usize {
        match direction {
            Direction::Top => self.top,
            Direction::Bottom => self.bottom,
            Direction::Left => self.left,
            Direction::Right => self.right,
        }
    }

    /// The offset that follows `offset` on the side `direction`: one more,
    /// but on the left and the right 0 follows 2, since a box has three
    /// rows.
    pub open spec fn following(direction: Direction, offset: usize) -> int {
        if (direction == Direction::Left || direction == Direction::Right) && offset == 2 {
            0
        } else {
            offset + 1
        }
    }

    /// The offsets after an arrow took the next one on the side
    /// `direction`.
    pub open spec fn after(self, direction: Direction) -> UsedAnchors {
        let next = Self::following(direction, self.at(direction)) as usize;
        match direction {
            Direction::Top => UsedAnchors { top: next, ..self },
            Direction::Bottom => UsedAnchors { bottom: next, ..self },
            Direction::Left => UsedAnchors { left: next, ..self },
            Direction::Right => UsedAnchors { right: next, ..self },
        }
    }
}

/// The cell just outside the box at `anchor`, with a label `width` columns
/// wide, where an arrow touches the side `direction` at `offset`: along the
/// side for the top and the bottom, down the side for the left and the
/// right.
pub open spec fn anchor_point(anchor: Point, width: nat, direction: Direction, offset: usize) -> Point {
    match direction {
        Direction::Top => Point { x: (anchor.x + offset) as usize, y: (anchor.y - 1) as usize },
        Direction::Bottom => Point {
            x: (anchor.x + offset) as usize,
            y: (anchor.y + BOX_HEIGHT) as usize,
        },
        Direction::Left => Point { x: (anchor.x - 1) as usize, y: (anchor.y + offset) as usize },
        Direction::Right => Point {
            x: (anchor.x + BOX_WIDTH + width) as usize,
            y: (anchor.y + offset) as usize,
        },
    }
}

/// The point of `anchor_point` is on the grid.
pub open spec fn anchor_on_grid(anchor: Point, width: nat, direction: Direction, offset: usize) -> bool {
    match direction {
        Direction::Top => anchor.x + offset <= usize::MAX && anchor.y >= 1,
        Direction::Bottom => anchor.x + offset <= usize::MAX && anchor.y + BOX_HEIGHT
            <= usize::MAX,
        Direction::Left => anchor.x >= 1 && anchor.y + offset <= usize::MAX,
        Direction::Right => anchor.x + BOX_WIDTH + width <= usize::MAX && anchor.y + offset
            <= usize::MAX,
    }
}

/// The box of one node during routing: where it is, what it is called, and
/// which offsets its sides hand out next.
pub struct ArrowAnchorsForNode {
    pub anchor: Point,
    pub node_label: String,
    pub used_anchors: UsedAnchors,
}

impl ArrowAnchorsForNode {
    /// The box of the node `node_label` at `anchor`, untouched.
    pub fn new(node_label: &str, anchor: &Point) -> (anchors: ArrowAnchorsForNode)
        ensures
            anchors.anchor == *anchor,
            anchors.node_label@ == node_label@,
            anchors.used_anchors == UsedAnchors::fresh(),
    {
        ArrowAnchorsForNode {
            anchor: *anchor,
            node_label: node_label.to_owned(),
            used_anchors: UsedAnchors { top: 2, bottom: 2, left: 1, right: 1 },
        }
    }

    /// Hands out the next offset on the side `direction`.
    pub fn get_arrow_anchor_offset(&mut self, direction: Direction) -> (output: usize)
        requires
            old(self).used_anchors.at(direction) < usize::MAX,
        ensures
            output == old(self).used_anchors.at(direction),
            final(self).used_anchors == old(self).used_anchors.after(direction),
            final(self).anchor == old(self).anchor,
            final(self).node_label == old(self).node_label,
    {
        let output = match direction {
            Direction::Top => self.used_anchors.top,
            Direction::Bottom => self.used_anchors.bottom,
            Direction::Left => self.used_anchors.left,
            Direction::Right => self.used_anchors.right,
        };
        let next_output = match (direction, output) {
            (Direction::Left, 2) | (Direction::Right, 2) => 0,
            _ => output + 1,
        };
        match direction {
            Direction::Top => {
                self.used_anchors.top = next_output;
            },
            Direction::Bottom => {
                self.used_anchors.bottom = next_output;
            },
            Direction::Left => {
                self.used_anchors.left = next_output;
            },
            Direction::Right => {
                self.used_anchors.right = next_output;
            },
        }
        output
    }

    /// Hands out the next anchor on the side `direction`.
    pub fn get_arrow_anchor(&mut self, direction: Direction) -> (point: Point)
        requires
            old(self).used_anchors.at(direction) < usize::MAX,
            anchor_on_grid(
                old(self).anchor,
                label_width(old(self).node_label@),
                direction,
                old(self).used_anchors.at(direction),
            ),
        ensures
            point == anchor_point(
                old(self).anchor,
                label_width(old(self).node_label@),
                direction,
                old(self).used_anchors.at(direction),
            ),
            final(self).used_anchors == old(self).used_anchors.after(direction),
            final(self).anchor == old(self).anchor,
            final(self).node_label == old(self).node_label,
    {
        let offset = self.get_arrow_anchor_offset(direction);
        let (x, y) = match direction {
            Direction::Top => (self.anchor.x + offset, self.anchor.y - 1),
            Direction::Bottom => (self.anchor.x + offset, self.anchor.y + BOX_HEIGHT),
            Direction::Left => (self.anchor.x - 1, self.anchor.y + offset),
            Direction::Right => (
                self.anchor.x + BOX_WIDTH + self.node_label.as_str().as_bytes().len(),
                self.anchor.y + offset,
            ),
        };
        Point { x, y }
    }
}

/// The sides that an arrow leaves and reaches, by where the box it reaches
/// lies, seen from the box it leaves. None where the two are at one point.
pub open spec fn sides_for(from: Point, to: Point) -> Option<(Direction, Direction)> {
    if from.x < to.x && from.y < to.y {
        Some((Direction::Bottom, Direction::Left))
    } else if from.x > to.x && from.y > to.y {
        Some((Direction::Left, Direction::Bottom))
    } else if from.x > to.x && from.y < to.y {
        Some((Direction::Bottom, Direction::Right))
    } else if from.x < to.x && from.y > to.y {
        Some((Direction::Right, Direction::Bottom))
    } else if from.x == to.x && from.y < to.y {
        Some((Direction::Bottom, Direction::Top))
    } else if from.x == to.x && from.y > to.y {
        Some((Direction::Top, Direction::Bottom))
    } else if from.x < to.x && from.y == to.y {
        Some((Direction::Right, Direction::Left))
    } else if from.x > to.x && from.y == to.y {
        Some((Direction::Left, Direction::Right))
    } else {
        None
    }
}

/// The sides for an arrow from the box at `from` to the box at `to`.
pub fn choose_sides(from: &Point, to: &Point) -> (sides: Option<(Direction, Direction)>)
    ensures
        sides == sides_for(*from, *to),
{
    let (x1, y1, x2, y2) = (from.x, from.y, to.x, to.y);
    if x1 < x2 && y1 < y2 {
        Some((Direction::Bottom, Direction::Left))
    } else if x1 > x2 && y1 > y2 {
        Some((Direction::Left, Direction::Bottom))
    } else if x1 > x2 && y1 < y2 {
        Some((Direction::Bottom, Direction::Right))
    } else if x1 < x2 && y1 > y2 {
        Some((Direction::Right, Direction::Bottom))
    } else if x1 == x2 && y1 < y2 {
        Some((Direction::Bottom, Direction::Top))
    } else if x1 == x2 && y1 > y2 {
        Some((Direction::Top, Direction::Bottom))
    } else if x1 < x2 && y1 == y2 {
        Some((Direction::Right, Direction::Left))
    } else if x1 > x2 && y1 == y2 {
        Some((Direction::Left, Direction::Right))
    } else {
        None
    }
}

/// The point where an arrow from `start` to `end` bends. Between two
/// anchors on a diagonal it shares a column with one and a row with the
/// other; between two on one row or one column it lies one cell past
/// `start` on the way to `end`, so that the first piece is one cell long
/// even where the two are neighbours. None where the two are at one point.
pub open spec fn elbow(start: Point, end: Point) -> Option<Point> {
    if start.x < end.x && start.y < end.y {
        Some(Point { x: start.x, y: end.y })
    } else if start.x > end.x && start.y > end.y {
        Some(Point { x: end.x, y: start.y })
    } else if start.x > end.x && start.y < end.y {
        Some(Point { x: start.x, y: end.y })
    } else if start.x < end.x && start.y > end.y {
        Some(Point { x: end.x, y: start.y })
    } else if start.x == end.x && start.y < end.y {
        Some(Point { x: start.x, y: (start.y + 1) as usize })
    } else if start.x == end.x && start.y > end.y {
        Some(Point { x: start.x, y: (start.y - 1) as usize })
    } else if start.x < end.x && start.y == end.y {
        Some(Point { x: (start.x + 1) as usize, y: start.y })
    } else if start.x > end.x && start.y == end.y {
        Some(Point { x: (start.x - 1) as usize, y: start.y })
    } else {
        None
    }
}

/// The bend of an arrow from `start` to `end`.
pub fn find_elbow(start: &Point, end: &Point) -> (middle: Option<Point>)
    ensures
        middle == elbow(*start, *end),
{
    let (x1, y1, x2, y2) = (start.x, start.y, end.x, end.y);
    if x1 < x2 && y1 < y2 {
        Some(Point { x: x1, y: y2 })
    } else if x1 > x2 && y1 > y2 {
        Some(Point { x: x2, y: y1 })
    } else if x1 > x2 && y1 < y2 {
        Some(Point { x: x1, y: y2 })
    } else if x1 < x2 && y1 > y2 {
        Some(Point { x: x2, y: y1 })
    } else if x1 == x2 && y1 < y2 {
        Some(Point { x: x1, y: y1 + 1 })
    } else if x1 == x2 && y1 > y2 {
        Some(Point { x: x1, y: y1 - 1 })
    } else if x1 < x2 && y1 == y2 {
        Some(Point { x: x1 + 1, y: y1 })
    } else if x1 > x2 && y1 == y2 {
        Some(Point { x: x1 - 1, y: y1 })
    } else {
        None
    }
}

/// An arrow that bends at its elbow has two straight pieces, each along one
/// row or one column.
pub proof fn lemma_elbow_axis_aligned(start: Point, end: Point, body: ArrowBody, head: ArrowHead)
    requires
        elbow(start, end) is Some,
    ensures
        (Arrow { start, middle: elbow(start, end)->0, end, body, head }).axis_aligned(),
{
}

/// The relations that the mappings hold, as plain text.
pub open spec fn relations_of(mappings: Seq<InnerMapping>) -> Seq<Relation> {
    mappings.map_values(|m: InnerMapping| m@)
}

/// One of the nodes is called `name`.
pub open spec fn has_node(nodes: Seq<(Point, NodeView)>, name: Seq<char>) -> bool {
    exists|i: int| 0 <= i < nodes.len() && (#[trigger] nodes[i]).1.name == name
}

/// The index of the node called `name`.
pub open spec fn node_index(nodes: Seq<(Point, NodeView)>, name: Seq<char>) -> int {
    choose|i: int| 0 <= i < nodes.len() && (#[trigger] nodes[i]).1.name == name
}

/// No two nodes have the same name.
pub open spec fn names_apart(nodes: Seq<(Point, NodeView)>) -> bool {
    forall|i: int, j: int|
        0 <= i < j < nodes.len() ==> (#[trigger] nodes[i]).1.name != (#[trigger] nodes[j]).1.name
}

/// Both ends of every relation are among the nodes.
pub open spec fn ends_known(nodes: Seq<(Point, NodeView)>, relations: Seq<Relation>) -> bool {
    forall|k: int|
        0 <= k < relations.len() ==> has_node(nodes, (#[trigger] relations[k]).source) && has_node(
            nodes,
            relations[k].target,
        )
}

/// Every anchor that routing `relations` many relations can hand out is on
/// the grid.
pub open spec fn routable(nodes: Seq<(Point, NodeView)>, relations: nat) -> bool {
    forall|i: int|
        0 <= i < nodes.len() ==> {
            &&& (#[trigger] nodes[i]).0.x + label_width(nodes[i].1.name) + BOX_WIDTH <= usize::MAX
            &&& nodes[i].0.x + relations + 2 <= usize::MAX
            &&& nodes[i].0.y + BOX_HEIGHT <= usize::MAX
        }
}

/// The state of the routing: for each node the offsets that its sides hand
/// out next, and the arrows found so far.
pub struct Routing {
    pub used: Seq<UsedAnchors>,
    pub arrows: Seq<Arrow>,
}

/// The routing before the first relation: every box untouched.
pub open spec fn routing_start(nodes: Seq<(Point, NodeView)>, arrows: Seq<Arrow>) -> Routing {
    Routing { used: Seq::new(nodes.len(), |i: int| UsedAnchors::fresh()), arrows }
}

/// The routing after one more relation. Where the two boxes are at one point
/// nothing changes. Else the box that the arrow leaves hands out an anchor,
/// then the box that it reaches; where the two anchors are at one point no
/// arrow is added, though both anchors are spent.
pub open spec fn routed(nodes: Seq<(Point, NodeView)>, state: Routing, relation: Relation) -> Routing {
    let f = node_index(nodes, relation.source);
    let t = node_index(nodes, relation.target);
    match sides_for(nodes[f].0, nodes[t].0) {
        None => state,
        Some((side_from, side_to)) => {
            let start = anchor_point(
                nodes[f].0,
                label_width(nodes[f].1.name),
                side_from,
                state.used[f].at(side_from),
            );
            let used = state.used.update(f, state.used[f].after(side_from));
            let end = anchor_point(
                nodes[t].0,
                label_width(nodes[t].1.name),
                side_to,
                used[t].at(side_to),
            );
            let used = used.update(t, used[t].after(side_to));
            match elbow(start, end) {
                None => Routing { used, arrows: state.arrows },
                Some(middle) => Routing {
                    used,
                    arrows: with_arrow(
                        state.arrows,
                        Arrow {
                            start,
                            middle,
                            end,
                            body: ArrowBody::Basic,
                            head: ArrowHead::Basic,
                        },
                    ),
                },
            }
        },
    }
}

/// The routing after the relations, taken in their order.
pub open spec fn route_all(nodes: Seq<(Point, NodeView)>, state: Routing, relations: Seq<Relation>) -> Routing
    decreases relations.len(),
{
    if relations.len() == 0 {
        state
    } else {
        routed(nodes, route_all(nodes, state, relations.drop_last()), relations.last())
    }
}

/// The index of the box called `name`.
fn find_anchors(anchors_for_nodes: &Vec<ArrowAnchorsForNode>, name: &String) -> (found: Option<usize>)
    ensures
        match found {
            Some(i) => i < anchors_for_nodes@.len() && anchors_for_nodes@[i as int].node_label@
                == name@,
            None => forall|i: int|
                0 <= i < anchors_for_nodes@.len() ==> (#[trigger] anchors_for_nodes@[i]).node_label@
                    != name@,
        },
{
    let mut i: usize = 0;
    while i < anchors_for_nodes.len()
        invariant
            i <= anchors_for_nodes.len(),
            forall|j: int| 0 <= j < i ==> (#[trigger] anchors_for_nodes@[j]).node_label@ != name@,
        decreases anchors_for_nodes.len() - i,
    {
        if anchors_for_nodes[i].node_label == *name {
            return Some(i);
        }
        i += 1;
    }
    None
}

/// The offsets that the boxes hand out next, box by box.
pub open spec fn used_of(anchors_for_nodes: Seq<ArrowAnchorsForNode>) -> Seq<UsedAnchors> {
    Seq::new(anchors_for_nodes.len(), |i: int| anchors_for_nodes[i].used_anchors)
}

/// The boxes are those of the nodes, in their order.
pub open spec fn boxes_match(anchors_for_nodes: Seq<ArrowAnchorsForNode>, nodes: Seq<(Point, NodeView)>) -> bool {
    &&& anchors_for_nodes.len() == nodes.len()
    &&& forall|i: int|
        0 <= i < nodes.len() ==> (#[trigger] anchors_for_nodes[i]).anchor == nodes[i].0
            && anchors_for_nodes[i].node_label@ == nodes[i].1.name
}

/// No side has handed out more than `relations` many anchors.
pub open spec fn used_within(used: Seq<UsedAnchors>, relations: nat) -> bool {
    forall|i: int|
        0 <= i < used.len() ==> (#[trigger] used[i]).top <= 2 + relations && used[i].bottom <= 2
            + relations && used[i].left <= 2 && used[i].right <= 2
}

/// Every arrow among `arrows` was among `earlier` or has two straight
/// pieces, each along one row or one column.
pub open spec fn new_arrows_aligned(earlier: Seq<Arrow>, arrows: Seq<Arrow>) -> bool {
    forall|a: Arrow| arrows.contains(a) ==> earlier.contains(a) || a.axis_aligned()
}

/// Adds one arrow to `map` for every relation, in their order: from an
/// anchor on the box of its source over one bend to an anchor on the box of
/// its target. A relation between boxes at one point adds none.
#[verifier::rlimit(40)]
pub fn include_arrows(map: &mut Diagram, inner_mappings: &Vec<InnerMapping>)
    requires
        old(map).wf(),
        names_apart(old(map).boxes()),
        ends_known(old(map).boxes(), relations_of(inner_mappings@)),
        routable(old(map).boxes(), inner_mappings@.len()),
    ensures
        final(map).wf(),
        final(map).nodes == old(map).nodes,
        final(map).arrows@ == route_all(
            old(map).boxes(),
            routing_start(old(map).boxes(), old(map).arrows@),
            relations_of(inner_mappings@),
        ).arrows,
        new_arrows_aligned(old(map).arrows@, final(map).arrows@),
{
    let ghost nodes = map.boxes();
    let ghost relations = relations_of(inner_mappings@);
    let mut anchors_for_nodes: Vec<ArrowAnchorsForNode> = Vec::new();
    let mut i: usize = 0;
    while i < map.nodes.len()
        invariant
            i <= map.nodes.len(),
            *map == *old(map),
            nodes == map.boxes(),
            anchors_for_nodes@.len() == i,
            forall|j: int|
                0 <= j < i ==> (#[trigger] anchors_for_nodes@[j]).anchor == nodes[j].0
                    && anchors_for_nodes@[j].node_label@ == nodes[j].1.name
                    && anchors_for_nodes@[j].used_anchors == UsedAnchors::fresh(),
        decreases map.nodes.len() - i,
    {
        let anchors = ArrowAnchorsForNode::new(map.nodes[i].1.name.as_str(), &map.nodes[i].0);
        anchors_for_nodes.push(anchors);
        i += 1;
    }
    assert(used_of(anchors_for_nodes@) =~= routing_start(nodes, map.arrows@).used);
    assert(relations.take(0) =~= Seq::<Relation>::empty());
    let mut k: usize = 0;
    while k < inner_mappings.len()
        invariant
            k <= inner_mappings.len(),
            nodes == old(map).boxes(),
            relations == relations_of(inner_mappings@),
            map.wf(),
            map.nodes == old(map).nodes,
            names_apart(nodes),
            ends_known(nodes, relations),
            routable(nodes, inner_mappings@.len()),
            boxes_match(anchors_for_nodes@, nodes),
            used_within(used_of(anchors_for_nodes@), k as nat),
            (Routing { used: used_of(anchors_for_nodes@), arrows: map.arrows@ }) == route_all(
                nodes,
                routing_start(nodes, old(map).arrows@),
                relations.take(k as int),
            ),
            new_arrows_aligned(old(map).arrows@, map.arrows@),
        decreases inner_mappings.len() - k,
    {
        let mapping = &inner_mappings[k];
        let ghost before = Routing { used: used_of(anchors_for_nodes@), arrows: map.arrows@ };
        let ghost boxes_before = anchors_for_nodes@;
        proof {
            let next = relations.take(k + 1);
            assert(next.drop_last() =~= relations.take(k as int));
            assert(next.last() == mapping@);
            assert(relations[k as int] == mapping@);
            assert(has_node(nodes, mapping.source@) && has_node(nodes, mapping.target@));
            let sf = node_index(nodes, mapping.source@);
            let st = node_index(nodes, mapping.target@);
            assert(anchors_for_nodes@[sf].node_label@ == mapping.source@);
            assert(anchors_for_nodes@[st].node_label@ == mapping.target@);
        }
        let f = find_anchors(&anchors_for_nodes, &mapping.source).unwrap();
        let t = find_anchors(&anchors_for_nodes, &mapping.target).unwrap();
        proof {
            let sf = node_index(nodes, mapping.source@);
            let st = node_index(nodes, mapping.target@);
            assert(nodes[sf].1.name == mapping.source@);
            assert(nodes[st].1.name == mapping.target@);
            assert(nodes[f as int].1.name == mapping.source@);
            assert(nodes[t as int].1.name == mapping.target@);
            assert(sf == f);
            assert(st == t);
        }
        let sides = choose_sides(&anchors_for_nodes[f].anchor, &anchors_for_nodes[t].anchor);
        match sides {
            None => {},
            Some((side_from, side_to)) => {
                assert(f != t);
                assert(before.used[f as int] == boxes_before[f as int].used_anchors);
                assert(before.used[t as int] == boxes_before[t as int].used_anchors);
                let arrow_start = anchors_for_nodes[f].get_arrow_anchor(side_from);
                let ghost boxes_between = anchors_for_nodes@;
                assert(used_of(boxes_between) =~= before.used.update(
                    f as int,
                    before.used[f as int].after(side_from),
                ));
                let arrow_end = anchors_for_nodes[t].get_arrow_anchor(side_to);
                assert(used_of(anchors_for_nodes@) =~= used_of(boxes_between).update(
                    t as int,
                    used_of(boxes_between)[t as int].after(side_to),
                ));
                let arrow_middle = find_elbow(&arrow_start, &arrow_end);
                match arrow_middle {
                    None => {},
                    Some(middle) => {
                        let arrow = Arrow {
                            start: arrow_start,
                            middle,
                            end: arrow_end,
                            body: read_arrow_body(mapping.arrow.as_str()),
                            head: read_arrow_head(mapping.arrow.as_str()),
                        };
                        proof {
                            lemma_elbow_axis_aligned(arrow_start, arrow_end, arrow.body, arrow.head);
                        }
                        let ghost arrows_before = map.arrows@;
                        map.insert_arrow(arrow);
                        assert forall|a: Arrow| map.arrows@.contains(a) implies old(
                            map,
                        ).arrows@.contains(a) || a.axis_aligned() by {
                            if !arrows_before.contains(a) {
                                let j = choose|j: int| 0 <= j < map.arrows@.len() && map.arrows@[j] == a;
                                if j < arrows_before.len() {
                                    assert(arrows_before[j] == a);
                                }
                            }
                        }
                    },
                }
            },
        }
        k += 1;
    }
    assert(relations.take(relations.len() as int) =~= relations);
}

/// The complaint about the first line that is no relation, if there is such
/// a line.
pub open spec fn first_complaint(lines: Seq<Seq<char>>) -> Option<Seq<char>>
    decreases lines.len(),
{
    if lines.len() == 0 {
        None
    } else {
        match first_complaint(lines.drop_last()) {
            Some(complaint) => Some(complaint),
            None => match relation_of(lines.last()) {
                Ok(_) => None,
                Err(complaint) => Some(complaint),
            },
        }
    }
}

/// The relations that the lines hold, where every line holds one.
pub open spec fn relations_in(lines: Seq<Seq<char>>) -> Seq<Relation> {
    lines.map_values(|line: Seq<char>| relation_of(line)->Ok_0)
}

/// The relations of `text`, line by line, or the complaint about its first
/// line that is no relation. Nothing is kept of a text with such a line, and
/// the lines after it are not read.
pub fn read_relations(text: &str) -> (read: Result<Vec<InnerMapping>, String>)
    ensures
        match read {
            Ok(mappings) => first_complaint(lines_of(text@)) is None && relations_of(mappings@)
                == relations_in(lines_of(text@)),
            Err(complaint) => first_complaint(lines_of(text@)) == Some(complaint@),
        },
{
    let lines = split_lines(text);
    let ghost texts = lines_of(text@);
    let mut mappings: Vec<InnerMapping> = Vec::new();
    let mut i: usize = 0;
    while i < lines.len()
        invariant
            i <= lines.len(),
            texts == lines_of(text@),
            lines@.len() == texts.len(),
            forall|k: int| 0 <= k < lines@.len() ==> (#[trigger] lines@[k])@ == texts[k],
            first_complaint(texts.take(i as int)) is None,
            mappings@.len() == i,
            forall|k: int| 0 <= k < i ==> relation_of(texts[k]) == Ok::<Relation, Seq<char>>(
                (#[trigger] mappings@[k])@,
            ),
        decreases lines.len() - i,
    {
        proof {
            let next = texts.take(i + 1);
            assert(next.drop_last() =~= texts.take(i as int));
            assert(next.last() == texts[i as int]);
        }
        match read_line(lines[i].as_str()) {
            Ok(mapping) => {
                mappings.push(mapping);
            },
            Err(complaint) => {
                proof {
                    assert(relation_of(texts[i as int]) == Err::<Relation, Seq<char>>(complaint@));
                    assert(first_complaint(texts.take(i + 1)) == Some(complaint@));
                    lemma_first_complaint_stays(texts, i + 1);
                }
                return Err(complaint);
            },
        }
        i += 1;
    }
    assert(texts.take(texts.len() as int) =~= texts);
    assert(relations_of(mappings@) =~= relations_in(texts));
    Ok(mappings)
}

/// A complaint that was found in the first lines is the complaint of the
/// whole text.
pub proof fn lemma_first_complaint_stays(lines: Seq<Seq<char>>, n: int)
    requires
        0 <= n <= lines.len(),
        first_complaint(lines.take(n)) is Some,
    ensures
        first_complaint(lines) == first_complaint(lines.take(n)),
    decreases lines.len() - n,
{
    if n < lines.len() {
        let next = lines.take(n + 1);
        assert(next.drop_last() =~= lines.take(n));
        lemma_first_complaint_stays(lines, n + 1);
    } else {
        assert(lines.take(n) =~= lines);
    }
}

/// The names of the nodes that the relations ask for, each once, in the
/// order in which they first occur: the source of a relation before its
/// target.
pub open spec fn names_in(relations: Seq<Relation>) -> Seq<Seq<char>>
    decreases relations.len(),
{
    if relations.len() == 0 {
        Seq::empty()
    } else {
        with_node(
            with_node(names_in(relations.drop_last()), relations.last().source),
            relations.last().target,
        )
    }
}

/// The edges that the relations ask for: one for every two different nodes
/// that a relation joins, whatever its direction and however often.
pub open spec fn edges_in(relations: Seq<Relation>) -> Seq<Edge>
    decreases relations.len(),
{
    if relations.len() == 0 {
        Seq::empty()
    } else {
        with_edge(
            names_in(relations),
            edges_in(relations.drop_last()),
            relations.last().source,
            relations.last().target,
        )
    }
}

/// Adding a node keeps the names that were there, in their places, keeps
/// them apart, and makes the name one of them.
pub proof fn lemma_with_node(names: Seq<Seq<char>>, name: Seq<char>)
    requires
        names.no_duplicates(),
    ensures
        with_node(names, name).no_duplicates(),
        with_node(names, name).contains(name),
        names.len() <= with_node(names, name).len(),
        forall|i: int| 0 <= i < names.len() ==> with_node(names, name)[i] == names[i],
        forall|other: Seq<char>| names.contains(other) ==> with_node(names, name).contains(other),
        forall|other: Seq<char>|
            with_node(names, name).contains(other) ==> names.contains(other) || other == name,
{
    let after = with_node(names, name);
    if !names.contains(name) {
        assert(after[names.len() as int] == name);
        assert forall|other: Seq<char>| names.contains(other) implies after.contains(other) by {
            let i = choose|i: int| 0 <= i < names.len() && names[i] == other;
            assert(after[i] == other);
        }
        assert forall|other: Seq<char>| after.contains(other) implies names.contains(other) || other
            == name by {
            let i = choose|i: int| 0 <= i < after.len() && after[i] == other;
            if i < names.len() {
                assert(names[i] == other);
            }
        }
    }
}

/// The graph of the relations has one node for every name that occurs in
/// them, and no other: no name is there twice, and the names are those of
/// the sources and the targets.
pub proof fn lemma_one_node_per_name(relations: Seq<Relation>)
    ensures
        names_in(relations).no_duplicates(),
        forall|k: int|
            0 <= k < relations.len() ==> names_in(relations).contains(
                (#[trigger] relations[k]).source,
            ) && names_in(relations).contains(relations[k].target),
        forall|name: Seq<char>|
            names_in(relations).contains(name) ==> exists|k: int|
                0 <= k < relations.len() && ((#[trigger] relations[k]).source == name
                    || relations[k].target == name),
        names_in(relations).to_set().len() == names_in(relations).len(),
    decreases relations.len(),
{
    if relations.len() > 0 {
        let front = relations.drop_last();
        let last = relations.last();
        lemma_one_node_per_name(front);
        let mid = with_node(names_in(front), last.source);
        lemma_with_node(names_in(front), last.source);
        lemma_with_node(mid, last.target);
        assert forall|k: int| 0 <= k < relations.len() implies names_in(relations).contains(
            (#[trigger] relations[k]).source,
        ) && names_in(relations).contains(relations[k].target) by {
            if k < front.len() {
                assert(front[k] == relations[k]);
            }
        }
        assert forall|name: Seq<char>| names_in(relations).contains(name) implies exists|k: int|
            0 <= k < relations.len() && ((#[trigger] relations[k]).source == name
                || relations[k].target == name) by {
            if names_in(front).contains(name) {
                let k = choose|k: int|
                    0 <= k < front.len() && ((#[trigger] front[k]).source == name || front[k].target
                        == name);
                assert(relations[k] == front[k]);
            } else {
                assert(relations[relations.len() - 1] == last);
            }
        }
    }
    names_in(relations).unique_seq_to_set();
}

/// The names of the first relations keep their places among the names of
/// all of them.
pub proof fn lemma_names_grow(relations: Seq<Relation>, n: int)
    requires
        0 <= n <= relations.len(),
    ensures
        names_in(relations.take(n)).len() <= names_in(relations).len(),
        forall|i: int|
            0 <= i < names_in(relations.take(n)).len() ==> names_in(relations.take(n))[i]
                == names_in(relations)[i],
    decreases relations.len() - n,
{
    if n < relations.len() {
        let next = relations.take(n + 1);
        assert(next.drop_last() =~= relations.take(n));
        lemma_one_node_per_name(relations.take(n));
        let mid = with_node(names_in(relations.take(n)), next.last().source);
        lemma_with_node(names_in(relations.take(n)), next.last().source);
        lemma_with_node(mid, next.last().target);
        lemma_names_grow(relations, n + 1);
    } else {
        assert(relations.take(n) =~= relations);
    }
}

/// The edge that a relation between two different nodes asks for: between
/// the places of its two names, the smaller first.
pub open spec fn edge_of(names: Seq<Seq<char>>, relation: Relation) -> Edge {
    ordered_pair(names.index_of(relation.source), names.index_of(relation.target))
}

/// The graph of the relations has one edge for every two different nodes
/// that a relation joins, and no other: no edge is there twice, whatever the
/// direction of the relations and however often they occur; a relation of a
/// node with itself gives none.
pub proof fn lemma_one_edge_per_pair(relations: Seq<Relation>)
    ensures
        edges_in(relations).no_duplicates(),
        forall|k: int|
            0 <= k < relations.len() && (#[trigger] relations[k]).source != relations[k].target
                ==> edges_in(relations).contains(edge_of(names_in(relations), relations[k])),
        forall|e: Edge|
            edges_in(relations).contains(e) ==> exists|k: int|
                0 <= k < relations.len() && (#[trigger] relations[k]).source != relations[k].target
                    && e == edge_of(names_in(relations), relations[k]),
        edges_in(relations).to_set().len() == edges_in(relations).len(),
    decreases relations.len(),
{
    let names = names_in(relations);
    let edges = edges_in(relations);
    if relations.len() > 0 {
        let front = relations.drop_last();
        let last = relations.last();
        let earlier = edges_in(front);
        lemma_one_edge_per_pair(front);
        lemma_one_node_per_name(front);
        lemma_one_node_per_name(relations);
        assert(relations.take(relations.len() - 1) =~= front);
        lemma_names_grow(relations, relations.len() - 1);
        assert forall|k: int| 0 <= k < front.len() implies edge_of(names_in(front), #[trigger] front[k])
            == edge_of(names, front[k]) by {
            let s = choose|i: int| 0 <= i < names_in(front).len() && names_in(front)[i] == front[k].source;
            let t = choose|i: int| 0 <= i < names_in(front).len() && names_in(front)[i] == front[k].target;
            lemma_index_of(names_in(front), s);
            lemma_index_of(names_in(front), t);
            lemma_index_of(names, s);
            lemma_index_of(names, t);
        }
        let edge = edge_of(names, last);
        assert forall|k: int|
            0 <= k < relations.len() && (#[trigger] relations[k]).source
                != relations[k].target implies edges.contains(edge_of(names, relations[k])) by {
            if k < front.len() {
                assert(front[k] == relations[k]);
                let i = choose|i: int|
                    0 <= i < earlier.len() && earlier[i] == edge_of(names_in(front), front[k]);
                assert(edges[i] == earlier[i]);
            } else {
                if !earlier.contains(edge) {
                    assert(edges[earlier.len() as int] == edge);
                }
            }
        }
        assert forall|e: Edge| edges.contains(e) implies exists|k: int|
            0 <= k < relations.len() && (#[trigger] relations[k]).source != relations[k].target && e
                == edge_of(names, relations[k]) by {
            let i = choose|i: int| 0 <= i < edges.len() && edges[i] == e;
            if i < earlier.len() {
                assert(earlier[i] == e);
                assert(earlier.contains(e));
                let k = choose|k: int|
                    0 <= k < front.len() && (#[trigger] front[k]).source != front[k].target && e
                        == edge_of(names_in(front), front[k]);
                assert(relations[k] == front[k]);
            } else {
                assert(relations[relations.len() - 1] == last);
            }
        }
    }
    edges.unique_seq_to_set();
}

/// Every arrow that routing adds has two straight pieces, each along one row
/// or one column, wherever the boxes are and whatever the relations name.
pub proof fn lemma_routing_axis_aligned(
    nodes: Seq<(Point, NodeView)>,
    state: Routing,
    relations: Seq<Relation>,
)
    ensures
        new_arrows_aligned(state.arrows, route_all(nodes, state, relations).arrows),
    decreases relations.len(),
{
    if relations.len() > 0 {
        let before = route_all(nodes, state, relations.drop_last());
        let after = routed(nodes, before, relations.last());
        lemma_routing_axis_aligned(nodes, state, relations.drop_last());
        assert forall|a: Arrow| after.arrows.contains(a) implies state.arrows.contains(a)
            || a.axis_aligned() by {
            if !before.arrows.contains(a) {
                let j = choose|j: int| 0 <= j < after.arrows.len() && after.arrows[j] == a;
                if j < before.arrows.len() {
                    assert(before.arrows[j] == a);
                }
            }
        }
    }
}

/// Routing adds at most one arrow for each relation.
pub proof fn lemma_at_most_one_arrow_per_relation(
    nodes: Seq<(Point, NodeView)>,
    state: Routing,
    relations: Seq<Relation>,
)
    ensures
        state.arrows.len() <= route_all(nodes, state, relations).arrows.len() <= state.arrows.len()
            + relations.len(),
    decreases relations.len(),
{
    if relations.len() > 0 {
        lemma_at_most_one_arrow_per_relation(nodes, state, relations.drop_last());
    }
}

/// The graph of the relations: a node for every name, an edge for every two
/// different nodes that a relation joins.
pub fn build_graph(inner_mapping: &Vec<InnerMapping>) -> (graph: Graph)
    ensures
        graph.wf(),
        graph.names() == names_in(relations_of(inner_mapping@)),
        graph.edges() == edges_in(relations_of(inner_mapping@)),
{
    let ghost relations = relations_of(inner_mapping@);
    let mut force_directed_graph = Graph::new();
    let mut i: usize = 0;
    assert(relations.take(0) =~= Seq::<Relation>::empty());
    while i < inner_mapping.len()
        invariant
            i <= inner_mapping.len(),
            relations == relations_of(inner_mapping@),
            force_directed_graph.wf(),
            force_directed_graph.names() == names_in(relations.take(i as int)),
            force_directed_graph.edges() == edges_in(relations.take(i as int)),
        decreases inner_mapping.len() - i,
    {
        let mapping = &inner_mapping[i];
        proof {
            let next = relations.take(i + 1);
            assert(next.drop_last() =~= relations.take(i as int));
            assert(next.last() == mapping@);
            lemma_one_node_per_name(relations.take(i as int));
            lemma_with_node(names_in(relations.take(i as int)), mapping.source@);
            lemma_with_node(
                with_node(names_in(relations.take(i as int)), mapping.source@),
                mapping.target@,
            );
        }
        force_directed_graph.add_node(mapping.source.as_str());
        force_directed_graph.add_node(mapping.target.as_str());
        force_directed_graph.add_edge(mapping.source.as_str(), mapping.target.as_str());
        i += 1;
    }
    assert(relations.take(relations.len() as int) =~= relations);
    force_directed_graph
}

/// The laid-out nodes: each name with its settled position, moved so that
/// the smallest column and the smallest row are zero.
pub open spec fn approximated(names: Seq<Seq<char>>, settled: Seq<RoundedPoint>) -> Seq<Placement> {
    Seq::new(
        names.len(),
        |i: int|
            Placement {
                name: names[i],
                position: PointApproximation {
                    x: (settled[i].x - least_x(settled)) as usize,
                    y: (settled[i].y - least_y(settled)) as usize,
                },
            },
    )
}

/// The boxes of the diagram of the relations, laid out as `settled` says.
pub open spec fn boxes_in(relations: Seq<Relation>, settled: Seq<RoundedPoint>) -> Seq<(Point, NodeView)> {
    place_all(Seq::empty(), approximated(names_in(relations), settled))
}

/// The arrows of the diagram of the relations, laid out as `settled` says.
pub open spec fn arrows_in(relations: Seq<Relation>, settled: Seq<RoundedPoint>) -> Seq<Arrow> {
    route_all(
        boxes_in(relations, settled),
        routing_start(boxes_in(relations, settled), Seq::empty()),
        relations,
    ).arrows
}

/// `settled` can serve as the layout of the relations: it has one position
/// for each of their nodes, of which there is at least one, no two nodes
/// are at one position, and the picture stays on the grid.
pub open spec fn layout_usable(relations: Seq<Relation>, settled: Seq<RoundedPoint>) -> bool {
    let placements = approximated(names_in(relations), settled);
    &&& settled.len() == names_in(relations).len()
    &&& settled.len() > 0
    &&& apart(placements)
    &&& stretchable(placements)
    &&& routable(boxes_in(relations, settled), relations.len())
}

/// Says whether `settled` can serve as the layout of the relations.
pub fn usable_layout(inner_mapping: &Vec<InnerMapping>, settled: &Vec<RoundedPoint>) -> (usable: bool)
    ensures
        usable == layout_usable(relations_of(inner_mapping@), settled@),
{
    let ghost relations = relations_of(inner_mapping@);
    let ghost names = names_in(relations);
    let force_directed_graph = build_graph(inner_mapping);
    if settled.len() != force_directed_graph.node_count() || settled.len() == 0 {
        return false;
    }
    let approximation = force_directed_graph.get_transposed_nodes_approximation(settled);
    let ghost laid_out = placements(approximation@);
    assert(laid_out =~= approximated(names, settled@));
    let mut i: usize = 0;
    while i < approximation.len()
        invariant
            i <= approximation.len(),
            laid_out == placements(approximation@),
            laid_out == approximated(names_in(relations_of(inner_mapping@)), settled@),
            forall|a: int, b: int|
                0 <= a < b < i ==> (#[trigger] laid_out[a]).position != (#[trigger] laid_out[b]).position,
            forall|a: int| 0 <= a < i ==> (#[trigger] laid_out[a]).position.x * STRETCH <= usize::MAX,
        decreases approximation.len() - i,
    {
        if approximation[i].position.x > usize::MAX / STRETCH {
            assert(laid_out[i as int].position.x * STRETCH > usize::MAX);
            return false;
        }
        let mut j: usize = 0;
        while j < i
            invariant
                j <= i < approximation.len(),
                laid_out == placements(approximation@),
                laid_out == approximated(names_in(relations_of(inner_mapping@)), settled@),
                forall|a: int| 0 <= a < j ==> (#[trigger] laid_out[a]).position != laid_out[i as int].position,
            decreases i - j,
        {
            if approximation[j].position == approximation[i].position {
                assert(laid_out[j as int].position == laid_out[i as int].position);
                return false;
            }
            j += 1;
        }
        i += 1;
    }
    proof {
        lemma_one_box_per_node(laid_out);
    }
    let ghost boxes = boxes_in(relations, settled@);
    let mut i: usize = 0;
    while i < approximation.len()
        invariant
            i <= approximation.len(),
            laid_out == placements(approximation@),
            stretchable(laid_out),
            boxes.len() == laid_out.len(),
            forall|a: int|
                0 <= a < laid_out.len() ==> (#[trigger] boxes[a]) == (
                    stretched(laid_out[a].position),
                    box_of(laid_out[a]),
                ),
            boxes == boxes_in(relations_of(inner_mapping@), settled@),
            forall|a: int|
                0 <= a < i ==> {
                    &&& (#[trigger] boxes[a]).0.x + label_width(boxes[a].1.name) + BOX_WIDTH
                        <= usize::MAX
                    &&& boxes[a].0.x + inner_mapping@.len() + 2 <= usize::MAX
                    &&& boxes[a].0.y + BOX_HEIGHT <= usize::MAX
                },
        decreases approximation.len() - i,
    {
        let node = &approximation[i];
        assert(laid_out[i as int].position.x * STRETCH <= usize::MAX);
        assert(boxes[i as int] == (stretched(laid_out[i as int].position), box_of(laid_out[i as int])));
        let x = node.position.x * STRETCH;
        let width = node.name.as_str().as_bytes().len();
        let room = usize::MAX - x;
        if room < BOX_WIDTH || room - BOX_WIDTH < width || room < 2 || room - 2
            < inner_mapping.len() || node.position.y > usize::MAX - BOX_HEIGHT {
            assert(!routable(boxes, inner_mapping@.len() as nat));
            return false;
        }
        i += 1;
    }
    assert(routable(boxes, inner_mapping@.len() as nat));
    true
}

/// The diagram of `text`: a box for every name in its relations, at the
/// position that `settled` gives to the node, and an arrow for every
/// relation. `settled` holds the positions at which the layout has come to
/// rest, rounded, one for each node in the order of `names_in`. A text with
/// a line that is no relation gives the complaint about the first such
/// line, and no diagram.
pub fn read_input(text: &str, settled: &Vec<RoundedPoint>) -> (read: Result<Diagram, String>)
    requires
        first_complaint(lines_of(text@)) is None ==> layout_usable(
            relations_in(lines_of(text@)),
            settled@,
        ),
    ensures
        match read {
            Ok(map) => {
                &&& first_complaint(lines_of(text@)) is None
                &&& map.wf()
                &&& map.boxes() == boxes_in(relations_in(lines_of(text@)), settled@)
                &&& map.arrows@ == arrows_in(relations_in(lines_of(text@)), settled@)
                &&& new_arrows_aligned(Seq::empty(), map.arrows@)
            },
            Err(complaint) => first_complaint(lines_of(text@)) == Some(complaint@),
        },
{
    let inner_mapping = match read_relations(text) {
        Ok(inner_mapping) => inner_mapping,
        Err(complaint) => {
            return Err(complaint);
        },
    };
    let ghost relations = relations_of(inner_mapping@);
    let force_directed_graph = build_graph(&inner_mapping);
    let approximation = force_directed_graph.get_transposed_nodes_approximation(settled);
    let ghost names = names_in(relations);
    proof {
        assert(placements(approximation@) =~= approximated(names, settled@));
        lemma_one_node_per_name(relations);
        lemma_one_box_per_node(placements(approximation@));
    }
    let mut map = Diagram::new();
    assert(map.boxes() =~= Seq::<(Point, NodeView)>::empty());
    include_nodes(&mut map, &approximation);
    proof {
        let boxes = map.boxes();
        assert forall|i: int| 0 <= i < boxes.len() implies (#[trigger] boxes[i]).1.name == names[i] by {
            assert(boxes[i] == (
                stretched(placements(approximation@)[i].position),
                box_of(placements(approximation@)[i]),
            ));
        }
        assert(names_apart(boxes));
        assert(map.arrows@ =~= Seq::<Arrow>::empty());
        assert(boxes == boxes_in(relations, settled@));
        assert forall|k: int| 0 <= k < relations.len() implies has_node(
            boxes,
            (#[trigger] relations[k]).source,
        ) && has_node(boxes, relations[k].target) by {
            let s = choose|i: int| 0 <= i < names.len() && names[i] == relations[k].source;
            let t = choose|i: int| 0 <= i < names.len() && names[i] == relations[k].target;
            assert(boxes[s].1.name == relations[k].source);
            assert(boxes[t].1.name == relations[k].target);
        }
    }
    include_arrows(&mut map, &inner_mapping);
    Ok(map)
}

/// The names that occur in the relations, as a source or as a target.
pub open spec fn names_among(relations: Seq<Relation>) -> Set<Seq<char>> {
    Set::new(
        |name: Seq<char>|
            exists|k: int|
                0 <= k < relations.len() && ((#[trigger] relations[k]).source == name
                    || relations[k].target == name),
    )
}

/// Where no two nodes are laid out at one position and every position can
/// be stretched on the grid, the diagram holds as many boxes as there are
/// different names in the relations, and every such name is the label of
/// one box and of no other.
pub proof fn lemma_one_box_per_name(relations: Seq<Relation>, settled: Seq<RoundedPoint>)
    requires
        apart(approximated(names_in(relations), settled)),
        stretchable(approximated(names_in(relations), settled)),
    ensures
        names_among(relations).finite(),
        boxes_in(relations, settled).len() == names_among(relations).len(),
        forall|i: int|
            0 <= i < boxes_in(relations, settled).len() ==> names_among(relations).contains(
                (#[trigger] boxes_in(relations, settled)[i]).1.name,
            ),
        forall|name: Seq<char>|
            names_among(relations).contains(name) ==> exists|i: int|
                0 <= i < boxes_in(relations, settled).len() && (#[trigger] boxes_in(
                    relations,
                    settled,
                )[i]).1.name == name,
        names_apart(boxes_in(relations, settled)),
{
    let names = names_in(relations);
    let boxes = boxes_in(relations, settled);
    lemma_one_node_per_name(relations);
    lemma_one_box_per_node(approximated(names, settled));
    assert(names.to_set() =~= names_among(relations)) by {
        assert forall|name: Seq<char>| names.to_set().contains(name) == names_among(
            relations,
        ).contains(name) by {
            if names_among(relations).contains(name) {
                let k = choose|k: int|
                    0 <= k < relations.len() && ((#[trigger] relations[k]).source == name
                        || relations[k].target == name);
                assert(names.contains(relations[k].source) && names.contains(relations[k].target));
            }
        }
    }
    assert forall|i: int| 0 <= i < boxes.len() implies (#[trigger] boxes[i]).1.name == names[i] by {
        assert(boxes[i] == (
            stretched(approximated(names, settled)[i].position),
            box_of(approximated(names, settled)[i]),
        ));
    }
    assert forall|i: int| 0 <= i < boxes.len() implies names_among(relations).contains(
        (#[trigger] boxes[i]).1.name,
    ) by {
        assert(names.contains(names[i]));
    }
    assert forall|name: Seq<char>| names_among(relations).contains(name) implies exists|i: int|
        0 <= i < boxes.len() && (#[trigger] boxes[i]).1.name == name by {
        let i = choose|i: int| 0 <= i < names.len() && names[i] == name;
        assert(boxes[i].1.name == name);
    }
}

/// A layout that can be used gives one box for each node of the relations,
/// in the order of the names: the box of the node at its stretched
/// position.
pub proof fn lemma_boxes_of_layout(relations: Seq<Relation>, settled: Seq<RoundedPoint>)
    requires
        layout_usable(relations, settled),
    ensures
        boxes_in(relations, settled).len() == names_in(relations).len(),
        forall|i: int|
            0 <= i < names_in(relations).len() ==> (#[trigger] boxes_in(relations, settled)[i]) == (
                stretched(approximated(names_in(relations), settled)[i].position),
                box_of(approximated(names_in(relations), settled)[i]),
            ),
{
    lemma_one_box_per_node(approximated(names_in(relations), settled));
}

} // verus!
