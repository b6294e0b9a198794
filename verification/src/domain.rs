//! What a picture is made of: boxed nodes, elbow arrows, and the diagram
//! that holds them and renders them to text.

use crate::canvas::{max_x, max_y, Canvas, Point};
use crate::style::{ArrowBody, ArrowDirection, ArrowHead, BorderPart, BorderType};
use vstd::prelude::*;
use vstd::utf8::{encode_scalar, encode_utf8};

verus! {

/// The number of bytes a label takes in UTF-8. A box is that many columns
/// wide, and four more.
pub open spec fn label_width(name: Seq<char>) -> nat {
    encode_utf8(name).len()
}

/// A label has at most as many characters as bytes.
pub proof fn lemma_label_width(name: Seq<char>)
    ensures
        name.len() <= label_width(name),
    decreases name.len(),
{
    if name.len() > 0 {
        lemma_label_width(name.drop_first());
        assert(encode_scalar(name[0] as u32).len() >= 1);
    }
}

/// The character of a box at column `dx` and row `dy` of its footprint, if
/// the box has one there. Rows 0 and 2 are the border, row 1 holds the two
/// sides and the label from column 2 on.
pub open spec fn box_glyph(name: Seq<char>, border: BorderType, dx: int, dy: int) -> Option<char> {
    let end_x = label_width(name) + 3;
    if dy == 0 {
        if dx == 0 {
            Some(border.glyph(BorderPart::LeftTopCorner))
        } else if dx == end_x {
            Some(border.glyph(BorderPart::RightTopCorner))
        } else if 0 < dx < end_x {
            Some(border.glyph(BorderPart::Horizontal))
        } else {
            None
        }
    } else if dy == 2 {
        if dx == 0 {
            Some(border.glyph(BorderPart::LeftBottomCorner))
        } else if dx == end_x {
            Some(border.glyph(BorderPart::RightBottomCorner))
        } else if 0 < dx < end_x {
            Some(border.glyph(BorderPart::Horizontal))
        } else {
            None
        }
    } else if dy == 1 {
        if 2 <= dx < 2 + name.len() {
            Some(name[dx - 2])
        } else if dx == 0 || dx == end_x {
            Some(border.glyph(BorderPart::Vertical))
        } else {
            None
        }
    } else {
        None
    }
}

/// A box with a label in it.
#[derive(Debug, PartialEq)]
pub struct Node {
    pub name: String,
    pub border: BorderType,
}

/// A box as plain values: the text of its label and its border.
pub struct NodeView {
    pub name: Seq<char>,
    pub border: BorderType,
}

impl View for Node {
    type V = NodeView;

    open spec fn view(&self) -> NodeView {
        NodeView { name: self.name@, border: self.border }
    }
}

impl NodeView {
    /// The box fits on the grid when its top-left corner is at `anchor`.
    pub open spec fn fits(self, anchor: Point) -> bool {
        &&& anchor.x + label_width(self.name) + 3 <= usize::MAX
        &&& anchor.y + 2 <= usize::MAX
    }

    /// The cells of the box when its top-left corner is at `anchor`.
    pub open spec fn cells(self, anchor: Point) -> Map<Point, char> {
        Map::new(
            |p: Point|
                p.x >= anchor.x && p.y >= anchor.y && box_glyph(
                    self.name,
                    self.border,
                    p.x - anchor.x,
                    p.y - anchor.y,
                ) is Some,
            |p: Point| box_glyph(self.name, self.border, p.x - anchor.x, p.y - anchor.y)->0,
        )
    }
}

impl Node {
    /// The box fits on the grid when its top-left corner is at `anchor`.
    pub open spec fn fits(&self, anchor: Point) -> bool {
        self@.fits(anchor)
    }

    /// The cells of the box when its top-left corner is at `anchor`.
    pub open spec fn cells(&self, anchor: Point) -> Map<Point, char> {
        self@.cells(anchor)
    }

    /// The last column of the box, counted from its first.
    fn end_x(&self) -> (end_x: usize)
        requires
            label_width(self.name@) + 3 <= usize::MAX,
        ensures
            end_x == label_width(self.name@) + 3,
    {
        self.name.as_str().as_bytes().len() + 3
    }

    /// Paints the box with its top-left corner at `anchor`.
    pub fn grab_characters(&self, anchor: &Point) -> (output: Canvas)
        requires
            self.fits(*anchor),
        ensures
            output.wf(),
            output@ == self.cells(*anchor),
    {
        proof {
            lemma_label_width(self.name@);
        }
        let mut output = Canvas::new();
        let end_x = self.end_x();
        self.add_corners(end_x, anchor, &mut output);
        self.add_top_and_bottom(end_x, anchor, &mut output);
        self.add_sides(end_x, anchor, &mut output);
        self.add_text(anchor, &mut output);
        assert(output@ =~= self.cells(*anchor));
        output
    }

    fn add_corners(&self, end_x: usize, anchor: &Point, output: &mut Canvas)
        requires
            old(output).wf(),
            anchor.x + end_x <= usize::MAX,
            anchor.y + 2 <= usize::MAX,
        ensures
            final(output).wf(),
            final(output)@ == old(output)@.insert(
                Point { x: anchor.x, y: anchor.y },
                self.border.glyph(BorderPart::LeftTopCorner),
            ).insert(
                Point { x: (anchor.x + end_x) as usize, y: anchor.y },
                self.border.glyph(BorderPart::RightTopCorner),
            ).insert(
                Point { x: anchor.x, y: (anchor.y + 2) as usize },
                self.border.glyph(BorderPart::LeftBottomCorner),
            ).insert(
                Point { x: (anchor.x + end_x) as usize, y: (anchor.y + 2) as usize },
                self.border.glyph(BorderPart::RightBottomCorner),
            ),
    {
        output.insert(
            Point::new_with_anchor(0, 0, anchor),
            self.border.get_matching_char(&BorderPart::LeftTopCorner),
        );
        output.insert(
            Point::new_with_anchor(end_x, 0, anchor),
            self.border.get_matching_char(&BorderPart::RightTopCorner),
        );
        output.insert(
            Point::new_with_anchor(0, 2, anchor),
            self.border.get_matching_char(&BorderPart::LeftBottomCorner),
        );
        output.insert(
            Point::new_with_anchor(end_x, 2, anchor),
            self.border.get_matching_char(&BorderPart::RightBottomCorner),
        );
    }

    fn add_top_and_bottom(&self, end_x: usize, anchor: &Point, output: &mut Canvas)
        requires
            old(output).wf(),
            anchor.x + end_x <= usize::MAX,
            anchor.y + 2 <= usize::MAX,
        ensures
            final(output).wf(),
            final(output)@ == old(output)@.union_prefer_right(
                Map::new(
                    |p: Point|
                        anchor.x < p.x < anchor.x + end_x && (p.y == anchor.y || p.y == anchor.y
                            + 2),
                    |p: Point| self.border.glyph(BorderPart::Horizontal),
                ),
            ),
    {
        let mut x: usize = 1;
        while x < end_x
            invariant
                1 <= x,
                x <= end_x || x == 1,
                output.wf(),
                anchor.x + end_x <= usize::MAX,
                anchor.y + 2 <= usize::MAX,
                output@ == old(output)@.union_prefer_right(
                    Map::new(
                        |p: Point|
                            anchor.x < p.x < anchor.x + x && (p.y == anchor.y || p.y == anchor.y
                                + 2),
                        |p: Point| self.border.glyph(BorderPart::Horizontal),
                    ),
                ),
            decreases end_x - x,
        {
            output.insert(
                Point::new_with_anchor(x, 0, anchor),
                self.border.get_matching_char(&BorderPart::Horizontal),
            );
            output.insert(
                Point::new_with_anchor(x, 2, anchor),
                self.border.get_matching_char(&BorderPart::Horizontal),
            );
            x += 1;
        }
    }

    fn add_sides(&self, end_x: usize, anchor: &Point, output: &mut Canvas)
        requires
            old(output).wf(),
            anchor.x + end_x <= usize::MAX,
            anchor.y + 1 <= usize::MAX,
        ensures
            final(output).wf(),
            final(output)@ == old(output)@.insert(
                Point { x: anchor.x, y: (anchor.y + 1) as usize },
                self.border.glyph(BorderPart::Vertical),
            ).insert(
                Point { x: (anchor.x + end_x) as usize, y: (anchor.y + 1) as usize },
                self.border.glyph(BorderPart::Vertical),
            ),
    {
        output.insert(
            Point::new_with_anchor(0, 1, anchor),
            self.border.get_matching_char(&BorderPart::Vertical),
        );
        output.insert(
            Point::new_with_anchor(end_x, 1, anchor),
            self.border.get_matching_char(&BorderPart::Vertical),
        );
    }

    fn add_text(&self, anchor: &Point, output: &mut Canvas)
        requires
            old(output).wf(),
            anchor.x + self.name@.len() + 2 <= usize::MAX,
            anchor.y + 1 <= usize::MAX,
        ensures
            final(output).wf(),
            final(output)@ == old(output)@.union_prefer_right(
                Map::new(
                    |p: Point|
                        p.y == anchor.y + 1 && anchor.x + 2 <= p.x < anchor.x + 2
                            + self.name@.len(),
                    |p: Point| self.name@[p.x - anchor.x - 2],
                ),
            ),
    {
        broadcast use vstd::string::group_string_axioms;

        let mut acc: usize = 2;
        for c in iter: self.name.as_str().chars()
            invariant
                iter.seq() == self.name@,
                acc == 2 + iter.index(),
                output.wf(),
                anchor.x + self.name@.len() + 2 <= usize::MAX,
                anchor.y + 1 <= usize::MAX,
                output@ == old(output)@.union_prefer_right(
                    Map::new(
                        |p: Point|
                            p.y == anchor.y + 1 && anchor.x + 2 <= p.x < anchor.x + acc,
                        |p: Point| self.name@[p.x - anchor.x - 2],
                    ),
                ),
        {
            output.insert(Point::new_with_anchor(acc, 1, anchor), c);
            acc = acc + 1;
        }
    }
}

/// `p` lies on the row of `start`, between the column of `start` and that
/// of `end`: from `start` up to the cell before `end` when travelling right,
/// from the cell after `end` up to `start` when travelling left.
pub open spec fn on_row_run(start: Point, end: Point, p: Point) -> bool {
    p.y == start.y && (start.x <= p.x < end.x || end.x < p.x <= start.x)
}

/// `p` lies on the column of `end`, between the row of `start` and that of
/// `end`, with the same bounds as on a row.
pub open spec fn on_column_run(start: Point, end: Point, p: Point) -> bool {
    p.x == end.x && (start.y <= p.y < end.y || end.y < p.y <= start.y)
}

/// The shaft character that the piece from `start` to `end` puts at `p`, if
/// any: first along the row of `start`, then along the column of `end`. A
/// piece of length zero puts none.
pub open spec fn shaft_glyph(body: ArrowBody, start: Point, end: Point, p: Point) -> Option<char> {
    if on_row_run(start, end, p) {
        Some(
            body.glyph(
                if end.x < start.x {
                    ArrowDirection::HorizontalLeft
                } else {
                    ArrowDirection::HorizontalRight
                },
            ),
        )
    } else if on_column_run(start, end, p) {
        Some(
            body.glyph(
                if end.y < start.y {
                    ArrowDirection::VerticalUp
                } else {
                    ArrowDirection::VerticalDown
                },
            ),
        )
    } else {
        None
    }
}

/// The cells that the piece from `start` to `end` paints.
pub open spec fn shaft_cells(body: ArrowBody, start: Point, end: Point) -> Map<Point, char> {
    Map::new(
        |p: Point| shaft_glyph(body, start, end, p) is Some,
        |p: Point| shaft_glyph(body, start, end, p)->0,
    )
}

/// The direction in which the last piece of an arrow arrives at `end`. It
/// goes by that piece alone: along a row it is leftward or rightward,
/// otherwise upward or downward. A piece without length counts as
/// rightward.
pub open spec fn head_direction(middle: Point, end: Point) -> ArrowDirection {
    if end.y == middle.y {
        if end.x < middle.x {
            ArrowDirection::HorizontalLeft
        } else {
            ArrowDirection::HorizontalRight
        }
    } else if end.y < middle.y {
        ArrowDirection::VerticalUp
    } else {
        ArrowDirection::VerticalDown
    }
}

/// An arrow of two straight pieces: from `start` to `middle` and from
/// `middle` to `end`, where the head is.
#[derive(Debug, PartialEq, Eq, Structural, Clone, Copy, Hash)]
pub struct Arrow {
    pub start: Point,
    pub middle: Point,
    pub end: Point,
    pub body: ArrowBody,
    pub head: ArrowHead,
}

impl Arrow {
    /// Each of the two pieces runs along one row or along one column.
    pub open spec fn axis_aligned(&self) -> bool {
        &&& self.start.x == self.middle.x || self.start.y == self.middle.y
        &&& self.middle.x == self.end.x || self.middle.y == self.end.y
    }

    /// The cells of the arrow: the head at `end`, over the second piece,
    /// over the first.
    pub open spec fn cells(&self) -> Map<Point, char> {
        shaft_cells(self.body, self.start, self.middle).union_prefer_right(
            shaft_cells(self.body, self.middle, self.end),
        ).insert(self.end, self.head.glyph(head_direction(self.middle, self.end)))
    }

    /// Paints the arrow.
    pub fn grab_characters(&self) -> (output: Canvas)
        ensures
            output.wf(),
            output@ == self.cells(),
    {
        let mut output = Canvas::new();
        self.add_arrow_body(&self.start, &self.middle, &mut output);
        self.add_arrow_body(&self.middle, &self.end, &mut output);
        let direction = if self.end.y == self.middle.y {
            if self.end.x < self.middle.x {
                ArrowDirection::HorizontalLeft
            } else {
                ArrowDirection::HorizontalRight
            }
        } else if self.end.y < self.middle.y {
            ArrowDirection::VerticalUp
        } else {
            ArrowDirection::VerticalDown
        };
        let arrow_head_char = self.head.get_matching_character(&direction);
        output.insert(Point { x: self.end.x, y: self.end.y }, arrow_head_char);
        assert(output@ =~= self.cells());
        output
    }

    fn add_arrow_body(&self, start: &Point, end: &Point, output: &mut Canvas)
        requires
            old(output).wf(),
        ensures
            final(output).wf(),
            final(output)@ == old(output)@.union_prefer_right(shaft_cells(self.body, *start, *end)),
    {
        let ghost row_glyph = self.body.glyph(
            if end.x < start.x {
                ArrowDirection::HorizontalLeft
            } else {
                ArrowDirection::HorizontalRight
            },
        );
        if end.x > start.x {
            let c = self.body.get_matching_character(&ArrowDirection::HorizontalRight);
            let mut x: usize = start.x;
            while x < end.x
                invariant
                    start.x <= x <= end.x,
                    c == row_glyph,
                    output.wf(),
                    output@ == old(output)@.union_prefer_right(
                        Map::new(
                            |p: Point| p.y == start.y && start.x <= p.x < x,
                            |p: Point| row_glyph,
                        ),
                    ),
                decreases end.x - x,
            {
                output.insert(Point { x, y: start.y }, c);
                x += 1;
            }
        } else if end.x < start.x {
            let c = self.body.get_matching_character(&ArrowDirection::HorizontalLeft);
            let mut x: usize = end.x;
            while x < start.x
                invariant
                    end.x <= x <= start.x,
                    c == row_glyph,
                    output.wf(),
                    output@ == old(output)@.union_prefer_right(
                        Map::new(
                            |p: Point| p.y == start.y && end.x < p.x <= x,
                            |p: Point| row_glyph,
                        ),
                    ),
                decreases start.x - x,
            {
                x += 1;
                output.insert(Point { x, y: start.y }, c);
            }
        }
        let ghost with_row = output@;
        assert(with_row =~= old(output)@.union_prefer_right(
            Map::new(|p: Point| on_row_run(*start, *end, p), |p: Point| row_glyph),
        ));
        let ghost column_glyph = self.body.glyph(
            if end.y < start.y {
                ArrowDirection::VerticalUp
            } else {
                ArrowDirection::VerticalDown
            },
        );
        if end.y > start.y {
            let c = self.body.get_matching_character(&ArrowDirection::VerticalDown);
            let mut y: usize = start.y;
            while y < end.y
                invariant
                    start.y <= y <= end.y,
                    c == column_glyph,
                    output.wf(),
                    output@ == with_row.union_prefer_right(
                        Map::new(
                            |p: Point| p.x == end.x && start.y <= p.y < y,
                            |p: Point| column_glyph,
                        ),
                    ),
                decreases end.y - y,
            {
                output.insert(Point { x: end.x, y }, c);
                y += 1;
            }
        } else if end.y < start.y {
            let c = self.body.get_matching_character(&ArrowDirection::VerticalUp);
            let mut y: usize = end.y;
            while y < start.y
                invariant
                    end.y <= y <= start.y,
                    c == column_glyph,
                    output.wf(),
                    output@ == with_row.union_prefer_right(
                        Map::new(
                            |p: Point| p.x == end.x && end.y < p.y <= y,
                            |p: Point| column_glyph,
                        ),
                    ),
                decreases start.y - y,
            {
                y += 1;
                output.insert(Point { x: end.x, y }, c);
            }
        }
        assert(output@ =~= with_row.union_prefer_right(
            Map::new(|p: Point| on_column_run(*start, *end, p), |p: Point| column_glyph),
        ));
        assert(output@ =~= old(output)@.union_prefer_right(shaft_cells(self.body, *start, *end)));
    }
}

/// What painting the boxes in turn leaves on an empty canvas: a later box
/// covers an earlier one where they meet.
pub open spec fn paint_nodes(nodes: Seq<(Point, NodeView)>) -> Map<Point, char>
    decreases nodes.len(),
{
    if nodes.len() == 0 {
        Map::empty()
    } else {
        paint_nodes(nodes.drop_last()).union_prefer_right(nodes.last().1.cells(nodes.last().0))
    }
}

/// What painting the arrows in turn over `base` leaves: a later arrow covers
/// an earlier one, and every arrow covers `base`.
pub open spec fn paint_arrows(base: Map<Point, char>, arrows: Seq<Arrow>) -> Map<Point, char>
    decreases arrows.len(),
{
    if arrows.len() == 0 {
        base
    } else {
        paint_arrows(base, arrows.drop_last()).union_prefer_right(arrows.last().cells())
    }
}

/// The character shown at column `x` of row `y`: what the canvas holds
/// there, or a space.
pub open spec fn shown(cells: Map<Point, char>, x: int, y: int) -> char {
    let p = Point { x: x as usize, y: y as usize };
    if cells.dom().contains(p) {
        cells[p]
    } else {
        ' '
    }
}

/// The first `n` characters of row `y`.
pub open spec fn row_prefix(cells: Map<Point, char>, y: int, n: int) -> Seq<char> {
    Seq::new(n as nat, |x: int| shown(cells, x, y))
}

/// The text of the first `rows` rows, each `columns` characters wide and
/// ended by a line feed.
pub open spec fn rows_text(cells: Map<Point, char>, columns: int, rows: int) -> Seq<char>
    decreases rows,
{
    if rows <= 0 {
        Seq::empty()
    } else {
        rows_text(cells, columns, rows - 1) + row_prefix(cells, rows - 1, columns).push('\n')
    }
}

/// Every row of the text is as long as every other: its columns and the
/// line feed.
pub proof fn lemma_rows_text_len(cells: Map<Point, char>, columns: int, rows: int)
    requires
        0 <= columns,
        0 <= rows,
    ensures
        rows_text(cells, columns, rows).len() == rows * (columns + 1),
    decreases rows,
{
    if rows > 0 {
        lemma_rows_text_len(cells, columns, rows - 1);
        assert(row_prefix(cells, rows - 1, columns).push('\n').len() == columns + 1);
        assert((rows - 1) * (columns + 1) + (columns + 1) == rows * (columns + 1))
            by (nonlinear_arith);
    } else {
        assert(rows * (columns + 1) == 0) by (nonlinear_arith)
            requires
                rows == 0,
        ;
    }
}

/// The text of a canvas that is not empty: every row from 0 to the largest
/// occupied one, every column from 0 to the largest occupied one.
pub open spec fn picture(cells: Map<Point, char>) -> Seq<char> {
    rows_text(cells, max_x(cells) + 1, max_y(cells) + 1)
}

/// The nodes after `node` was put at `point`: in place of the node that was
/// at that point, or else at the end.
pub open spec fn placed(nodes: Seq<(Point, NodeView)>, point: Point, node: NodeView) -> Seq<
    (Point, NodeView),
> {
    if exists|i: int| 0 <= i < nodes.len() && (#[trigger] nodes[i]).0 == point {
        nodes.update(choose|i: int| 0 <= i < nodes.len() && (#[trigger] nodes[i]).0 == point, (point, node))
    } else {
        nodes.push((point, node))
    }
}

/// The arrows after `arrow` was added: as before where it is among them
/// already.
pub open spec fn with_arrow(arrows: Seq<Arrow>, arrow: Arrow) -> Seq<Arrow> {
    if arrows.contains(arrow) {
        arrows
    } else {
        arrows.push(arrow)
    }
}

/// The nodes of a picture, each with the point of its top-left corner, and
/// the arrows between them.
#[derive(Debug, PartialEq)]
pub struct Diagram {
    pub nodes: Vec<(Point, Node)>,
    pub arrows: Vec<Arrow>,
}

impl Diagram {
    /// No two nodes are at the same point, and no arrow is held twice.
    pub open spec fn wf(&self) -> bool {
        &&& forall|i: int, j: int|
            0 <= i < j < self.nodes@.len() ==> (#[trigger] self.nodes@[i]).0 != (
            #[trigger] self.nodes@[j]).0
        &&& forall|i: int, j: int|
            0 <= i < j < self.arrows@.len() ==> #[trigger] self.arrows@[i] != #[trigger] self.arrows@[j]
    }

    /// The nodes as plain values, each with the point of its top-left
    /// corner.
    pub open spec fn boxes(&self) -> Seq<(Point, NodeView)> {
        self.nodes@.map_values(|entry: (Point, Node)| (entry.0, entry.1@))
    }

    /// Every box fits on the grid.
    pub open spec fn fits(&self) -> bool {
        forall|i: int|
            0 <= i < self.nodes@.len() ==> (#[trigger] self.nodes@[i]).1.fits(self.nodes@[i].0)
    }

    /// The canvas of the diagram: the boxes in turn, then the arrows in turn
    /// over them.
    pub open spec fn canvas(&self) -> Map<Point, char> {
        paint_arrows(paint_nodes(self.boxes()), self.arrows@)
    }

    /// A diagram without nodes and arrows.
    pub fn new() -> (diagram: Diagram)
        ensures
            diagram.wf(),
            diagram.nodes@.len() == 0,
            diagram.arrows@.len() == 0,
    {
        Diagram { nodes: Vec::new(), arrows: Vec::new() }
    }

    /// Puts `node` at `point`, in place of a node that was at that point.
    pub fn insert_node(&mut self, point: Point, node: Node)
        requires
            old(self).wf(),
        ensures
            final(self).wf(),
            final(self).arrows == old(self).arrows,
            final(self).boxes() == placed(old(self).boxes(), point, node@),
    {
        let mut i: usize = 0;
        while i < self.nodes.len()
            invariant
                i <= self.nodes.len(),
                *self == *old(self),
                self.wf(),
                forall|j: int| 0 <= j < i ==> (#[trigger] self.nodes@[j]).0 != point,
            decreases self.nodes.len() - i,
        {
            if self.nodes[i].0 == point {
                proof {
                    let boxes = self.boxes();
                    assert(boxes[i as int].0 == point);
                    let k = choose|k: int| 0 <= k < boxes.len() && (#[trigger] boxes[k]).0 == point;
                    assert(self.nodes@[k].0 == point);
                    assert(k == i);
                }
                self.nodes.set(i, (point, node));
                assert(self.boxes() =~= old(self).boxes().update(i as int, (point, node@)));
                return ;
            }
            i += 1;
        }
        proof {
            let boxes = self.boxes();
            assert forall|k: int| 0 <= k < boxes.len() implies (#[trigger] boxes[k]).0 != point by {
                assert(self.nodes@[k].0 != point);
            }
        }
        self.nodes.push((point, node));
        assert(self.boxes() =~= old(self).boxes().push((point, node@)));
    }

    /// Adds `arrow`, unless the diagram holds it already. Says whether it was
    /// added.
    pub fn insert_arrow(&mut self, arrow: Arrow) -> (added: bool)
        requires
            old(self).wf(),
        ensures
            final(self).wf(),
            final(self).nodes == old(self).nodes,
            added == !old(self).arrows@.contains(arrow),
            final(self).arrows@ == with_arrow(old(self).arrows@, arrow),
    {
        let mut i: usize = 0;
        while i < self.arrows.len()
            invariant
                i <= self.arrows.len(),
                *self == *old(self),
                self.wf(),
                forall|j: int| 0 <= j < i ==> #[trigger] self.arrows@[j] != arrow,
            decreases self.arrows.len() - i,
        {
            if self.arrows[i] == arrow {
                assert(self.arrows@.contains(arrow));
                return false;
            }
            i += 1;
        }
        self.arrows.push(arrow);
        true
    }

    /// The picture as text: one line for every row from 0 to the lowest
    /// occupied one, each as wide as the rightmost occupied column asks,
    /// with a space wherever nothing was painted.
    pub fn get_picture(&self) -> (text: String)
        requires
            self.fits(),
            self.nodes@.len() + self.arrows@.len() > 0,
        ensures
            text@ == picture(self.canvas()),
    {
        let mut chars = Canvas::new();
        let mut i: usize = 0;
        while i < self.nodes.len()
            invariant
                i <= self.nodes.len(),
                self.fits(),
                chars.wf(),
                chars@ == paint_nodes(self.boxes().take(i as int)),
                i > 0 ==> chars@.dom().len() > 0,
            decreases self.nodes.len() - i,
        {
            let characters = self.nodes[i].1.grab_characters(&self.nodes[i].0);
            proof {
                let next = self.boxes().take(i + 1);
                assert(next.drop_last() =~= self.boxes().take(i as int));
                assert(next.last() == (self.nodes@[i as int].0, self.nodes@[i as int].1@));
            }
            chars.merge(&characters);
            proof {
                chars.lemma_finite();
                lemma_node_has_corner(self.nodes@[i as int].1, self.nodes@[i as int].0);
                assert(chars@.dom().contains(self.nodes@[i as int].0));
                if chars@.dom().len() == 0 {
                    assert(chars@.dom() =~= Set::<Point>::empty());
                }
            }
            i += 1;
        }
        assert(self.boxes().take(self.nodes@.len() as int) =~= self.boxes());
        let ghost boxes = chars@;
        let mut k: usize = 0;
        while k < self.arrows.len()
            invariant
                k <= self.arrows.len(),
                chars.wf(),
                chars@ == paint_arrows(boxes, self.arrows@.take(k as int)),
                self.nodes@.len() > 0 || k > 0 ==> chars@.dom().len() > 0,
            decreases self.arrows.len() - k,
        {
            let characters = self.arrows[k].grab_characters();
            proof {
                let next = self.arrows@.take(k + 1);
                assert(next.drop_last() =~= self.arrows@.take(k as int));
                assert(next.last() == self.arrows@[k as int]);
            }
            chars.merge(&characters);
            proof {
                chars.lemma_finite();
                assert(chars@.dom().contains(self.arrows@[k as int].end));
                if chars@.dom().len() == 0 {
                    assert(chars@.dom() =~= Set::<Point>::empty());
                }
            }
            k += 1;
        }
        assert(self.arrows@.take(self.arrows@.len() as int) =~= self.arrows@);
        let corner = chars.extent();
        let mut builder = String::new();
        let mut y: usize = 0;
        let mut rows_done = false;
        while !rows_done
            invariant
                chars.wf(),
                y <= corner.y,
                builder@ == rows_text(
                    chars@,
                    corner.x + 1,
                    if rows_done {
                        y + 1
                    } else {
                        y as int
                    },
                ),
                rows_done ==> y == corner.y,
            decreases corner.y - y + if rows_done { 0int } else { 1int },
        {
            let ghost above = builder@;
            let mut x: usize = 0;
            let mut row_done = false;
            while !row_done
                invariant
                    chars.wf(),
                    x <= corner.x,
                    builder@ == above + row_prefix(
                        chars@,
                        y as int,
                        if row_done {
                            x + 1
                        } else {
                            x as int
                        },
                    ),
                    row_done ==> x == corner.x,
                decreases corner.x - x + if row_done { 0int } else { 1int },
            {
                let c = match chars.get(Point { x, y }) {
                    None => ' ',
                    Some(c) => c,
                };
                builder.push(c);
                assert(builder@ =~= above + row_prefix(chars@, y as int, x + 1));
                if x == corner.x {
                    row_done = true;
                } else {
                    x += 1;
                }
            }
            builder.push('\n');
            assert(builder@ =~= rows_text(chars@, corner.x + 1, y + 1));
            if y == corner.y {
                rows_done = true;
            } else {
                y += 1;
            }
        }
        builder
    }
}

/// A box paints its top-left corner.
pub proof fn lemma_node_has_corner(node: Node, anchor: Point)
    ensures
        node.cells(anchor).dom().contains(anchor),
{
}

} // verus!
