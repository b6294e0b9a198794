//! Grid points and the sparse canvas: a mapping from points to characters in
//! which a later write to a point replaces the earlier one.

use vstd::prelude::*;

verus! {

/// A cell of the character grid. `x` grows to the right, `y` downwards.
#[derive(Debug, PartialEq, Eq, Structural, Clone, Copy, Hash)]
pub struct Point {
    pub x: usize,
    pub y: usize,
}

impl Point {
    /// The point `(x, y)` seen from `anchor`.
    pub fn new_with_anchor(x: usize, y: usize, anchor: &Point) -> (p: Point)
        requires
            anchor.x + x <= usize::MAX,
            anchor.y + y <= usize::MAX,
        ensures
            p.x == anchor.x + x,
            p.y == anchor.y + y,
    {
        Point { x: anchor.x + x, y: anchor.y + y }
    }
}

/// What a sequence of writes leaves on an empty canvas.
pub open spec fn painted(cells: Seq<(Point, char)>) -> Map<Point, char>
    decreases cells.len(),
{
    if cells.len() == 0 {
        Map::empty()
    } else {
        painted(cells.drop_last()).insert(cells.last().0, cells.last().1)
    }
}

/// No two cells of the sequence are at the same point.
pub open spec fn distinct_points(cells: Seq<(Point, char)>) -> bool {
    forall|i: int, j: int| 0 <= i < j < cells.len() ==> (#[trigger] cells[i]).0 != (#[trigger] cells[j]).0
}

proof fn lemma_painted_dom(cells: Seq<(Point, char)>, p: Point)
    ensures
        painted(cells).dom().contains(p) <==> exists|i: int| 0 <= i < cells.len() && (#[trigger] cells[i]).0 == p,
    decreases cells.len(),
{
    if cells.len() > 0 {
        let front = cells.drop_last();
        lemma_painted_dom(front, p);
        if painted(cells).dom().contains(p) {
            if cells.last().0 == p {
                assert(cells[cells.len() - 1].0 == p);
            } else {
                let i = choose|i: int| 0 <= i < front.len() && (#[trigger] front[i]).0 == p;
                assert(cells[i].0 == p);
            }
        }
        if exists|i: int| 0 <= i < cells.len() && (#[trigger] cells[i]).0 == p {
            let i = choose|i: int| 0 <= i < cells.len() && (#[trigger] cells[i]).0 == p;
            if i < front.len() {
                assert(front[i].0 == p);
            }
        }
    }
}

proof fn lemma_painted_value(cells: Seq<(Point, char)>, i: int)
    requires
        distinct_points(cells),
        0 <= i < cells.len(),
    ensures
        painted(cells).dom().contains(cells[i].0),
        painted(cells)[cells[i].0] == cells[i].1,
    decreases cells.len(),
{
    let front = cells.drop_last();
    if i < cells.len() - 1 {
        assert(distinct_points(front)) by {
            assert forall|a: int, b: int| 0 <= a < b < front.len() implies (#[trigger] front[a]).0 != (
            #[trigger] front[b]).0 by {
                assert(cells[a].0 != cells[b].0);
            }
        }
        lemma_painted_value(front, i);
        assert(front[i] == cells[i]);
        assert(cells[i].0 != cells[cells.len() - 1].0);
    }
}

proof fn lemma_painted_update(cells: Seq<(Point, char)>, i: int, c: char)
    requires
        distinct_points(cells),
        0 <= i < cells.len(),
    ensures
        distinct_points(cells.update(i, (cells[i].0, c))),
        painted(cells.update(i, (cells[i].0, c))) == painted(cells).insert(cells[i].0, c),
    decreases cells.len(),
{
    let p = cells[i].0;
    let after = cells.update(i, (p, c));
    assert(distinct_points(after)) by {
        assert forall|a: int, b: int| 0 <= a < b < after.len() implies (#[trigger] after[a]).0 != (
        #[trigger] after[b]).0 by {
            assert(cells[a].0 != cells[b].0);
        }
    }
    let front = cells.drop_last();
    if i == cells.len() - 1 {
        assert(after.drop_last() =~= front);
        assert(painted(after) =~= painted(cells).insert(p, c));
    } else {
        assert(distinct_points(front)) by {
            assert forall|a: int, b: int| 0 <= a < b < front.len() implies (#[trigger] front[a]).0 != (
            #[trigger] front[b]).0 by {
                assert(cells[a].0 != cells[b].0);
            }
        }
        lemma_painted_update(front, i, c);
        assert(front[i] == cells[i]);
        assert(after.drop_last() =~= front.update(i, (p, c)));
        assert(after.last() == cells.last());
        assert(cells[i].0 != cells[cells.len() - 1].0);
        assert(painted(after) =~= painted(cells).insert(p, c));
    }
}

proof fn lemma_painted_len(cells: Seq<(Point, char)>)
    requires
        distinct_points(cells),
    ensures
        painted(cells).dom().finite(),
        painted(cells).dom().len() == cells.len(),
    decreases cells.len(),
{
    if cells.len() > 0 {
        let front = cells.drop_last();
        assert(distinct_points(front)) by {
            assert forall|a: int, b: int| 0 <= a < b < front.len() implies (#[trigger] front[a]).0 != (
            #[trigger] front[b]).0 by {
                assert(cells[a].0 != cells[b].0);
            }
        }
        lemma_painted_len(front);
        lemma_painted_dom(front, cells.last().0);
        if painted(front).dom().contains(cells.last().0) {
            let i = choose|i: int| 0 <= i < front.len() && (#[trigger] front[i]).0 == cells.last().0;
            assert(cells[i].0 != cells[cells.len() - 1].0);
        }
        assert(painted(cells).dom() =~= painted(front).dom().insert(cells.last().0));
    } else {
        assert(painted(cells).dom() =~= Set::<Point>::empty());
    }
}

/// A sparse picture: the points that hold a character, and which one. It has
/// no fixed size; its extent is that of its occupied points.
pub struct Canvas {
    cells: Vec<(Point, char)>,
}

impl View for Canvas {
    type V = Map<Point, char>;

    closed spec fn view(&self) -> Map<Point, char> {
        painted(self.cells@)
    }
}

impl Canvas {
    /// Every occupied point is held once.
    pub closed spec fn wf(&self) -> bool {
        distinct_points(self.cells@)
    }

    /// An empty canvas.
    pub fn new() -> (canvas: Canvas)
        ensures
            canvas.wf(),
            canvas@ == Map::<Point, char>::empty(),
    {
        Canvas { cells: Vec::new() }
    }

    /// Writes `c` at `point`, over whatever was there.
    pub fn insert(&mut self, point: Point, c: char)
        requires
            old(self).wf(),
        ensures
            final(self).wf(),
            final(self)@ == old(self)@.insert(point, c),
    {
        let mut i: usize = 0;
        while i < self.cells.len()
            invariant
                i <= self.cells.len(),
                self.cells == old(self).cells,
                distinct_points(self.cells@),
                forall|j: int| 0 <= j < i ==> (#[trigger] self.cells@[j]).0 != point,
            decreases self.cells.len() - i,
        {
            if self.cells[i].0 == point {
                proof {
                    lemma_painted_update(self.cells@, i as int, c);
                    lemma_painted_value(self.cells@, i as int);
                }
                self.cells.set(i, (point, c));
                return ;
            }
            i += 1;
        }
        proof {
            lemma_painted_dom(self.cells@, point);
            let before = self.cells@;
            assert(before.push((point, c)).drop_last() =~= before);
            assert(distinct_points(before.push((point, c))));
        }
        self.cells.push((point, c));
    }

    /// The character at `point`, if one was written there.
    pub fn get(&self, point: Point) -> (found: Option<char>)
        requires
            self.wf(),
        ensures
            found == 
            if self@.dom().contains(point) {
                Some(self@[point])
            } else {
                None
            },
    {
        let mut i: usize = 0;
        while i < self.cells.len()
            invariant
                i <= self.cells.len(),
                distinct_points(self.cells@),
                forall|j: int| 0 <= j < i ==> (#[trigger] self.cells@[j]).0 != point,
            decreases self.cells.len() - i,
        {
            if self.cells[i].0 == point {
                proof {
                    lemma_painted_value(self.cells@, i as int);
                }
                return Some(self.cells[i].1);
            }
            i += 1;
        }
        proof {
            lemma_painted_dom(self.cells@, point);
        }
        None
    }

    /// The number of occupied points.
    pub fn len(&self) -> (n: usize)
        requires
            self.wf(),
        ensures
            self@.dom().finite(),
            n == self@.dom().len(),
    {
        proof {
            lemma_painted_len(self.cells@);
        }
        self.cells.len()
    }

    /// Paints `other` over this canvas: where both hold a character, that
    /// of `other` stays.
    pub fn merge(&mut self, other: &Canvas)
        requires
            old(self).wf(),
        ensures
            final(self).wf(),
            final(self)@ == old(self)@.union_prefer_right(other@),
    {
        let mut i: usize = 0;
        while i < other.cells.len()
            invariant
                i <= other.cells.len(),
                self.wf(),
                self@ == old(self)@.union_prefer_right(painted(other.cells@.take(i as int))),
            decreases other.cells.len() - i,
        {
            let cell = other.cells[i];
            proof {
                let next = other.cells@.take(i + 1);
                assert(next.drop_last() =~= other.cells@.take(i as int));
                assert(next.last() == cell);
            }
            self.insert(cell.0, cell.1);
            i += 1;
        }
        proof {
            assert(other.cells@.take(other.cells@.len() as int) =~= other.cells@);
        }
    }

    /// A canvas holds finitely many characters.
    pub proof fn lemma_finite(&self)
        requires
            self.wf(),
        ensures
            self@.dom().finite(),
    {
        lemma_painted_len(self.cells@);
    }

    /// The largest column and the largest row that hold a character.
    pub fn extent(&self) -> (corner: Point)
        requires
            self.wf(),
            self@.dom().len() > 0,
        ensures
            is_max_x(self@, corner.x as int),
            is_max_y(self@, corner.y as int),
            corner.x == max_x(self@),
            corner.y == max_y(self@),
    {
        proof {
            lemma_painted_len(self.cells@);
        }
        let mut corner = self.cells[0].0;
        let mut i: usize = 1;
        while i < self.cells.len()
            invariant
                1 <= i <= self.cells.len(),
                exists|j: int| 0 <= j < i && (#[trigger] self.cells@[j]).0.x == corner.x,
                exists|j: int| 0 <= j < i && (#[trigger] self.cells@[j]).0.y == corner.y,
                forall|j: int| 0 <= j < i ==> (#[trigger] self.cells@[j]).0.x <= corner.x,
                forall|j: int| 0 <= j < i ==> (#[trigger] self.cells@[j]).0.y <= corner.y,
            decreases self.cells.len() - i,
        {
            let p = self.cells[i].0;
            if p.x > corner.x {
                corner = Point { x: p.x, y: corner.y };
            }
            if p.y > corner.y {
                corner = Point { x: corner.x, y: p.y };
            }
            i += 1;
        }
        proof {
            let jx = choose|j: int| 0 <= j < self.cells@.len() && (#[trigger] self.cells@[j]).0.x == corner.x;
            let jy = choose|j: int| 0 <= j < self.cells@.len() && (#[trigger] self.cells@[j]).0.y == corner.y;
            lemma_painted_dom(self.cells@, self.cells@[jx].0);
            lemma_painted_dom(self.cells@, self.cells@[jy].0);
            assert forall|p: Point| self@.dom().contains(p) implies p.x <= corner.x && p.y <= corner.y by {
                lemma_painted_dom(self.cells@, p);
                let j = choose|j: int| 0 <= j < self.cells@.len() && (#[trigger] self.cells@[j]).0 == p;
                assert(self.cells@[j].0.x <= corner.x);
            }
            assert(is_max_x(self@, corner.x as int));
            assert(is_max_y(self@, corner.y as int));
            lemma_max_x_unique(self@, corner.x as int, max_x(self@));
            lemma_max_y_unique(self@, corner.y as int, max_y(self@));
        }
        corner
    }
}

/// `column` is the largest column that holds a character.
pub open spec fn is_max_x(cells: Map<Point, char>, column: int) -> bool {
    &&& exists|p: Point| cells.dom().contains(p) && #[trigger] p.x == column
    &&& forall|p: Point| cells.dom().contains(p) ==> #[trigger] p.x <= column
}

/// `row` is the largest row that holds a character.
pub open spec fn is_max_y(cells: Map<Point, char>, row: int) -> bool {
    &&& exists|p: Point| cells.dom().contains(p) && #[trigger] p.y == row
    &&& forall|p: Point| cells.dom().contains(p) ==> #[trigger] p.y <= row
}

/// The largest occupied column of a canvas that is not empty.
pub open spec fn max_x(cells: Map<Point, char>) -> int {
    choose|column: int| is_max_x(cells, column)
}

/// The largest occupied row of a canvas that is not empty.
pub open spec fn max_y(cells: Map<Point, char>) -> int {
    choose|row: int| is_max_y(cells, row)
}

/// A canvas has one largest column.
pub proof fn lemma_max_x_unique(cells: Map<Point, char>, a: int, b: int)
    requires
        is_max_x(cells, a),
    ensures
        is_max_x(cells, max_x(cells)),
        is_max_x(cells, b) ==> a == b,
{
}

/// A canvas has one largest row.
pub proof fn lemma_max_y_unique(cells: Map<Point, char>, a: int, b: int)
    requires
        is_max_y(cells, a),
    ensures
        is_max_y(cells, max_y(cells)),
        is_max_y(cells, b) ==> a == b,
{
}

} // verus!
