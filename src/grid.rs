//! The cost grid: a fixed-size field of classified cells, with bounds-checked
//! lookup, per-cell movement cost and 4-directional neighbour enumeration.
use vstd::prelude::*;
use crate::point::{Point, adjacent, manhattan};

verus! {

/// The class of a grid cell.
#[derive(Clone, Copy, PartialEq, Eq, Structural, Debug)]
pub enum CellType {
    /// Open floor.
    Empty,
    /// Impassable.
    Wall,
    /// The origin the agent must return to.
    Start,
    /// The goal; passable at an elevated cost.
    CommandRoom,
    /// Not observed yet.
    Unknown,
}

/// The glyph that stands for each class in the observed rows.
pub open spec fn glyph(c: CellType) -> char {
    match c {
        CellType::Empty => '.',
        CellType::Wall => '#',
        CellType::Start => 'T',
        CellType::CommandRoom => 'C',
        CellType::Unknown => '?',
    }
}

/// The class that a glyph denotes; any glyph outside the alphabet is unknown.
pub open spec fn class_of_glyph(ch: char) -> CellType {
    if ch == '.' {
        CellType::Empty
    } else if ch == '#' {
        CellType::Wall
    } else if ch == 'T' {
        CellType::Start
    } else if ch == 'C' {
        CellType::CommandRoom
    } else {
        CellType::Unknown
    }
}

impl CellType {
    pub fn as_char(&self) -> (r: char)
        ensures
            r == glyph(*self),
    {
        match self {
            CellType::Empty => '.',
            CellType::Wall => '#',
            CellType::Start => 'T',
            CellType::CommandRoom => 'C',
            CellType::Unknown => '?',
        }
    }

    pub fn from_char(c: char) -> (r: CellType)
        ensures
            r == class_of_glyph(c),
    {
        match c {
            '.' => CellType::Empty,
            '#' => CellType::Wall,
            'T' => CellType::Start,
            'C' => CellType::CommandRoom,
            _ => CellType::Unknown,
        }
    }
}

/// Which classes a grid lets the search walk through.
#[derive(Clone, Copy, PartialEq, Eq, Structural, Debug)]
pub enum Traversal {
    /// Only `Empty` cells are passable.
    EmptyOnly,
    /// Every class but `Wall` is passable, unexplored cells included.
    AnyButWall,
}

pub open spec fn admits(t: Traversal, c: CellType) -> bool {
    match t {
        Traversal::EmptyOnly => c == CellType::Empty,
        Traversal::AnyButWall => c != CellType::Wall,
    }
}

/// Cost of entering a passable cell of class `c`.
pub open spec fn class_cost(c: CellType) -> int {
    if c == CellType::CommandRoom { 10 } else { 1 }
}

/// The cost the grid reports for an impassable or absent cell.
pub const IMPASSABLE_COST: i32 = i32::MAX;

/// A `width` x `height` field of cells stored row by row.
#[derive(Clone, Debug)]
pub struct Grid {
    pub height: i32,
    pub width: i32,
    pub cells: Vec<CellType>,
    pub traversal: Traversal,
}

impl Grid {
    pub open spec fn wf(&self) -> bool {
        &&& 0 <= self.width
        &&& 0 <= self.height
        &&& self.width * self.height <= i32::MAX
        &&& self.cells@.len() == self.width * self.height
    }

    pub open spec fn in_bounds(&self, p: Point) -> bool {
        0 <= p.x < self.width && 0 <= p.y < self.height
    }

    pub open spec fn index_of(&self, p: Point) -> int {
        p.y * self.width + p.x
    }

    /// The class of an in-bounds cell.
    pub open spec fn cell(&self, p: Point) -> CellType {
        self.cells@[self.index_of(p)]
    }

    /// The search may enter `p`.
    pub open spec fn passable(&self, p: Point) -> bool {
        self.in_bounds(p) && admits(self.traversal, self.cell(p))
    }

    /// Cost of entering `p`: `IMPASSABLE_COST` where it cannot be entered.
    pub open spec fn cost(&self, p: Point) -> int {
        if self.passable(p) {
            class_cost(self.cell(p))
        } else {
            IMPASSABLE_COST as int
        }
    }

    /// Same size and passability rule as `other`.
    pub open spec fn same_shape(&self, other: &Grid) -> bool {
        &&& self.width == other.width
        &&& self.height == other.height
        &&& self.traversal == other.traversal
    }

    pub proof fn lemma_index(&self, p: Point)
        requires
            self.wf(),
            self.in_bounds(p),
        ensures
            0 <= self.index_of(p) < self.cells@.len(),
    {
        let w = self.width as int;
        let h = self.height as int;
        let x = p.x as int;
        let y = p.y as int;
        assert(0 <= y * w + x < w * h) by (nonlinear_arith)
            requires
                0 <= x < w,
                0 <= y < h,
        ;
    }

    pub proof fn lemma_index_injective(&self, p: Point, q: Point)
        requires
            self.wf(),
            self.in_bounds(p),
            self.in_bounds(q),
            self.index_of(p) == self.index_of(q),
        ensures
            p == q,
    {
        let w = self.width as int;
        let (px, py, qx, qy) = (p.x as int, p.y as int, q.x as int, q.y as int);
        assert(py == qy) by (nonlinear_arith)
            requires
                0 <= px < w,
                0 <= qx < w,
                py * w + px == qy * w + qx,
        ;
    }

    /// Distances between cells of the grid fit in an `i32`.
    pub proof fn lemma_manhattan_in_grid(&self, p: Point, q: Point)
        requires
            self.wf(),
            self.in_bounds(p),
            self.in_bounds(q),
        ensures
            0 <= manhattan(p, q) < i32::MAX,
    {
        let w = self.width as int;
        let h = self.height as int;
        assert(w + h <= w * h + 1) by (nonlinear_arith)
            requires
                1 <= w,
                1 <= h,
        ;
    }

    /// A grid of `w` x `h` cells, all of class `class`.
    pub fn filled(w: i32, h: i32, class: CellType, traversal: Traversal) -> (r: Grid)
        requires
            0 <= w,
            0 <= h,
            w * h <= i32::MAX,
        ensures
            r.wf(),
            r.width == w,
            r.height == h,
            r.traversal == traversal,
            forall|i: int| 0 <= i < r.cells@.len() ==> r.cells@[i] == class,
    {
        let n: usize = (w * h) as usize;
        let mut cells: Vec<CellType> = Vec::with_capacity(n);
        let mut i: usize = 0;
        while i < n
            invariant
                i <= n,
                cells@.len() == i,
                forall|j: int| 0 <= j < i ==> cells@[j] == class,
            decreases n - i,
        {
            cells.push(class);
            i = i + 1;
        }
        Grid { height: h, width: w, cells, traversal }
    }

    /// A grid of `w` x `h` empty cells.
    pub fn new(w: i32, h: i32, traversal: Traversal) -> (r: Grid)
        requires
            0 <= w,
            0 <= h,
            w * h <= i32::MAX,
        ensures
            r.wf(),
            r.width == w,
            r.height == h,
            r.traversal == traversal,
            forall|i: int| 0 <= i < r.cells@.len() ==> r.cells@[i] == CellType::Empty,
    {
        Grid::filled(w, h, CellType::Empty, traversal)
    }

    pub fn in_bounds_exec(&self, pos: &Point) -> (r: bool)
        ensures
            r == self.in_bounds(*pos),
    {
        0 <= pos.x && pos.x < self.width && 0 <= pos.y && pos.y < self.height
    }

    /// Row-major index of an in-bounds position.
    pub fn get_cell_index(&self, pos: &Point) -> (r: usize)
        requires
            self.wf(),
            self.in_bounds(*pos),
        ensures
            r == self.index_of(*pos),
            r < self.cells@.len(),
    {
        proof {
            self.lemma_index(*pos);
        }
        let row: i64 = pos.y as i64 * self.width as i64;
        (row + pos.x as i64) as usize
    }

    /// The class of `pos`, or `None` outside the grid.
    pub fn get_cell(&self, pos: &Point) -> (r: Option<CellType>)
        requires
            self.wf(),
        ensures
            r == (if self.in_bounds(*pos) { Some(self.cell(*pos)) } else { None }),
    {
        if self.in_bounds_exec(pos) {
            let i = self.get_cell_index(pos);
            Some(self.cells[i])
        } else {
            None
        }
    }

    /// Overwrites the class of `pos`; a position outside the grid is ignored.
    pub fn set_cell_type(&mut self, pos: &Point, cell_type: CellType)
        requires
            old(self).wf(),
        ensures
            final(self).wf(),
            final(self).same_shape(old(self)),
            final(self).cells@ == (if old(self).in_bounds(*pos) {
                old(self).cells@.update(old(self).index_of(*pos), cell_type)
            } else {
                old(self).cells@
            }),
    {
        if self.in_bounds_exec(pos) {
            let i = self.get_cell_index(pos);
            self.cells.set(i, cell_type);
        }
    }

    /// Whether the search may enter `pos`.
    pub fn is_passable(&self, pos: &Point) -> (r: bool)
        requires
            self.wf(),
        ensures
            r == self.passable(*pos),
    {
        match self.get_cell(pos) {
            Some(c) => match self.traversal {
                Traversal::EmptyOnly => c == CellType::Empty,
                Traversal::AnyButWall => c != CellType::Wall,
            },
            None => false,
        }
    }

    /// Cost of entering `pos`.
    pub fn get_cell_cost(&self, pos: &Point) -> (r: i32)
        requires
            self.wf(),
        ensures
            r == self.cost(*pos),
            self.passable(*pos) ==> 1 <= r <= 10,
    {
        if self.is_passable(pos) {
            let i = self.get_cell_index(pos);
            if self.cells[i] == CellType::CommandRoom {
                10
            } else {
                1
            }
        } else {
            IMPASSABLE_COST
        }
    }

    /// The passable cells among the left, right, upper and lower neighbours
    /// of `pos`, in that order.
    pub fn get_neighbors_points(&self, pos: &Point) -> (r: Vec<Point>)
        requires
            self.wf(),
            self.in_bounds(*pos),
        ensures
            r@ == passable_only(*self, neighbor_candidates(*pos)),
            forall|i: int| 0 <= i < r@.len() ==> adjacent(*pos, #[trigger] r@[i]) && self.passable(r@[i]),
            forall|q: Point| adjacent(*pos, q) && self.passable(q) ==> r@.contains(q),
    {
        let cands: [Point; 4] = [
            Point::new(pos.x - 1, pos.y),
            Point::new(pos.x + 1, pos.y),
            Point::new(pos.x, pos.y - 1),
            Point::new(pos.x, pos.y + 1),
        ];
        let ghost cs = neighbor_candidates(*pos);
        assert(cands@ == cs);
        let mut r: Vec<Point> = Vec::new();
        let mut k: usize = 0;
        while k < 4
            invariant
                k <= 4,
                self.wf(),
                cands@ == cs,
                cs == neighbor_candidates(*pos),
                r@ == passable_only(*self, cs.take(k as int)),
            decreases 4 - k,
        {
            let q = cands[k];
            proof {
                assert(cs.take(k + 1) == cs.take(k as int).push(q));
                lemma_passable_only_push(*self, cs.take(k as int), q);
            }
            if self.is_passable(&q) {
                r.push(q);
            }
            k = k + 1;
        }
        proof {
            assert(cs.take(4) == cs);
            lemma_passable_only_members(*self, cs);
            lemma_candidates_cover(*pos);
            assert forall|i: int| 0 <= i < r@.len() implies adjacent(*pos, #[trigger] r@[i])
                && self.passable(r@[i]) by {
                assert(r@.contains(r@[i]));
            }
        }
        r
    }

    /// Turns every unexplored cell into a wall.
    pub fn set_unknown_as_wall(&mut self)
        requires
            old(self).wf(),
        ensures
            final(self).wf(),
            final(self).same_shape(old(self)),
            final(self).cells@.len() == old(self).cells@.len(),
            forall|i: int|
                0 <= i < old(self).cells@.len() ==> #[trigger] final(self).cells@[i] == (if old(
                    self,
                ).cells@[i] == CellType::Unknown {
                    CellType::Wall
                } else {
                    old(self).cells@[i]
                }),
    {
        let n = self.cells.len();
        let mut i: usize = 0;
        while i < n
            invariant
                i <= n,
                n == old(self).cells@.len(),
                self.same_shape(old(self)),
                self.cells@.len() == n,
                forall|j: int|
                    0 <= j < n ==> #[trigger] self.cells@[j] == (if j < i && old(self).cells@[j]
                        == CellType::Unknown {
                        CellType::Wall
                    } else {
                        old(self).cells@[j]
                    }),
            decreases n - i,
        {
            if self.cells[i] == CellType::Unknown {
                self.cells.set(i, CellType::Wall);
            }
            i = i + 1;
        }
    }
}

/// A grid as plain values: its size, passability rule and cells.
pub struct Field {
    pub width: i32,
    pub height: i32,
    pub traversal: Traversal,
    pub cells: Seq<CellType>,
}

impl Field {
    pub open spec fn in_bounds(&self, p: Point) -> bool {
        0 <= p.x < self.width && 0 <= p.y < self.height
    }

    pub open spec fn index_of(&self, p: Point) -> int {
        p.y * self.width + p.x
    }

    pub open spec fn passable(&self, p: Point) -> bool {
        self.in_bounds(p) && admits(self.traversal, self.cells[self.index_of(p)])
    }

    pub open spec fn cost(&self, p: Point) -> int {
        if self.passable(p) {
            class_cost(self.cells[self.index_of(p)])
        } else {
            IMPASSABLE_COST as int
        }
    }

    /// The passable positions of `s`, in order.
    pub open spec fn passable_from(&self, s: Seq<Point>) -> Seq<Point>
        decreases s.len(),
    {
        if s.len() == 0 {
            s
        } else {
            let rest = self.passable_from(s.drop_last());
            if self.passable(s.last()) {
                rest.push(s.last())
            } else {
                rest
            }
        }
    }
}

impl Grid {
    /// The grid's values.
    pub open spec fn field(&self) -> Field {
        Field { width: self.width, height: self.height, traversal: self.traversal, cells: self.cells@ }
    }
}

pub proof fn lemma_passable_only_field(g: Grid, s: Seq<Point>)
    ensures
        passable_only(g, s) == g.field().passable_from(s),
    decreases s.len(),
{
    if s.len() > 0 {
        lemma_passable_only_field(g, s.drop_last());
    }
}

/// The four positions next to `p`: left, right, up, down.
pub open spec fn neighbor_candidates(p: Point) -> Seq<Point> {
    seq![
        Point { x: (p.x - 1) as i32, y: p.y },
        Point { x: (p.x + 1) as i32, y: p.y },
        Point { x: p.x, y: (p.y - 1) as i32 },
        Point { x: p.x, y: (p.y + 1) as i32 },
    ]
}

/// The passable positions of `s`, in order.
pub open spec fn passable_only(g: Grid, s: Seq<Point>) -> Seq<Point>
    decreases s.len(),
{
    if s.len() == 0 {
        s
    } else {
        let rest = passable_only(g, s.drop_last());
        if g.passable(s.last()) {
            rest.push(s.last())
        } else {
            rest
        }
    }
}

proof fn lemma_passable_only_push(g: Grid, s: Seq<Point>, q: Point)
    ensures
        passable_only(g, s.push(q)) == (if g.passable(q) {
            passable_only(g, s).push(q)
        } else {
            passable_only(g, s)
        }),
{
    assert(s.push(q).drop_last() == s);
}

proof fn lemma_passable_only_members(g: Grid, s: Seq<Point>)
    ensures
        forall|q: Point| #[trigger] passable_only(g, s).contains(q) <==> s.contains(q) && g.passable(q),
    decreases s.len(),
{
    if s.len() > 0 {
        let d = s.drop_last();
        lemma_passable_only_members(g, d);
        assert(s == d.push(s.last()));
        lemma_passable_only_push(g, d, s.last());
        assert forall|q: Point| #[trigger] passable_only(g, s).contains(q) <==> s.contains(q)
            && g.passable(q) by {
            assert(s.contains(q) <==> d.contains(q) || q == s.last()) by {
                if s.contains(q) {
                    let i = choose|i: int| 0 <= i < s.len() && s[i] == q;
                    if i < s.len() - 1 {
                        assert(d[i] == q);
                    }
                }
                if d.contains(q) {
                    let i = choose|i: int| 0 <= i < d.len() && d[i] == q;
                    assert(s[i] == q);
                }
                if q == s.last() {
                    assert(s[s.len() - 1] == q);
                }
            }
            let rest = passable_only(g, d);
            if g.passable(s.last()) {
                assert(rest.push(s.last()).contains(q) <==> rest.contains(q) || q == s.last()) by {
                    let rp = rest.push(s.last());
                    if rp.contains(q) {
                        let i = choose|i: int| 0 <= i < rp.len() && rp[i] == q;
                        if i < rest.len() {
                            assert(rest[i] == q);
                        }
                    }
                    if rest.contains(q) {
                        let i = choose|i: int| 0 <= i < rest.len() && rest[i] == q;
                        assert(rp[i] == q);
                    }
                    if q == s.last() {
                        assert(rp[rest.len() as int] == q);
                    }
                }
            }
        }
    }
}

proof fn lemma_candidates_cover(p: Point)
    requires
        i32::MIN < p.x < i32::MAX,
        i32::MIN < p.y < i32::MAX,
    ensures
        forall|q: Point| adjacent(p, q) ==> #[trigger] neighbor_candidates(p).contains(q),
        forall|q: Point| neighbor_candidates(p).contains(q) ==> adjacent(p, q),
{
    let cs = neighbor_candidates(p);
    assert forall|q: Point| adjacent(p, q) implies #[trigger] cs.contains(q) by {
        if q.y == p.y && q.x == p.x - 1 {
            assert(cs[0] == q);
        } else if q.y == p.y && q.x == p.x + 1 {
            assert(cs[1] == q);
        } else if q.x == p.x && q.y == p.y - 1 {
            assert(cs[2] == q);
        } else {
            assert(cs[3] == q);
        }
    }
}

} // verus!
