//! Choosing the next cell to explore: the nearest unexplored cells that a
//! route reaches, with a target kept from one turn to the next.
use vstd::prelude::*;
use crate::grid::{CellType, Grid};
use crate::point::{Point, adjacent, manhattan};
use crate::search::{is_shortest_route, reachable, search_route};

verus! {

/// How many of the nearest unexplored cells are tried in one turn.
pub const FRONTIER_CANDIDATES: usize = 4;

/// `a` comes before `b` in the order in which unexplored cells are tried
/// from `from`: nearer first, then by row, then by column.
pub open spec fn tried_before(from: Point, a: Point, b: Point) -> bool {
    ||| manhattan(from, a) < manhattan(from, b)
    ||| manhattan(from, a) == manhattan(from, b) && a.y < b.y
    ||| manhattan(from, a) == manhattan(from, b) && a.y == b.y && a.x < b.x
}

/// `r` lists the first unexplored cells of `g` in the order tried from
/// `from`: at most `limit` of them, and all of them when there are fewer.
#[verifier::opaque]
pub open spec fn is_nearest_unknown(g: Grid, from: Point, r: Seq<Point>, limit: int) -> bool {
    &&& r.len() <= limit
    &&& forall|i: int| 0 <= i < r.len() ==> g.in_bounds(#[trigger] r[i]) && g.cell(r[i]) == CellType::Unknown
    &&& forall|i: int, j: int| 0 <= i < j < r.len() ==> tried_before(from, #[trigger] r[i], #[trigger] r[j])
    &&& forall|q: Point|
        g.in_bounds(q) && g.cell(q) == CellType::Unknown && !#[trigger] r.contains(q) ==> r.len() == limit
            && (r.len() > 0 ==> tried_before(from, r.last(), q))
}

/// A route other than the empty one leads from `from` to `to`.
#[verifier::opaque]
pub open spec fn reachable_elsewhere(g: Grid, from: Point, to: Point) -> bool {
    from != to && reachable(g, from, to)
}

/// `step` is the first cell of the route the search returns from `from` to
/// `to`, a cheapest one.
#[verifier::opaque]
pub open spec fn first_step(g: Grid, from: Point, to: Point, step: Point) -> bool {
    let p = search_route(g.field(), from, to);
    &&& is_shortest_route(g, from, to, p)
    &&& p.len() > 0
    &&& p[0] == step
}

/// The kept target is still worth pursuing.
pub open spec fn keeps_target(g: Grid, from: Point, kept: Option<Point>) -> bool {
    match kept {
        Some(t) => g.in_bounds(t) && g.cell(t) == CellType::Unknown && reachable_elsewhere(g, from, t),
        None => false,
    }
}

/// The kept target when no new one is chosen: it stays while it is unexplored
/// and not reached, even when no route leads to it for now.
pub open spec fn retained(g: Grid, from: Point, kept: Option<Point>) -> Option<Point> {
    match kept {
        Some(t) => if g.in_bounds(t) && g.cell(t) == CellType::Unknown && t != from {
            Some(t)
        } else {
            None
        },
        None => None,
    }
}

/// What the frontier selector answers from `from`, given the kept target and
/// the goal if it has been seen: a step and the target to keep, or nothing.
#[verifier::opaque]
pub open spec fn frontier_outcome(
    g: Grid,
    from: Point,
    kept: Option<Point>,
    goal: Option<Point>,
    r: Option<(Point, Option<Point>)>,
) -> bool {
    if keeps_target(g, from, kept) {
        exists|step: Point| r == Some((step, kept)) && first_step(g, from, kept->0, step)
    } else {
        exists|cands: Seq<Point>|
            #[trigger] is_nearest_unknown(g, from, cands, FRONTIER_CANDIDATES as int) && {
                if exists|k: int| 0 <= k < cands.len() && reachable_elsewhere(g, from, #[trigger] cands[k]) {
                    exists|k: int, step: Point|
                        0 <= k < cands.len() && reachable_elsewhere(g, from, cands[k])
                            && (forall|j: int| 0 <= j < k ==> !reachable_elsewhere(g, from, #[trigger] cands[j]))
                            && r == Some((step, Some(cands[k]))) && #[trigger] first_step(g, from, cands[k], step)
                } else {
                    match goal {
                        Some(gl) => if g.in_bounds(gl) && reachable_elsewhere(g, from, gl) {
                            exists|step: Point| r == Some((step, retained(g, from, kept))) && first_step(g, from, gl, step)
                        } else {
                            r == None::<(Point, Option<Point>)>
                        },
                        None => r == None::<(Point, Option<Point>)>,
                    }
                }
            }
    }
}

proof fn lemma_outcome_candidate(
    g: Grid,
    from: Point,
    kept: Option<Point>,
    goal: Option<Point>,
    cands: Seq<Point>,
    k: int,
    step: Point,
)
    requires
        !keeps_target(g, from, kept),
        is_nearest_unknown(g, from, cands, FRONTIER_CANDIDATES as int),
        0 <= k < cands.len(),
        forall|j: int| 0 <= j < k ==> !reachable_elsewhere(g, from, #[trigger] cands[j]),
        reachable_elsewhere(g, from, cands[k]),
        first_step(g, from, cands[k], step),
    ensures
        frontier_outcome(g, from, kept, goal, Some((step, Some(cands[k])))),
{
    reveal(frontier_outcome);
    assert(0 <= k < cands.len() && reachable_elsewhere(g, from, cands[k]));
}

proof fn lemma_outcome_fallback(
    g: Grid,
    from: Point,
    kept: Option<Point>,
    goal: Option<Point>,
    cands: Seq<Point>,
    r: Option<(Point, Option<Point>)>,
)
    requires
        !keeps_target(g, from, kept),
        is_nearest_unknown(g, from, cands, FRONTIER_CANDIDATES as int),
        forall|j: int| 0 <= j < cands.len() ==> !reachable_elsewhere(g, from, #[trigger] cands[j]),
        match goal {
            Some(gl) => if g.in_bounds(gl) && reachable_elsewhere(g, from, gl) {
                exists|step: Point| r == Some((step, retained(g, from, kept))) && first_step(g, from, gl, step)
            } else {
                r == None::<(Point, Option<Point>)>
            },
            None => r == None::<(Point, Option<Point>)>,
        },
    ensures
        frontier_outcome(g, from, kept, goal, r),
{
    reveal(frontier_outcome);
}

proof fn lemma_outcome_kept(g: Grid, from: Point, kept: Option<Point>, goal: Option<Point>, step: Point)
    requires
        keeps_target(g, from, kept),
        first_step(g, from, kept->0, step),
    ensures
        frontier_outcome(g, from, kept, goal, Some((step, kept))),
{
    reveal(frontier_outcome);
}

impl Grid {
    /// The first step toward `to`, when a route other than the empty one leads there.
    pub(crate) fn step_toward(&self, from: &Point, to: &Point) -> (r: Option<Point>)
        requires
            self.wf(),
            self.in_bounds(*from),
            self.in_bounds(*to),
        ensures
            match r {
                Some(step) => {
                    &&& reachable_elsewhere(*self, *from, *to)
                    &&& first_step(*self, *from, *to, step)
                    &&& adjacent(*from, step)
                    &&& self.passable(step)
                },
                None => !reachable_elsewhere(*self, *from, *to),
            },
    {
        let path = self.astar(from, to);
        proof {
            reveal(reachable_elsewhere);
            reveal(first_step);
        }
        if path.len() > 0 {
            proof {
                if *from == *to {
                    assert(path@.last() == *from);
                    assert(path@.contains(path@[path@.len() - 1]));
                }
            }
            proof {
                assert(self.passable(path@[0]));
            }
            Some(path[0])
        } else {
            None
        }
    }

    /// The unexplored cell tried first from `from` among those tried after
    /// `after` (among all of them when `after` is `None`).
    fn next_unknown_after(&self, from: &Point, after: Option<Point>) -> (r: Option<Point>)
        requires
            self.wf(),
            self.in_bounds(*from),
            after is Some ==> self.in_bounds(after->0),
        ensures
            r is Some ==> self.in_bounds(r->0) && self.cell(r->0) == CellType::Unknown,
            r is Some && after is Some ==> tried_before(*from, after->0, r->0),
            r is Some ==> forall|q: Point|
#![trigger self.cell(q)]
                self.in_bounds(q) && self.cell(q) == CellType::Unknown && (after is Some ==> tried_before(
                    *from,
                    after->0,
                    q,
                )) ==> q == r->0 || tried_before(*from, r->0, q),
            r is None ==> forall|q: Point|
#![trigger self.cell(q)]
                self.in_bounds(q) && self.cell(q) == CellType::Unknown ==> after is Some
                    && !tried_before(*from, after->0, q),
    {
        let mut best: Option<Point> = None;
        let mut y: i32 = 0;
        while y < self.height
            invariant
                self.wf(),
                self.in_bounds(*from),
                after is Some ==> self.in_bounds(after->0),
                0 <= y <= self.height,
                best is Some ==> self.in_bounds(best->0) && self.cell(best->0) == CellType::Unknown,
                best is Some && after is Some ==> tried_before(*from, after->0, best->0),
                best is Some ==> forall|q: Point|
#![trigger self.cell(q)]
                    self.in_bounds(q) && q.y < y && self.cell(q) == CellType::Unknown && (after is Some
                        ==> tried_before(*from, after->0, q)) ==> q == best->0 || tried_before(
                        *from,
                        best->0,
                        q,
                    ),
                best is None ==> forall|q: Point|
#![trigger self.cell(q)]
                    self.in_bounds(q) && q.y < y && self.cell(q) == CellType::Unknown ==> after is Some
                        && !tried_before(*from, after->0, q),
            decreases self.height - y,
        {
            let mut x: i32 = 0;
            while x < self.width
                invariant
                    self.wf(),
                    self.in_bounds(*from),
                    after is Some ==> self.in_bounds(after->0),
                    0 <= y < self.height,
                    0 <= x <= self.width,
                    best is Some ==> self.in_bounds(best->0) && self.cell(best->0) == CellType::Unknown,
                    best is Some && after is Some ==> tried_before(*from, after->0, best->0),
                    best is Some ==> forall|q: Point|
#![trigger self.cell(q)]
                        self.in_bounds(q) && (q.y < y || (q.y == y && q.x < x)) && self.cell(q)
                            == CellType::Unknown && (after is Some ==> tried_before(*from, after->0, q))
                            ==> q == best->0 || tried_before(*from, best->0, q),
                    best is None ==> forall|q: Point|
#![trigger self.cell(q)]
                        self.in_bounds(q) && (q.y < y || (q.y == y && q.x < x)) && self.cell(q)
                            == CellType::Unknown ==> after is Some && !tried_before(
                            *from,
                            after->0,
                            q,
                        ),
                decreases self.width - x,
            {
                let p = Point::new(x, y);
                let i = self.get_cell_index(&p);
                if self.cells[i] == CellType::Unknown {
                    let later = match after {
                        Some(a) => self.tried_before_exec(from, &a, &p),
                        None => true,
                    };
                    if later {
                        let better = match best {
                            None => true,
                            Some(b) => self.tried_before_exec(from, &p, &b),
                        };
                        if better {
                            best = Some(p);
                        }
                    }
                }
                x = x + 1;
            }
            y = y + 1;
        }
        best
    }

    /// Whether `a` is tried before `b` from `from`; `a` and `b` lie in the
    /// grid and `from` in it or next to it.
    fn tried_before_exec(&self, from: &Point, a: &Point, b: &Point) -> (r: bool)
        requires
            self.wf(),
            self.in_bounds(*from),
            self.in_bounds(*a),
            self.in_bounds(*b),
        ensures
            r == tried_before(*from, *a, *b),
    {
        proof {
            self.lemma_manhattan_in_grid(*from, *a);
            self.lemma_manhattan_in_grid(*from, *b);
        }
        let da = from.manhattan_distance(a);
        let db = from.manhattan_distance(b);
        da < db || (da == db && a.y < b.y) || (da == db && a.y == b.y && a.x < b.x)
    }

    /// The unexplored cells tried first from `from`, at most `limit` of them,
    /// nearest first, then by row, then by column.
    pub fn nearest_unknown_cells(&self, from: &Point, limit: usize) -> (r: Vec<Point>)
        requires
            self.wf(),
            self.in_bounds(*from),
        ensures
            is_nearest_unknown(*self, *from, r@, limit as int),
    {
        let mut r: Vec<Point> = Vec::new();
        while r.len() < limit
            invariant
                self.wf(),
                self.in_bounds(*from),
                r@.len() <= limit,
                forall|i: int| 0 <= i < r@.len() ==> self.in_bounds(#[trigger] r@[i]) && self.cell(r@[i]) == CellType::Unknown,
                forall|i: int, j: int| 0 <= i < j < r@.len() ==> tried_before(*from, #[trigger] r@[i], #[trigger] r@[j]),
                forall|q: Point|
                    self.in_bounds(q) && self.cell(q) == CellType::Unknown && !#[trigger] r@.contains(q)
                        ==> (r@.len() > 0 ==> tried_before(*from, r@.last(), q)),
            decreases limit - r@.len(),
        {
            let after = if r.len() == 0 {
                None
            } else {
                Some(r[r.len() - 1])
            };
            match self.next_unknown_after(from, after) {
                None => {
                    proof {
                        reveal(is_nearest_unknown);
                        assert forall|q: Point|
                            self.in_bounds(q) && self.cell(q) == CellType::Unknown && !#[trigger] r@.contains(q)
                                implies r@.len() == limit && (r@.len() > 0 ==> tried_before(*from, r@.last(), q)) by {
                            if r@.len() > 0 {
                                assert(!tried_before(*from, r@.last(), q));
                            }
                        }
                    }
                    return r;
                },
                Some(b) => {
                    let ghost old_r = r@;
                    r.push(b);
                    proof {
                        assert forall|i: int, j: int| 0 <= i < j < r@.len() implies tried_before(
                            *from,
                            #[trigger] r@[i],
                            #[trigger] r@[j],
                        ) by {
                            if j == old_r.len() && i < j - 1 {
                                assert(tried_before(*from, old_r[i], old_r[old_r.len() - 1]));
                            }
                        }
                        assert forall|q: Point|
                            self.in_bounds(q) && self.cell(q) == CellType::Unknown && !#[trigger] r@.contains(q)
                                implies (r@.len() > 0 ==> tried_before(*from, r@.last(), q)) by {
                            assert(r@.last() == b);
                            if old_r.contains(q) {
                                let i = choose|i: int| 0 <= i < old_r.len() && old_r[i] == q;
                                assert(r@[i] == q);
                            }
                            assert(q != b) by {
                                assert(r@[old_r.len() as int] == b);
                            }
                        }
                    }
                },
            }
        }
        proof {
            reveal(is_nearest_unknown);
        }
        r
    }

    /// The kept target, unless it has been revealed or reached.
    pub fn retained_target(&self, from: &Point, kept: Option<Point>) -> (r: Option<Point>)
        requires
            self.wf(),
        ensures
            r == retained(*self, *from, kept),
    {
        match kept {
            Some(t) => {
                if self.in_bounds_exec(&t) && t != *from {
                    let i = self.get_cell_index(&t);
                    if self.cells[i] == CellType::Unknown {
                        Some(t)
                    } else {
                        None
                    }
                } else {
                    None
                }
            },
            None => None,
        }
    }

    /// One exploration decision from `current`: keep heading for the kept
    /// target while it is unexplored and reachable; otherwise take the
    /// first reachable one among the nearest unexplored cells and keep it;
    /// failing that, head for the goal if it has been seen, still keeping an
    /// unexplored target that no route reaches for now. The answer is the
    /// step to take and the target to keep, or `None` when nothing is worth
    /// a move.
    pub fn next_exploration_step(&self, current: &Point, persisted: Option<Point>, goal: Option<Point>) -> (r:
        Option<(Point, Option<Point>)>)
        requires
            self.wf(),
            self.in_bounds(*current),
        ensures
            frontier_outcome(*self, *current, persisted, goal, r),
            r matches Some((step, kept)) ==> adjacent(*current, step) && self.passable(step) && (kept matches Some(
                t,
            ) ==> self.in_bounds(t) && self.cell(t) == CellType::Unknown),
    {
        if let Some(t) = persisted {
            if self.in_bounds_exec(&t) {
                let i = self.get_cell_index(&t);
                if self.cells[i] == CellType::Unknown {
                    if let Some(step) = self.step_toward(current, &t) {
                        proof {
                            lemma_outcome_kept(*self, *current, persisted, goal, step);
                        }
                        return Some((step, Some(t)));
                    }
                }
            }
        }
        let cands = self.nearest_unknown_cells(current, FRONTIER_CANDIDATES);
        proof {
            reveal(is_nearest_unknown);
        }
        let mut k: usize = 0;
        while k < cands.len()
            invariant
                self.wf(),
                self.in_bounds(*current),
                !keeps_target(*self, *current, persisted),
                is_nearest_unknown(*self, *current, cands@, FRONTIER_CANDIDATES as int),
                k <= cands@.len(),
                forall|i: int|
                    0 <= i < cands@.len() ==> self.in_bounds(#[trigger] cands@[i]) && self.cell(cands@[i])
                        == CellType::Unknown,
                forall|j: int| 0 <= j < k ==> !reachable_elsewhere(*self, *current, #[trigger] cands@[j]),
            decreases cands@.len() - k,
        {
            let c = cands[k];
            if let Some(step) = self.step_toward(current, &c) {
                proof {
                    lemma_outcome_candidate(*self, *current, persisted, goal, cands@, k as int, step);
                }
                return Some((step, Some(c)));
            }
            k = k + 1;
        }
        let still = self.retained_target(current, persisted);
        let r = match goal {
            Some(gl) => {
                if self.in_bounds_exec(&gl) {
                    match self.step_toward(current, &gl) {
                        Some(step) => Some((step, still)),
                        None => None,
                    }
                } else {
                    None
                }
            },
            None => None,
        };
        proof {
            lemma_outcome_fallback(*self, *current, persisted, goal, cands@, r);
        }
        r
    }
}

} // verus!
