//! The maze agent: the observed grid, the two-state navigation controller
//! (explore, then return to the origin once the goal has been reached), and
//! the conversion of the chosen cell into a move.
use vstd::prelude::*;
use vstd::string::StrSliceExecFns;
use crate::frontier::{first_step, frontier_outcome, reachable_elsewhere, retained};
use crate::grid::{CellType, Grid, Traversal, class_of_glyph};
use crate::point::{Point, adjacent};

verus! {

/// The controller's mode.
#[derive(Clone, Copy, PartialEq, Eq, Structural, Debug)]
pub enum NavigationState {
    /// Looking for the goal.
    Exploring,
    /// The goal has been reached; heading back to the origin.
    Returning,
}

/// A move of one cell.
#[derive(Clone, Copy, PartialEq, Eq, Structural, Debug)]
pub enum Direction {
    Up,
    Down,
    Left,
    Right,
}

pub open spec fn direction_word(d: Direction) -> Seq<char> {
    match d {
        Direction::Up => seq!['U', 'P'],
        Direction::Down => seq!['D', 'O', 'W', 'N'],
        Direction::Left => seq!['L', 'E', 'F', 'T'],
        Direction::Right => seq!['R', 'I', 'G', 'H', 'T'],
    }
}

/// The move that takes `from` to `to`, when they are 4-adjacent; rows grow
/// downwards.
pub open spec fn direction_between(from: Point, to: Point) -> Option<Direction> {
    if to.x == from.x && to.y == from.y - 1 {
        Some(Direction::Up)
    } else if to.x == from.x && to.y == from.y + 1 {
        Some(Direction::Down)
    } else if to.y == from.y && to.x == from.x - 1 {
        Some(Direction::Left)
    } else if to.y == from.y && to.x == from.x + 1 {
        Some(Direction::Right)
    } else {
        None
    }
}

impl Direction {
    /// The command word for the move.
    pub fn as_str(&self) -> (r: &'static str)
        ensures
            r@ == direction_word(*self),
    {
        match self {
            Direction::Up => {
                proof {
                    reveal_strlit("UP");
                }
                "UP"
            },
            Direction::Down => {
                proof {
                    reveal_strlit("DOWN");
                }
                "DOWN"
            },
            Direction::Left => {
                proof {
                    reveal_strlit("LEFT");
                }
                "LEFT"
            },
            Direction::Right => {
                proof {
                    reveal_strlit("RIGHT");
                }
                "RIGHT"
            },
        }
    }
}

/// The move from `from` to `to`; `None` when they are not 4-adjacent, the
/// same cell included.
pub fn direction_to(from: &Point, to: &Point) -> (r: Option<Direction>)
    ensures
        r == direction_between(*from, *to),
        r is Some <==> adjacent(*from, *to),
{
    let dx: i64 = to.x as i64 - from.x as i64;
    let dy: i64 = to.y as i64 - from.y as i64;
    if dx == 0 && dy == -1 {
        Some(Direction::Up)
    } else if dx == 0 && dy == 1 {
        Some(Direction::Down)
    } else if dy == 0 && dx == -1 {
        Some(Direction::Left)
    } else if dy == 0 && dx == 1 {
        Some(Direction::Right)
    } else {
        None
    }
}

/// The mode after a turn starts at `pos`, from `state`, with the goal at
/// `goal` if it has been seen.
pub open spec fn next_navigation_state(state: NavigationState, goal: Option<Point>, pos: Point) -> NavigationState {
    if state == NavigationState::Returning || goal == Some(pos) {
        NavigationState::Returning
    } else {
        NavigationState::Exploring
    }
}

/// The controller leaves `Returning` never, and enters it only on a turn
/// that starts on the goal it has seen.
pub proof fn lemma_navigation_monotone(state: NavigationState, goal: Option<Point>, pos: Point)
    ensures
        state == NavigationState::Returning ==> next_navigation_state(state, goal, pos)
            == NavigationState::Returning,
        state == NavigationState::Exploring && next_navigation_state(state, goal, pos)
            == NavigationState::Returning ==> goal == Some(pos),
{
}

/// The kept target after new observations: dropped once its cell is revealed.
pub open spec fn kept_after(kept: Option<Point>, g: Grid) -> Option<Point> {
    match kept {
        Some(t) => if g.cell(t) == CellType::Unknown {
            Some(t)
        } else {
            None
        },
        None => None,
    }
}

/// The class a cell takes when glyph `ch` is observed over class `old`: an
/// unexplored glyph never hides a cell already revealed.
pub open spec fn observed(old: CellType, ch: char) -> CellType {
    if class_of_glyph(ch) == CellType::Unknown && old != CellType::Unknown {
        old
    } else {
        class_of_glyph(ch)
    }
}

/// The last index below `n` at which `row` holds `c`.
pub open spec fn last_glyph(row: Seq<char>, c: char, n: int) -> Option<int>
    decreases n,
{
    if n <= 0 {
        None
    } else if row[n - 1] == c {
        Some(n - 1)
    } else {
        last_glyph(row, c, n - 1)
    }
}

/// How many glyphs of a row observed at `y` land in the grid.
pub open spec fn landing_width(g: Grid, y: int, row: Seq<char>) -> int {
    if 0 <= y < g.height {
        if row.len() < g.width {
            row.len() as int
        } else {
            g.width as int
        }
    } else {
        0
    }
}

/// The position of a glyph's last occurrence on row `y`, or `prev` when it
/// does not occur.
pub open spec fn glyph_position(row: Seq<char>, c: char, n: int, y: int, prev: Option<Point>) -> Option<Point> {
    match last_glyph(row, c, n) {
        Some(x) => Some(Point { x: x as i32, y: y as i32 }),
        None => prev,
    }
}

/// The agent: what it has observed of the maze, where it is, and its mode.
#[derive(Debug)]
pub struct Game {
    pub grid: Grid,
    /// Rounds between the alarm's start and the alarm going off.
    pub alarm: i32,
    /// Turns played.
    pub round: i32,
    pub player_pos: Point,
    /// The goal, once seen.
    pub command_pos: Option<Point>,
    /// The origin.
    pub start_pos: Point,
    pub state: NavigationState,
    /// The unexplored cell being headed for.
    pub roam_to: Option<Point>,
}

impl Game {
    pub open spec fn wf(&self) -> bool {
        &&& self.grid.wf()
        &&& self.grid.traversal == Traversal::AnyButWall
        &&& self.command_pos matches Some(c) ==> self.grid.in_bounds(c)
        &&& self.roam_to matches Some(t) ==> self.grid.in_bounds(t) && self.grid.cell(t)
            == CellType::Unknown
    }

    /// A `w` x `h` maze, nothing of it observed yet.
    pub fn new(w: i32, h: i32, alarm: i32) -> (r: Game)
        requires
            0 <= w,
            0 <= h,
            w * h <= i32::MAX,
        ensures
            r.wf(),
            r.grid.width == w,
            r.grid.height == h,
            forall|i: int| 0 <= i < r.grid.cells@.len() ==> r.grid.cells@[i] == CellType::Unknown,
            r.alarm == alarm,
            r.round == 0,
            r.player_pos == (Point { x: 0, y: 0 }),
            r.start_pos == (Point { x: 0, y: 0 }),
            r.command_pos == None::<Point>,
            r.state == NavigationState::Exploring,
            r.roam_to == None::<Point>,
    {
        Game {
            grid: Grid::filled(w, h, CellType::Unknown, Traversal::AnyButWall),
            alarm,
            round: 0,
            player_pos: Point::new(0, 0),
            command_pos: None,
            start_pos: Point::new(0, 0),
            state: NavigationState::Exploring,
            roam_to: None,
        }
    }

    /// Starts a turn at `player_pos`. Standing on the goal switches to
    /// returning, for good.
    pub fn set_player_pos(&mut self, player_pos: Point)
        requires
            old(self).wf(),
            old(self).round < i32::MAX,
        ensures
            final(self).wf(),
            final(self).round == old(self).round + 1,
            final(self).player_pos == player_pos,
            final(self).state == next_navigation_state(old(self).state, old(self).command_pos, player_pos),
            final(self).grid == old(self).grid,
            final(self).command_pos == old(self).command_pos,
            final(self).start_pos == old(self).start_pos,
            final(self).roam_to == old(self).roam_to,
            final(self).alarm == old(self).alarm,
    {
        self.round = self.round + 1;
        self.player_pos = player_pos;
        if let Some(command_pos) = self.command_pos {
            if player_pos == command_pos {
                self.state = NavigationState::Returning;
            }
        }
    }

    /// Applies one observed row of glyphs at row `y`. Glyphs beyond the grid
    /// are ignored; an unexplored glyph leaves a revealed cell as it is; the
    /// last goal and origin glyphs of the row give their positions.
    pub fn decode_row(&mut self, y: i32, row: String)
        requires
            old(self).wf(),
        ensures
            final(self).wf(),
            final(self).grid.same_shape(&old(self).grid),
            final(self).grid.cells@.len() == old(self).grid.cells@.len(),
            forall|p: Point|
                old(self).grid.in_bounds(p) ==> #[trigger] final(self).grid.cell(p) == (if p.y == y && p.x
                    < landing_width(old(self).grid, y as int, row@) {
                    observed(old(self).grid.cell(p), row@[p.x as int])
                } else {
                    old(self).grid.cell(p)
                }),
            final(self).command_pos == glyph_position(
                row@,
                'C',
                landing_width(old(self).grid, y as int, row@),
                y as int,
                old(self).command_pos,
            ),
            final(self).start_pos == glyph_position(
                row@,
                'T',
                landing_width(old(self).grid, y as int, row@),
                y as int,
                Some(old(self).start_pos),
            )->0,
            final(self).player_pos == old(self).player_pos,
            final(self).state == old(self).state,
            final(self).round == old(self).round,
            final(self).alarm == old(self).alarm,
            final(self).roam_to == kept_after(old(self).roam_to, final(self).grid),
    {
        let text = row.as_str();
        let len = text.unicode_len();
        let n: usize = if 0 <= y && y < self.grid.height {
            if len < self.grid.width as usize {
                len
            } else {
                self.grid.width as usize
            }
        } else {
            0
        };
        let ghost g0 = self.grid;
        let ghost cmd0 = self.command_pos;
        let ghost start0 = self.start_pos;
        let mut x: usize = 0;
        while x < n
            invariant
                text@ == row@,
                n == landing_width(g0, y as int, row@),
                n <= row@.len(),
                x <= n,
                g0.wf(),
                g0.traversal == Traversal::AnyButWall,
                self.grid.wf(),
                self.grid.same_shape(&g0),
                self.grid.cells@.len() == g0.cells@.len(),
                forall|p: Point|
                    g0.in_bounds(p) ==> #[trigger] self.grid.cell(p) == (if p.y == y && p.x < x {
                        observed(g0.cell(p), row@[p.x as int])
                    } else {
                        g0.cell(p)
                    }),
                self.command_pos == glyph_position(row@, 'C', x as int, y as int, cmd0),
                self.start_pos == glyph_position(row@, 'T', x as int, y as int, Some(start0))->0,
                cmd0 matches Some(c) ==> g0.in_bounds(c),
                self.command_pos matches Some(c) ==> g0.in_bounds(c),
                n > 0 ==> 0 <= y < g0.height,
                n <= g0.width,
                self.player_pos == old(self).player_pos,
                self.state == old(self).state,
                self.round == old(self).round,
                self.alarm == old(self).alarm,
                old(self).roam_to == self.roam_to || self.roam_to == None::<Point>,
                old(self).roam_to matches Some(t) ==> g0.in_bounds(t) && g0.cell(t) == CellType::Unknown,
                self.roam_to == kept_after(old(self).roam_to, self.grid),
            decreases n - x,
        {
            let c = text.get_char(x);
            let class = CellType::from_char(c);
            let pos = Point::new(x as i32, y);
            let i = self.grid.get_cell_index(&pos);
            let before = self.grid.cells[i];
            proof {
                g0.lemma_index(pos);
                assert(self.grid.cell(pos) == g0.cell(pos));
            }
            let next = if class == CellType::Unknown && before != CellType::Unknown {
                before
            } else {
                class
            };
            let ghost g_prev = self.grid;
            self.grid.set_cell_type(&pos, next);
            if let Some(t) = self.roam_to {
                if t == pos && next != CellType::Unknown {
                    self.roam_to = None;
                }
            }
            if class == CellType::CommandRoom {
                self.command_pos = Some(pos);
            } else if class == CellType::Start {
                self.start_pos = pos;
            }
            proof {
                assert(c == row@[x as int]);
                assert(self.grid.cell(pos) == next);
                assert forall|p: Point| g0.in_bounds(p) implies #[trigger] self.grid.cell(p) == (if p.y == y
                    && p.x < x + 1 {
                    observed(g0.cell(p), row@[p.x as int])
                } else {
                    g0.cell(p)
                }) by {
                    g0.lemma_index(p);
                    if p.y == y && p.x == x {
                        assert(p == pos);
                    } else {
                        if g0.index_of(p) == i {
                            g0.lemma_index_injective(p, pos);
                        }
                        assert(g_prev.cell(p) == (if p.y == y && p.x < x {
                            observed(g0.cell(p), row@[p.x as int])
                        } else {
                            g0.cell(p)
                        }));
                    }
                }
                if let Some(t) = old(self).roam_to {
                    g0.lemma_index(t);
                    if g0.index_of(t) == i {
                        g0.lemma_index_injective(t, pos);
                    }
                    assert(g_prev.cell(t) == self.grid.cell(t) || t == pos);
                }
            }
            x = x + 1;
        }
    }

    /// Decides the cell to move to this turn. Exploring, it asks the
    /// frontier selector and keeps the target it names; with no decision it
    /// keeps its target while that is unexplored and not reached. Returning, it first
    /// turns every unexplored cell into a wall, then heads for the origin:
    /// the first step of a cheapest route, or the origin itself when no
    /// route other than the empty one leads there. `None` when there is
    /// nothing to decide on, or the agent or the origin lies outside the grid.
    pub fn get_next_target_point(&mut self) -> (r: Option<Point>)
        requires
            old(self).wf(),
        ensures
            final(self).wf(),
            final(self).state == old(self).state,
            final(self).player_pos == old(self).player_pos,
            final(self).command_pos == old(self).command_pos,
            final(self).start_pos == old(self).start_pos,
            final(self).round == old(self).round,
            final(self).alarm == old(self).alarm,
            final(self).grid.same_shape(&old(self).grid),
            final(self).grid.cells@.len() == old(self).grid.cells@.len(),
            old(self).state == NavigationState::Returning ==> {
                &&& forall|p: Point|
                    old(self).grid.in_bounds(p) ==> #[trigger] final(self).grid.cell(p) == (if old(
                        self,
                    ).grid.cell(p) == CellType::Unknown {
                        CellType::Wall
                    } else {
                        old(self).grid.cell(p)
                    })
                &&& final(self).roam_to == None::<Point>
                &&& if old(self).grid.in_bounds(old(self).player_pos) && old(self).grid.in_bounds(
                    old(self).start_pos,
                ) {
                    if reachable_elsewhere(final(self).grid, old(self).player_pos, old(self).start_pos) {
                        r matches Some(step) && first_step(
                            final(self).grid,
                            old(self).player_pos,
                            old(self).start_pos,
                            step,
                        )
                    } else {
                        r == Some(old(self).start_pos)
                    }
                } else {
                    r == None::<Point>
                }
            },
            old(self).state == NavigationState::Exploring ==> {
                &&& final(self).grid == old(self).grid
                &&& old(self).grid.in_bounds(old(self).player_pos) && r is None ==> final(self).roam_to
                    == retained(old(self).grid, old(self).player_pos, old(self).roam_to)
                &&& if old(self).grid.in_bounds(old(self).player_pos) {
                    frontier_outcome(
                        old(self).grid,
                        old(self).player_pos,
                        old(self).roam_to,
                        old(self).command_pos,
                        match r {
                            Some(step) => Some((step, final(self).roam_to)),
                            None => None,
                        },
                    )
                } else {
                    r == None::<Point> && final(self).roam_to == old(self).roam_to
                }
            },
            r is Some && old(self).state == NavigationState::Exploring ==> adjacent(
                old(self).player_pos,
                r->0,
            ),
    {
        let player = self.player_pos;
        match self.state {
            NavigationState::Returning => {
                self.grid.set_unknown_as_wall();
                self.roam_to = None;
                proof {
                    assert forall|p: Point| old(self).grid.in_bounds(p) implies #[trigger] self.grid.cell(p)
                        == (if old(self).grid.cell(p) == CellType::Unknown {
                        CellType::Wall
                    } else {
                        old(self).grid.cell(p)
                    }) by {
                        old(self).grid.lemma_index(p);
                    }
                }
                let start = self.start_pos;
                if self.grid.in_bounds_exec(&player) && self.grid.in_bounds_exec(&start) {
                    match self.grid.step_toward(&player, &start) {
                        Some(step) => Some(step),
                        None => Some(start),
                    }
                } else {
                    None
                }
            },
            NavigationState::Exploring => {
                if self.grid.in_bounds_exec(&player) {
                    match self.grid.next_exploration_step(&player, self.roam_to, self.command_pos) {
                        Some((step, kept)) => {
                            self.roam_to = kept;
                            Some(step)
                        },
                        None => {
                            self.roam_to = self.grid.retained_target(&player, self.roam_to);
                            None
                        },
                    }
                } else {
                    None
                }
            },
        }
    }
}

} // verus!
