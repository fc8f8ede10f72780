//! Weighted A* search over a `Grid`, with re-opening of settled cells.
use vstd::prelude::*;
use crate::grid::{Field, Grid, lemma_passable_only_field, neighbor_candidates};
use crate::point::{Point, adjacent, manhattan, lemma_manhattan_step};
use vstd::set_lib::{lemma_int_range, lemma_len_subset, set_int_range};
use vstd::arithmetic::div_mod::{lemma_fundamental_div_mod, lemma_mod_bound};

verus! {

/// `p` is a walk from `from`: every step enters a passable cell 4-adjacent
/// to the one before it.
pub open spec fn is_walk(g: Grid, from: Point, p: Seq<Point>) -> bool {
    forall|i: int|
        0 <= i < p.len() ==> g.passable(#[trigger] p[i]) && adjacent(
            if i == 0 {
                from
            } else {
                p[i - 1]
            },
            p[i],
        )
}

/// `p` is a walk from `from` that ends at `to` (the empty walk when they are equal).
pub open spec fn is_route(g: Grid, from: Point, to: Point, p: Seq<Point>) -> bool {
    &&& is_walk(g, from, p)
    &&& if p.len() == 0 {
        from == to
    } else {
        p.last() == to
    }
}

/// Sum of the costs of the cells a walk enters.
pub open spec fn walk_cost(g: Grid, p: Seq<Point>) -> int
    decreases p.len(),
{
    if p.len() == 0 {
        0
    } else {
        walk_cost(g, p.drop_last()) + g.cost(p.last())
    }
}

/// Some route leads from `from` to `to`.
pub open spec fn reachable(g: Grid, from: Point, to: Point) -> bool {
    exists|p: Seq<Point>| is_route(g, from, to, p)
}

/// `p` is a route from `from` to `to` that costs no more than any other.
pub open spec fn is_shortest_route(g: Grid, from: Point, to: Point, p: Seq<Point>) -> bool {
    &&& is_route(g, from, to, p)
    &&& forall|q: Seq<Point>| is_route(g, from, to, q) ==> walk_cost(g, p) <= walk_cost(g, q)
}

/// Where a cell stands in the search.
#[derive(Clone, Copy, PartialEq, Eq, Structural)]
enum Mark {
    Unseen,
    Open,
    Closed,
}

/// Search bookkeeping over the cells of one grid, indexed like the grid:
/// open or closed state, cost from the start, parent and insertion rank.
struct Search {
    state: Vec<Mark>,
    g: Vec<i64>,
    parent: Vec<Option<Point>>,
    order: Vec<u128>,
    next_order: u128,
    seen: Ghost<Set<int>>,
}

/// The search bookkeeping as plain values.
struct SearchView {
    state: Seq<Mark>,
    g: Seq<i64>,
    parent: Seq<Option<Point>>,
    order: Seq<u128>,
    next_order: int,
}

/// Cells the search may hold.
spec fn cell_count(f: Field) -> int {
    f.width * f.height
}

/// `p` is the open cell with the lowest `g + h`, the earliest inserted
/// among equals.
spec fn is_pick(f: Field, t: Point, v: SearchView, p: Point) -> bool {
    &&& f.in_bounds(p)
    &&& v.state[f.index_of(p)] == Mark::Open
    &&& forall|q: Point|
        #![trigger v.state[f.index_of(q)]]
        f.in_bounds(q) && v.state[f.index_of(q)] == Mark::Open ==> {
            let fp = v.g[f.index_of(p)] + manhattan(p, t);
            let fq = v.g[f.index_of(q)] + manhattan(q, t);
            fp < fq || (fp == fq && v.order[f.index_of(p)] <= v.order[f.index_of(q)])
        }
}

spec fn pick(f: Field, t: Point, v: SearchView) -> Option<Point> {
    if exists|p: Point| is_pick(f, t, v, p) {
        Some(choose|p: Point| is_pick(f, t, v, p))
    } else {
        None
    }
}

spec fn closed_at(f: Field, v: SearchView, p: Point) -> SearchView {
    SearchView { state: v.state.update(f.index_of(p), Mark::Closed), ..v }
}

/// `x` offered the route through `cur`.
spec fn relax_at(f: Field, v: SearchView, cur: Point, x: Point) -> SearchView {
    let xi = f.index_of(x);
    let cand = v.g[f.index_of(cur)] + f.cost(x);
    if v.state[xi] != Mark::Unseen && v.g[xi] <= cand {
        v
    } else {
        SearchView {
            state: v.state.update(xi, Mark::Open),
            g: v.g.update(xi, cand as i64),
            parent: v.parent.update(xi, Some(cur)),
            order: v.order.update(xi, v.next_order as u128),
            next_order: v.next_order + 1,
        }
    }
}

spec fn expand_over(f: Field, v: SearchView, cur: Point, nb: Seq<Point>) -> SearchView
    decreases nb.len(),
{
    if nb.len() == 0 {
        v
    } else {
        relax_at(f, expand_over(f, v, cur, nb.drop_last()), cur, nb.last())
    }
}

/// Follows parent links from `cur`, prefixing each cell left to `path`.
spec fn walk_back(f: Field, v: SearchView, cur: Point, path: Seq<Point>, fuel: nat) -> Seq<Point>
    decreases fuel,
{
    if fuel == 0 {
        path
    } else {
        match v.parent[f.index_of(cur)] {
            None => path,
            Some(q) => walk_back(f, v, q, seq![cur] + path, (fuel - 1) as nat),
        }
    }
}

spec fn run(f: Field, t: Point, v: SearchView, fuel: nat) -> Seq<Point>
    decreases fuel,
{
    if fuel == 0 {
        Seq::empty()
    } else {
        match pick(f, t, v) {
            None => Seq::empty(),
            Some(cur) => if cur == t {
                walk_back(f, v, t, Seq::empty(), (10 * cell_count(f) + 1) as nat)
            } else {
                run(
                    f,
                    t,
                    expand_over(f, closed_at(f, v, cur), cur, f.passable_from(neighbor_candidates(cur))),
                    (fuel - 1) as nat,
                )
            },
        }
    }
}

spec fn initial_view(f: Field, s: Point) -> SearchView {
    let n = cell_count(f);
    SearchView {
        state: Seq::new(n as nat, |i: int| if i == f.index_of(s) { Mark::Open } else { Mark::Unseen }),
        g: Seq::new(n as nat, |i: int| 0i64),
        parent: Seq::new(n as nat, |i: int| None::<Point>),
        order: Seq::new(n as nat, |i: int| 0u128),
        next_order: 1,
    }
}

/// The route the search returns on the grid `f` from `s` to `t`.
pub closed spec fn search_route(f: Field, s: Point, t: Point) -> Seq<Point> {
    let n = cell_count(f);
    run(f, t, initial_view(f, s), (n * (2 * (10 * n) + 2)) as nat)
}

spec fn phi(st: Mark, g: i64, b: int) -> int {
    if st == Mark::Unseen {
        2 * b + 2
    } else if st == Mark::Open {
        2 * g + 1
    } else {
        2 * g
    }
}

spec fn pot(st: Seq<Mark>, g: Seq<i64>, b: int, k: int) -> int
    decreases k,
{
    if k <= 0 {
        0
    } else {
        pot(st, g, b, k - 1) + phi(st[k - 1], g[k - 1], b)
    }
}

proof fn lemma_pot_update(st: Seq<Mark>, g: Seq<i64>, b: int, k: int, j: int, a: Mark, v: i64)
    requires
        0 <= j < k <= st.len(),
        k <= g.len(),
    ensures
        pot(st.update(j, a), g.update(j, v), b, k) == pot(st, g, b, k) - phi(st[j], g[j], b) + phi(
            a,
            v,
            b,
        ),
    decreases k,
{
    if k - 1 > j {
        lemma_pot_update(st, g, b, k - 1, j, a, v);
    } else {
        lemma_pot_same(st, g, st.update(j, a), g.update(j, v), b, j);
    }
}

proof fn lemma_pot_same(st: Seq<Mark>, g: Seq<i64>, st2: Seq<Mark>, g2: Seq<i64>, b: int, k: int)
    requires
        0 <= k <= st.len(),
        k <= st2.len(),
        k <= g.len(),
        k <= g2.len(),
        forall|i: int| 0 <= i < k ==> st[i] == st2[i] && g[i] == g2[i],
    ensures
        pot(st, g, b, k) == pot(st2, g2, b, k),
    decreases k,
{
    if k > 0 {
        lemma_pot_same(st, g, st2, g2, b, k - 1);
    }
}

proof fn lemma_pot_nonneg(st: Seq<Mark>, g: Seq<i64>, b: int, k: int)
    requires
        0 <= k <= st.len(),
        k <= g.len(),
        0 <= b,
        forall|i: int| 0 <= i < k && st[i] != Mark::Unseen ==> 0 <= g[i],
    ensures
        pot(st, g, b, k) >= 0,
    decreases k,
{
    if k > 0 {
        lemma_pot_nonneg(st, g, b, k - 1);
    }
}

proof fn lemma_pot_unseen(st: Seq<Mark>, g: Seq<i64>, b: int, k: int)
    requires
        0 <= k <= st.len(),
        k <= g.len(),
        0 <= b,
        forall|i: int| 0 <= i < k ==> st[i] == Mark::Unseen,
    ensures
        pot(st, g, b, k) == k * (2 * b + 2),
    decreases k,
{
    if k > 0 {
        lemma_pot_unseen(st, g, b, k - 1);
        assert(st[k - 1] == Mark::Unseen);
        assert(pot(st, g, b, k) == pot(st, g, b, k - 1) + 2 * b + 2);
        assert(k * (2 * b + 2) == (k - 1) * (2 * b + 2) + (2 * b + 2)) by (nonlinear_arith);
    } else {
        assert(k * (2 * b + 2) == 0) by (nonlinear_arith)
            requires
                k == 0,
        ;
    }
}

/// Expansion of `c` survives any change that keeps seen cells seen and
/// only lowers their costs, `c`'s own cost kept.
proof fn lemma_expanded_transfer(a: Search, b: Search, gr: &Grid, c: Point)
    requires
        gr.wf(),
        a.expanded(gr, c),
        b.gv(gr, c) == a.gv(gr, c),
        forall|x: Point|
            gr.in_bounds(x) && a.st(gr, x) != Mark::Unseen ==> #[trigger] b.st(gr, x) != Mark::Unseen
                && b.gv(gr, x) <= a.gv(gr, x),
    ensures
        b.expanded(gr, c),
{
    assert forall|x: Point| adjacent(c, x) && gr.passable(x) implies #[trigger] b.relaxed(gr, c, x) by {
        assert(a.relaxed(gr, c, x));
        assert(b.st(gr, x) != Mark::Unseen);
    }
}

impl Search {
    spec fn n(gr: &Grid) -> int {
        gr.cells@.len() as int
    }

    /// Bound on the cost from the start of any cell the search has seen.
    spec fn bound(gr: &Grid) -> int {
        10 * Self::n(gr)
    }

    /// Bound on `next_order` plus the potential.
    spec fn budget(gr: &Grid) -> int {
        Self::n(gr) * (2 * Self::bound(gr) + 2)
    }

    spec fn st(&self, gr: &Grid, p: Point) -> Mark {
        self.state@[gr.index_of(p)]
    }

    spec fn gv(&self, gr: &Grid, p: Point) -> int {
        self.g@[gr.index_of(p)] as int
    }

    spec fn par(&self, gr: &Grid, p: Point) -> Option<Point> {
        self.parent@[gr.index_of(p)]
    }

    spec fn ord(&self, gr: &Grid, p: Point) -> int {
        self.order@[gr.index_of(p)] as int
    }

    spec fn f(&self, gr: &Grid, t: Point, p: Point) -> int {
        self.gv(gr, p) + manhattan(p, t)
    }

    spec fn view(&self) -> SearchView {
        SearchView {
            state: self.state@,
            g: self.g@,
            parent: self.parent@,
            order: self.order@,
            next_order: self.next_order as int,
        }
    }

    /// Seen cells carry distinct insertion ranks, all below `next_order`.
    spec fn ranked(&self, gr: &Grid) -> bool {
        &&& forall|p: Point|
            gr.in_bounds(p) && self.st(gr, p) != Mark::Unseen ==> #[trigger] self.ord(gr, p) < self.next_order
        &&& forall|p: Point, q: Point|
            gr.in_bounds(p) && gr.in_bounds(q) && self.st(gr, p) != Mark::Unseen && self.st(gr, q)
                != Mark::Unseen && #[trigger] self.ord(gr, p) == #[trigger] self.ord(gr, q) ==> p == q
    }

    spec fn potential(&self, gr: &Grid) -> int {
        pot(self.state@, self.g@, Self::bound(gr), Self::n(gr))
    }

    /// Every passable neighbour of `c` has been seen at a cost no higher than
    /// going through `c`.
    spec fn expanded(&self, gr: &Grid, c: Point) -> bool {
        forall|x: Point| adjacent(c, x) && gr.passable(x) ==> #[trigger] self.relaxed(gr, c, x)
    }

    /// `x` has been seen at a cost no higher than going through `c`.
    spec fn relaxed(&self, gr: &Grid, c: Point, x: Point) -> bool {
        self.st(gr, x) != Mark::Unseen && self.gv(gr, x) <= self.gv(gr, c) + gr.cost(x)
    }

    /// The parent link of a seen cell `p`: only the start has none, and a
    /// link joins adjacent cells and costs at least the step it stands for.

    spec fn linked(&self, gr: &Grid, s: Point, p: Point) -> bool {
        match self.par(gr, p) {
            Some(q) => {
                &&& p != s
                &&& gr.in_bounds(q)
                &&& self.st(gr, q) != Mark::Unseen
                &&& adjacent(q, p)
                &&& gr.passable(p)
                &&& self.gv(gr, p) >= self.gv(gr, q) + gr.cost(p)
            },
            None => p == s,
        }
    }

    /// Array sizes, state range and the bound on costs from the start.
    spec fn shaped(&self, gr: &Grid) -> bool {
        let n = Self::n(gr);
        &&& gr.wf()
        &&& self.state@.len() == n
        &&& self.g@.len() == n
        &&& self.parent@.len() == n
        &&& self.order@.len() == n
        &&& forall|i: int|
            0 <= i < n && self.state@[i] != Mark::Unseen ==> 0 <= #[trigger] self.g@[i] <= Self::bound(
                gr,
            )
    }

    /// The facts that path reconstruction relies on.
    spec fn chain_ok(&self, gr: &Grid, s: Point) -> bool {
        &&& self.shaped(gr)
        &&& gr.in_bounds(s)
        &&& self.st(gr, s) != Mark::Unseen
        &&& self.gv(gr, s) == 0
        &&& self.par(gr, s) == None::<Point>
        &&& forall|p: Point|
            gr.in_bounds(p) && self.st(gr, p) != Mark::Unseen ==> #[trigger] self.linked(gr, s, p)
    }

    /// The search invariant; `ex` is the closed cell whose neighbours are
    /// being processed, if any.
    spec fn inv(&self, gr: &Grid, s: Point, t: Point, ex: Option<Point>) -> bool {
        let n = Self::n(gr);
        &&& self.chain_ok(gr, s)
        &&& gr.in_bounds(t)
        &&& forall|i: int| #[trigger]
            self.seen@.contains(i) <==> 0 <= i < n && self.state@[i] != Mark::Unseen
        &&& self.seen@.finite()
        &&& self.seen@.len() >= 1
        &&& forall|i: int|
            0 <= i < n && self.state@[i] != Mark::Unseen ==> #[trigger] self.g@[i] <= 10 * (
            self.seen@.len() - 1)
        &&& forall|c: Point|
            gr.in_bounds(c) && self.st(gr, c) == Mark::Closed && ex != Some(c) ==> #[trigger] self.expanded(
                gr,
                c,
            )
        &&& self.st(gr, t) != Mark::Closed
        &&& self.next_order + self.potential(gr) <= Self::budget(gr)
        &&& self.ranked(gr)
    }

    /// Fresh bookkeeping with only `s` open, at cost zero.
    fn start_at(gr: &Grid, s: &Point, t: &Point) -> (r: Search)
        requires
            gr.wf(),
            gr.in_bounds(*s),
            gr.in_bounds(*t),
        ensures
            r.inv(gr, *s, *t, None),
            r.view() == initial_view(gr.field(), *s),
            r.next_order == 1,
    {
        let n = gr.cells.len();
        let mut state: Vec<Mark> = Vec::new();
        let mut g: Vec<i64> = Vec::new();
        let mut parent: Vec<Option<Point>> = Vec::new();
        let mut order: Vec<u128> = Vec::new();
        let mut i: usize = 0;
        while i < n
            invariant
                i <= n,
                state@.len() == i,
                g@.len() == i,
                parent@.len() == i,
                order@.len() == i,
                forall|j: int| 0 <= j < i ==> state@[j] == Mark::Unseen && g@[j] == 0,
                forall|j: int| 0 <= j < i ==> parent@[j] == None::<Point>,
                forall|j: int| 0 <= j < i ==> order@[j] == 0,
            decreases n - i,
        {
            state.push(Mark::Unseen);
            g.push(0);
            parent.push(None);
            order.push(0);
            i = i + 1;
        }
        let si = gr.get_cell_index(s);
        let ghost st0 = state@;
        state.set(si, Mark::Open);
        let ghost b = Self::bound(gr);
        proof {
            lemma_pot_unseen(st0, g@, b, n as int);
            assert(g@.update(si as int, 0) == g@);
            lemma_pot_update(st0, g@, b, n as int, si as int, Mark::Open, 0);
            assert(b >= 0);
            assert(n * (2 * b + 2) >= 2 * b + 2) by (nonlinear_arith)
                requires
                    n >= 1,
                    b >= 0,
            ;
        }
        let r = Search { state, g, parent, order, next_order: 1, seen: Ghost(Set::empty().insert(si as int)) };
        proof {
            assert forall|p: Point| gr.in_bounds(p) && r.st(gr, p) != Mark::Unseen implies #[trigger] r.linked(
                gr,
                *s,
                p,
            ) by {
                gr.lemma_index(p);
                gr.lemma_index(*s);
                assert(gr.index_of(p) == si);
                gr.lemma_index_injective(p, *s);
            }
            assert forall|c: Point| gr.in_bounds(c) && r.st(gr, c) == Mark::Closed && None::<Point> != Some(c)
                implies #[trigger] r.expanded(gr, c) by {
                gr.lemma_index(c);
            }
            gr.lemma_index(*t);
            assert forall|p: Point| gr.in_bounds(p) && r.st(gr, p) != Mark::Unseen implies #[trigger] r.ord(gr, p)
                < r.next_order by {
                gr.lemma_index(p);
            }
            assert forall|p: Point, q: Point|
                gr.in_bounds(p) && gr.in_bounds(q) && r.st(gr, p) != Mark::Unseen && r.st(gr, q) != Mark::Unseen
                    && #[trigger] r.ord(gr, p) == #[trigger] r.ord(gr, q) implies p == q by {
                gr.lemma_index(p);
                gr.lemma_index(q);
                gr.lemma_index_injective(p, *s);
                gr.lemma_index_injective(q, *s);
            }
            let iv = initial_view(gr.field(), *s);
            assert(r.view().state =~= iv.state);
            assert(r.view().g =~= iv.g);
            assert(r.view().parent =~= iv.parent);
            assert(r.view().order =~= iv.order);
        }
        r
    }

    /// The open cell with the lowest `g + h`, the earliest inserted among equals.
    fn select(&self, gr: &Grid, t: &Point) -> (r: Option<Point>)
        requires
            self.shaped(gr),
            self.ranked(gr),
            gr.in_bounds(*t),
        ensures
            r == pick(gr.field(), *t, self.view()),
            match r {
                Some(p) => {
                    &&& gr.in_bounds(p)
                    &&& self.st(gr, p) == Mark::Open
                    &&& forall|q: Point|
                        gr.in_bounds(q) && self.st(gr, q) == Mark::Open ==> self.f(gr, *t, p) <= #[trigger] self.f(
                            gr,
                            *t,
                            q,
                        ) && (self.f(gr, *t, p) == self.f(gr, *t, q) ==> self.ord(gr, p) <= self.ord(
                            gr,
                            q,
                        ))
                },
                None => forall|q: Point| gr.in_bounds(q) ==> #[trigger] self.st(gr, q) != Mark::Open,
            },
    {
        let mut best: Option<Point> = None;
        let mut bf: i64 = 0;
        let mut bo: u128 = 0;
        let mut y: i32 = 0;
        while y < gr.height
            invariant
                self.shaped(gr),
                gr.in_bounds(*t),
                0 <= y <= gr.height,
                match best {
                    Some(b) => {
                        &&& gr.in_bounds(b)
                        &&& self.st(gr, b) == Mark::Open
                        &&& self.f(gr, *t, b) == bf
                        &&& self.ord(gr, b) == bo
                        &&& forall|q: Point|
                            gr.in_bounds(q) && q.y < y && self.st(gr, q) == Mark::Open ==> bf <= #[trigger] self.f(
                                gr,
                                *t,
                                q,
                            ) && (bf == self.f(gr, *t, q) ==> bo <= self.ord(gr, q))
                    },
                    None => forall|q: Point|
                        gr.in_bounds(q) && q.y < y ==> #[trigger] self.st(gr, q) != Mark::Open,
                },
            decreases gr.height - y,
        {
            let mut x: i32 = 0;
            while x < gr.width
                invariant
                    self.shaped(gr),
                    gr.in_bounds(*t),
                    0 <= y < gr.height,
                    0 <= x <= gr.width,
                    match best {
                        Some(b) => {
                            &&& gr.in_bounds(b)
                            &&& self.st(gr, b) == Mark::Open
                            &&& self.f(gr, *t, b) == bf
                            &&& self.ord(gr, b) == bo
                            &&& forall|q: Point|
                                gr.in_bounds(q) && (q.y < y || (q.y == y && q.x < x)) && self.st(gr, q)
                                    == Mark::Open ==> bf <= #[trigger] self.f(gr, *t, q) && (bf == self.f(
                                    gr,
                                    *t,
                                    q,
                                ) ==> bo <= self.ord(gr, q))
                        },
                        None => forall|q: Point|
                            gr.in_bounds(q) && (q.y < y || (q.y == y && q.x < x)) ==> #[trigger] self.st(
                                gr,
                                q,
                            ) != Mark::Open,
                    },
                decreases gr.width - x,
            {
                let p = Point::new(x, y);
                let i = gr.get_cell_index(&p);
                if self.state[i] == Mark::Open {
                    proof {
                        gr.lemma_manhattan_in_grid(p, *t);
                    }
                    let fp: i64 = self.g[i] + p.manhattan_distance(t) as i64;
                    let better = match best {
                        None => true,
                        Some(_) => fp < bf || (fp == bf && self.order[i] < bo),
                    };
                    if better {
                        best = Some(p);
                        bf = fp;
                        bo = self.order[i];
                    }
                }
                x = x + 1;
            }
            y = y + 1;
        }
        proof {
            let f = gr.field();
            let v = self.view();
            match best {
                Some(p) => {
                    assert forall|q: Point|
                        #![trigger v.state[f.index_of(q)]]
                        f.in_bounds(q) && v.state[f.index_of(q)] == Mark::Open implies {
                        let fp = v.g[f.index_of(p)] + manhattan(p, *t);
                        let fq = v.g[f.index_of(q)] + manhattan(q, *t);
                        fp < fq || (fp == fq && v.order[f.index_of(p)] <= v.order[f.index_of(q)])
                    } by {
                        assert(self.f(gr, *t, q) >= bf);
                    }
                    assert(is_pick(f, *t, v, p));
                    let p2 = choose|p2: Point| is_pick(f, *t, v, p2);
                    assert(is_pick(f, *t, v, p2));
                    assert(self.ord(gr, p) == self.ord(gr, p2)) by {
                        assert(self.st(gr, p2) == Mark::Open);
                        assert(self.st(gr, p) == Mark::Open);
                    }
                },
                None => {
                    assert(!exists|p: Point| is_pick(f, *t, v, p)) by {
                        if exists|p: Point| is_pick(f, *t, v, p) {
                            let p = choose|p: Point| is_pick(f, *t, v, p);
                            assert(self.st(gr, p) != Mark::Open);
                        }
                    }
                },
            }
        }
        best
    }

    /// Moves the open cell `cur` to the closed set.
    fn close(&mut self, gr: &Grid, s: Ghost<Point>, t: Ghost<Point>, cur: Point)
        requires
            old(self).inv(gr, s@, t@, None),
            gr.in_bounds(cur),
            old(self).st(gr, cur) == Mark::Open,
            cur != t@,
        ensures
            final(self).inv(gr, s@, t@, Some(cur)),
            final(self).st(gr, cur) == Mark::Closed,
            final(self).g@ == old(self).g@,
            final(self).potential(gr) == old(self).potential(gr) - 1,
            final(self).view() == closed_at(gr.field(), old(self).view(), cur),
    {
        let i = gr.get_cell_index(&cur);
        let ghost old_self = *self;
        self.state.set(i, Mark::Closed);
        proof {
            assert(self.g@.update(i as int, self.g@[i as int]) == self.g@);
            lemma_pot_update(old_self.state@, self.g@, Self::bound(gr), Self::n(gr), i as int, Mark::Closed, self.g@[i as int]);
            assert forall|p: Point| gr.in_bounds(p) && self.st(gr, p) != Mark::Unseen implies #[trigger] self.linked(
                gr,
                s@,
                p,
            ) by {
                gr.lemma_index(p);
                assert(old_self.linked(gr, s@, p));
                if let Some(q) = self.par(gr, p) {
                    gr.lemma_index(q);
                }
            }
            assert forall|c: Point| gr.in_bounds(c) && self.st(gr, c) == Mark::Closed && Some(cur) != Some(c)
                implies #[trigger] self.expanded(gr, c) by {
                gr.lemma_index(c);
                gr.lemma_index(cur);
                if gr.index_of(c) == gr.index_of(cur) {
                    gr.lemma_index_injective(c, cur);
                }
                assert(old_self.st(gr, c) == Mark::Closed);
                assert forall|x: Point| gr.in_bounds(x) && old_self.st(gr, x) != Mark::Unseen implies #[trigger] self.st(gr, x)
                    != Mark::Unseen && self.gv(gr, x) <= old_self.gv(gr, x) by {
                    gr.lemma_index(x);
                }
                lemma_expanded_transfer(old_self, *self, gr, c);
            }
            gr.lemma_index(t@);
            gr.lemma_index(s@);
            if gr.index_of(t@) == gr.index_of(cur) {
                gr.lemma_index_injective(t@, cur);
            }
            assert forall|j: int| #[trigger] self.seen@.contains(j) <==> 0 <= j < Self::n(gr) && self.state@[j] != Mark::Unseen by {
                assert(old_self.seen@.contains(j) <==> 0 <= j < Self::n(gr) && old_self.state@[j] != Mark::Unseen);
            }
            assert forall|p: Point| gr.in_bounds(p) && self.st(gr, p) != Mark::Unseen implies #[trigger] self.ord(gr, p)
                < self.next_order by {
                gr.lemma_index(p);
                assert(old_self.ord(gr, p) < old_self.next_order);
            }
            assert forall|p: Point, q: Point|
                gr.in_bounds(p) && gr.in_bounds(q) && self.st(gr, p) != Mark::Unseen && self.st(gr, q) != Mark::Unseen
                    && #[trigger] self.ord(gr, p) == #[trigger] self.ord(gr, q) implies p == q by {
                gr.lemma_index(p);
                gr.lemma_index(q);
                assert(old_self.ord(gr, p) == old_self.ord(gr, q));
            }
            assert(self.view().state =~= closed_at(gr.field(), old_self.view(), cur).state);
        }
    }

    /// `next_order` stays far below the top of its type.
    proof fn lemma_budget(&self, gr: &Grid)
        requires
            self.shaped(gr),
            self.next_order + self.potential(gr) <= Self::budget(gr),
        ensures
            0 <= self.potential(gr),
            self.next_order < u128::MAX,
    {
        let n = Self::n(gr);
        lemma_pot_nonneg(self.state@, self.g@, Self::bound(gr), n);
        assert(n * (2 * (10 * n) + 2) < u128::MAX) by (nonlinear_arith)
            requires
                0 <= n <= i32::MAX,
        ;
    }

    /// Offers `x` the route through the closed cell `cur`: it is entered
    /// into the open set when it is new, or when the offer beats the `g + h`
    /// it has, open or closed.
    fn relax(&mut self, gr: &Grid, s: Ghost<Point>, t: &Point, cur: Point, x: Point)
        requires
            old(self).inv(gr, s@, *t, Some(cur)),
            gr.in_bounds(cur),
            old(self).st(gr, cur) == Mark::Closed,
            adjacent(cur, x),
            gr.passable(x),
        ensures
            final(self).inv(gr, s@, *t, Some(cur)),
            final(self).st(gr, cur) == Mark::Closed,
            final(self).gv(gr, cur) == old(self).gv(gr, cur),
            final(self).relaxed(gr, cur, x),
            forall|y: Point|
                gr.in_bounds(y) && old(self).st(gr, y) != Mark::Unseen ==> #[trigger] final(self).st(gr, y)
                    != Mark::Unseen && final(self).gv(gr, y) <= old(self).gv(gr, y),
            final(self).potential(gr) <= old(self).potential(gr),
            final(self).view() == relax_at(gr.field(), old(self).view(), cur, x),
    {
        let xi = gr.get_cell_index(&x);
        let ci = gr.get_cell_index(&cur);
        proof {
            gr.lemma_manhattan_in_grid(x, *t);
            gr.lemma_index(s@);
            if xi == ci {
                gr.lemma_index_injective(x, cur);
            }
            lemma_int_range(0, Self::n(gr));
            lemma_len_subset(self.seen@, set_int_range(0, Self::n(gr)));
            self.lemma_budget(gr);
        }
        let step = gr.get_cell_cost(&x) as i64;
        let cand_g: i64 = self.g[ci] + step;
        let h: i64 = x.manhattan_distance(t) as i64;
        let mark = self.state[xi];
        if mark != Mark::Unseen && self.g[xi] + h <= cand_g + h {
            return;
        }
        let ghost old_self = *self;
        self.state.set(xi, Mark::Open);
        self.g.set(xi, cand_g);
        self.parent.set(xi, Some(cur));
        self.order.set(xi, self.next_order);
        self.next_order = self.next_order + 1;
        proof {
            let n = Self::n(gr);
            let b = Self::bound(gr);
            if mark == Mark::Unseen {
                self.seen@ = old_self.seen@.insert(xi as int);
            }
            assert forall|j: int| #[trigger] self.seen@.contains(j) <==> 0 <= j < n && self.state@[j] != Mark::Unseen by {
                assert(old_self.seen@.contains(j) <==> 0 <= j < n && old_self.state@[j] != Mark::Unseen);
            }
            lemma_int_range(0, n);
            lemma_len_subset(self.seen@, set_int_range(0, n));
            lemma_pot_update(old_self.state@, old_self.g@, b, n, xi as int, Mark::Open, cand_g);
            assert forall|y: Point|
                gr.in_bounds(y) && old_self.st(gr, y) != Mark::Unseen implies #[trigger] self.st(gr, y)
                    != Mark::Unseen && self.gv(gr, y) <= old_self.gv(gr, y) by {
                gr.lemma_index(y);
            }
            assert forall|p: Point| gr.in_bounds(p) && self.st(gr, p) != Mark::Unseen implies #[trigger] self.linked(
                gr,
                s@,
                p,
            ) by {
                gr.lemma_index(p);
                if gr.index_of(p) == xi {
                    gr.lemma_index_injective(p, x);
                } else {
                    assert(old_self.linked(gr, s@, p));
                    if let Some(q) = self.par(gr, p) {
                        gr.lemma_index(q);
                    }
                }
            }
            assert forall|c: Point| gr.in_bounds(c) && self.st(gr, c) == Mark::Closed && Some(cur) != Some(c)
                implies #[trigger] self.expanded(gr, c) by {
                gr.lemma_index(c);
                assert(old_self.st(gr, c) == Mark::Closed);
                lemma_expanded_transfer(old_self, *self, gr, c);
            }
            gr.lemma_index(*t);
            gr.lemma_index(cur);
            assert forall|p: Point| gr.in_bounds(p) && self.st(gr, p) != Mark::Unseen implies #[trigger] self.ord(gr, p)
                < self.next_order by {
                gr.lemma_index(p);
                if gr.index_of(p) != xi {
                    assert(old_self.ord(gr, p) < old_self.next_order);
                }
            }
            assert forall|p: Point, q: Point|
                gr.in_bounds(p) && gr.in_bounds(q) && self.st(gr, p) != Mark::Unseen && self.st(gr, q) != Mark::Unseen
                    && #[trigger] self.ord(gr, p) == #[trigger] self.ord(gr, q) implies p == q by {
                gr.lemma_index(p);
                gr.lemma_index(q);
                if gr.index_of(p) == xi {
                    gr.lemma_index_injective(p, x);
                    if gr.index_of(q) != xi {
                        assert(old_self.ord(gr, q) < old_self.next_order);
                    } else {
                        gr.lemma_index_injective(q, x);
                    }
                } else if gr.index_of(q) == xi {
                    assert(old_self.ord(gr, p) < old_self.next_order);
                } else {
                    assert(old_self.ord(gr, p) == old_self.ord(gr, q));
                }
            }
            let rv = relax_at(gr.field(), old_self.view(), cur, x);
            assert(self.view().state =~= rv.state);
            assert(self.view().g =~= rv.g);
            assert(self.view().parent =~= rv.parent);
            assert(self.view().order =~= rv.order);
        }
    }

    /// Walks the parent links back from `t` to the start.
    fn reconstruct(&self, gr: &Grid, s: Ghost<Point>, t: &Point) -> (path: Vec<Point>)
        requires
            self.chain_ok(gr, s@),
            gr.in_bounds(*t),
            self.st(gr, *t) != Mark::Unseen,
        ensures
            is_route(*gr, s@, *t, path@),
            walk_cost(*gr, path@) <= self.gv(gr, *t),
            !path@.contains(s@),
            path@ == walk_back(gr.field(), self.view(), *t, Seq::empty(), (10 * cell_count(gr.field()) + 1) as nat),
    {
        let mut path: Vec<Point> = Vec::new();
        let mut cur = *t;
        let ghost f0 = (10 * cell_count(gr.field()) + 1) as nat;
        let ghost mut fuel: nat = f0;
        proof {
            gr.lemma_index(*t);
            assert(self.g@[gr.index_of(*t)] <= Self::bound(gr));
        }
        loop
            invariant
                walk_back(gr.field(), self.view(), *t, Seq::empty(), f0) == walk_back(gr.field(), self.view(), cur, path@, fuel),
                self.gv(gr, cur) < fuel,
                f0 == (10 * cell_count(gr.field()) + 1) as nat,
                self.chain_ok(gr, s@),
                gr.in_bounds(cur),
                self.st(gr, cur) != Mark::Unseen,
                is_route(*gr, cur, *t, path@),
                walk_cost(*gr, path@) + self.gv(gr, cur) <= self.gv(gr, *t),
                !path@.contains(s@),
            decreases self.gv(gr, cur),
        {
            let ci = gr.get_cell_index(&cur);
            proof {
                assert(self.linked(gr, s@, cur));
                gr.lemma_index(cur);
            }
            match self.parent[ci] {
                None => {
                    return path;
                },
                Some(q) => {
                    proof {
                        gr.lemma_index(q);
                        lemma_walk_cost_prepend(*gr, cur, path@);
                        lemma_route_prepend(*gr, q, cur, *t, path@);
                        assert(seq![cur] + path@ == path@.insert(0, cur));
                    }
                    path.insert(0, cur);
                    proof {
                        fuel = (fuel - 1) as nat;
                    }
                    cur = q;
                },
            }
        }
    }

    /// Along any walk from the start, either some open cell has `g + h` no
    /// higher than the walk's cost plus `h` of where it ends, or the walk
    /// ends on a closed cell reached at no more than the walk's cost.
    proof fn lemma_open_on_walk(&self, gr: &Grid, s: Point, t: Point, q: Seq<Point>)
        requires
            self.inv(gr, s, t, None),
            is_walk(*gr, s, q),
        ensures
            ({
                let e = if q.len() == 0 { s } else { q.last() };
                (exists|v: Point|
                    gr.in_bounds(v) && self.st(gr, v) == Mark::Open && #[trigger] self.f(gr, t, v)
                        <= walk_cost(*gr, q) + manhattan(e, t)) || (self.st(gr, e) == Mark::Closed
                    && self.gv(gr, e) <= walk_cost(*gr, q))
            }),
        decreases q.len(),
    {
        if q.len() == 0 {
            if self.st(gr, s) == Mark::Open {
                assert(self.f(gr, t, s) <= walk_cost(*gr, q) + manhattan(s, t));
            }
        } else {
            let d = q.drop_last();
            let e = q.last();
            assert forall|i: int| 0 <= i < d.len() implies gr.passable(#[trigger] d[i]) && adjacent(
                if i == 0 { s } else { d[i - 1] },
                d[i],
            ) by {
                assert(q[i] == d[i]);
                if i > 0 {
                    assert(q[i - 1] == d[i - 1]);
                }
            }
            self.lemma_open_on_walk(gr, s, t, d);
            let e0 = if d.len() == 0 { s } else { d.last() };
            assert(gr.passable(q[q.len() - 1]));
            assert(adjacent(e0, e));
            lemma_manhattan_step(e0, e, t);
            assert(gr.in_bounds(e0)) by {
                if d.len() > 0 {
                    assert(gr.passable(q[d.len() - 1]));
                }
            }
            if self.st(gr, e0) == Mark::Closed && self.gv(gr, e0) <= walk_cost(*gr, d) {
                assert(self.expanded(gr, e0));
                assert(self.relaxed(gr, e0, e));
                if self.st(gr, e) == Mark::Open {
                    assert(self.f(gr, t, e) <= walk_cost(*gr, q) + manhattan(e, t));
                }
            } else {
                let v = choose|v: Point|
                    gr.in_bounds(v) && self.st(gr, v) == Mark::Open && #[trigger] self.f(gr, t, v)
                        <= walk_cost(*gr, d) + manhattan(e0, t);
                assert(self.f(gr, t, v) <= walk_cost(*gr, q) + manhattan(e, t));
            }
        }
    }
}

/// A route from `cur` extends to one from a neighbour `q` of `cur`.
proof fn lemma_route_prepend(g: Grid, q: Point, cur: Point, t: Point, p: Seq<Point>)
    requires
        is_route(g, cur, t, p),
        adjacent(q, cur),
        g.passable(cur),
    ensures
        is_route(g, q, t, seq![cur] + p),
        forall|z: Point| #[trigger] (seq![cur] + p).contains(z) ==> z == cur || p.contains(z),
{
    let r = seq![cur] + p;
    assert forall|i: int| 0 <= i < r.len() implies g.passable(#[trigger] r[i]) && adjacent(
        if i == 0 { q } else { r[i - 1] },
        r[i],
    ) by {
        if i > 0 {
            assert(r[i] == p[i - 1]);
            if i > 1 {
                assert(r[i - 1] == p[i - 2]);
            }
        }
    }
    assert forall|z: Point| #[trigger] r.contains(z) implies z == cur || p.contains(z) by {
        let i = choose|i: int| 0 <= i < r.len() && r[i] == z;
        if i > 0 {
            assert(p[i - 1] == z);
        }
    }
    if p.len() > 0 {
        assert(r.last() == p.last());
    }
}

/// Searches on two grids of the same size and passability rule, with the
/// same class in every cell, return the same route.
pub proof fn lemma_search_deterministic(g1: Grid, g2: Grid, s: Point, t: Point)
    requires
        g1.wf(),
        g2.wf(),
        g1.same_shape(&g2),
        forall|p: Point| g1.in_bounds(p) ==> #[trigger] g1.cell(p) == g2.cell(p),
    ensures
        search_route(g1.field(), s, t) == search_route(g2.field(), s, t),
{
    let w = g1.width as int;
    let h = g1.height as int;
    assert forall|i: int| 0 <= i < g1.cells@.len() implies g1.cells@[i] == g2.cells@[i] by {
        lemma_fundamental_div_mod(i, w);
        lemma_mod_bound(i, w);
        let y = i / w;
        let x = i % w;
        assert(0 <= y < h) by (nonlinear_arith)
            requires
                i == w * y + x,
                0 <= x < w,
                0 <= i < w * h,
        ;
        let p = Point { x: x as i32, y: y as i32 };
        assert(g1.index_of(p) == i) by (nonlinear_arith)
            requires
                i == w * y + x,
                g1.index_of(p) == y * w + x,
        ;
        assert(g1.cell(p) == g2.cell(p));
    }
    assert(g1.cells@ =~= g2.cells@);
    assert(g1.field() == g2.field());
}

/// Entering `a` and then following `p` costs `a`'s cost plus `p`'s.
proof fn lemma_walk_cost_prepend(g: Grid, a: Point, p: Seq<Point>)
    ensures
        walk_cost(g, seq![a] + p) == g.cost(a) + walk_cost(g, p),
    decreases p.len(),
{
    if p.len() == 0 {
        assert(seq![a] + p == seq![a]);
        assert(seq![a].drop_last() == Seq::<Point>::empty());
        assert(seq![a].last() == a);
        assert(walk_cost(g, seq![a]) == walk_cost(g, Seq::<Point>::empty()) + g.cost(a));
    } else {
        lemma_walk_cost_prepend(g, a, p.drop_last());
        assert((seq![a] + p).drop_last() == seq![a] + p.drop_last());
        assert((seq![a] + p).last() == p.last());
        assert(walk_cost(g, seq![a] + p) == walk_cost(g, seq![a] + p.drop_last()) + g.cost(p.last()));
        assert(walk_cost(g, p) == walk_cost(g, p.drop_last()) + g.cost(p.last()));
    }
}

impl Grid {
    /// Weighted A* from `start` to `target`. The result is a cheapest route:
    /// the cells to enter one by one, `start` left out and `target` last; it
    /// is empty when `target` cannot be reached, and when it is `start`.
    ///
    /// The open cell with the lowest `g + h` is expanded first, the earliest
    /// inserted among equals; a closed cell offered a cheaper route is opened
    /// again. The route is `search_route` of the grid's values, so equal
    /// grids give equal routes.
    pub fn astar(&self, start: &Point, target: &Point) -> (path: Vec<Point>)
        requires
            self.wf(),
            self.in_bounds(*start),
            self.in_bounds(*target),
        ensures
            reachable(*self, *start, *target) ==> is_shortest_route(*self, *start, *target, path@),
            !reachable(*self, *start, *target) ==> path@.len() == 0,
            !path@.contains(*start),
            path@ == search_route(self.field(), *start, *target),
    {
        let ghost s = *start;
        let ghost t = *target;
        let ghost f = self.field();
        let mut search = Search::start_at(self, start, target);
        let ghost mut fuel: nat = (cell_count(f) * (2 * (10 * cell_count(f)) + 2)) as nat;
        proof {
            search.lemma_budget(self);
        }
        loop
            invariant
                f == self.field(),
                search_route(f, s, t) == run(f, t, search.view(), fuel),
                search.potential(self) < fuel,
                self.wf(),
                self.in_bounds(s),
                self.in_bounds(t),
                s == *start,
                t == *target,
                search.inv(self, s, t, None),
            decreases search.potential(self),
        {
            proof {
                search.lemma_budget(self);
            }
            match search.select(self, target) {
                None => {
                    proof {
                        assert forall|q: Seq<Point>| !#[trigger] is_route(*self, s, t, q) by {
                            if is_route(*self, s, t, q) {
                                search.lemma_open_on_walk(self, s, t, q);
                            }
                        }
                    }
                    return Vec::new();
                },
                Some(cur) => {
                    if cur == *target {
                        proof {
                            assert forall|q: Seq<Point>| #[trigger] is_route(*self, s, t, q) implies search.gv(
                                self,
                                t,
                            ) <= walk_cost(*self, q) by {
                                search.lemma_open_on_walk(self, s, t, q);
                                let v = choose|v: Point|
                                    self.in_bounds(v) && search.st(self, v) == Mark::Open
                                        && #[trigger] search.f(self, t, v) <= walk_cost(*self, q)
                                        + manhattan(t, t);
                                assert(search.f(self, t, t) <= search.f(self, t, v));
                            }
                        }
                        let path = search.reconstruct(self, Ghost(s), target);
                        proof {
                            assert(is_route(*self, s, t, path@));
                        }
                        return path;
                    }
                    let ghost before = search.potential(self);
                    let ghost v0 = search.view();
                    search.close(self, Ghost(s), Ghost(t), cur);
                    let ghost v1 = search.view();
                    let ghost gc = search.gv(self, cur);
                    let nbrs = self.get_neighbors_points(&cur);
                    let mut k: usize = 0;
                    while k < nbrs.len()
                        invariant
                            self.wf(),
                            self.in_bounds(cur),
                            s == *start,
                            t == *target,
                            search.inv(self, s, t, Some(cur)),
                            search.st(self, cur) == Mark::Closed,
                            search.gv(self, cur) == gc,
                            k <= nbrs@.len(),
                            forall|i: int|
                                0 <= i < nbrs@.len() ==> adjacent(cur, #[trigger] nbrs@[i]) && self.passable(
                                    nbrs@[i],
                                ),
                            forall|j: int| 0 <= j < k ==> #[trigger] search.relaxed(self, cur, nbrs@[j]),
                            search.potential(self) < before,
                            search.view() == expand_over(f, v1, cur, nbrs@.take(k as int)),
                            f == self.field(),
                        decreases nbrs@.len() - k,
                    {
                        let x = nbrs[k];
                        let ghost prev = search;
                        search.relax(self, Ghost(s), target, cur, x);
                        proof {
                            assert(nbrs@.take(k + 1).drop_last() == nbrs@.take(k as int));
                            assert(nbrs@.take(k + 1).last() == x);
                            assert forall|j: int| 0 <= j < k + 1 implies #[trigger] search.relaxed(
                                self,
                                cur,
                                nbrs@[j],
                            ) by {
                                if j < k {
                                    assert(prev.relaxed(self, cur, nbrs@[j]));
                                    assert(self.passable(nbrs@[j]));
                                    assert(search.st(self, nbrs@[j]) != Mark::Unseen);
                                }
                            }
                        }
                        k = k + 1;
                    }
                    proof {
                        assert forall|x: Point| adjacent(cur, x) && self.passable(x) implies #[trigger] search.relaxed(
                            self,
                            cur,
                            x,
                        ) by {
                            let j = choose|j: int| 0 <= j < nbrs@.len() && nbrs@[j] == x;
                            assert(search.relaxed(self, cur, nbrs@[j]));
                        }
                        assert(search.expanded(self, cur));
                        search.lemma_budget(self);
                        assert(nbrs@.take(nbrs@.len() as int) == nbrs@);
                        lemma_passable_only_field(*self, neighbor_candidates(cur));
                        assert(run(f, t, v0, fuel) == run(f, t, search.view(), (fuel - 1) as nat));
                        fuel = (fuel - 1) as nat;
                    }
                },
            }
        }
    }
}

} // verus!
