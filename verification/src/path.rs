//! Cheapest-path search over the grid: best-first expansion ordered by cost
//! so far plus a consistent estimate of the cost to go, with ties broken by
//! order of discovery.

use crate::errors::{DndError, ErrorView};
use crate::grid::{GridMap, GridView, MAX_GRID_SIDE};
use crate::moves::{
    diagonal, lemma_heuristic_consistent, lemma_walk_parity_range, lemma_walk_prefix, lemma_walk_push,
    DiagonalRule, Mover, Scene,
};
use crate::types::{gap, GridPosition};
use vstd::prelude::*;

verus! {

/// What a caller asks of the search.
#[derive(Debug, Clone, Copy)]
pub struct PathRequest {
    pub start: GridPosition,
    pub goal: GridPosition,
    pub mover: Mover,
    /// The movement units the mover may spend.
    pub budget: u32,
    pub rule: DiagonalRule,
}

/// Which of the three outcomes a search had.
#[derive(Debug, Clone, Copy, PartialEq, Eq, Hash, Structural)]
pub enum PathStatus {
    /// The goal is reached within budget; the path is a cheapest one.
    Reached,
    /// The goal can be reached, but not within budget; the path is the
    /// part of a cheapest one that the budget pays for.
    BudgetExceeded,
    /// No walk leads from start to goal; the path is empty.
    Unreachable,
}

/// What the search found.
#[derive(Debug)]
pub struct PathResult {
    pub path: Vec<GridPosition>,
    /// The cost of `path`.
    pub cost: u32,
    pub status: PathStatus,
}

impl PathRequest {
    /// The grid as this request's mover sees it.
    pub open spec fn scene(self, grid: GridView) -> Scene {
        Scene { grid: grid, mover: self.mover, rule: self.rule }
    }
}

/// `part` is what `budget` pays for of `full`: its longest leading part
/// that costs no more than `budget`.
pub open spec fn budget_cut(s: Scene, full: Seq<GridPosition>, budget: nat, part: Seq<GridPosition>) -> bool {
    &&& 1 <= part.len() < full.len()
    &&& part == full.subrange(0, part.len() as int)
    &&& s.cost(part) <= budget
    &&& s.cost(full.subrange(0, part.len() as int + 1)) > budget
}

/// Whether `path`, `cost` and `status` answer `req` on `grid`.
pub open spec fn answers(
    grid: GridView,
    req: PathRequest,
    path: Seq<GridPosition>,
    cost: nat,
    status: PathStatus,
) -> bool {
    let s = req.scene(grid);
    match status {
        PathStatus::Reached => {
            &&& s.cheapest(path, req.start, req.goal)
            &&& cost == s.cost(path)
            &&& cost <= req.budget
        },
        PathStatus::BudgetExceeded => {
            &&& s.valid_walk(path)
            &&& cost == s.cost(path)
            &&& exists|full: Seq<GridPosition>|
                #[trigger] s.cheapest(full, req.start, req.goal) && s.cost(full) > req.budget && budget_cut(
                    s,
                    full,
                    req.budget as nat,
                    path,
                )
        },
        PathStatus::Unreachable => {
            &&& path.len() == 0
            &&& cost == 0
            &&& forall|w: Seq<GridPosition>| !#[trigger] s.connects(w, req.start, req.goal)
        },
    }
}

/// What a search comes to, as a mathematical value.
pub enum Verdict {
    Refused(ErrorView),
    Answered { path: Seq<GridPosition>, cost: nat, status: PathStatus },
}

/// The verdict that a returned value stands for.
pub open spec fn verdict_of(r: Result<PathResult, DndError>) -> Verdict {
    match r {
        Ok(res) => Verdict::Answered { path: res.path@, cost: res.cost as nat, status: res.status },
        Err(e) => Verdict::Refused(e@),
    }
}

/// The verdict of the search on `grid` for `req` with at most
/// `max_expansions` expansions. It is the search itself, written as a
/// function: states leave the frontier in order of estimated total and,
/// among equals, in order of discovery; neighbours are tried north, east,
/// south, west, then the diagonals clockwise from north-east. Being a
/// function of the grid's content and the request, it makes equal queries
/// have equal answers, path included.
pub closed spec fn search_verdict(grid: GridView, req: PathRequest, max_expansions: u32) -> Verdict {
    let s = req.scene(grid);
    if !grid.in_bounds(req.start) {
        Verdict::Refused(ErrorView::InvalidPosition { x: req.start.x as int, y: req.start.y as int })
    } else if !grid.in_bounds(req.goal) {
        Verdict::Refused(ErrorView::InvalidPosition { x: req.goal.x as int, y: req.goal.y as int })
    } else if !s.free(req.start) {
        Verdict::Answered { path: Seq::empty(), cost: 0, status: PathStatus::Unreachable }
    } else {
        match run(first_books(s, req.start, req.goal), s, req.goal, max_expansions, first_fuel(s)) {
            Halt::Exhausted => Verdict::Answered { path: Seq::empty(), cost: 0, status: PathStatus::Unreachable },
            Halt::TimedOut => Verdict::Refused(ErrorView::Timeout),
            Halt::Spent => Verdict::Refused(ErrorView::Timeout),
            Halt::Goal { walk, cost } => if cost <= req.budget {
                Verdict::Answered { path: walk, cost: cost as nat, status: PathStatus::Reached }
            } else {
                let part = walk.subrange(0, paid_len(s, walk, req.budget as nat, 1));
                Verdict::Answered { path: part, cost: s.cost(part), status: PathStatus::BudgetExceeded }
            },
        }
    }
}

/// The mark of a search state that no walk has reached yet.
const UNSEEN: u32 = 0xffff_ffff;

/// A search state: a cell together with the diagonal count modulo two on
/// which the mover arrives there.
#[derive(Clone, Copy, PartialEq, Eq, Structural)]
struct Node {
    pos: GridPosition,
    parity: u8,
}

/// A frontier entry: a state and the estimated total cost through it at the
/// time it was discovered.
#[derive(Clone, Copy)]
struct Entry {
    f: u32,
    node: Node,
}

/// What the search reads of the grid, computed once: for every cell, whether
/// the mover can stand there and whether that is Difficult ground.
struct Field {
    width: u32,
    height: u32,
    pass: Vec<bool>,
    rough: Vec<bool>,
    rule: DiagonalRule,
    start: GridPosition,
    goal: GridPosition,
}

/// The search's books: best known cost, predecessor and closed mark for
/// every state, and the frontier in order of discovery.
struct Search {
    g: Vec<u32>,
    parent: Vec<Node>,
    closed: Vec<bool>,
    frontier: Vec<Entry>,
    expansions: u32,
    floor: u32,
    walks: Ghost<Seq<Seq<GridPosition>>>,
}

/// The mathematical content of the search's books.
struct Books {
    g: Seq<u32>,
    parent: Seq<Node>,
    closed: Seq<bool>,
    frontier: Seq<Entry>,
    expansions: int,
    floor: int,
    walks: Seq<Seq<GridPosition>>,
}

/// How a run of the search ends.
enum Halt {
    /// A goal state left the frontier; `walk` is on the books for it.
    Goal { walk: Seq<GridPosition>, cost: int },
    /// The frontier ran empty.
    Exhausted,
    /// The next expansion would exceed the allowed number.
    TimedOut,
    /// The run was cut short by its fuel, which a real run never is.
    Spent,
}

/// The books before the first expansion.
spec fn first_books(s: Scene, start: GridPosition, goal: GridPosition) -> Books {
    let n = state_count(s);
    let origin = Node { pos: start, parity: 0 };
    Books {
        g: Seq::new(n as nat, |i: int| UNSEEN).update(state_of(s, start, 0), 0),
        parent: Seq::new(n as nat, |i: int| origin),
        closed: Seq::new(n as nat, |i: int| false),
        frontier: seq![Entry { f: s.heuristic(0, start, goal) as u32, node: origin }],
        expansions: 0,
        floor: 0,
        walks: Seq::new(n as nat, |i: int| seq![start]),
    }
}

/// More loop rounds than any run of the search takes.
spec fn first_fuel(s: Scene) -> nat {
    (8 * state_count(s) + 2) as nat
}

/// The place of the frontier entry that leaves next: the first of those
/// with the least estimated total.
spec fn pop_at(frontier: Seq<Entry>) -> int {
    choose|i: int| is_pop_at(frontier, i)
}

spec fn is_pop_at(frontier: Seq<Entry>, i: int) -> bool {
    &&& 0 <= i < frontier.len()
    &&& forall|k: int| 0 <= k < frontier.len() ==> frontier[i].f <= (#[trigger] frontier[k]).f
    &&& forall|k: int| 0 <= k < i ==> frontier[i].f < (#[trigger] frontier[k]).f
}

proof fn lemma_pop_at(frontier: Seq<Entry>, i: int)
    requires
        is_pop_at(frontier, i),
    ensures
        pop_at(frontier) == i,
{
    let j = pop_at(frontier);
    assert(is_pop_at(frontier, j));
    if j < i {
        assert(frontier[i].f < frontier[j].f);
        assert(frontier[j].f <= frontier[i].f);
    } else if i < j {
        assert(frontier[j].f < frontier[i].f);
        assert(frontier[i].f <= frontier[j].f);
    }
}

/// The books after the step from the state `u` by the offset (`dx`,
/// `dy`) has been considered.
spec fn relax_spec(b: Books, s: Scene, goal: GridPosition, u: Node, dx: int, dy: int) -> Books {
    let q = GridPosition { x: (u.pos.x + dx) as i32, y: (u.pos.y + dy) as i32 };
    let iu = state_of(s, u.pos, u.parity as int);
    let iv = next_state(s, iu, q);
    let cand = b.g[iu] + s.step_cost(iu % 2, state_pos(s, iu), q);
    if edge(s, iu, q) && cand < b.g[iv] {
        Books {
            g: b.g.update(iv, cand as u32),
            parent: b.parent.update(iv, node_at(s, iu)),
            walks: b.walks.update(iv, b.walks[iu].push(q)),
            frontier: b.frontier.push(Entry { f: (cand + estimate(s, goal, iv)) as u32, node: node_at(s, iv) }),
            ..b
        }
    } else {
        b
    }
}

/// The books after the first `k` neighbours of `u` have been considered.
spec fn relax_upto(b: Books, s: Scene, goal: GridPosition, u: Node, k: nat) -> Books
    decreases k,
{
    if k == 0 {
        b
    } else {
        relax_spec(
            relax_upto(b, s, goal, u, (k - 1) as nat),
            s,
            goal,
            u,
            offset_x(k - 1),
            offset_y(k - 1),
        )
    }
}

/// The books after the state `u` has been closed and expanded.
spec fn expand_spec(b: Books, s: Scene, goal: GridPosition, u: Node) -> Books {
    let iu = state_of(s, u.pos, u.parity as int);
    let closed = Books {
        closed: b.closed.update(iu, true),
        expansions: b.expansions + 1,
        floor: b.g[iu] + s.heuristic(u.parity as int, u.pos, goal),
        ..b
    };
    relax_upto(closed, s, goal, u, 8)
}

/// The search from the books `b` on, for at most `fuel` rounds.
spec fn run(b: Books, s: Scene, goal: GridPosition, max_expansions: u32, fuel: nat) -> Halt
    decreases fuel,
{
    if fuel == 0 {
        Halt::Spent
    } else if b.frontier.len() == 0 {
        Halt::Exhausted
    } else {
        let at = pop_at(b.frontier);
        let e = b.frontier[at];
        let rest = Books { frontier: b.frontier.remove(at), ..b };
        let iu = state_of(s, e.node.pos, e.node.parity as int);
        if !b.closed[iu] && e.f == b.g[iu] + s.heuristic(e.node.parity as int, e.node.pos, goal) {
            if e.node.pos == goal {
                Halt::Goal { walk: b.walks[iu], cost: b.g[iu] as int }
            } else if b.expansions >= max_expansions {
                Halt::TimedOut
            } else {
                run(expand_spec(rest, s, goal, e.node), s, goal, max_expansions, (fuel - 1) as nat)
            }
        } else {
            run(rest, s, goal, max_expansions, (fuel - 1) as nat)
        }
    }
}

/// How many cells of `full` the budget pays for, counting on from `k`.
spec fn paid_len(s: Scene, full: Seq<GridPosition>, budget: nat, k: int) -> int
    decreases full.len() - k,
{
    if 1 <= k < full.len() && s.cost(full.subrange(0, k + 1)) <= budget {
        paid_len(s, full, budget, k + 1)
    } else {
        k
    }
}

spec fn state_count(s: Scene) -> int {
    2 * (s.grid.cells.len() as int)
}

spec fn state_pos(s: Scene, i: int) -> GridPosition {
    s.grid.cells[i / 2].position
}

spec fn state_of(s: Scene, p: GridPosition, parity: int) -> int {
    2 * s.grid.index(p) + parity
}

spec fn next_state(s: Scene, u: int, q: GridPosition) -> int {
    state_of(s, q, s.step_parity(u % 2, state_pos(s, u), q))
}

spec fn edge(s: Scene, u: int, q: GridPosition) -> bool {
    s.adjacent(state_pos(s, u), q) && s.free(q)
}

spec fn estimate(s: Scene, goal: GridPosition, i: int) -> nat {
    s.heuristic(i % 2, state_pos(s, i), goal)
}

/// The offsets of the eight neighbours: north, east, south, west, then
/// the four diagonals clockwise from north-east.
spec fn offset_x(j: int) -> int {
    if j == 1 || j == 4 || j == 5 {
        1
    } else if j == 3 || j == 6 || j == 7 {
        -1
    } else {
        0
    }
}

spec fn offset_y(j: int) -> int {
    if j == 2 || j == 5 || j == 6 {
        1
    } else if j == 0 || j == 4 || j == 7 {
        -1
    } else {
        0
    }
}

spec fn neighbor(p: GridPosition, j: int) -> GridPosition {
    GridPosition { x: (p.x + offset_x(j)) as i32, y: (p.y + offset_y(j)) as i32 }
}

fn offset(j: usize) -> (d: (i32, i32))
    requires
        j < 8,
    ensures
        d.0 == offset_x(j as int),
        d.1 == offset_y(j as int),
{
    let dx: i32 = if j == 1 || j == 4 || j == 5 {
        1
    } else if j == 3 || j == 6 || j == 7 {
        -1
    } else {
        0
    };
    let dy: i32 = if j == 2 || j == 5 || j == 6 {
        1
    } else if j == 0 || j == 4 || j == 7 {
        -1
    } else {
        0
    };
    (dx, dy)
}

/// Every cell one step away is one of the eight neighbours.
proof fn lemma_neighbors_cover(s: Scene, a: GridPosition, q: GridPosition)
    requires
        s.adjacent(a, q),
        -0x4000_0000 < a.x < 0x4000_0000,
        -0x4000_0000 < a.y < 0x4000_0000,
    ensures
        exists|j: int| 0 <= j < 8 && #[trigger] neighbor(a, j) == q,
{
    let dx = q.x - a.x;
    let dy = q.y - a.y;
    let j: int = if dx == 0 && dy == -1 {
        0
    } else if dx == 1 && dy == 0 {
        1
    } else if dx == 0 && dy == 1 {
        2
    } else if dx == -1 && dy == 0 {
        3
    } else if dx == 1 && dy == -1 {
        4
    } else if dx == 1 && dy == 1 {
        5
    } else if dx == -1 && dy == 1 {
        6
    } else {
        7
    };
    assert(neighbor(a, j) == q);
}

spec fn node_at(s: Scene, i: int) -> Node {
    Node { pos: state_pos(s, i), parity: (i % 2) as u8 }
}

spec fn count_true(b: Seq<bool>) -> nat
    decreases b.len(),
{
    if b.len() == 0 {
        0
    } else {
        count_true(b.drop_last()) + if b.last() {
            1nat
        } else {
            0nat
        }
    }
}

proof fn lemma_count_bound(b: Seq<bool>)
    ensures
        count_true(b) <= b.len(),
    decreases b.len(),
{
    if b.len() > 0 {
        lemma_count_bound(b.drop_last());
    }
}

proof fn lemma_count_set(b: Seq<bool>, i: int)
    requires
        0 <= i < b.len(),
        !b[i],
    ensures
        count_true(b.update(i, true)) == count_true(b) + 1,
    decreases b.len(),
{
    let c = b.update(i, true);
    if i == b.len() - 1 {
        assert(c.drop_last() =~= b.drop_last());
    } else {
        assert(c.drop_last() =~= b.drop_last().update(i, true));
        lemma_count_set(b.drop_last(), i);
    }
}

/// Every state index names a cell on the grid and a parity, and is the
/// index of that pair.
proof fn lemma_state_at(s: Scene, i: int)
    requires
        s.grid.layout(),
        0 <= i < state_count(s),
    ensures
        s.grid.in_bounds(state_pos(s, i)),
        state_of(s, state_pos(s, i), i % 2) == i,
        0 <= i % 2 <= 1,
{
    let c = i / 2;
    assert(0 <= c < s.grid.cells.len());
    assert(s.grid.in_bounds(s.grid.cells[c].position) && s.grid.index(s.grid.cells[c].position) == c);
}

/// Every cell on the grid with a parity has a state index, which names that pair.
proof fn lemma_state_of(s: Scene, p: GridPosition, parity: int)
    requires
        s.grid.layout(),
        s.grid.in_bounds(p),
        0 <= parity <= 1,
    ensures
        0 <= state_of(s, p, parity) < state_count(s),
        state_pos(s, state_of(s, p, parity)) == p,
        state_of(s, p, parity) % 2 == parity,
        state_of(s, p, parity) / 2 == s.grid.index(p),
{
    assert(0 <= s.grid.index(p) < s.grid.cells.len() && s.grid.cells[s.grid.index(p)].position == p);
}

impl Field {
    spec fn models(&self, s: Scene) -> bool {
        &&& s.grid.layout()
        &&& self.width == s.grid.width
        &&& self.height == s.grid.height
        &&& self.rule == s.rule
        &&& self.pass@.len() == s.grid.cells.len()
        &&& self.rough@.len() == s.grid.cells.len()
        &&& forall|i: int| 0 <= i < s.grid.cells.len() ==> #[trigger] self.pass@[i] == s.free(s.grid.cells[i].position)
        &&& forall|i: int|
            0 <= i < s.grid.cells.len() ==> #[trigger] self.rough@[i] == s.rough(s.grid.cells[i].position)
        &&& s.grid.in_bounds(self.start)
        &&& s.grid.in_bounds(self.goal)
    }

    /// Reads off the grid what the search needs.
    fn survey(grid: &GridMap, req: &PathRequest) -> (f: Field)
        requires
            grid.wf(),
            grid@.in_bounds(req.start),
            grid@.in_bounds(req.goal),
        ensures
            f.models(req.scene(grid@)),
            f.start == req.start,
            f.goal == req.goal,
    {
        let ghost s = req.scene(grid@);
        let width: u32 = grid.width();
        let height: u32 = grid.height();
        let mut pass: Vec<bool> = Vec::new();
        let mut rough: Vec<bool> = Vec::new();
        let mut y: u32 = 0;
        while y < height
            invariant
                grid.wf(),
                s == req.scene(grid@),
                width == grid@.width,
                height == grid@.height,
                y <= height,
                pass@.len() == y * width,
                rough@.len() == y * width,
                forall|i: int| 0 <= i < pass@.len() ==> #[trigger] pass@[i] == s.free(s.grid.cells[i].position),
                forall|i: int| 0 <= i < rough@.len() ==> #[trigger] rough@[i] == s.rough(s.grid.cells[i].position),
            decreases height - y,
        {
            let mut x: u32 = 0;
            while x < width
                invariant
                    grid.wf(),
                    s == req.scene(grid@),
                    width == grid@.width,
                    height == grid@.height,
                    y < height,
                    x <= width,
                    pass@.len() == y * width + x,
                    rough@.len() == y * width + x,
                    forall|i: int| 0 <= i < pass@.len() ==> #[trigger] pass@[i] == s.free(s.grid.cells[i].position),
                    forall|i: int|
                        0 <= i < rough@.len() ==> #[trigger] rough@[i] == s.rough(s.grid.cells[i].position),
                decreases width - x,
            {
                let p = GridPosition { x: x as i32, y: y as i32 };
                proof {
                    assert(grid@.in_bounds(p));
                    assert(grid@.index(p) == pass@.len());
                    assert(grid@.cells[grid@.index(p)].position == p);
                }
                pass.push(grid.can_stand(p, req.mover.size, req.mover.id));
                rough.push(grid.footprint_rough(p, req.mover.size));
                x = x + 1;
            }
            assert((y + 1) * width == y * width + width) by (nonlinear_arith);
            y = y + 1;
        }
        assert(height * width == width * height) by (nonlinear_arith);
        Field { width, height, pass, rough, rule: req.rule, start: req.start, goal: req.goal }
    }

    /// The row-major index of a cell on the grid.
    fn cell_index(&self, p: GridPosition, Ghost(s): Ghost<Scene>) -> (i: usize)
        requires
            self.models(s),
            s.grid.in_bounds(p),
        ensures
            i == s.grid.index(p),
            i < s.grid.cells.len(),
            s.grid.cells[i as int].position == p,
            self.pass@[i as int] == s.free(p),
            self.rough@[i as int] == s.rough(p),
            s.grid.cells.len() <= MAX_GRID_SIDE * MAX_GRID_SIDE,
    {
        proof {
            assert(0 <= s.grid.index(p) < s.grid.cells.len() && s.grid.cells[s.grid.index(p)].position == p);
            assert(s.grid.width * s.grid.height <= MAX_GRID_SIDE * MAX_GRID_SIDE) by (nonlinear_arith)
                requires
                    0 <= s.grid.width <= MAX_GRID_SIDE,
                    0 <= s.grid.height <= MAX_GRID_SIDE,
            ;
            assert(p.y * self.width <= MAX_GRID_SIDE * MAX_GRID_SIDE) by (nonlinear_arith)
                requires
                    0 <= p.y < self.height <= MAX_GRID_SIDE,
                    0 <= self.width <= MAX_GRID_SIDE,
            ;
        }
        (p.y as usize) * (self.width as usize) + (p.x as usize)
    }

    /// The cost of the step from `a` onto `b` after `parity` diagonals, and
    /// the parity after it.
    fn step(&self, a: GridPosition, b: GridPosition, parity: u8, Ghost(s): Ghost<Scene>) -> (r: (u32, u8))
        requires
            self.models(s),
            s.grid.in_bounds(b),
            parity <= 1,
        ensures
            r.0 == s.step_cost(parity as int, a, b),
            r.1 == s.step_parity(parity as int, a, b),
            1 <= r.0 <= 4,
            r.1 <= 1,
    {
        let ic: usize = self.cell_index(b, Ghost(s));
        let heavy: bool = a.x != b.x && a.y != b.y && self.rule == DiagonalRule::Variant5e;
        let base: u32 = if heavy && parity == 1 {
            2
        } else {
            1
        };
        let cost: u32 = if self.rough[ic] {
            2 * base
        } else {
            base
        };
        let after: u8 = if heavy {
            1 - parity
        } else {
            parity
        };
        (cost, after)
    }

    /// The index of a search state in the search's books.
    fn state_index(&self, n: Node, Ghost(s): Ghost<Scene>) -> (i: usize)
        requires
            self.models(s),
            s.grid.in_bounds(n.pos),
            n.parity <= 1,
        ensures
            i == state_of(s, n.pos, n.parity as int),
            i < state_count(s),
            i / 2 < s.grid.cells.len(),
            state_pos(s, i as int) == n.pos,
            i % 2 == n.parity,
            s.grid.cells.len() <= MAX_GRID_SIDE * MAX_GRID_SIDE,
    {
        proof {
            lemma_state_of(s, n.pos, n.parity as int);
            assert(s.grid.width * s.grid.height <= MAX_GRID_SIDE * MAX_GRID_SIDE) by (nonlinear_arith)
                requires
                    0 <= s.grid.width <= MAX_GRID_SIDE,
                    0 <= s.grid.height <= MAX_GRID_SIDE,
            ;
        }
        let c: usize = self.cell_index(n.pos, Ghost(s));
        2 * c + (n.parity as usize)
    }

    /// The estimate of the cost still to pay from a state to the goal.
    fn estimate_of(&self, n: Node, Ghost(s): Ghost<Scene>) -> (h: u32)
        requires
            self.models(s),
            s.grid.in_bounds(n.pos),
            n.parity <= 1,
        ensures
            h == s.heuristic(n.parity as int, n.pos, self.goal),
            h <= 3 * MAX_GRID_SIDE,
    {
        let dx: u64 = n.pos.gap_x(&self.goal);
        let dy: u64 = n.pos.gap_y(&self.goal);
        let hi: u64 = if dx >= dy {
            dx
        } else {
            dy
        };
        let lo: u64 = if dx >= dy {
            dy
        } else {
            dx
        };
        match self.rule {
            DiagonalRule::Disabled => (dx + dy) as u32,
            DiagonalRule::Equal => hi as u32,
            DiagonalRule::Variant5e => (hi + (lo + n.parity as u64) / 2) as u32,
        }
    }
}

fn filled_costs(n: usize) -> (v: Vec<u32>)
    ensures
        v@.len() == n,
        forall|i: int| 0 <= i < n ==> v@[i] == UNSEEN,
{
    let mut v: Vec<u32> = Vec::new();
    let mut i: usize = 0;
    while i < n
        invariant
            i <= n,
            v@.len() == i,
            forall|j: int| 0 <= j < i ==> v@[j] == UNSEEN,
        decreases n - i,
    {
        v.push(UNSEEN);
        i = i + 1;
    }
    v
}

fn filled_marks(n: usize) -> (v: Vec<bool>)
    ensures
        v@.len() == n,
        forall|i: int| 0 <= i < n ==> !v@[i],
        count_true(v@) == 0,
{
    let mut v: Vec<bool> = Vec::new();
    let mut i: usize = 0;
    while i < n
        invariant
            i <= n,
            v@.len() == i,
            forall|j: int| 0 <= j < i ==> !v@[j],
            count_true(v@) == 0,
        decreases n - i,
    {
        proof {
            assert(v@.push(false).drop_last() =~= v@);
        }
        v.push(false);
        i = i + 1;
    }
    v
}

fn filled_nodes(n: usize, node: Node) -> (v: Vec<Node>)
    ensures
        v@.len() == n,
        forall|i: int| 0 <= i < n ==> v@[i] == node,
{
    let mut v: Vec<Node> = Vec::new();
    let mut i: usize = 0;
    while i < n
        invariant
            i <= n,
            v@.len() == i,
            forall|j: int| 0 <= j < i ==> v@[j] == node,
        decreases n - i,
    {
        v.push(node);
        i = i + 1;
    }
    v
}

/// Takes out of the frontier the first of its entries with the least
/// estimated total, keeping the others in order.
fn pop_min(frontier: &mut Vec<Entry>) -> (r: (Entry, usize))
    requires
        old(frontier)@.len() > 0,
    ensures
        r.1 < old(frontier)@.len(),
        r.0 == old(frontier)@[r.1 as int],
        final(frontier)@ == old(frontier)@.remove(r.1 as int),
        forall|k: int| 0 <= k < old(frontier)@.len() ==> r.0.f <= (#[trigger] old(frontier)@[k]).f,
        forall|k: int| 0 <= k < r.1 ==> r.0.f < (#[trigger] old(frontier)@[k]).f,
        r.1 == pop_at(old(frontier)@),
{
    let mut best: usize = 0;
    let mut k: usize = 1;
    while k < frontier.len()
        invariant
            frontier@ == old(frontier)@,
            best < k <= frontier@.len(),
            forall|j: int| 0 <= j < k ==> frontier@[best as int].f <= (#[trigger] frontier@[j]).f,
            forall|j: int| 0 <= j < best ==> frontier@[best as int].f < (#[trigger] frontier@[j]).f,
        decreases frontier@.len() - k,
    {
        if frontier[k].f < frontier[best].f {
            best = k;
        }
        k = k + 1;
    }
    proof {
        lemma_pop_at(frontier@, best as int);
    }
    let e = frontier.remove(best);
    (e, best)
}

impl Search {
    spec fn books(&self) -> Books {
        Books {
            g: self.g@,
            parent: self.parent@,
            closed: self.closed@,
            frontier: self.frontier@,
            expansions: self.expansions as int,
            floor: self.floor as int,
            walks: self.walks@,
        }
    }

    spec fn reached(&self, i: int) -> bool {
        self.g@[i] != UNSEEN
    }

    /// A reached state's cost is that of a walk from the start, which the
    /// predecessor links spell out.
    spec fn witnessed(&self, f: &Field, s: Scene, i: int) -> bool {
        let w = self.walks@[i];
        &&& s.connects(w, f.start, state_pos(s, i))
        &&& s.walk_parity(0, w) == i % 2
        &&& s.cost(w) == self.g@[i]
        &&& self.g@[i] <= 4 * self.expansions
        &&& if i == state_of(s, f.start, 0) {
            w == seq![f.start]
        } else {
            let p = self.parent@[i];
            let j = state_of(s, p.pos, p.parity as int);
            &&& s.grid.in_bounds(p.pos)
            &&& p.parity <= 1
            &&& self.closed@[j]
            &&& w == self.walks@[j].push(state_pos(s, i))
        }
    }

    /// A closed state is reached, was expanded no later than the current
    /// floor, and is no goal state.
    spec fn settled(&self, f: &Field, s: Scene, i: int) -> bool {
        &&& self.reached(i)
        &&& self.g@[i] + estimate(s, f.goal, i) <= self.floor
        &&& self.g@[i] + 4 <= 4 * self.expansions
        &&& state_pos(s, i) != f.goal
    }

    /// The step from state `u` onto `q` cannot improve the books.
    spec fn relaxed(&self, s: Scene, u: int, q: GridPosition) -> bool {
        let v = next_state(s, u, q);
        self.reached(v) && self.g@[v] <= self.g@[u] + s.step_cost(u % 2, state_pos(s, u), q)
    }

    spec fn entry_ok(&self, s: Scene, e: Entry) -> bool {
        &&& s.grid.in_bounds(e.node.pos)
        &&& e.node.parity <= 1
        &&& e.f >= self.floor
        &&& self.reached(state_of(s, e.node.pos, e.node.parity as int))
    }

    /// State `i` has a frontier entry that carries its current estimated total.
    spec fn queued(&self, f: &Field, s: Scene, i: int) -> bool {
        exists|k: int|
            0 <= k < self.frontier@.len() && (#[trigger] self.frontier@[k]).node == node_at(s, i)
                && self.frontier@[k].f == self.g@[i] + estimate(s, f.goal, i)
    }

    spec fn shape(&self, f: &Field, s: Scene) -> bool {
        let n = state_count(s);
        &&& f.models(s)
        &&& s.free(f.start)
        &&& self.g@.len() == n
        &&& self.parent@.len() == n
        &&& self.closed@.len() == n
        &&& self.walks@.len() == n
        &&& self.expansions == count_true(self.closed@)
        &&& self.g@[state_of(s, f.start, 0)] == 0
    }

    #[verifier::opaque]
    spec fn all_witnessed(&self, f: &Field, s: Scene) -> bool {
        forall|i: int| 0 <= i < state_count(s) && #[trigger] self.reached(i) ==> self.witnessed(f, s, i)
    }

    #[verifier::opaque]
    spec fn all_settled(&self, f: &Field, s: Scene) -> bool {
        forall|i: int| 0 <= i < state_count(s) && #[trigger] self.closed@[i] ==> self.settled(f, s, i)
    }

    #[verifier::opaque]
    spec fn all_relaxed(&self, s: Scene, cur: int) -> bool {
        forall|u: int, q: GridPosition|
            0 <= u < state_count(s) && self.closed@[u] && u != cur && #[trigger] edge(s, u, q) ==> self.relaxed(
                s,
                u,
                q,
            )
    }

    #[verifier::opaque]
    spec fn all_entries_ok(&self, s: Scene) -> bool {
        forall|k: int| 0 <= k < self.frontier@.len() ==> self.entry_ok(s, #[trigger] self.frontier@[k])
    }

    #[verifier::opaque]
    spec fn all_queued(&self, f: &Field, s: Scene, cur: int) -> bool {
        forall|i: int|
            0 <= i < state_count(s) && self.reached(i) && !self.closed@[i] && i != cur ==> #[trigger] self.queued(
                f,
                s,
                i,
            )
    }

    /// The search invariant. `cur` is the one state, if any, that is being
    /// worked on: it may be open without a frontier entry, or closed with
    /// steps not yet relaxed.
    spec fn inv(&self, f: &Field, s: Scene, cur: int) -> bool {
        &&& self.shape(f, s)
        &&& self.all_witnessed(f, s)
        &&& self.all_settled(f, s)
        &&& self.all_relaxed(s, cur)
        &&& self.all_entries_ok(s)
        &&& self.all_queued(f, s, cur)
    }

    proof fn lemma_state_facts(&self, f: &Field, s: Scene, cur: int, i: int)
        requires
            self.inv(f, s, cur),
            0 <= i < state_count(s),
        ensures
            self.reached(i) ==> self.witnessed(f, s, i),
            self.closed@[i] ==> self.settled(f, s, i),
            self.reached(i) && !self.closed@[i] && i != cur ==> self.queued(f, s, i),
    {
        reveal(Search::all_witnessed);
        reveal(Search::all_settled);
        reveal(Search::all_queued);
    }

    proof fn lemma_edge_facts(&self, f: &Field, s: Scene, cur: int, u: int, q: GridPosition)
        requires
            self.inv(f, s, cur),
            0 <= u < state_count(s),
            self.closed@[u],
            u != cur,
            edge(s, u, q),
        ensures
            self.relaxed(s, u, q),
    {
        reveal(Search::all_relaxed);
    }

    proof fn lemma_bounds(&self, f: &Field, s: Scene, cur: int)
        requires
            self.inv(f, s, cur),
        ensures
            self.expansions <= state_count(s),
            state_count(s) <= 2 * MAX_GRID_SIDE * MAX_GRID_SIDE,
    {
        lemma_count_bound(self.closed@);
        assert(s.grid.width * s.grid.height <= MAX_GRID_SIDE * MAX_GRID_SIDE) by (nonlinear_arith)
            requires
                0 <= s.grid.width <= MAX_GRID_SIDE,
                0 <= s.grid.height <= MAX_GRID_SIDE,
        ;
    }

    /// The books before the first expansion: only the start is reached.
    fn begin(f: &Field, Ghost(s): Ghost<Scene>) -> (sr: Search)
        requires
            f.models(s),
            s.free(f.start),
        ensures
            sr.inv(f, s, -1),
            sr.expansions == 0,
            sr.books() == first_books(s, f.start, f.goal),
    {
        let origin = Node { pos: f.start, parity: 0 };
        let i0: usize = f.state_index(origin, Ghost(s));
        let n: usize = 2 * f.pass.len();
        let mut g = filled_costs(n);
        g.set(i0, 0);
        let parent = filled_nodes(n, origin);
        let closed = filled_marks(n);
        let h0: u32 = f.estimate_of(origin, Ghost(s));
        let mut frontier: Vec<Entry> = Vec::new();
        frontier.push(Entry { f: h0, node: origin });
        let ghost walks = Seq::new(n as nat, |i: int| seq![f.start]);
        let sr = Search { g, parent, closed, frontier, expansions: 0, floor: 0, walks: Ghost(walks) };
        proof {
            let fb = first_books(s, f.start, f.goal);
            assert(sr.g@ =~= fb.g);
            assert(sr.parent@ =~= fb.parent);
            assert(sr.closed@ =~= fb.closed);
            assert(sr.frontier@ =~= fb.frontier);
            assert(sr.walks@ =~= fb.walks);
        }
        proof {
            reveal(Search::all_witnessed);
            reveal(Search::all_settled);
            reveal(Search::all_relaxed);
            reveal(Search::all_entries_ok);
            reveal(Search::all_queued);
            assert(sr.reached(i0 as int));
            assert forall|i: int| 0 <= i < state_count(s) && #[trigger] sr.reached(i) implies sr.witnessed(
                f,
                s,
                i,
            ) by {
                assert(i == i0);
                let w = sr.walks@[i];
                assert(w.len() == 1 && w[0] == f.start);
                assert(s.valid_walk(w));
            }
            assert(sr.frontier@[0].node == node_at(s, i0 as int));
            assert(sr.queued(f, s, i0 as int));
            assert forall|i: int|
                0 <= i < state_count(s) && sr.reached(i) && !sr.closed@[i] && i != -1 implies #[trigger] sr.queued(
                f,
                s,
                i,
            ) by {
                assert(i == i0);
            }
        }
        sr
    }

    /// What does not speak of the frontier carries over to books that
    /// differ in the frontier alone.
    proof fn lemma_frame(before: Search, after: Search, f: &Field, s: Scene, cur: int)
        requires
            before.all_witnessed(f, s),
            before.all_settled(f, s),
            before.all_relaxed(s, cur),
            after.g@ == before.g@,
            after.parent@ == before.parent@,
            after.closed@ == before.closed@,
            after.expansions == before.expansions,
            after.floor == before.floor,
            after.walks@ == before.walks@,
        ensures
            after.all_witnessed(f, s),
            after.all_settled(f, s),
            after.all_relaxed(s, cur),
    {
        reveal(Search::all_witnessed);
        reveal(Search::all_settled);
        reveal(Search::all_relaxed);
        let n = state_count(s);
        assert forall|i: int| 0 <= i < n && #[trigger] after.reached(i) implies after.witnessed(f, s, i) by {
            assert(before.reached(i));
            assert(before.witnessed(f, s, i));
        }
        assert forall|i: int| 0 <= i < n && #[trigger] after.closed@[i] implies after.settled(f, s, i) by {
            assert(before.closed@[i]);
            assert(before.settled(f, s, i));
        }
        assert forall|u2: int, q: GridPosition|
            0 <= u2 < n && after.closed@[u2] && u2 != cur && #[trigger] edge(s, u2, q) implies after.relaxed(
            s,
            u2,
            q,
        ) by {
            assert(before.closed@[u2]);
            assert(before.relaxed(s, u2, q));
        }
    }

    /// Once the least entry is out of the frontier, the invariant holds
    /// with that entry's state as the one being worked on, and without
    /// that exception if the entry was out of date.
    proof fn lemma_after_pop(before: Search, after: Search, f: &Field, s: Scene, e: Entry, at: int)
        requires
            before.inv(f, s, -1),
            0 <= at < before.frontier@.len(),
            e == before.frontier@[at],
            forall|k: int| 0 <= k < before.frontier@.len() ==> e.f <= (#[trigger] before.frontier@[k]).f,
            after.frontier@ == before.frontier@.remove(at),
            after.g@ == before.g@,
            after.parent@ == before.parent@,
            after.closed@ == before.closed@,
            after.expansions == before.expansions,
            after.floor == before.floor,
            after.walks@ == before.walks@,
        ensures
            after.inv(f, s, state_of(s, e.node.pos, e.node.parity as int)),
            before.entry_ok(s, e),
            after.reached(state_of(s, e.node.pos, e.node.parity as int)),
            forall|k: int| 0 <= k < after.frontier@.len() ==> e.f <= (#[trigger] after.frontier@[k]).f,
            (after.closed@[state_of(s, e.node.pos, e.node.parity as int)] || e.f != after.g@[state_of(
                s,
                e.node.pos,
                e.node.parity as int,
            )] + s.heuristic(e.node.parity as int, e.node.pos, f.goal)) ==> after.inv(f, s, -1),
    {
        reveal(Search::all_entries_ok);
        reveal(Search::all_queued);
        Search::lemma_frame(before, after, f, s, -1);
        assert(after.all_relaxed(s, state_of(s, e.node.pos, e.node.parity as int))) by {
            reveal(Search::all_relaxed);
        }
        let n = state_count(s);
        let u = state_of(s, e.node.pos, e.node.parity as int);
        assert(before.entry_ok(s, before.frontier@[at]));
        lemma_state_of(s, e.node.pos, e.node.parity as int);
        assert forall|k: int| 0 <= k < after.frontier@.len() implies after.entry_ok(
            s,
            #[trigger] after.frontier@[k],
        ) && e.f <= after.frontier@[k].f by {
            let k0 = if k < at {
                k
            } else {
                k + 1
            };
            assert(after.frontier@[k] == before.frontier@[k0]);
            assert(before.entry_ok(s, before.frontier@[k0]));
        }
        assert forall|i: int|
            0 <= i < n && after.reached(i) && !after.closed@[i] && (i != u || e.f != after.g@[u] + s.heuristic(
                e.node.parity as int,
                e.node.pos,
                f.goal,
            )) implies #[trigger] after.queued(f, s, i) by {
            assert(before.queued(f, s, i));
            let k0 = choose|k: int|
                0 <= k < before.frontier@.len() && (#[trigger] before.frontier@[k]).node == node_at(s, i)
                    && before.frontier@[k].f == before.g@[i] + estimate(s, f.goal, i);
            if k0 == at {
                lemma_state_at(s, i);
                assert(e.node == node_at(s, i));
                assert(i == u);
                assert(false);
            }
            let k = if k0 < at {
                k0
            } else {
                k0 - 1
            };
            assert(after.frontier@[k] == before.frontier@[k0]);
        }
    }

    /// What `relax` writes into the books when the step from the state
    /// `iu` onto `q` improves on what is known of the state it leads to.
    spec fn improved(&self, before: Search, f: &Field, s: Scene, iu: int, q: GridPosition) -> bool {
        let iv = next_state(s, iu, q);
        let cand = before.g@[iu] + s.step_cost(iu % 2, state_pos(s, iu), q);
        &&& self.g@ == before.g@.update(iv, cand as u32)
        &&& self.parent@ == before.parent@.update(iv, node_at(s, iu))
        &&& self.walks@ == before.walks@.update(iv, before.walks@[iu].push(q))
        &&& self.frontier@ == before.frontier@.push(
            Entry { f: (cand + estimate(s, f.goal, iv)) as u32, node: node_at(s, iv) },
        )
        &&& self.closed@ == before.closed@
        &&& self.expansions == before.expansions
        &&& self.floor == before.floor
    }

    /// The situation in which `relax` writes: state `iu` is being
    /// expanded, and the step onto `q` is legal and improves the books.
    spec fn improving(&self, before: Search, f: &Field, s: Scene, iu: int, q: GridPosition) -> bool {
        &&& before.inv(f, s, iu)
        &&& 0 <= iu < state_count(s)
        &&& before.closed@[iu]
        &&& before.g@[iu] + estimate(s, f.goal, iu) == before.floor
        &&& edge(s, iu, q)
        &&& before.g@[iu] + s.step_cost(iu % 2, state_pos(s, iu), q) < before.g@[next_state(s, iu, q)]
        &&& self.improved(before, f, s, iu, q)
    }

    /// What is known of the improved state and its new cost.
    proof fn lemma_improving_basics(&self, before: Search, f: &Field, s: Scene, iu: int, q: GridPosition)
        requires
            self.improving(before, f, s, iu, q),
        ensures
            ({
                let iv = next_state(s, iu, q);
                let cand = before.g@[iu] + s.step_cost(iu % 2, state_pos(s, iu), q);
                &&& 0 <= iv < state_count(s)
                &&& iv != iu
                &&& iv != state_of(s, f.start, 0)
                &&& !before.closed@[iv]
                &&& state_pos(s, iv) == q
                &&& iv % 2 == s.step_parity(iu % 2, state_pos(s, iu), q)
                &&& s.grid.in_bounds(q)
                &&& s.grid.in_bounds(state_pos(s, iu))
                &&& 0 <= iu % 2 <= 1
                &&& state_of(s, state_pos(s, iu), iu % 2) == iu
                &&& cand <= 4 * before.expansions
                &&& cand < UNSEEN
                &&& cand + estimate(s, f.goal, iv) >= before.floor
                &&& cand + estimate(s, f.goal, iv) < UNSEEN
                &&& self.g@[iv] == cand
                &&& self.g@[iu] == before.g@[iu]
                &&& before.witnessed(f, s, iu)
            }),
    {
        let iv = next_state(s, iu, q);
        let a = state_pos(s, iu);
        lemma_state_at(s, iu);
        let par = s.step_parity(iu % 2, a, q);
        lemma_state_of(s, q, par);
        before.lemma_state_facts(f, s, iu, iu);
        before.lemma_state_facts(f, s, iu, iv);
        before.lemma_bounds(f, s, iu);
        lemma_heuristic_consistent(s, iu % 2, a, q, f.goal);
        assert(s.heuristic(par, q, f.goal) <= 3 * MAX_GRID_SIDE) by {
            assert(s.grid.in_bounds(f.goal));
        }
    }

    proof fn lemma_improve_witnessed(&self, before: Search, f: &Field, s: Scene, iu: int, q: GridPosition)
        requires
            self.improving(before, f, s, iu, q),
        ensures
            self.all_witnessed(f, s),
    {
        reveal(Search::all_witnessed);
        reveal(Search::all_settled);
        self.lemma_improving_basics(before, f, s, iu, q);
        let iv = next_state(s, iu, q);
        let w0 = before.walks@[iu];
        let walk = w0.push(q);
        lemma_walk_push(s, 0, w0, q);
        assert forall|i: int| 0 <= i < state_count(s) && #[trigger] self.reached(i) implies self.witnessed(
            f,
            s,
            i,
        ) by {
            if i == iv {
                assert(self.walks@[i] == walk);
                assert(walk[0] == w0[0]);
                assert(walk[walk.len() - 1] == q);
                assert(self.walks@[iu] == w0);
                assert(self.parent@[i] == node_at(s, iu));
            } else {
                assert(before.reached(i));
                assert(before.witnessed(f, s, i));
                if i != state_of(s, f.start, 0) {
                    let p = before.parent@[i];
                    let j = state_of(s, p.pos, p.parity as int);
                    lemma_state_of(s, p.pos, p.parity as int);
                    assert(j != iv);
                }
            }
        }
    }

    proof fn lemma_improve_settled(&self, before: Search, f: &Field, s: Scene, iu: int, q: GridPosition)
        requires
            self.improving(before, f, s, iu, q),
        ensures
            self.all_settled(f, s),
    {
        reveal(Search::all_settled);
        self.lemma_improving_basics(before, f, s, iu, q);
        assert forall|i: int| 0 <= i < state_count(s) && #[trigger] self.closed@[i] implies self.settled(f, s, i) by {
            assert(before.closed@[i]);
            assert(before.settled(f, s, i));
        }
    }

    proof fn lemma_improve_relaxed(&self, before: Search, f: &Field, s: Scene, iu: int, q: GridPosition)
        requires
            self.improving(before, f, s, iu, q),
        ensures
            self.all_relaxed(s, iu),
            self.relaxed(s, iu, q),
            forall|q2: GridPosition|
                edge(s, iu, q2) && #[trigger] before.relaxed(s, iu, q2) ==> self.relaxed(s, iu, q2),
    {
        reveal(Search::all_relaxed);
        self.lemma_improving_basics(before, f, s, iu, q);
        assert forall|q2: GridPosition| edge(s, iu, q2) && #[trigger] before.relaxed(s, iu, q2) implies self.relaxed(
            s,
            iu,
            q2,
        ) by {
            lemma_state_of(s, q2, s.step_parity(iu % 2, state_pos(s, iu), q2));
        }
        assert forall|u2: int, q2: GridPosition|
            0 <= u2 < state_count(s) && self.closed@[u2] && u2 != iu && #[trigger] edge(
                s,
                u2,
                q2,
            ) implies self.relaxed(s, u2, q2) by {
            assert(before.closed@[u2]);
            assert(before.relaxed(s, u2, q2));
        }
    }

    proof fn lemma_improve_entries(&self, before: Search, f: &Field, s: Scene, iu: int, q: GridPosition)
        requires
            self.improving(before, f, s, iu, q),
        ensures
            self.all_entries_ok(s),
    {
        reveal(Search::all_entries_ok);
        self.lemma_improving_basics(before, f, s, iu, q);
        let iv = next_state(s, iu, q);
        assert forall|k: int| 0 <= k < self.frontier@.len() implies self.entry_ok(s, #[trigger] self.frontier@[k]) by {
            if k < before.frontier@.len() {
                assert(self.frontier@[k] == before.frontier@[k]);
                assert(before.entry_ok(s, before.frontier@[k]));
            } else {
                lemma_state_at(s, iv);
            }
        }
    }

    proof fn lemma_improve_queued(&self, before: Search, f: &Field, s: Scene, iu: int, q: GridPosition)
        requires
            self.improving(before, f, s, iu, q),
        ensures
            self.all_queued(f, s, iu),
    {
        reveal(Search::all_queued);
        self.lemma_improving_basics(before, f, s, iu, q);
        let iv = next_state(s, iu, q);
        assert forall|i: int|
            0 <= i < state_count(s) && self.reached(i) && !self.closed@[i] && i != iu implies #[trigger] self.queued(
            f,
            s,
            i,
        ) by {
            if i == iv {
                let k = before.frontier@.len() as int;
                assert(self.frontier@[k].node == node_at(s, i));
            } else {
                assert(before.queued(f, s, i));
                let k = choose|k: int|
                    0 <= k < before.frontier@.len() && (#[trigger] before.frontier@[k]).node == node_at(s, i)
                        && before.frontier@[k].f == before.g@[i] + estimate(s, f.goal, i);
                assert(self.frontier@[k] == before.frontier@[k]);
            }
        }
    }

    /// Writing an improving step into the books keeps the invariant.
    proof fn lemma_improve(&self, before: Search, f: &Field, s: Scene, iu: int, q: GridPosition)
        requires
            self.improving(before, f, s, iu, q),
        ensures
            self.inv(f, s, iu),
            self.relaxed(s, iu, q),
            forall|q2: GridPosition|
                edge(s, iu, q2) && #[trigger] before.relaxed(s, iu, q2) ==> self.relaxed(s, iu, q2),
    {
        self.lemma_improving_basics(before, f, s, iu, q);
        self.lemma_improve_witnessed(before, f, s, iu, q);
        self.lemma_improve_settled(before, f, s, iu, q);
        self.lemma_improve_relaxed(before, f, s, iu, q);
        self.lemma_improve_entries(before, f, s, iu, q);
        self.lemma_improve_queued(before, f, s, iu, q);
    }

    /// Considers the step from the state being expanded onto the
    /// neighbouring cell at offset (`dx`, `dy`), and records it where it
    /// improves on what is known.
    fn relax(&mut self, f: &Field, Ghost(s): Ghost<Scene>, u: Node, dx: i32, dy: i32)
        requires
            s.grid.in_bounds(u.pos),
            u.parity <= 1,
            old(self).inv(f, s, state_of(s, u.pos, u.parity as int)),
            old(self).closed@[state_of(s, u.pos, u.parity as int)],
            old(self).g@[state_of(s, u.pos, u.parity as int)] + s.heuristic(u.parity as int, u.pos, f.goal) == old(
                self,
            ).floor,
            -1 <= dx <= 1,
            -1 <= dy <= 1,
        ensures
            final(self).inv(f, s, state_of(s, u.pos, u.parity as int)),
            final(self).books() == relax_spec(old(self).books(), s, f.goal, u, dx as int, dy as int),
            final(self).closed@ == old(self).closed@,
            final(self).expansions == old(self).expansions,
            final(self).floor == old(self).floor,
            final(self).frontier@.len() <= old(self).frontier@.len() + 1,
            final(self).g@[state_of(s, u.pos, u.parity as int)] == old(self).g@[state_of(
                s,
                u.pos,
                u.parity as int,
            )],
            forall|q2: GridPosition|
                edge(s, state_of(s, u.pos, u.parity as int), q2) && #[trigger] old(self).relaxed(
                    s,
                    state_of(s, u.pos, u.parity as int),
                    q2,
                ) ==> final(self).relaxed(s, state_of(s, u.pos, u.parity as int), q2),
            edge(
                s,
                state_of(s, u.pos, u.parity as int),
                GridPosition { x: (u.pos.x + dx) as i32, y: (u.pos.y + dy) as i32 },
            ) ==> final(self).relaxed(
                s,
                state_of(s, u.pos, u.parity as int),
                GridPosition { x: (u.pos.x + dx) as i32, y: (u.pos.y + dy) as i32 },
            ),
    {
        let ghost before = *self;
        let iu: usize = f.state_index(u, Ghost(s));
        proof {
            lemma_state_at(s, iu as int);
        }
        let qx: i32 = u.pos.x + dx;
        let qy: i32 = u.pos.y + dy;
        let q = GridPosition { x: qx, y: qy };
        if (dx == 0 && dy == 0) || qx < 0 || qy < 0 || qx >= f.width as i32 || qy >= f.height as i32 {
            return ;
        }
        let is_diagonal: bool = dx != 0 && dy != 0;
        if is_diagonal && f.rule == DiagonalRule::Disabled {
            return ;
        }
        let ic: usize = f.cell_index(q, Ghost(s));
        if !f.pass[ic] {
            return ;
        }
        let heavy: bool = is_diagonal && f.rule == DiagonalRule::Variant5e;
        let base: u32 = if heavy && u.parity == 1 {
            2
        } else {
            1
        };
        let step: u32 = if f.rough[ic] {
            2 * base
        } else {
            base
        };
        let parity: u8 = if heavy {
            1 - u.parity
        } else {
            u.parity
        };
        let v = Node { pos: q, parity };
        let iv: usize = f.state_index(v, Ghost(s));
        proof {
            self.lemma_state_facts(f, s, iu as int, iu as int);
            self.lemma_bounds(f, s, iu as int);
            assert(s.adjacent(u.pos, q));
            assert(is_diagonal == diagonal(u.pos, q));
            assert(step == s.step_cost(u.parity as int, u.pos, q));
            assert(parity == s.step_parity(u.parity as int, u.pos, q));
            assert(iv == next_state(s, iu as int, q));
            assert(edge(s, iu as int, q));
        }
        let cand: u32 = self.g[iu] + step;
        if cand < self.g[iv] {
            let hv: u32 = f.estimate_of(v, Ghost(s));
            self.g.set(iv, cand);
            self.parent.set(iv, u);
            self.frontier.push(Entry { f: cand + hv, node: v });
            self.walks = Ghost(self.walks@.update(iv as int, self.walks@[iu as int].push(q)));
            proof {
                assert(u == node_at(s, iu as int));
                assert(v == node_at(s, iv as int));
                assert(self.improved(before, f, s, iu as int, q));
                self.lemma_improve(before, f, s, iu as int, q);
                assert(self.books() == relax_spec(before.books(), s, f.goal, u, dx as int, dy as int));
            }
        }
    }

    /// Marking the state being worked on as closed keeps the invariant,
    /// when nothing on the frontier is estimated below it.
    proof fn lemma_close(&self, before: Search, f: &Field, s: Scene, iu: int)
        requires
            before.inv(f, s, iu),
            0 <= iu < state_count(s),
            before.reached(iu),
            !before.closed@[iu],
            state_pos(s, iu) != f.goal,
            forall|k: int|
                0 <= k < before.frontier@.len() ==> (#[trigger] before.frontier@[k]).f >= before.g@[iu] + estimate(
                    s,
                    f.goal,
                    iu,
                ),
            before.g@[iu] + estimate(s, f.goal, iu) >= before.floor,
            self.g@ == before.g@,
            self.parent@ == before.parent@,
            self.walks@ == before.walks@,
            self.frontier@ == before.frontier@,
            self.closed@ == before.closed@.update(iu, true),
            self.expansions == before.expansions + 1,
            self.floor == before.g@[iu] + estimate(s, f.goal, iu),
        ensures
            self.inv(f, s, iu),
            self.expansions <= state_count(s),
    {
        reveal(Search::all_witnessed);
        reveal(Search::all_settled);
        reveal(Search::all_relaxed);
        reveal(Search::all_entries_ok);
        reveal(Search::all_queued);
        let n = state_count(s);
        assert(before.witnessed(f, s, iu));
        lemma_count_set(before.closed@, iu);
        lemma_count_bound(self.closed@);
        assert forall|i: int| 0 <= i < n && #[trigger] self.reached(i) implies self.witnessed(f, s, i) by {
            assert(before.reached(i));
            assert(before.witnessed(f, s, i));
        }
        assert forall|i: int| 0 <= i < n && #[trigger] self.closed@[i] implies self.settled(f, s, i) by {
            if i != iu {
                assert(before.closed@[i]);
                assert(before.settled(f, s, i));
            }
        }
        assert forall|u2: int, q2: GridPosition|
            0 <= u2 < n && self.closed@[u2] && u2 != iu && #[trigger] edge(s, u2, q2) implies self.relaxed(
            s,
            u2,
            q2,
        ) by {
            assert(before.closed@[u2]);
            assert(before.relaxed(s, u2, q2));
        }
        assert forall|k: int| 0 <= k < self.frontier@.len() implies self.entry_ok(s, #[trigger] self.frontier@[k]) by {
            assert(before.entry_ok(s, before.frontier@[k]));
        }
        assert forall|i: int|
            0 <= i < n && self.reached(i) && !self.closed@[i] && i != iu implies #[trigger] self.queued(f, s, i) by {
            assert(before.queued(f, s, i));
        }
    }

    /// Once every step out of the state being worked on is relaxed, the
    /// invariant holds without exception.
    proof fn lemma_expanded(&self, f: &Field, s: Scene, iu: int)
        requires
            self.inv(f, s, iu),
            0 <= iu < state_count(s),
            self.closed@[iu],
            forall|q: GridPosition| #[trigger] edge(s, iu, q) ==> self.relaxed(s, iu, q),
        ensures
            self.inv(f, s, -1),
    {
        reveal(Search::all_relaxed);
        reveal(Search::all_queued);
    }

    /// Closes the state `u` and relaxes every step out of it.
    fn expand(&mut self, f: &Field, Ghost(s): Ghost<Scene>, u: Node)
        requires
            s.grid.in_bounds(u.pos),
            u.parity <= 1,
            u.pos != f.goal,
            old(self).inv(f, s, state_of(s, u.pos, u.parity as int)),
            old(self).reached(state_of(s, u.pos, u.parity as int)),
            !old(self).closed@[state_of(s, u.pos, u.parity as int)],
            forall|k: int|
                0 <= k < old(self).frontier@.len() ==> (#[trigger] old(self).frontier@[k]).f >= old(self).g@[state_of(
                    s,
                    u.pos,
                    u.parity as int,
                )] + s.heuristic(u.parity as int, u.pos, f.goal),
            old(self).g@[state_of(s, u.pos, u.parity as int)] + s.heuristic(u.parity as int, u.pos, f.goal)
                >= old(self).floor,
        ensures
            final(self).inv(f, s, -1),
            final(self).expansions == old(self).expansions + 1,
            final(self).frontier@.len() <= old(self).frontier@.len() + 8,
            final(self).expansions <= state_count(s),
            final(self).books() == expand_spec(old(self).books(), s, f.goal, u),
    {
        let ghost before = *self;
        let iu: usize = f.state_index(u, Ghost(s));
        let hu: u32 = f.estimate_of(u, Ghost(s));
        proof {
            self.lemma_state_facts(f, s, iu as int, iu as int);
            self.lemma_bounds(f, s, iu as int);
            lemma_count_set(self.closed@, iu as int);
            lemma_count_bound(self.closed@.update(iu as int, true));
        }
        self.closed.set(iu, true);
        self.expansions = self.expansions + 1;
        self.floor = self.g[iu] + hu;
        proof {
            self.lemma_close(before, f, s, iu as int);
        }
        let ghost shut = self.books();
        let mut j: usize = 0;
        while j < 8
            invariant
                j <= 8,
                self.books() == relax_upto(shut, s, f.goal, u, j as nat),
                s.grid.in_bounds(u.pos),
                u.parity <= 1,
                iu == state_of(s, u.pos, u.parity as int),
                self.inv(f, s, iu as int),
                self.closed@[iu as int],
                self.g@[iu as int] + s.heuristic(u.parity as int, u.pos, f.goal) == self.floor,
                self.expansions == before.expansions + 1,
                self.frontier@.len() <= before.frontier@.len() + j,
                forall|k: int|
                    0 <= k < j && edge(s, iu as int, #[trigger] neighbor(u.pos, k)) ==> self.relaxed(
                        s,
                        iu as int,
                        neighbor(u.pos, k),
                    ),
            decreases 8 - j,
        {
            let d = offset(j);
            self.relax(f, Ghost(s), u, d.0, d.1);
            j = j + 1;
        }
        proof {
            assert forall|q: GridPosition| #[trigger] edge(s, iu as int, q) implies self.relaxed(s, iu as int, q) by {
                lemma_neighbors_cover(s, u.pos, q);
                let k = choose|k: int| 0 <= k < 8 && #[trigger] neighbor(u.pos, k) == q;
                assert(edge(s, iu as int, neighbor(u.pos, k)));
            }
            self.lemma_expanded(f, s, iu as int);
        }
    }

    /// An open state is estimated at `m` or more when the frontier and the
    /// state being worked on are.
    proof fn lemma_open_above(&self, f: &Field, s: Scene, cur: int, m: int, i: int)
        requires
            self.inv(f, s, cur),
            self.g@[cur] + estimate(s, f.goal, cur) >= m,
            forall|k: int| 0 <= k < self.frontier@.len() ==> (#[trigger] self.frontier@[k]).f >= m,
            0 <= i < state_count(s),
            self.reached(i),
            !self.closed@[i],
        ensures
            self.g@[i] + estimate(s, f.goal, i) >= m,
    {
        if i != cur {
            self.lemma_state_facts(f, s, cur, i);
            assert(self.queued(f, s, i));
        }
    }

    /// Every walk from the start ends in a state that is closed at no more
    /// than the walk's cost, or costs together with the estimate from its
    /// end at least `m`, when nothing on the frontier and nothing being
    /// worked on is estimated below `m`.
    proof fn lemma_walk_bound(&self, f: &Field, s: Scene, cur: int, m: int, w: Seq<GridPosition>)
        requires
            self.inv(f, s, cur),
            0 <= cur < state_count(s),
            self.reached(cur),
            !self.closed@[cur],
            self.g@[cur] + estimate(s, f.goal, cur) >= m,
            forall|k: int| 0 <= k < self.frontier@.len() ==> (#[trigger] self.frontier@[k]).f >= m,
            s.valid_walk(w),
            w[0] == f.start,
        ensures
            ({
                let i = state_of(s, w[w.len() - 1], s.walk_parity(0, w));
                &&& 0 <= i < state_count(s)
                &&& (self.closed@[i] && s.cost(w) >= self.g@[i]) || s.cost(w) + estimate(s, f.goal, i) >= m
            }),
        decreases w.len(),
    {
        let last = w[w.len() - 1];
        let par = s.walk_parity(0, w);
        lemma_walk_parity_range(s, 0, w);
        assert(s.free(last));
        lemma_state_of(s, last, par);
        let i = state_of(s, last, par);
        if w.len() == 1 {
            if !self.closed@[i] {
                self.lemma_open_above(f, s, cur, m, i);
            }
        } else {
            let p = w.drop_last();
            assert(p =~= w.subrange(0, w.len() - 1));
            lemma_walk_prefix(s, 0, w, w.len() - 1);
            self.lemma_walk_bound(f, s, cur, m, p);
            lemma_walk_parity_range(s, 0, p);
            let a = w[w.len() - 2];
            let j = state_of(s, a, s.walk_parity(0, p));
            assert(s.free(a));
            lemma_state_of(s, a, s.walk_parity(0, p));
            assert(p[p.len() - 1] == a);
            assert(s.adjacent(w[w.len() - 2], w[w.len() - 2 + 1]));
            assert(edge(s, j, last));
            assert(next_state(s, j, last) == i);
            lemma_heuristic_consistent(s, s.walk_parity(0, p), a, last, f.goal);
            if self.closed@[j] && s.cost(p) >= self.g@[j] {
                assert(j != cur);
                self.lemma_edge_facts(f, s, cur, j, last);
                if !self.closed@[i] {
                    self.lemma_open_above(f, s, cur, m, i);
                }
            }
        }
    }

    /// With the frontier empty, every walk from the start ends in a closed state.
    proof fn lemma_walk_closed(&self, f: &Field, s: Scene, w: Seq<GridPosition>)
        requires
            self.inv(f, s, -1),
            self.frontier@.len() == 0,
            s.valid_walk(w),
            w[0] == f.start,
        ensures
            ({
                let i = state_of(s, w[w.len() - 1], s.walk_parity(0, w));
                0 <= i < state_count(s) && self.closed@[i]
            }),
        decreases w.len(),
    {
        let last = w[w.len() - 1];
        let par = s.walk_parity(0, w);
        lemma_walk_parity_range(s, 0, w);
        assert(s.free(last));
        lemma_state_of(s, last, par);
        let i = state_of(s, last, par);
        if w.len() == 1 {
            assert(self.reached(i));
            self.lemma_state_facts(f, s, -1, i);
            if !self.closed@[i] {
                assert(self.queued(f, s, i));
            }
        } else {
            let p = w.drop_last();
            assert(p =~= w.subrange(0, w.len() - 1));
            lemma_walk_prefix(s, 0, w, w.len() - 1);
            self.lemma_walk_closed(f, s, p);
            lemma_walk_parity_range(s, 0, p);
            let a = w[w.len() - 2];
            let j = state_of(s, a, s.walk_parity(0, p));
            assert(p[p.len() - 1] == a);
            assert(s.adjacent(w[w.len() - 2], w[w.len() - 2 + 1]));
            assert(edge(s, j, last));
            assert(next_state(s, j, last) == i);
            self.lemma_edge_facts(f, s, -1, j, last);
            self.lemma_state_facts(f, s, -1, i);
            if !self.closed@[i] {
                assert(self.queued(f, s, i));
            }
        }
    }

    /// One step back along the predecessor links: the walk of a reached
    /// state other than the start is its predecessor's walk and one cell.
    proof fn lemma_link(&self, f: &Field, s: Scene, cur: int, i: int)
        requires
            self.inv(f, s, cur),
            0 <= i < state_count(s),
            self.reached(i),
        ensures
            self.walks@[i].len() >= 1,
            self.walks@[i][self.walks@[i].len() - 1] == state_pos(s, i),
            i == state_of(s, f.start, 0) ==> self.walks@[i] == seq![f.start],
            i != state_of(s, f.start, 0) ==> ({
                let p = self.parent@[i];
                let j = state_of(s, p.pos, p.parity as int);
                &&& s.grid.in_bounds(p.pos)
                &&& p.parity <= 1
                &&& 0 <= j < state_count(s)
                &&& self.reached(j)
                &&& self.walks@[i] == self.walks@[j].push(state_pos(s, i))
            }),
    {
        self.lemma_state_facts(f, s, cur, i);
        if i != state_of(s, f.start, 0) {
            let p = self.parent@[i];
            let j = state_of(s, p.pos, p.parity as int);
            lemma_state_of(s, p.pos, p.parity as int);
            self.lemma_state_facts(f, s, cur, j);
        }
    }

    /// Follows the predecessor links back from a reached state and returns
    /// the walk they spell, start first.
    fn trace(&self, f: &Field, Ghost(s): Ghost<Scene>, Ghost(cur): Ghost<int>, end: Node) -> (path: Vec<
        GridPosition,
    >)
        requires
            self.inv(f, s, cur),
            s.grid.in_bounds(end.pos),
            end.parity <= 1,
            self.reached(state_of(s, end.pos, end.parity as int)),
        ensures
            path@ == self.walks@[state_of(s, end.pos, end.parity as int)],
    {
        let ghost whole = self.walks@[state_of(s, end.pos, end.parity as int)];
        proof {
            lemma_state_of(s, end.pos, end.parity as int);
            self.lemma_link(f, s, cur, state_of(s, end.pos, end.parity as int));
            assert(whole.subrange(0, whole.len() as int) =~= whole);
        }
        let mut back: Vec<GridPosition> = Vec::new();
        let mut at: Node = end;
        loop
            invariant_except_break
                self.inv(f, s, cur),
                s.grid.in_bounds(at.pos),
                at.parity <= 1,
                self.reached(state_of(s, at.pos, at.parity as int)),
                back@.len() < whole.len(),
                self.walks@[state_of(s, at.pos, at.parity as int)] == whole.subrange(
                    0,
                    whole.len() - back@.len(),
                ),
                forall|k: int| 0 <= k < back@.len() ==> #[trigger] back@[k] == whole[whole.len() - 1 - k],
            ensures
                back@.len() == whole.len(),
                forall|k: int| 0 <= k < back@.len() ==> #[trigger] back@[k] == whole[whole.len() - 1 - k],
            decreases whole.len() - back@.len(),
        {
            let i: usize = f.state_index(at, Ghost(s));
            proof {
                self.lemma_link(f, s, cur, i as int);
                lemma_state_of(s, f.start, 0);
            }
            back.push(at.pos);
            if at.pos.x == f.start.x && at.pos.y == f.start.y && at.parity == 0 {
                break ;
            }
            let p: Node = self.parent[i];
            proof {
                let j = state_of(s, p.pos, p.parity as int);
                self.lemma_link(f, s, cur, j);
                assert(self.walks@[j] =~= whole.subrange(0, whole.len() - back@.len()));
            }
            at = p;
        }
        let mut path: Vec<GridPosition> = Vec::new();
        let mut k: usize = back.len();
        while k > 0
            invariant
                k <= back@.len(),
                back@.len() == whole.len(),
                path@.len() == back@.len() - k,
                forall|j: int| 0 <= j < back@.len() ==> #[trigger] back@[j] == whole[whole.len() - 1 - j],
                forall|j: int| 0 <= j < path@.len() ==> #[trigger] path@[j] == whole[j],
            decreases k,
        {
            k = k - 1;
            path.push(back[k]);
        }
        assert(path@ =~= whole);
        path
    }
}

/// What one more cell adds to the leading part of a walk.
proof fn lemma_cut_step(s: Scene, full: Seq<GridPosition>, k: int)
    requires
        s.valid_walk(full),
        1 <= k < full.len(),
    ensures
        s.grid.in_bounds(full[k]),
        s.cost(full.subrange(0, k + 1)) == s.cost(full.subrange(0, k)) + s.step_cost(
            s.walk_parity(0, full.subrange(0, k)),
            full[k - 1],
            full[k],
        ),
        s.walk_parity(0, full.subrange(0, k + 1)) == s.step_parity(
            s.walk_parity(0, full.subrange(0, k)),
            full[k - 1],
            full[k],
        ),
        0 <= s.walk_parity(0, full.subrange(0, k)) <= 1,
{
    lemma_walk_prefix(s, 0, full, k);
    lemma_walk_parity_range(s, 0, full.subrange(0, k));
    assert(s.free(full[k]));
}

/// Shortens `path`, which costs more than `budget`, to the part that
/// `budget` pays for, and returns that part's cost.
fn cut_to_budget(f: &Field, Ghost(s): Ghost<Scene>, path: &mut Vec<GridPosition>, budget: u32) -> (cost: u32)
    requires
        f.models(s),
        s.valid_walk(old(path)@),
        s.cost(old(path)@) > budget,
    ensures
        budget_cut(s, old(path)@, budget as nat, final(path)@),
        cost == s.cost(final(path)@),
        s.valid_walk(final(path)@),
        final(path)@.len() == paid_len(s, old(path)@, budget as nat, 1),
{
    let ghost full = path@;
    let n: usize = path.len();
    let mut k: usize = 1;
    let mut spent: u32 = 0;
    let mut parity: u8 = 0;
    proof {
        assert(full.subrange(0, 1).len() == 1);
    }
    loop
        invariant_except_break
            f.models(s),
            path@ == full,
            n == full.len(),
            s.valid_walk(full),
            s.cost(full) > budget,
            1 <= k <= full.len(),
            spent == s.cost(full.subrange(0, k as int)),
            parity == s.walk_parity(0, full.subrange(0, k as int)),
            parity <= 1,
            spent <= budget,
            paid_len(s, full, budget as nat, k as int) == paid_len(s, full, budget as nat, 1),
        ensures
            path@ == full,
            k == paid_len(s, full, budget as nat, 1),
            1 <= k < full.len(),
            spent == s.cost(full.subrange(0, k as int)),
            spent <= budget,
            s.cost(full.subrange(0, k as int + 1)) > budget,
        decreases full.len() - k,
    {
        proof {
            if k == full.len() {
                assert(full.subrange(0, k as int) =~= full);
            }
            assert(k < full.len());
            lemma_cut_step(s, full, k as int);
        }
        let (step, after) = f.step(path[k - 1], path[k], parity, Ghost(s));
        if step > budget - spent {
            break ;
        }
        spent = spent + step;
        parity = after;
        k = k + 1;
    }
    path.truncate(k);
    proof {
        lemma_walk_prefix(s, 0, full, k as int);
    }
    spent
}

/// Finds a cheapest path for `req` on `grid`, expanding at most
/// `max_expansions` search states. Fails with `InvalidPosition` when start
/// or goal is off the grid, and with `Timeout` when the search would need
/// more expansions than allowed, which cannot happen when `max_expansions`
/// is at least twice the number of cells.
pub fn find_path_within(grid: &GridMap, req: &PathRequest, max_expansions: u32) -> (r: Result<PathResult, DndError>)
    requires
        grid.wf(),
    ensures
        match r {
            Ok(res) => {
                &&& grid@.in_bounds(req.start)
                &&& grid@.in_bounds(req.goal)
                &&& answers(grid@, *req, res.path@, res.cost as nat, res.status)
            },
            Err(e) => {
                ||| !grid@.in_bounds(req.start) && e@ == (ErrorView::InvalidPosition {
                    x: req.start.x as int,
                    y: req.start.y as int,
                })
                ||| grid@.in_bounds(req.start) && !grid@.in_bounds(req.goal) && e@ == (ErrorView::InvalidPosition {
                    x: req.goal.x as int,
                    y: req.goal.y as int,
                })
                ||| grid@.in_bounds(req.start) && grid@.in_bounds(req.goal) && e@ == ErrorView::Timeout
                    && max_expansions < 2 * grid@.cells.len()
            },
        },
        verdict_of(r) == search_verdict(grid@, *req, max_expansions),
{
    if !grid.contains(req.start) {
        return Err(DndError::InvalidPosition { x: req.start.x, y: req.start.y });
    }
    if !grid.contains(req.goal) {
        return Err(DndError::InvalidPosition { x: req.goal.x, y: req.goal.y });
    }
    let ghost s = req.scene(grid@);
    let f = Field::survey(grid, req);
    let i0: usize = f.cell_index(f.start, Ghost(s));
    if !f.pass[i0] {
        proof {
            lemma_no_walk_from_blocked(s, req.start, req.goal);
        }
        return Ok(PathResult { path: Vec::new(), cost: 0, status: PathStatus::Unreachable });
    }
    let mut search = Search::begin(&f, Ghost(s));
    let ghost mut fuel: nat = first_fuel(s);
    let ghost end = run(search.books(), s, req.goal, max_expansions, fuel);
    loop
        invariant
            s == req.scene(grid@),
            f.start == req.start,
            f.goal == req.goal,
            search.inv(&f, s, -1),
            grid@.in_bounds(req.start),
            grid@.in_bounds(req.goal),
            s.free(req.start),
            fuel > 8 * (state_count(s) - search.expansions) + search.frontier@.len(),
            run(search.books(), s, req.goal, max_expansions, fuel) == end,
            end == run(first_books(s, req.start, req.goal), s, req.goal, max_expansions, first_fuel(s)),
        decreases 8 * (state_count(s) - search.expansions) + search.frontier@.len(),
    {
        proof {
            search.lemma_bounds(&f, s, -1);
        }
        if search.frontier.len() == 0 {
            proof {
                search.lemma_exhausted(&f, s);
            }
            return Ok(PathResult { path: Vec::new(), cost: 0, status: PathStatus::Unreachable });
        }
        let ghost before = search;
        let (e, at) = pop_min(&mut search.frontier);
        let u: Node = e.node;
        proof {
            Search::lemma_after_pop(before, search, &f, s, e, at as int);
            assert(search.books() == (Books { frontier: before.frontier@.remove(at as int), ..before.books() }));
        }
        let iu: usize = f.state_index(u, Ghost(s));
        let hu: u32 = f.estimate_of(u, Ghost(s));
        proof {
            search.lemma_state_facts(&f, s, iu as int, iu as int);
            search.lemma_bounds(&f, s, iu as int);
        }
        if !search.closed[iu] && e.f == search.g[iu] + hu {
            if u.pos.x == f.goal.x && u.pos.y == f.goal.y {
                let total: u32 = search.g[iu];
                let mut path = search.trace(&f, Ghost(s), Ghost(iu as int), u);
                proof {
                    search.lemma_goal_cheapest(&f, s, iu as int);
                }
                if total <= req.budget {
                    return Ok(PathResult { path, cost: total, status: PathStatus::Reached });
                }
                let spent: u32 = cut_to_budget(&f, Ghost(s), &mut path, req.budget);
                return Ok(PathResult { path, cost: spent, status: PathStatus::BudgetExceeded });
            }
            proof {
                if search.expansions == state_count(s) {
                    lemma_all_closed(search.closed@, iu as int);
                }
            }
            if search.expansions >= max_expansions {
                return Err(DndError::Timeout);
            }
            search.expand(&f, Ghost(s), u);
        }
        proof {
            fuel = (fuel - 1) as nat;
        }
    }
}

/// No walk starts where the mover cannot stand.
proof fn lemma_no_walk_from_blocked(s: Scene, start: GridPosition, goal: GridPosition)
    requires
        !s.free(start),
    ensures
        forall|w: Seq<GridPosition>| !#[trigger] s.connects(w, start, goal),
{
    assert forall|w: Seq<GridPosition>| !#[trigger] s.connects(w, start, goal) by {
        if s.connects(w, start, goal) {
            assert(s.free(w[0]));
        }
    }
}

impl Search {
    /// With the frontier empty and no goal state closed, no walk leads
    /// from the start to the goal.
    proof fn lemma_exhausted(&self, f: &Field, s: Scene)
        requires
            self.inv(f, s, -1),
            self.frontier@.len() == 0,
        ensures
            forall|w: Seq<GridPosition>| !#[trigger] s.connects(w, f.start, f.goal),
    {
        assert forall|w: Seq<GridPosition>| !#[trigger] s.connects(w, f.start, f.goal) by {
            if s.connects(w, f.start, f.goal) {
                self.lemma_walk_closed(f, s, w);
                let i = state_of(s, w[w.len() - 1], s.walk_parity(0, w));
                self.lemma_state_facts(f, s, -1, i);
                lemma_walk_parity_range(s, 0, w);
                lemma_state_of(s, f.goal, s.walk_parity(0, w));
            }
        }
    }

    /// The walk on the books of a goal state that leaves the frontier
    /// first is a cheapest walk from the start to the goal.
    proof fn lemma_goal_cheapest(&self, f: &Field, s: Scene, iu: int)
        requires
            self.inv(f, s, iu),
            0 <= iu < state_count(s),
            self.reached(iu),
            !self.closed@[iu],
            state_pos(s, iu) == f.goal,
            forall|k: int|
                0 <= k < self.frontier@.len() ==> (#[trigger] self.frontier@[k]).f >= self.g@[iu] + estimate(
                    s,
                    f.goal,
                    iu,
                ),
        ensures
            s.cheapest(self.walks@[iu], f.start, f.goal),
            s.cost(self.walks@[iu]) == self.g@[iu],
    {
        self.lemma_state_facts(f, s, iu, iu);
        let m = self.g@[iu] + estimate(s, f.goal, iu);
        assert forall|w: Seq<GridPosition>| #[trigger] s.connects(w, f.start, f.goal) implies s.cost(
            self.walks@[iu],
        ) <= s.cost(w) by {
            self.lemma_walk_bound(f, s, iu, m as int, w);
            let i = state_of(s, w[w.len() - 1], s.walk_parity(0, w));
            lemma_walk_parity_range(s, 0, w);
            lemma_state_of(s, f.goal, s.walk_parity(0, w));
            self.lemma_state_facts(f, s, iu, i);
        }
    }
}

proof fn lemma_all_closed(b: Seq<bool>, i: int)
    requires
        0 <= i < b.len(),
        count_true(b) == b.len(),
    ensures
        b[i],
{
    if !b[i] {
        lemma_count_set(b, i);
        lemma_count_bound(b.update(i, true));
    }
}

/// Finds a cheapest path for `req` on `grid`. Fails with `InvalidPosition`
/// when start or goal is off the grid, and in no other case.
pub fn find_path(grid: &GridMap, req: &PathRequest) -> (r: Result<PathResult, DndError>)
    requires
        grid.wf(),
    ensures
        match r {
            Ok(res) => {
                &&& grid@.in_bounds(req.start)
                &&& grid@.in_bounds(req.goal)
                &&& answers(grid@, *req, res.path@, res.cost as nat, res.status)
            },
            Err(e) => {
                ||| !grid@.in_bounds(req.start) && e@ == (ErrorView::InvalidPosition {
                    x: req.start.x as int,
                    y: req.start.y as int,
                })
                ||| grid@.in_bounds(req.start) && !grid@.in_bounds(req.goal) && e@ == (ErrorView::InvalidPosition {
                    x: req.goal.x as int,
                    y: req.goal.y as int,
                })
            },
        },
        verdict_of(r) == search_verdict(grid@, *req, 0xffff_ffff),
{
    proof {
        assert(grid@.width * grid@.height <= MAX_GRID_SIDE * MAX_GRID_SIDE) by (nonlinear_arith)
            requires
                0 <= grid@.width <= MAX_GRID_SIDE,
                0 <= grid@.height <= MAX_GRID_SIDE,
        ;
    }
    find_path_within(grid, req, 0xffff_ffff)
}

/// A path that reaches the goal costs what the cheapest walk costs.
pub proof fn lemma_reached_is_min_cost(grid: GridView, req: PathRequest, path: Seq<GridPosition>, cost: nat)
    requires
        answers(grid, req, path, cost, PathStatus::Reached),
    ensures
        req.scene(grid).is_min_cost(req.start, req.goal, cost),
{
    let s = req.scene(grid);
    assert(s.cheapest(path, req.start, req.goal) && s.cost(path) == cost);
}

/// The three outcomes exclude one another: whether a query reaches its
/// goal, runs out of budget or finds no way is decided by the grid and
/// the request, and so is the cost of a path that reaches the goal.
pub proof fn lemma_answers_agree(
    grid: GridView,
    req: PathRequest,
    path1: Seq<GridPosition>,
    cost1: nat,
    status1: PathStatus,
    path2: Seq<GridPosition>,
    cost2: nat,
    status2: PathStatus,
)
    requires
        answers(grid, req, path1, cost1, status1),
        answers(grid, req, path2, cost2, status2),
    ensures
        status1 == status2,
        status1 == PathStatus::Reached ==> cost1 == cost2,
{
    let s = req.scene(grid);
    if status1 == PathStatus::BudgetExceeded {
        let full = choose|full: Seq<GridPosition>|
            #[trigger] s.cheapest(full, req.start, req.goal) && s.cost(full) > req.budget && budget_cut(
                s,
                full,
                req.budget as nat,
                path1,
            );
        assert(s.connects(full, req.start, req.goal));
        if status2 == PathStatus::Reached {
            assert(s.connects(path2, req.start, req.goal));
        }
    }
    if status2 == PathStatus::BudgetExceeded {
        let full = choose|full: Seq<GridPosition>|
            #[trigger] s.cheapest(full, req.start, req.goal) && s.cost(full) > req.budget && budget_cut(
                s,
                full,
                req.budget as nat,
                path2,
            );
        assert(s.connects(full, req.start, req.goal));
        if status1 == PathStatus::Reached {
            assert(s.connects(path1, req.start, req.goal));
        }
    }
    if status1 == PathStatus::Reached {
        assert(s.connects(path1, req.start, req.goal));
    }
    if status2 == PathStatus::Reached {
        assert(s.connects(path2, req.start, req.goal));
    }
}

} // verus!
