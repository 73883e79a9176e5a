//! The rules of movement: which steps a mover may take, what they cost, and
//! what that makes of a walk across the grid.

use crate::grid::{covered, GridView, Terrain};
use crate::types::{gap, EntityId, GridPosition, SizeCategory};
use vstd::prelude::*;

verus! {

/// How diagonal steps are treated.
#[derive(Debug, Clone, Copy, PartialEq, Eq, Hash, Structural)]
pub enum DiagonalRule {
    /// No diagonal steps: the grid is 4-connected.
    Disabled,
    /// A diagonal step costs what an orthogonal step costs.
    Equal,
    /// Diagonal steps cost 1, 2, 1, 2, ... along a path.
    Variant5e,
}

/// Who is moving: the occupant that does not stand in its own way, and the
/// footprint that has to fit at every step.
#[derive(Debug, Clone, Copy)]
pub struct Mover {
    pub id: EntityId,
    pub size: SizeCategory,
}

/// A grid seen by one mover under one diagonal rule.
pub struct Scene {
    pub grid: GridView,
    pub mover: Mover,
    pub rule: DiagonalRule,
}

/// Whether a step from `a` to `b` changes both coordinates.
pub open spec fn diagonal(a: GridPosition, b: GridPosition) -> bool {
    a.x != b.x && a.y != b.y
}

impl Scene {
    /// Whether the mover can stand with its anchor at `p`: its footprint
    /// lies on the grid and holds no Blocking cell and nobody else.
    pub open spec fn free(self, p: GridPosition) -> bool {
        self.grid.standable(p, self.mover.size, self.mover.id)
    }

    /// Whether standing at `p` puts the mover on Difficult terrain.
    pub open spec fn rough(self, p: GridPosition) -> bool {
        self.grid.rough(p, self.mover.size)
    }

    /// Whether `b` is one step from `a` under the diagonal rule.
    pub open spec fn adjacent(self, a: GridPosition, b: GridPosition) -> bool {
        let dx = gap(a.x as int, b.x as int);
        let dy = gap(a.y as int, b.y as int);
        &&& dx <= 1
        &&& dy <= 1
        &&& dx + dy >= 1
        &&& self.rule == DiagonalRule::Disabled ==> dx + dy == 1
    }

    /// The cost of stepping from `a` onto `b` after `parity` diagonal steps
    /// (counted modulo two): one unit, two for every second diagonal under
    /// `Variant5e`, and double that onto Difficult terrain.
    pub open spec fn step_cost(self, parity: int, a: GridPosition, b: GridPosition) -> nat {
        let base: nat = if diagonal(a, b) && self.rule == DiagonalRule::Variant5e && parity == 1 {
            2
        } else {
            1
        };
        if self.rough(b) {
            2 * base
        } else {
            base
        }
    }

    /// The diagonal count modulo two after stepping from `a` onto `b`. Only
    /// `Variant5e` keeps count.
    pub open spec fn step_parity(self, parity: int, a: GridPosition, b: GridPosition) -> int {
        if diagonal(a, b) && self.rule == DiagonalRule::Variant5e {
            1 - parity
        } else {
            parity
        }
    }

    /// A walk: at least one cell, the mover can stand on each, and each
    /// follows the one before by a single step.
    pub open spec fn valid_walk(self, w: Seq<GridPosition>) -> bool {
        &&& w.len() >= 1
        &&& forall|i: int| 0 <= i < w.len() ==> self.free(#[trigger] w[i])
        &&& forall|i: int| 0 <= i < w.len() - 1 ==> self.adjacent(#[trigger] w[i], w[i + 1])
    }

    /// A walk from `a` to `b`.
    pub open spec fn connects(self, w: Seq<GridPosition>, a: GridPosition, b: GridPosition) -> bool {
        self.valid_walk(w) && w[0] == a && w[w.len() - 1] == b
    }

    /// The diagonal count modulo two at the end of `w`, having started at `parity`.
    pub open spec fn walk_parity(self, parity: int, w: Seq<GridPosition>) -> int
        decreases w.len(),
    {
        if w.len() <= 1 {
            parity
        } else {
            self.step_parity(self.walk_parity(parity, w.drop_last()), w[w.len() - 2], w[w.len() - 1])
        }
    }

    /// The cost of `w`, having started at `parity`: the sum of its steps' costs.
    pub open spec fn walk_cost(self, parity: int, w: Seq<GridPosition>) -> nat
        decreases w.len(),
    {
        if w.len() <= 1 {
            0
        } else {
            self.walk_cost(parity, w.drop_last()) + self.step_cost(
                self.walk_parity(parity, w.drop_last()),
                w[w.len() - 2],
                w[w.len() - 1],
            )
        }
    }

    /// The cost of a whole path: a walk that starts with no diagonal taken.
    pub open spec fn cost(self, w: Seq<GridPosition>) -> nat {
        self.walk_cost(0, w)
    }

    /// `w` is a cheapest walk from `a` to `b`.
    pub open spec fn cheapest(self, w: Seq<GridPosition>, a: GridPosition, b: GridPosition) -> bool {
        &&& self.connects(w, a, b)
        &&& forall|o: Seq<GridPosition>| #[trigger] self.connects(o, a, b) ==> self.cost(w) <= self.cost(o)
    }

    /// `c` is the cost of the cheapest walk from `a` to `b`.
    pub open spec fn is_min_cost(self, a: GridPosition, b: GridPosition, c: nat) -> bool {
        exists|w: Seq<GridPosition>| #[trigger] self.cheapest(w, a, b) && self.cost(w) == c
    }

    /// A lower bound on the cost of any walk from `p` to `goal` that starts
    /// at `parity`: what the walk would cost on open ground.
    pub open spec fn heuristic(self, parity: int, p: GridPosition, goal: GridPosition) -> nat {
        let dx = gap(p.x as int, goal.x as int);
        let dy = gap(p.y as int, goal.y as int);
        let hi = if dx >= dy {
            dx
        } else {
            dy
        };
        let lo = if dx >= dy {
            dy
        } else {
            dx
        };
        match self.rule {
            DiagonalRule::Disabled => dx + dy,
            DiagonalRule::Equal => hi,
            DiagonalRule::Variant5e => (hi + (lo + parity) / 2) as nat,
        }
    }
}

/// A walk is walkable: each of its cells follows the one before by a
/// single step, diagonal only where the rule allows, and no cell under
/// the mover anywhere along it is off the grid, Blocking, or taken by
/// somebody else.
pub proof fn lemma_walk_is_walkable(s: Scene, w: Seq<GridPosition>, i: int, c: GridPosition)
    requires
        s.valid_walk(w),
        0 <= i < w.len(),
        covered(w[i], s.mover.size, c),
    ensures
        s.grid.in_bounds(c),
        s.grid.cell(c).terrain != Terrain::Blocking,
        s.grid.cell(c).occupant is None || s.grid.cell(c).occupant == Some(s.mover.id),
        i + 1 < w.len() ==> w[i].chebyshev(w[i + 1]) == 1,
        i + 1 < w.len() && s.rule == DiagonalRule::Disabled ==> !diagonal(w[i], w[i + 1]),
{
    assert(s.free(w[i]));
    if i + 1 < w.len() {
        assert(s.adjacent(w[i], w[i + 1]));
    }
}

/// The heuristic is consistent: one step lowers it by no more than the step costs.
pub proof fn lemma_heuristic_consistent(s: Scene, parity: int, a: GridPosition, b: GridPosition, goal: GridPosition)
    requires
        0 <= parity <= 1,
        s.adjacent(a, b),
    ensures
        s.heuristic(parity, a, goal) <= s.step_cost(parity, a, b) + s.heuristic(s.step_parity(parity, a, b), b, goal),
{
}

/// The diagonal count modulo two stays zero or one.
pub proof fn lemma_walk_parity_range(s: Scene, parity: int, w: Seq<GridPosition>)
    requires
        0 <= parity <= 1,
    ensures
        0 <= s.walk_parity(parity, w) <= 1,
        s.rule != DiagonalRule::Variant5e ==> s.walk_parity(parity, w) == parity,
    decreases w.len(),
{
    if w.len() > 1 {
        lemma_walk_parity_range(s, parity, w.drop_last());
    }
}

/// Extending a walk by one legal step gives a walk, whose cost and parity
/// are those of the walk plus those of the step.
pub proof fn lemma_walk_push(s: Scene, parity: int, w: Seq<GridPosition>, q: GridPosition)
    requires
        w.len() >= 1,
    ensures
        s.walk_cost(parity, w.push(q)) == s.walk_cost(parity, w) + s.step_cost(
            s.walk_parity(parity, w),
            w[w.len() - 1],
            q,
        ),
        s.walk_parity(parity, w.push(q)) == s.step_parity(s.walk_parity(parity, w), w[w.len() - 1], q),
        s.valid_walk(w) && s.adjacent(w[w.len() - 1], q) && s.free(q) ==> s.valid_walk(w.push(q)),
{
    let e = w.push(q);
    assert(e.drop_last() =~= w);
    if s.valid_walk(w) && s.adjacent(w[w.len() - 1], q) && s.free(q) {
        assert forall|i: int| 0 <= i < e.len() - 1 implies s.adjacent(#[trigger] e[i], e[i + 1]) by {
            if i < w.len() - 1 {
                assert(s.adjacent(w[i], w[i + 1]));
            }
        }
    }
}

/// A leading part of a walk is a walk, and one more cell adds one step's cost.
pub proof fn lemma_walk_prefix(s: Scene, parity: int, w: Seq<GridPosition>, k: int)
    requires
        s.valid_walk(w),
        1 <= k <= w.len(),
    ensures
        s.valid_walk(w.subrange(0, k)),
        k < w.len() ==> s.walk_cost(parity, w.subrange(0, k + 1)) == s.walk_cost(parity, w.subrange(0, k))
            + s.step_cost(s.walk_parity(parity, w.subrange(0, k)), w[k - 1], w[k]),
        k < w.len() ==> s.walk_parity(parity, w.subrange(0, k + 1)) == s.step_parity(
            s.walk_parity(parity, w.subrange(0, k)),
            w[k - 1],
            w[k],
        ),
{
    let p = w.subrange(0, k);
    assert forall|i: int| 0 <= i < p.len() implies s.free(#[trigger] p[i]) by {
        assert(s.free(w[i]));
    }
    assert forall|i: int| 0 <= i < p.len() - 1 implies s.adjacent(#[trigger] p[i], p[i + 1]) by {
        assert(s.adjacent(w[i], w[i + 1]));
    }
    if k < w.len() {
        assert(w.subrange(0, k + 1).drop_last() =~= p);
    }
}

/// The heuristic never overestimates: every walk from `w[0]` to `goal`
/// costs at least what the heuristic says of its first cell.
pub proof fn lemma_heuristic_admissible(s: Scene, parity: int, w: Seq<GridPosition>, goal: GridPosition)
    requires
        0 <= parity <= 1,
        s.valid_walk(w),
    ensures
        s.heuristic(parity, w[0], goal) <= s.walk_cost(parity, w) + s.heuristic(
            s.walk_parity(parity, w),
            w[w.len() - 1],
            goal,
        ),
        w[w.len() - 1] == goal ==> s.heuristic(parity, w[0], goal) <= s.walk_cost(parity, w),
    decreases w.len(),
{
    if w.len() > 1 {
        let p = w.drop_last();
        assert(p =~= w.subrange(0, w.len() - 1));
        lemma_walk_prefix(s, parity, w, w.len() - 1);
        lemma_heuristic_admissible(s, parity, p, goal);
        lemma_walk_parity_range(s, parity, p);
        assert(s.adjacent(w[w.len() - 2], w[w.len() - 2 + 1]));
        lemma_heuristic_consistent(s, s.walk_parity(parity, p), w[w.len() - 2], w[w.len() - 1], goal);
    }
}

/// Joining a walk that ends at `b` with one that starts there gives a walk,
/// whose cost is the first's plus the second's taken from the parity that
/// the first ends on.
pub proof fn lemma_walk_join(s: Scene, parity: int, first: Seq<GridPosition>, second: Seq<GridPosition>)
    requires
        s.valid_walk(first),
        s.valid_walk(second),
        first[first.len() - 1] == second[0],
    ensures
        s.valid_walk(first + second.drop_first()),
        (first + second.drop_first())[0] == first[0],
        (first + second.drop_first()).last() == second.last(),
        s.walk_cost(parity, first + second.drop_first()) == s.walk_cost(parity, first) + s.walk_cost(
            s.walk_parity(parity, first),
            second,
        ),
        s.walk_parity(parity, first + second.drop_first()) == s.walk_parity(
            s.walk_parity(parity, first),
            second,
        ),
    decreases second.len(),
{
    let joined = first + second.drop_first();
    if second.len() == 1 {
        assert(joined =~= first);
    } else {
        let shorter = second.drop_last();
        assert(shorter =~= second.subrange(0, second.len() - 1));
        lemma_walk_prefix(s, parity, second, second.len() - 1);
        lemma_walk_join(s, parity, first, shorter);
        let before = first + shorter.drop_first();
        assert(joined =~= before.push(second.last()));
        assert(before.last() == shorter.last());
        assert(s.adjacent(second[second.len() - 2], second[second.len() - 2 + 1]));
        assert(s.free(second[second.len() - 1]));
        lemma_walk_push(s, parity, before, second.last());
    }
}

/// Going by way of `b` is never cheaper than going straight, as long as
/// steps cost the same wherever they stand in a walk: for the rules that
/// keep no diagonal count, the cheapest cost from `a` to `c` is at most
/// the cheapest from `a` to `b` plus the cheapest from `b` to `c`.
pub proof fn lemma_triangle_inequality(
    s: Scene,
    a: GridPosition,
    b: GridPosition,
    c: GridPosition,
    ab: nat,
    bc: nat,
    ac: nat,
)
    requires
        s.rule != DiagonalRule::Variant5e,
        s.is_min_cost(a, b, ab),
        s.is_min_cost(b, c, bc),
        s.is_min_cost(a, c, ac),
    ensures
        ac <= ab + bc,
{
    let w1 = choose|w: Seq<GridPosition>| #[trigger] s.cheapest(w, a, b) && s.cost(w) == ab;
    let w2 = choose|w: Seq<GridPosition>| #[trigger] s.cheapest(w, b, c) && s.cost(w) == bc;
    let w3 = choose|w: Seq<GridPosition>| #[trigger] s.cheapest(w, a, c) && s.cost(w) == ac;
    lemma_walk_join(s, 0, w1, w2);
    lemma_walk_parity_range(s, 0, w1);
    assert(s.connects(w1 + w2.drop_first(), a, c));
}

/// The same under every rule, once the diagonal count is carried along:
/// a walk from `a` to `c` by way of `b` costs the first leg plus the
/// second leg taken from the parity on which the first ends, and no
/// cheapest walk from `a` to `c` costs more.
pub proof fn lemma_triangle_with_parity(
    s: Scene,
    first: Seq<GridPosition>,
    second: Seq<GridPosition>,
    direct: Seq<GridPosition>,
)
    requires
        s.valid_walk(first),
        s.valid_walk(second),
        first[first.len() - 1] == second[0],
        s.cheapest(direct, first[0], second[second.len() - 1]),
    ensures
        s.cost(direct) <= s.cost(first) + s.walk_cost(s.walk_parity(0, first), second),
{
    lemma_walk_join(s, 0, first, second);
    assert(s.connects(first + second.drop_first(), first[0], second[second.len() - 1]));
}

} // verus!
