//! Line of sight: which cells stand between two cells, and whether they
//! stop sight.
//!
//! The sightline is the straight segment between the two cell centres.
//! Every cell whose interior the segment enters counts, whichever way the
//! segment runs; where the segment passes exactly through a corner shared
//! by four cells, the two cells it only touches there stop sight only if
//! both of them do.

use crate::errors::{DndError, ErrorView};
use crate::grid::{GridMap, GridView, Terrain, MAX_GRID_SIDE};
use crate::scan::{at, in_rect, lemma_scan_rect, lemma_scan_rect_agree, scan_rect, scan_row};
use crate::types::GridPosition;
use vstd::prelude::*;

verus! {

/// When a cell's elevation stops sight.
#[derive(Debug, Clone, Copy, PartialEq, Eq, Hash, Structural)]
pub enum ElevationRule {
    /// Elevation never stops sight.
    Ignore,
    /// A cell stops sight when it rises `wall_height` or more above the
    /// higher of the two end cells.
    AboveEndpoints { wall_height: i32 },
    /// A cell stops sight when it rises `wall_height` or more above the
    /// cell that is looked from. This rule depends on the direction.
    AboveSource { wall_height: i32 },
}

impl ElevationRule {
    /// Whether the rule gives the same answer in both directions.
    pub open spec fn is_symmetric(self) -> bool {
        !(self is AboveSource)
    }
}

/// What a sight query found.
#[derive(Debug)]
pub struct LosResult {
    pub visible: bool,
    /// The cells that stop sight, in row-major order; empty when visible.
    pub blocking_cells: Vec<GridPosition>,
}

/// On which side of the sightline the point (`x2`/2, `y2`/2) lies, with
/// cell `c` spanning `c.x .. c.x + 1`: positive on one side, negative on
/// the other, zero on the line.
pub open spec fn side(from: GridPosition, to: GridPosition, x2: int, y2: int) -> int {
    (to.x - from.x) * (y2 - (2 * from.y + 1)) - (to.y - from.y) * (x2 - (2 * from.x + 1))
}

/// The side of the corner of `c` that is `i` cells east and `j` cells
/// south of its north-west corner.
pub open spec fn corner(from: GridPosition, to: GridPosition, c: GridPosition, i: int, j: int) -> int {
    side(from, to, 2 * c.x + 2 * i, 2 * c.y + 2 * j)
}

/// Whether the line enters the interior of `c`: it has corners of `c`
/// strictly on both sides.
pub open spec fn crossed(from: GridPosition, to: GridPosition, c: GridPosition) -> bool {
    let nw = corner(from, to, c, 0, 0);
    let ne = corner(from, to, c, 1, 0);
    let sw = corner(from, to, c, 0, 1);
    let se = corner(from, to, c, 1, 1);
    (nw > 0 || ne > 0 || sw > 0 || se > 0) && (nw < 0 || ne < 0 || sw < 0 || se < 0)
}

/// Whether the line touches `c` at a corner without entering it.
pub open spec fn grazed(from: GridPosition, to: GridPosition, c: GridPosition) -> bool {
    let nw = corner(from, to, c, 0, 0);
    let ne = corner(from, to, c, 1, 0);
    let sw = corner(from, to, c, 0, 1);
    let se = corner(from, to, c, 1, 1);
    !crossed(from, to, c) && (nw == 0 || ne == 0 || sw == 0 || se == 0)
}

/// The cell diagonally across the corner at which the line touches `c`.
pub open spec fn partner(from: GridPosition, to: GridPosition, c: GridPosition) -> GridPosition {
    if corner(from, to, c, 0, 0) == 0 {
        at(c.x - 1, c.y - 1)
    } else if corner(from, to, c, 1, 0) == 0 {
        at(c.x + 1, c.y - 1)
    } else if corner(from, to, c, 0, 1) == 0 {
        at(c.x - 1, c.y + 1)
    } else {
        at(c.x + 1, c.y + 1)
    }
}

/// Whether the cell `c` is of a kind that stops sight from `from` to `to`:
/// Blocking terrain, or high enough under the elevation rule.
pub open spec fn obstructs(grid: GridView, rule: ElevationRule, from: GridPosition, to: GridPosition, c: GridPosition) -> bool {
    ||| grid.cell(c).terrain == Terrain::Blocking
    ||| match rule {
        ElevationRule::Ignore => false,
        ElevationRule::AboveEndpoints { wall_height } => {
            let base = if grid.cell(from).level() >= grid.cell(to).level() {
                grid.cell(from).level()
            } else {
                grid.cell(to).level()
            };
            grid.cell(c).level() >= base + wall_height
        },
        ElevationRule::AboveSource { wall_height } => grid.cell(c).level() >= grid.cell(from).level()
            + wall_height,
    }
}

/// Whether `c` lies in the rectangle of cells spanned by the two ends.
pub open spec fn in_span(from: GridPosition, to: GridPosition, c: GridPosition) -> bool {
    &&& lower(from.x as int, to.x as int) <= c.x <= upper(from.x as int, to.x as int)
    &&& lower(from.y as int, to.y as int) <= c.y <= upper(from.y as int, to.y as int)
}

/// Whether the cell `c`, one of the cells between `from` and `to`, stops
/// sight: the line enters it and it obstructs, or the line touches it at a
/// corner and both it and the cell across that corner, which lies between
/// the ends too, obstruct. The end cells never stop sight.
pub open spec fn blocks(grid: GridView, rule: ElevationRule, from: GridPosition, to: GridPosition, c: GridPosition) -> bool {
    &&& c != from
    &&& c != to
    &&& obstructs(grid, rule, from, to, c)
    &&& crossed(from, to, c) || (grazed(from, to, c) && in_span(from, to, partner(from, to, c)) && obstructs(
        grid,
        rule,
        from,
        to,
        partner(from, to, c),
    ))
}

/// The smaller of two coordinates.
pub open spec fn lower(a: int, b: int) -> int {
    if a <= b {
        a
    } else {
        b
    }
}

/// The larger of two coordinates.
pub open spec fn upper(a: int, b: int) -> int {
    if a >= b {
        a
    } else {
        b
    }
}

/// The cells that stop sight between `from` and `to`, in row-major order.
pub open spec fn blockers(grid: GridView, rule: ElevationRule, from: GridPosition, to: GridPosition) -> Seq<
    GridPosition,
> {
    scan_rect(
        |c: GridPosition| blocks(grid, rule, from, to, c),
        lower(from.x as int, to.x as int),
        upper(from.x as int, to.x as int) + 1,
        lower(from.y as int, to.y as int),
        upper(from.y as int, to.y as int) + 1,
    )
}

/// Moving a point moves its side value in proportion.
pub proof fn lemma_side_shift(from: GridPosition, to: GridPosition, x2: int, y2: int, a: int, b: int)
    by (nonlinear_arith)
    ensures
        side(from, to, x2 + a, y2 + b) == side(from, to, x2, y2) + (to.x - from.x) * b - (to.y - from.y) * a,
{
}

proof fn lemma_twice(k: int)
    by (nonlinear_arith)
    ensures
        k * 2 == 2 * k,
        k * -2 == -2 * k,
        k * 0 == 0,
{
}

proof fn lemma_zero_product(a: int, b: int)
    by (nonlinear_arith)
    requires
        a * b == 0,
        b != 0,
    ensures
        a == 0,
{
}

/// The four corner sides of a cell in terms of the north-west one.
proof fn lemma_corners(from: GridPosition, to: GridPosition, c: GridPosition)
    ensures
        corner(from, to, c, 1, 0) == corner(from, to, c, 0, 0) - 2 * (to.y - from.y),
        corner(from, to, c, 0, 1) == corner(from, to, c, 0, 0) + 2 * (to.x - from.x),
        corner(from, to, c, 1, 1) == corner(from, to, c, 0, 0) + 2 * (to.x - from.x) - 2 * (to.y - from.y),
{
    let dx = to.x - from.x;
    let dy = to.y - from.y;
    lemma_twice(dx);
    lemma_twice(dy);
    lemma_side_shift(from, to, 2 * c.x, 2 * c.y, 2, 0);
    lemma_side_shift(from, to, 2 * c.x, 2 * c.y, 0, 2);
    lemma_side_shift(from, to, 2 * c.x, 2 * c.y, 2, 2);
}

/// The north-west corner side of the cell `i` columns and `j` rows from `c`.
proof fn lemma_corner_of_neighbor(from: GridPosition, to: GridPosition, c: GridPosition, d: GridPosition, i: int, j: int)
    requires
        d.x == c.x + i,
        d.y == c.y + j,
        -1 <= i <= 1,
        -1 <= j <= 1,
    ensures
        corner(from, to, d, 0, 0) == corner(from, to, c, 0, 0) + 2 * j * (to.x - from.x) - 2 * i * (to.y - from.y),
{
    let dx = to.x - from.x;
    let dy = to.y - from.y;
    lemma_twice(dx);
    lemma_twice(dy);
    lemma_side_shift(from, to, 2 * c.x, 2 * c.y, 2 * i, 2 * j);
}

/// The line enters both of its end cells, unless they are one cell.
pub proof fn lemma_ends_crossed(from: GridPosition, to: GridPosition)
    requires
        from != to,
    ensures
        crossed(from, to, from),
        crossed(from, to, to),
{
    let dx = to.x - from.x;
    let dy = to.y - from.y;
    assert(side(from, to, 2 * from.x, 2 * from.y) == dy - dx) by (nonlinear_arith)
        requires
            dx == to.x - from.x,
            dy == to.y - from.y,
    ;
    lemma_corners(from, to, from);
    assert(crossed(from, to, from));
    assert(side(to, from, 2 * to.x, 2 * to.y) == dx - dy) by (nonlinear_arith)
        requires
            dx == to.x - from.x,
            dy == to.y - from.y,
    ;
    lemma_corners(to, from, to);
    assert(crossed(to, from, to));
    lemma_crossing_symmetric(from, to, to);
}

/// Cells that the line only touches come in pairs: the cell across the
/// touched corner is touched there too, from the other side, and is no
/// end cell.
pub proof fn lemma_grazed_pair(from: GridPosition, to: GridPosition, c: GridPosition)
    requires
        from != to,
        grazed(from, to, c),
        -0x4000_0000 < c.x < 0x4000_0000,
        -0x4000_0000 < c.y < 0x4000_0000,
    ensures
        grazed(from, to, partner(from, to, c)),
        partner(from, to, partner(from, to, c)) == c,
        partner(from, to, c) != from,
        partner(from, to, c) != to,
{
    let dx = to.x - from.x;
    let dy = to.y - from.y;
    let d = partner(from, to, c);
    lemma_corners(from, to, c);
    lemma_corners(from, to, d);
    lemma_corner_of_neighbor(from, to, c, d, d.x - c.x, d.y - c.y);
    let nw = corner(from, to, c, 0, 0);
    assert(dx != 0 || dy != 0);
    if dy == 0 {
        assert(nw == dx * (2 * c.y - (2 * from.y + 1)) - dy * (2 * c.x - (2 * from.x + 1)));
        lemma_twice(dy);
        assert(dy * (2 * c.x - (2 * from.x + 1)) == 0) by (nonlinear_arith)
            requires
                dy == 0,
        ;
        if nw == 0 {
            lemma_zero_product(dx, 2 * c.y - (2 * from.y + 1));
        }
        assert(corner(from, to, c, 0, 1) == dx * (2 * c.y + 2 - (2 * from.y + 1)) - dy * (2 * c.x - (2 * from.x + 1)));
        if corner(from, to, c, 0, 1) == 0 {
            lemma_zero_product(dx, 2 * c.y + 2 - (2 * from.y + 1));
        }
        assert(false);
    }
    if dx == 0 {
        assert(dx * (2 * c.y - (2 * from.y + 1)) == 0) by (nonlinear_arith)
            requires
                dx == 0,
        ;
        if nw == 0 {
            lemma_zero_product(dy, 2 * c.x - (2 * from.x + 1));
        }
        assert(dx * (2 * c.y + 0 - (2 * from.y + 1)) == 0) by (nonlinear_arith)
            requires
                dx == 0,
        ;
        assert(corner(from, to, c, 1, 0) == dx * (2 * c.y + 0 - (2 * from.y + 1)) - dy * (2 * c.x + 2 - (2 * from.x
            + 1)));
        if corner(from, to, c, 1, 0) == 0 {
            lemma_zero_product(dy, 2 * c.x + 2 - (2 * from.x + 1));
        }
        assert(false);
    }
    lemma_ends_crossed(from, to);
}

/// Where sight is stopped at a corner, both cells at that corner are
/// listed: a listed cell that the line only touches has its partner
/// listed too.
pub proof fn lemma_corner_cells_listed(
    grid: GridView,
    rule: ElevationRule,
    from: GridPosition,
    to: GridPosition,
    c: GridPosition,
)
    requires
        blockers(grid, rule, from, to).contains(c),
        !crossed(from, to, c),
        -0x4000_0000 < from.x < 0x4000_0000,
        -0x4000_0000 < from.y < 0x4000_0000,
        -0x4000_0000 < to.x < 0x4000_0000,
        -0x4000_0000 < to.y < 0x4000_0000,
    ensures
        blockers(grid, rule, from, to).contains(partner(from, to, c)),
{
    let pred = |c: GridPosition| blocks(grid, rule, from, to, c);
    let x0 = lower(from.x as int, to.x as int);
    let x1 = upper(from.x as int, to.x as int) + 1;
    let y0 = lower(from.y as int, to.y as int);
    let y1 = upper(from.y as int, to.y as int) + 1;
    lemma_scan_rect(pred, x0, x1, y0, y1);
    assert(pred(c));
    assert(from != to);
    lemma_grazed_pair(from, to, c);
    let d = partner(from, to, c);
    assert(pred(d));
    assert(in_rect(d, x0, x1, y0, y1));
}

/// Swapping the ends of the sightline swaps its two sides.
pub proof fn lemma_side_swaps(from: GridPosition, to: GridPosition, x2: int, y2: int)
    by (nonlinear_arith)
    ensures
        side(to, from, x2, y2) == -side(from, to, x2, y2),
{
}

/// Which cells the line enters or touches does not depend on its direction.
pub proof fn lemma_crossing_symmetric(from: GridPosition, to: GridPosition, c: GridPosition)
    ensures
        crossed(to, from, c) == crossed(from, to, c),
        grazed(to, from, c) == grazed(from, to, c),
        partner(to, from, c) == partner(from, to, c),
{
    lemma_side_swaps(from, to, 2 * c.x + 0, 2 * c.y + 0);
    lemma_side_swaps(from, to, 2 * c.x + 2, 2 * c.y + 0);
    lemma_side_swaps(from, to, 2 * c.x + 0, 2 * c.y + 2);
    lemma_side_swaps(from, to, 2 * c.x + 2, 2 * c.y + 2);
}

/// Sight is symmetric: under an elevation rule that does not depend on the
/// direction, the same cells stop sight from `a` to `b` as from `b` to
/// `a`, so that both queries give the same result.
pub proof fn lemma_los_symmetric(grid: GridView, rule: ElevationRule, a: GridPosition, b: GridPosition)
    requires
        rule.is_symmetric(),
    ensures
        blockers(grid, rule, a, b) == blockers(grid, rule, b, a),
{
    let p = |c: GridPosition| blocks(grid, rule, a, b, c);
    let q = |c: GridPosition| blocks(grid, rule, b, a, c);
    let x0 = lower(a.x as int, b.x as int);
    let x1 = upper(a.x as int, b.x as int) + 1;
    let y0 = lower(a.y as int, b.y as int);
    let y1 = upper(a.y as int, b.y as int) + 1;
    assert forall|x: int, y: int| x0 <= x < x1 && y0 <= y < y1 implies p(#[trigger] at(x, y)) == q(at(x, y)) by {
        let c = at(x, y);
        lemma_crossing_symmetric(a, b, c);
        let d = partner(a, b, c);
        assert(obstructs(grid, rule, a, b, c) == obstructs(grid, rule, b, a, c));
        assert(obstructs(grid, rule, a, b, d) == obstructs(grid, rule, b, a, d));
    }
    lemma_scan_rect_agree(p, q, x0, x1, y0, y1);
}

/// The product of two small numbers.
fn times(a: i64, b: i64) -> (r: i64)
    requires
        -0x8000 <= a <= 0x8000,
        -0x8000 <= b <= 0x8000,
    ensures
        r == a * b,
        -0x4000_0000 <= r <= 0x4000_0000,
{
    assert(-0x4000_0000 <= a * b <= 0x4000_0000) by (nonlinear_arith)
        requires
            -0x8000 <= a <= 0x8000,
            -0x8000 <= b <= 0x8000,
    ;
    a * b
}

/// On which side of the sightline a cell corner lies.
fn corner_side(from: GridPosition, to: GridPosition, c: GridPosition, i: i64, j: i64) -> (r: i64)
    requires
        0 <= from.x < MAX_GRID_SIDE,
        0 <= from.y < MAX_GRID_SIDE,
        0 <= to.x < MAX_GRID_SIDE,
        0 <= to.y < MAX_GRID_SIDE,
        0 <= c.x < MAX_GRID_SIDE,
        0 <= c.y < MAX_GRID_SIDE,
        0 <= i <= 1,
        0 <= j <= 1,
    ensures
        r == corner(from, to, c, i as int, j as int),
{
    let dx: i64 = to.x as i64 - from.x as i64;
    let dy: i64 = to.y as i64 - from.y as i64;
    let px: i64 = 2 * (c.x as i64) + 2 * i - (2 * (from.x as i64) + 1);
    let py: i64 = 2 * (c.y as i64) + 2 * j - (2 * (from.y as i64) + 1);
    times(dx, py) - times(dy, px)
}

/// Whether a cell is of a kind that stops sight.
fn is_obstructing(grid: &GridMap, rule: ElevationRule, from: GridPosition, to: GridPosition, c: GridPosition) -> (b:
    bool)
    requires
        grid.wf(),
        grid@.in_bounds(from),
        grid@.in_bounds(to),
        grid@.in_bounds(c),
    ensures
        b == obstructs(grid@, rule, from, to, c),
{
    let cell = grid.cell(c);
    if cell.terrain == Terrain::Blocking {
        return true;
    }
    let level: i64 = cell.level_of() as i64;
    match rule {
        ElevationRule::Ignore => false,
        ElevationRule::AboveEndpoints { wall_height } => {
            let a: i64 = grid.cell(from).level_of() as i64;
            let z: i64 = grid.cell(to).level_of() as i64;
            let base: i64 = if a >= z {
                a
            } else {
                z
            };
            level >= base + wall_height as i64
        },
        ElevationRule::AboveSource { wall_height } => {
            let a: i64 = grid.cell(from).level_of() as i64;
            level >= a + wall_height as i64
        },
    }
}

/// Whether one cell between the two ends stops sight.
fn is_blocking_sight(grid: &GridMap, rule: ElevationRule, from: GridPosition, to: GridPosition, c: GridPosition) -> (b:
    bool)
    requires
        grid.wf(),
        grid@.in_bounds(from),
        grid@.in_bounds(to),
        grid@.in_bounds(c),
    ensures
        b == blocks(grid@, rule, from, to, c),
{
    if (c.x == from.x && c.y == from.y) || (c.x == to.x && c.y == to.y) {
        return false;
    }
    if !is_obstructing(grid, rule, from, to, c) {
        return false;
    }
    let nw: i64 = corner_side(from, to, c, 0, 0);
    let ne: i64 = corner_side(from, to, c, 1, 0);
    let sw: i64 = corner_side(from, to, c, 0, 1);
    let se: i64 = corner_side(from, to, c, 1, 1);
    let above: bool = nw > 0 || ne > 0 || sw > 0 || se > 0;
    let below: bool = nw < 0 || ne < 0 || sw < 0 || se < 0;
    if above && below {
        return true;
    }
    if !(nw == 0 || ne == 0 || sw == 0 || se == 0) {
        return false;
    }
    let d = if nw == 0 {
        GridPosition { x: c.x - 1, y: c.y - 1 }
    } else if ne == 0 {
        GridPosition { x: c.x + 1, y: c.y - 1 }
    } else if sw == 0 {
        GridPosition { x: c.x - 1, y: c.y + 1 }
    } else {
        GridPosition { x: c.x + 1, y: c.y + 1 }
    };
    assert(d == partner(from, to, c));
    let x0: i32 = if from.x <= to.x {
        from.x
    } else {
        to.x
    };
    let x1: i32 = if from.x >= to.x {
        from.x
    } else {
        to.x
    };
    let y0: i32 = if from.y <= to.y {
        from.y
    } else {
        to.y
    };
    let y1: i32 = if from.y >= to.y {
        from.y
    } else {
        to.y
    };
    x0 <= d.x && d.x <= x1 && y0 <= d.y && d.y <= y1 && is_obstructing(grid, rule, from, to, d)
}

/// Determines whether `to` can be seen from `from`, and lists the cells
/// that stop sight. Fails with `InvalidPosition` when `from` or, failing
/// that, `to` is off the grid.
pub fn compute_los(grid: &GridMap, from: GridPosition, to: GridPosition, rule: ElevationRule) -> (r: Result<
    LosResult,
    DndError,
>)
    requires
        grid.wf(),
    ensures
        match r {
            Ok(res) => {
                &&& grid@.in_bounds(from)
                &&& grid@.in_bounds(to)
                &&& res.blocking_cells@ == blockers(grid@, rule, from, to)
                &&& res.visible == (blockers(grid@, rule, from, to).len() == 0)
            },
            Err(e) => {
                ||| !grid@.in_bounds(from) && e@ == (ErrorView::InvalidPosition { x: from.x as int, y: from.y as int })
                ||| grid@.in_bounds(from) && !grid@.in_bounds(to) && e@ == (ErrorView::InvalidPosition {
                    x: to.x as int,
                    y: to.y as int,
                })
            },
        },
{
    if !grid.contains(from) {
        return Err(DndError::InvalidPosition { x: from.x, y: from.y });
    }
    if !grid.contains(to) {
        return Err(DndError::InvalidPosition { x: to.x, y: to.y });
    }
    let x0: i32 = if from.x <= to.x {
        from.x
    } else {
        to.x
    };
    let x1: i32 = if from.x >= to.x {
        from.x
    } else {
        to.x
    };
    let y0: i32 = if from.y <= to.y {
        from.y
    } else {
        to.y
    };
    let y1: i32 = if from.y >= to.y {
        from.y
    } else {
        to.y
    };
    let ghost pred = |c: GridPosition| blocks(grid@, rule, from, to, c);
    let mut found: Vec<GridPosition> = Vec::new();
    let mut y: i32 = y0;
    while y <= y1
        invariant
            grid.wf(),
            grid@.in_bounds(from),
            grid@.in_bounds(to),
            pred == |c: GridPosition| blocks(grid@, rule, from, to, c),
            0 <= x0 <= x1 < grid@.width,
            0 <= y0 <= y <= y1 + 1,
            y1 < grid@.height,
            found@ == scan_rect(pred, x0 as int, x1 + 1, y0 as int, y as int),
        decreases y1 + 1 - y,
    {
        let ghost above = found@;
        let mut x: i32 = x0;
        while x <= x1
            invariant
                grid.wf(),
                grid@.in_bounds(from),
                grid@.in_bounds(to),
                pred == |c: GridPosition| blocks(grid@, rule, from, to, c),
                0 <= x0 <= x <= x1 + 1,
                x1 < grid@.width,
                0 <= y0 <= y <= y1 < grid@.height,
                found@ == above + scan_row(pred, y as int, x0 as int, x as int),
            decreases x1 + 1 - x,
        {
            let c = GridPosition { x, y };
            assert(c == at(x as int, y as int));
            let ghost row = scan_row(pred, y as int, x0 as int, x as int);
            if is_blocking_sight(grid, rule, from, to, c) {
                found.push(c);
                assert(found@ =~= above + row.push(c));
            }
            x = x + 1;
        }
        y = y + 1;
    }
    let visible: bool = found.len() == 0;
    Ok(LosResult { visible, blocking_cells: found })
}

} // verus!
