//! Row-major selection of cells from a rectangle: the order in which the
//! engine lists cells, and what such a list contains.

use crate::types::GridPosition;
use vstd::prelude::*;

verus! {

/// The cell at column `x` of row `y`.
pub open spec fn at(x: int, y: int) -> GridPosition {
    GridPosition { x: x as i32, y: y as i32 }
}

/// Whether `a` comes before `b` when cells are read row by row.
pub open spec fn row_major_before(a: GridPosition, b: GridPosition) -> bool {
    a.y < b.y || (a.y == b.y && a.x < b.x)
}

/// The cells of row `y` in columns `x0 .. x1` that satisfy `pred`, west to east.
pub open spec fn scan_row(pred: spec_fn(GridPosition) -> bool, y: int, x0: int, x1: int) -> Seq<GridPosition>
    decreases x1 - x0,
{
    if x1 <= x0 {
        Seq::empty()
    } else {
        let rest = scan_row(pred, y, x0, x1 - 1);
        if pred(at(x1 - 1, y)) {
            rest.push(at(x1 - 1, y))
        } else {
            rest
        }
    }
}

/// The cells of the rectangle `x0 .. x1` by `y0 .. y1` that satisfy `pred`,
/// row by row from the north, each row west to east.
pub open spec fn scan_rect(pred: spec_fn(GridPosition) -> bool, x0: int, x1: int, y0: int, y1: int) -> Seq<
    GridPosition,
>
    decreases y1 - y0,
{
    if y1 <= y0 {
        Seq::empty()
    } else {
        scan_rect(pred, x0, x1, y0, y1 - 1) + scan_row(pred, y1 - 1, x0, x1)
    }
}

/// Whether the rectangle's coordinates are cell coordinates.
pub open spec fn rect_ok(x0: int, x1: int, y0: int, y1: int) -> bool {
    &&& -0x8000_0000 <= x0
    &&& x1 <= 0x8000_0000
    &&& -0x8000_0000 <= y0
    &&& y1 <= 0x8000_0000
}

/// Whether `p` lies in the rectangle.
pub open spec fn in_rect(p: GridPosition, x0: int, x1: int, y0: int, y1: int) -> bool {
    x0 <= p.x < x1 && y0 <= p.y < y1
}

/// A row scan holds exactly the cells of its stretch that satisfy the
/// predicate, in strictly increasing column order.
pub proof fn lemma_scan_row(pred: spec_fn(GridPosition) -> bool, y: int, x0: int, x1: int)
    requires
        rect_ok(x0, x1, y, y + 1),
    ensures
        forall|p: GridPosition| #[trigger]
            scan_row(pred, y, x0, x1).contains(p) <==> (in_rect(p, x0, x1, y, y + 1) && pred(p)),
        forall|i: int, j: int|
            0 <= i < j < scan_row(pred, y, x0, x1).len() ==> (#[trigger] scan_row(pred, y, x0, x1)[i]).x < (
            #[trigger] scan_row(pred, y, x0, x1)[j]).x,
    decreases x1 - x0,
{
    let row = scan_row(pred, y, x0, x1);
    if x1 <= x0 {
        assert forall|p: GridPosition| #[trigger] row.contains(p) <==> (in_rect(p, x0, x1, y, y + 1) && pred(p)) by {}
    } else {
        let rest = scan_row(pred, y, x0, x1 - 1);
        let last = at(x1 - 1, y);
        lemma_scan_row(pred, y, x0, x1 - 1);
        assert forall|p: GridPosition| #[trigger] row.contains(p) <==> (in_rect(p, x0, x1, y, y + 1) && pred(p)) by {
            if row.contains(p) {
                let i = choose|i: int| 0 <= i < row.len() && row[i] == p;
                if i < rest.len() {
                    assert(rest[i] == p);
                    assert(rest.contains(p));
                }
            }
            if in_rect(p, x0, x1, y, y + 1) && pred(p) {
                if p.x == x1 - 1 {
                    assert(p == last);
                    assert(row[row.len() - 1] == p);
                } else {
                    assert(rest.contains(p));
                    let i = choose|i: int| 0 <= i < rest.len() && rest[i] == p;
                    assert(row[i] == p);
                }
            }
        }
        assert forall|i: int, j: int| 0 <= i < j < row.len() implies (#[trigger] row[i]).x < (#[trigger] row[j]).x by {
            if j < rest.len() {
                assert(rest[i].x < rest[j].x);
            } else {
                assert(rest[i] == row[i]);
                assert(rest.contains(rest[i]));
            }
        }
    }
}

/// A rectangle scan holds exactly the cells of the rectangle that satisfy
/// the predicate, in strictly increasing row-major order.
pub proof fn lemma_scan_rect(pred: spec_fn(GridPosition) -> bool, x0: int, x1: int, y0: int, y1: int)
    requires
        rect_ok(x0, x1, y0, y1),
    ensures
        forall|p: GridPosition| #[trigger]
            scan_rect(pred, x0, x1, y0, y1).contains(p) <==> (in_rect(p, x0, x1, y0, y1) && pred(p)),
        forall|i: int, j: int|
            0 <= i < j < scan_rect(pred, x0, x1, y0, y1).len() ==> row_major_before(
                #[trigger] scan_rect(pred, x0, x1, y0, y1)[i],
                #[trigger] scan_rect(pred, x0, x1, y0, y1)[j],
            ),
    decreases y1 - y0,
{
    let all = scan_rect(pred, x0, x1, y0, y1);
    if y1 <= y0 {
        assert forall|p: GridPosition| #[trigger] all.contains(p) <==> (in_rect(p, x0, x1, y0, y1) && pred(p)) by {}
    } else {
        let above = scan_rect(pred, x0, x1, y0, y1 - 1);
        let row = scan_row(pred, y1 - 1, x0, x1);
        lemma_scan_rect(pred, x0, x1, y0, y1 - 1);
        lemma_scan_row(pred, y1 - 1, x0, x1);
        assert forall|p: GridPosition| #[trigger] all.contains(p) <==> (in_rect(p, x0, x1, y0, y1) && pred(p)) by {
            if all.contains(p) {
                let i = choose|i: int| 0 <= i < all.len() && all[i] == p;
                if i < above.len() {
                    assert(above[i] == p);
                    assert(above.contains(p));
                } else {
                    assert(row[i - above.len()] == p);
                    assert(row.contains(p));
                }
            }
            if in_rect(p, x0, x1, y0, y1) && pred(p) {
                if p.y == y1 - 1 {
                    assert(row.contains(p));
                    let i = choose|i: int| 0 <= i < row.len() && row[i] == p;
                    assert(all[above.len() + i] == p);
                } else {
                    assert(above.contains(p));
                    let i = choose|i: int| 0 <= i < above.len() && above[i] == p;
                    assert(all[i] == p);
                }
            }
        }
        assert forall|i: int, j: int| 0 <= i < j < all.len() implies row_major_before(
            #[trigger] all[i],
            #[trigger] all[j],
        ) by {
            if j < above.len() {
                assert(row_major_before(above[i], above[j]));
            } else if i < above.len() {
                assert(above.contains(above[i]));
                assert(row.contains(row[j - above.len()]));
            } else {
                assert(row.contains(row[i - above.len()]));
                assert(row.contains(row[j - above.len()]));
                assert(row[i - above.len()].x < row[j - above.len()].x);
            }
        }
    }
}

/// Two predicates that agree on a row stretch select the same cells from it.
pub proof fn lemma_scan_row_agree(
    p: spec_fn(GridPosition) -> bool,
    q: spec_fn(GridPosition) -> bool,
    y: int,
    x0: int,
    x1: int,
)
    requires
        forall|x: int| x0 <= x < x1 ==> p(#[trigger] at(x, y)) == q(at(x, y)),
    ensures
        scan_row(p, y, x0, x1) == scan_row(q, y, x0, x1),
    decreases x1 - x0,
{
    if x1 > x0 {
        lemma_scan_row_agree(p, q, y, x0, x1 - 1);
        assert(p(at(x1 - 1, y)) == q(at(x1 - 1, y)));
    }
}

/// Two predicates that agree on a rectangle select the same cells from it,
/// in the same order.
pub proof fn lemma_scan_rect_agree(
    p: spec_fn(GridPosition) -> bool,
    q: spec_fn(GridPosition) -> bool,
    x0: int,
    x1: int,
    y0: int,
    y1: int,
)
    requires
        forall|x: int, y: int| x0 <= x < x1 && y0 <= y < y1 ==> p(#[trigger] at(x, y)) == q(at(x, y)),
    ensures
        scan_rect(p, x0, x1, y0, y1) == scan_rect(q, x0, x1, y0, y1),
    decreases y1 - y0,
{
    if y1 > y0 {
        lemma_scan_rect_agree(p, q, x0, x1, y0, y1 - 1);
        lemma_scan_row_agree(p, q, y1 - 1, x0, x1);
    }
}

} // verus!
