//! The battle grid: a fixed rectangle of cells with terrain, elevation and
//! occupants.

use crate::errors::{DndError, ErrorView};
use crate::types::{EntityId, GridPosition, SizeCategory, uuid_text};
use vstd::prelude::*;

verus! {

/// The largest width or height a grid may have.
pub const MAX_GRID_SIDE: u32 = 4096;

/// What a cell is made of.
#[derive(Debug, Clone, Copy, PartialEq, Eq, Hash, Structural)]
pub enum Terrain {
    Open,
    /// Costs double to enter.
    Difficult,
    /// Cannot be entered and stops sight.
    Blocking,
}

/// One square of the grid.
#[derive(Debug, Clone, Copy)]
pub struct Cell {
    pub position: GridPosition,
    pub terrain: Terrain,
    pub elevation: Option<i32>,
    pub occupant: Option<EntityId>,
}

/// One entity standing on the grid: recorded once, with its anchor (the
/// north-west cell of its footprint) and its size.
#[derive(Debug, Clone, Copy)]
pub struct Occupant {
    pub id: EntityId,
    pub anchor: GridPosition,
    pub size: SizeCategory,
}

/// An entity as the grid refers to it. The grid does not own entities; it
/// records where they stand. `reach` is for those who query sight and
/// templates on the entity's behalf.
#[derive(Debug, Clone, Copy)]
pub struct Entity {
    pub id: EntityId,
    pub anchor: GridPosition,
    pub size: SizeCategory,
    pub reach: Option<u32>,
}

impl Entity {
    /// Whether the entity's footprint contains `p`.
    pub fn occupies(&self, p: GridPosition) -> (b: bool)
        ensures
            b == covered(self.anchor, self.size, p),
    {
        let side: i64 = self.size.side_cells() as i64;
        let ax: i64 = self.anchor.x as i64;
        let ay: i64 = self.anchor.y as i64;
        let px: i64 = p.x as i64;
        let py: i64 = p.y as i64;
        ax <= px && px < ax + side && ay <= py && py < ay + side
    }
}

/// Whether the square footprint of `size` anchored at `anchor` contains `p`.
pub open spec fn covered(anchor: GridPosition, size: SizeCategory, p: GridPosition) -> bool {
    &&& anchor.x <= p.x < anchor.x + size.side()
    &&& anchor.y <= p.y < anchor.y + size.side()
}

impl Cell {
    /// The elevation of the cell, ground level where none is recorded.
    pub open spec fn level(self) -> int {
        match self.elevation {
            Some(e) => e as int,
            None => 0,
        }
    }

    /// Whether the cell keeps an entity from standing on it: it is Blocking,
    /// or somebody other than `allowed` already stands there.
    pub open spec fn hinders(self, allowed: Option<EntityId>) -> bool {
        self.terrain == Terrain::Blocking || (self.occupant is Some && self.occupant != allowed)
    }

    /// The elevation of the cell, ground level where none is recorded.
    pub fn level_of(&self) -> (e: i32)
        ensures
            e == self.level(),
    {
        match self.elevation {
            Some(e) => e,
            None => 0,
        }
    }

    /// Whether the cell keeps an entity other than `allowed` from standing on it.
    pub fn is_hindering(&self, allowed: Option<EntityId>) -> (b: bool)
        ensures
            b == self.hinders(allowed),
    {
        if self.terrain == Terrain::Blocking {
            return true;
        }
        match self.occupant {
            None => false,
            Some(o) => match allowed {
                None => true,
                Some(a) => o.0 != a.0,
            },
        }
    }
}

/// The mathematical content of a grid: its dimensions, its cells in
/// row-major order, and the register of entities standing on it.
pub struct GridView {
    pub width: int,
    pub height: int,
    pub cells: Seq<Cell>,
    pub occupants: Seq<Occupant>,
}

impl GridView {
    pub open spec fn in_bounds(self, p: GridPosition) -> bool {
        0 <= p.x < self.width && 0 <= p.y < self.height
    }

    /// The place of `p` in the row-major cell sequence.
    pub open spec fn index(self, p: GridPosition) -> int {
        p.y * self.width + p.x
    }

    /// The cell at `p`, meaningful for positions in bounds.
    pub open spec fn cell(self, p: GridPosition) -> Cell {
        self.cells[self.index(p)]
    }

    /// Whether `id` is registered on the grid.
    pub open spec fn holds(self, id: EntityId) -> bool {
        exists|k: int| 0 <= k < self.occupants.len() && #[trigger] self.occupants[k].id == id
    }

    /// The register entry of `id`, meaningful when the grid holds it.
    pub open spec fn slot(self, id: EntityId) -> int {
        choose|k: int| 0 <= k < self.occupants.len() && #[trigger] self.occupants[k].id == id
    }

    /// Whether the footprint of some register entry of `id` contains `p`.
    pub open spec fn claims(self, id: EntityId, p: GridPosition) -> bool {
        exists|k: int|
            0 <= k < self.occupants.len() && (#[trigger] self.occupants[k]).id == id && covered(
                self.occupants[k].anchor,
                self.occupants[k].size,
                p,
            )
    }

    /// Whether the occupant recorded in cell `i`, if any, is backed by the register.
    pub open spec fn backed(self, i: int) -> bool {
        self.cells[i].occupant matches Some(id) ==> self.claims(id, self.cells[i].position)
    }

    /// Whether the whole footprint lies on the grid.
    pub open spec fn fits(self, anchor: GridPosition, size: SizeCategory) -> bool {
        &&& 0 <= anchor.x
        &&& anchor.x + size.side() <= self.width
        &&& 0 <= anchor.y
        &&& anchor.y + size.side() <= self.height
    }

    /// Whether some cell of the footprint that lies on the grid is Blocking
    /// or taken by somebody other than `allowed`.
    pub open spec fn conflicts(self, anchor: GridPosition, size: SizeCategory, allowed: Option<EntityId>) -> bool {
        exists|p: GridPosition| #[trigger]
            covered(anchor, size, p) && self.in_bounds(p) && self.cell(p).hinders(allowed)
    }

    /// Whether some cell of the footprint that lies on the grid is Difficult.
    pub open spec fn rough(self, anchor: GridPosition, size: SizeCategory) -> bool {
        exists|p: GridPosition| #[trigger]
            covered(anchor, size, p) && self.in_bounds(p) && self.cell(p).terrain == Terrain::Difficult
    }

    /// Whether an entity `who` of `size` can stand with its anchor at `anchor`.
    pub open spec fn standable(self, anchor: GridPosition, size: SizeCategory, who: EntityId) -> bool {
        self.fits(anchor, size) && !self.conflicts(anchor, size, Some(who))
    }

    /// The shape part of the grid invariant: bounded dimensions, and a cell
    /// for every position of the rectangle and none elsewhere.
    pub open spec fn layout(self) -> bool {
        &&& 0 <= self.width <= MAX_GRID_SIDE
        &&& 0 <= self.height <= MAX_GRID_SIDE
        &&& self.cells.len() == self.width * self.height
        &&& forall|i: int|
            0 <= i < self.cells.len() ==> self.in_bounds(#[trigger] self.cells[i].position) && self.index(
                self.cells[i].position,
            ) == i
        &&& forall|p: GridPosition|
            self.in_bounds(p) ==> 0 <= #[trigger] self.index(p) < self.cells.len()
                && self.cells[self.index(p)].position == p
    }

    /// The grid invariant: the layout, and cell occupancy in step with the
    /// register, in which no entity appears twice.
    pub open spec fn wf(self) -> bool {
        &&& self.layout()
        &&& forall|k: int, p: GridPosition|
            0 <= k < self.occupants.len() && #[trigger] covered(self.occupants[k].anchor, self.occupants[k].size, p)
                ==> self.in_bounds(p) && self.cell(p).occupant == Some(self.occupants[k].id)
        &&& forall|i: int| 0 <= i < self.cells.len() ==> #[trigger] self.backed(i)
        &&& forall|j: int, k: int|
            0 <= j < k < self.occupants.len() ==> (#[trigger] self.occupants[j]).id != (
            #[trigger] self.occupants[k]).id
    }

    /// The cells with the occupancy of one footprint overwritten by `value`.
    pub open spec fn stamped(self, anchor: GridPosition, size: SizeCategory, value: Option<EntityId>) -> Seq<Cell> {
        Seq::new(
            self.cells.len(),
            |i: int|
                if covered(anchor, size, self.cells[i].position) {
                    Cell { occupant: value, ..self.cells[i] }
                } else {
                    self.cells[i]
                },
        )
    }

    /// The grid after the cell at `pos` got new terrain and elevation.
    pub open spec fn with_terrain(self, pos: GridPosition, kind: Terrain, elevation: Option<i32>) -> GridView {
        GridView {
            cells: self.cells.update(
                self.index(pos),
                Cell { terrain: kind, elevation: elevation, ..self.cell(pos) },
            ),
            ..self
        }
    }

    /// The grid after `entity` was put down at `anchor`.
    pub open spec fn placed(self, entity: EntityId, anchor: GridPosition, size: SizeCategory) -> GridView {
        GridView {
            cells: self.stamped(anchor, size, Some(entity)),
            occupants: self.occupants.push(Occupant { id: entity, anchor: anchor, size: size }),
            ..self
        }
    }

    /// The grid after the entity in register entry `k` was taken off.
    pub open spec fn lifted(self, k: int) -> GridView {
        GridView {
            cells: self.stamped(self.occupants[k].anchor, self.occupants[k].size, None),
            occupants: self.occupants.remove(k),
            ..self
        }
    }

    /// The grid after the entity in register entry `k` went to `anchor`: it
    /// is taken off and put down again, which makes it the newest entry.
    pub open spec fn moved(self, k: int, anchor: GridPosition) -> GridView {
        self.lifted(k).placed(self.occupants[k].id, anchor, self.occupants[k].size)
    }

    /// Why `entity` cannot be put down at `anchor`, if it cannot.
    pub open spec fn place_error(self, entity: EntityId, anchor: GridPosition, size: SizeCategory) -> Option<
        ErrorView,
    > {
        if self.holds(entity) {
            Some(ErrorView::RulesViolation("entity is already on the grid"@))
        } else if self.conflicts(anchor, size, None) {
            Some(ErrorView::RulesViolation("footprint is blocked or occupied"@))
        } else if !self.fits(anchor, size) {
            Some(ErrorView::InvalidPosition { x: anchor.x as int, y: anchor.y as int })
        } else {
            None
        }
    }

    /// Why `entity` cannot go to `anchor`, if it cannot.
    pub open spec fn move_error(self, entity: EntityId, anchor: GridPosition) -> Option<ErrorView> {
        if !self.holds(entity) {
            Some(ErrorView::EntityNotFound(uuid_text(entity.0)))
        } else if self.conflicts(anchor, self.occupants[self.slot(entity)].size, Some(entity)) {
            Some(ErrorView::RulesViolation("footprint is blocked or occupied"@))
        } else if !self.fits(anchor, self.occupants[self.slot(entity)].size) {
            Some(ErrorView::InvalidPosition { x: anchor.x as int, y: anchor.y as int })
        } else {
            None
        }
    }
}

/// A position inside the rectangle has its row-major index inside the cell sequence.
pub proof fn lemma_index_in_range(width: int, height: int, x: int, y: int)
    by (nonlinear_arith)
    requires
        0 <= x < width,
        0 <= y < height,
    ensures
        0 <= y * width + x < width * height,
{
}

/// Two positions of one row-major index are the same position.
pub proof fn lemma_index_injective(width: int, x1: int, y1: int, x2: int, y2: int)
    by (nonlinear_arith)
    requires
        0 <= x1 < width,
        0 <= x2 < width,
        y1 * width + x1 == y2 * width + x2,
    ensures
        x1 == x2,
        y1 == y2,
{
}

/// Stamping a footprint keeps the layout.
pub proof fn lemma_stamped_layout(v: GridView, anchor: GridPosition, size: SizeCategory, value: Option<EntityId>)
    requires
        v.layout(),
    ensures
        (GridView { cells: v.stamped(anchor, size, value), ..v }).layout(),
        forall|p: GridPosition| #[trigger]
            v.in_bounds(p) ==> (GridView { cells: v.stamped(anchor, size, value), ..v }).cell(p) == (if covered(
                anchor,
                size,
                p,
            ) {
                Cell { occupant: value, ..v.cell(p) }
            } else {
                v.cell(p)
            }),
{
    let w = GridView { cells: v.stamped(anchor, size, value), ..v };
    assert forall|i: int| 0 <= i < w.cells.len() implies w.in_bounds(#[trigger] w.cells[i].position) && w.index(
        w.cells[i].position,
    ) == i by {
        assert(w.cells[i].position == v.cells[i].position);
    }
    assert forall|p: GridPosition| w.in_bounds(p) implies 0 <= #[trigger] w.index(p) < w.cells.len()
        && w.cells[w.index(p)].position == p by {
        assert(v.in_bounds(p));
        assert(v.index(p) == w.index(p));
        assert(v.cells[v.index(p)].position == p);
    }
    assert forall|p: GridPosition| #[trigger] v.in_bounds(p) implies w.cell(p) == (if covered(anchor, size, p) {
        Cell { occupant: value, ..v.cell(p) }
    } else {
        v.cell(p)
    }) by {
        assert(v.index(p) == w.index(p));
        assert(v.cells[v.index(p)].position == p);
    }
}

/// The layout does not depend on the register.
pub proof fn lemma_layout_ignores_register(a: GridView, b: GridView)
    requires
        a.layout(),
        a.width == b.width,
        a.height == b.height,
        a.cells == b.cells,
    ensures
        b.layout(),
{
    assert forall|i: int| 0 <= i < b.cells.len() implies b.in_bounds(#[trigger] b.cells[i].position) && b.index(
        b.cells[i].position,
    ) == i by {
        assert(a.in_bounds(a.cells[i].position) && a.index(a.cells[i].position) == i);
    }
    assert forall|p: GridPosition| b.in_bounds(p) implies 0 <= #[trigger] b.index(p) < b.cells.len()
        && b.cells[b.index(p)].position == p by {
        assert(a.in_bounds(p));
        assert(a.index(p) == b.index(p));
    }
}

/// Putting an entity down where nothing forbids it keeps the grid invariant.
pub proof fn lemma_placed_wf(v: GridView, entity: EntityId, anchor: GridPosition, size: SizeCategory)
    requires
        v.wf(),
        v.place_error(entity, anchor, size) is None,
    ensures
        v.placed(entity, anchor, size).wf(),
{
    let w = v.placed(entity, anchor, size);
    let n = v.occupants.len() as int;
    lemma_stamped_layout(v, anchor, size, Some(entity));
    lemma_layout_ignores_register(GridView { cells: v.stamped(anchor, size, Some(entity)), ..v }, w);
    assert forall|k: int, p: GridPosition|
        0 <= k < w.occupants.len() && #[trigger] covered(
            w.occupants[k].anchor,
            w.occupants[k].size,
            p,
        ) implies w.in_bounds(p) && w.cell(p).occupant == Some(w.occupants[k].id) by {
        if k < n {
            assert(w.occupants[k] == v.occupants[k]);
            assert(v.in_bounds(p));
            assert(v.cell(p).occupant == Some(v.occupants[k].id));
            if covered(anchor, size, p) {
                assert(v.cell(p).hinders(None));
                assert(false);
            }
        } else {
            assert(covered(anchor, size, p));
            assert(v.in_bounds(p));
        }
    }
    assert forall|i: int| 0 <= i < w.cells.len() implies #[trigger] w.backed(i) by {
        let p = v.cells[i].position;
        assert(w.cells[i].position == p);
        if covered(anchor, size, p) {
            assert(w.occupants[n].id == entity);
            assert(w.claims(entity, p));
        } else {
            assert(v.backed(i));
            assert(w.cells[i] == v.cells[i]);
            if let Some(id) = v.cells[i].occupant {
                let k = choose|k: int|
                    0 <= k < v.occupants.len() && (#[trigger] v.occupants[k]).id == id && covered(
                        v.occupants[k].anchor,
                        v.occupants[k].size,
                        p,
                    );
                assert(w.occupants[k] == v.occupants[k]);
                assert(w.claims(id, p));
            }
        }
    }
    assert forall|j: int, k: int| 0 <= j < k < w.occupants.len() implies (#[trigger] w.occupants[j]).id != (
    #[trigger] w.occupants[k]).id by {
        assert(w.occupants[j] == v.occupants[j]);
        if k < n {
            assert(w.occupants[k] == v.occupants[k]);
        } else {
            assert(v.occupants[j].id != entity);
        }
    }
}

/// Taking a registered entity off keeps the grid invariant, leaves no cell
/// of its in place, and leaves it unregistered.
pub proof fn lemma_lifted_wf(v: GridView, k: int)
    requires
        v.wf(),
        0 <= k < v.occupants.len(),
    ensures
        v.lifted(k).wf(),
        !v.lifted(k).holds(v.occupants[k].id),
        forall|p: GridPosition| #[trigger]
            v.in_bounds(p) ==> (v.lifted(k).cell(p).hinders(None) <==> v.cell(p).hinders(Some(v.occupants[k].id))),
{
    let o = v.occupants[k];
    let w = v.lifted(k);
    lemma_stamped_layout(v, o.anchor, o.size, None);
    lemma_layout_ignores_register(GridView { cells: v.stamped(o.anchor, o.size, None), ..v }, w);
    assert forall|j: int, p: GridPosition|
        0 <= j < w.occupants.len() && #[trigger] covered(
            w.occupants[j].anchor,
            w.occupants[j].size,
            p,
        ) implies w.in_bounds(p) && w.cell(p).occupant == Some(w.occupants[j].id) by {
        let j0 = if j < k {
            j
        } else {
            j + 1
        };
        assert(w.occupants[j] == v.occupants[j0]);
        assert(covered(v.occupants[j0].anchor, v.occupants[j0].size, p));
        assert(v.cell(p).occupant == Some(v.occupants[j0].id));
        if covered(o.anchor, o.size, p) {
            assert(v.cell(p).occupant == Some(v.occupants[k].id));
            assert(v.occupants[j0].id != v.occupants[k].id);
        }
    }
    assert forall|i: int| 0 <= i < w.cells.len() implies #[trigger] w.backed(i) by {
        let p = v.cells[i].position;
        if !covered(o.anchor, o.size, p) {
            assert(v.backed(i));
            assert(w.cells[i] == v.cells[i]);
            if let Some(id) = v.cells[i].occupant {
                let j0 = choose|j: int|
                    0 <= j < v.occupants.len() && (#[trigger] v.occupants[j]).id == id && covered(
                        v.occupants[j].anchor,
                        v.occupants[j].size,
                        p,
                    );
                assert(j0 != k);
                let j = if j0 < k {
                    j0
                } else {
                    j0 - 1
                };
                assert(w.occupants[j] == v.occupants[j0]);
                assert(w.claims(id, p));
            }
        }
    }
    assert forall|i: int, j: int| 0 <= i < j < w.occupants.len() implies (#[trigger] w.occupants[i]).id != (
    #[trigger] w.occupants[j]).id by {
        let i0 = if i < k {
            i
        } else {
            i + 1
        };
        let j0 = if j < k {
            j
        } else {
            j + 1
        };
        assert(w.occupants[i] == v.occupants[i0]);
        assert(w.occupants[j] == v.occupants[j0]);
        assert(v.occupants[i0].id != v.occupants[j0].id);
    }
    assert(!w.holds(o.id)) by {
        if w.holds(o.id) {
            let j = choose|j: int| 0 <= j < w.occupants.len() && #[trigger] w.occupants[j].id == o.id;
            let j0 = if j < k {
                j
            } else {
                j + 1
            };
            assert(w.occupants[j] == v.occupants[j0]);
            assert(v.occupants[j0].id != v.occupants[k].id);
        }
    }
    assert forall|p: GridPosition| #[trigger] v.in_bounds(p) implies (w.cell(p).hinders(None) <==> v.cell(
        p,
    ).hinders(Some(o.id))) by {
        let i = v.index(p);
        assert(v.cells[i].position == p);
        if !covered(o.anchor, o.size, p) {
            assert(v.backed(i));
            if v.cell(p).occupant == Some(o.id) {
                let j0 = choose|j: int|
                    0 <= j < v.occupants.len() && (#[trigger] v.occupants[j]).id == o.id && covered(
                        v.occupants[j].anchor,
                        v.occupants[j].size,
                        p,
                    );
                if j0 < k {
                    assert(v.occupants[j0].id != v.occupants[k].id);
                } else if k < j0 {
                    assert(v.occupants[k].id != v.occupants[j0].id);
                }
                assert(false);
            }
        } else {
            assert(v.cell(p).occupant == Some(v.occupants[k].id));
        }
    }
}

/// Moving a registered entity to where nothing forbids it keeps the grid invariant.
pub proof fn lemma_moved_wf(v: GridView, entity: EntityId, anchor: GridPosition)
    requires
        v.wf(),
        v.move_error(entity, anchor) is None,
    ensures
        v.moved(v.slot(entity), anchor).wf(),
{
    let k = v.slot(entity);
    let o = v.occupants[k];
    let w = v.lifted(k);
    lemma_lifted_wf(v, k);
    if w.conflicts(anchor, o.size, None) {
        let p = choose|p: GridPosition| #[trigger]
            covered(anchor, o.size, p) && w.in_bounds(p) && w.cell(p).hinders(None);
        assert(v.in_bounds(p));
        assert(v.cell(p).hinders(Some(entity)));
        assert(false);
    }
    lemma_placed_wf(w, entity, anchor, o.size);
}

/// The authoritative battlefield. Its dimensions are fixed at construction.
#[derive(Debug)]
pub struct GridMap {
    width: u32,
    height: u32,
    cells: Vec<Cell>,
    occupants: Vec<Occupant>,
}

impl View for GridMap {
    type V = GridView;

    closed spec fn view(&self) -> GridView {
        GridView {
            width: self.width as int,
            height: self.height as int,
            cells: self.cells@,
            occupants: self.occupants@,
        }
    }
}

impl GridMap {
    /// The invariant of every grid this crate hands out.
    pub open spec fn wf(&self) -> bool {
        self@.wf()
    }

    /// The number of cells.
    pub fn cell_count(&self) -> (n: usize)
        requires
            self.wf(),
        ensures
            n == self@.cells.len(),
            n == self@.width * self@.height,
            n <= MAX_GRID_SIDE * MAX_GRID_SIDE,
    {
        assert(self@.width * self@.height <= MAX_GRID_SIDE * MAX_GRID_SIDE) by (nonlinear_arith)
            requires
                0 <= self@.width <= MAX_GRID_SIDE,
                0 <= self@.height <= MAX_GRID_SIDE,
        ;
        self.cells.len()
    }

    /// Builds a grid of `width` by `height` cells, all of `default_terrain`,
    /// with no elevation and no occupants. Fails with `InvalidAction` when a
    /// side exceeds [`MAX_GRID_SIDE`].
    pub fn create(width: u32, height: u32, default_terrain: Terrain) -> (r: Result<GridMap, DndError>)
        ensures
            r is Ok <==> width <= MAX_GRID_SIDE && height <= MAX_GRID_SIDE,
            r matches Err(e) ==> e@ == ErrorView::InvalidAction("grid dimensions exceed the supported maximum"@),
            r matches Ok(g) ==> {
                &&& g.wf()
                &&& g@.width == width
                &&& g@.height == height
                &&& g@.occupants.len() == 0
                &&& forall|p: GridPosition| #[trigger]
                    g@.in_bounds(p) ==> g@.cell(p) == (Cell {
                        position: p,
                        terrain: default_terrain,
                        elevation: None,
                        occupant: None,
                    })
            },
    {
        if width > MAX_GRID_SIDE || height > MAX_GRID_SIDE {
            return Err(DndError::invalid_action("grid dimensions exceed the supported maximum"));
        }
        let mut cells: Vec<Cell> = Vec::new();
        let mut y: u32 = 0;
        while y < height
            invariant
                y <= height <= MAX_GRID_SIDE,
                width <= MAX_GRID_SIDE,
                cells@.len() == y * width,
                forall|i: int|
                    0 <= i < cells@.len() ==> {
                        &&& 0 <= (#[trigger] cells@[i]).position.x < width
                        &&& 0 <= cells@[i].position.y < y
                        &&& cells@[i].position.y * width + cells@[i].position.x == i
                        &&& cells@[i].terrain == default_terrain
                        &&& cells@[i].elevation is None
                        &&& cells@[i].occupant is None
                    },
            decreases height - y,
        {
            let mut x: u32 = 0;
            while x < width
                invariant
                    y < height <= MAX_GRID_SIDE,
                    x <= width <= MAX_GRID_SIDE,
                    cells@.len() == y * width + x,
                    forall|i: int|
                        0 <= i < cells@.len() ==> {
                            &&& 0 <= (#[trigger] cells@[i]).position.x < width
                            &&& 0 <= cells@[i].position.y <= y
                            &&& cells@[i].position.y * width + cells@[i].position.x == i
                            &&& cells@[i].terrain == default_terrain
                            &&& cells@[i].elevation is None
                            &&& cells@[i].occupant is None
                        },
                decreases width - x,
            {
                cells.push(
                    Cell {
                        position: GridPosition { x: x as i32, y: y as i32 },
                        terrain: default_terrain,
                        elevation: None,
                        occupant: None,
                    },
                );
                x = x + 1;
            }
            assert((y + 1) * width == y * width + width) by (nonlinear_arith);
            proof {
                assert forall|i: int| 0 <= i < cells@.len() implies (#[trigger] cells@[i]).position.y < y + 1 by {}
            }
            y = y + 1;
        }
        let g = GridMap { width, height, cells, occupants: Vec::new() };
        proof {
            let v = g@;
            assert(v.height * v.width == v.width * v.height) by (nonlinear_arith);
            assert forall|p: GridPosition| v.in_bounds(p) implies 0 <= #[trigger] v.index(p) < v.cells.len()
                && v.cells[v.index(p)].position == p by {
                lemma_index_in_range(v.width, v.height, p.x as int, p.y as int);
                let q = v.cells[v.index(p)].position;
                lemma_index_injective(v.width, p.x as int, p.y as int, q.x as int, q.y as int);
            }
            assert forall|i: int| 0 <= i < v.cells.len() implies #[trigger] v.backed(i) by {}
            assert(v.wf());
        }
        Ok(g)
    }

    /// The number of columns.
    pub fn width(&self) -> (w: u32)
        ensures
            w == self@.width,
    {
        self.width
    }

    /// The number of rows.
    pub fn height(&self) -> (h: u32)
        ensures
            h == self@.height,
    {
        self.height
    }

    /// Whether `pos` lies on the grid.
    pub fn contains(&self, pos: GridPosition) -> (b: bool)
        ensures
            b == self@.in_bounds(pos),
    {
        pos.x >= 0 && pos.y >= 0 && (pos.x as i64) < (self.width as i64) && (pos.y as i64) < (self.height as i64)
    }

    /// The cell at a position known to lie on the grid.
    pub(crate) fn cell(&self, pos: GridPosition) -> (c: &Cell)
        requires
            self.wf(),
            self@.in_bounds(pos),
        ensures
            *c == self@.cell(pos),
            c.position == pos,
    {
        assert(0 <= self@.index(pos) < self@.cells.len());
        assert(pos.y * self.width <= MAX_GRID_SIDE * MAX_GRID_SIDE) by (nonlinear_arith)
            requires
                0 <= pos.y < self.height <= MAX_GRID_SIDE,
                0 <= self.width <= MAX_GRID_SIDE,
        ;
        let i: usize = (pos.y as usize) * (self.width as usize) + (pos.x as usize);
        &self.cells[i]
    }

    /// The cell at `pos`, or `InvalidPosition` when `pos` is off the grid.
    pub fn cell_at(&self, pos: GridPosition) -> (r: Result<Cell, DndError>)
        requires
            self.wf(),
        ensures
            match r {
                Ok(c) => self@.in_bounds(pos) && c == self@.cell(pos),
                Err(e) => !self@.in_bounds(pos) && e@ == (ErrorView::InvalidPosition {
                    x: pos.x as int,
                    y: pos.y as int,
                }),
            },
    {
        if !self.contains(pos) {
            return Err(DndError::InvalidPosition { x: pos.x, y: pos.y });
        }
        Ok(*self.cell(pos))
    }

    /// Whether the cell at `pos` is Blocking terrain.
    pub fn is_blocking(&self, pos: GridPosition) -> (r: Result<bool, DndError>)
        requires
            self.wf(),
        ensures
            match r {
                Ok(b) => self@.in_bounds(pos) && b == (self@.cell(pos).terrain == Terrain::Blocking),
                Err(e) => !self@.in_bounds(pos) && e@ == (ErrorView::InvalidPosition {
                    x: pos.x as int,
                    y: pos.y as int,
                }),
            },
    {
        if !self.contains(pos) {
            return Err(DndError::InvalidPosition { x: pos.x, y: pos.y });
        }
        Ok(self.cell(pos).terrain == Terrain::Blocking)
    }

    /// Who stands on the cell at `pos`, if anybody.
    pub fn occupant_at(&self, pos: GridPosition) -> (r: Result<Option<EntityId>, DndError>)
        requires
            self.wf(),
        ensures
            match r {
                Ok(o) => self@.in_bounds(pos) && o == self@.cell(pos).occupant,
                Err(e) => !self@.in_bounds(pos) && e@ == (ErrorView::InvalidPosition {
                    x: pos.x as int,
                    y: pos.y as int,
                }),
            },
    {
        if !self.contains(pos) {
            return Err(DndError::InvalidPosition { x: pos.x, y: pos.y });
        }
        Ok(self.cell(pos).occupant)
    }

    /// Sets terrain and elevation of one cell. Fails with `InvalidPosition`
    /// when `pos` is off the grid, and then changes nothing.
    pub fn set_terrain(&mut self, pos: GridPosition, kind: Terrain, elevation: Option<i32>) -> (r: Result<
        (),
        DndError,
    >)
        requires
            old(self).wf(),
        ensures
            final(self).wf(),
            match r {
                Ok(_) => old(self)@.in_bounds(pos) && final(self)@ == old(self)@.with_terrain(pos, kind, elevation),
                Err(e) => !old(self)@.in_bounds(pos) && final(self)@ == old(self)@ && e@ == (
                ErrorView::InvalidPosition { x: pos.x as int, y: pos.y as int }),
            },
    {
        if !self.contains(pos) {
            return Err(DndError::InvalidPosition { x: pos.x, y: pos.y });
        }
        let ghost before = self@;
        assert(0 <= before.index(pos) < before.cells.len());
        assert(pos.y * self.width <= MAX_GRID_SIDE * MAX_GRID_SIDE) by (nonlinear_arith)
            requires
                0 <= pos.y < self.height <= MAX_GRID_SIDE,
                0 <= self.width <= MAX_GRID_SIDE,
        ;
        let i: usize = (pos.y as usize) * (self.width as usize) + (pos.x as usize);
        let c = self.cells[i];
        self.cells.set(i, Cell { terrain: kind, elevation: elevation, ..c });
        proof {
            let after = self@;
            assert(after == before.with_terrain(pos, kind, elevation));
            assert forall|j: int| 0 <= j < after.cells.len() implies after.in_bounds(
                #[trigger] after.cells[j].position,
            ) && after.index(after.cells[j].position) == j by {
                assert(before.cells[j].position == after.cells[j].position);
            }
            assert forall|p: GridPosition| after.in_bounds(p) implies 0 <= #[trigger] after.index(p)
                < after.cells.len() && after.cells[after.index(p)].position == p by {
                assert(before.in_bounds(p));
                assert(before.index(p) == after.index(p));
                assert(before.cells[before.index(p)].position == p);
            }
            assert forall|j: int| 0 <= j < after.cells.len() implies #[trigger] after.backed(j) by {
                assert(before.backed(j));
            }
            assert forall|k: int, p: GridPosition|
                0 <= k < after.occupants.len() && #[trigger] covered(
                    after.occupants[k].anchor,
                    after.occupants[k].size,
                    p,
                ) implies after.in_bounds(p) && after.cell(p).occupant == Some(after.occupants[k].id) by {
                assert(before.cell(p).occupant == Some(before.occupants[k].id));
            }
            assert(after.wf());
        }
        Ok(())
    }

    /// The register entry of `id`, if the grid holds it.
    pub fn find_occupant(&self, id: EntityId) -> (r: Option<usize>)
        requires
            self.wf(),
        ensures
            match r {
                Some(k) => self@.holds(id) && k == self@.slot(id) && k < self@.occupants.len()
                    && self@.occupants[k as int].id == id,
                None => !self@.holds(id),
            },
    {
        let mut k: usize = 0;
        while k < self.occupants.len()
            invariant
                self.wf(),
                k <= self.occupants@.len(),
                forall|j: int| 0 <= j < k ==> (#[trigger] self.occupants@[j]).id != id,
            decreases self.occupants@.len() - k,
        {
            if self.occupants[k].id.0 == id.0 {
                proof {
                    let v = self@;
                    assert(v.occupants[k as int].id == id);
                    let c = v.slot(id);
                    assert(0 <= c < v.occupants.len() && v.occupants[c].id == id);
                    if c < k {
                        assert(v.occupants[c].id != v.occupants[k as int].id);
                    } else if k < c {
                        assert(v.occupants[k as int].id != v.occupants[c].id);
                    }
                }
                return Some(k);
            }
            k = k + 1;
        }
        None
    }

    /// The anchor and size under which `id` is registered, if it is.
    pub fn occupant_record(&self, id: EntityId) -> (r: Option<Occupant>)
        requires
            self.wf(),
        ensures
            match r {
                Some(o) => self@.holds(id) && o == self@.occupants[self@.slot(id)] && o.id == id,
                None => !self@.holds(id),
            },
    {
        match self.find_occupant(id) {
            Some(k) => Some(self.occupants[k]),
            None => None,
        }
    }

    /// Whether the whole footprint lies on the grid.
    pub fn footprint_fits(&self, anchor: GridPosition, size: SizeCategory) -> (b: bool)
        ensures
            b == self@.fits(anchor, size),
    {
        let side: i64 = size.side_cells() as i64;
        anchor.x >= 0 && anchor.y >= 0 && anchor.x as i64 + side <= self.width as i64 && anchor.y as i64 + side
            <= self.height as i64
    }

    /// Whether some cell of the footprint that lies on the grid is Blocking
    /// or taken by somebody other than `allowed`.
    pub fn footprint_conflicts(&self, anchor: GridPosition, size: SizeCategory, allowed: Option<EntityId>) -> (b:
        bool)
        requires
            self.wf(),
        ensures
            b == self@.conflicts(anchor, size, allowed),
    {
        let side: i64 = size.side_cells() as i64;
        let mut dy: i64 = 0;
        while dy < side
            invariant
                self.wf(),
                side == size.side(),
                0 <= dy <= side,
                forall|p: GridPosition|
                    #[trigger] covered(anchor, size, p) && p.y - anchor.y < dy && self@.in_bounds(p) ==> !self@.cell(
                        p,
                    ).hinders(allowed),
            decreases side - dy,
        {
            let mut dx: i64 = 0;
            while dx < side
                invariant
                    self.wf(),
                    side == size.side(),
                    0 <= dy < side,
                    0 <= dx <= side,
                    forall|p: GridPosition|
                        #[trigger] covered(anchor, size, p) && (p.y - anchor.y < dy || (p.y - anchor.y == dy && p.x
                            - anchor.x < dx)) && self@.in_bounds(p) ==> !self@.cell(p).hinders(allowed),
                decreases side - dx,
            {
                let x: i64 = anchor.x as i64 + dx;
                let y: i64 = anchor.y as i64 + dy;
                if 0 <= x && x < self.width as i64 && 0 <= y && y < self.height as i64 {
                    let p = GridPosition { x: x as i32, y: y as i32 };
                    if self.cell(p).is_hindering(allowed) {
                        assert(covered(anchor, size, p));
                        return true;
                    }
                }
                dx = dx + 1;
            }
            dy = dy + 1;
        }
        false
    }

    /// Whether some cell of the footprint that lies on the grid is Difficult.
    pub fn footprint_rough(&self, anchor: GridPosition, size: SizeCategory) -> (b: bool)
        requires
            self.wf(),
        ensures
            b == self@.rough(anchor, size),
    {
        let side: i64 = size.side_cells() as i64;
        let mut dy: i64 = 0;
        while dy < side
            invariant
                self.wf(),
                side == size.side(),
                0 <= dy <= side,
                forall|p: GridPosition|
                    #[trigger] covered(anchor, size, p) && p.y - anchor.y < dy && self@.in_bounds(p) ==> self@.cell(
                        p,
                    ).terrain != Terrain::Difficult,
            decreases side - dy,
        {
            let mut dx: i64 = 0;
            while dx < side
                invariant
                    self.wf(),
                    side == size.side(),
                    0 <= dy < side,
                    0 <= dx <= side,
                    forall|p: GridPosition|
                        #[trigger] covered(anchor, size, p) && (p.y - anchor.y < dy || (p.y - anchor.y == dy && p.x
                            - anchor.x < dx)) && self@.in_bounds(p) ==> self@.cell(p).terrain != Terrain::Difficult,
                decreases side - dx,
            {
                let x: i64 = anchor.x as i64 + dx;
                let y: i64 = anchor.y as i64 + dy;
                if 0 <= x && x < self.width as i64 && 0 <= y && y < self.height as i64 {
                    let p = GridPosition { x: x as i32, y: y as i32 };
                    if self.cell(p).terrain == Terrain::Difficult {
                        assert(covered(anchor, size, p));
                        return true;
                    }
                }
                dx = dx + 1;
            }
            dy = dy + 1;
        }
        false
    }

    /// Whether an entity `who` of `size` can stand with its anchor at `anchor`.
    pub fn can_stand(&self, anchor: GridPosition, size: SizeCategory, who: EntityId) -> (b: bool)
        requires
            self.wf(),
        ensures
            b == self@.standable(anchor, size, who),
    {
        self.footprint_fits(anchor, size) && !self.footprint_conflicts(anchor, size, Some(who))
    }

    /// Overwrites the occupancy of every cell of a footprint that lies on the grid.
    fn stamp(&mut self, anchor: GridPosition, size: SizeCategory, value: Option<EntityId>)
        requires
            old(self)@.layout(),
            old(self)@.fits(anchor, size),
        ensures
            final(self)@ == (GridView { cells: old(self)@.stamped(anchor, size, value), ..old(self)@ }),
    {
        let ghost before = self@;
        let side: i32 = size.side_cells();
        let mut dy: i32 = 0;
        while dy < side
            invariant
                before.layout(),
                before.fits(anchor, size),
                side == size.side(),
                0 <= dy <= side,
                self@.width == before.width,
                self@.height == before.height,
                self@.occupants == before.occupants,
                self@.cells.len() == before.cells.len(),
                forall|i: int|
                    0 <= i < before.cells.len() ==> #[trigger] self@.cells[i] == (if covered(
                        anchor,
                        size,
                        before.cells[i].position,
                    ) && before.cells[i].position.y - anchor.y < dy {
                        Cell { occupant: value, ..before.cells[i] }
                    } else {
                        before.cells[i]
                    }),
            decreases side - dy,
        {
            let mut dx: i32 = 0;
            while dx < side
                invariant
                    before.layout(),
                    before.fits(anchor, size),
                    side == size.side(),
                    0 <= dy < side,
                    0 <= dx <= side,
                    self@.width == before.width,
                    self@.height == before.height,
                    self@.occupants == before.occupants,
                    self@.cells.len() == before.cells.len(),
                    forall|i: int|
                        0 <= i < before.cells.len() ==> #[trigger] self@.cells[i] == (if covered(
                            anchor,
                            size,
                            before.cells[i].position,
                        ) && (before.cells[i].position.y - anchor.y < dy || (before.cells[i].position.y - anchor.y
                            == dy && before.cells[i].position.x - anchor.x < dx)) {
                            Cell { occupant: value, ..before.cells[i] }
                        } else {
                            before.cells[i]
                        }),
                decreases side - dx,
            {
                let p = GridPosition { x: anchor.x + dx, y: anchor.y + dy };
                assert(before.in_bounds(p));
                assert(0 <= before.index(p) < before.cells.len());
                assert(before.cells[before.index(p)].position == p);
                assert(p.y * self.width <= MAX_GRID_SIDE * MAX_GRID_SIDE) by (nonlinear_arith)
                    requires
                        0 <= p.y < self.height <= MAX_GRID_SIDE,
                        0 <= self.width <= MAX_GRID_SIDE,
                ;
                let i: usize = (p.y as usize) * (self.width as usize) + (p.x as usize);
                let c = self.cells[i];
                self.cells.set(i, Cell { occupant: value, ..c });
                dx = dx + 1;
            }
            dy = dy + 1;
        }
        assert(self@.cells =~= before.stamped(anchor, size, value));
    }

    /// Puts `entity` down with its anchor at `anchor`. Fails with
    /// `RulesViolation` when the entity is already on the grid or a covered
    /// cell is Blocking or occupied, else with `InvalidPosition` when the
    /// footprint leaves the grid; a failure changes nothing.
    pub fn place_occupant(&mut self, entity: EntityId, anchor: GridPosition, size: SizeCategory) -> (r: Result<
        (),
        DndError,
    >)
        requires
            old(self).wf(),
        ensures
            final(self).wf(),
            match r {
                Ok(_) => old(self)@.place_error(entity, anchor, size) is None && final(self)@ == old(self)@.placed(
                    entity,
                    anchor,
                    size,
                ),
                Err(e) => old(self)@.place_error(entity, anchor, size) == Some(e@) && final(self)@ == old(self)@,
            },
    {
        if self.find_occupant(entity).is_some() {
            return Err(DndError::rules_violation("entity is already on the grid"));
        }
        if self.footprint_conflicts(anchor, size, None) {
            return Err(DndError::rules_violation("footprint is blocked or occupied"));
        }
        if !self.footprint_fits(anchor, size) {
            return Err(DndError::InvalidPosition { x: anchor.x, y: anchor.y });
        }
        proof {
            lemma_placed_wf(self@, entity, anchor, size);
        }
        self.stamp(anchor, size, Some(entity));
        self.occupants.push(Occupant { id: entity, anchor, size });
        Ok(())
    }

    /// Takes `entity` off the grid. Fails with `EntityNotFound` when the grid
    /// does not hold it, and then changes nothing.
    pub fn remove_occupant(&mut self, entity: EntityId) -> (r: Result<(), DndError>)
        requires
            old(self).wf(),
        ensures
            final(self).wf(),
            match r {
                Ok(_) => old(self)@.holds(entity) && final(self)@ == old(self)@.lifted(old(self)@.slot(entity)),
                Err(e) => !old(self)@.holds(entity) && final(self)@ == old(self)@ && e@ == ErrorView::EntityNotFound(
                    uuid_text(entity.0),
                ),
            },
    {
        match self.find_occupant(entity) {
            None => Err(DndError::EntityNotFound(entity.text())),
            Some(k) => {
                let o = self.occupants[k];
                proof {
                    lemma_lifted_wf(self@, k as int);
                    assert(covered(o.anchor, o.size, o.anchor));
                    assert forall|p: GridPosition| #[trigger] covered(o.anchor, o.size, p) implies self@.in_bounds(
                        p,
                    ) by {}
                    let far = GridPosition {
                        x: (o.anchor.x + o.size.side() - 1) as i32,
                        y: (o.anchor.y + o.size.side() - 1) as i32,
                    };
                    assert(covered(o.anchor, o.size, far));
                }
                self.stamp(o.anchor, o.size, None);
                self.occupants.remove(k);
                Ok(())
            },
        }
    }

    /// Moves `entity` so that its anchor is at `anchor`. Fails with
    /// `EntityNotFound` when the grid does not hold it, else with
    /// `RulesViolation` when a covered cell is Blocking or occupied by
    /// somebody else, else with `InvalidPosition` when the footprint leaves
    /// the grid; a failure changes nothing.
    pub fn move_occupant(&mut self, entity: EntityId, anchor: GridPosition) -> (r: Result<(), DndError>)
        requires
            old(self).wf(),
        ensures
            final(self).wf(),
            match r {
                Ok(_) => old(self)@.move_error(entity, anchor) is None && final(self)@ == old(self)@.moved(
                    old(self)@.slot(entity),
                    anchor,
                ),
                Err(e) => old(self)@.move_error(entity, anchor) == Some(e@) && final(self)@ == old(self)@,
            },
    {
        match self.find_occupant(entity) {
            None => Err(DndError::EntityNotFound(entity.text())),
            Some(k) => {
                let o = self.occupants[k];
                if self.footprint_conflicts(anchor, o.size, Some(entity)) {
                    return Err(DndError::rules_violation("footprint is blocked or occupied"));
                }
                if !self.footprint_fits(anchor, o.size) {
                    return Err(DndError::InvalidPosition { x: anchor.x, y: anchor.y });
                }
                proof {
                    lemma_moved_wf(self@, entity, anchor);
                    lemma_lifted_wf(self@, k as int);
                    assert(covered(o.anchor, o.size, o.anchor));
                    let far = GridPosition {
                        x: (o.anchor.x + o.size.side() - 1) as i32,
                        y: (o.anchor.y + o.size.side() - 1) as i32,
                    };
                    assert(covered(o.anchor, o.size, far));
                }
                self.stamp(o.anchor, o.size, None);
                self.occupants.remove(k);
                self.stamp(anchor, o.size, Some(entity));
                self.occupants.push(Occupant { id: entity, anchor, size: o.size });
                Ok(())
            },
        }
    }
}

} // verus!
