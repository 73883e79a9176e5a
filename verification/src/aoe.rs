//! Area of effect: which cells a spell template covers, and who stands on them.
//!
//! All geometry is exact integer arithmetic on cell centres. Angles are
//! whole degrees; what a whole-degree angle means is fixed by a table of
//! tangents in units of 2^-32, which is exact at 45 degrees, so that cells
//! lying exactly on a 45, 90 or 135 degree boundary are decided exactly.

use crate::errors::{DndError, ErrorView};
use crate::grid::{GridMap, GridView, MAX_GRID_SIDE};
use crate::scan::{at, in_rect, lemma_scan_rect, scan_rect, scan_row};
use crate::types::{gap, lemma_square_monotone, Direction, DistanceMetric, EntityId, GridPosition};
use vstd::prelude::*;

verus! {

/// A range of elevations, both ends included.
#[derive(Debug, Clone, Copy)]
pub struct ElevationBand {
    pub low: i32,
    pub high: i32,
}

/// A spell template. Sizes are in cells and must be positive; the cone's
/// half-angle is in whole degrees and must lie in 1 ..= 180.
#[derive(Debug, Clone, Copy)]
pub enum AoeShape {
    /// Every cell within `radius` of the origin.
    Sphere { origin: GridPosition, radius: i32, band: Option<ElevationBand> },
    /// A square block of `side` cells with the origin cell in one corner,
    /// reaching toward `facing`; an orthogonal facing also reaches toward
    /// the direction clockwise of it.
    Cube { origin: GridPosition, side: i32, facing: Direction, band: Option<ElevationBand> },
    /// The cells other than the origin within `length` of the origin
    /// cell's edge whose bearing is within `half_angle` of `facing`.
    Cone { origin: GridPosition, length: i32, half_angle: i32, facing: Direction, band: Option<ElevationBand> },
    /// The cells whose centres lie in the rectangle that starts at the
    /// origin cell's edge, runs `length` along `facing` and is `width` wide.
    Line { origin: GridPosition, length: i32, width: i32, facing: Direction, band: Option<ElevationBand> },
    /// A sphere in the plane, restricted to elevations from the origin
    /// cell's up to `height` above it.
    Cylinder { origin: GridPosition, radius: i32, height: i32 },
}

/// What a template affects.
#[derive(Debug)]
pub struct AoeResult {
    /// The affected cells in row-major order.
    pub cells: Vec<GridPosition>,
    /// Everybody standing on an affected cell, each once, in the order in
    /// which the cells list them.
    pub entities: Vec<EntityId>,
}

/// One, in the units of the tangent table.
pub const TANGENT_ONE: u64 = 0x1_0000_0000;

/// The tangent of a whole number of degrees from 1 to 89, in units of
/// 2^-32, rounded to nearest.
pub open spec fn tangent(degrees: u32) -> u64 {
    match degrees {
        1 => 74968933,
        2 => 149983563,
        3 => 225089698,
        4 => 300333370,
        5 => 375760949,
        6 => 451419253,
        7 => 527355674,
        8 => 603618289,
        9 => 680255991,
        10 => 757318616,
        11 => 834857071,
        12 => 912923481,
        13 => 991571331,
        14 => 1070855618,
        15 => 1150833018,
        16 => 1231562054,
        17 => 1313103278,
        18 => 1395519469,
        19 => 1478875838,
        20 => 1563240253,
        21 => 1648683477,
        22 => 1735279427,
        23 => 1823105454,
        24 => 1912242643,
        25 => 2002776142,
        26 => 2094795517,
        27 => 2188395142,
        28 => 2283674620,
        29 => 2380739248,
        30 => 2479700525,
        31 => 2580676708,
        32 => 2683793431,
        33 => 2789184375,
        34 => 2896992021,
        35 => 3007368477,
        36 => 3120476397,
        37 => 3236490001,
        38 => 3355596215,
        39 => 3477995939,
        40 => 3603905474,
        41 => 3733558110,
        42 => 3867205923,
        43 => 4005121798,
        44 => 4147601706,
        45 => 4294967296,
        46 => 4447568832,
        47 => 4605788539,
        48 => 4770044430,
        49 => 4940794687,
        50 => 5118542705,
        51 => 5303842901,
        52 => 5497307451,
        53 => 5699614109,
        54 => 5911515335,
        55 => 6133848983,
        56 => 6367550874,
        57 => 6613669660,
        58 => 6873384465,
        59 => 7148025948,
        60 => 7439101574,
        61 => 7748326109,
        62 => 8077658661,
        63 => 8429347936,
        64 => 8805987946,
        65 => 9210587090,
        66 => 9646654490,
        67 => 10118308865,
        68 => 10630417090,
        69 => 11188772336,
        70 => 11800325663,
        71 => 12473490740,
        72 => 13218550140,
        73 => 14048205026,
        74 => 14978330984,
        75 => 16029036166,
        76 => 17226172941,
        77 => 18603547223,
        78 => 20206232460,
        79 => 22095691251,
        80 => 24357969942,
        81 => 27117356271,
        82 => 30560280257,
        83 => 34979701555,
        84 => 40863884173,
        85 => 49091700832,
        86 => 61420893884,
        87 => 81952858044,
        88 => 122991771330,
        89 => 246058511593,
        _ => 0,
    }
}

/// The tangent of `degrees`, in units of 2^-32.
pub fn tangent_of(degrees: u32) -> (t: u64)
    requires
        1 <= degrees <= 89,
    ensures
        t == tangent(degrees),
        t <= 0x40_0000_0000,
{
    match degrees {
        1 => 74968933,
        2 => 149983563,
        3 => 225089698,
        4 => 300333370,
        5 => 375760949,
        6 => 451419253,
        7 => 527355674,
        8 => 603618289,
        9 => 680255991,
        10 => 757318616,
        11 => 834857071,
        12 => 912923481,
        13 => 991571331,
        14 => 1070855618,
        15 => 1150833018,
        16 => 1231562054,
        17 => 1313103278,
        18 => 1395519469,
        19 => 1478875838,
        20 => 1563240253,
        21 => 1648683477,
        22 => 1735279427,
        23 => 1823105454,
        24 => 1912242643,
        25 => 2002776142,
        26 => 2094795517,
        27 => 2188395142,
        28 => 2283674620,
        29 => 2380739248,
        30 => 2479700525,
        31 => 2580676708,
        32 => 2683793431,
        33 => 2789184375,
        34 => 2896992021,
        35 => 3007368477,
        36 => 3120476397,
        37 => 3236490001,
        38 => 3355596215,
        39 => 3477995939,
        40 => 3603905474,
        41 => 3733558110,
        42 => 3867205923,
        43 => 4005121798,
        44 => 4147601706,
        45 => 4294967296,
        46 => 4447568832,
        47 => 4605788539,
        48 => 4770044430,
        49 => 4940794687,
        50 => 5118542705,
        51 => 5303842901,
        52 => 5497307451,
        53 => 5699614109,
        54 => 5911515335,
        55 => 6133848983,
        56 => 6367550874,
        57 => 6613669660,
        58 => 6873384465,
        59 => 7148025948,
        60 => 7439101574,
        61 => 7748326109,
        62 => 8077658661,
        63 => 8429347936,
        64 => 8805987946,
        65 => 9210587090,
        66 => 9646654490,
        67 => 10118308865,
        68 => 10630417090,
        69 => 11188772336,
        70 => 11800325663,
        71 => 12473490740,
        72 => 13218550140,
        73 => 14048205026,
        74 => 14978330984,
        75 => 16029036166,
        76 => 17226172941,
        77 => 18603547223,
        78 => 20206232460,
        79 => 22095691251,
        80 => 24357969942,
        81 => 27117356271,
        82 => 30560280257,
        83 => 34979701555,
        84 => 40863884173,
        85 => 49091700832,
        86 => 61420893884,
        87 => 81952858044,
        88 => 122991771330,
        89 => 246058511593,
        _ => 0,
    }
}

/// `v` taken along a unit component `k` of a direction.
pub open spec fn scaled(v: int, k: int) -> int {
    if k > 0 {
        v
    } else if k < 0 {
        -v
    } else {
        0
    }
}

/// How far the offset (`vx`, `vy`) reaches along `facing`, in units of
/// the facing vector's length.
pub open spec fn along(vx: int, vy: int, facing: Direction) -> int {
    scaled(vx, facing.step_x()) + scaled(vy, facing.step_y())
}

/// How far the offset (`vx`, `vy`) lies off the axis of `facing`, to
/// either side, in units of the facing vector's length.
pub open spec fn astray(vx: int, vy: int, facing: Direction) -> int {
    let cross = scaled(vx, facing.step_y()) - scaled(vy, facing.step_x());
    if cross >= 0 {
        cross
    } else {
        -cross
    }
}

/// The squared length of the facing vector: two for a diagonal, else one.
pub open spec fn norm2(facing: Direction) -> int {
    if facing.is_diagonal() {
        2
    } else {
        1
    }
}

/// Whether a bearing lies within `half_angle` degrees of the facing, the
/// boundary included, for an offset that reaches `forward` along the
/// facing and `sideways` (not negative) off its axis.
pub open spec fn within_angle(forward: int, sideways: int, half_angle: int) -> bool {
    if half_angle >= 180 {
        true
    } else if half_angle > 90 {
        forward >= 0 || sideways * TANGENT_ONE >= tangent((180 - half_angle) as u32) * (-forward)
    } else if half_angle == 90 {
        forward >= 0
    } else {
        forward > 0 && sideways * TANGENT_ONE <= tangent(half_angle as u32) * forward
    }
}

/// Twice the distance along one axis from the edge of a cell to the
/// centre of a cell `d` columns away.
pub open spec fn from_edge(d: int) -> int {
    if d == 0 {
        0
    } else {
        2 * d - 1
    }
}

/// Whether `c` lies within `length` of the edge of the cell `origin`. The
/// counting metrics count cells outward; the Euclidean metric measures
/// from the nearest point of the origin cell to the centre of `c`.
pub open spec fn within_of_edge(origin: GridPosition, c: GridPosition, metric: DistanceMetric, length: int) -> bool {
    match metric {
        DistanceMetric::Euclidean => {
            let ex = from_edge(gap(origin.x as int, c.x as int) as int);
            let ey = from_edge(gap(origin.y as int, c.y as int) as int);
            ex * ex + ey * ey <= 4 * (length * length)
        },
        DistanceMetric::Chebyshev => origin.chebyshev(c) <= length,
        DistanceMetric::FiveFoot => origin.five_foot(c) <= length,
    }
}

/// Whether a cube reaches eastward from its origin rather than westward.
pub open spec fn cube_east(facing: Direction) -> bool {
    facing == Direction::North || facing == Direction::NorthEast || facing == Direction::East || facing
        == Direction::SouthEast
}

/// Whether a cube reaches southward from its origin rather than northward.
pub open spec fn cube_south(facing: Direction) -> bool {
    facing == Direction::East || facing == Direction::SouthEast || facing == Direction::South || facing
        == Direction::SouthWest
}

/// Whether the cube of `side` cells at `origin` holds `c`.
pub open spec fn cube_covers(origin: GridPosition, side: int, facing: Direction, c: GridPosition) -> bool {
    let vx = if cube_east(facing) {
        c.x - origin.x
    } else {
        origin.x - c.x
    };
    let vy = if cube_south(facing) {
        c.y - origin.y
    } else {
        origin.y - c.y
    };
    0 <= vx < side && 0 <= vy < side
}

/// Whether the cone from `origin` holds `c`. The origin cell is never in
/// its own cone.
pub open spec fn cone_covers(
    origin: GridPosition,
    length: int,
    half_angle: int,
    facing: Direction,
    metric: DistanceMetric,
    c: GridPosition,
) -> bool {
    let vx = c.x - origin.x;
    let vy = c.y - origin.y;
    &&& c != origin
    &&& within_of_edge(origin, c, metric, length)
    &&& within_angle(along(vx, vy, facing), astray(vx, vy, facing), half_angle)
}

/// Whether the line from `origin` holds `c`: the centre of `c` lies past
/// the origin cell's edge, no farther than `length` beyond it, and no
/// farther than half of `width` off the axis.
pub open spec fn line_covers(origin: GridPosition, length: int, width: int, facing: Direction, c: GridPosition) -> bool {
    let a = along(c.x - origin.x, c.y - origin.y, facing);
    let p = astray(c.x - origin.x, c.y - origin.y, facing);
    let n = norm2(facing);
    &&& 2 * a > n
    &&& (2 * a - n) * (2 * a - n) <= 4 * (length * length) * n
    &&& 4 * (p * p) <= (width * width) * n
}

impl AoeShape {
    /// The cell the template is cast from.
    pub open spec fn origin(self) -> GridPosition {
        match self {
            AoeShape::Sphere { origin, .. } => origin,
            AoeShape::Cube { origin, .. } => origin,
            AoeShape::Cone { origin, .. } => origin,
            AoeShape::Line { origin, .. } => origin,
            AoeShape::Cylinder { origin, .. } => origin,
        }
    }

    /// Whether the sizes are positive and the half-angle lies in 1 ..= 180.
    pub open spec fn valid(self) -> bool {
        match self {
            AoeShape::Sphere { radius, .. } => radius > 0,
            AoeShape::Cube { side, .. } => side > 0,
            AoeShape::Cone { length, half_angle, .. } => length > 0 && 1 <= half_angle <= 180,
            AoeShape::Line { length, width, .. } => length > 0 && width > 0,
            AoeShape::Cylinder { radius, height, .. } => radius > 0 && height > 0,
        }
    }

    /// The elevations the template is restricted to, if it is restricted.
    pub open spec fn band(self, grid: GridView) -> Option<(int, int)> {
        match self {
            AoeShape::Cylinder { origin, height, .. } => Some(
                (grid.cell(origin).level(), grid.cell(origin).level() + height),
            ),
            AoeShape::Sphere { band, .. } | AoeShape::Cube { band, .. } | AoeShape::Cone { band, .. } | AoeShape::Line {
                band,
                ..
            } => match band {
                Some(b) => Some((b.low as int, b.high as int)),
                None => None,
            },
        }
    }

    /// Whether the template covers the cell `c` in the plane.
    pub open spec fn covers(self, metric: DistanceMetric, c: GridPosition) -> bool {
        match self {
            AoeShape::Sphere { origin, radius, .. } => origin.within(c, metric, radius as nat),
            AoeShape::Cylinder { origin, radius, .. } => origin.within(c, metric, radius as nat),
            AoeShape::Cube { origin, side, facing, .. } => cube_covers(origin, side as int, facing, c),
            AoeShape::Cone { origin, length, half_angle, facing, .. } => cone_covers(
                origin,
                length as int,
                half_angle as int,
                facing,
                metric,
                c,
            ),
            AoeShape::Line { origin, length, width, facing, .. } => line_covers(
                origin,
                length as int,
                width as int,
                facing,
                c,
            ),
        }
    }

    /// Whether the template affects the cell `c` of `grid`: it covers it,
    /// and the cell's elevation lies in the template's band, if it has one.
    pub open spec fn affects(self, grid: GridView, metric: DistanceMetric, c: GridPosition) -> bool {
        &&& self.covers(metric, c)
        &&& match self.band(grid) {
            Some((low, high)) => low <= grid.cell(c).level() <= high,
            None => true,
        }
    }

    /// Whether `big` is this template with no size smaller. Cones are
    /// left out: they do not grow with their angle in any simple way.
    pub open spec fn grows_to(self, big: AoeShape) -> bool {
        match self {
            AoeShape::Sphere { origin, radius, band } => big matches AoeShape::Sphere {
                origin: o,
                radius: r,
                band: b,
            } && o == origin && b == band && radius <= r,
            AoeShape::Cube { origin, side, facing, band } => big matches AoeShape::Cube {
                origin: o,
                side: s,
                facing: f,
                band: b,
            } && o == origin && f == facing && b == band && side <= s,
            AoeShape::Line { origin, length, width, facing, band } => big matches AoeShape::Line {
                origin: o,
                length: l,
                width: w,
                facing: f,
                band: b,
            } && o == origin && f == facing && b == band && length <= l && width <= w,
            AoeShape::Cylinder { origin, radius, height } => big matches AoeShape::Cylinder {
                origin: o,
                radius: r,
                height: h,
            } && o == origin && radius <= r && height <= h,
            AoeShape::Cone { .. } => false,
        }
    }
}

/// The cells of `grid` that the template affects, in row-major order.
pub open spec fn affected_cells(grid: GridView, shape: AoeShape, metric: DistanceMetric) -> Seq<GridPosition> {
    scan_rect(|c: GridPosition| shape.affects(grid, metric, c), 0, grid.width, 0, grid.height)
}

/// Everybody standing on one of `cells`, each once, in order of first appearance.
pub open spec fn occupants_of(grid: GridView, cells: Seq<GridPosition>) -> Seq<EntityId>
    decreases cells.len(),
{
    if cells.len() == 0 {
        Seq::empty()
    } else {
        let rest = occupants_of(grid, cells.drop_last());
        match grid.cell(cells.last()).occupant {
            Some(id) => if rest.contains(id) {
                rest
            } else {
                rest.push(id)
            },
            None => rest,
        }
    }
}

/// Why a template cannot be resolved on `grid`, if it cannot.
pub open spec fn aoe_error(grid: GridView, shape: AoeShape) -> Option<ErrorView> {
    if !shape.valid() {
        Some(ErrorView::InvalidAction("shape sizes must be positive and the half-angle within 1 to 180 degrees"@))
    } else if !grid.in_bounds(shape.origin()) {
        Some(ErrorView::InvalidPosition { x: shape.origin().x as int, y: shape.origin().y as int })
    } else {
        None
    }
}

/// The list of occupants names exactly those who stand on one of the
/// cells, and names nobody twice.
pub proof fn lemma_occupants_of(grid: GridView, cells: Seq<GridPosition>)
    ensures
        forall|id: EntityId| #[trigger]
            occupants_of(grid, cells).contains(id) <==> exists|i: int|
                0 <= i < cells.len() && grid.cell(#[trigger] cells[i]).occupant == Some(id),
        forall|i: int, j: int|
            0 <= i < j < occupants_of(grid, cells).len() ==> occupants_of(grid, cells)[i] != occupants_of(
                grid,
                cells,
            )[j],
    decreases cells.len(),
{
    let all = occupants_of(grid, cells);
    if cells.len() == 0 {
        assert forall|id: EntityId| #[trigger] all.contains(id) <==> exists|i: int|
            0 <= i < cells.len() && grid.cell(#[trigger] cells[i]).occupant == Some(id) by {}
    } else {
        let front = cells.drop_last();
        let rest = occupants_of(grid, front);
        lemma_occupants_of(grid, front);
        let here = grid.cell(cells.last()).occupant;
        assert forall|id: EntityId| #[trigger] all.contains(id) <==> exists|i: int|
            0 <= i < cells.len() && grid.cell(#[trigger] cells[i]).occupant == Some(id) by {
            if all.contains(id) {
                if rest.contains(id) {
                    let i = choose|i: int| 0 <= i < front.len() && grid.cell(#[trigger] front[i]).occupant == Some(id);
                    assert(cells[i] == front[i]);
                } else {
                    let k = choose|k: int| 0 <= k < all.len() && all[k] == id;
                    if k < rest.len() {
                        assert(rest[k] == id);
                        assert(rest.contains(id));
                    }
                    assert(here == Some(id));
                    assert(grid.cell(cells[cells.len() - 1]).occupant == Some(id));
                }
            }
            if exists|i: int| 0 <= i < cells.len() && grid.cell(#[trigger] cells[i]).occupant == Some(id) {
                let i = choose|i: int| 0 <= i < cells.len() && grid.cell(#[trigger] cells[i]).occupant == Some(id);
                if i < front.len() {
                    assert(front[i] == cells[i]);
                    assert(rest.contains(id));
                    let k = choose|k: int| 0 <= k < rest.len() && rest[k] == id;
                    assert(all[k] == id);
                } else {
                    assert(here == Some(id));
                    if rest.contains(id) {
                    } else {
                        assert(all[all.len() - 1] == id);
                    }
                }
            }
        }
        assert forall|i: int, j: int| 0 <= i < j < all.len() implies all[i] != all[j] by {
            if j < rest.len() {
                assert(rest[i] != rest[j]);
            } else {
                assert(rest[i] == all[i]);
                assert(rest.contains(rest[i]));
            }
        }
    }
}

/// A template with no size smaller affects every cell that the smaller
/// one affects: spheres, cubes, lines and cylinders only grow with their
/// sizes.
pub proof fn lemma_aoe_monotone(grid: GridView, small: AoeShape, big: AoeShape, metric: DistanceMetric)
    requires
        small.valid(),
        small.grows_to(big),
        0 <= grid.width <= 0x8000_0000,
        0 <= grid.height <= 0x8000_0000,
    ensures
        forall|c: GridPosition| #[trigger] small.affects(grid, metric, c) ==> big.affects(grid, metric, c),
        forall|c: GridPosition| #[trigger]
            affected_cells(grid, small, metric).contains(c) ==> affected_cells(grid, big, metric).contains(c),
{
    assert forall|c: GridPosition| #[trigger] small.affects(grid, metric, c) implies big.affects(
        grid,
        metric,
        c,
    ) by {
        lemma_covers_monotone(small, big, metric, c);
    }
    lemma_scan_rect(|c: GridPosition| small.affects(grid, metric, c), 0, grid.width, 0, grid.height);
    lemma_scan_rect(|c: GridPosition| big.affects(grid, metric, c), 0, grid.width, 0, grid.height);
    assert forall|c: GridPosition| #[trigger]
        affected_cells(grid, small, metric).contains(c) implies affected_cells(grid, big, metric).contains(c) by {
        assert(small.affects(grid, metric, c));
    }
}

proof fn lemma_product_monotone(a: int, b: int, n: int)
    by (nonlinear_arith)
    requires
        0 <= a <= b,
        0 <= n,
    ensures
        (a * a) * n <= (b * b) * n,
        4 * (a * a) * n <= 4 * (b * b) * n,
{
}

/// In the plane, a template with no size smaller covers every cell that
/// the smaller one covers.
pub proof fn lemma_covers_monotone(small: AoeShape, big: AoeShape, metric: DistanceMetric, c: GridPosition)
    requires
        small.valid(),
        small.grows_to(big),
        small.covers(metric, c),
    ensures
        big.covers(metric, c),
{
    match small {
        AoeShape::Sphere { radius, .. } => {
            let r = big->Sphere_radius;
            lemma_square_monotone(radius as nat, r as nat);
        },
        AoeShape::Cylinder { radius, .. } => {
            let r = big->Cylinder_radius;
            lemma_square_monotone(radius as nat, r as nat);
        },
        AoeShape::Line { length, width, facing, .. } => {
            let l = big->Line_length;
            let w = big->Line_width;
            lemma_product_monotone(length as int, l as int, norm2(facing));
            lemma_product_monotone(width as int, w as int, norm2(facing));
        },
        _ => {},
    }
}

/// The cone's boundary belongs to the cone. At the half-angles whose
/// boundary runs through cell centres this reads: at 45 degrees a cell as
/// far sideways as forward is in and one farther sideways is out; at 90
/// degrees a cell level with the origin is in and one behind it is out;
/// at 135 degrees a cell as far sideways as backward is in and one less
/// far sideways is out; at 180 degrees every cell is in.
pub proof fn lemma_cone_boundary(forward: int, sideways: int)
    requires
        sideways >= 0,
    ensures
        within_angle(forward, sideways, 45) <==> forward > 0 && sideways <= forward,
        within_angle(forward, sideways, 90) <==> forward >= 0,
        within_angle(forward, sideways, 135) <==> forward >= 0 || sideways >= -forward,
        within_angle(forward, sideways, 180),
{
    let one: int = TANGENT_ONE as int;
    assert(tangent(45) == one && one == 0x1_0000_0000);
    assert((sideways * one <= one * forward) <==> sideways <= forward) by (nonlinear_arith)
        requires
            one == 0x1_0000_0000,
    ;
    assert((sideways * one >= one * (-forward)) <==> sideways >= -forward) by (nonlinear_arith)
        requires
            one == 0x1_0000_0000,
    ;
}

/// The square of a number of moderate size.
fn square(a: i64) -> (r: i128)
    requires
        -0x1_0000_0000 <= a <= 0x1_0000_0000,
    ensures
        r == a * a,
        0 <= r <= 0x1_0000_0000_0000_0000,
{
    assert(0 <= a * a <= 0x1_0000_0000_0000_0000) by (nonlinear_arith)
        requires
            -0x1_0000_0000 <= a <= 0x1_0000_0000,
    ;
    (a as i128) * (a as i128)
}

fn scaled_by(v: i64, k: i32) -> (r: i64)
    requires
        -0x1_0000 <= v <= 0x1_0000,
    ensures
        r == scaled(v as int, k as int),
        -0x1_0000 <= r <= 0x1_0000,
{
    if k > 0 {
        v
    } else if k < 0 {
        -v
    } else {
        0
    }
}

/// Whether a bearing lies within `half_angle` degrees of the facing.
fn is_within_angle(forward: i64, sideways: i64, half_angle: i32) -> (b: bool)
    requires
        -0x2_0000 <= forward <= 0x2_0000,
        0 <= sideways <= 0x2_0000,
        1 <= half_angle <= 180,
    ensures
        b == within_angle(forward as int, sideways as int, half_angle as int),
{
    if half_angle >= 180 {
        true
    } else if half_angle > 90 {
        if forward >= 0 {
            return true;
        }
        let t: u64 = tangent_of((180 - half_angle) as u32);
        assert(sideways * TANGENT_ONE <= 0x2_0000 * 0x1_0000_0000) by (nonlinear_arith)
            requires
                0 <= sideways <= 0x2_0000,
                TANGENT_ONE == 0x1_0000_0000,
        ;
        let lhs: i128 = (sideways as i128) * (TANGENT_ONE as i128);
        assert(t * (-forward) <= 0x40_0000_0000 * 0x2_0000) by (nonlinear_arith)
            requires
                0 <= t <= 0x40_0000_0000,
                0 <= -forward <= 0x2_0000,
        ;
        let rhs: i128 = (t as i128) * ((-forward) as i128);
        lhs >= rhs
    } else if half_angle == 90 {
        forward >= 0
    } else {
        if forward <= 0 {
            return false;
        }
        let t: u64 = tangent_of(half_angle as u32);
        assert(sideways * TANGENT_ONE <= 0x2_0000 * 0x1_0000_0000) by (nonlinear_arith)
            requires
                0 <= sideways <= 0x2_0000,
                TANGENT_ONE == 0x1_0000_0000,
        ;
        let lhs: i128 = (sideways as i128) * (TANGENT_ONE as i128);
        assert(t * forward <= 0x40_0000_0000 * 0x2_0000) by (nonlinear_arith)
            requires
                0 <= t <= 0x40_0000_0000,
                0 <= forward <= 0x2_0000,
        ;
        let rhs: i128 = (t as i128) * (forward as i128);
        lhs <= rhs
    }
}

/// Whether `c` lies within `length` of the edge of the cell `origin`.
fn is_within_of_edge(origin: GridPosition, c: GridPosition, metric: DistanceMetric, length: i32) -> (b: bool)
    requires
        0 <= origin.x < MAX_GRID_SIDE,
        0 <= origin.y < MAX_GRID_SIDE,
        0 <= c.x < MAX_GRID_SIDE,
        0 <= c.y < MAX_GRID_SIDE,
        length > 0,
    ensures
        b == within_of_edge(origin, c, metric, length as int),
{
    match metric {
        DistanceMetric::Euclidean => {
            let dx: u64 = origin.gap_x(&c);
            let dy: u64 = origin.gap_y(&c);
            let ex: i64 = if dx == 0 {
                0
            } else {
                2 * (dx as i64) - 1
            };
            let ey: i64 = if dy == 0 {
                0
            } else {
                2 * (dy as i64) - 1
            };
            square(ex) + square(ey) <= 4 * square(length as i64)
        },
        DistanceMetric::Chebyshev => origin.is_within(&c, metric, length as u32),
        DistanceMetric::FiveFoot => origin.is_within(&c, metric, length as u32),
    }
}

impl AoeShape {
    /// The cell the template is cast from.
    pub fn origin_cell(&self) -> (o: GridPosition)
        ensures
            o == self.origin(),
    {
        match self {
            AoeShape::Sphere { origin, .. } => *origin,
            AoeShape::Cube { origin, .. } => *origin,
            AoeShape::Cone { origin, .. } => *origin,
            AoeShape::Line { origin, .. } => *origin,
            AoeShape::Cylinder { origin, .. } => *origin,
        }
    }

    /// Whether the sizes are positive and the half-angle lies in 1 ..= 180.
    pub fn is_valid(&self) -> (b: bool)
        ensures
            b == self.valid(),
    {
        match self {
            AoeShape::Sphere { radius, .. } => *radius > 0,
            AoeShape::Cube { side, .. } => *side > 0,
            AoeShape::Cone { length, half_angle, .. } => *length > 0 && 1 <= *half_angle && *half_angle <= 180,
            AoeShape::Line { length, width, .. } => *length > 0 && *width > 0,
            AoeShape::Cylinder { radius, height, .. } => *radius > 0 && *height > 0,
        }
    }

    /// Whether the template covers the cell `c` in the plane.
    fn is_covering(&self, metric: DistanceMetric, c: GridPosition) -> (b: bool)
        requires
            self.valid(),
            0 <= self.origin().x < MAX_GRID_SIDE,
            0 <= self.origin().y < MAX_GRID_SIDE,
            0 <= c.x < MAX_GRID_SIDE,
            0 <= c.y < MAX_GRID_SIDE,
        ensures
            b == self.covers(metric, c),
    {
        match self {
            AoeShape::Sphere { origin, radius, .. } => origin.is_within(&c, metric, *radius as u32),
            AoeShape::Cylinder { origin, radius, .. } => origin.is_within(&c, metric, *radius as u32),
            AoeShape::Cube { origin, side, facing, .. } => is_cube_covering(*origin, *side, *facing, c),
            AoeShape::Cone { origin, length, half_angle, facing, .. } => is_cone_covering(
                *origin,
                *length,
                *half_angle,
                *facing,
                metric,
                c,
            ),
            AoeShape::Line { origin, length, width, facing, .. } => is_line_covering(
                *origin,
                *length,
                *width,
                *facing,
                c,
            ),
        }
    }
}

fn is_cube_covering(origin: GridPosition, side: i32, facing: Direction, c: GridPosition) -> (b: bool)
    requires
        0 <= origin.x < MAX_GRID_SIDE,
        0 <= origin.y < MAX_GRID_SIDE,
        0 <= c.x < MAX_GRID_SIDE,
        0 <= c.y < MAX_GRID_SIDE,
    ensures
        b == cube_covers(origin, side as int, facing, c),
{
    let east: bool = match facing {
        Direction::North | Direction::NorthEast | Direction::East | Direction::SouthEast => true,
        _ => false,
    };
    let south: bool = match facing {
        Direction::East | Direction::SouthEast | Direction::South | Direction::SouthWest => true,
        _ => false,
    };
    let vx: i32 = if east {
        c.x - origin.x
    } else {
        origin.x - c.x
    };
    let vy: i32 = if south {
        c.y - origin.y
    } else {
        origin.y - c.y
    };
    0 <= vx && vx < side && 0 <= vy && vy < side
}

/// The reach of the offset from `origin` to `c` along `facing` and off
/// its axis.
fn bearing(origin: GridPosition, facing: Direction, c: GridPosition) -> (r: (i64, i64))
    requires
        0 <= origin.x < MAX_GRID_SIDE,
        0 <= origin.y < MAX_GRID_SIDE,
        0 <= c.x < MAX_GRID_SIDE,
        0 <= c.y < MAX_GRID_SIDE,
    ensures
        r.0 == along(c.x - origin.x, c.y - origin.y, facing),
        r.1 == astray(c.x - origin.x, c.y - origin.y, facing),
        -0x2000 <= r.0 <= 0x2000,
        0 <= r.1 <= 0x2000,
{
    let vx: i64 = (c.x - origin.x) as i64;
    let vy: i64 = (c.y - origin.y) as i64;
    let forward: i64 = scaled_by(vx, facing.dx()) + scaled_by(vy, facing.dy());
    let cross: i64 = scaled_by(vx, facing.dy()) - scaled_by(vy, facing.dx());
    let sideways: i64 = if cross >= 0 {
        cross
    } else {
        -cross
    };
    (forward, sideways)
}

fn is_cone_covering(
    origin: GridPosition,
    length: i32,
    half_angle: i32,
    facing: Direction,
    metric: DistanceMetric,
    c: GridPosition,
) -> (b: bool)
    requires
        0 <= origin.x < MAX_GRID_SIDE,
        0 <= origin.y < MAX_GRID_SIDE,
        0 <= c.x < MAX_GRID_SIDE,
        0 <= c.y < MAX_GRID_SIDE,
        length > 0,
        1 <= half_angle <= 180,
    ensures
        b == cone_covers(origin, length as int, half_angle as int, facing, metric, c),
{
    if c.x == origin.x && c.y == origin.y {
        return false;
    }
    if !is_within_of_edge(origin, c, metric, length) {
        return false;
    }
    let (forward, sideways) = bearing(origin, facing, c);
    is_within_angle(forward, sideways, half_angle)
}

fn is_line_covering(origin: GridPosition, length: i32, width: i32, facing: Direction, c: GridPosition) -> (b: bool)
    requires
        0 <= origin.x < MAX_GRID_SIDE,
        0 <= origin.y < MAX_GRID_SIDE,
        0 <= c.x < MAX_GRID_SIDE,
        0 <= c.y < MAX_GRID_SIDE,
        length > 0,
        width > 0,
    ensures
        b == line_covers(origin, length as int, width as int, facing, c),
{
    let (a, p) = bearing(origin, facing, c);
    let n: i64 = if facing.dx() != 0 && facing.dy() != 0 {
        2
    } else {
        1
    };
    if 2 * a <= n {
        return false;
    }
    let reach: i128 = square(2 * a - n);
    let long: i128 = square(length as i64);
    let wide: i128 = square(width as i64);
    let spread: i128 = square(p);
    proof {
        assert((length * length) * n == long * n) by (nonlinear_arith)
            requires
                long == length * length,
        ;
        assert((width * width) * n == wide * n) by (nonlinear_arith)
            requires
                wide == width * width,
        ;
        assert(4 * (length * length) * n == 4 * ((length * length) * n)) by (nonlinear_arith);
    }
    let limit: i128 = if n == 2 {
        8 * long
    } else {
        4 * long
    };
    let room: i128 = if n == 2 {
        2 * wide
    } else {
        wide
    };
    reach <= limit && 4 * spread <= room
}

/// The elevations a template is restricted to on `grid`, if it is restricted.
fn band_of(grid: &GridMap, shape: &AoeShape) -> (r: Option<(i64, i64)>)
    requires
        grid.wf(),
        grid@.in_bounds(shape.origin()),
    ensures
        match r {
            Some(b) => shape.band(grid@) == Some((b.0 as int, b.1 as int)),
            None => shape.band(grid@) is None,
        },
{
    match shape {
        AoeShape::Cylinder { origin, height, .. } => {
            let base: i64 = grid.cell(*origin).level_of() as i64;
            Some((base, base + *height as i64))
        },
        AoeShape::Sphere { band, .. } | AoeShape::Cube { band, .. } | AoeShape::Cone { band, .. } | AoeShape::Line {
            band,
            ..
        } => match band {
            Some(b) => Some((b.low as i64, b.high as i64)),
            None => None,
        },
    }
}

/// Whether `id` is in the list.
fn has_entity(list: &Vec<EntityId>, id: EntityId) -> (b: bool)
    ensures
        b == list@.contains(id),
{
    let mut i: usize = 0;
    while i < list.len()
        invariant
            i <= list@.len(),
            forall|k: int| 0 <= k < i ==> list@[k] != id,
        decreases list@.len() - i,
    {
        if list[i].0 == id.0 {
            assert(list@[i as int] == id);
            return true;
        }
        i = i + 1;
    }
    false
}

/// Resolves a template on `grid`: the cells it affects and who stands on
/// them. Blocking terrain does not shield a cell. Fails with
/// `InvalidAction` when a size is not positive or the half-angle is not
/// within 1 to 180 degrees, else with `InvalidPosition` when the origin
/// is off the grid.
pub fn compute_aoe(grid: &GridMap, shape: &AoeShape, metric: DistanceMetric) -> (r: Result<AoeResult, DndError>)
    requires
        grid.wf(),
    ensures
        match r {
            Ok(res) => {
                &&& aoe_error(grid@, *shape) is None
                &&& res.cells@ == affected_cells(grid@, *shape, metric)
                &&& res.entities@ == occupants_of(grid@, res.cells@)
            },
            Err(e) => aoe_error(grid@, *shape) == Some(e@),
        },
{
    if !shape.is_valid() {
        return Err(
            DndError::invalid_action("shape sizes must be positive and the half-angle within 1 to 180 degrees"),
        );
    }
    let origin = shape.origin_cell();
    if !grid.contains(origin) {
        return Err(DndError::InvalidPosition { x: origin.x, y: origin.y });
    }
    let band = band_of(grid, shape);
    let width: i32 = grid.width() as i32;
    let height: i32 = grid.height() as i32;
    let ghost pred = |c: GridPosition| shape.affects(grid@, metric, c);
    let mut cells: Vec<GridPosition> = Vec::new();
    let mut y: i32 = 0;
    while y < height
        invariant
            grid.wf(),
            shape.valid(),
            grid@.in_bounds(shape.origin()),
            width == grid@.width,
            height == grid@.height,
            0 <= y <= height,
            pred == |c: GridPosition| shape.affects(grid@, metric, c),
            match band {
                Some(b) => shape.band(grid@) == Some((b.0 as int, b.1 as int)),
                None => shape.band(grid@) is None,
            },
            cells@ == scan_rect(pred, 0, width as int, 0, y as int),
        decreases height - y,
    {
        let ghost above = cells@;
        let mut x: i32 = 0;
        while x < width
            invariant
                grid.wf(),
                shape.valid(),
                grid@.in_bounds(shape.origin()),
                width == grid@.width,
                height == grid@.height,
                0 <= y < height,
                0 <= x <= width,
                pred == |c: GridPosition| shape.affects(grid@, metric, c),
                match band {
                    Some(b) => shape.band(grid@) == Some((b.0 as int, b.1 as int)),
                    None => shape.band(grid@) is None,
                },
                cells@ == above + scan_row(pred, y as int, 0, x as int),
            decreases width - x,
        {
            let c = GridPosition { x, y };
            assert(c == at(x as int, y as int));
            let ghost row = scan_row(pred, y as int, 0, x as int);
            let covered: bool = shape.is_covering(metric, c);
            let admitted: bool = match band {
                Some(b) => {
                    let level: i64 = grid.cell(c).level_of() as i64;
                    b.0 <= level && level <= b.1
                },
                None => true,
            };
            if covered && admitted {
                cells.push(c);
                assert(cells@ =~= above + row.push(c));
            }
            x = x + 1;
        }
        y = y + 1;
    }
    proof {
        lemma_scan_rect(pred, 0, width as int, 0, height as int);
        assert forall|k: int| 0 <= k < cells@.len() implies grid@.in_bounds(#[trigger] cells@[k]) by {
            assert(cells@.contains(cells@[k]));
        }
    }
    let mut entities: Vec<EntityId> = Vec::new();
    let mut i: usize = 0;
    while i < cells.len()
        invariant
            grid.wf(),
            i <= cells@.len(),
            forall|k: int| 0 <= k < cells@.len() ==> grid@.in_bounds(#[trigger] cells@[k]),
            entities@ == occupants_of(grid@, cells@.subrange(0, i as int)),
        decreases cells@.len() - i,
    {
        proof {
            assert(cells@.subrange(0, i + 1).drop_last() =~= cells@.subrange(0, i as int));
        }
        match grid.cell(cells[i]).occupant {
            Some(id) => {
                if !has_entity(&entities, id) {
                    entities.push(id);
                }
            },
            None => {},
        }
        i = i + 1;
    }
    assert(cells@.subrange(0, cells@.len() as int) =~= cells@);
    Ok(AoeResult { cells, entities })
}

} // verus!
