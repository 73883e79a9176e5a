//! Positions, directions, sizes and identifiers shared by every part of the engine.

use vstd::prelude::*;

verus! {

/// A cell coordinate on the battle grid. `x` grows eastward, `y` grows southward.
#[derive(Debug, Clone, Copy, PartialEq, Eq, Hash, Structural)]
pub struct GridPosition {
    pub x: i32,
    pub y: i32,
}

/// How far apart two cells are counted to be.
#[derive(Debug, Clone, Copy, PartialEq, Eq, Hash, Structural)]
pub enum DistanceMetric {
    /// Straight-line distance between cell centres.
    Euclidean,
    /// Every step, diagonal or not, counts one.
    Chebyshev,
    /// Every second diagonal step counts two.
    FiveFoot,
}

/// The absolute difference of two integers.
pub open spec fn gap(a: int, b: int) -> nat {
    if a >= b {
        (a - b) as nat
    } else {
        (b - a) as nat
    }
}

/// `r` is the least natural number whose square reaches `n`.
pub open spec fn is_ceil_sqrt(n: nat, r: nat) -> bool {
    r * r >= n && (r == 0 || (r - 1) * (r - 1) < n)
}

/// The square root of `n`, rounded up.
pub open spec fn ceil_sqrt(n: nat) -> nat {
    choose|r: nat| is_ceil_sqrt(n, r)
}

/// Squaring keeps the order of natural numbers.
pub proof fn lemma_square_monotone(a: nat, b: nat)
    by (nonlinear_arith)
    requires
        a <= b,
    ensures
        a * a <= b * b,
{
}

/// The rounded-up square root is unique, so `ceil_sqrt` names it.
pub proof fn lemma_ceil_sqrt_unique(n: nat, r: nat)
    requires
        is_ceil_sqrt(n, r),
    ensures
        ceil_sqrt(n) == r,
{
    let c = ceil_sqrt(n);
    assert(is_ceil_sqrt(n, c));
    if c < r {
        lemma_square_monotone(c, (r - 1) as nat);
    } else if r < c {
        lemma_square_monotone(r, (c - 1) as nat);
    }
}

/// Comparing the rounded-up root against a whole number is the same as
/// comparing the radicand against that number's square.
pub proof fn lemma_ceil_sqrt_le(n: nat, bound: nat)
    ensures
        ceil_sqrt(n) <= bound <==> n <= bound * bound,
{
    lemma_square_monotone(n, n);
    assert(n <= n * n) by (nonlinear_arith);
    lemma_is_ceil_sqrt_exists(n, n);
    let c = ceil_sqrt(n);
    assert(is_ceil_sqrt(n, c));
    if c <= bound {
        lemma_square_monotone(c, bound);
    } else {
        lemma_square_monotone(bound, (c - 1) as nat);
    }
}

/// Some rounded-up root exists at or below any `hi` whose square reaches `n`.
proof fn lemma_is_ceil_sqrt_exists(n: nat, hi: nat)
    requires
        hi * hi >= n,
    ensures
        exists|r: nat| is_ceil_sqrt(n, r),
    decreases hi,
{
    if hi == 0 || ((hi - 1) * (hi - 1)) < n {
        assert(is_ceil_sqrt(n, hi));
    } else {
        lemma_is_ceil_sqrt_exists(n, (hi - 1) as nat);
    }
}

/// Computes the square root of `n` rounded up, by bisection.
pub fn ceil_sqrt_u128(n: u128) -> (r: u64)
    requires
        n <= 0x4_0000_0000_0000_0000,
    ensures
        r == ceil_sqrt(n as nat),
        r <= 0x2_0000_0000,
{
    let mut lo: u64 = 0;
    let mut hi: u64 = 0x2_0000_0000;
    assert(0x2_0000_0000u64 * 0x2_0000_0000u64 == 0x4_0000_0000_0000_0000int) by (nonlinear_arith);
    while lo < hi
        invariant
            lo <= hi <= 0x2_0000_0000,
            hi * hi >= n,
            lo == 0 || (lo - 1) * (lo - 1) < n,
        decreases hi - lo,
    {
        let mid: u64 = lo + (hi - lo) / 2;
        assert(mid * mid <= 0x2_0000_0000 * 0x2_0000_0000) by (nonlinear_arith)
            requires
                0 <= mid <= 0x2_0000_0000,
        ;
        let sq: u128 = (mid as u128) * (mid as u128);
        if sq >= n {
            hi = mid;
        } else {
            lo = mid + 1;
        }
    }
    proof {
        assert(is_ceil_sqrt(n as nat, lo as nat));
        lemma_ceil_sqrt_unique(n as nat, lo as nat);
    }
    lo
}

impl GridPosition {
    /// The position at column `x` of row `y`.
    pub fn new(x: i32, y: i32) -> (p: Self)
        ensures
            p.x == x,
            p.y == y,
    {
        GridPosition { x, y }
    }

    /// The squared straight-line distance between the centres of two cells.
    pub open spec fn squared_distance(self, other: GridPosition) -> nat {
        gap(self.x as int, other.x as int) * gap(self.x as int, other.x as int) + gap(
            self.y as int,
            other.y as int,
        ) * gap(self.y as int, other.y as int)
    }

    /// The number of king's moves between two cells.
    pub open spec fn chebyshev(self, other: GridPosition) -> nat {
        let dx = gap(self.x as int, other.x as int);
        let dy = gap(self.y as int, other.y as int);
        if dx >= dy {
            dx
        } else {
            dy
        }
    }

    /// The tabletop count in which every second diagonal step costs double.
    pub open spec fn five_foot(self, other: GridPosition) -> nat {
        let dx = gap(self.x as int, other.x as int);
        let dy = gap(self.y as int, other.y as int);
        if dx >= dy {
            dx + dy / 2
        } else {
            dy + dx / 2
        }
    }

    /// The distance between two cells in whole cells under `metric`. The
    /// Euclidean distance is rounded up, so that `distance <= r` holds exactly
    /// when the true distance is at most the whole number `r`.
    pub open spec fn distance(self, other: GridPosition, metric: DistanceMetric) -> nat {
        match metric {
            DistanceMetric::Euclidean => ceil_sqrt(self.squared_distance(other)),
            DistanceMetric::Chebyshev => self.chebyshev(other),
            DistanceMetric::FiveFoot => self.five_foot(other),
        }
    }

    /// Whether `other` lies within `range` of `self` under `metric`, stated
    /// without any rounding.
    pub open spec fn within(self, other: GridPosition, metric: DistanceMetric, range: nat) -> bool {
        match metric {
            DistanceMetric::Euclidean => self.squared_distance(other) <= range * range,
            DistanceMetric::Chebyshev => self.chebyshev(other) <= range,
            DistanceMetric::FiveFoot => self.five_foot(other) <= range,
        }
    }

    /// The horizontal gap to `other`.
    pub fn gap_x(&self, other: &GridPosition) -> (d: u64)
        ensures
            d == gap(self.x as int, other.x as int),
            d <= 0xffff_ffff,
    {
        let a: i64 = self.x as i64;
        let b: i64 = other.x as i64;
        if a >= b {
            (a - b) as u64
        } else {
            (b - a) as u64
        }
    }

    /// The vertical gap to `other`.
    pub fn gap_y(&self, other: &GridPosition) -> (d: u64)
        ensures
            d == gap(self.y as int, other.y as int),
            d <= 0xffff_ffff,
    {
        let a: i64 = self.y as i64;
        let b: i64 = other.y as i64;
        if a >= b {
            (a - b) as u64
        } else {
            (b - a) as u64
        }
    }

    /// The distance to `other` in whole cells under the chosen metric.
    pub fn distance_to(&self, other: &GridPosition, metric: DistanceMetric) -> (d: u64)
        ensures
            d == self.distance(*other, metric),
    {
        let dx: u64 = self.gap_x(other);
        let dy: u64 = self.gap_y(other);
        match metric {
            DistanceMetric::Euclidean => {
                assert(dx * dx <= 0xffff_ffff * 0xffff_ffff) by (nonlinear_arith)
                    requires
                        0 <= dx <= 0xffff_ffff,
                ;
                assert(dy * dy <= 0xffff_ffff * 0xffff_ffff) by (nonlinear_arith)
                    requires
                        0 <= dy <= 0xffff_ffff,
                ;
                let sq: u128 = (dx as u128) * (dx as u128) + (dy as u128) * (dy as u128);
                ceil_sqrt_u128(sq)
            },
            DistanceMetric::Chebyshev => {
                if dx >= dy {
                    dx
                } else {
                    dy
                }
            },
            DistanceMetric::FiveFoot => {
                if dx >= dy {
                    dx + dy / 2
                } else {
                    dy + dx / 2
                }
            },
        }
    }

    /// Whether `other` lies within `range` cells of `self` under the chosen metric.
    pub fn is_within(&self, other: &GridPosition, metric: DistanceMetric, range: u32) -> (b: bool)
        ensures
            b == self.within(*other, metric, range as nat),
            b == (self.distance(*other, metric) <= range),
    {
        proof {
            lemma_ceil_sqrt_le(self.squared_distance(*other), range as nat);
        }
        let dx: u64 = self.gap_x(other);
        let dy: u64 = self.gap_y(other);
        match metric {
            DistanceMetric::Euclidean => {
                assert(dx * dx <= 0xffff_ffff * 0xffff_ffff) by (nonlinear_arith)
                    requires
                        0 <= dx <= 0xffff_ffff,
                ;
                assert(dy * dy <= 0xffff_ffff * 0xffff_ffff) by (nonlinear_arith)
                    requires
                        0 <= dy <= 0xffff_ffff,
                ;
                assert(range * range <= 0xffff_ffff * 0xffff_ffff) by (nonlinear_arith)
                    requires
                        0 <= range <= 0xffff_ffff,
                ;
                let sq: u128 = (dx as u128) * (dx as u128) + (dy as u128) * (dy as u128);
                let limit: u128 = (range as u128) * (range as u128);
                sq <= limit
            },
            DistanceMetric::Chebyshev => dx <= range as u64 && dy <= range as u64,
            DistanceMetric::FiveFoot => {
                if dx >= dy {
                    dx + dy / 2 <= range as u64
                } else {
                    dy + dx / 2 <= range as u64
                }
            },
        }
    }
}

/// A rounded distance compares against a whole range exactly as the
/// unrounded distance does.
pub proof fn lemma_distance_within(a: GridPosition, b: GridPosition, metric: DistanceMetric, range: nat)
    ensures
        a.distance(b, metric) <= range <==> a.within(b, metric, range),
{
    lemma_ceil_sqrt_le(a.squared_distance(b), range);
}

/// The eight compass directions. North is toward smaller `y`.
#[derive(Debug, Clone, Copy, PartialEq, Eq, Hash, Structural)]
pub enum Direction {
    North,
    NorthEast,
    East,
    SouthEast,
    South,
    SouthWest,
    West,
    NorthWest,
}

impl Direction {
    /// The horizontal component of one step in this direction.
    pub open spec fn step_x(self) -> int {
        match self {
            Direction::NorthEast | Direction::East | Direction::SouthEast => 1,
            Direction::NorthWest | Direction::West | Direction::SouthWest => -1,
            _ => 0,
        }
    }

    /// The vertical component of one step in this direction.
    pub open spec fn step_y(self) -> int {
        match self {
            Direction::SouthEast | Direction::South | Direction::SouthWest => 1,
            Direction::NorthEast | Direction::North | Direction::NorthWest => -1,
            _ => 0,
        }
    }

    /// Whether a step in this direction changes both coordinates.
    pub open spec fn is_diagonal(self) -> bool {
        self.step_x() != 0 && self.step_y() != 0
    }

    /// The horizontal component of one step in this direction.
    pub fn dx(self) -> (d: i32)
        ensures
            d == self.step_x(),
    {
        match self {
            Direction::NorthEast | Direction::East | Direction::SouthEast => 1,
            Direction::NorthWest | Direction::West | Direction::SouthWest => -1,
            _ => 0,
        }
    }

    /// The vertical component of one step in this direction.
    pub fn dy(self) -> (d: i32)
        ensures
            d == self.step_y(),
    {
        match self {
            Direction::SouthEast | Direction::South | Direction::SouthWest => 1,
            Direction::NorthEast | Direction::North | Direction::NorthWest => -1,
            _ => 0,
        }
    }
}

/// A creature's size category, which fixes the square footprint it occupies.
#[derive(Debug, Clone, Copy, PartialEq, Eq, Hash, Structural)]
pub enum SizeCategory {
    Tiny,
    Small,
    Medium,
    Large,
    Huge,
    Gargantuan,
}

impl SizeCategory {
    /// The side of the footprint, in cells.
    pub open spec fn side(self) -> int {
        match self {
            SizeCategory::Large => 2,
            SizeCategory::Huge => 3,
            SizeCategory::Gargantuan => 4,
            _ => 1,
        }
    }

    /// The side of the footprint, in cells.
    pub fn side_cells(self) -> (s: i32)
        ensures
            s == self.side(),
    {
        match self {
            SizeCategory::Large => 2,
            SizeCategory::Huge => 3,
            SizeCategory::Gargantuan => 4,
            _ => 1,
        }
    }
}

/// Entity identifier: the 128 bits of a UUID.
#[derive(Debug, Clone, Copy, PartialEq, Eq, Hash, Structural)]
pub struct EntityId(pub u128);

/// Whether `bits` carry the version and variant marks of a random (version 4) UUID.
pub open spec fn is_random_uuid(bits: u128) -> bool {
    bits & 0x0000_0000_0000_f000_c000_0000_0000_0000u128 == 0x0000_0000_0000_4000_8000_0000_0000_0000u128
}

/// The canonical text of the UUID with the given bits, as `uuid` prints it.
pub uninterp spec fn uuid_text(bits: u128) -> Seq<char>;

/// Calls `uuid::Uuid::new_v4` and returns the new identifier's bits. The
/// value is random; the contract claims only the version and variant marks
/// that `new_v4` forces onto every value it returns.
#[verifier::external_body]
fn random_uuid_bits() -> (bits: u128)
    ensures
        is_random_uuid(bits),
{
    uuid::Uuid::new_v4().as_u128()
}

/// Calls the `Display` formatting of `uuid::Uuid` on the UUID made of `bits`.
/// The text is a function of the bits alone; the contract names it and
/// claims nothing of its shape.
#[verifier::external_body]
fn format_uuid(bits: u128) -> (text: String)
    ensures
        text@ == uuid_text(bits),
{
    uuid::Uuid::from_u128(bits).to_string()
}

impl EntityId {
    /// A fresh random identifier.
    pub fn new() -> (id: Self)
        ensures
            is_random_uuid(id.0),
    {
        EntityId(random_uuid_bits())
    }

    /// The identifier in canonical UUID text.
    pub fn text(&self) -> (s: String)
        ensures
            s@ == uuid_text(self.0),
    {
        format_uuid(self.0)
    }
}

impl Default for EntityId {
    fn default() -> (id: Self)
        ensures
            is_random_uuid(id.0),
    {
        EntityId::new()
    }
}

} // verus!
