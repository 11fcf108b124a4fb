//! Points of the plane with fixed-point coordinates.

use vstd::prelude::*;

verus! {

/// Number of stored steps that make up one coordinate unit: a stored value
/// `v` stands for the coordinate `v / SCALE`.
pub const SCALE: i64 = 10_000;

/// Convergence tolerance in stored steps; it stands for one thousandth of a
/// coordinate unit.
pub const EPSILON: i64 = 10;

/// A point of the plane. Both coordinates are fixed-point numbers counted in
/// steps of `1 / SCALE`.
#[derive(Debug, Copy, Clone, PartialEq, Eq, Structural)]
pub struct Point {
    pub x: i64,
    pub y: i64,
}

/// A squared distance between two points. It can be one bit wider than the
/// widest machine integer, so it is kept as that integer and a carry.
#[derive(Debug, Copy, Clone, PartialEq, Eq, Structural)]
pub struct SquaredDistance {
    /// Whether 2^128 has to be added to `low`.
    pub wrapped: bool,
    pub low: u128,
}

impl SquaredDistance {
    /// The distance as a number.
    pub open spec fn value(self) -> int {
        if self.wrapped {
            self.low + 0x1_0000_0000_0000_0000_0000_0000_0000_0000
        } else {
            self.low as int
        }
    }

    /// Whether this distance is shorter than `other`.
    pub fn less_than(&self, other: &SquaredDistance) -> (shorter: bool)
        ensures
            shorter == (self.value() < other.value()),
    {
        if self.wrapped == other.wrapped {
            self.low < other.low
        } else {
            other.wrapped
        }
    }
}

/// The square of the difference of two coordinates.
fn squared_difference(a: i64, b: i64) -> (sq: u128)
    ensures
        sq == (a - b) * (a - b),
        sq <= 0xffff_ffff_ffff_fffe_0000_0000_0000_0001,
{
    let d: i128 = a as i128 - b as i128;
    let m: u128 = if d >= 0 {
        d as u128
    } else {
        (-d) as u128
    };
    assert(m * m == d * d && m * m <= 0xffff_ffff_ffff_fffe_0000_0000_0000_0001)
        by (nonlinear_arith)
        requires
            m == d || m == -d,
            0 <= m <= 0xffff_ffff_ffff_ffff,
    ;
    m * m
}

/// Squared Euclidean distance between two points, in squared steps. It orders
/// pairs of points exactly as the Euclidean distance does.
pub open spec fn dist2(a: Point, b: Point) -> int {
    (a.x - b.x) * (a.x - b.x) + (a.y - b.y) * (a.y - b.y)
}

impl Point {
    /// The point with the given coordinates.
    pub fn new(x: i64, y: i64) -> (p: Self)
        ensures
            p.x == x,
            p.y == y,
    {
        Self { x, y }
    }

    /// Moves the point to the given coordinates.
    pub fn update(&mut self, x: &i64, y: &i64)
        ensures
            final(self).x == *x,
            final(self).y == *y,
    {
        self.x = *x;
        self.y = *y;
    }

    /// Squared Euclidean distance to `other`.
    pub fn squared_distance(&self, other: &Point) -> (d: SquaredDistance)
        ensures
            d.value() == dist2(*self, *other),
    {
        let sx: u128 = squared_difference(self.x, other.x);
        let sy: u128 = squared_difference(self.y, other.y);
        if sx > u128::MAX - sy {
            SquaredDistance { wrapped: true, low: sx - (u128::MAX - sy) - 1 }
        } else {
            SquaredDistance { wrapped: false, low: sx + sy }
        }
    }
}

} // verus!
