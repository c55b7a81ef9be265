use crate::constants::POS_MAX;
use crate::math::{sat_add_i64, sat_i64, sqrt_floor};
use vstd::prelude::*;

verus! {

/// A position or displacement in the plane, in fixed-point length units.
#[derive(Copy, Clone, Debug, PartialEq, Eq, Structural)]
pub struct Point {
    pub x: i64,
    pub y: i64,
}

/// Coordinates small enough that every difference, square and weighted sum
/// the engine forms stays inside 128-bit arithmetic.
pub open spec fn in_bounds(p: Point) -> bool {
    &&& -POS_MAX <= p.x <= POS_MAX
    &&& -POS_MAX <= p.y <= POS_MAX
}

/// Squared Euclidean distance between two points.
pub open spec fn dist_sq(a: Point, b: Point) -> int {
    (b.x - a.x) * (b.x - a.x) + (b.y - a.y) * (b.y - a.y)
}

impl Point {
    /// The canonical zero point / zero displacement.
    pub fn null() -> (r: Point)
        ensures
            r == (Point { x: 0, y: 0 }),
    {
        Point { x: 0, y: 0 }
    }

    /// Component-wise displacement from `other` to `self`.
    pub fn sub(&self, other: &Point) -> (r: Point)
        requires
            in_bounds(*self),
            in_bounds(*other),
        ensures
            r.x == self.x - other.x,
            r.y == self.y - other.y,
    {
        Point { x: self.x - other.x, y: self.y - other.y }
    }

    /// Translate by `other`, saturating at the machine range.
    pub fn shift(&mut self, other: &Point)
        ensures
            final (self).x as int == sat_i64(old(self).x + other.x),
            final (self).y as int == sat_i64(old(self).y + other.y),
    {
        self.x = sat_add_i64(self.x, other.x);
        self.y = sat_add_i64(self.y, other.y);
    }

    /// Squared Euclidean distance to `other`, exact.
    pub fn dist_sq_to(&self, other: &Point) -> (r: u128)
        requires
            in_bounds(*self),
            in_bounds(*other),
        ensures
            r as int == dist_sq(*self, *other),
    {
        let dx: i128 = other.x as i128 - self.x as i128;
        let dy: i128 = other.y as i128 - self.y as i128;
        proof {
            assert(0 <= dx * dx <= 0x4_0000_0000_0000_0000_0000) by (nonlinear_arith)
                requires
                    -0x200_0000_0000 <= (dx as int) <= 0x200_0000_0000,
            ;
            assert(0 <= dy * dy <= 0x4_0000_0000_0000_0000_0000) by (nonlinear_arith)
                requires
                    -0x200_0000_0000 <= (dy as int) <= 0x200_0000_0000,
            ;
        }
        (dx * dx + dy * dy) as u128
    }

    /// Euclidean distance to `other`, rounded down to whole length units.
    pub fn dist_to(&self, other: &Point) -> (r: u64)
        requires
            in_bounds(*self),
            in_bounds(*other),
        ensures
            r as nat == sqrt_floor(dist_sq(*self, *other) as nat),
    {
        let d2 = self.dist_sq_to(other);
        let d = crate::math::isqrt_u128(d2);
        proof {
            assert(d <= 0xffff_ffff_ffff_ffff) by (nonlinear_arith)
                requires
                    d * d <= d2,
                    d2 <= u128::MAX,
            ;
        }
        d as u64
    }

    /// The displacement from `self` to `other`. Its components over its own
    /// length are exactly the cosine and sine of the bearing angle: the
    /// arctangent of the slope, corrected by a half turn when the target
    /// lies in the left half-plane.
    pub fn dir_to(&self, other: &Point) -> (r: Point)
        requires
            in_bounds(*self),
            in_bounds(*other),
        ensures
            r.x == other.x - self.x,
            r.y == other.y - self.y,
    {
        other.sub(self)
    }
}

} // verus!
