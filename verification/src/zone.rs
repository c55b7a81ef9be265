use crate::constants::POS_MAX;
use crate::geom::{in_bounds, Point};
use vstd::prelude::*;

verus! {

/// An axis-aligned square region: top-left corner and side length.
/// Containment is half-open on both axes, so the four children of a split
/// tile their parent exactly.
#[derive(Copy, Clone, Debug, PartialEq, Eq, Structural)]
pub struct Zone {
    pub tl: Point,
    pub width: u64,
}

impl Zone {
    /// A well-formed zone: positive width, and coordinates far enough from
    /// the machine range that all derived arithmetic is exact.
    pub open spec fn wf(self) -> bool {
        &&& 1 <= self.width
        &&& -POS_MAX <= self.tl.x
        &&& -POS_MAX <= self.tl.y
        &&& self.tl.x + self.width <= POS_MAX
        &&& self.tl.y + self.width <= POS_MAX
    }

    /// Half-open containment: `[tl, tl + width)` on each axis.
    pub open spec fn contains_spec(self, p: Point) -> bool {
        &&& self.tl.x <= p.x < self.tl.x + self.width
        &&& self.tl.y <= p.y < self.tl.y + self.width
    }

    /// Every point a well-formed zone contains has bounded coordinates.
    pub proof fn lemma_contained_in_bounds(self, p: Point)
        requires
            self.wf(),
            self.contains_spec(p),
        ensures
            in_bounds(p),
    {
    }

    pub fn contains(&self, p: &Point) -> (r: bool)
        requires
            self.wf(),
        ensures
            r == self.contains_spec(*p),
    {
        let hi_x: i64 = self.tl.x + self.width as i64;
        let hi_y: i64 = self.tl.y + self.width as i64;
        self.tl.x <= p.x && p.x < hi_x && self.tl.y <= p.y && p.y < hi_y
    }

    /// The four quadrants of this zone, in the fixed order the whole engine
    /// agrees on: top-left, top-right, bottom-left, bottom-right.
    pub open spec fn split_spec(self) -> (Zone, Zone, Zone, Zone) {
        let h = (self.width / 2) as u64;
        (
            Zone { tl: self.tl, width: h },
            Zone { tl: Point { x: (self.tl.x + h) as i64, y: self.tl.y }, width: h },
            Zone { tl: Point { x: self.tl.x, y: (self.tl.y + h) as i64 }, width: h },
            Zone {
                tl: Point { x: (self.tl.x + h) as i64, y: (self.tl.y + h) as i64 },
                width: h,
            },
        )
    }

    pub fn split(&self) -> (r: (Zone, Zone, Zone, Zone))
        requires
            self.wf(),
            self.width >= 2,
            self.width % 2 == 0,
        ensures
            r == self.split_spec(),
            r.0.wf() && r.1.wf() && r.2.wf() && r.3.wf(),
    {
        let h: u64 = self.width / 2;
        let mx: i64 = self.tl.x + h as i64;
        let my: i64 = self.tl.y + h as i64;
        (
            Zone { tl: self.tl, width: h },
            Zone { tl: Point { x: mx, y: self.tl.y }, width: h },
            Zone { tl: Point { x: self.tl.x, y: my }, width: h },
            Zone { tl: Point { x: mx, y: my }, width: h },
        )
    }

    /// The canonical center of the zone (rounded down on an odd width).
    pub open spec fn center_spec(self) -> Point {
        Point {
            x: (self.tl.x + self.width as int / 2) as i64,
            y: (self.tl.y + self.width as int / 2) as i64,
        }
    }

    pub fn center(&self) -> (r: Point)
        requires
            self.wf(),
        ensures
            r == self.center_spec(),
            r.x == self.tl.x + self.width as int / 2,
            r.y == self.tl.y + self.width as int / 2,
            self.contains_spec(r),
    {
        let h: u64 = self.width / 2;
        Point { x: self.tl.x + h as i64, y: self.tl.y + h as i64 }
    }

    /// Splitting partitions the parent: every point the parent contains is
    /// contained in exactly one of the four children, boundary points
    /// included (they fall to the child whose half-open interval starts
    /// there).
    pub proof fn lemma_split_partition(self, p: Point)
        requires
            self.wf(),
            self.width >= 2,
            self.width % 2 == 0,
            self.contains_spec(p),
        ensures
            ({
                let (c0, c1, c2, c3) = self.split_spec();
                &&& c0.contains_spec(p) || c1.contains_spec(p) || c2.contains_spec(p)
                    || c3.contains_spec(p)
                &&& c0.contains_spec(p) ==> !c1.contains_spec(p) && !c2.contains_spec(p)
                    && !c3.contains_spec(p)
                &&& c1.contains_spec(p) ==> !c0.contains_spec(p) && !c2.contains_spec(p)
                    && !c3.contains_spec(p)
                &&& c2.contains_spec(p) ==> !c0.contains_spec(p) && !c1.contains_spec(p)
                    && !c3.contains_spec(p)
                &&& c3.contains_spec(p) ==> !c0.contains_spec(p) && !c1.contains_spec(p)
                    && !c2.contains_spec(p)
            }),
    {
    }

    /// A child produced by a split only contains points of its parent.
    pub proof fn lemma_child_within_parent(self, p: Point)
        requires
            self.wf(),
            self.width >= 2,
            self.width % 2 == 0,
        ensures
            ({
                let (c0, c1, c2, c3) = self.split_spec();
                (c0.contains_spec(p) || c1.contains_spec(p) || c2.contains_spec(p)
                    || c3.contains_spec(p)) ==> self.contains_spec(p)
            }),
    {
    }
}

} // verus!
