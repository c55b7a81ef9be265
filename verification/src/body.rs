use crate::constants::{MASS_MAX, RADIUS_CUBE_NUM};
use crate::geom::{dist_sq, in_bounds, Point};
use crate::math::{
    cbrt_floor, lemma_cbrt_floor_bounds, sat_i64, sqrt_floor, wavg, wavg_i64,
};
use vstd::prelude::*;

verus! {

/// A point mass: position, per-tick momentum (which doubles as the
/// displacement applied by one integration step), mass, and a radius
/// derived from the mass.
#[derive(Copy, Clone, Debug, PartialEq, Eq, Structural)]
pub struct Body {
    pub p: Point,
    pub momentum: Point,
    pub mass: u64,
    pub radius: u64,
}

/// The radius a body of mass `mass` carries: the cube root of
/// `RADIUS_CUBE_NUM * mass`, rounded down.
pub open spec fn radius_of_mass(mass: nat) -> nat {
    cbrt_floor((RADIUS_CUBE_NUM * mass) as nat)
}

/// The body that results from merging `a` and `b`: masses add, position and
/// momentum are the mass-weighted averages, and the radius is re-derived
/// from the combined mass.
pub open spec fn merged(a: Body, b: Body) -> Body {
    Body {
        p: Point {
            x: wavg(a.p.x as int, a.mass as int, b.p.x as int, b.mass as int) as i64,
            y: wavg(a.p.y as int, a.mass as int, b.p.y as int, b.mass as int) as i64,
        },
        momentum: Point {
            x: wavg(
                a.momentum.x as int,
                a.mass as int,
                b.momentum.x as int,
                b.mass as int,
            ) as i64,
            y: wavg(
                a.momentum.y as int,
                a.mass as int,
                b.momentum.y as int,
                b.mass as int,
            ) as i64,
        },
        mass: (a.mass + b.mass) as u64,
        radius: radius_of_mass((a.mass + b.mass) as nat) as u64,
    }
}

/// The radius of any admissible mass fits comfortably in the machine range.
pub proof fn lemma_radius_of_mass_bound(m: nat)
    requires
        m <= MASS_MAX,
    ensures
        radius_of_mass(m) <= 0x1000_0000,
{
    lemma_cbrt_floor_bounds((RADIUS_CUBE_NUM * m) as nat);
    let c = radius_of_mass(m);
    assert((c as int) <= 0x1000_0000) by (nonlinear_arith)
        requires
            (c as int) * (c as int) * (c as int) <= 0x10_0000_0000_0000_0000_0000,
            c >= 0,
    ;
}

impl Body {
    /// A body fit to take part in the simulation: positive, bounded mass,
    /// with its radius agreeing with the radius law.
    pub open spec fn valid(self) -> bool {
        &&& 1 <= self.mass <= MASS_MAX
        &&& self.radius == radius_of_mass(self.mass as nat)
    }

    /// Radius derived from a mass.
    pub fn radius_from_mass(mass: u64) -> (r: u64)
        requires
            mass <= MASS_MAX,
        ensures
            r as nat == radius_of_mass(mass as nat),
            r <= 0x1000_0000,
    {
        let c = crate::math::icbrt_u128(RADIUS_CUBE_NUM * mass as u128);
        proof {
            lemma_radius_of_mass_bound(mass as nat);
        }
        c as u64
    }

    /// A fresh body at rest: zero momentum, radius derived from the mass.
    pub fn new(p: Point, mass: u64) -> (r: Body)
        requires
            1 <= mass <= MASS_MAX,
        ensures
            r.p == p,
            r.momentum == (Point { x: 0, y: 0 }),
            r.mass == mass,
            r.valid(),
    {
        Body { p, momentum: Point { x: 0, y: 0 }, mass, radius: Self::radius_from_mass(mass) }
    }

    /// A fresh body with an initial momentum.
    pub fn new_with_momentum(p: Point, mass: u64, momentum: Point) -> (r: Body)
        requires
            1 <= mass <= MASS_MAX,
        ensures
            r.p == p,
            r.momentum == momentum,
            r.mass == mass,
            r.valid(),
    {
        Body { p, momentum, mass, radius: Self::radius_from_mass(mass) }
    }

    /// The mass-derived radius.
    pub fn radius(&self) -> (r: u64)
        ensures
            r == self.radius,
    {
        self.radius
    }

    /// The rendering colour of a body (an RGBA quadruple, full green).
    pub fn color(&self) -> (r: (u8, u8, u8, u8))
        ensures
            r == (0u8, 255u8, 0u8, 255u8),
    {
        (0, 255, 0, 255)
    }

    /// Displacement from this body to `other`; see `Point::dir_to`.
    pub fn dir_to(&self, other: &Body) -> (r: Point)
        requires
            in_bounds(self.p),
            in_bounds(other.p),
        ensures
            r.x == other.p.x - self.p.x,
            r.y == other.p.y - self.p.y,
    {
        self.p.dir_to(&other.p)
    }

    /// Distance to `other`, rounded down to whole length units.
    pub fn dist_to(&self, other: &Body) -> (r: u64)
        requires
            in_bounds(self.p),
            in_bounds(other.p),
        ensures
            r as nat == sqrt_floor(dist_sq(self.p, other.p) as nat),
    {
        self.p.dist_to(&other.p)
    }

    /// Squared distance to `other`, exact.
    pub fn dist_sq_to(&self, other: &Body) -> (r: u128)
        requires
            in_bounds(self.p),
            in_bounds(other.p),
        ensures
            r as int == dist_sq(self.p, other.p),
    {
        self.p.dist_sq_to(&other.p)
    }

    /// One integration step: the position advances by the momentum
    /// (saturating at the machine range); nothing else changes.
    pub fn shift_with_momentum(&mut self)
        ensures
            final (self).p.x as int == sat_i64(old(self).p.x + old(self).momentum.x),
            final (self).p.y as int == sat_i64(old(self).p.y + old(self).momentum.y),
            final (self).momentum == old(self).momentum,
            final (self).mass == old(self).mass,
            final (self).radius == old(self).radius,
    {
        let m = self.momentum;
        self.p.shift(&m);
    }

    /// Absorb `other` into this body, conserving total mass and momentum:
    /// the result is exactly `merged(self, other)`.
    pub fn agglutinate(&mut self, other: Body)
        requires
            old(self).valid(),
            other.valid(),
            old(self).mass + other.mass <= MASS_MAX,
        ensures
            *final (self) == merged(*old(self), other),
            final (self).valid(),
    {
        let new_mass: u64 = self.mass + other.mass;
        let new_p = Point {
            x: wavg_i64(self.p.x, self.mass, other.p.x, other.mass),
            y: wavg_i64(self.p.y, self.mass, other.p.y, other.mass),
        };
        let new_momentum = Point {
            x: wavg_i64(self.momentum.x, self.mass, other.momentum.x, other.mass),
            y: wavg_i64(self.momentum.y, self.mass, other.momentum.y, other.mass),
        };
        self.p = new_p;
        self.momentum = new_momentum;
        self.mass = new_mass;
        self.radius = Self::radius_from_mass(new_mass);
    }
}

} // verus!
