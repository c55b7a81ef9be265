use vstd::prelude::*;

verus! {

/// Fixed-point scale: this many integer length units make one unit of the
/// real-valued formulation of the simulation.
pub const SCALE: u64 = 1_000_000_000;

/// Opening threshold for the force approximation, in length units
/// (0.2 of a simulation unit). A subtree whose aggregate centroid lies
/// strictly farther than this from the pulled body is treated as a single
/// point mass; at the threshold or closer, the traversal recurses.
pub const THRESH_DIST: u64 = 200_000_000;

/// Square of `THRESH_DIST`, the form in which the opening test is evaluated.
pub const THRESH_DIST_SQ: u128 = 40_000_000_000_000_000;

/// Gravitational constant, pre-scaled: the real-valued constant 1e-8 times
/// `SCALE^3`, so that attraction increments come out in length units.
pub const GRAV_CONSTANT: u128 = 10_000_000_000_000_000_000;

/// Softening constant added to the distance in the attraction law
/// (0.01 of a simulation unit) to keep the denominator away from zero.
pub const FORCE_EPS: u64 = 10_000_000;

/// Radius scaling: a body of mass `m` has radius `cbrt(RADIUS_CUBE_NUM * m)`
/// length units, the fixed-point form of `0.001 * cbrt(m / MASS_SCALE)`
/// simulation units.
pub const RADIUS_CUBE_NUM: u128 = 1_000_000_000_000;

/// This many integer mass units make one mass unit of the real-valued
/// formulation (used only by the radius law; the attraction law is
/// independent of the mass scale).
pub const MASS_SCALE: u64 = 1_000_000;

/// Two bodies merge when their distance is below `MERGE_NUM / MERGE_DEN`
/// (six tenths) of the sum of their radii.
pub const MERGE_NUM: u64 = 3;

/// See `MERGE_NUM`.
pub const MERGE_DEN: u64 = 5;

/// Largest mass a single body, or the whole population, may carry.
pub const MASS_MAX: u64 = 17_592_186_044_416;

/// Bound on the magnitude of any coordinate of a body position or of a
/// zone corner; chosen so that all intermediate products in the engine
/// fit in 128-bit arithmetic.
pub const POS_MAX: i64 = 1_099_511_627_776;

} // verus!
