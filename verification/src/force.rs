use crate::body::Body;
use crate::constants::{FORCE_EPS, GRAV_CONSTANT, MASS_MAX, THRESH_DIST_SQ};
use crate::geom::{dist_sq, in_bounds, Point};
use crate::math::{
    clamp_i128_to_i64, div_floor_i128, isqrt_u128, lemma_sqrt_floor_bounds, sat_add_i64, sat_i64,
    sqrt_floor,
};
use crate::tree::{tree_wf, MaybeNode};
use vstd::arithmetic::div_mod::{lemma_div_is_ordered, lemma_div_is_ordered_by_denominator};
use vstd::prelude::*;

verus! {

/// The momentum increment one attracting body adds to a pulled body, per
/// component, before accumulation: zero at zero separation; otherwise the
/// scaled gravity law `G * m / (d + eps)^2`, projected on the displacement
/// direction and divided by the pulled mass, with floor rounding and the
/// result clamped to the machine range.
pub open spec fn accel_delta(pulled: Body, other: Body) -> (int, int) {
    let dx = other.p.x - pulled.p.x;
    let dy = other.p.y - pulled.p.y;
    let d2 = dist_sq(pulled.p, other.p);
    if d2 == 0 {
        (0, 0)
    } else {
        let d = sqrt_floor(d2 as nat) as int;
        let power = (GRAV_CONSTANT * other.mass) as int / ((d + FORCE_EPS) * (d + FORCE_EPS));
        let den = d * pulled.mass;
        (sat_i64((power * dx) / den), sat_i64((power * dy) / den))
    }
}

/// The pulled body after one direct attraction: momentum accumulates the
/// per-component increments (saturating); nothing else changes.
pub open spec fn force_spec(pulled: Body, other: Body) -> Body {
    let (ax, ay) = accel_delta(pulled, other);
    Body {
        p: pulled.p,
        momentum: Point {
            x: sat_i64(pulled.momentum.x + ax) as i64,
            y: sat_i64(pulled.momentum.y + ay) as i64,
        },
        mass: pulled.mass,
        radius: pulled.radius,
    }
}

/// The pulled body after traversing a whole tree: an empty region
/// contributes nothing; a single occupant attracts directly; an internal
/// node attracts as one point mass when the pulled body is strictly beyond
/// the opening threshold (squared distances compared exactly), and is
/// otherwise opened, its four children visited in the fixed order.
pub open spec fn apply_tree_spec(pulled: Body, n: MaybeNode) -> Body
    decreases n,
{
    match n {
        MaybeNode::Nothing(_) => pulled,
        MaybeNode::One(_, b) => force_spec(pulled, b),
        MaybeNode::Something(_, node) => {
            if dist_sq(pulled.p, node.virtual_body.p) > THRESH_DIST_SQ {
                force_spec(pulled, node.virtual_body)
            } else {
                let p0 = apply_tree_spec(pulled, node.branches.0);
                let p1 = apply_tree_spec(p0, node.branches.1);
                let p2 = apply_tree_spec(p1, node.branches.2);
                apply_tree_spec(p2, node.branches.3)
            }
        },
    }
}

/// Force accumulation only ever changes the momentum.
pub proof fn lemma_apply_tree_preserves(pulled: Body, n: MaybeNode)
    ensures
        apply_tree_spec(pulled, n).p == pulled.p,
        apply_tree_spec(pulled, n).mass == pulled.mass,
        apply_tree_spec(pulled, n).radius == pulled.radius,
    decreases n,
{
    match n {
        MaybeNode::Nothing(_) => {},
        MaybeNode::One(_, _) => {},
        MaybeNode::Something(_, node) => {
            if dist_sq(pulled.p, node.virtual_body.p) > THRESH_DIST_SQ {
            } else {
                let p0 = apply_tree_spec(pulled, node.branches.0);
                let p1 = apply_tree_spec(p0, node.branches.1);
                let p2 = apply_tree_spec(p1, node.branches.2);
                lemma_apply_tree_preserves(pulled, node.branches.0);
                lemma_apply_tree_preserves(p0, node.branches.1);
                lemma_apply_tree_preserves(p1, node.branches.2);
                lemma_apply_tree_preserves(p2, node.branches.3);
            }
        },
    }
}

/// A body exerts no force on a body at the same position; in particular
/// none on itself.
pub proof fn lemma_coincident_no_force(pulled: Body, other: Body)
    requires
        pulled.p == other.p,
    ensures
        force_spec(pulled, other) == pulled,
{
    assert(dist_sq(pulled.p, other.p) == 0);
    assert(sat_i64(pulled.momentum.x + 0) == pulled.momentum.x as int);
    assert(sat_i64(pulled.momentum.y + 0) == pulled.momentum.y as int);
    let r = force_spec(pulled, other);
    assert(r.momentum.x == pulled.momentum.x && r.momentum.y == pulled.momentum.y);
    assert(r.momentum == pulled.momentum);
    assert(r == pulled);
}

/// At a separation exactly equal to the opening threshold the traversal
/// recurses into the children rather than approximating: only a strictly
/// greater separation is approximated.
pub proof fn lemma_threshold_boundary(pulled: Body, n: MaybeNode)
    requires
        n is Something,
        dist_sq(pulled.p, (n->Something_1).virtual_body.p) == THRESH_DIST_SQ,
    ensures
        apply_tree_spec(pulled, n) == {
            let node = n->Something_1;
            let p0 = apply_tree_spec(pulled, node.branches.0);
            let p1 = apply_tree_spec(p0, node.branches.1);
            let p2 = apply_tree_spec(p1, node.branches.2);
            apply_tree_spec(p2, node.branches.3)
        },
{
}

/// Direct attraction of `other` on `pulled`, written into `pulled`'s
/// momentum; exactly `force_spec`.
pub fn force(pulled: &mut Body, other: &Body)
    requires
        in_bounds(old(pulled).p),
        in_bounds(other.p),
        1 <= old(pulled).mass,
        other.mass <= MASS_MAX,
    ensures
        *final (pulled) == force_spec(*old(pulled), *other),
{
    let d2: u128 = pulled.p.dist_sq_to(&other.p);
    if d2 == 0 {
        proof {
            assert(force_spec(*pulled, *other) == *pulled) by {
                assert(sat_i64(pulled.momentum.x + 0) == pulled.momentum.x as int);
                assert(sat_i64(pulled.momentum.y + 0) == pulled.momentum.y as int);
                assert(force_spec(*pulled, *other).momentum == pulled.momentum);
            }
        }
        return ;
    }
    let d: u128 = isqrt_u128(d2);
    proof {
        lemma_sqrt_floor_bounds(d2 as nat);
        assert(d2 <= 0x8_0000_0000_0000_0000_0000) by {
            assert(dist_sq(pulled.p, other.p) <= 2 * (0x200_0000_0000 * 0x200_0000_0000)) by (nonlinear_arith)
                requires
                    -0x200_0000_0000 <= other.p.x - pulled.p.x <= 0x200_0000_0000,
                    -0x200_0000_0000 <= other.p.y - pulled.p.y <= 0x200_0000_0000,
            ;
        }
        assert(d >= 1) by {
            assert((d as int + 1) * (d as int + 1) > d2);
        }
        assert(d <= 0x400_0000_0000) by (nonlinear_arith)
            requires
                (d as int) * (d as int) <= d2,
                d2 <= 0x8_0000_0000_0000_0000_0000,
                d >= 0,
        ;
    }
    let dpe: u128 = d + FORCE_EPS as u128;
    proof {
        assert((dpe as int) * (dpe as int) <= 0x20_0000_0000_0000_0000_0000
            && (dpe as int) * (dpe as int) >= 100_000_000_000_000) by (nonlinear_arith)
            requires
                10_000_000 <= (dpe as int) <= 0x400_0000_0000 + 10_000_000,
        ;
    }
    let denom1: u128 = dpe * dpe;
    let power: u128 = (GRAV_CONSTANT * other.mass as u128) / denom1;
    proof {
        lemma_div_is_ordered_by_denominator(
            (GRAV_CONSTANT * other.mass as u128) as int,
            100_000_000_000_000,
            denom1 as int,
        );
        lemma_div_is_ordered(
            (GRAV_CONSTANT * other.mass as u128) as int,
            175_921_860_444_160_000_000_000_000_000_000,
            100_000_000_000_000,
        );
        assert(power <= 1_759_218_604_441_600_000);
    }
    let dx: i64 = other.p.x - pulled.p.x;
    let dy: i64 = other.p.y - pulled.p.y;
    proof {
        assert((power as int) * (dx as int) <= 4_000_000_000_000_000_000_000_000_000_000
            && (power as int) * (dx as int) >= -4_000_000_000_000_000_000_000_000_000_000
            && (power as int) * (dy as int) <= 4_000_000_000_000_000_000_000_000_000_000
            && (power as int) * (dy as int) >= -4_000_000_000_000_000_000_000_000_000_000)
            by (nonlinear_arith)
            requires
                0 <= (power as int) <= 1_759_218_604_441_600_000,
                -0x200_0000_0000 <= (dx as int) <= 0x200_0000_0000,
                -0x200_0000_0000 <= (dy as int) <= 0x200_0000_0000,
        ;
        assert(1 <= (d as int) * (pulled.mass as int) <= 0x4_0000_0000_0000_0000_0000_0000_0000)
            by (nonlinear_arith)
            requires
                1 <= (d as int) <= 0x400_0000_0000,
                1 <= (pulled.mass as int),
                (pulled.mass as int) <= 0xffff_ffff_ffff_ffff,
        ;
    }
    let den2: i128 = (d as i128) * (pulled.mass as i128);
    let nx: i128 = (power as i128) * (dx as i128);
    let ny: i128 = (power as i128) * (dy as i128);
    let qx: i128 = div_floor_i128(nx, den2);
    let qy: i128 = div_floor_i128(ny, den2);
    let ax: i64 = clamp_i128_to_i64(qx);
    let ay: i64 = clamp_i128_to_i64(qy);
    pulled.momentum.x = sat_add_i64(pulled.momentum.x, ax);
    pulled.momentum.y = sat_add_i64(pulled.momentum.y, ay);
    proof {
        let (sax, say) = accel_delta(*old(pulled), *other);
        assert(ax as int == sax && ay as int == say);
        assert(*pulled == force_spec(*old(pulled), *other));
    }
}

/// Accumulate into `body`'s momentum the force the whole tree exerts on
/// it, traversing exactly as `apply_tree_spec` describes: distant internal
/// nodes are taken as single point masses, near ones are opened.
pub fn apply_forces(body: &mut Body, n: &MaybeNode)
    requires
        in_bounds(old(body).p),
        1 <= old(body).mass,
        tree_wf(*n),
    ensures
        *final (body) == apply_tree_spec(*old(body), *n),
    decreases *n,
{
    match n {
        MaybeNode::Nothing(_) => {},
        MaybeNode::One(zz, b) => {
            proof {
                zz.lemma_contained_in_bounds(b.p);
            }
            force(body, b);
        },
        MaybeNode::Something(zz, x) => {
            proof {
                zz.lemma_contained_in_bounds(x.virtual_body.p);
            }
            let d2: u128 = body.p.dist_sq_to(&x.virtual_body.p);
            if d2 > THRESH_DIST_SQ {
                force(body, &x.virtual_body);
            } else {
                proof {
                    lemma_apply_tree_preserves(*body, x.branches.0);
                }
                apply_forces(body, &x.branches.0);
                proof {
                    lemma_apply_tree_preserves(*body, x.branches.1);
                }
                apply_forces(body, &x.branches.1);
                proof {
                    lemma_apply_tree_preserves(*body, x.branches.2);
                }
                apply_forces(body, &x.branches.2);
                apply_forces(body, &x.branches.3);
            }
        },
    }
}

} // verus!
