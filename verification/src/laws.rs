use crate::body::{merged, Body};
use crate::constants::{MASS_MAX, POS_MAX};
use crate::consolidate::{all_valid, scrutinize_spec};
use crate::geom::{in_bounds, Point};
use crate::math::{lemma_wavg_between, sat_i64};
use crate::recenter::{
    lemma_translated_mass, lemma_translated_sums, recenter_delta, recenter_spec, shifted,
    translated,
};
use crate::tree::{
    bodies_of, build_spec, distinct_positions, is_pow2, keep_contained, lemma_build_ok,
    lemma_keep_contained_props, mass_sum, tree_wf, wx_sum, wy_sum, zone_of, MaybeNode,
};
use crate::zone::Zone;
use vstd::arithmetic::div_mod::lemma_hoist_over_denominator;
use vstd::arithmetic::mul::lemma_mul_is_commutative;
use vstd::prelude::*;

verus! {

/// Mass conservation under merge: the merged body carries exactly the sum
/// of the two masses.
pub proof fn lemma_merge_mass_conservation(a: Body, b: Body)
    requires
        a.mass + b.mass <= MASS_MAX,
    ensures
        merged(a, b).mass == a.mass + b.mass,
{
}

/// Momentum conservation under merge: each momentum component of the
/// merged body is exactly the mass-weighted average (rounded down) of the
/// two inputs, i.e. total momentum is conserved up to that rounding.
pub proof fn lemma_merge_momentum_conservation(a: Body, b: Body)
    requires
        1 <= a.mass,
        1 <= b.mass,
        a.mass + b.mass <= MASS_MAX,
    ensures
        merged(a, b).momentum.x as int == (a.momentum.x * a.mass + b.momentum.x * b.mass) / (a.mass
            + b.mass),
        merged(a, b).momentum.y as int == (a.momentum.y * a.mass + b.momentum.y * b.mass) / (a.mass
            + b.mass),
        merged(a, b).p.x as int == (a.p.x * a.mass + b.p.x * b.mass) / (a.mass + b.mass),
        merged(a, b).p.y as int == (a.p.y * a.mass + b.p.y * b.mass) / (a.mass + b.mass),
{
    lemma_wavg_between(a.momentum.x as int, a.mass as int, b.momentum.x as int, b.mass as int);
    lemma_wavg_between(a.momentum.y as int, a.mass as int, b.momentum.y as int, b.mass as int);
    lemma_wavg_between(a.p.x as int, a.mass as int, b.p.x as int, b.mass as int);
    lemma_wavg_between(a.p.y as int, a.mass as int, b.p.y as int, b.mass as int);
}

/// Mass conservation across a whole consolidation pass: the total mass of
/// the output equals the total mass of the contained input bodies (only
/// out-of-zone drops remove mass; merging never does).
pub proof fn lemma_consolidation_mass_conservation(s: Seq<Body>, z: Zone)
    requires
        z.wf(),
        all_valid(s),
        mass_sum(s) <= MASS_MAX,
    ensures
        mass_sum(scrutinize_spec(s, z)) == mass_sum(keep_contained(s, z)),
{
    crate::consolidate::lemma_scrutinize_wf(s, z);
}

/// Centroid correctness: in a well-formed tree, every internal node's
/// aggregate carries the total mass of the bodies in its subtree and the
/// mass-weighted average of their positions (rounded down); and its
/// children are well-formed in turn, so the same holds of every internal
/// node below it.
pub proof fn lemma_centroid_correctness(n: MaybeNode)
    requires
        tree_wf(n),
        n is Something,
    ensures
        (n->Something_1).virtual_body.mass as int == mass_sum(bodies_of(n)),
        (n->Something_1).virtual_body.p.x as int == wx_sum(bodies_of(n)) / mass_sum(bodies_of(n)),
        (n->Something_1).virtual_body.p.y as int == wy_sum(bodies_of(n)) / mass_sum(bodies_of(n)),
        bodies_of(n).len() >= 1,
        tree_wf((n->Something_1).branches.0),
        tree_wf((n->Something_1).branches.1),
        tree_wf((n->Something_1).branches.2),
        tree_wf((n->Something_1).branches.3),
{
}

/// Partition completeness: when every body lies inside the zone being
/// split, classification claims each body for exactly one quadrant — the
/// four claimed groups cover the bodies with nothing lost and nothing
/// counted twice, and carry exactly the original mass and weighted sums.
pub proof fn lemma_partition_completeness(s: Seq<Body>, z: Zone)
    requires
        z.wf(),
        z.width >= 2,
        z.width % 2 == 0,
        forall|i: int| 0 <= i < s.len() ==> z.contains_spec((#[trigger] s[i]).p),
    ensures
        crate::tree::assigned(s, z, 0).len() + crate::tree::assigned(s, z, 1).len()
            + crate::tree::assigned(s, z, 2).len() + crate::tree::assigned(s, z, 3).len()
            == s.len(),
        mass_sum(crate::tree::assigned(s, z, 0)) + mass_sum(crate::tree::assigned(s, z, 1))
            + mass_sum(crate::tree::assigned(s, z, 2)) + mass_sum(crate::tree::assigned(s, z, 3))
            == mass_sum(s),
        forall|i: int, k: int|
            0 <= i < crate::tree::assigned(s, z, k).len() && 0 <= k < 4
                ==> crate::tree::quad_of(z, (#[trigger] crate::tree::assigned(s, z, k)[i]).p)
                == k,
{
    crate::tree::lemma_assigned_partition(s, z);
    crate::tree::lemma_assigned_contained(s, z, 0);
    crate::tree::lemma_assigned_contained(s, z, 1);
    crate::tree::lemma_assigned_contained(s, z, 2);
    crate::tree::lemma_assigned_contained(s, z, 3);
}

/// Idempotent recenter: starting from a tree freshly built over the body
/// list (no two bodies coincident), if the recentering shift leaves every
/// body inside the zone, then recentering a second time changes nothing:
/// after the first pass the centroid already sits at the zone's center.
pub proof fn lemma_recenter_idempotent(z: Zone, s: Seq<Body>)
    requires
        z.wf(),
        is_pow2(z.width as nat),
        all_valid(s),
        mass_sum(s) <= MASS_MAX,
        forall|i: int| 0 <= i < s.len() ==> z.contains_spec((#[trigger] s[i]).p),
        distinct_positions(s),
        s.len() >= 1,
        forall|i: int|
            0 <= i < s.len() ==> z.contains_spec(
                shifted(#[trigger] s[i], recenter_delta(build_spec(z, s))).p,
            ),
    ensures
        ({
            let once = recenter_spec(build_spec(z, s), s);
            recenter_spec(once.0, once.1) == once
        }),
{
    let t = build_spec(z, s);
    lemma_build_ok(z, s);
    let center = z.center_spec();
    if s.len() >= 2 && z.width < 2 {
        assert(z.width == 1);
        assert(s[0].p == s[1].p);
        assert(false);
    }
    let delta = recenter_delta(t);
    let root: Point = if s.len() == 1 {
        s[0].p
    } else {
        (t->Something_1).virtual_body.p
    };
    assert(z.contains_spec(root)) by {
        if s.len() == 1 {
            assert(t == MaybeNode::One(z, s[0]));
        } else {
            assert(tree_wf(t));
        }
    }
    assert(delta.x == center.x - root.x && delta.y == center.y - root.y);
    assert(-2 * POS_MAX <= delta.x <= 2 * POS_MAX && -2 * POS_MAX <= delta.y <= 2 * POS_MAX);
    assert(forall|i: int| 0 <= i < s.len() ==> in_bounds((#[trigger] s[i]).p));
    lemma_translated_sums(s, delta);
    lemma_translated_mass(s, delta);
    let s1 = translated(s, delta);
    assert(forall|i: int| 0 <= i < s1.len() ==> z.contains_spec((#[trigger] s1[i]).p)) by {
        assert(forall|i: int| 0 <= i < s.len() ==> #[trigger] s1[i] == shifted(s[i], delta));
    }
    lemma_keep_contained_props(s1, z);
    assert(keep_contained(s1, z) == s1);
    let once = recenter_spec(t, s);
    assert(once.0 == build_spec(z, s1) && once.1 == s1);
    let t1 = build_spec(z, s1);
    lemma_build_ok(z, s1);
    // The rebuilt tree's root position is exactly the zone center.
    let root1: Point = if s.len() == 1 {
        s1[0].p
    } else {
        (t1->Something_1).virtual_body.p
    };
    assert(root1 == center) by {
        if s.len() == 1 {
            assert(t1 == MaybeNode::One(z, s1[0]));
            assert(s1[0] == shifted(s[0], delta));
            assert(s1[0].p.x as int == s[0].p.x + delta.x);
            assert(s1[0].p.y as int == s[0].p.y + delta.y);
        } else {
            let m = mass_sum(s);
            assert(m >= 1) by {
                crate::tree::lemma_sums_in_range(
                    s,
                    -POS_MAX as int,
                    POS_MAX as int,
                    -POS_MAX as int,
                    POS_MAX as int,
                );
            }
            assert(tree_wf(t) && tree_wf(t1));
            assert(mass_sum(bodies_of(t)) == m && wx_sum(bodies_of(t)) == wx_sum(s) && wy_sum(
                bodies_of(t),
            ) == wy_sum(s));
            assert(mass_sum(bodies_of(t1)) == m && wx_sum(bodies_of(t1)) == wx_sum(s1) && wy_sum(
                bodies_of(t1),
            ) == wy_sum(s1));
            assert(root.x as int == wx_sum(s) / m && root.y as int == wy_sum(s) / m);
            assert(root1.x as int == wx_sum(s1) / m && root1.y as int == wy_sum(s1) / m);
            assert(wx_sum(s1) == wx_sum(s) + delta.x * m);
            assert(wy_sum(s1) == wy_sum(s) + delta.y * m);
            lemma_hoist_over_denominator(wx_sum(s), delta.x as int, m as nat);
            lemma_hoist_over_denominator(wy_sum(s), delta.y as int, m as nat);
            lemma_mul_is_commutative(delta.x as int, m);
            lemma_mul_is_commutative(delta.y as int, m);
            assert(root1.x as int == wx_sum(s) / m + delta.x);
            assert(root1.y as int == wy_sum(s) / m + delta.y);
        }
    }
    // Second pass: the displacement is zero, so nothing moves or drops.
    let delta2 = Point {
        x: (center.x - root1.x) as i64,
        y: (center.y - root1.y) as i64,
    };
    assert(delta2 == (Point { x: 0i64, y: 0i64 }));
    let s2 = translated(s1, delta2);
    assert(s2 =~= s1) by {
        assert forall|i: int| 0 <= i < s1.len() implies #[trigger] s2[i] == s1[i] by {
            assert(s2[i] == shifted(s1[i], delta2));
            assert(sat_i64(s1[i].p.x + 0) == s1[i].p.x as int);
            assert(sat_i64(s1[i].p.y + 0) == s1[i].p.y as int);
            assert(shifted(s1[i], delta2).p == s1[i].p);
        }
    }
    lemma_keep_contained_props(s2, z);
    assert(keep_contained(s2, z) == s1);
    let twice = recenter_spec(once.0, once.1);
    assert(twice.0 == build_spec(z, s1) && twice.1 == s1) by {
        if s.len() == 1 {
            assert(t1 == MaybeNode::One(z, s1[0]));
        } else {
            assert(t1 is Something);
        }
    }
    assert(twice == once);
}

} // verus!
