use crate::body::Body;
use crate::constants::{MASS_MAX, POS_MAX};
use crate::consolidate::all_valid;
use crate::geom::{in_bounds, Point};
use crate::math::sat_i64;
use crate::tree::{
    build_spec, distinct_positions, is_pow2, keep_contained, lemma_keep_contained_props,
    make_tree, mass_sum, tree_wf, wx_sum, wy_sum, zone_of, MaybeNode,
};
use crate::zone::Zone;
use vstd::prelude::*;

verus! {

/// `b` translated by `delta` (saturating at the machine range); only the
/// position moves.
pub open spec fn shifted(b: Body, delta: Point) -> Body {
    Body {
        p: Point {
            x: sat_i64(b.p.x + delta.x) as i64,
            y: sat_i64(b.p.y + delta.y) as i64,
        },
        momentum: b.momentum,
        mass: b.mass,
        radius: b.radius,
    }
}

/// Every body translated by the same displacement.
pub open spec fn translated(s: Seq<Body>, delta: Point) -> Seq<Body> {
    s.map_values(|b: Body| shifted(b, delta))
}

/// Translation touches no mass and no validity.
pub proof fn lemma_translated_mass(s: Seq<Body>, delta: Point)
    ensures
        translated(s, delta).len() == s.len(),
        mass_sum(translated(s, delta)) == mass_sum(s),
        all_valid(s) ==> all_valid(translated(s, delta)),
    decreases s.len(),
{
    let t = translated(s, delta);
    if s.len() > 0 {
        lemma_translated_mass(s.drop_last(), delta);
        assert(t.drop_last() =~= translated(s.drop_last(), delta));
        assert(t.last() == shifted(s.last(), delta));
    }
    if all_valid(s) {
        assert forall|i: int| 0 <= i < t.len() implies (#[trigger] t[i]).valid() by {
            assert(t[i] == shifted(s[i], delta));
            assert(s[i].valid());
        }
    }
}

/// When no translation saturates, the weighted sums shift by the
/// displacement times the total mass, and distinct positions stay distinct.
pub proof fn lemma_translated_sums(s: Seq<Body>, delta: Point)
    requires
        forall|i: int| 0 <= i < s.len() ==> in_bounds((#[trigger] s[i]).p),
        -2 * POS_MAX <= delta.x <= 2 * POS_MAX,
        -2 * POS_MAX <= delta.y <= 2 * POS_MAX,
    ensures
        wx_sum(translated(s, delta)) == wx_sum(s) + delta.x * mass_sum(s),
        wy_sum(translated(s, delta)) == wy_sum(s) + delta.y * mass_sum(s),
        forall|i: int|
            0 <= i < s.len() ==> (#[trigger] translated(s, delta)[i]).p.x == s[i].p.x + delta.x
                && translated(s, delta)[i].p.y == s[i].p.y + delta.y,
        distinct_positions(s) ==> distinct_positions(translated(s, delta)),
    decreases s.len(),
{
    let t = translated(s, delta);
    assert forall|i: int| 0 <= i < s.len() implies (#[trigger] t[i]).p.x == s[i].p.x + delta.x
        && t[i].p.y == s[i].p.y + delta.y by {
        assert(t[i] == shifted(s[i], delta));
    }
    if s.len() > 0 {
        let d = s.drop_last();
        assert(forall|i: int| 0 <= i < d.len() ==> d[i] == s[i]);
        lemma_translated_sums(d, delta);
        lemma_translated_mass(s, delta);
        assert(t.drop_last() =~= translated(d, delta));
        assert(t.last() == shifted(s.last(), delta));
        let b = s.last();
        assert((b.p.x + delta.x) * b.mass == b.p.x * b.mass + delta.x * b.mass) by (nonlinear_arith);
        assert((b.p.y + delta.y) * b.mass == b.p.y * b.mass + delta.y * b.mass) by (nonlinear_arith);
        assert(delta.x * (mass_sum(d) + b.mass) == delta.x * mass_sum(d) + delta.x * b.mass)
            by (nonlinear_arith);
        assert(delta.y * (mass_sum(d) + b.mass) == delta.y * mass_sum(d) + delta.y * b.mass)
            by (nonlinear_arith);
    }
    if distinct_positions(s) {
        assert forall|i: int, j: int| 0 <= i < j < t.len() implies t[i].p != t[j].p by {
            assert(s[i].p != s[j].p);
            assert(t[i].p.x == s[i].p.x + delta.x && t[j].p.x == s[j].p.x + delta.x);
            assert(t[i].p.y == s[i].p.y + delta.y && t[j].p.y == s[j].p.y + delta.y);
        }
    }
}

/// Recentering against a root position: translate every body so that the
/// root position lands on the zone's center, drop what leaves the zone,
/// rebuild the tree from the survivors.
pub open spec fn recenter_with(z: Zone, root: Point, s: Seq<Body>) -> (MaybeNode, Seq<Body>) {
    let delta = Point {
        x: (z.center_spec().x - root.x) as i64,
        y: (z.center_spec().y - root.y) as i64,
    };
    let kept = keep_contained(translated(s, delta), z);
    (build_spec(z, kept), kept)
}

/// The displacement a recalibration applies: from the tree's root position
/// (the sole body, or the aggregate centroid) to the center of its zone.
pub open spec fn recenter_delta(n: MaybeNode) -> Point {
    let z = zone_of(n);
    let root = match n {
        MaybeNode::Nothing(_) => z.center_spec(),
        MaybeNode::One(_, b) => b.p,
        MaybeNode::Something(_, node) => node.virtual_body.p,
    };
    Point {
        x: (z.center_spec().x - root.x) as i64,
        y: (z.center_spec().y - root.y) as i64,
    }
}

/// The recalibration: an empty tree is returned unchanged; otherwise the
/// population is translated so that the tree's top-level aggregate centroid
/// (or the sole body) lands on the center of the overall zone, out-of-zone
/// bodies are dropped, and the tree is rebuilt.
pub open spec fn recenter_spec(n: MaybeNode, s: Seq<Body>) -> (MaybeNode, Seq<Body>) {
    match n {
        MaybeNode::Nothing(_) => (n, s),
        MaybeNode::One(z, body) => recenter_with(z, body.p, s),
        MaybeNode::Something(z, node) => recenter_with(z, node.virtual_body.p, s),
    }
}

/// Copy a body list.
pub fn copy_bodies(v: &Vec<Body>) -> (r: Vec<Body>)
    ensures
        r@ == v@,
{
    let mut out: Vec<Body> = Vec::new();
    let mut i: usize = 0;
    while i < v.len()
        invariant
            i <= v@.len(),
            out@ == v@.take(i as int),
        decreases v@.len() - i,
    {
        out.push(v[i]);
        proof {
            assert(v@.take(i as int + 1) =~= v@.take(i as int).push(v@[i as int]));
        }
        i = i + 1;
    }
    proof {
        assert(v@.take(v@.len() as int) =~= v@);
    }
    out
}

/// Manual recalibration: exactly `recenter_spec`, with a well-formed
/// rebuilt tree over the same zone.
#[verifier::loop_isolation(false)]
pub fn recenter(tree: &MaybeNode, bodies: Vec<Body>) -> (r: (MaybeNode, Vec<Body>))
    requires
        tree_wf(*tree),
        is_pow2(zone_of(*tree).width as nat),
        all_valid(bodies@),
        mass_sum(bodies@) <= MASS_MAX,
    ensures
        r.0 == recenter_spec(*tree, bodies@).0,
        r.1@ == recenter_spec(*tree, bodies@).1,
        !(*tree is Nothing) ==> tree_wf(r.0) && zone_of(r.0) == zone_of(*tree),
{
    match tree {
        MaybeNode::Nothing(z) => (MaybeNode::Nothing(*z), bodies),
        MaybeNode::One(z, body) => recenter_around(*z, body.p, bodies),
        MaybeNode::Something(z, bn) => {
            let root = bn.virtual_body.p;
            proof {
                assert(z.contains_spec(root));
            }
            recenter_around(*z, root, bodies)
        },
    }
}

/// Shift, filter and rebuild for a known zone and root position.
#[verifier::loop_isolation(false)]
fn recenter_around(z: Zone, root: Point, bodies: Vec<Body>) -> (r: (MaybeNode, Vec<Body>))
    requires
        z.wf(),
        is_pow2(z.width as nat),
        z.contains_spec(root),
        all_valid(bodies@),
        mass_sum(bodies@) <= MASS_MAX,
    ensures
        r.0 == recenter_with(z, root, bodies@).0,
        r.1@ == recenter_with(z, root, bodies@).1,
        tree_wf(r.0),
        zone_of(r.0) == z,
{
    let center = z.center();
    let delta = Point { x: center.x - root.x, y: center.y - root.y };
    let ghost orig = bodies@;
    let mut moved = bodies;
    let n = moved.len();
    let mut i: usize = 0;
    while i < n
        invariant
            i <= n,
            moved@.len() == n,
            forall|k: int| 0 <= k < i ==> moved@[k] == shifted(orig[k], delta),
            forall|k: int| i <= k < n ==> moved@[k] == orig[k],
        decreases n - i,
    {
        let mut b = moved[i];
        b.p.shift(&delta);
        proof {
            assert(b == shifted(orig[i as int], delta));
        }
        moved[i] = b;
        i = i + 1;
    }
    proof {
        assert(moved@ =~= translated(orig, delta)) by {
            assert(forall|k: int|
                0 <= k < n ==> translated(orig, delta)[k] == shifted(orig[k], delta));
        }
        lemma_translated_mass(orig, delta);
        lemma_keep_contained_props(moved@, z);
    }
    let mut kept: Vec<Body> = Vec::new();
    let mut j: usize = 0;
    while j < n
        invariant
            j <= n,
            kept@ == keep_contained(moved@.take(j as int), z),
        decreases n - j,
    {
        let b = moved[j];
        proof {
            assert(moved@.take(j as int + 1).drop_last() =~= moved@.take(j as int));
            assert(moved@.take(j as int + 1).last() == b);
        }
        if z.contains(&b.p) {
            kept.push(b);
        }
        j = j + 1;
    }
    proof {
        assert(moved@.take(n as int) =~= moved@);
        let kc = keep_contained(moved@, z);
        assert forall|k: int| 0 <= k < kc.len() implies (#[trigger] kc[k]).valid() by {
            let jj = choose|jj: int| 0 <= jj < moved@.len() && moved@[jj] == kc[k];
            assert(moved@[jj].valid());
        }
        crate::tree::lemma_mass_sum_nonneg(kc);
        lemma_keep_contained_props(kept@, z);
        assert forall|k: int| 0 <= k < kept@.len() implies z.contains_spec(
            (#[trigger] kept@[k]).p,
        ) by {
        }
        assert(keep_contained(kept@, z) == kept@);
    }
    let for_tree = copy_bodies(&kept);
    let t = make_tree(z, for_tree);
    (t, kept)
}

} // verus!
