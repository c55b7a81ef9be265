use crate::body::{radius_of_mass, Body};
use crate::constants::{MASS_MAX, POS_MAX};
use crate::geom::Point;
use crate::math::lemma_div_in_range;
use crate::zone::Zone;
use vstd::arithmetic::div_mod::lemma_fundamental_div_mod;
use vstd::prelude::*;

verus! {

/// A quadtree over one zone: an empty region, a region holding exactly one
/// body, or an internal node with an aggregate body and four children.
#[derive(Debug)]
pub enum MaybeNode {
    Nothing(Zone),
    One(Zone, Body),
    Something(Zone, Box<Node>),
}

/// The payload of an internal quadtree node. `virtual_body` carries the
/// total mass and the mass-weighted centroid of every body beneath this
/// node (its momentum is zero and plays no role). The four branches cover
/// the node's quadrants in the fixed order top-left, top-right,
/// bottom-left, bottom-right.
#[derive(Debug)]
pub struct Node {
    pub virtual_body: Body,
    pub branches: (MaybeNode, MaybeNode, MaybeNode, MaybeNode),
}

/// A width that subdivides evenly all the way down to single cells.
pub open spec fn is_pow2(w: nat) -> bool
    decreases w,
{
    if w == 0 {
        false
    } else if w == 1 {
        true
    } else {
        w % 2 == 0 && is_pow2(w / 2)
    }
}

/// The zone a tree node covers.
pub open spec fn zone_of(n: MaybeNode) -> Zone {
    match n {
        MaybeNode::Nothing(z) => z,
        MaybeNode::One(z, _) => z,
        MaybeNode::Something(z, _) => z,
    }
}

/// All bodies stored beneath a node, children in the fixed quadrant order.
pub open spec fn bodies_of(n: MaybeNode) -> Seq<Body>
    decreases n,
{
    match n {
        MaybeNode::Nothing(_) => Seq::empty(),
        MaybeNode::One(_, b) => seq![b],
        MaybeNode::Something(_, node) => bodies_of(node.branches.0) + bodies_of(node.branches.1)
            + bodies_of(node.branches.2) + bodies_of(node.branches.3),
    }
}

/// Total mass of a body sequence.
pub open spec fn mass_sum(s: Seq<Body>) -> int
    decreases s.len(),
{
    if s.len() == 0 {
        0
    } else {
        mass_sum(s.drop_last()) + s.last().mass
    }
}

/// Mass-weighted sum of x coordinates.
pub open spec fn wx_sum(s: Seq<Body>) -> int
    decreases s.len(),
{
    if s.len() == 0 {
        0
    } else {
        wx_sum(s.drop_last()) + s.last().p.x * s.last().mass
    }
}

/// Mass-weighted sum of y coordinates.
pub open spec fn wy_sum(s: Seq<Body>) -> int
    decreases s.len(),
{
    if s.len() == 0 {
        0
    } else {
        wy_sum(s.drop_last()) + s.last().p.y * s.last().mass
    }
}

/// The sub-sequence of `s` contained in `z`, in order.
pub open spec fn keep_contained(s: Seq<Body>, z: Zone) -> Seq<Body>
    decreases s.len(),
{
    if s.len() == 0 {
        Seq::empty()
    } else {
        let rest = keep_contained(s.drop_last(), z);
        if z.contains_spec(s.last().p) {
            rest.push(s.last())
        } else {
            rest
        }
    }
}

/// The quadrant of `z` that claims `p`: the first of the four children of
/// the split, in the fixed order, whose half-open square contains `p`;
/// `-1` if none does.
pub open spec fn quad_of(z: Zone, p: Point) -> int {
    let (c0, c1, c2, c3) = z.split_spec();
    if c0.contains_spec(p) {
        0
    } else if c1.contains_spec(p) {
        1
    } else if c2.contains_spec(p) {
        2
    } else if c3.contains_spec(p) {
        3
    } else {
        -1
    }
}

/// The bodies of `s` claimed by quadrant `k` of `z`, in order.
pub open spec fn assigned(s: Seq<Body>, z: Zone, k: int) -> Seq<Body>
    decreases s.len(),
{
    if s.len() == 0 {
        Seq::empty()
    } else {
        let rest = assigned(s.drop_last(), z, k);
        if quad_of(z, s.last().p) == k {
            rest.push(s.last())
        } else {
            rest
        }
    }
}

/// No two bodies share a position.
pub open spec fn distinct_positions(s: Seq<Body>) -> bool {
    forall|i: int, j: int| 0 <= i < j < s.len() ==> s[i].p != s[j].p
}

/// The functional model of tree building from a sequence of bodies that all
/// lie inside `z`: none makes an empty node, one makes a leaf; more are
/// classified into the four quadrants (first containing quadrant wins, in
/// the fixed order) and built recursively, with the internal node carrying
/// the total mass and floored mass-weighted centroid of the bodies kept
/// beneath it. A zone too small to subdivide keeps the first body and
/// discards the rest (which can only happen to exactly coincident bodies).
pub open spec fn build_spec(z: Zone, s: Seq<Body>) -> MaybeNode
    decreases z.width,
{
    if s.len() == 0 {
        MaybeNode::Nothing(z)
    } else if s.len() == 1 {
        MaybeNode::One(z, s[0])
    } else if z.width < 2 {
        MaybeNode::One(z, s[0])
    } else {
        let (c0, c1, c2, c3) = z.split_spec();
        let t0 = build_spec(c0, assigned(s, z, 0));
        let t1 = build_spec(c1, assigned(s, z, 1));
        let t2 = build_spec(c2, assigned(s, z, 2));
        let t3 = build_spec(c3, assigned(s, z, 3));
        let bs = bodies_of(t0) + bodies_of(t1) + bodies_of(t2) + bodies_of(t3);
        let m = mass_sum(bs);
        MaybeNode::Something(
            z,
            Box::new(
                Node {
                    virtual_body: Body {
                        p: Point { x: (wx_sum(bs) / m) as i64, y: (wy_sum(bs) / m) as i64 },
                        momentum: Point { x: 0, y: 0 },
                        mass: m as u64,
                        radius: radius_of_mass(m as nat) as u64,
                    },
                    branches: (t0, t1, t2, t3),
                },
            ),
        )
    }
}

/// Well-formedness of a tree: zones nest exactly as the quadrant split
/// dictates, every stored body is valid and inside its node's zone, and
/// every internal node's aggregate carries the total mass and the floored
/// mass-weighted centroid of the bodies beneath it.
pub open spec fn tree_wf(n: MaybeNode) -> bool
    decreases n,
{
    match n {
        MaybeNode::Nothing(z) => z.wf(),
        MaybeNode::One(z, b) => z.wf() && b.valid() && z.contains_spec(b.p),
        MaybeNode::Something(z, node) => {
            let (c0, c1, c2, c3) = z.split_spec();
            let bs = bodies_of(n);
            &&& z.wf()
            &&& z.width >= 2
            &&& z.width % 2 == 0
            &&& zone_of(node.branches.0) == c0
            &&& zone_of(node.branches.1) == c1
            &&& zone_of(node.branches.2) == c2
            &&& zone_of(node.branches.3) == c3
            &&& tree_wf(node.branches.0)
            &&& tree_wf(node.branches.1)
            &&& tree_wf(node.branches.2)
            &&& tree_wf(node.branches.3)
            &&& bs.len() >= 1
            &&& node.virtual_body.mass as int == mass_sum(bs)
            &&& 1 <= node.virtual_body.mass <= MASS_MAX
            &&& node.virtual_body.p.x as int == wx_sum(bs) / mass_sum(bs)
            &&& node.virtual_body.p.y as int == wy_sum(bs) / mass_sum(bs)
            &&& node.virtual_body.momentum == (Point { x: 0, y: 0 })
            &&& node.virtual_body.radius as nat == radius_of_mass(node.virtual_body.mass as nat)
            &&& z.contains_spec(node.virtual_body.p)
        },
    }
}

/// The sums over a sequence extended by one body.
pub proof fn lemma_sums_push(s: Seq<Body>, b: Body)
    ensures
        mass_sum(s.push(b)) == mass_sum(s) + b.mass,
        wx_sum(s.push(b)) == wx_sum(s) + b.p.x * b.mass,
        wy_sum(s.push(b)) == wy_sum(s) + b.p.y * b.mass,
{
    assert(s.push(b).drop_last() =~= s);
    assert(s.push(b).last() == b);
}

/// The sums distribute over concatenation.
pub proof fn lemma_sums_concat(s1: Seq<Body>, s2: Seq<Body>)
    ensures
        mass_sum(s1 + s2) == mass_sum(s1) + mass_sum(s2),
        wx_sum(s1 + s2) == wx_sum(s1) + wx_sum(s2),
        wy_sum(s1 + s2) == wy_sum(s1) + wy_sum(s2),
        (s1 + s2).len() == s1.len() + s2.len(),
    decreases s2.len(),
{
    if s2.len() == 0 {
        assert(s1 + s2 =~= s1);
    } else {
        lemma_sums_concat(s1, s2.drop_last());
        assert((s1 + s2).drop_last() =~= s1 + s2.drop_last());
        assert((s1 + s2).last() == s2.last());
    }
}

/// Bodies with bounded coordinates and valid masses have bounded sums:
/// the total mass counts every body at least once, and the weighted
/// coordinate sums stay between the corner multiples of the total mass.
pub proof fn lemma_sums_in_range(s: Seq<Body>, lox: int, hix: int, loy: int, hiy: int)
    requires
        forall|i: int|
            0 <= i < s.len() ==> {
                &&& 1 <= #[trigger] s[i].mass
                &&& lox <= s[i].p.x <= hix
                &&& loy <= s[i].p.y <= hiy
            },
    ensures
        s.len() <= mass_sum(s),
        lox * mass_sum(s) <= wx_sum(s) <= hix * mass_sum(s),
        loy * mass_sum(s) <= wy_sum(s) <= hiy * mass_sum(s),
    decreases s.len(),
{
    if s.len() == 0 {
        assert(lox * 0 == 0) by (nonlinear_arith);
        assert(hix * 0 == 0) by (nonlinear_arith);
        assert(loy * 0 == 0) by (nonlinear_arith);
        assert(hiy * 0 == 0) by (nonlinear_arith);
    } else {
        let d = s.drop_last();
        let b = s.last();
        lemma_sums_in_range(d, lox, hix, loy, hiy);
        assert(lox * mass_sum(s) <= wx_sum(s)) by (nonlinear_arith)
            requires
                mass_sum(s) == mass_sum(d) + b.mass,
                wx_sum(s) == wx_sum(d) + b.p.x * b.mass,
                lox * mass_sum(d) <= wx_sum(d),
                lox <= b.p.x,
                b.mass >= 1,
        ;
        assert(wx_sum(s) <= hix * mass_sum(s)) by (nonlinear_arith)
            requires
                mass_sum(s) == mass_sum(d) + b.mass,
                wx_sum(s) == wx_sum(d) + b.p.x * b.mass,
                wx_sum(d) <= hix * mass_sum(d),
                b.p.x <= hix,
                b.mass >= 1,
        ;
        assert(loy * mass_sum(s) <= wy_sum(s)) by (nonlinear_arith)
            requires
                mass_sum(s) == mass_sum(d) + b.mass,
                wy_sum(s) == wy_sum(d) + b.p.y * b.mass,
                loy * mass_sum(d) <= wy_sum(d),
                loy <= b.p.y,
                b.mass >= 1,
        ;
        assert(wy_sum(s) <= hiy * mass_sum(s)) by (nonlinear_arith)
            requires
                mass_sum(s) == mass_sum(d) + b.mass,
                wy_sum(s) == wy_sum(d) + b.p.y * b.mass,
                wy_sum(d) <= hiy * mass_sum(d),
                b.p.y <= hiy,
                b.mass >= 1,
        ;
    }
}

/// Every body a tree stores is valid and lies inside the tree's zone.
pub proof fn lemma_tree_bodies_contained(n: MaybeNode)
    requires
        tree_wf(n),
    ensures
        forall|i: int|
            0 <= i < bodies_of(n).len() ==> (#[trigger] bodies_of(n)[i]).valid()
                && zone_of(n).contains_spec(bodies_of(n)[i].p),
    decreases n,
{
    match n {
        MaybeNode::Nothing(_) => {},
        MaybeNode::One(_, _) => {},
        MaybeNode::Something(z, node) => {
            lemma_tree_bodies_contained(node.branches.0);
            lemma_tree_bodies_contained(node.branches.1);
            lemma_tree_bodies_contained(node.branches.2);
            lemma_tree_bodies_contained(node.branches.3);
            let b0 = bodies_of(node.branches.0);
            let b1 = bodies_of(node.branches.1);
            let b2 = bodies_of(node.branches.2);
            let b3 = bodies_of(node.branches.3);
            assert forall|i: int| 0 <= i < bodies_of(n).len() implies (#[trigger] bodies_of(
                n,
            )[i]).valid() && zone_of(n).contains_spec(bodies_of(n)[i].p) by {
                let bs = bodies_of(n);
                assert(bs == b0 + b1 + b2 + b3);
                let b = bs[i];
                if i < b0.len() {
                    assert(b == b0[i]);
                } else if i < b0.len() + b1.len() {
                    assert(b == b1[i - b0.len()]);
                } else if i < b0.len() + b1.len() + b2.len() {
                    assert(b == b2[i - b0.len() - b1.len()]);
                } else {
                    assert(b == b3[i - b0.len() - b1.len() - b2.len()]);
                }
                z.lemma_child_within_parent(b.p);
            }
        },
    }
}

/// Classification into quadrants loses nothing and counts nothing twice:
/// for a sequence of bodies all contained in `z`, every body is claimed by
/// exactly one quadrant, each claimed body lands in the quadrant that
/// contains it, and the four claimed sub-sequences carry exactly the
/// original counts and sums.
pub proof fn lemma_assigned_partition(s: Seq<Body>, z: Zone)
    requires
        z.wf(),
        z.width >= 2,
        z.width % 2 == 0,
        forall|i: int| 0 <= i < s.len() ==> z.contains_spec((#[trigger] s[i]).p),
    ensures
        assigned(s, z, 0).len() + assigned(s, z, 1).len() + assigned(s, z, 2).len() + assigned(
            s,
            z,
            3,
        ).len() == s.len(),
        mass_sum(assigned(s, z, 0)) + mass_sum(assigned(s, z, 1)) + mass_sum(assigned(s, z, 2))
            + mass_sum(assigned(s, z, 3)) == mass_sum(s),
        wx_sum(assigned(s, z, 0)) + wx_sum(assigned(s, z, 1)) + wx_sum(assigned(s, z, 2)) + wx_sum(
            assigned(s, z, 3),
        ) == wx_sum(s),
        wy_sum(assigned(s, z, 0)) + wy_sum(assigned(s, z, 1)) + wy_sum(assigned(s, z, 2)) + wy_sum(
            assigned(s, z, 3),
        ) == wy_sum(s),
    decreases s.len(),
{
    if s.len() > 0 {
        let d = s.drop_last();
        let b = s.last();
        lemma_assigned_partition(d, z);
        z.lemma_split_partition(b.p);
        let k = quad_of(z, b.p);
        assert(0 <= k < 4);
        let a0d = assigned(d, z, 0);
        let a1d = assigned(d, z, 1);
        let a2d = assigned(d, z, 2);
        let a3d = assigned(d, z, 3);
        lemma_sums_push(a0d, b);
        lemma_sums_push(a1d, b);
        lemma_sums_push(a2d, b);
        lemma_sums_push(a3d, b);
        assert(assigned(s, z, 0) == if k == 0 {
            a0d.push(b)
        } else {
            a0d
        });
        assert(assigned(s, z, 1) == if k == 1 {
            a1d.push(b)
        } else {
            a1d
        });
        assert(assigned(s, z, 2) == if k == 2 {
            a2d.push(b)
        } else {
            a2d
        });
        assert(assigned(s, z, 3) == if k == 3 {
            a3d.push(b)
        } else {
            a3d
        });
        assert(mass_sum(s) == mass_sum(d) + b.mass);
        assert(wx_sum(s) == wx_sum(d) + b.p.x * b.mass);
        assert(wy_sum(s) == wy_sum(d) + b.p.y * b.mass);
    }
}

/// Each claimed body is contained in its quadrant, and claimed bodies keep
/// the properties of the bodies of `s`.
pub proof fn lemma_assigned_contained(s: Seq<Body>, z: Zone, k: int)
    requires
        z.wf(),
        z.width >= 2,
        z.width % 2 == 0,
        0 <= k < 4,
    ensures
        forall|i: int|
            0 <= i < assigned(s, z, k).len() ==> quad_of(z, (#[trigger] assigned(s, z, k)[i]).p)
                == k && s.contains(assigned(s, z, k)[i]),
    decreases s.len(),
{
    if s.len() > 0 {
        let d = s.drop_last();
        lemma_assigned_contained(d, z, k);
        assert forall|i: int| 0 <= i < assigned(s, z, k).len() implies quad_of(
            z,
            (#[trigger] assigned(s, z, k)[i]).p,
        ) == k && s.contains(assigned(s, z, k)[i]) by {
            let a = assigned(s, z, k);
            let ad = assigned(d, z, k);
            if quad_of(z, s.last().p) == k {
                assert(a == ad.push(s.last()));
                if i < ad.len() {
                    assert(a[i] == ad[i]);
                    assert(d.contains(ad[i]));
                    let j = choose|j: int| 0 <= j < d.len() && d[j] == ad[i];
                    assert(s[j] == ad[i]);
                } else {
                    assert(a[i] == s.last());
                    assert(s[s.len() - 1] == s.last());
                }
            } else {
                assert(a == ad);
                assert(d.contains(ad[i]));
                let j = choose|j: int| 0 <= j < d.len() && d[j] == ad[i];
                assert(s[j] == ad[i]);
            }
        }
    }
}

/// Total mass is never negative.
pub proof fn lemma_mass_sum_nonneg(s: Seq<Body>)
    ensures
        0 <= mass_sum(s),
    decreases s.len(),
{
    if s.len() > 0 {
        lemma_mass_sum_nonneg(s.drop_last());
    }
}

/// Each body's mass is at most the total.
pub proof fn lemma_mass_sum_element(s: Seq<Body>, i: int)
    requires
        0 <= i < s.len(),
    ensures
        s[i].mass <= mass_sum(s),
    decreases s.len(),
{
    let d = s.drop_last();
    if i < s.len() - 1 {
        lemma_mass_sum_element(d, i);
        assert(d[i] == s[i]);
    } else {
        lemma_mass_sum_nonneg(d);
    }
}

/// Weighted sums of valid, position-bounded bodies stay far inside the
/// 128-bit range.
pub proof fn lemma_sums_abs_bound(s: Seq<Body>)
    requires
        forall|i: int|
            0 <= i < s.len() ==> {
                &&& 1 <= (#[trigger] s[i]).mass
                &&& -POS_MAX <= s[i].p.x <= POS_MAX
                &&& -POS_MAX <= s[i].p.y <= POS_MAX
            },
        mass_sum(s) <= MASS_MAX,
    ensures
        0 <= mass_sum(s),
        -0x10_0000_0000_0000_0000_0000 <= wx_sum(s) <= 0x10_0000_0000_0000_0000_0000,
        -0x10_0000_0000_0000_0000_0000 <= wy_sum(s) <= 0x10_0000_0000_0000_0000_0000,
{
    lemma_sums_in_range(s, -POS_MAX as int, POS_MAX as int, -POS_MAX as int, POS_MAX as int);
    let m = mass_sum(s);
    assert((POS_MAX as int) * m <= 0x10_0000_0000_0000_0000_0000 && (-POS_MAX as int) * m
        >= -0x10_0000_0000_0000_0000_0000) by (nonlinear_arith)
        requires
            0 <= m <= 0x1000_0000_0000,
            POS_MAX as int == 0x100_0000_0000,
    ;
}

/// The bodies gathered from four well-formed children sitting on the
/// quadrants of `z` are valid and contained in `z`.
pub proof fn lemma_children_in_parent(
    z: Zone,
    t0: MaybeNode,
    t1: MaybeNode,
    t2: MaybeNode,
    t3: MaybeNode,
)
    requires
        z.wf(),
        z.width >= 2,
        z.width % 2 == 0,
        zone_of(t0) == z.split_spec().0,
        zone_of(t1) == z.split_spec().1,
        zone_of(t2) == z.split_spec().2,
        zone_of(t3) == z.split_spec().3,
        tree_wf(t0),
        tree_wf(t1),
        tree_wf(t2),
        tree_wf(t3),
    ensures
        forall|i: int|
            0 <= i < (bodies_of(t0) + bodies_of(t1) + bodies_of(t2) + bodies_of(t3)).len()
                ==> (#[trigger] (bodies_of(t0) + bodies_of(t1) + bodies_of(t2) + bodies_of(
                t3,
            ))[i]).valid() && z.contains_spec(
                (bodies_of(t0) + bodies_of(t1) + bodies_of(t2) + bodies_of(t3))[i].p,
            ),
{
    lemma_tree_bodies_contained(t0);
    lemma_tree_bodies_contained(t1);
    lemma_tree_bodies_contained(t2);
    lemma_tree_bodies_contained(t3);
    let b0 = bodies_of(t0);
    let b1 = bodies_of(t1);
    let b2 = bodies_of(t2);
    let b3 = bodies_of(t3);
    let bs = b0 + b1 + b2 + b3;
    assert forall|i: int| 0 <= i < bs.len() implies (#[trigger] bs[i]).valid()
        && z.contains_spec(bs[i].p) by {
        let b = bs[i];
        if i < b0.len() {
            assert(b == b0[i]);
        } else if i < b0.len() + b1.len() {
            assert(b == b1[i - b0.len()]);
        } else if i < b0.len() + b1.len() + b2.len() {
            assert(b == b2[i - b0.len() - b1.len()]);
        } else {
            assert(b == b3[i - b0.len() - b1.len() - b2.len()]);
        }
        z.lemma_child_within_parent(b.p);
    }
}

/// Claimed sub-sequences of a distinct-position sequence keep positions
/// distinct.
pub proof fn lemma_assigned_distinct(s: Seq<Body>, z: Zone, k: int)
    requires
        distinct_positions(s),
    ensures
        distinct_positions(assigned(s, z, k)),
        forall|i: int|
            0 <= i < assigned(s, z, k).len() ==> s.contains(#[trigger] assigned(s, z, k)[i]),
    decreases s.len(),
{
    if s.len() > 0 {
        let d = s.drop_last();
        assert(distinct_positions(d)) by {
            assert(forall|i: int| 0 <= i < d.len() ==> d[i] == s[i]);
        }
        lemma_assigned_distinct(d, z, k);
        let a = assigned(s, z, k);
        let ad = assigned(d, z, k);
        assert(forall|i: int| 0 <= i < d.len() ==> d[i] == s[i]);
        assert forall|i: int| 0 <= i < a.len() implies s.contains(#[trigger] a[i]) by {
            if quad_of(z, s.last().p) == k && i == a.len() - 1 {
                assert(a[i] == s.last());
                assert(s[s.len() - 1] == s.last());
            } else {
                assert(a[i] == ad[i]);
                assert(d.contains(ad[i]));
                let j = choose|j: int| 0 <= j < d.len() && d[j] == ad[i];
                assert(s[j] == a[i]);
            }
        }
        assert forall|i: int, j: int| 0 <= i < j < a.len() implies a[i].p != a[j].p by {
            if quad_of(z, s.last().p) == k && j == a.len() - 1 {
                assert(a[i] == ad[i]);
                assert(d.contains(ad[i]));
                let jj = choose|jj: int| 0 <= jj < d.len() && d[jj] == ad[i];
                assert(s[jj] == a[i]);
                assert(a[j] == s.last());
                assert(s[jj].p != s[s.len() - 1].p);
            } else {
                assert(a[i] == ad[i] && a[j] == ad[j]);
            }
        }
    }
}

/// Correctness of the functional tree builder: on valid bodies contained in
/// a power-of-two zone it produces a well-formed tree over that zone; it
/// never gains mass; and when no two bodies coincide it keeps every body,
/// so the totals of the stored bodies equal the totals of the input.
pub proof fn lemma_build_ok(z: Zone, s: Seq<Body>)
    requires
        z.wf(),
        is_pow2(z.width as nat),
        forall|i: int|
            0 <= i < s.len() ==> (#[trigger] s[i]).valid() && z.contains_spec(s[i].p),
        mass_sum(s) <= MASS_MAX,
    ensures
        zone_of(build_spec(z, s)) == z,
        tree_wf(build_spec(z, s)),
        s.len() >= 1 ==> bodies_of(build_spec(z, s)).len() >= 1,
        0 <= mass_sum(bodies_of(build_spec(z, s))) <= mass_sum(s),
        distinct_positions(s) ==> {
            &&& bodies_of(build_spec(z, s)).len() == s.len()
            &&& mass_sum(bodies_of(build_spec(z, s))) == mass_sum(s)
            &&& wx_sum(bodies_of(build_spec(z, s))) == wx_sum(s)
            &&& wy_sum(bodies_of(build_spec(z, s))) == wy_sum(s)
        },
    decreases z.width,
{
    lemma_mass_sum_nonneg(s);
    if s.len() == 0 {
        assert(bodies_of(build_spec(z, s)) =~= Seq::<Body>::empty());
    } else if s.len() == 1 {
        assert(build_spec(z, s) == MaybeNode::One(z, s[0]));
        assert(seq![s[0]].drop_last() =~= Seq::<Body>::empty());
        assert(s =~= seq![s[0]]);
    } else if z.width < 2 {
        assert(build_spec(z, s) == MaybeNode::One(z, s[0]));
        assert(seq![s[0]].drop_last() =~= Seq::<Body>::empty());
        lemma_mass_sum_element(s, 0);
        assert(z.width == 1);
        assert(s[0].p == s[1].p);
        assert(!distinct_positions(s));
        assert(bodies_of(build_spec(z, s)) == seq![s[0]]);
        assert(mass_sum(seq![s[0]].drop_last()) == 0);
        assert(mass_sum(seq![s[0]]) == 0 + s[0].mass);
    } else {
        let (c0, c1, c2, c3) = z.split_spec();
        let w = z.width;
        assert(w % 2 == 0 && is_pow2((w / 2) as nat));
        lemma_fundamental_div_mod(w as int, 2);
        assert(c0.wf() && c1.wf() && c2.wf() && c3.wf());
        let a0 = assigned(s, z, 0);
        let a1 = assigned(s, z, 1);
        let a2 = assigned(s, z, 2);
        let a3 = assigned(s, z, 3);
        lemma_assigned_partition(s, z);
        lemma_assigned_contained(s, z, 0);
        lemma_assigned_contained(s, z, 1);
        lemma_assigned_contained(s, z, 2);
        lemma_assigned_contained(s, z, 3);
        lemma_mass_sum_nonneg(a0);
        lemma_mass_sum_nonneg(a1);
        lemma_mass_sum_nonneg(a2);
        lemma_mass_sum_nonneg(a3);
        assert forall|i: int| 0 <= i < a0.len() implies (#[trigger] a0[i]).valid()
            && c0.contains_spec(a0[i].p) by {
            let j = choose|j: int| 0 <= j < s.len() && s[j] == a0[i];
            assert(s[j].valid());
        }
        assert forall|i: int| 0 <= i < a1.len() implies (#[trigger] a1[i]).valid()
            && c1.contains_spec(a1[i].p) by {
            let j = choose|j: int| 0 <= j < s.len() && s[j] == a1[i];
            assert(s[j].valid());
        }
        assert forall|i: int| 0 <= i < a2.len() implies (#[trigger] a2[i]).valid()
            && c2.contains_spec(a2[i].p) by {
            let j = choose|j: int| 0 <= j < s.len() && s[j] == a2[i];
            assert(s[j].valid());
        }
        assert forall|i: int| 0 <= i < a3.len() implies (#[trigger] a3[i]).valid()
            && c3.contains_spec(a3[i].p) by {
            let j = choose|j: int| 0 <= j < s.len() && s[j] == a3[i];
            assert(s[j].valid());
        }
        lemma_build_ok(c0, a0);
        lemma_build_ok(c1, a1);
        lemma_build_ok(c2, a2);
        lemma_build_ok(c3, a3);
        let t0 = build_spec(c0, a0);
        let t1 = build_spec(c1, a1);
        let t2 = build_spec(c2, a2);
        let t3 = build_spec(c3, a3);
        let bs = bodies_of(t0) + bodies_of(t1) + bodies_of(t2) + bodies_of(t3);
        lemma_sums_concat(bodies_of(t0), bodies_of(t1));
        lemma_sums_concat(bodies_of(t0) + bodies_of(t1), bodies_of(t2));
        lemma_sums_concat(bodies_of(t0) + bodies_of(t1) + bodies_of(t2), bodies_of(t3));
        lemma_children_in_parent(z, t0, t1, t2, t3);
        let m = mass_sum(bs);
        lemma_sums_in_range(bs, z.tl.x as int, z.tl.x + w - 1, z.tl.y as int, z.tl.y + w - 1);
        assert(bs.len() >= 1);
        assert(m >= 1);
        lemma_div_in_range(wx_sum(bs), m, z.tl.x as int, z.tl.x + w - 1);
        lemma_div_in_range(wy_sum(bs), m, z.tl.y as int, z.tl.y + w - 1);
        crate::body::lemma_radius_of_mass_bound(m as nat);
        let n = build_spec(z, s);
        assert(n == MaybeNode::Something(
            z,
            Box::new(
                Node {
                    virtual_body: Body {
                        p: Point { x: (wx_sum(bs) / m) as i64, y: (wy_sum(bs) / m) as i64 },
                        momentum: Point { x: 0, y: 0 },
                        mass: m as u64,
                        radius: radius_of_mass(m as nat) as u64,
                    },
                    branches: (t0, t1, t2, t3),
                },
            ),
        ));
        assert(bodies_of(n) == bs);
        assert(tree_wf(n));
        if distinct_positions(s) {
            lemma_assigned_distinct(s, z, 0);
            lemma_assigned_distinct(s, z, 1);
            lemma_assigned_distinct(s, z, 2);
            lemma_assigned_distinct(s, z, 3);
        }
    }
}

/// Filtering to the contained bodies keeps only (and, if everything was
/// already inside, exactly) the input bodies, and never gains mass.
pub proof fn lemma_keep_contained_props(s: Seq<Body>, z: Zone)
    ensures
        forall|i: int|
            0 <= i < keep_contained(s, z).len() ==> z.contains_spec(
                (#[trigger] keep_contained(s, z)[i]).p,
            ) && s.contains(keep_contained(s, z)[i]),
        0 <= mass_sum(keep_contained(s, z)) <= mass_sum(s),
        (forall|i: int| 0 <= i < s.len() ==> z.contains_spec((#[trigger] s[i]).p))
            ==> keep_contained(s, z) == s,
    decreases s.len(),
{
    lemma_mass_sum_nonneg(keep_contained(s, z));
    if s.len() > 0 {
        let d = s.drop_last();
        let b = s.last();
        lemma_keep_contained_props(d, z);
        let kc = keep_contained(s, z);
        let kd = keep_contained(d, z);
        lemma_sums_push(kd, b);
        assert forall|i: int| 0 <= i < kc.len() implies z.contains_spec((#[trigger] kc[i]).p)
            && s.contains(kc[i]) by {
            if z.contains_spec(b.p) && i == kc.len() - 1 {
                assert(kc[i] == b);
                assert(s[s.len() - 1] == b);
            } else {
                assert(kc[i] == kd[i]);
                assert(d.contains(kd[i]));
                let j = choose|j: int| 0 <= j < d.len() && d[j] == kd[i];
                assert(s[j] == kc[i]);
            }
        }
        if forall|i: int| 0 <= i < s.len() ==> z.contains_spec((#[trigger] s[i]).p) {
            assert(forall|i: int| 0 <= i < d.len() ==> d[i] == s[i]);
            assert(z.contains_spec(b.p)) by {
                assert(s[s.len() - 1] == b);
            }
            assert(kc =~= s);
        }
    }
}

/// Recursive tree builder over bodies already known to lie inside `z`:
/// returns the tree together with the total mass and the weighted
/// coordinate sums of the bodies it stores.
#[verifier::loop_isolation(false)]
#[verifier::rlimit(80)]
fn build_rec(z: Zone, bodies: Vec<Body>) -> (r: (MaybeNode, u64, i128, i128))
    requires
        z.wf(),
        is_pow2(z.width as nat),
        forall|i: int|
            0 <= i < bodies@.len() ==> (#[trigger] bodies@[i]).valid() && z.contains_spec(
                bodies@[i].p,
            ),
        mass_sum(bodies@) <= MASS_MAX,
    ensures
        r.0 == build_spec(z, bodies@),
        r.1 as int == mass_sum(bodies_of(r.0)),
        r.2 as int == wx_sum(bodies_of(r.0)),
        r.3 as int == wy_sum(bodies_of(r.0)),
        r.1 as int <= mass_sum(bodies@),
        -0x10_0000_0000_0000_0000_0000 <= r.2 <= 0x10_0000_0000_0000_0000_0000,
        -0x10_0000_0000_0000_0000_0000 <= r.3 <= 0x10_0000_0000_0000_0000_0000,
    decreases z.width,
{
    let n = bodies.len();
    if n == 0 {
        proof {
            assert(bodies_of(MaybeNode::Nothing(z)) =~= Seq::<Body>::empty());
        }
        (MaybeNode::Nothing(z), 0, 0, 0)
    } else if n == 1 || z.width < 2 {
        let b = bodies[0];
        proof {
            lemma_mass_sum_element(bodies@, 0);
            assert(bodies_of(MaybeNode::One(z, b)) == seq![b]);
            assert(seq![b].drop_last() =~= Seq::<Body>::empty());
            assert(mass_sum(seq![b].drop_last()) == 0);
            assert(wx_sum(seq![b].drop_last()) == 0);
            assert(wy_sum(seq![b].drop_last()) == 0);
            if n == 1 {
                assert(bodies@ =~= seq![b]);
            }
            assert(-0x10_0000_0000_0000_0000_0000 <= (b.p.x as int) * (b.mass as int)
                <= 0x10_0000_0000_0000_0000_0000) by (nonlinear_arith)
                requires
                    -0x100_0000_0000 <= (b.p.x as int) <= 0x100_0000_0000,
                    0 <= (b.mass as int) <= 0x1000_0000_0000,
            ;
            assert(-0x10_0000_0000_0000_0000_0000 <= (b.p.y as int) * (b.mass as int)
                <= 0x10_0000_0000_0000_0000_0000) by (nonlinear_arith)
                requires
                    -0x100_0000_0000 <= (b.p.y as int) <= 0x100_0000_0000,
                    0 <= (b.mass as int) <= 0x1000_0000_0000,
            ;
        }
        let wx: i128 = b.p.x as i128 * b.mass as i128;
        let wy: i128 = b.p.y as i128 * b.mass as i128;
        (MaybeNode::One(z, b), b.mass, wx, wy)
    } else {
        proof {
            assert(z.width % 2 == 0 && is_pow2((z.width / 2) as nat));
            lemma_fundamental_div_mod(z.width as int, 2);
        }
        let quads = z.split();
        let mut b0: Vec<Body> = Vec::new();
        let mut b1: Vec<Body> = Vec::new();
        let mut b2: Vec<Body> = Vec::new();
        let mut b3: Vec<Body> = Vec::new();
        let mut idx: usize = 0;
        while idx < n
            invariant
                idx <= n,
                b0@ == assigned(bodies@.take(idx as int), z, 0),
                b1@ == assigned(bodies@.take(idx as int), z, 1),
                b2@ == assigned(bodies@.take(idx as int), z, 2),
                b3@ == assigned(bodies@.take(idx as int), z, 3),
            decreases n - idx,
        {
            let b = bodies[idx];
            proof {
                assert(bodies@.take(idx as int + 1).drop_last() =~= bodies@.take(idx as int));
                assert(bodies@.take(idx as int + 1).last() == b);
                z.lemma_split_partition(b.p);
            }
            if quads.0.contains(&b.p) {
                b0.push(b);
            } else if quads.1.contains(&b.p) {
                b1.push(b);
            } else if quads.2.contains(&b.p) {
                b2.push(b);
            } else if quads.3.contains(&b.p) {
                b3.push(b);
            } else {
                proof {
                    assert(false);
                }
            }
            idx = idx + 1;
        }
        proof {
            assert(bodies@.take(n as int) =~= bodies@);
        }
        let ghost s = bodies@;
        let ghost a0 = assigned(s, z, 0);
        let ghost a1 = assigned(s, z, 1);
        let ghost a2 = assigned(s, z, 2);
        let ghost a3 = assigned(s, z, 3);
        proof {
            lemma_assigned_partition(s, z);
            lemma_assigned_contained(s, z, 0);
            lemma_assigned_contained(s, z, 1);
            lemma_assigned_contained(s, z, 2);
            lemma_assigned_contained(s, z, 3);
            lemma_mass_sum_nonneg(a0);
            lemma_mass_sum_nonneg(a1);
            lemma_mass_sum_nonneg(a2);
            lemma_mass_sum_nonneg(a3);
            assert forall|i: int| 0 <= i < a0.len() implies (#[trigger] a0[i]).valid()
                && quads.0.contains_spec(a0[i].p) by {
                let j = choose|j: int| 0 <= j < s.len() && s[j] == a0[i];
                assert(s[j].valid());
            }
            assert forall|i: int| 0 <= i < a1.len() implies (#[trigger] a1[i]).valid()
                && quads.1.contains_spec(a1[i].p) by {
                let j = choose|j: int| 0 <= j < s.len() && s[j] == a1[i];
                assert(s[j].valid());
            }
            assert forall|i: int| 0 <= i < a2.len() implies (#[trigger] a2[i]).valid()
                && quads.2.contains_spec(a2[i].p) by {
                let j = choose|j: int| 0 <= j < s.len() && s[j] == a2[i];
                assert(s[j].valid());
            }
            assert forall|i: int| 0 <= i < a3.len() implies (#[trigger] a3[i]).valid()
                && quads.3.contains_spec(a3[i].p) by {
                let j = choose|j: int| 0 <= j < s.len() && s[j] == a3[i];
                assert(s[j].valid());
            }
        }
        let (t0, m0, x0, y0) = build_rec(quads.0, b0);
        let (t1, m1, x1, y1) = build_rec(quads.1, b1);
        let (t2, m2, x2, y2) = build_rec(quads.2, b2);
        let (t3, m3, x3, y3) = build_rec(quads.3, b3);
        proof {
            lemma_build_ok(quads.0, a0);
            lemma_build_ok(quads.1, a1);
            lemma_build_ok(quads.2, a2);
            lemma_build_ok(quads.3, a3);
            lemma_sums_concat(bodies_of(t0), bodies_of(t1));
            lemma_sums_concat(bodies_of(t0) + bodies_of(t1), bodies_of(t2));
            lemma_sums_concat(bodies_of(t0) + bodies_of(t1) + bodies_of(t2), bodies_of(t3));
            lemma_children_in_parent(z, t0, t1, t2, t3);
        }
        let ghost bs = bodies_of(t0) + bodies_of(t1) + bodies_of(t2) + bodies_of(t3);
        proof {
            assert forall|i: int| 0 <= i < bs.len() implies {
                &&& 1 <= (#[trigger] bs[i]).mass
                &&& -POS_MAX <= bs[i].p.x <= POS_MAX
                &&& -POS_MAX <= bs[i].p.y <= POS_MAX
            } by {
                assert(bs[i].valid() && z.contains_spec(bs[i].p));
            }
            lemma_sums_abs_bound(bs);
            lemma_sums_in_range(
                bs,
                z.tl.x as int,
                z.tl.x + z.width - 1,
                z.tl.y as int,
                z.tl.y + z.width - 1,
            );
            assert(bs.len() >= 1);
        }
        let m_total: u64 = m0 + m1 + m2 + m3;
        let wx_total: i128 = x0 + x1 + x2 + x3;
        let wy_total: i128 = y0 + y1 + y2 + y3;
        proof {
            lemma_div_in_range(wx_sum(bs), mass_sum(bs), z.tl.x as int, z.tl.x + z.width - 1);
            lemma_div_in_range(wy_sum(bs), mass_sum(bs), z.tl.y as int, z.tl.y + z.width - 1);
        }
        let cx: i128 = crate::math::div_floor_i128(wx_total, m_total as i128);
        let cy: i128 = crate::math::div_floor_i128(wy_total, m_total as i128);
        let virtual_body = Body {
            p: Point { x: cx as i64, y: cy as i64 },
            momentum: Point { x: 0, y: 0 },
            mass: m_total,
            radius: Body::radius_from_mass(m_total),
        };
        proof {
            crate::body::lemma_radius_of_mass_bound(m_total as nat);
        }
        let result = MaybeNode::Something(
            z,
            Box::new(Node { virtual_body, branches: (t0, t1, t2, t3) }),
        );
        proof {
            assert(bodies_of(result) == bs);
            assert(result == build_spec(z, s));
        }
        (result, m_total, wx_total, wy_total)
    }
}

/// Build a fresh quadtree over `z` from a snapshot of the body list.
/// Bodies outside `z` are silently left out of this tick's tree; the rest
/// are partitioned exactly as `build_spec` describes, and the resulting
/// tree is well-formed: every internal node carries the total mass and the
/// mass-weighted centroid of the bodies beneath it.
#[verifier::loop_isolation(false)]
pub fn make_tree(z: Zone, bodies: Vec<Body>) -> (r: MaybeNode)
    requires
        z.wf(),
        is_pow2(z.width as nat),
        forall|i: int| 0 <= i < bodies@.len() ==> (#[trigger] bodies@[i]).valid(),
        mass_sum(bodies@) <= MASS_MAX,
    ensures
        r == build_spec(z, keep_contained(bodies@, z)),
        tree_wf(r),
        zone_of(r) == z,
{
    let n = bodies.len();
    let mut kept: Vec<Body> = Vec::new();
    let mut idx: usize = 0;
    while idx < n
        invariant
            idx <= n,
            kept@ == keep_contained(bodies@.take(idx as int), z),
        decreases n - idx,
    {
        let b = bodies[idx];
        proof {
            assert(bodies@.take(idx as int + 1).drop_last() =~= bodies@.take(idx as int));
            assert(bodies@.take(idx as int + 1).last() == b);
        }
        if z.contains(&b.p) {
            kept.push(b);
        }
        idx = idx + 1;
    }
    proof {
        assert(bodies@.take(n as int) =~= bodies@);
        lemma_keep_contained_props(bodies@, z);
        let kc = keep_contained(bodies@, z);
        assert forall|i: int| 0 <= i < kc.len() implies (#[trigger] kc[i]).valid()
            && z.contains_spec(kc[i].p) by {
            let j = choose|j: int| 0 <= j < bodies@.len() && bodies@[j] == kc[i];
            assert(bodies@[j].valid());
        }
        lemma_build_ok(z, kc);
    }
    let (t, _m, _wx, _wy) = build_rec(z, kept);
    t
}

} // verus!
