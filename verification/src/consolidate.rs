use crate::body::{lemma_radius_of_mass_bound, merged, Body};
use crate::constants::{MASS_MAX, MERGE_DEN, MERGE_NUM};
use crate::geom::{dist_sq, in_bounds};
use crate::math::lemma_wavg_between;
use crate::tree::{keep_contained, lemma_keep_contained_props, lemma_mass_sum_nonneg, mass_sum};
use crate::zone::Zone;
use vstd::prelude::*;

verus! {

/// The merge criterion: two bodies collide when their distance is below
/// `MERGE_NUM / MERGE_DEN` of the sum of their radii, compared exactly on
/// squares.
pub open spec fn collides(a: Body, b: Body) -> bool {
    (MERGE_DEN * MERGE_DEN) * dist_sq(a.p, b.p) < (MERGE_NUM * MERGE_NUM) * ((a.radius
        + b.radius) * (a.radius + b.radius))
}

/// The first accepted body (lowest index) that collides with `b`; `-1` if
/// none does. The first match wins, not the closest: the scan order is part
/// of the contract.
pub open spec fn first_hit(acc: Seq<Body>, b: Body) -> int
    decreases acc.len(),
{
    if acc.len() == 0 {
        -1
    } else if collides(acc[0], b) {
        0
    } else {
        let r = first_hit(acc.drop_first(), b);
        if r == -1 {
            -1
        } else {
            r + 1
        }
    }
}

/// One consolidation step: a body outside the zone is dropped; one that
/// collides with an already accepted body merges into the first such body;
/// otherwise it is accepted as new.
pub open spec fn step_spec(acc: Seq<Body>, b: Body, z: Zone) -> Seq<Body> {
    if !z.contains_spec(b.p) {
        acc
    } else {
        let j = first_hit(acc, b);
        if j >= 0 {
            acc.update(j, merged(acc[j], b))
        } else {
            acc.push(b)
        }
    }
}

/// The whole consolidation pass: bodies scanned in their original order,
/// each dropped, merged into the first colliding accepted body, or
/// accepted.
pub open spec fn scrutinize_spec(s: Seq<Body>, z: Zone) -> Seq<Body>
    decreases s.len(),
{
    if s.len() == 0 {
        Seq::empty()
    } else {
        step_spec(scrutinize_spec(s.drop_last(), z), s.last(), z)
    }
}

/// The total mass after updating one element changes by the mass
/// difference of that element.
pub proof fn lemma_mass_sum_update(s: Seq<Body>, j: int, b: Body)
    requires
        0 <= j < s.len(),
    ensures
        mass_sum(s.update(j, b)) == mass_sum(s) - s[j].mass + b.mass,
    decreases s.len(),
{
    let u = s.update(j, b);
    if j == s.len() - 1 {
        assert(u.drop_last() =~= s.drop_last());
        assert(u.last() == b);
    } else {
        assert(u.drop_last() =~= s.drop_last().update(j, b));
        assert(u.last() == s.last());
        lemma_mass_sum_update(s.drop_last(), j, b);
    }
}

/// A prefix never carries more mass than the whole sequence.
pub proof fn lemma_mass_sum_take(s: Seq<Body>, i: int)
    requires
        0 <= i <= s.len(),
    ensures
        mass_sum(s.take(i)) <= mass_sum(s),
    decreases s.len() - i,
{
    if i == s.len() {
        assert(s.take(i) =~= s);
    } else {
        lemma_mass_sum_take(s, i + 1);
        assert(s.take(i + 1).drop_last() =~= s.take(i));
        assert(s.take(i + 1).last() == s[i]);
    }
}

/// A prefix of a sequence of valid bodies within the mass budget is again
/// within it; spelled out for loop use.
pub open spec fn all_valid(s: Seq<Body>) -> bool {
    forall|i: int| 0 <= i < s.len() ==> (#[trigger] s[i]).valid()
}

/// Consolidation output is made of valid bodies inside the zone, and its
/// total mass is exactly the total mass of the contained input bodies:
/// merging conserves mass, and only out-of-zone bodies are dropped.
pub proof fn lemma_scrutinize_wf(s: Seq<Body>, z: Zone)
    requires
        z.wf(),
        all_valid(s),
        mass_sum(s) <= MASS_MAX,
    ensures
        all_valid(scrutinize_spec(s, z)),
        forall|i: int|
            0 <= i < scrutinize_spec(s, z).len() ==> z.contains_spec(
                (#[trigger] scrutinize_spec(s, z)[i]).p,
            ),
        mass_sum(scrutinize_spec(s, z)) == mass_sum(keep_contained(s, z)),
    decreases s.len(),
{
    if s.len() > 0 {
        let d = s.drop_last();
        let b = s.last();
        assert(all_valid(d)) by {
            assert(forall|i: int| 0 <= i < d.len() ==> d[i] == s[i]);
        }
        lemma_mass_sum_nonneg(d);
        lemma_scrutinize_wf(d, z);
        lemma_keep_contained_props(d, z);
        lemma_keep_contained_props(s, z);
        let acc = scrutinize_spec(d, z);
        let out = scrutinize_spec(s, z);
        let kd = keep_contained(d, z);
        let kc = keep_contained(s, z);
        assert(s[s.len() - 1] == b);
        if !z.contains_spec(b.p) {
            assert(kc == kd);
            assert(out == acc);
        } else {
            assert(mass_sum(kc) == mass_sum(kd) + b.mass) by {
                assert(kc == kd.push(b));
                crate::tree::lemma_sums_push(kd, b);
            }
            let j = first_hit(acc, b);
            if j >= 0 {
                assert(j < acc.len()) by {
                    lemma_first_hit_in_range(acc, b);
                }
                let m = merged(acc[j], b);
                assert(acc[j].mass + b.mass <= MASS_MAX) by {
                    crate::tree::lemma_mass_sum_element(acc, j);
                }
                assert(m.valid() && z.contains_spec(m.p)) by {
                    lemma_merged_ok(acc[j], b, z);
                }
                lemma_mass_sum_update(acc, j, m);
                assert(out == acc.update(j, m));
                assert forall|i: int| 0 <= i < out.len() implies (#[trigger] out[i]).valid()
                    && z.contains_spec(out[i].p) by {
                    if i != j {
                        assert(out[i] == acc[i]);
                    }
                }
            } else {
                assert(out == acc.push(b));
                crate::tree::lemma_sums_push(acc, b);
                assert forall|i: int| 0 <= i < out.len() implies (#[trigger] out[i]).valid()
                    && z.contains_spec(out[i].p) by {
                    if i < acc.len() {
                        assert(out[i] == acc[i]);
                    } else {
                        assert(out[i] == b);
                    }
                }
            }
        }
    }
}

/// A found hit is a real index.
pub proof fn lemma_first_hit_in_range(acc: Seq<Body>, b: Body)
    ensures
        first_hit(acc, b) == -1 || (0 <= first_hit(acc, b) < acc.len() && collides(
            acc[first_hit(acc, b)],
            b,
        )),
        first_hit(acc, b) >= 0 ==> forall|jj: int|
            0 <= jj < first_hit(acc, b) ==> !collides(#[trigger] acc[jj], b),
        first_hit(acc, b) == -1 ==> forall|jj: int|
            0 <= jj < acc.len() ==> !collides(#[trigger] acc[jj], b),
    decreases acc.len(),
{
    if acc.len() > 0 {
        if !collides(acc[0], b) {
            let t = acc.drop_first();
            lemma_first_hit_in_range(t, b);
            assert(forall|i: int| 0 <= i < t.len() ==> t[i] == acc[i + 1]);
            let r = first_hit(t, b);
            if r == -1 {
                assert forall|jj: int| 0 <= jj < acc.len() implies !collides(
                    #[trigger] acc[jj],
                    b,
                ) by {
                    if jj > 0 {
                        assert(acc[jj] == t[jj - 1]);
                    }
                }
            } else {
                assert(first_hit(acc, b) == r + 1);
                assert(acc[r + 1] == t[r]);
                assert forall|jj: int| 0 <= jj < r + 1 implies !collides(
                    #[trigger] acc[jj],
                    b,
                ) by {
                    if jj > 0 {
                        assert(acc[jj] == t[jj - 1]);
                    }
                }
            }
        }
    }
}

/// Exact collision test between two valid bodies.
pub fn collide(a: &Body, b: &Body) -> (r: bool)
    requires
        a.valid(),
        b.valid(),
        in_bounds(a.p),
        in_bounds(b.p),
    ensures
        r == collides(*a, *b),
{
    proof {
        lemma_radius_of_mass_bound(a.mass as nat);
        lemma_radius_of_mass_bound(b.mass as nat);
    }
    let d2: u128 = a.p.dist_sq_to(&b.p);
    let rsum: u64 = a.radius + b.radius;
    proof {
        assert(0 <= dist_sq(a.p, b.p) <= 0x8_0000_0000_0000_0000_0000) by (nonlinear_arith)
            requires
                -0x200_0000_0000 <= b.p.x - a.p.x <= 0x200_0000_0000,
                -0x200_0000_0000 <= b.p.y - a.p.y <= 0x200_0000_0000,
                dist_sq(a.p, b.p) == (b.p.x - a.p.x) * (b.p.x - a.p.x) + (b.p.y - a.p.y) * (b.p.y
                    - a.p.y),
        ;
        assert((rsum as int) * (rsum as int) <= 0x10_0000_0000_0000_0000) by (nonlinear_arith)
            requires
                0 <= (rsum as int) <= 0x2000_0000,
        ;
    }
    let lhs: u128 = 25 * d2;
    let rhs: u128 = 9 * ((rsum as u128) * (rsum as u128));
    lhs < rhs
}

/// Consolidate the body list after a tick: drop every body that left the
/// zone, then scan the survivors in order, merging each into the first
/// previously accepted body it collides with; exactly `scrutinize_spec`.
/// Total mass of the contained bodies is conserved.
#[verifier::loop_isolation(false)]
pub fn scrutinize(bodies: Vec<Body>, whole_zone: &Zone) -> (r: Vec<Body>)
    requires
        whole_zone.wf(),
        all_valid(bodies@),
        mass_sum(bodies@) <= MASS_MAX,
    ensures
        r@ == scrutinize_spec(bodies@, *whole_zone),
        all_valid(r@),
        forall|i: int|
            0 <= i < r@.len() ==> whole_zone.contains_spec((#[trigger] r@[i]).p),
        mass_sum(r@) == mass_sum(keep_contained(bodies@, *whole_zone)),
{
    let z: Zone = *whole_zone;
    let n = bodies.len();
    let mut next: Vec<Body> = Vec::new();
    let mut i: usize = 0;
    while i < n
        invariant
            i <= n,
            next@ == scrutinize_spec(bodies@.take(i as int), z),
        decreases n - i,
    {
        let ghost pre = bodies@.take(i as int);
        let b = bodies[i];
        proof {
            assert(bodies@.take(i as int + 1).drop_last() =~= pre);
            assert(bodies@.take(i as int + 1).last() == b);
            assert(all_valid(pre)) by {
                assert(forall|k: int| 0 <= k < pre.len() ==> pre[k] == bodies@[k]);
            }
            lemma_mass_sum_take(bodies@, i as int + 1);
            lemma_mass_sum_take(bodies@, i as int);
            lemma_scrutinize_wf(pre, z);
            lemma_keep_contained_props(pre, z);
            lemma_mass_sum_nonneg(keep_contained(pre, z));
        }
        if whole_zone.contains(&b.p) {
            let ghost acc = next@;
            let mut j: usize = 0;
            let mut hit: bool = false;
            while j < next.len() && !hit
                invariant
                    j <= next@.len(),
                    !hit ==> {
                        &&& next@ == acc
                        &&& forall|jj: int| 0 <= jj < j ==> !collides(#[trigger] acc[jj], b)
                    },
                    hit ==> next@ == step_spec(acc, b, z) && next@.len() == acc.len(),
                decreases next@.len() - j,
            {
                let nb = next[j];
                proof {
                    z.lemma_contained_in_bounds(nb.p);
                    z.lemma_contained_in_bounds(b.p);
                }
                if collide(&nb, &b) {
                    proof {
                        lemma_first_hit_found(acc, b, j as int);
                        crate::tree::lemma_mass_sum_element(acc, j as int);
                        assert(mass_sum(keep_contained(pre, z)) + b.mass <= MASS_MAX) by {
                            assert(keep_contained(bodies@.take(i as int + 1), z)
                                == keep_contained(pre, z).push(b));
                            crate::tree::lemma_sums_push(keep_contained(pre, z), b);
                            lemma_keep_contained_props(bodies@.take(i as int + 1), z);
                        }
                    }
                    let mut upd = nb;
                    upd.agglutinate(b);
                    next[j] = upd;
                    hit = true;
                }
                j = j + 1;
            }
            if !hit {
                proof {
                    lemma_first_hit_in_range(acc, b);
                    assert(first_hit(acc, b) == -1);
                }
                next.push(b);
            }
        }
        proof {
            assert(next@ == scrutinize_spec(bodies@.take(i as int + 1), z));
        }
        i = i + 1;
    }
    proof {
        assert(bodies@.take(n as int) =~= bodies@);
        lemma_scrutinize_wf(bodies@, z);
    }
    next
}

/// The first index that collides is the first hit.
pub proof fn lemma_first_hit_found(acc: Seq<Body>, b: Body, j: int)
    requires
        0 <= j < acc.len(),
        collides(acc[j], b),
        forall|jj: int| 0 <= jj < j ==> !collides(#[trigger] acc[jj], b),
    ensures
        first_hit(acc, b) == j,
    decreases acc.len(),
{
    if j == 0 {
    } else {
        let t = acc.drop_first();
        assert(forall|i: int| 0 <= i < t.len() ==> t[i] == acc[i + 1]);
        lemma_first_hit_found(t, b, j - 1);
    }
}

/// Merging two valid bodies inside a zone gives a valid body inside it.
pub proof fn lemma_merged_ok(a: Body, b: Body, z: Zone)
    requires
        a.valid(),
        b.valid(),
        a.mass + b.mass <= MASS_MAX,
        z.contains_spec(a.p),
        z.contains_spec(b.p),
        z.wf(),
    ensures
        merged(a, b).valid(),
        z.contains_spec(merged(a, b).p),
{
    lemma_wavg_between(a.p.x as int, a.mass as int, b.p.x as int, b.mass as int);
    lemma_wavg_between(a.p.y as int, a.mass as int, b.p.y as int, b.mass as int);
    lemma_radius_of_mass_bound((a.mass + b.mass) as nat);
}

} // verus!
