use crate::body::{radius_of_mass, Body};
use crate::consolidate::{all_valid, scrutinize, scrutinize_spec};
use crate::constants::{MASS_MAX, POS_MAX};
use crate::force::{apply_forces, apply_tree_spec, lemma_apply_tree_preserves};
use crate::geom::{in_bounds, Point};
use crate::recenter::{copy_bodies, recenter, recenter_spec, shifted};
use crate::tree::{
    build_spec, is_pow2, keep_contained, lemma_keep_contained_props, lemma_mass_sum_nonneg,
    make_tree, mass_sum, tree_wf, zone_of, MaybeNode,
};
use crate::zone::Zone;
use vstd::prelude::*;

verus! {

/// Why a spawn request was rejected.
#[derive(Copy, Clone, Debug, PartialEq, Eq, Structural)]
pub enum SpawnError {
    /// A body must have positive mass.
    ZeroMass,
    /// The new body would push the population past the mass budget.
    MassBudgetExceeded,
    /// A coordinate is outside the machine range the engine admits.
    PositionOutOfRange,
}

/// One tick over a zone: snapshot the bodies into a fresh tree, accumulate
/// the tree's force into every body's momentum and advance each body by its
/// momentum, then consolidate (drop what left the zone, merge collisions).
pub open spec fn tick_spec(z: Zone, s: Seq<Body>) -> (MaybeNode, Seq<Body>) {
    let t = build_spec(z, keep_contained(s, z));
    let moved = s.map_values(
        |b: Body|
            {
                let f = apply_tree_spec(b, t);
                shifted(f, f.momentum)
            },
    );
    (t, scrutinize_spec(moved, z))
}

/// The body list after forces and integration keeps its length, its masses
/// and its validity.
pub proof fn lemma_moved_mass(s: Seq<Body>, t: MaybeNode)
    ensures
        ({
            let moved = s.map_values(
                |b: Body|
                    {
                        let f = apply_tree_spec(b, t);
                        shifted(f, f.momentum)
                    },
            );
            &&& moved.len() == s.len()
            &&& mass_sum(moved) == mass_sum(s)
            &&& (all_valid(s) ==> all_valid(moved))
        }),
    decreases s.len(),
{
    let moved = s.map_values(
        |b: Body|
            {
                let f = apply_tree_spec(b, t);
                shifted(f, f.momentum)
            },
    );
    assert forall|i: int| 0 <= i < s.len() implies (#[trigger] moved[i]).mass == s[i].mass
        && moved[i].radius == s[i].radius by {
        lemma_apply_tree_preserves(s[i], t);
    }
    if s.len() > 0 {
        lemma_moved_mass(s.drop_last(), t);
        let d = s.drop_last();
        let md = d.map_values(
            |b: Body|
                {
                    let f = apply_tree_spec(b, t);
                    shifted(f, f.momentum)
                },
        );
        assert(moved.drop_last() =~= md);
        assert(moved.last() == {
            let f = apply_tree_spec(s.last(), t);
            shifted(f, f.momentum)
        });
        lemma_apply_tree_preserves(s.last(), t);
    }
    if all_valid(s) {
        assert forall|i: int| 0 <= i < moved.len() implies (#[trigger] moved[i]).valid() by {
            assert(s[i].valid());
        }
    }
}

/// The simulation context: the fixed overall zone, the current body list,
/// and the tree built at the start of the last tick (kept for inspection
/// and for recentering).
pub struct Sim {
    pub zone: Zone,
    pub bodies: Vec<Body>,
    pub tree: MaybeNode,
}

impl Sim {
    /// The state every operation preserves: a well-formed power-of-two
    /// zone, valid bodies with bounded coordinates within the mass budget,
    /// and a well-formed tree over the zone.
    pub open spec fn wf(self) -> bool {
        &&& self.zone.wf()
        &&& is_pow2(self.zone.width as nat)
        &&& all_valid(self.bodies@)
        &&& forall|i: int| 0 <= i < self.bodies@.len() ==> in_bounds((#[trigger] self.bodies@[i]).p)
        &&& mass_sum(self.bodies@) <= MASS_MAX
        &&& tree_wf(self.tree)
        &&& zone_of(self.tree) == self.zone
    }

    /// A fresh simulation over `zone`: no bodies, an empty tree.
    pub fn new(zone: Zone) -> (r: Sim)
        requires
            zone.wf(),
            is_pow2(zone.width as nat),
        ensures
            r.wf(),
            r.zone == zone,
            r.bodies@ == Seq::<Body>::empty(),
            r.tree == MaybeNode::Nothing(zone),
    {
        let s = Sim { zone, bodies: Vec::new(), tree: MaybeNode::Nothing(zone) };
        proof {
            assert(s.bodies@ =~= Seq::<Body>::empty());
        }
        s
    }

    /// The fixed simulation bounds.
    pub fn overall_zone(&self) -> (r: Zone)
        ensures
            r == self.zone,
    {
        self.zone
    }

    /// The current body list, read-only.
    pub fn bodies(&self) -> (r: &Vec<Body>)
        ensures
            r@ == self.bodies@,
    {
        &self.bodies
    }

    /// The tree snapshot from the start of the last tick, read-only.
    pub fn tree(&self) -> (r: &MaybeNode)
        ensures
            *r == self.tree,
    {
        &self.tree
    }

    /// The total mass currently in the simulation.
    pub fn total_mass(&self) -> (r: u64)
        requires
            self.wf(),
        ensures
            r as int == mass_sum(self.bodies@),
    {
        let n = self.bodies.len();
        let mut sum: u64 = 0;
        let mut i: usize = 0;
        while i < n
            invariant
                i <= n == self.bodies@.len(),
                sum as int == mass_sum(self.bodies@.take(i as int)),
                self.wf(),
            decreases n - i,
        {
            proof {
                assert(self.bodies@.take(i as int + 1).drop_last() =~= self.bodies@.take(
                    i as int,
                ));
                assert(self.bodies@.take(i as int + 1).last() == self.bodies@[i as int]);
                crate::consolidate::lemma_mass_sum_take(self.bodies@, i as int + 1);
                lemma_mass_sum_nonneg(self.bodies@.take(i as int));
            }
            sum = sum + self.bodies[i].mass;
            i = i + 1;
        }
        proof {
            assert(self.bodies@.take(n as int) =~= self.bodies@);
        }
        sum
    }

    /// Add a new body between ticks. Rejected exactly when the mass is
    /// zero, a coordinate is out of the machine range, or the mass budget
    /// would be exceeded; on success the body is appended with the given
    /// position and momentum, at rest radius derived from its mass.
    pub fn spawn_body(&mut self, p: Point, mass: u64, momentum: Point) -> (r: Result<
        (),
        SpawnError,
    >)
        requires
            old(self).wf(),
        ensures
            final (self).wf(),
            final (self).zone == old(self).zone,
            final (self).tree == old(self).tree,
            r == Ok::<(), SpawnError>(()) <==> (1 <= mass && in_bounds(p) && mass_sum(
                old(self).bodies@,
            ) + mass <= MASS_MAX),
            r is Ok ==> final (self).bodies@ == old(self).bodies@.push(
                Body {
                    p,
                    momentum,
                    mass,
                    radius: radius_of_mass(mass as nat) as u64,
                },
            ),
            r is Err ==> final (self).bodies@ == old(self).bodies@,
            mass == 0 ==> r == Err::<(), SpawnError>(SpawnError::ZeroMass),
            mass >= 1 && !in_bounds(p) ==> r == Err::<(), SpawnError>(
                SpawnError::PositionOutOfRange,
            ),
            mass >= 1 && in_bounds(p) && mass_sum(old(self).bodies@) + mass > MASS_MAX ==> r
                == Err::<(), SpawnError>(SpawnError::MassBudgetExceeded),
    {
        if mass == 0 {
            return Err(SpawnError::ZeroMass);
        }
        if p.x > POS_MAX || p.x < -POS_MAX || p.y > POS_MAX || p.y < -POS_MAX {
            return Err(SpawnError::PositionOutOfRange);
        }
        let total = self.total_mass();
        proof {
            lemma_mass_sum_nonneg(self.bodies@);
        }
        if mass > MASS_MAX || total > MASS_MAX - mass {
            return Err(SpawnError::MassBudgetExceeded);
        }
        let b = Body::new_with_momentum(p, mass, momentum);
        proof {
            assert(self.bodies@.push(b).drop_last() =~= self.bodies@);
        }
        self.bodies.push(b);
        Ok(())
    }

    /// Advance the simulation one tick: rebuild the tree from the current
    /// bodies, accumulate forces against that immutable snapshot, integrate
    /// every position, then consolidate. Exactly `tick_spec`.
    #[verifier::loop_isolation(false)]
    pub fn step(&mut self)
        requires
            old(self).wf(),
        ensures
            final (self).wf(),
            final (self).zone == old(self).zone,
            final (self).tree == tick_spec(old(self).zone, old(self).bodies@).0,
            final (self).bodies@ == tick_spec(old(self).zone, old(self).bodies@).1,
    {
        let ghost orig = self.bodies@;
        let z = self.zone;
        let snapshot = copy_bodies(&self.bodies);
        let t = make_tree(z, snapshot);
        let n = self.bodies.len();
        let mut i: usize = 0;
        while i < n
            invariant
                i <= n,
                self.bodies@.len() == n,
                self.zone == z,
                forall|k: int|
                    0 <= k < i ==> #[trigger] self.bodies@[k] == {
                        let f = apply_tree_spec(orig[k], t);
                        shifted(f, f.momentum)
                    },
                forall|k: int| i <= k < n ==> #[trigger] self.bodies@[k] == orig[k],
            decreases n - i,
        {
            let mut b = self.bodies[i];
            proof {
                assert(b == orig[i as int]);
                assert(in_bounds(b.p) && b.valid());
            }
            apply_forces(&mut b, &t);
            b.shift_with_momentum();
            proof {
                let f = apply_tree_spec(orig[i as int], t);
                assert(b == shifted(f, f.momentum));
            }
            self.bodies[i] = b;
            i = i + 1;
        }
        let ghost moved = orig.map_values(
            |b: Body|
                {
                    let f = apply_tree_spec(b, t);
                    shifted(f, f.momentum)
                },
        );
        proof {
            assert(self.bodies@ =~= moved);
            lemma_moved_mass(orig, t);
        }
        let moved_copy = copy_bodies(&self.bodies);
        let next = scrutinize(moved_copy, &z);
        proof {
            assert forall|k: int| 0 <= k < next@.len() implies in_bounds(
                (#[trigger] next@[k]).p,
            ) by {
                assert(z.contains_spec(next@[k].p));
            }
            lemma_keep_contained_props(moved, z);
            lemma_mass_sum_nonneg(keep_contained(moved, z));
        }
        self.bodies = next;
        self.tree = t;
    }

    /// Manual recalibration between ticks: translate the population so the
    /// last tree's top-level centroid (or sole body) sits at the zone
    /// center, drop what falls outside, rebuild the tree. Exactly
    /// `recenter_spec` against the stored tree.
    pub fn recenter(&mut self)
        requires
            old(self).wf(),
        ensures
            final (self).wf(),
            final (self).zone == old(self).zone,
            final (self).tree == recenter_spec(old(self).tree, old(self).bodies@).0,
            final (self).bodies@ == recenter_spec(old(self).tree, old(self).bodies@).1,
    {
        let bodies = copy_bodies(&self.bodies);
        let (t, kept) = recenter(&self.tree, bodies);
        proof {
            if !(self.tree is Nothing) {
                let z = zone_of(self.tree);
                let moved = crate::recenter::translated(
                    self.bodies@,
                    crate::recenter::recenter_delta(self.tree),
                );
                crate::recenter::lemma_translated_mass(
                    self.bodies@,
                    crate::recenter::recenter_delta(self.tree),
                );
                lemma_keep_contained_props(moved, z);
                lemma_mass_sum_nonneg(keep_contained(moved, z));
                assert(kept@ == keep_contained(moved, z));
                assert forall|k: int| 0 <= k < kept@.len() implies (#[trigger] kept@[k]).valid()
                    && in_bounds(kept@[k].p) by {
                    let j = choose|j: int| 0 <= j < moved.len() && moved[j] == kept@[k];
                    assert(moved[j].valid());
                    assert(z.contains_spec(kept@[k].p));
                }
            }
        }
        self.tree = t;
        self.bodies = kept;
    }
}

} // verus!
