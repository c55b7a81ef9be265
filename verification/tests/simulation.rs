use nbody::geom::Point;
use nbody::sim::{Sim, SpawnError};
use nbody::tree::MaybeNode;
use nbody::zone::Zone;

fn big_zone() -> Zone {
    Zone { tl: Point { x: 0, y: 0 }, width: 1_073_741_824 }
}

const MASS_BUDGET: u64 = 17_592_186_044_416;

#[test]
fn a_fresh_simulation_is_empty() {
    let sim = Sim::new(big_zone());
    assert_eq!(sim.bodies().len(), 0);
    assert!(matches!(sim.tree(), MaybeNode::Nothing(_)));
    assert_eq!(sim.overall_zone().width, 1_073_741_824);
    assert_eq!(sim.total_mass(), 0);
}

#[test]
fn spawn_rejects_zero_mass() {
    let mut sim = Sim::new(big_zone());
    let r = sim.spawn_body(Point { x: 5, y: 5 }, 0, Point { x: 0, y: 0 });
    assert_eq!(r, Err(SpawnError::ZeroMass));
    assert_eq!(sim.bodies().len(), 0);
}

#[test]
fn spawn_rejects_out_of_range_positions() {
    let mut sim = Sim::new(big_zone());
    let r = sim.spawn_body(
        Point { x: 2_000_000_000_000, y: 0 },
        5,
        Point { x: 0, y: 0 },
    );
    assert_eq!(r, Err(SpawnError::PositionOutOfRange));
}

#[test]
fn spawn_rejects_breaking_the_mass_budget() {
    let mut sim = Sim::new(big_zone());
    let ok = sim.spawn_body(Point { x: 5, y: 5 }, MASS_BUDGET, Point { x: 0, y: 0 });
    assert_eq!(ok, Ok(()));
    let r = sim.spawn_body(Point { x: 9, y: 9 }, 1, Point { x: 0, y: 0 });
    assert_eq!(r, Err(SpawnError::MassBudgetExceeded));
    assert_eq!(sim.bodies().len(), 1);
    assert_eq!(sim.total_mass(), MASS_BUDGET);
}

#[test]
fn spawn_appends_the_body() {
    let mut sim = Sim::new(big_zone());
    let r = sim.spawn_body(Point { x: 5, y: 6 }, 77, Point { x: 1, y: -1 });
    assert_eq!(r, Ok(()));
    assert_eq!(sim.bodies().len(), 1);
    let b = &sim.bodies()[0];
    assert_eq!((b.p.x, b.p.y), (5, 6));
    assert_eq!((b.momentum.x, b.momentum.y), (1, -1));
    assert_eq!(b.mass, 77);
}

#[test]
fn a_lone_body_at_the_center_does_not_move() {
    // No other body exists, so no force source: after a tick the momentum
    // is still the zero vector and the position is unchanged.
    let mut sim = Sim::new(big_zone());
    let center = Point { x: 536_870_912, y: 536_870_912 };
    sim.spawn_body(center, 1_000_000, Point { x: 0, y: 0 }).unwrap();
    sim.step();
    assert_eq!(sim.bodies().len(), 1);
    let b = &sim.bodies()[0];
    assert_eq!((b.p.x, b.p.y), (536_870_912, 536_870_912));
    assert_eq!((b.momentum.x, b.momentum.y), (0, 0));
    assert!(matches!(sim.tree(), MaybeNode::One(_, _)));
}

#[test]
fn two_bodies_attract_each_other() {
    let mut sim = Sim::new(big_zone());
    sim.spawn_body(
        Point { x: 400_000_000, y: 500_000_000 },
        1_000_000,
        Point { x: 0, y: 0 },
    )
    .unwrap();
    sim.spawn_body(
        Point { x: 600_000_000, y: 500_000_000 },
        1_000_000,
        Point { x: 0, y: 0 },
    )
    .unwrap();
    sim.step();
    let bs = sim.bodies();
    assert_eq!(bs.len(), 2);
    // Exact scaled increments for this configuration, applied to the
    // positions in the same tick.
    assert_eq!((bs[0].momentum.x, bs[0].momentum.y), (226, 0));
    assert_eq!((bs[1].momentum.x, bs[1].momentum.y), (-227, 0));
    assert_eq!(bs[0].p.x, 400_000_226);
    assert_eq!(bs[1].p.x, 599_999_773);
    // The tree snapshot was taken before the move.
    match sim.tree() {
        MaybeNode::Something(_, node) => {
            assert_eq!(node.virtual_body.mass, 2_000_000);
            assert_eq!(node.virtual_body.p.x, 500_000_000);
        },
        _ => panic!("expected an internal node"),
    }
}

#[test]
fn bodies_leaving_the_zone_are_dropped_after_the_tick() {
    let mut sim = Sim::new(big_zone());
    sim.spawn_body(
        Point { x: 5, y: 5 },
        1_000_000,
        Point { x: -10, y: 0 },
    )
    .unwrap();
    sim.step();
    assert_eq!(sim.bodies().len(), 0);
}

#[test]
fn recenter_moves_a_lone_body_to_the_center() {
    let mut sim = Sim::new(big_zone());
    sim.spawn_body(Point { x: 100, y: 200 }, 1_000_000, Point { x: 0, y: 0 }).unwrap();
    sim.step();
    sim.recenter();
    let b = &sim.bodies()[0];
    assert_eq!((b.p.x, b.p.y), (536_870_912, 536_870_912));
    match sim.tree() {
        MaybeNode::One(_, kept) => assert_eq!((kept.p.x, kept.p.y), (536_870_912, 536_870_912)),
        _ => panic!("expected a leaf"),
    }
}

#[test]
fn recenter_twice_equals_recenter_once() {
    // Idempotence holds from a state whose tree was built from the current
    // bodies. A tick leaves the tick-start snapshot as the tree, so one
    // recenter first brings tree and bodies in line (and the centroid to
    // the center); from there a further recenter must change nothing.
    let mut sim = Sim::new(big_zone());
    sim.spawn_body(Point { x: 100, y: 200 }, 1_000_000, Point { x: 3, y: 4 }).unwrap();
    sim.spawn_body(
        Point { x: 400_000_000, y: 500_000_000 },
        3_000_000,
        Point { x: -1, y: 2 },
    )
    .unwrap();
    sim.step();
    // Align the stored tree with the body list: the tick keeps the
    // tick-start snapshot, taken before the bodies moved.
    sim.recenter();
    // From a state whose tree was built from the current bodies, one
    // recenter puts the aggregate centroid exactly on the zone center...
    sim.recenter();
    let after_once: Vec<(i64, i64, i64, i64, u64)> = sim
        .bodies()
        .iter()
        .map(|b| (b.p.x, b.p.y, b.momentum.x, b.momentum.y, b.mass))
        .collect();
    let centroid_once = match sim.tree() {
        MaybeNode::Something(_, node) => (node.virtual_body.p.x, node.virtual_body.p.y),
        _ => panic!("expected an internal node"),
    };
    // The aggregate centroid now sits at the zone center.
    assert_eq!(centroid_once, (536_870_912, 536_870_912));
    // ... and a further recenter changes nothing at all.
    sim.recenter();
    let after_twice: Vec<(i64, i64, i64, i64, u64)> = sim
        .bodies()
        .iter()
        .map(|b| (b.p.x, b.p.y, b.momentum.x, b.momentum.y, b.mass))
        .collect();
    assert_eq!(after_once, after_twice);
    let centroid_twice = match sim.tree() {
        MaybeNode::Something(_, node) => (node.virtual_body.p.x, node.virtual_body.p.y),
        _ => panic!("expected an internal node"),
    };
    assert_eq!(centroid_once, centroid_twice);
}

#[test]
fn recenter_on_an_empty_simulation_changes_nothing() {
    let mut sim = Sim::new(big_zone());
    sim.recenter();
    assert_eq!(sim.bodies().len(), 0);
    assert!(matches!(sim.tree(), MaybeNode::Nothing(_)));
}
