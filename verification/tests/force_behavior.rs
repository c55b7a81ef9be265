use nbody::body::Body;
use nbody::force::{apply_forces, force};
use nbody::geom::Point;
use nbody::tree::make_tree;
use nbody::zone::Zone;

fn big_zone() -> Zone {
    // About one simulation unit, as a power of two.
    Zone { tl: Point { x: 0, y: 0 }, width: 1_073_741_824 }
}

#[test]
fn coincident_bodies_exert_no_force() {
    let mut pulled = Body::new(Point { x: 50, y: 50 }, 1_000_000);
    let other = Body::new(Point { x: 50, y: 50 }, 1_000_000);
    force(&mut pulled, &other);
    assert_eq!((pulled.momentum.x, pulled.momentum.y), (0, 0));
}

#[test]
fn attraction_points_toward_the_other_body() {
    // Two unit masses a fifth of a simulation unit apart: the exact scaled
    // increment is 226 length units along the axis.
    let mut pulled = Body::new(Point { x: 400_000_000, y: 500_000_000 }, 1_000_000);
    let other = Body::new(Point { x: 600_000_000, y: 500_000_000 }, 1_000_000);
    force(&mut pulled, &other);
    assert_eq!((pulled.momentum.x, pulled.momentum.y), (226, 0));
    // Pulled from the other side, the increment points back (floor
    // rounding makes it -227, not -226).
    let mut pulled2 = Body::new(Point { x: 600_000_000, y: 500_000_000 }, 1_000_000);
    let other2 = Body::new(Point { x: 400_000_000, y: 500_000_000 }, 1_000_000);
    force(&mut pulled2, &other2);
    assert_eq!((pulled2.momentum.x, pulled2.momentum.y), (-227, 0));
}

#[test]
fn a_leaf_containing_the_target_contributes_nothing() {
    let b = Body::new(Point { x: 100, y: 100 }, 1_000_000);
    let t = make_tree(big_zone(), vec![b]);
    let mut pulled = b;
    apply_forces(&mut pulled, &t);
    assert_eq!((pulled.momentum.x, pulled.momentum.y), (0, 0));
    assert_eq!((pulled.p.x, pulled.p.y), (100, 100));
}

#[test]
fn at_the_opening_threshold_the_tree_is_opened() {
    // Two unit masses whose aggregate centroid is (1, 0); the target sits
    // at squared distance exactly the threshold square. The traversal must
    // recurse to the two leaves: their exact contribution is (-1, -454),
    // while treating the subtree as one point mass would give (0, -454).
    let bodies = vec![
        Body::new(Point { x: 0, y: 0 }, 1_000_000),
        Body::new(Point { x: 2, y: 0 }, 1_000_000),
    ];
    let t = make_tree(big_zone(), bodies);
    let mut pulled = Body::new(Point { x: 1, y: 200_000_000 }, 1_000_000);
    apply_forces(&mut pulled, &t);
    assert_eq!((pulled.momentum.x, pulled.momentum.y), (-1, -454));
}

#[test]
fn beyond_the_opening_threshold_the_aggregate_is_used() {
    // One length unit farther: strictly beyond the threshold, so the whole
    // subtree acts as a single point mass at the centroid.
    let bodies = vec![
        Body::new(Point { x: 0, y: 0 }, 1_000_000),
        Body::new(Point { x: 2, y: 0 }, 1_000_000),
    ];
    let t = make_tree(big_zone(), bodies);
    let mut pulled = Body::new(Point { x: 1, y: 200_000_001 }, 1_000_000);
    apply_forces(&mut pulled, &t);
    assert_eq!((pulled.momentum.x, pulled.momentum.y), (0, -454));
    // The same pull computed directly against the aggregate agrees.
    let mut direct = Body::new(Point { x: 1, y: 200_000_001 }, 1_000_000);
    let aggregate = Body::new(Point { x: 1, y: 0 }, 2_000_000);
    force(&mut direct, &aggregate);
    assert_eq!(
        (direct.momentum.x, direct.momentum.y),
        (pulled.momentum.x, pulled.momentum.y)
    );
}
