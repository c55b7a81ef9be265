use nbody::body::Body;
use nbody::geom::Point;
use nbody::tree::{make_tree, MaybeNode};
use nbody::zone::Zone;

fn unit_zone() -> Zone {
    // A power-of-two width subdivides exactly all the way down.
    Zone { tl: Point { x: 0, y: 0 }, width: 1024 }
}

#[test]
fn no_bodies_make_an_empty_tree() {
    let t = make_tree(unit_zone(), Vec::new());
    assert!(matches!(t, MaybeNode::Nothing(_)));
}

#[test]
fn one_body_makes_a_leaf() {
    let b = Body::new(Point { x: 100, y: 100 }, 5);
    let t = make_tree(unit_zone(), vec![b]);
    match t {
        MaybeNode::One(z, kept) => {
            assert_eq!(z.width, 1024);
            assert_eq!((kept.p.x, kept.p.y), (100, 100));
            assert_eq!(kept.mass, 5);
        },
        _ => panic!("expected a leaf"),
    }
}

#[test]
fn a_body_outside_the_zone_is_left_out() {
    let b = Body::new(Point { x: 2000, y: 0 }, 5);
    let t = make_tree(unit_zone(), vec![b]);
    assert!(matches!(t, MaybeNode::Nothing(_)));
}

#[test]
fn aggregate_carries_total_mass_and_centroid() {
    // One body per diagonal quadrant, equal masses: the centroid is the
    // midpoint, the aggregate mass the sum.
    let a = Body::new(Point { x: 100, y: 100 }, 2);
    let b = Body::new(Point { x: 600, y: 600 }, 2);
    let t = make_tree(unit_zone(), vec![a, b]);
    match t {
        MaybeNode::Something(z, node) => {
            assert_eq!(z.width, 1024);
            assert_eq!(node.virtual_body.mass, 4);
            assert_eq!((node.virtual_body.p.x, node.virtual_body.p.y), (350, 350));
            assert!(matches!(node.branches.0, MaybeNode::One(_, _)));
            assert!(matches!(node.branches.1, MaybeNode::Nothing(_)));
            assert!(matches!(node.branches.2, MaybeNode::Nothing(_)));
            assert!(matches!(node.branches.3, MaybeNode::One(_, _)));
        },
        _ => panic!("expected an internal node"),
    }
}

#[test]
fn centroid_is_rounded_down() {
    let a = Body::new(Point { x: 0, y: 0 }, 1);
    let b = Body::new(Point { x: 5, y: 0 }, 2);
    let t = make_tree(unit_zone(), vec![a, b]);
    match t {
        MaybeNode::Something(_, node) => {
            // (0*1 + 5*2) / 3 = 3 after rounding down.
            assert_eq!(node.virtual_body.p.x, 3);
            assert_eq!(node.virtual_body.p.y, 0);
            assert_eq!(node.virtual_body.mass, 3);
        },
        _ => panic!("expected an internal node"),
    }
}

#[test]
fn every_quadrant_gets_its_body() {
    let bodies = vec![
        Body::new(Point { x: 10, y: 10 }, 1),
        Body::new(Point { x: 900, y: 10 }, 1),
        Body::new(Point { x: 10, y: 900 }, 1),
        Body::new(Point { x: 900, y: 900 }, 1),
    ];
    let t = make_tree(unit_zone(), bodies);
    match t {
        MaybeNode::Something(_, node) => {
            assert!(matches!(node.branches.0, MaybeNode::One(_, _)));
            assert!(matches!(node.branches.1, MaybeNode::One(_, _)));
            assert!(matches!(node.branches.2, MaybeNode::One(_, _)));
            assert!(matches!(node.branches.3, MaybeNode::One(_, _)));
            assert_eq!(node.virtual_body.mass, 4);
        },
        _ => panic!("expected an internal node"),
    }
}

#[test]
fn boundary_body_goes_to_the_later_quadrant() {
    // A body exactly on the vertical split line belongs to the top-right
    // quadrant, whose half-open interval starts there.
    let bodies = vec![
        Body::new(Point { x: 512, y: 0 }, 1),
        Body::new(Point { x: 0, y: 0 }, 1),
    ];
    let t = make_tree(unit_zone(), bodies);
    match t {
        MaybeNode::Something(_, node) => {
            assert!(matches!(node.branches.0, MaybeNode::One(_, _)));
            assert!(matches!(node.branches.1, MaybeNode::One(_, _)));
            assert!(matches!(node.branches.2, MaybeNode::Nothing(_)));
            assert!(matches!(node.branches.3, MaybeNode::Nothing(_)));
        },
        _ => panic!("expected an internal node"),
    }
}

#[test]
fn exactly_coincident_bodies_keep_only_the_first() {
    // Two bodies at the very same point can never be separated by
    // subdivision; the builder keeps the first and leaves the other out of
    // this tree (the body list itself is untouched).
    let a = Body::new(Point { x: 300, y: 300 }, 5);
    let b = Body::new(Point { x: 300, y: 300 }, 9);
    let t = make_tree(unit_zone(), vec![a, b]);
    fn leaves(n: &MaybeNode) -> Vec<(i64, i64, u64)> {
        match n {
            MaybeNode::Nothing(_) => vec![],
            MaybeNode::One(_, b) => vec![(b.p.x, b.p.y, b.mass)],
            MaybeNode::Something(_, node) => {
                let mut out = leaves(&node.branches.0);
                out.extend(leaves(&node.branches.1));
                out.extend(leaves(&node.branches.2));
                out.extend(leaves(&node.branches.3));
                out
            }
        }
    }
    assert_eq!(leaves(&t), vec![(300, 300, 5)]);
}
