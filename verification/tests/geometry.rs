use nbody::geom::Point;
use nbody::zone::Zone;

fn zone(x: i64, y: i64, w: u64) -> Zone {
    Zone { tl: Point { x, y }, width: w }
}

#[test]
fn containment_is_half_open() {
    let z = zone(0, 0, 8);
    assert!(z.contains(&Point { x: 0, y: 0 }));
    assert!(z.contains(&Point { x: 7, y: 7 }));
    assert!(!z.contains(&Point { x: 8, y: 0 }));
    assert!(!z.contains(&Point { x: 0, y: 8 }));
    assert!(!z.contains(&Point { x: -1, y: 3 }));
}

#[test]
fn split_order_and_geometry() {
    let z = zone(0, 0, 8);
    let (c0, c1, c2, c3) = z.split();
    assert_eq!((c0.tl.x, c0.tl.y, c0.width), (0, 0, 4));
    assert_eq!((c1.tl.x, c1.tl.y, c1.width), (4, 0, 4));
    assert_eq!((c2.tl.x, c2.tl.y, c2.width), (0, 4, 4));
    assert_eq!((c3.tl.x, c3.tl.y, c3.width), (4, 4, 4));
}

#[test]
fn split_lines_belong_to_exactly_one_child() {
    let z = zone(0, 0, 8);
    let (c0, c1, c2, c3) = z.split();
    // A point on the vertical split line belongs to the right-hand child.
    let p = Point { x: 4, y: 0 };
    let hits = [
        c0.contains(&p),
        c1.contains(&p),
        c2.contains(&p),
        c3.contains(&p),
    ];
    assert_eq!(hits, [false, true, false, false]);
    // A point on both split lines belongs to the bottom-right child.
    let q = Point { x: 4, y: 4 };
    let hits = [
        c0.contains(&q),
        c1.contains(&q),
        c2.contains(&q),
        c3.contains(&q),
    ];
    assert_eq!(hits, [false, false, false, true]);
    // Every corner point of the parent lands in exactly one child.
    for &(x, y) in &[(0, 0), (7, 0), (0, 7), (7, 7), (3, 4), (4, 3)] {
        let p = Point { x, y };
        let n = [&c0, &c1, &c2, &c3].iter().filter(|c| c.contains(&p)).count();
        assert_eq!(n, 1, "point ({}, {})", x, y);
    }
}

#[test]
fn center_of_zone() {
    let z = zone(0, 0, 8);
    let c = z.center();
    assert_eq!((c.x, c.y), (4, 4));
    let z2 = zone(-8, 16, 16);
    let c2 = z2.center();
    assert_eq!((c2.x, c2.y), (0, 24));
}

#[test]
fn distances_are_exact() {
    let a = Point { x: 0, y: 0 };
    let b = Point { x: 3, y: 4 };
    assert_eq!(a.dist_sq_to(&b), 25);
    assert_eq!(a.dist_to(&b), 5);
    // Floor rounding on a non-square distance.
    let c = Point { x: 2, y: 2 };
    assert_eq!(a.dist_sq_to(&c), 8);
    assert_eq!(a.dist_to(&c), 2);
}

#[test]
fn direction_is_the_displacement() {
    let a = Point { x: 10, y: -3 };
    let b = Point { x: 4, y: 9 };
    let d = a.dir_to(&b);
    assert_eq!((d.x, d.y), (-6, 12));
    let s = b.sub(&a);
    assert_eq!((s.x, s.y), (-6, 12));
}

#[test]
fn shift_saturates_at_the_machine_range() {
    let mut p = Point { x: 5, y: -5 };
    p.shift(&Point { x: 10, y: -10 });
    assert_eq!((p.x, p.y), (15, -15));
    let mut q = Point {
        x: i64::MAX - 1,
        y: i64::MIN + 1,
    };
    q.shift(&Point { x: 100, y: -100 });
    assert_eq!((q.x, q.y), (i64::MAX, i64::MIN));
}

#[test]
fn the_null_point_is_the_origin() {
    let p = Point::null();
    assert_eq!((p.x, p.y), (0, 0));
}
