use nbody::body::Body;
use nbody::consolidate::{collide, scrutinize};
use nbody::geom::Point;
use nbody::zone::Zone;

fn big_zone() -> Zone {
    Zone { tl: Point { x: 0, y: 0 }, width: 1_073_741_824 }
}

#[test]
fn two_close_bodies_merge_into_the_weighted_average() {
    // Masses in ratio 1:3 at a fifth and two fifths of the simulation
    // unit; their separation is below six tenths of the radius sum, so one
    // body survives, of the summed mass, at x = 0.2/4 + 0.4*3/4 = 0.35 of
    // the unit, y unchanged.
    let a = Body::new(Point { x: 200_000_000, y: 200_000_000 }, 3_000_000_000_000);
    let b = Body::new(Point { x: 400_000_000, y: 200_000_000 }, 9_000_000_000_000);
    assert!(collide(&a, &b));
    let out = scrutinize(vec![a, b], &big_zone());
    assert_eq!(out.len(), 1);
    assert_eq!(out[0].mass, 12_000_000_000_000);
    assert_eq!((out[0].p.x, out[0].p.y), (350_000_000, 200_000_000));
    assert_eq!(out[0].radius(), Body::radius_from_mass(12_000_000_000_000));
}

#[test]
fn distant_bodies_stay_apart() {
    let a = Body::new(Point { x: 300_000_000, y: 300_000_000 }, 1_000_000_000_000);
    let b = Body::new(Point { x: 500_000_000, y: 300_000_000 }, 1_000_000_000_000);
    assert!(!collide(&a, &b));
    let out = scrutinize(vec![a, b], &big_zone());
    assert_eq!(out.len(), 2);
    assert_eq!((out[0].p.x, out[1].p.x), (300_000_000, 500_000_000));
}

#[test]
fn bodies_outside_the_zone_are_dropped() {
    let inside = Body::new(Point { x: 100, y: 100 }, 7);
    let outside = Body::new(Point { x: -5, y: 100 }, 9);
    let out = scrutinize(vec![outside, inside], &big_zone());
    assert_eq!(out.len(), 1);
    assert_eq!(out[0].mass, 7);
}

#[test]
fn the_first_accepted_body_wins_the_merge() {
    // The third body collides with both accepted bodies; it merges into
    // the first accepted one, not the nearer or heavier one.
    let first = Body::new(Point { x: 300_000_000, y: 300_000_000 }, 1_000_000_000_000);
    let second = Body::new(Point { x: 500_000_000, y: 300_000_000 }, 1_000_000_000_000);
    let third = Body::new(Point { x: 400_000_000, y: 300_000_000 }, 1_000_000_000_000);
    assert!(collide(&first, &third));
    assert!(collide(&second, &third));
    let out = scrutinize(vec![first, second, third], &big_zone());
    assert_eq!(out.len(), 2);
    // first absorbed third: equal masses average to the midpoint.
    assert_eq!(out[0].mass, 2_000_000_000_000);
    assert_eq!(out[0].p.x, 350_000_000);
    // second is untouched.
    assert_eq!(out[1].mass, 1_000_000_000_000);
    assert_eq!(out[1].p.x, 500_000_000);
}

#[test]
fn consolidation_conserves_contained_mass() {
    let bodies = vec![
        Body::new(Point { x: 200_000_000, y: 200_000_000 }, 3_000_000_000_000),
        Body::new(Point { x: -1, y: 0 }, 555),
        Body::new(Point { x: 400_000_000, y: 200_000_000 }, 9_000_000_000_000),
        Body::new(Point { x: 900_000_000, y: 900_000_000 }, 42),
    ];
    let before: u64 = bodies
        .iter()
        .filter(|b| big_zone().contains(&b.p))
        .map(|b| b.mass)
        .sum();
    let out = scrutinize(bodies, &big_zone());
    let after: u64 = out.iter().map(|b| b.mass).sum();
    assert_eq!(before, after);
    assert_eq!(after, 12_000_000_000_042);
}

#[test]
fn coincident_bodies_always_merge() {
    let a = Body::new(Point { x: 300, y: 300 }, 5);
    let b = Body::new(Point { x: 300, y: 300 }, 9);
    assert!(collide(&a, &b));
    let out = scrutinize(vec![a, b], &big_zone());
    assert_eq!(out.len(), 1);
    assert_eq!(out[0].mass, 14);
    assert_eq!((out[0].p.x, out[0].p.y), (300, 300));
}
