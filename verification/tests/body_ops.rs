use nbody::body::Body;
use nbody::geom::Point;

#[test]
fn radius_follows_the_cube_root_law() {
    // radius = cbrt(1e12 * mass), rounded down.
    assert_eq!(Body::radius_from_mass(1), 10_000);
    assert_eq!(Body::radius_from_mass(1_000_000), 1_000_000);
    assert_eq!(Body::radius_from_mass(3_000_000_000_000), 144_224_957);
    assert_eq!(Body::radius_from_mass(9_000_000_000_000), 208_008_382);
}

#[test]
fn new_body_is_at_rest() {
    let b = Body::new(Point { x: 7, y: 9 }, 42);
    assert_eq!((b.p.x, b.p.y), (7, 9));
    assert_eq!((b.momentum.x, b.momentum.y), (0, 0));
    assert_eq!(b.mass, 42);
    assert_eq!(b.radius(), Body::radius_from_mass(42));
}

#[test]
fn merge_conserves_mass_exactly() {
    let mut a = Body::new(Point { x: 0, y: 0 }, 5);
    let b = Body::new(Point { x: 100, y: 0 }, 7);
    a.agglutinate(b);
    assert_eq!(a.mass, 12);
    assert_eq!(a.radius(), Body::radius_from_mass(12));
}

#[test]
fn merge_takes_mass_weighted_averages() {
    // Two bodies in mass ratio 1:3 at one fifth and two fifths of the
    // simulation unit merge to a body at 0.35 of the unit: exactly the
    // weighted average x = 0.2 * 1/4 + 0.4 * 3/4.
    let mut a = Body::new_with_momentum(
        Point { x: 200_000_000, y: 200_000_000 },
        3_000_000_000_000,
        Point { x: 100, y: -50 },
    );
    let b = Body::new_with_momentum(
        Point { x: 400_000_000, y: 200_000_000 },
        9_000_000_000_000,
        Point { x: 200, y: 30 },
    );
    a.agglutinate(b);
    assert_eq!(a.mass, 12_000_000_000_000);
    assert_eq!((a.p.x, a.p.y), (350_000_000, 200_000_000));
    // Momentum components are the same weighted average, floor-rounded:
    // (100*3e12 + 200*9e12) / 12e12 = 175, (-50*3e12 + 30*9e12) / 12e12 = 10.
    assert_eq!((a.momentum.x, a.momentum.y), (175, 10));
}

#[test]
fn merge_rounds_the_average_down() {
    let mut a = Body::new(Point { x: 0, y: 0 }, 1);
    let b = Body::new(Point { x: 5, y: 0 }, 2);
    a.agglutinate(b);
    // (0*1 + 5*2) / 3 = 10/3 rounded down.
    assert_eq!(a.p.x, 3);
}

#[test]
fn body_distance_and_direction() {
    let a = Body::new(Point { x: 0, y: 0 }, 10);
    let b = Body::new(Point { x: 6, y: 8 }, 10);
    assert_eq!(a.dist_to(&b), 10);
    assert_eq!(a.dist_sq_to(&b), 100);
    let d = a.dir_to(&b);
    assert_eq!((d.x, d.y), (6, 8));
}

#[test]
fn integration_adds_momentum_to_position() {
    let mut b = Body::new_with_momentum(Point { x: 10, y: 20 }, 3, Point { x: -4, y: 6 });
    b.shift_with_momentum();
    assert_eq!((b.p.x, b.p.y), (6, 26));
    assert_eq!((b.momentum.x, b.momentum.y), (-4, 6));
}

#[test]
fn body_color_is_green() {
    let b = Body::new(Point { x: 0, y: 0 }, 1);
    assert_eq!(b.color(), (0, 255, 0, 255));
}
