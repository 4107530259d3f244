use bonsai::config::Bounds;
use bonsai::geom::{Point, linear_interpolate, SCALE, COORD_LIMIT, HALF_LIMIT};

#[test]
fn point_arithmetic() {
    let a = Point::new(3000, -2000);
    let b = Point::new(500, 1500);
    assert_eq!(a.add(b), Point { x: 3500, y: -500 });
    assert_eq!(a.sub(b), Point { x: 2500, y: -3500 });
    assert_eq!(a.mul(3), Point { x: 9000, y: -6000 });
    assert_eq!(a.div(Point { x: 1000, y: 1000 }), Point { x: 3, y: -2 });
    // Division truncates toward zero for every sign combination.
    assert_eq!(a.div(Point { x: -1000, y: 1000 }), Point { x: -3, y: -2 });
    assert_eq!(a.div(Point { x: -999, y: -999 }), Point { x: -3, y: 2 });
    assert_eq!(a.norm2(), 3000 * 3000 + 2000 * 2000);
}

#[test]
fn interpolation_exact_midpoint() {
    let a = Point::new(0, 0);
    let b = Point::new(1000, 2000);
    assert_eq!(linear_interpolate(&a, &b, 0), Point { x: 0, y: 0 });
    assert_eq!(linear_interpolate(&a, &b, 500), Point { x: 500, y: 1000 });
    assert_eq!(linear_interpolate(&a, &b, 1000), Point { x: 1000, y: 2000 });
}

#[test]
fn interpolation_truncates_toward_zero() {
    let a = Point::new(0, 0);
    let b = Point::new(-1000, -999);
    // -999 * 500 / 1000 rounds toward zero: -499, not -500.
    assert_eq!(linear_interpolate(&a, &b, 500), Point { x: -500, y: -499 });
}

#[test]
fn interpolation_stays_between_endpoints() {
    let a = Point::new(-7000, 4000);
    let b = Point::new(2000, -1000);
    for t in (0..=1000).step_by(37) {
        let p = linear_interpolate(&a, &b, t);
        assert!(p.x >= -7000 && p.x <= 2000);
        assert!(p.y >= -1000 && p.y <= 4000);
    }
}

#[test]
fn direction_ticks_are_unit_vectors() {
    // Every tick's vector has squared length close to one milli-unit scale,
    // and opposite ticks cancel.
    for d in 0..16u8 {
        let u = Point::from_phi(d);
        let n2 = u.x * u.x + u.y * u.y;
        assert!(n2 >= 980_000 && n2 <= 1_020_000, "tick {d} has norm2 {n2}");
        let v = Point::from_phi((d + 8) % 16);
        assert_eq!(u.x, -v.x);
        assert_eq!(u.y, -v.y);
    }
    assert_eq!(Point::from_phi(4), Point { x: 0, y: 1000 });
    assert_eq!(Point::from_phi(0), Point { x: 1000, y: 0 });
}

#[test]
fn scale_constants_are_consistent() {
    // Two half-range coordinates always sum within the full range: the fact
    // the animation relies on when it translates leaf offsets by node
    // positions.
    assert_eq!(SCALE, 1000);
    assert_eq!(2 * HALF_LIMIT, COORD_LIMIT);
}

#[test]
fn point_normalize_maps_onto_bounds() {
    let b = Bounds { width: 50, height: 50 };
    let hm = 50_000i64;
    let ht = hm * 6 / 7;
    let off = hm - ht;
    let lo = Point::new(0, 0);
    let hi = Point::new(1000, 1000);
    let mut p = Point::new(500, 500);
    p.normalize(&lo, &hi, b);
    assert_eq!(p, Point { x: 25_000, y: off + ht / 2 });
    let mut q = Point::new(1000, 0);
    q.normalize(&lo, &hi, b);
    assert_eq!(q, Point { x: 50_000, y: off });
    // A degenerate bounding box maps to the target midpoints, with no
    // division error.
    let mut r = Point::new(700, 700);
    r.normalize(&Point::new(700, 700), &Point::new(700, 700), b);
    assert_eq!(r, Point { x: 25_000, y: off + ht / 2 });
}
