use drawing::arith::rounded_sqrt;
use drawing::geometrical_shapes::{Circle, Color, Drawable, Line, Point, Triangle};

#[test]
fn point_random_stays_in_bounds() {
    for _ in 0..200 {
        let p = Point::random(50, 30);
        assert!(0 <= p.x && p.x < 50);
        assert!(0 <= p.y && p.y < 30);
    }
}

#[test]
fn point_random_unit_bounds_pins_origin() {
    for _ in 0..20 {
        let p = Point::random(1, 1);
        assert_eq!((p.x, p.y), (0, 0));
    }
}

#[test]
fn line_random_endpoints_in_bounds() {
    for _ in 0..50 {
        let l = Line::random(40, 25);
        assert!(0 <= l.p1.x && l.p1.x < 40 && 0 <= l.p1.y && l.p1.y < 25);
        assert!(0 <= l.p2.x && l.p2.x < 40 && 0 <= l.p2.y && l.p2.y < 25);
    }
}

#[test]
fn triangle_random_corners_in_bounds() {
    for _ in 0..50 {
        let t = Triangle::random(100, 50);
        for p in [t.p1, t.p2, t.p3] {
            assert!(0 <= p.x && p.x < 100);
            assert!(0 <= p.y && p.y < 50);
        }
    }
}

#[test]
fn circle_random_center_in_bounds_radius_plausible() {
    for _ in 0..50 {
        let c = Circle::random(100, 100);
        assert!(0 <= c.center.x && c.center.x < 100);
        assert!(0 <= c.center.y && c.center.y < 100);
        // The radius is the rounded distance to a point of the same bounds,
        // at most round(sqrt(99^2 + 99^2)) = 140.
        assert!(0 <= c.radius && c.radius <= 140);
    }
}

#[test]
fn circle_random_unit_bounds_is_degenerate() {
    let c = Circle::random(1, 1);
    assert_eq!((c.center.x, c.center.y), (0, 0));
    assert_eq!(c.radius, 0);
}

#[test]
fn random_color_is_opaque() {
    for _ in 0..20 {
        let c = Point::new(0, 0).color();
        assert_eq!(c.a, 255);
    }
}

#[test]
fn color_rgb_matches_components() {
    let c = Color::rgb(200, 100, 50);
    assert_eq!((c.r, c.g, c.b, c.a), (200, 100, 50, 255));
}

#[test]
fn rounded_sqrt_rounds_to_nearest() {
    let cases: Vec<(u64, u64)> = vec![
        (0, 0),
        (1, 1),
        (2, 1),
        (3, 2),
        (4, 2),
        (6, 2),
        (7, 3),
        (9, 3),
        (12, 3),
        (13, 4),
        (100, 10),
        (110, 10),
        (111, 11),
        (9999, 100),
        (0x7fff_ffff_ffff_ffff, 3_037_000_500),
    ];
    for (n, want) in cases {
        assert_eq!(rounded_sqrt(n), want);
    }
}
