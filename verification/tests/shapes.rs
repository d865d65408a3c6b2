use drawing::canvas::Canvas;
use drawing::geometrical_shapes::{Circle, Color, Drawable, Line, Point, Rectangle, Triangle};

fn coords(canvas: &Canvas) -> Vec<(i32, i32)> {
    canvas.pixels.iter().map(|p| (p.x, p.y)).collect()
}

#[test]
fn line_horizontal_emits_all_eleven_points() {
    let mut canvas = Canvas::new();
    let c = Color::rgb(10, 20, 30);
    let l = Line::new(&Point::new(0, 0), &Point::new(10, 0));
    l.draw_with_color(&mut canvas, &c);
    assert_eq!(canvas.pixels.len(), 11);
    for (i, p) in canvas.pixels.iter().enumerate() {
        assert_eq!((p.x, p.y), (i as i32, 0));
        assert_eq!(p.color, c);
    }
}

#[test]
fn line_degenerate_emits_single_point() {
    let mut canvas = Canvas::new();
    let c = Color::rgb(1, 2, 3);
    let l = Line::new(&Point::new(5, -3), &Point::new(5, -3));
    l.draw_with_color(&mut canvas, &c);
    assert_eq!(coords(&canvas), vec![(5, -3)]);
}

#[test]
fn line_emits_endpoints_and_dominant_axis_count() {
    let mut canvas = Canvas::new();
    let c = Color::rgb(0, 0, 0);
    let l = Line::new(&Point::new(3, -2), &Point::new(-4, 5));
    l.draw_with_color(&mut canvas, &c);
    // steps = max(|dx|, |dy|) = 7, so 8 points, endpoints exact.
    let expected = vec![
        (3, -2),
        (2, -1),
        (1, 0),
        (0, 1),
        (-1, 2),
        (-2, 3),
        (-3, 4),
        (-4, 5),
    ];
    assert_eq!(coords(&canvas), expected);
}

#[test]
fn line_rounds_ties_away_from_zero() {
    let mut canvas = Canvas::new();
    let c = Color::rgb(9, 9, 9);
    Line::new(&Point::new(0, 0), &Point::new(2, 1)).draw_with_color(&mut canvas, &c);
    assert_eq!(coords(&canvas), vec![(0, 0), (1, 1), (2, 1)]);

    let mut canvas = Canvas::new();
    Line::new(&Point::new(0, 0), &Point::new(3, 1)).draw_with_color(&mut canvas, &c);
    assert_eq!(coords(&canvas), vec![(0, 0), (1, 0), (2, 1), (3, 1)]);
}

#[test]
fn triangle_draws_three_edges_in_cyclic_order() {
    let p1 = Point::new(500, 500);
    let p2 = Point::new(250, 700);
    let p3 = Point::new(700, 800);
    let c = Color::rgb(40, 50, 60);

    let mut got = Canvas::new();
    Triangle::new(&p1, &p2, &p3).draw_with_color(&mut got, &c);

    let mut expected = Canvas::new();
    Line::new(&p1, &p2).draw_with_color(&mut expected, &c);
    Line::new(&p2, &p3).draw_with_color(&mut expected, &c);
    Line::new(&p3, &p1).draw_with_color(&mut expected, &c);

    assert_eq!(got.pixels, expected.pixels);
    for p in got.pixels.iter() {
        assert_eq!(p.color, c);
    }
}

#[test]
fn triangle_draw_shares_one_color() {
    let mut canvas = Canvas::new();
    let t = Triangle::new(&Point::new(0, 0), &Point::new(10, 3), &Point::new(4, 9));
    t.draw(&mut canvas);
    assert!(!canvas.pixels.is_empty());
    let first = canvas.pixels[0].color;
    assert_eq!(first.a, 255);
    for p in canvas.pixels.iter() {
        assert_eq!(p.color, first);
    }
}

#[test]
fn rectangle_connects_derived_corners() {
    let p1 = Point::new(150, 300);
    let p2 = Point::new(50, 60);
    let c = Color::rgb(70, 80, 90);

    let mut got = Canvas::new();
    Rectangle::new(&p1, &p2).draw_with_color(&mut got, &c);

    // The two derived corners are (150, 60) and (50, 300); the sides run
    // (150,300) -> (150,60) -> (50,60) -> (50,300) -> (150,300).
    let mut expected = Canvas::new();
    Line::new(&Point::new(150, 300), &Point::new(150, 60)).draw_with_color(&mut expected, &c);
    Line::new(&Point::new(150, 60), &Point::new(50, 60)).draw_with_color(&mut expected, &c);
    Line::new(&Point::new(50, 60), &Point::new(50, 300)).draw_with_color(&mut expected, &c);
    Line::new(&Point::new(50, 300), &Point::new(150, 300)).draw_with_color(&mut expected, &c);

    assert_eq!(got.pixels, expected.pixels);

    let cs = coords(&got);
    assert_eq!(cs[0], (150, 300));
    assert!(cs.contains(&(150, 60)));
    assert!(cs.contains(&(50, 60)));
    assert!(cs.contains(&(50, 300)));
}

#[test]
fn rectangle_draw_shares_one_color() {
    let mut canvas = Canvas::new();
    let r = Rectangle::new(&Point::new(-3, 4), &Point::new(9, -1));
    r.draw(&mut canvas);
    assert!(!canvas.pixels.is_empty());
    let first = canvas.pixels[0].color;
    assert_eq!(first.a, 255);
    for p in canvas.pixels.iter() {
        assert_eq!(p.color, first);
    }
}

#[test]
fn circle_zero_radius_emits_center_only() {
    let mut canvas = Canvas::new();
    let c = Color::rgb(5, 6, 7);
    Circle::new(Point::new(7, 9), 0).draw_with_color(&mut canvas, &c);
    assert_eq!(canvas.pixels.len(), 2);
    for p in canvas.pixels.iter() {
        assert_eq!((p.x, p.y), (7, 9));
        assert_eq!(p.color, c);
    }
}

#[test]
fn circle_negative_radius_still_draws() {
    let mut canvas = Canvas::new();
    let c = Color::rgb(5, 6, 7);
    Circle::new(Point::new(0, 0), -5).draw_with_color(&mut canvas, &c);
    assert_eq!(coords(&canvas), vec![(-5, 0), (-5, 0)]);
}

#[test]
fn circle_sample_count_and_closure() {
    let mut canvas = Canvas::new();
    let c = Color::rgb(1, 1, 1);
    Circle::new(Point::new(100, 100), 10).draw_with_color(&mut canvas, &c);
    // steps = round(10 * 710/113) = 63, plus the closing sample.
    assert_eq!(canvas.pixels.len(), 64);
    let cs = coords(&canvas);
    assert_eq!(cs[0], (110, 100));
    assert_eq!(cs[63], (110, 100));
    // Every sample stays within the bounding box of the circle.
    for (x, y) in cs.iter() {
        assert!((90..=110).contains(x));
        assert!((90..=110).contains(y));
    }
}

#[test]
fn line_handles_extreme_coordinates() {
    let mut canvas = Canvas::new();
    let c = Color::rgb(0, 0, 0);
    let a = Point::new(i32::MAX - 3, i32::MIN);
    let b = Point::new(i32::MAX, i32::MIN + 3);
    Line::new(&a, &b).draw_with_color(&mut canvas, &c);
    let expected: Vec<(i32, i32)> = (0..4).map(|i| (i32::MAX - 3 + i, i32::MIN + i)).collect();
    assert_eq!(coords(&canvas), expected);
}

#[test]
fn circle_clips_samples_to_coordinate_range() {
    let mut canvas = Canvas::new();
    let c = Color::rgb(0, 0, 0);
    Circle::new(Point::new(i32::MAX - 1, 0), 5).draw_with_color(&mut canvas, &c);
    // steps = round(5 * 710/113) = 31, plus the closing sample.
    assert_eq!(canvas.pixels.len(), 32);
    // The rightmost sample would overflow the coordinate range and is clipped.
    assert_eq!(coords(&canvas)[0], (i32::MAX, 0));
    for (x, _) in coords(&canvas) {
        assert!(x >= i32::MAX - 6);
    }
}

#[test]
fn point_draw_writes_its_coordinate() {
    let mut canvas = Canvas::new();
    Point::new(3, 4).draw(&mut canvas);
    assert_eq!(coords(&canvas), vec![(3, 4)]);
    assert_eq!(canvas.pixels[0].color.a, 255);
}

#[test]
fn color_rgb_is_opaque() {
    let c = Color::rgb(1, 2, 3);
    assert_eq!(c.r, 1);
    assert_eq!(c.g, 2);
    assert_eq!(c.b, 3);
    assert_eq!(c.a, 255);
}
