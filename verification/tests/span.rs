use thick_line::geometry::{Delta, Direction, Point};
use thick_line::pixel::Pixel;
use thick_line::span::perpendicular_span;

fn places(span: &[Pixel<u8>]) -> Vec<(i64, i64)> {
    span.iter().map(|p| (p.x, p.y)).collect()
}

#[test]
fn span_of_a_level_line_runs_along_y() {
    let span = perpendicular_span(
        Point::new(4, 0),
        Delta { x: 10, y: 0 },
        Direction { x: 1, y: -1 },
        10,
        3,
        7u8,
    );
    assert_eq!(places(&span), vec![(4, 1), (4, -1), (4, 2), (4, -2), (4, 3), (4, -3)]);
    assert!(span.iter().all(|p| p.color == 7));
}

#[test]
fn span_of_an_upright_line_runs_along_x() {
    let span = perpendicular_span(
        Point::new(0, 0),
        Delta { x: 0, y: -6 },
        Direction { x: -1, y: 1 },
        -6,
        2,
        1u8,
    );
    assert_eq!(places(&span), vec![(-1, 0), (1, 0), (-2, 0), (2, 0)]);
}

#[test]
fn span_follows_the_seeded_walk() {
    let delta = Delta { x: 3, y: -4 };
    let span = perpendicular_span(Point::new(10, 10), delta, Direction { x: 1, y: -1 }, -1, 2, 0u8);
    assert_eq!(places(&span), vec![(11, 11), (9, 9), (12, 11), (8, 9)]);
    let span = perpendicular_span(Point::new(0, 0), delta, Direction { x: 1, y: 1 }, 7, 3, 0u8);
    assert_eq!(places(&span), vec![(0, -1), (0, 1), (0, -2), (0, 2), (1, -3), (-1, 3)]);
    let span = perpendicular_span(Point::new(0, 0), delta, Direction { x: -1, y: 1 }, -9, 3, 0u8);
    assert_eq!(places(&span), vec![(-1, 0), (1, 0), (-2, 0), (2, 0), (-3, 0), (3, 0)]);
}

#[test]
fn span_is_empty_without_width() {
    let delta = Delta { x: 3, y: -4 };
    let direction = Direction { x: 1, y: 1 };
    assert!(perpendicular_span(Point::new(1, 2), delta, direction, 0, 0, 0u8).is_empty());
    assert!(perpendicular_span(Point::new(1, 2), delta, direction, 0, -5, 0u8).is_empty());
}

#[test]
fn span_is_empty_on_a_delta_of_zero() {
    let span = perpendicular_span(
        Point::new(1, 2),
        Delta { x: 0, y: 0 },
        Direction { x: -1, y: -1 },
        0,
        9,
        0u8,
    );
    assert!(span.is_empty());
}

#[test]
fn span_mirrors_through_its_start_and_leaves_it_out() {
    let delta = Delta { x: 7, y: -3 };
    for seed in [-20i64, -3, 0, 4, 11, 50] {
        let span = perpendicular_span(Point::new(5, -5), delta, Direction { x: -1, y: 1 }, seed, 6, 0u8);
        assert_eq!(span.len(), 12);
        for pair in span.chunks(2) {
            assert_eq!(pair[0].x + pair[1].x, 10);
            assert_eq!(pair[0].y + pair[1].y, -10);
            assert_ne!((pair[0].x, pair[0].y), (5, -5));
        }
    }
}

#[test]
fn span_is_contiguous_on_each_side() {
    let delta = Delta { x: 4, y: -9 };
    for seed in [-30i64, -5, 0, 2, 40] {
        let span = perpendicular_span(Point::new(0, 0), delta, Direction { x: 1, y: 1 }, seed, 8, 0u8);
        for side in 0..2 {
            let mut at = (0i64, 0i64);
            for pixel in span.iter().skip(side).step_by(2) {
                let step = (pixel.x - at.0).abs().max((pixel.y - at.1).abs());
                assert_eq!(step, 1);
                at = (pixel.x, pixel.y);
            }
        }
    }
}

#[test]
fn span_reaches_beyond_the_coordinates_of_points() {
    let span = perpendicular_span(
        Point::new(i32::MAX, i32::MIN),
        Delta { x: 10, y: 0 },
        Direction { x: 1, y: -1 },
        10,
        2,
        0u8,
    );
    let top = i32::MIN as i64;
    let right = i32::MAX as i64;
    assert_eq!(
        places(&span),
        vec![(right, top + 1), (right, top - 1), (right, top + 2), (right, top - 2)]
    );
}
