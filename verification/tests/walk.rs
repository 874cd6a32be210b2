use std::collections::BTreeSet;

use thick_line::geometry::{Delta, Direction, Point};
use thick_line::line::thick_line;
use thick_line::pixel::Pixel;
use thick_line::span::perpendicular_span;
use thick_line::stepper::{next_move, Move};

struct Stand {
    at: Point,
    error: i64,
    leaving: Option<Move>,
}

fn stands(p0: Point, p1: Point) -> Vec<Stand> {
    let delta = Delta::between(p0, p1);
    let direction = Direction::between(p0, p1);
    let mut found = Vec::new();
    let mut at = p0;
    let mut error = delta.x + delta.y;
    while at != p1 {
        let leaving = next_move(delta, error);
        found.push(Stand { at, error, leaving: Some(leaving) });
        if leaving.first {
            at = Point::new(at.x + direction.x as i32, at.y);
        }
        if leaving.second {
            at = Point::new(at.x, at.y + direction.y as i32);
        }
        error = leaving.error;
    }
    found.push(Stand { at, error, leaving: None });
    found
}

fn near_side(span: &[Pixel<char>]) -> Vec<(i64, i64)> {
    span.iter().step_by(2).map(|p| (p.x, p.y)).collect()
}

const ENDS: [(i32, i32); 14] = [
    (9, 2),
    (2, 9),
    (-9, 2),
    (-2, 9),
    (9, -2),
    (2, -9),
    (-9, -2),
    (-2, -9),
    (6, 6),
    (-6, 6),
    (7, 5),
    (5, 7),
    (12, 0),
    (0, -12),
];

#[test]
fn thick_line_is_made_of_spans_points_and_lookahead_spans() {
    for end in ENDS {
        for width in 0..4 {
            let p0 = Point::new(3, -2);
            let p1 = Point::new(3 + end.0, -2 + end.1);
            let delta = Delta::between(p0, p1);
            let direction = Direction::between(p0, p1);
            let mut expected = Vec::new();
            for stand in stands(p0, p1) {
                expected.extend(perpendicular_span(stand.at, delta, direction, stand.error, width, 'S'));
                expected.push(Pixel { x: stand.at.x as i64, y: stand.at.y as i64, color: 'P' });
                if let Some(leaving) = stand.leaving {
                    if leaving.first {
                        expected.extend(perpendicular_span(
                            stand.at,
                            delta,
                            direction,
                            stand.error + delta.y,
                            width,
                            'S',
                        ));
                    }
                }
            }
            assert_eq!(thick_line(p0, p1, width, 'P', 'S'), expected, "to {:?} width {}", end, width);
        }
    }
}

#[test]
fn spans_run_at_right_angles_to_the_segment() {
    for end in ENDS {
        let p0 = Point::new(0, 0);
        let p1 = Point::new(end.0, end.1);
        let delta = Delta::between(p0, p1);
        let direction = Direction::between(p0, p1);
        let major = delta.x.max(-delta.y);
        for stand in stands(p0, p1) {
            let mut seeds = vec![stand.error];
            if let Some(leaving) = stand.leaving {
                if leaving.first {
                    seeds.push(stand.error + delta.y);
                }
            }
            for seed in seeds {
                for pixel in perpendicular_span(stand.at, delta, direction, seed, 9, 'S') {
                    let along = (pixel.x - stand.at.x as i64) * end.0 as i64
                        + (pixel.y - stand.at.y as i64) * end.1 as i64;
                    assert!(along.abs() <= 3 * major, "to {:?} at {:?}", end, (pixel.x, pixel.y));
                }
            }
        }
    }
}

#[test]
fn lookahead_span_lies_beside_the_next_span_before_a_move_along_x() {
    for end in [(9, 2), (-9, 2), (9, -2), (-9, -2), (12, 0), (7, 5)] {
        let p0 = Point::new(0, 0);
        let p1 = Point::new(end.0, end.1);
        let delta = Delta::between(p0, p1);
        let direction = Direction::between(p0, p1);
        let all = stands(p0, p1);
        let mut seen = 0;
        for pair in all.windows(2) {
            let leaving = pair[0].leaving.unwrap();
            if leaving.first && !leaving.second {
                let ahead = perpendicular_span(pair[0].at, delta, direction, pair[0].error + delta.y, 5, 'S');
                let next = perpendicular_span(pair[1].at, delta, direction, pair[1].error, 5, 'S');
                assert_eq!(ahead.len(), next.len());
                for (a, n) in ahead.iter().zip(next.iter()) {
                    assert_eq!((a.x + direction.x, a.y), (n.x, n.y));
                }
                seen += 1;
            }
        }
        assert!(seen > 0);
    }
}

#[test]
fn lookahead_span_fills_the_gap_before_a_move_along_both_axes() {
    for end in [(2, 9), (-2, 9), (2, -9), (-2, -9), (6, 6), (-6, 6), (5, 7), (1, 1)] {
        let p0 = Point::new(0, 0);
        let p1 = Point::new(end.0, end.1);
        let delta = Delta::between(p0, p1);
        let direction = Direction::between(p0, p1);
        let region: BTreeSet<(i64, i64)> =
            thick_line(p0, p1, 4, 'P', 'S').iter().map(|p| (p.x, p.y)).collect();
        let all = stands(p0, p1);
        let mut seen = 0;
        for pair in all.windows(2) {
            let leaving = pair[0].leaving.unwrap();
            if leaving.first && leaving.second {
                let own = near_side(&perpendicular_span(pair[0].at, delta, direction, pair[0].error, 4, 'S'));
                let ahead = near_side(&perpendicular_span(
                    pair[0].at,
                    delta,
                    direction,
                    pair[0].error + delta.y,
                    4,
                    'S',
                ));
                let next = near_side(&perpendicular_span(pair[1].at, delta, direction, pair[1].error, 4, 'S'));
                let mut before = (pair[1].at.x as i64, pair[1].at.y as i64);
                for j in 0..own.len() {
                    assert_eq!(ahead[j], (own[j].0, own[j].1 + direction.y));
                    assert_eq!(before, (ahead[j].0, ahead[j].1 + direction.y));
                    assert!(region.contains(&ahead[j]));
                    before = next[j];
                }
                seen += 1;
            }
        }
        assert!(seen > 0);
    }
}

#[test]
fn central_line_stays_within_half_a_pixel_of_the_ideal_line() {
    for end in ENDS {
        let p0 = Point::new(0, 0);
        let p1 = Point::new(end.0, end.1);
        let major = end.0.abs().max(end.1.abs()) as i64;
        for stand in stands(p0, p1) {
            let off = stand.at.y as i64 * end.0 as i64 - stand.at.x as i64 * end.1 as i64;
            assert!(2 * off.abs() <= major, "to {:?} at {:?}", end, (stand.at.x, stand.at.y));
        }
    }
}

#[test]
fn central_line_in_closed_form() {
    // The share of each extent that k steps of the longer one make up,
    // rounded to the nearest integer, a half rounded down.
    let nearest = |n: i64, m: i64| (2 * n + m - 1).div_euclid(2 * m);
    for end in ENDS {
        let p0 = Point::new(0, 0);
        let p1 = Point::new(end.0, end.1);
        let delta = Delta::between(p0, p1);
        let direction = Direction::between(p0, p1);
        let major = delta.x.max(-delta.y);
        for (k, stand) in stands(p0, p1).iter().enumerate() {
            let k = k as i64;
            assert_eq!(stand.at.x as i64, direction.x * nearest(delta.x * k, major));
            assert_eq!(stand.at.y as i64, direction.y * nearest(-delta.y * k, major));
        }
    }
}

fn spans_at(stand: &Stand, delta: Delta, direction: Direction, width: i32) -> Vec<Vec<(i64, i64)>> {
    let mut spans = vec![near_side(&perpendicular_span(stand.at, delta, direction, stand.error, width, 'S'))];
    if let Some(leaving) = stand.leaving {
        if leaving.first {
            spans.push(near_side(&perpendicular_span(
                stand.at,
                delta,
                direction,
                stand.error + delta.y,
                width,
                'S',
            )));
        }
    }
    spans
}

#[test]
fn near_side_of_a_shallow_line_has_no_gap_in_any_column() {
    for end in [(9, 2), (-9, 2), (9, -2), (-9, -2), (12, 0), (7, 5), (-7, -6), (20, 5), (3, 2)] {
        for width in 1..6 {
            let p0 = Point::new(0, 0);
            let p1 = Point::new(end.0, end.1);
            let delta = Delta::between(p0, p1);
            let direction = Direction::between(p0, p1);
            let region: BTreeSet<(i64, i64)> =
                thick_line(p0, p1, width, 'P', 'S').iter().map(|p| (p.x, p.y)).collect();
            let columns = (end.0.min(0) as i64)..=(end.0.max(0) as i64);
            for stand in stands(p0, p1) {
                for span in spans_at(&stand, delta, direction, width) {
                    for at in span {
                        if stand.leaving.is_some() || columns.contains(&at.0) {
                            assert!(
                                region.contains(&(at.0, at.1 + direction.y)),
                                "to {:?} width {}: gap under {:?}",
                                end,
                                width,
                                at
                            );
                        }
                    }
                }
            }
        }
    }
}

#[test]
fn near_side_of_a_steep_line_has_no_gap_in_any_row() {
    for end in [(2, 9), (-2, 9), (2, -9), (-2, -9), (0, 12), (5, 7), (-6, -7), (5, 20), (6, 6), (-4, 4)] {
        for width in 1..6 {
            let p0 = Point::new(0, 0);
            let p1 = Point::new(end.0, end.1);
            let delta = Delta::between(p0, p1);
            let direction = Direction::between(p0, p1);
            let region: BTreeSet<(i64, i64)> =
                thick_line(p0, p1, width, 'P', 'S').iter().map(|p| (p.x, p.y)).collect();
            let rows = (end.1.min(0) as i64)..=(end.1.max(0) as i64);
            for stand in stands(p0, p1) {
                for (which, span) in spans_at(&stand, delta, direction, width).iter().enumerate() {
                    for at in span {
                        if which == 1 || rows.contains(&at.1) {
                            assert!(
                                region.contains(&(at.0 - direction.x, at.1)),
                                "to {:?} width {}: gap beside {:?}",
                                end,
                                width,
                                at
                            );
                        }
                    }
                }
            }
        }
    }
}

#[test]
fn far_side_of_a_shallow_line_keeps_gaps() {
    let region: BTreeSet<(i64, i64)> = thick_line(Point::new(0, 0), Point::new(20, 5), 3, 'P', 'S')
        .iter()
        .map(|p| (p.x, p.y))
        .collect();
    assert!(region.contains(&(1, 1)));
    assert!(!region.contains(&(2, 1)));
    assert!(region.contains(&(3, 1)));
}

fn shown(p0: Point, p1: Point, width: i32) -> std::collections::BTreeMap<(i64, i64), char> {
    let mut surface = std::collections::BTreeMap::new();
    for pixel in thick_line(p0, p1, width, 'P', 'S') {
        surface.insert((pixel.x, pixel.y), pixel.color);
    }
    surface
}

#[test]
fn crossed_point_shows_the_secondary_colour() {
    let surface = shown(Point::new(0, 0), Point::new(2, 1), 1);
    assert_eq!(surface.get(&(0, 0)), Some(&'S'));
    assert_eq!(surface.get(&(1, 0)), Some(&'P'));
    assert_eq!(surface.get(&(2, 1)), Some(&'P'));
    let thin = shown(Point::new(0, 0), Point::new(2, 1), 0);
    assert_eq!(thin.get(&(0, 0)), Some(&'P'));
}

#[test]
fn central_points_show_the_primary_colour_unless_they_are_crossed() {
    for x in -9..=9 {
        for y in -9..=9 {
            for width in 0..4 {
                let p0 = Point::new(0, 0);
                let p1 = Point::new(x, y);
                let delta = Delta::between(p0, p1);
                let all = stands(p0, p1);
                let surface = shown(p0, p1, width);
                for k in 0..all.len() {
                    let crossed = width > 0
                        && k + 2 < all.len()
                        && !all[k].leaving.unwrap().second
                        && all[k + 1].leaving.unwrap().first
                        && all[k + 1].leaving.unwrap().second
                        && !next_move(delta, all[k + 1].error + delta.y).first;
                    let expected = if crossed { 'S' } else { 'P' };
                    let at = (all[k].at.x as i64, all[k].at.y as i64);
                    assert_eq!(surface.get(&at), Some(&expected), "to {:?} width {} at {:?}", (x, y), width, at);
                    if x.abs() <= y.abs() || y == 0 {
                        assert!(!crossed);
                    }
                }
            }
        }
    }
}
