use std::collections::{BTreeMap, BTreeSet};

use thick_line::geometry::{Delta, Direction, Point};
use thick_line::line::thick_line;
use thick_line::pixel::Pixel;
use thick_line::span::perpendicular_span;

const PRIMARY: char = 'P';
const SECONDARY: char = 'S';

fn draw(p0: (i32, i32), p1: (i32, i32), width: i32) -> Vec<Pixel<char>> {
    thick_line(Point::new(p0.0, p0.1), Point::new(p1.0, p1.1), width, PRIMARY, SECONDARY)
}

fn places(pixels: &[Pixel<char>]) -> BTreeSet<(i64, i64)> {
    pixels.iter().map(|p| (p.x, p.y)).collect()
}

fn shown(pixels: &[Pixel<char>]) -> BTreeMap<(i64, i64), char> {
    let mut surface = BTreeMap::new();
    for p in pixels {
        surface.insert((p.x, p.y), p.color);
    }
    surface
}

fn picture(pixels: &[Pixel<char>]) -> ((i64, i64), Vec<String>) {
    let surface = shown(pixels);
    let left = surface.keys().map(|at| at.0).min().unwrap();
    let right = surface.keys().map(|at| at.0).max().unwrap();
    let top = surface.keys().map(|at| at.1).min().unwrap();
    let bottom = surface.keys().map(|at| at.1).max().unwrap();
    let rows = (top..=bottom)
        .map(|y| (left..=right).map(|x| *surface.get(&(x, y)).unwrap_or(&'.')).collect())
        .collect();
    ((left, top), rows)
}

fn central_line(pixels: &[Pixel<char>]) -> Vec<(i64, i64)> {
    pixels.iter().filter(|p| p.color == PRIMARY).map(|p| (p.x, p.y)).collect()
}

fn reachable(region: &BTreeSet<(i64, i64)>, from: (i64, i64)) -> BTreeSet<(i64, i64)> {
    let mut seen = BTreeSet::new();
    let mut open = vec![from];
    seen.insert(from);
    while let Some(at) = open.pop() {
        for dx in -1..=1 {
            for dy in -1..=1 {
                let next = (at.0 + dx, at.1 + dy);
                if region.contains(&next) && seen.insert(next) {
                    open.push(next);
                }
            }
        }
    }
    seen
}

#[test]
fn level_line_fills_a_bar() {
    let pixels = draw((0, 0), (10, 0), 1);
    let surface = shown(&pixels);
    assert_eq!(surface.len(), 33);
    for x in 0..=10 {
        assert_eq!(surface.get(&(x, -1)), Some(&SECONDARY));
        assert_eq!(surface.get(&(x, 0)), Some(&PRIMARY));
        assert_eq!(surface.get(&(x, 1)), Some(&SECONDARY));
    }
    let (origin, rows) = picture(&pixels);
    assert_eq!(origin, (0, -1));
    assert_eq!(rows, vec!["SSSSSSSSSSS", "PPPPPPPPPPP", "SSSSSSSSSSS"]);
}

#[test]
fn level_line_center_row_is_never_secondary() {
    let pixels = draw((0, 0), (10, 0), 1);
    for p in &pixels {
        if p.y == 0 {
            assert_eq!(p.color, PRIMARY);
        } else {
            assert_eq!(p.color, SECONDARY);
        }
    }
}

#[test]
fn upright_line_fills_a_bar() {
    let pixels = draw((4, 7), (4, 2), 2);
    let surface = shown(&pixels);
    assert_eq!(surface.len(), 30);
    for y in 2..=7 {
        for x in 2..=6 {
            let expected = if x == 4 { PRIMARY } else { SECONDARY };
            assert_eq!(surface.get(&(x, y)), Some(&expected));
        }
    }
}

#[test]
fn coinciding_ends_draw_one_point() {
    let pixels = draw((0, 0), (0, 0), 3);
    assert_eq!(pixels, vec![Pixel { x: 0, y: 0, color: PRIMARY }]);
}

#[test]
fn coinciding_ends_away_from_the_origin() {
    let pixels = draw((-7, 12), (-7, 12), 100);
    assert_eq!(pixels, vec![Pixel { x: -7, y: 12, color: PRIMARY }]);
}

#[test]
fn diagonal_spans_mirror_through_the_diagonal() {
    let p0 = Point::new(0, 0);
    let p1 = Point::new(5, 5);
    let delta = Delta::between(p0, p1);
    let direction = Direction::between(p0, p1);
    let mut region = BTreeSet::new();
    for i in 0..=5 {
        let span = perpendicular_span(Point::new(i, i), delta, direction, 0, 2, SECONDARY);
        let own = places(&span);
        assert_eq!(own.len(), 4);
        let mirrored: BTreeSet<(i64, i64)> = own.iter().map(|at| (at.1, at.0)).collect();
        assert_eq!(own, mirrored);
        region.extend(own);
        region.insert((i as i64, i as i64));
    }
    let mirrored: BTreeSet<(i64, i64)> = region.iter().map(|at| (at.1, at.0)).collect();
    assert_eq!(region, mirrored);
}

#[test]
fn diagonal_line_picture() {
    let pixels = draw((0, 0), (5, 5), 2);
    assert_eq!(
        central_line(&pixels),
        vec![(0, 0), (1, 1), (2, 2), (3, 3), (4, 4), (5, 5)]
    );
    let (origin, rows) = picture(&pixels);
    assert_eq!(origin, (-2, -2));
    assert_eq!(
        rows,
        vec![
            "....S.....",
            "...SSS....",
            ".SPSSSS...",
            "SSSPSSSS..",
            "SSSSPSSSS.",
            ".SSSSPSSSS",
            "..SSSSPSS.",
            "...SSS.P..",
            "....S.S...",
            ".....S....",
        ]
    );
}

#[test]
fn shallow_line_picture() {
    let pixels = draw((0, 0), (20, 5), 3);
    let (origin, rows) = picture(&pixels);
    assert_eq!(origin, (-1, -3));
    assert_eq!(
        rows,
        vec![
            "..SSS..................",
            ".SSSSSSSS..............",
            ".SSSSSSSSSSSS..........",
            ".PPPSSSSSSSSSSSSS......",
            ".SS.PPPPSSSSSSSSSSSSS..",
            "SSS.SSS.PPPPSSSSSSSSSSS",
            "SSS.SSS.SSS.PPPPSSSSSS.",
            "...SSSS.SSS.SSS.PPPPSS.",
            ".......SSSS.SSS.SSS.PP.",
            "...........SSSS.SSS.SS.",
            "...............SSSS.SS.",
            "...................SS..",
        ]
    );
}

#[test]
fn steep_line_toward_the_upper_left_picture() {
    let pixels = draw((3, 9), (-4, -2), 2);
    let (origin, rows) = picture(&pixels);
    assert_eq!(origin, (-6, -3));
    assert_eq!(
        rows,
        vec![
            "...SSS......",
            "..P.SS......",
            "SSSPSS......",
            ".SSPSSSS....",
            ".SSSPSSS....",
            "..SSSPSS....",
            "...SSPSSS...",
            "...SSSPSS...",
            "....SSPSSSS.",
            "....SSSPSSS.",
            ".....SSSPSS.",
            "......SSPSSS",
            "......SSSPSS",
            ".......SS...",
        ]
    );
}

#[test]
fn writes_come_in_the_order_of_the_walk() {
    let pixels = draw((0, 0), (2, 1), 1);
    let got: Vec<(i64, i64, char)> = pixels.iter().map(|p| (p.x, p.y, p.color)).collect();
    assert_eq!(
        got,
        vec![
            (0, -1, 'S'),
            (0, 1, 'S'),
            (0, 0, 'P'),
            (1, -1, 'S'),
            (-1, 1, 'S'),
            (2, -1, 'S'),
            (0, 1, 'S'),
            (1, 0, 'P'),
            (2, 0, 'S'),
            (0, 0, 'S'),
            (2, 0, 'S'),
            (2, 2, 'S'),
            (2, 1, 'P'),
        ]
    );
}

#[test]
fn shallow_line_has_no_gap_between_spans() {
    let pixels = draw((0, 0), (20, 5), 3);
    let region = places(&pixels);
    assert_eq!(reachable(&region, (0, 0)), region);
    for (x, y) in central_line(&pixels) {
        let above: Vec<i64> = region
            .iter()
            .filter(|at| at.0 == x && at.1 < y)
            .map(|at| y - at.1)
            .collect();
        let mut distances = above.clone();
        distances.sort();
        let expected: Vec<i64> = (1..=distances.len() as i64).collect();
        assert_eq!(distances, expected, "column {}", x);
        assert!(!distances.is_empty(), "column {}", x);
    }
}

#[test]
fn lookahead_fills_the_corner_of_a_diagonal_move() {
    let thick = places(&draw((0, 0), (3, 3), 1));
    let thin = places(&draw((0, 0), (3, 3), 0));
    for i in 0..3 {
        assert!(thick.contains(&(i + 1, i)));
        assert!(!thin.contains(&(i + 1, i)));
    }
}

#[test]
fn filled_region_is_connected_in_every_octant() {
    for p1 in [(9, 2), (2, 9), (-9, 2), (-2, 9), (9, -2), (2, -9), (-9, -2), (-2, -9), (6, 6), (-6, 6)] {
        for width in 0..4 {
            let pixels = draw((1, -1), (1 + p1.0, -1 + p1.1), width);
            let region = places(&pixels);
            assert_eq!(reachable(&region, (1, -1)), region, "to {:?} width {}", p1, width);
        }
    }
}

#[test]
fn central_line_is_a_connected_path() {
    for p1 in [(7, 3), (3, 7), (-7, 3), (-3, 7), (7, -3), (3, -7), (-7, -3), (-3, -7), (5, 5), (0, 6), (6, 0), (-4, 0), (0, -4)] {
        let line = central_line(&draw((2, 1), (2 + p1.0, 1 + p1.1), 0));
        assert_eq!(line.first(), Some(&(2, 1)));
        assert_eq!(line.last(), Some(&(2 + p1.0 as i64, 1 + p1.1 as i64)));
        for pair in line.windows(2) {
            let dx = (pair[1].0 - pair[0].0).abs();
            let dy = (pair[1].1 - pair[0].1).abs();
            assert_eq!(dx.max(dy), 1, "gap between {:?} and {:?}", pair[0], pair[1]);
        }
        let distinct: BTreeSet<(i64, i64)> = line.iter().copied().collect();
        assert_eq!(distinct.len(), line.len());
        assert_eq!(line.len() as i32, p1.0.abs().max(p1.1.abs()) + 1);
    }
}

#[test]
fn central_line_is_the_same_at_every_width() {
    for width in [-3, 0, 1, 4] {
        let line = central_line(&draw((0, 0), (7, 3), width));
        assert_eq!(
            line,
            vec![(0, 0), (1, 0), (2, 1), (3, 1), (4, 2), (5, 2), (6, 3), (7, 3)]
        );
    }
}

#[test]
fn central_line_rounds_a_half_toward_the_start() {
    let forth = central_line(&draw((0, 0), (2, 1), 0));
    assert_eq!(forth, vec![(0, 0), (1, 0), (2, 1)]);
    let back = central_line(&draw((2, 1), (0, 0), 0));
    assert_eq!(back, vec![(2, 1), (1, 1), (0, 0)]);
    let upright = central_line(&draw((0, 0), (1, 4), 0));
    assert_eq!(upright, vec![(0, 0), (0, 1), (0, 2), (1, 3), (1, 4)]);
}

#[test]
fn thin_line_without_ties_is_the_same_from_either_end() {
    for p1 in [(3, 1), (1, 3), (7, 3), (-7, 3), (5, -2), (-5, -5), (9, 0), (0, -9), (13, 5)] {
        let forth = places(&draw((0, 0), p1, 0));
        let back = places(&draw(p1, (0, 0), 0));
        assert_eq!(forth, back, "to {:?}", p1);
    }
}

#[test]
fn axis_aligned_line_is_the_same_from_either_end() {
    for p1 in [(9, 0), (-9, 0), (0, 9), (0, -9), (0, 0)] {
        for width in 0..5 {
            let forth = places(&draw((3, 4), (3 + p1.0, 4 + p1.1), width));
            let back = places(&draw((3 + p1.0, 4 + p1.1), (3, 4), width));
            assert_eq!(forth, back, "to {:?} width {}", p1, width);
        }
    }
}

#[test]
fn oblique_thick_line_depends_on_the_end_it_is_drawn_from() {
    for x in -6..=6 {
        for y in -6..=6 {
            if x == 0 || y == 0 {
                continue;
            }
            for width in 1..4 {
                let forth = places(&draw((0, 0), (x, y), width));
                let back = places(&draw((x, y), (0, 0), width));
                assert_ne!(forth, back, "to {:?} width {}", (x, y), width);
            }
        }
    }
}

#[test]
fn thin_line_with_a_tie_depends_on_the_end_it_is_drawn_from() {
    for p1 in [(2, 1), (1, 2), (4, 1), (-6, 3), (12, 5), (5, -10)] {
        let forth = places(&draw((0, 0), p1, 0));
        let back = places(&draw(p1, (0, 0), 0));
        assert_ne!(forth, back, "to {:?}", p1);
    }
}

#[test]
fn region_grows_with_the_width() {
    for p1 in [(10, 0), (0, 10), (8, 3), (3, 8), (-8, 3), (8, -3), (-3, -8), (6, 6), (0, 0), (2, 1)] {
        let mut narrower = places(&draw((0, 0), p1, -1));
        for width in 0..7 {
            let wider = places(&draw((0, 0), p1, width));
            assert!(narrower.is_subset(&wider), "to {:?} width {}", p1, width);
            narrower = wider;
        }
    }
}

#[test]
fn width_that_is_not_positive_draws_the_central_line_alone() {
    for width in [0, -1, i32::MIN] {
        let pixels = draw((0, 0), (4, 2), width);
        assert_eq!(pixels.len(), 5);
        assert!(pixels.iter().all(|p| p.color == PRIMARY));
    }
}

#[test]
fn spans_stay_within_the_half_width() {
    for p1 in [(10, 0), (8, 3), (3, 8), (-8, 3), (6, 6), (1, 1)] {
        for width in 1..6 {
            let pixels = draw((0, 0), p1, width);
            let line = central_line(&pixels);
            for p in pixels.iter().filter(|p| p.color == SECONDARY) {
                let near = line
                    .iter()
                    .any(|c| (p.x - c.0).abs().max((p.y - c.1).abs()) <= width as i64);
                assert!(near, "{:?} is too far out", (p.x, p.y));
            }
        }
    }
}

#[test]
fn number_of_writes() {
    assert_eq!(draw((0, 0), (10, 0), 1).len(), 10 * 5 + 3);
    assert_eq!(draw((0, 0), (0, 10), 1).len(), 10 * 3 + 3);
    assert_eq!(draw((0, 0), (5, 5), 2).len(), 5 * 9 + 5);
}

#[test]
fn ends_at_the_limits_of_the_coordinates() {
    let pixels = thick_line(
        Point::new(i32::MAX - 2, i32::MIN),
        Point::new(i32::MAX, i32::MIN),
        2,
        PRIMARY,
        SECONDARY,
    );
    let region = places(&pixels);
    assert_eq!(region.len(), 15);
    let top = i32::MIN as i64;
    assert!(region.contains(&(i32::MAX as i64, top - 2)));
    assert!(region.contains(&(i32::MAX as i64 - 2, top + 2)));
    assert_eq!(central_line(&pixels).len(), 3);
}
