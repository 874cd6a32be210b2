use thick_line::canvas::Canvas;
use thick_line::geometry::Point;
use thick_line::line::{draw_thick_line, thick_line};
use thick_line::pixel::Pixel;

fn rows(canvas: &Canvas<char>) -> Vec<String> {
    (0..canvas.height() as i64)
        .map(|y| (0..canvas.width() as i64).map(|x| canvas.pixel(x, y).unwrap()).collect())
        .collect()
}

#[test]
fn new_canvas_is_blank() {
    let canvas = Canvas::new(4, 3, '.').unwrap();
    assert_eq!(canvas.width(), 4);
    assert_eq!(canvas.height(), 3);
    assert_eq!(rows(&canvas), vec!["....", "....", "...."]);
}

#[test]
fn canvas_without_places() {
    let canvas = Canvas::new(0, 5, '.').unwrap();
    assert_eq!(canvas.width(), 0);
    assert_eq!(canvas.height(), 5);
    assert_eq!(canvas.pixel(0, 0), None);
}

#[test]
fn canvas_too_large_for_the_machine() {
    assert!(Canvas::new(usize::MAX, 2, 0u8).is_none());
    assert!(Canvas::new(2, usize::MAX, 0u8).is_none());
}

#[test]
fn set_pixel_writes_one_place() {
    let mut canvas = Canvas::new(4, 3, '.').unwrap();
    canvas.set_pixel(1, 2, 'a');
    canvas.set_pixel(3, 0, 'b');
    canvas.set_pixel(1, 2, 'c');
    assert_eq!(rows(&canvas), vec!["...b", "....", ".c.."]);
    assert_eq!(canvas.pixel(1, 2), Some('c'));
    assert_eq!(canvas.pixel(2, 1), Some('.'));
}

#[test]
fn set_pixel_outside_the_grid_is_ignored() {
    let mut canvas = Canvas::new(4, 3, '.').unwrap();
    for (x, y) in [(-1, 0), (0, -1), (4, 0), (0, 3), (4, 3), (i64::MIN, 1), (1, i64::MAX)] {
        canvas.set_pixel(x, y, 'x');
    }
    assert_eq!(rows(&canvas), vec!["....", "....", "...."]);
}

#[test]
fn pixel_outside_the_grid_is_nothing() {
    let canvas = Canvas::new(4, 3, '.').unwrap();
    for (x, y) in [(-1, 0), (0, -1), (4, 0), (0, 3), (i64::MAX, i64::MAX)] {
        assert_eq!(canvas.pixel(x, y), None);
    }
}

#[test]
fn draw_writes_in_order() {
    let mut canvas = Canvas::new(3, 1, '.').unwrap();
    canvas.draw(&vec![
        Pixel { x: 0, y: 0, color: 'a' },
        Pixel { x: 1, y: 0, color: 'b' },
        Pixel { x: 7, y: 0, color: 'c' },
        Pixel { x: 0, y: 0, color: 'd' },
    ]);
    assert_eq!(rows(&canvas), vec!["db."]);
}

#[test]
fn level_line_on_a_canvas() {
    let mut canvas = Canvas::new(14, 5, '.').unwrap();
    draw_thick_line(&mut canvas, Point::new(2, 2), Point::new(12, 2), 1, 'P', 'S');
    assert_eq!(
        rows(&canvas),
        vec![
            "..............",
            "..SSSSSSSSSSS.",
            "..PPPPPPPPPPP.",
            "..SSSSSSSSSSS.",
            "..............",
        ]
    );
}

#[test]
fn line_that_leaves_the_canvas_is_cut_off() {
    let mut canvas = Canvas::new(6, 2, '.').unwrap();
    draw_thick_line(&mut canvas, Point::new(0, 0), Point::new(10, 0), 1, 'P', 'S');
    assert_eq!(rows(&canvas), vec!["PPPPPP", "SSSSSS"]);
}

#[test]
fn line_outside_the_canvas_leaves_it_alone() {
    let mut canvas = Canvas::new(3, 3, '.').unwrap();
    draw_thick_line(&mut canvas, Point::new(-9, -9), Point::new(-4, -7), 2, 'P', 'S');
    assert_eq!(rows(&canvas), vec!["...", "...", "..."]);
}

#[test]
fn coinciding_ends_on_a_canvas() {
    let mut canvas = Canvas::new(3, 3, '.').unwrap();
    draw_thick_line(&mut canvas, Point::new(0, 0), Point::new(0, 0), 3, 'P', 'S');
    assert_eq!(rows(&canvas), vec!["P..", "...", "..."]);
}

#[test]
fn diagonal_line_on_a_canvas() {
    let mut canvas = Canvas::new(10, 10, '.').unwrap();
    draw_thick_line(&mut canvas, Point::new(2, 2), Point::new(7, 7), 2, 'P', 'S');
    assert_eq!(
        rows(&canvas),
        vec![
            "....S.....",
            "...SSS....",
            ".SPSSSS...",
            "SSSPSSSS..",
            "SSSSPSSSS.",
            ".SSSSPSSSS",
            "..SSSSPSS.",
            "...SSS.P..",
            "....S.S...",
            ".....S....",
        ]
    );
}

#[test]
fn drawing_on_a_canvas_is_writing_the_pixels_of_the_line() {
    let p0 = Point::new(1, 8);
    let p1 = Point::new(11, 3);
    let mut drawn = Canvas::new(12, 12, '.').unwrap();
    draw_thick_line(&mut drawn, p0, p1, 2, 'P', 'S');
    let mut written = Canvas::new(12, 12, '.').unwrap();
    for pixel in thick_line(p0, p1, 2, 'P', 'S') {
        written.set_pixel(pixel.x, pixel.y, pixel.color);
    }
    assert_eq!(rows(&drawn), rows(&written));
    assert!(rows(&drawn).iter().any(|row| row.contains('P')));
}

#[test]
fn drawing_keeps_what_lies_outside_the_region() {
    let mut canvas = Canvas::new(8, 8, '.').unwrap();
    canvas.set_pixel(7, 0, 'k');
    canvas.set_pixel(0, 7, 'k');
    draw_thick_line(&mut canvas, Point::new(0, 0), Point::new(7, 7), 1, 'P', 'S');
    assert_eq!(canvas.pixel(7, 0), Some('k'));
    assert_eq!(canvas.pixel(0, 7), Some('k'));
    assert_eq!(canvas.pixel(3, 3), Some('P'));
    assert_eq!(canvas.pixel(4, 3), Some('S'));
}
