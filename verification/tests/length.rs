use thick_line::geometry::{Delta, Direction, Point, MAX_EXTENT};
use thick_line::length::{count_span_steps, isqrt, segment_len};
use thick_line::stepper::{next_move, Move};

fn delta(x: i64, y: i64) -> Delta {
    Delta { x, y }
}

#[test]
fn isqrt_of_small_numbers() {
    let expected = [0u64, 1, 1, 1, 2, 2, 2, 2, 2, 3, 3, 3, 3, 3, 3, 3, 4];
    for (n, root) in expected.iter().enumerate() {
        assert_eq!(isqrt(n as u128), *root, "isqrt({})", n);
    }
}

#[test]
fn isqrt_at_the_limits() {
    assert_eq!(isqrt(u128::MAX), u64::MAX);
    assert_eq!(isqrt((u64::MAX as u128) * (u64::MAX as u128)), u64::MAX);
    assert_eq!(isqrt((u64::MAX as u128) * (u64::MAX as u128) - 1), u64::MAX - 1);
    assert_eq!(isqrt(1u128 << 64), 1u64 << 32);
    assert_eq!(isqrt((1u128 << 64) - 1), (1u64 << 32) - 1);
}

#[test]
fn isqrt_around_every_square_in_range() {
    // The squared length of a delta with components up to 10^4 is at most 2 * 10^8.
    let mut r: u128 = 1;
    while r * r <= 200_000_000 {
        assert_eq!(isqrt(r * r - 1), (r - 1) as u64);
        assert_eq!(isqrt(r * r), r as u64);
        assert_eq!(isqrt(r * r + 1), r as u64);
        r += 1;
    }
    assert_eq!(r, 14143);
}

#[test]
fn isqrt_agrees_with_the_floating_point_root() {
    // Both roots are monotone, so agreement just below, at and just above
    // every square settles all the numbers between.
    let mut r: u128 = 1;
    while r * r <= 200_000_000 {
        for n in [r * r - 1, r * r, r * r + 1] {
            assert_eq!((n as f64).sqrt() as u64, isqrt(n), "at {}", n);
        }
        r += 1;
    }
}

#[test]
fn length_agrees_with_the_floating_point_length() {
    let mut x: i64 = 0;
    while x <= 10_000 {
        let mut y: i64 = 0;
        while y <= 10_000 {
            let exact = segment_len(delta(x, -y));
            let float = ((x * x + y * y) as f64).sqrt() as u64;
            assert_eq!(exact, float, "delta ({}, {})", x, -y);
            y += 97;
        }
        x += 89;
    }
    for x in 0..=300i64 {
        for y in 0..=300i64 {
            let exact = segment_len(delta(x, -y));
            let float = ((x * x + y * y) as f64).sqrt() as u64;
            assert_eq!(exact, float, "delta ({}, {})", x, -y);
        }
    }
    for (x, y) in [(10_000i64, 10_000i64), (10_000, 0), (0, 10_000), (9_999, 10_000), (6_000, 8_000)] {
        let exact = segment_len(delta(x, -y));
        let float = ((x * x + y * y) as f64).sqrt() as u64;
        assert_eq!(exact, float, "delta ({}, {})", x, -y);
    }
}

#[test]
fn length_of_known_segments() {
    assert_eq!(segment_len(delta(3, -4)), 5);
    assert_eq!(segment_len(delta(0, 0)), 0);
    assert_eq!(segment_len(delta(10, 0)), 10);
    assert_eq!(segment_len(delta(0, -10)), 10);
    assert_eq!(segment_len(delta(5, -5)), 7);
    assert_eq!(segment_len(delta(1, -1)), 1);
    assert_eq!(segment_len(delta(6_000, -8_000)), 10_000);
    assert_eq!(segment_len(delta(MAX_EXTENT, -MAX_EXTENT)), 6_074_000_998);
}

#[test]
fn span_steps_of_known_segments() {
    assert_eq!(count_span_steps(delta(10, 0), 1), 1);
    assert_eq!(count_span_steps(delta(10, 0), 7), 7);
    assert_eq!(count_span_steps(delta(0, -10), 7), 7);
    assert_eq!(count_span_steps(delta(3, -4), 2), 2);
    assert_eq!(count_span_steps(delta(3, -4), 3), 3);
    assert_eq!(count_span_steps(delta(3, -4), 5), 4);
    assert_eq!(count_span_steps(delta(5, -5), 2), 2);
    assert_eq!(count_span_steps(delta(5, -5), 7), 5);
    assert_eq!(count_span_steps(delta(1, -1), 5), 5);
    assert_eq!(count_span_steps(delta(20, -5), 3), 3);
}

#[test]
fn span_steps_without_width_or_length() {
    assert_eq!(count_span_steps(delta(10, -3), 0), 0);
    assert_eq!(count_span_steps(delta(10, -3), -1), 0);
    assert_eq!(count_span_steps(delta(10, -3), i32::MIN), 0);
    assert_eq!(count_span_steps(delta(0, 0), 3), 0);
    assert_eq!(count_span_steps(delta(0, 0), i32::MAX), 0);
}

#[test]
fn span_steps_at_the_limits() {
    assert_eq!(count_span_steps(delta(MAX_EXTENT, 0), i32::MAX), i32::MAX as u64);
    assert_eq!(count_span_steps(delta(0, -MAX_EXTENT), i32::MAX), i32::MAX as u64);
    let steps = count_span_steps(delta(MAX_EXTENT, -MAX_EXTENT), i32::MAX);
    assert_eq!(steps, 1_518_500_250);
}

#[test]
fn span_steps_never_shrink_as_the_width_grows() {
    for (x, y) in [(10i64, 0i64), (3, -4), (5, -5), (20, -5), (1, -9), (0, -1)] {
        let mut before = 0;
        for width in -2..40 {
            let steps = count_span_steps(delta(x, y), width);
            assert!(steps >= before);
            assert!(steps <= width.max(0) as u64);
            before = steps;
        }
    }
}

#[test]
fn delta_is_normalised() {
    let d = Delta::between(Point::new(0, 0), Point::new(10, 4));
    assert_eq!(d, delta(10, -4));
    let d = Delta::between(Point::new(0, 0), Point::new(-10, 4));
    assert_eq!(d, delta(10, -4));
    let d = Delta::between(Point::new(0, 0), Point::new(10, -4));
    assert_eq!(d, delta(10, -4));
    let d = Delta::between(Point::new(0, 0), Point::new(-10, -4));
    assert_eq!(d, delta(10, -4));
    let d = Delta::between(Point::new(5, 5), Point::new(5, 5));
    assert_eq!(d, delta(0, 0));
}

#[test]
fn delta_between_the_furthest_points() {
    let d = Delta::between(Point::new(i32::MIN, i32::MAX), Point::new(i32::MAX, i32::MIN));
    assert_eq!(d, delta(MAX_EXTENT, -MAX_EXTENT));
    let d = Delta::between(Point::new(i32::MAX, i32::MIN), Point::new(i32::MIN, i32::MAX));
    assert_eq!(d, delta(MAX_EXTENT, -MAX_EXTENT));
}

#[test]
fn direction_follows_the_raw_coordinates() {
    let at = |x, y| Direction::between(Point::new(0, 0), Point::new(x, y));
    assert_eq!(at(3, 2), Direction { x: 1, y: 1 });
    assert_eq!(at(3, -2), Direction { x: 1, y: -1 });
    assert_eq!(at(-3, 2), Direction { x: -1, y: 1 });
    assert_eq!(at(-3, -2), Direction { x: -1, y: -1 });
    assert_eq!(at(0, 2), Direction { x: -1, y: 1 });
    assert_eq!(at(3, 0), Direction { x: 1, y: -1 });
    assert_eq!(at(0, 0), Direction { x: -1, y: -1 });
}

#[test]
fn next_move_compares_twice_the_error() {
    let d = delta(10, -4);
    assert_eq!(next_move(d, 6), Move { first: true, second: false, error: 2 });
    assert_eq!(next_move(d, 2), Move { first: true, second: true, error: 8 });
    assert_eq!(next_move(d, -2), Move { first: false, second: true, error: 8 });
    assert_eq!(next_move(d, 5), Move { first: true, second: false, error: 1 });
    assert_eq!(next_move(d, -3), Move { first: false, second: true, error: 7 });
    assert_eq!(next_move(d, 4), Move { first: true, second: true, error: 10 });
}

#[test]
fn next_move_on_a_delta_of_zero_stays() {
    assert_eq!(next_move(delta(0, 0), 0), Move { first: false, second: false, error: 0 });
}

#[test]
fn next_move_takes_any_error() {
    let d = delta(MAX_EXTENT, -MAX_EXTENT);
    assert_eq!(
        next_move(d, i64::MAX),
        Move { first: true, second: false, error: i64::MAX - MAX_EXTENT }
    );
    assert_eq!(
        next_move(d, i64::MIN),
        Move { first: false, second: true, error: i64::MIN + MAX_EXTENT }
    );
}
