//! Segments that run along an axis, which fill a bar when they are drawn
//! thick, and segments that run along a diagonal.
use vstd::prelude::*;
use vstd::arithmetic::div_mod::lemma_fundamental_div_mod_converse;
use crate::canvas::paint_all;
use crate::central::{central_moves, central_point, central_walk};
use crate::geometry::{lemma_signed, magnitude, Delta, Direction, Point};
use crate::length::{is_sqrt_floor, lemma_sqrt_floor_unique, length_squared, span_steps};
use crate::region::{in_span, in_spans, in_thick_line, on_central_line, span_fills_at};
use crate::span::span_position;
use crate::stepper::{moves_first, walk, Progress};
use crate::line::thick_line_plots;
use crate::theorems::drawing_colors_its_region;

verus! {

/// Whether `v` lies between `a` and `b`, whichever of the two is larger.
pub open spec fn between(a: int, v: int, b: int) -> bool {
    a <= v <= b || b <= v <= a
}

/// How far the spans of the segment from `p0` to `p1` reach on each side when
/// the segment runs along an axis: by the half-width, or not at all where
/// the half-width is not positive or the ends coincide.
pub open spec fn bar_reach(p0: Point, p1: Point, width: int) -> int {
    if width <= 0 || (p0.x == p1.x && p0.y == p1.y) {
        0
    } else {
        width
    }
}

/// A walk along x alone, seeded with its own extent, moves along its first
/// axis every time and keeps its error.
proof fn lemma_level_walk(delta: Delta, j: nat)
    requires
        delta.wf(),
        delta.y == 0,
        delta.x > 0,
    ensures
        walk(delta, delta.x as int, j) == (Progress {
            first: j as int,
            second: 0,
            error: delta.x as int,
        }),
    decreases j,
{
    if j > 0 {
        lemma_level_walk(delta, (j - 1) as nat);
    }
}

/// A walk along y alone, seeded with its own extent, moves along its second
/// axis every time and keeps its error.
proof fn lemma_upright_walk(delta: Delta, j: nat)
    requires
        delta.wf(),
        delta.x == 0,
        delta.y < 0,
    ensures
        walk(delta, delta.y as int, j) == (Progress {
            first: 0,
            second: j as int,
            error: delta.y as int,
        }),
    decreases j,
{
    if j > 0 {
        lemma_upright_walk(delta, (j - 1) as nat);
    }
}

/// A walk along a diagonal, seeded with no error, moves along both axes
/// every time and keeps its error.
proof fn lemma_diagonal_walk(delta: Delta, j: nat)
    requires
        delta.wf(),
        delta.x == -delta.y,
        delta.x > 0,
    ensures
        walk(delta, 0, j) == (Progress { first: j as int, second: j as int, error: 0 }),
    decreases j,
{
    if j > 0 {
        lemma_diagonal_walk(delta, (j - 1) as nat);
    }
}

proof fn lemma_own_square_root(n: int)
    by (nonlinear_arith)
    requires
        0 <= n,
    ensures
        is_sqrt_floor(n * n, n),
        is_sqrt_floor(n * n + 0 * 0, n),
        is_sqrt_floor(0 * 0 + (-n) * (-n), n),
{
}

/// Along an axis a span takes as many steps as the half-width says.
pub proof fn lemma_axis_span_steps(p0: Point, p1: Point, width: int)
    requires
        p0.x == p1.x || p0.y == p1.y,
    ensures
        span_steps(Delta::of(p0, p1), width) == bar_reach(p0, p1, width),
{
    let delta = Delta::of(p0, p1);
    if width > 0 && !delta.is_zero() {
        let n: int = delta.major();
        lemma_own_square_root(n);
        assert(length_squared(delta) == n * n) by (nonlinear_arith)
            requires
                length_squared(delta) == delta.x * delta.x + delta.y * delta.y,
                (delta.x == 0 && delta.y == -n) || (delta.y == 0 && delta.x == n),
        ;
        lemma_sqrt_floor_unique(n * n, n);
        assert(n * width + n - 1 == width * n + (n - 1)) by (nonlinear_arith);
        lemma_fundamental_div_mod_converse(n * width + n - 1, n, width, n - 1);
    }
}

/// A level segment, drawn thick, fills a bar: its central line is the row
/// of its ends, from one end to the other, and its spans fill the rows above
/// and below, as many on each side as the half-width says.
pub proof fn level_line_is_a_bar(p0: Point, p1: Point, width: int, at: (int, int))
    requires
        p0.y == p1.y,
    ensures
        on_central_line(p0, p1, at) <==> between(p0.x as int, at.0, p1.x as int) && at.1 == p0.y,
        in_spans(p0, p1, span_steps(Delta::of(p0, p1), width), at) <==> between(
            p0.x as int,
            at.0,
            p1.x as int,
        ) && 1 <= magnitude(at.1 - p0.y) <= bar_reach(p0, p1, width),
        in_thick_line(p0, p1, width, at) <==> between(p0.x as int, at.0, p1.x as int) && magnitude(
            at.1 - p0.y,
        ) <= bar_reach(p0, p1, width),
{
    let delta = Delta::of(p0, p1);
    let direction = Direction::of(p0, p1);
    let last = central_moves(p0, p1);
    let steps = span_steps(delta, width);
    lemma_axis_span_steps(p0, p1, width);
    assert forall|k: nat| k <= last implies #[trigger] central_point(p0, p1, k) == (
        p0.x + direction.x * k,
        p0.y as int,
    ) && central_walk(delta, k).error == delta.x && (delta.x > 0 ==> moves_first(
        delta,
        delta.x as int,
    )) by {
        if delta.x > 0 {
            lemma_level_walk(delta, k);
        }
        lemma_signed(direction.y as int, 0);
    }
    assert forall|k: nat, j: nat, far_side: bool| k <= last && delta.x > 0 implies #[trigger] span_position(
        central_point(p0, p1, k),
        delta,
        direction,
        delta.x as int,
        j,
        far_side,
    ) == (p0.x + direction.x * k, if far_side {
        p0.y - j
    } else {
        p0.y + j
    }) by {
        lemma_level_walk(delta, j);
        lemma_signed(direction.x as int, 0);
        lemma_signed(direction.y as int, j as int);
    }
    if on_central_line(p0, p1, at) {
        let k: nat = choose|k: nat| k <= last && #[trigger] central_point(p0, p1, k) == at;
        lemma_signed(direction.x as int, k as int);
    }
    if in_spans(p0, p1, steps, at) {
        let k: nat = choose|k: nat| k <= last && #[trigger] span_fills_at(p0, p1, steps, k, at);
        let center = central_point(p0, p1, k);
        lemma_signed(direction.x as int, k as int);
        let (j, far_side): (nat, bool) = choose|j: nat, far_side: bool|
            1 <= j <= steps && #[trigger] span_position(
                center,
                delta,
                direction,
                delta.x as int,
                j,
                far_side,
            ) == at;
    }
    if between(p0.x as int, at.0, p1.x as int) && magnitude(at.1 - p0.y) <= bar_reach(p0, p1, width) {
        let k: nat = magnitude(at.0 - p0.x) as nat;
        lemma_signed(direction.x as int, k as int);
        assert(k <= last);
        assert(central_point(p0, p1, k) == (at.0, p0.y as int));
        if at.1 != p0.y {
            let j: nat = magnitude(at.1 - p0.y) as nat;
            let far_side: bool = at.1 < p0.y;
            assert(span_position(
                central_point(p0, p1, k),
                delta,
                direction,
                delta.x as int,
                j,
                far_side,
            ) == at);
            assert(in_span(central_point(p0, p1, k), delta, direction, delta.x as int, steps, at));
            assert(span_fills_at(p0, p1, steps, k, at));
        }
    }
}

/// An upright segment, drawn thick, fills a bar: its central line is the
/// column of its ends, from one end to the other, and its spans fill the
/// columns to the left and to the right, as many on each side as the
/// half-width says.
pub proof fn upright_line_is_a_bar(p0: Point, p1: Point, width: int, at: (int, int))
    requires
        p0.x == p1.x,
    ensures
        on_central_line(p0, p1, at) <==> between(p0.y as int, at.1, p1.y as int) && at.0 == p0.x,
        in_spans(p0, p1, span_steps(Delta::of(p0, p1), width), at) <==> between(
            p0.y as int,
            at.1,
            p1.y as int,
        ) && 1 <= magnitude(at.0 - p0.x) <= bar_reach(p0, p1, width),
        in_thick_line(p0, p1, width, at) <==> between(p0.y as int, at.1, p1.y as int) && magnitude(
            at.0 - p0.x,
        ) <= bar_reach(p0, p1, width),
{
    let delta = Delta::of(p0, p1);
    let direction = Direction::of(p0, p1);
    let last = central_moves(p0, p1);
    let steps = span_steps(delta, width);
    lemma_axis_span_steps(p0, p1, width);
    assert forall|k: nat| k <= last implies #[trigger] central_point(p0, p1, k) == (
        p0.x as int,
        p0.y + direction.y * k,
    ) && central_walk(delta, k).error == delta.y && !moves_first(delta, delta.y as int) by {
        if delta.y < 0 {
            lemma_upright_walk(delta, k);
        }
        lemma_signed(direction.x as int, 0);
    }
    assert forall|k: nat, j: nat, far_side: bool| k <= last && delta.y < 0 implies #[trigger] span_position(
        central_point(p0, p1, k),
        delta,
        direction,
        delta.y as int,
        j,
        far_side,
    ) == (if far_side {
        p0.x + j
    } else {
        p0.x - j
    }, p0.y + direction.y * k) by {
        lemma_upright_walk(delta, j);
        lemma_signed(direction.y as int, 0);
        lemma_signed(direction.x as int, j as int);
    }
    if on_central_line(p0, p1, at) {
        let k: nat = choose|k: nat| k <= last && #[trigger] central_point(p0, p1, k) == at;
        lemma_signed(direction.y as int, k as int);
    }
    if in_spans(p0, p1, steps, at) {
        let k: nat = choose|k: nat| k <= last && #[trigger] span_fills_at(p0, p1, steps, k, at);
        let center = central_point(p0, p1, k);
        lemma_signed(direction.y as int, k as int);
        let (j, far_side): (nat, bool) = choose|j: nat, far_side: bool|
            1 <= j <= steps && #[trigger] span_position(
                center,
                delta,
                direction,
                delta.y as int,
                j,
                far_side,
            ) == at;
    }
    if between(p0.y as int, at.1, p1.y as int) && magnitude(at.0 - p0.x) <= bar_reach(p0, p1, width) {
        let k: nat = magnitude(at.1 - p0.y) as nat;
        lemma_signed(direction.y as int, k as int);
        assert(k <= last);
        assert(central_point(p0, p1, k) == (p0.x as int, at.1));
        if at.0 != p0.x {
            let j: nat = magnitude(at.0 - p0.x) as nat;
            let far_side: bool = at.0 > p0.x;
            assert(span_position(
                central_point(p0, p1, k),
                delta,
                direction,
                delta.y as int,
                j,
                far_side,
            ) == at);
            assert(in_span(central_point(p0, p1, k), delta, direction, delta.y as int, steps, at));
            assert(span_fills_at(p0, p1, steps, k, at));
        }
    }
}

/// On a segment that runs along a diagonal, the span at each point of the
/// central line is its own mirror image in the segment: with each step it
/// reaches, on its two sides, two places that the reflection through the
/// line of the segment takes to each other. Every point of the central line
/// lies on that line.
pub proof fn diagonal_span_mirrors_in_the_line(p0: Point, p1: Point, k: nat, j: nat)
    requires
        magnitude(p1.x - p0.x) == magnitude(p1.y - p0.y),
        k <= central_moves(p0, p1),
    ensures
        ({
            let delta = Delta::of(p0, p1);
            let direction = Direction::of(p0, p1);
            let turn = direction.x * direction.y;
            let center = central_point(p0, p1, k);
            let error = central_walk(delta, k).error;
            let near = span_position(center, delta, direction, error, j, false);
            let far = span_position(center, delta, direction, error, j, true);
            &&& center == (p0.x + direction.x * k, p0.y + direction.y * k)
            &&& far.0 - center.0 == turn * (near.1 - center.1)
            &&& far.1 - center.1 == turn * (near.0 - center.0)
        }),
{
    let delta = Delta::of(p0, p1);
    let direction = Direction::of(p0, p1);
    let turn = direction.x * direction.y;
    lemma_signed(direction.x as int, direction.y as int);
    lemma_signed(direction.x as int, 0);
    lemma_signed(direction.y as int, 0);
    lemma_signed(direction.x as int, k as int);
    lemma_signed(direction.y as int, k as int);
    lemma_signed(direction.x as int, j as int);
    lemma_signed(direction.y as int, j as int);
    lemma_signed(turn, j as int);
    lemma_signed(turn, -(j as int));
    lemma_signed(turn, 0);
    if delta.x > 0 {
        lemma_diagonal_walk(delta, k);
        lemma_diagonal_walk(delta, j);
    } else {
        assert(walk(delta, 0, j) == (Progress { first: 0, second: 0, error: 0 })) by {
            lemma_still_walk(delta, j);
        }
    }
}

/// A walk with a delta of zero, seeded with no error, stays where it is.
proof fn lemma_still_walk(delta: Delta, j: nat)
    requires
        delta.is_zero(),
    ensures
        walk(delta, 0, j) == (Progress { first: 0, second: 0, error: 0 }),
    decreases j,
{
    if j > 0 {
        lemma_still_walk(delta, (j - 1) as nat);
    }
}

/// What a surface shows after a level segment has been drawn on it: the
/// row of the ends, from one end to the other, in the primary colour, the
/// rest of the bar in the secondary colour, and everything else as it was.
pub proof fn level_line_paints_a_bar<C>(
    surface: Map<(int, int), C>,
    p0: Point,
    p1: Point,
    width: int,
    primary: C,
    secondary: C,
    at: (int, int),
)
    requires
        p0.y == p1.y,
        surface.dom().contains(at),
    ensures
        paint_all(surface, thick_line_plots(p0, p1, width, primary, secondary))[at] == if between(
            p0.x as int,
            at.0,
            p1.x as int,
        ) && at.1 == p0.y {
            primary
        } else if between(p0.x as int, at.0, p1.x as int) && magnitude(at.1 - p0.y) <= bar_reach(
            p0,
            p1,
            width,
        ) {
            secondary
        } else {
            surface[at]
        },
{
    level_line_is_a_bar(p0, p1, width, at);
    drawing_colors_its_region(surface, p0, p1, width, primary, secondary, at);
}

/// What a surface shows after an upright segment has been drawn on it: the
/// column of the ends, from one end to the other, in the primary colour, the
/// rest of the bar in the secondary colour, and everything else as it was.
pub proof fn upright_line_paints_a_bar<C>(
    surface: Map<(int, int), C>,
    p0: Point,
    p1: Point,
    width: int,
    primary: C,
    secondary: C,
    at: (int, int),
)
    requires
        p0.x == p1.x,
        surface.dom().contains(at),
    ensures
        paint_all(surface, thick_line_plots(p0, p1, width, primary, secondary))[at] == if between(
            p0.y as int,
            at.1,
            p1.y as int,
        ) && at.0 == p0.x {
            primary
        } else if between(p0.y as int, at.1, p1.y as int) && magnitude(at.0 - p0.x) <= bar_reach(
            p0,
            p1,
            width,
        ) {
            secondary
        } else {
            surface[at]
        },
{
    upright_line_is_a_bar(p0, p1, width, at);
    drawing_colors_its_region(surface, p0, p1, width, primary, secondary, at);
}

} // verus!
