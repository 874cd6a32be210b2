//! The line driver: it walks the central line point by point, has a span
//! filled at each point, and colours the point itself.
use vstd::prelude::*;
use crate::canvas::{paint_all, Canvas};
use crate::central::{central_moves, central_point, central_walk, lemma_central_line_ends};
use crate::geometry::{Delta, Direction, Point};
use crate::length::{count_span_steps, span_steps};
use crate::pixel::{lemma_plots_push, plots, Pixel, Plot};
use crate::span::{fill_span, span_plots};
use crate::stepper::{moves_first, next_move};

verus! {

/// What the driver writes at a point of the central line: the span at the
/// point in the secondary colour, then the point itself in the primary
/// colour.
pub open spec fn point_plots<C>(
    p0: Point,
    p1: Point,
    steps: int,
    k: nat,
    primary: C,
    secondary: C,
) -> Seq<Plot<C>> {
    let delta = Delta::of(p0, p1);
    let at = central_point(p0, p1, k);
    span_plots(at, delta, Direction::of(p0, p1), central_walk(delta, k).error, steps, secondary).push(
        Plot { x: at.0, y: at.1, color: primary },
    )
}

/// What the driver writes before it leaves a point along the x axis: one more
/// span at the same point, seeded with the error that the move along x
/// leaves. It closes the gap that the move would open between two spans.
/// Before a move that does not advance along x nothing is written.
pub open spec fn lookahead_plots<C>(
    p0: Point,
    p1: Point,
    steps: int,
    k: nat,
    secondary: C,
) -> Seq<Plot<C>> {
    let delta = Delta::of(p0, p1);
    let error = central_walk(delta, k).error;
    if moves_first(delta, error) {
        span_plots(
            central_point(p0, p1, k),
            delta,
            Direction::of(p0, p1),
            error + delta.y,
            steps,
            secondary,
        )
    } else {
        Seq::empty()
    }
}

/// Everything the driver writes for the first `k` points of the central line,
/// in order.
pub open spec fn plots_before<C>(
    p0: Point,
    p1: Point,
    steps: int,
    k: nat,
    primary: C,
    secondary: C,
) -> Seq<Plot<C>>
    decreases k,
{
    if k == 0 {
        Seq::empty()
    } else {
        plots_before(p0, p1, steps, (k - 1) as nat, primary, secondary) + point_plots(
            p0,
            p1,
            steps,
            (k - 1) as nat,
            primary,
            secondary,
        ) + lookahead_plots(p0, p1, steps, (k - 1) as nat, secondary)
    }
}

/// Everything that drawing the segment from `p0` to `p1` with the half-width
/// `width` writes, in order: for each point of the central line before the
/// last its span, the point and the lookahead span, and for the last point,
/// `p1`, its span and the point.
pub open spec fn thick_line_plots<C>(
    p0: Point,
    p1: Point,
    width: int,
    primary: C,
    secondary: C,
) -> Seq<Plot<C>> {
    let steps = span_steps(Delta::of(p0, p1), width);
    let last = central_moves(p0, p1);
    plots_before(p0, p1, steps, last, primary, secondary) + point_plots(
        p0,
        p1,
        steps,
        last,
        primary,
        secondary,
    )
}

/// Appends to `out` what the driver writes at the point `at`, the `k`-th of
/// the central line.
fn plot_point<C: Copy>(
    out: &mut Vec<Pixel<C>>,
    at: Point,
    delta: Delta,
    direction: Direction,
    error: i64,
    steps: u64,
    primary: C,
    secondary: C,
)
    requires
        delta.wf(),
        direction.wf(),
        steps <= i32::MAX,
    ensures
        plots(final(out)@) == plots(old(out)@) + span_plots(
            (at.x as int, at.y as int),
            delta,
            direction,
            error as int,
            steps as int,
            secondary,
        ).push(Plot { x: at.x as int, y: at.y as int, color: primary }),
{
    fill_span(out, at, delta, direction, error, steps, secondary);
    let center = Pixel { x: at.x as i64, y: at.y as i64, color: primary };
    proof {
        lemma_plots_push(out@, center);
        let span = span_plots(
            (at.x as int, at.y as int),
            delta,
            direction,
            error as int,
            steps as int,
            secondary,
        );
        assert((plots(old(out)@) + span).push(center@) =~= plots(old(out)@) + span.push(center@));
    }
    out.push(center);
}

/// The pixels that make up the segment from `p0` to `p1`, drawn with the
/// half-width `width`, in the order in which they are to be written: a later
/// pixel at the same place replaces an earlier one. The central line is
/// walked from `p0` to `p1`, both included. At each of its points the span is
/// written in the secondary colour and then the point in the primary colour;
/// before each move along the x axis a further span is written at the point
/// that is about to be left. Where `p0` and `p1` coincide the result is that
/// one point. A half-width that is not positive leaves the central line
/// alone.
pub fn thick_line<C: Copy>(p0: Point, p1: Point, width: i32, primary: C, secondary: C) -> (pixels:
    Vec<Pixel<C>>)
    ensures
        plots(pixels@) == thick_line_plots(p0, p1, width as int, primary, secondary),
{
    let delta = Delta::between(p0, p1);
    let direction = Direction::between(p0, p1);
    let steps: u64 = count_span_steps(delta, width);
    let mut pixels: Vec<Pixel<C>> = Vec::new();
    let mut error: i64 = delta.x + delta.y;
    let mut p = p0;
    let ghost mut k: nat = 0;
    proof {
        assert(plots(pixels@) =~= plots_before(p0, p1, steps as int, 0, primary, secondary));
        assert(direction.x * 0 == 0 && direction.y * 0 == 0) by (nonlinear_arith);
    }
    while p.x != p1.x || p.y != p1.y
        invariant
            delta == Delta::of(p0, p1),
            delta.wf(),
            direction == Direction::of(p0, p1),
            steps == span_steps(delta, width as int),
            steps <= i32::MAX,
            k <= central_moves(p0, p1),
            (p.x as int, p.y as int) == central_point(p0, p1, k),
            error == central_walk(delta, k).error,
            plots(pixels@) == plots_before(p0, p1, steps as int, k, primary, secondary),
        decreases central_moves(p0, p1) - k,
    {
        proof {
            lemma_central_line_ends(p0, p1, k);
            lemma_central_line_ends(p0, p1, k + 1);
        }
        plot_point(&mut pixels, p, delta, direction, error, steps, primary, secondary);
        let m = next_move(delta, error);
        if m.first {
            fill_span(&mut pixels, p, delta, direction, error + delta.y, steps, secondary);
        }
        proof {
            let w = central_walk(delta, k);
            let next = central_walk(delta, k + 1);
            assert(next.first == w.first + if m.first { 1int } else { 0 });
            assert(next.second == w.second + if m.second { 1int } else { 0 });
            assert(direction.x * (w.first + 1) == direction.x * w.first + direction.x)
                by (nonlinear_arith);
            assert(direction.y * (w.second + 1) == direction.y * w.second + direction.y)
                by (nonlinear_arith);
            assert(plots(pixels@) =~= plots_before(
                p0,
                p1,
                steps as int,
                k + 1,
                primary,
                secondary,
            ));
        }
        if m.first {
            p.x = (p.x as i64 + direction.x) as i32;
        }
        if m.second {
            p.y = (p.y as i64 + direction.y) as i32;
        }
        error = m.error;
        proof {
            k = k + 1;
        }
    }
    proof {
        lemma_central_line_ends(p0, p1, k);
    }
    plot_point(&mut pixels, p, delta, direction, error, steps, primary, secondary);
    pixels
}

/// Draws the segment from `p0` to `p1` on `buffer` with the half-width
/// `width`: the central line in the primary colour, the spans on both sides
/// of it in the secondary colour. The buffer gets the pixels of `thick_line`
/// in their order; those that fall outside the buffer are left out.
pub fn draw_thick_line<C: Copy>(
    buffer: &mut Canvas<C>,
    p0: Point,
    p1: Point,
    width: i32,
    primary_color: C,
    secondary_color: C,
)
    ensures
        final(buffer)@ == paint_all(
            old(buffer)@,
            thick_line_plots(p0, p1, width as int, primary_color, secondary_color),
        ),
        final(buffer).columns() == old(buffer).columns(),
        final(buffer).rows() == old(buffer).rows(),
{
    let pixels = thick_line(p0, p1, width, primary_color, secondary_color);
    buffer.draw(&pixels);
}

} // verus!
