//! The region that a thick line fills: which places of the grid are written
//! when a segment is drawn, and in which colour.
use vstd::prelude::*;
use crate::central::{central_moves, central_point, central_walk};
use crate::geometry::{Delta, Direction, Point};
use crate::length::span_steps;
use crate::line::{lookahead_plots, plots_before, point_plots, thick_line_plots};
use crate::pixel::{
    lemma_painted_concat, lemma_painted_push, lemma_plotted_is_painted, painted, plotted, Plot,
};
use crate::span::{span_plots, span_position};
use crate::stepper::moves_first;

verus! {

/// Whether the span of `steps` steps that starts at `start` reaches the place
/// `at`, on either side.
pub open spec fn in_span(
    start: (int, int),
    delta: Delta,
    direction: Direction,
    seed: int,
    steps: int,
    at: (int, int),
) -> bool {
    exists|j: nat, far_side: bool|
        1 <= j <= steps && #[trigger] span_position(start, delta, direction, seed, j, far_side)
            == at
}

/// Whether the place `at` is a point of the central line from `p0` to `p1`.
pub open spec fn on_central_line(p0: Point, p1: Point, at: (int, int)) -> bool {
    exists|k: nat| k <= central_moves(p0, p1) && #[trigger] central_point(p0, p1, k) == at
}

/// Whether a span fills the place `at` while the driver stands at the `k`-th
/// point of the central line: the span at that point, or the lookahead span
/// that is filled there before a move along the x axis.
pub open spec fn span_fills_at(p0: Point, p1: Point, steps: int, k: nat, at: (int, int)) -> bool {
    let delta = Delta::of(p0, p1);
    let direction = Direction::of(p0, p1);
    let center = central_point(p0, p1, k);
    let error = central_walk(delta, k).error;
    ||| in_span(center, delta, direction, error, steps, at)
    ||| (k < central_moves(p0, p1) && moves_first(delta, error) && in_span(
        center,
        delta,
        direction,
        error + delta.y,
        steps,
        at,
    ))
}

/// Whether one of the spans of the segment from `p0` to `p1`, each of `steps`
/// steps, fills the place `at`.
pub open spec fn in_spans(p0: Point, p1: Point, steps: int, at: (int, int)) -> bool {
    exists|k: nat| k <= central_moves(p0, p1) && #[trigger] span_fills_at(p0, p1, steps, k, at)
}

/// Whether drawing the segment from `p0` to `p1` with the half-width `width`
/// writes the place `at`: it is a point of the central line, or one of the
/// spans fills it.
pub open spec fn in_thick_line(p0: Point, p1: Point, width: int, at: (int, int)) -> bool {
    on_central_line(p0, p1, at) || in_spans(p0, p1, span_steps(Delta::of(p0, p1), width), at)
}

/// The plots of a span put the colour of the span, and no other, at the
/// places that the span reaches, and at no others.
pub proof fn lemma_painted_span<C>(
    start: (int, int),
    delta: Delta,
    direction: Direction,
    seed: int,
    steps: int,
    span_color: C,
    at: (int, int),
    color: C,
)
    ensures
        painted(span_plots(start, delta, direction, seed, steps, span_color), at, color) <==> (color
            == span_color && in_span(start, delta, direction, seed, steps, at)),
{
    let plots = span_plots(start, delta, direction, seed, steps, span_color);
    let plot = Plot { x: at.0, y: at.1, color };
    if painted(plots, at, color) {
        let i: int = choose|i: int| 0 <= i < plots.len() && #[trigger] plots[i] == plot;
        let j: nat = (i / 2 + 1) as nat;
        assert(span_position(start, delta, direction, seed, j, i % 2 == 1) == at);
    }
    if color == span_color && in_span(start, delta, direction, seed, steps, at) {
        let (j, far_side): (nat, bool) = choose|j: nat, far_side: bool|
            1 <= j <= steps && #[trigger] span_position(start, delta, direction, seed, j, far_side)
                == at;
        let i: int = 2 * (j - 1) + if far_side { 1int } else { 0 };
        assert((i / 2 + 1) as nat == j);
        assert((i % 2 == 1) == far_side);
        assert(plots[i] == plot);
    }
}

/// What the driver writes while it stands at a point of the central line
/// puts the primary colour at that point and the secondary colour at the
/// places that the spans fill there.
pub proof fn lemma_painted_at_point<C>(
    p0: Point,
    p1: Point,
    steps: int,
    k: nat,
    primary: C,
    secondary: C,
    at: (int, int),
    color: C,
)
    ensures
        k < central_moves(p0, p1) ==> (painted(
            point_plots(p0, p1, steps, k, primary, secondary) + lookahead_plots(
                p0,
                p1,
                steps,
                k,
                secondary,
            ),
            at,
            color,
        ) <==> (color == primary && central_point(p0, p1, k) == at) || (color == secondary
            && span_fills_at(p0, p1, steps, k, at))),
        k == central_moves(p0, p1) ==> (painted(
            point_plots(p0, p1, steps, k, primary, secondary),
            at,
            color,
        ) <==> (color == primary && central_point(p0, p1, k) == at) || (color == secondary
            && span_fills_at(p0, p1, steps, k, at))),
{
    let delta = Delta::of(p0, p1);
    let direction = Direction::of(p0, p1);
    let center = central_point(p0, p1, k);
    let error = central_walk(delta, k).error;
    let span = span_plots(center, delta, direction, error, steps, secondary);
    let own = Plot { x: center.0, y: center.1, color: primary };
    lemma_painted_span(center, delta, direction, error, steps, secondary, at, color);
    lemma_painted_push(span, own, at, color);
    let ahead = lookahead_plots(p0, p1, steps, k, secondary);
    lemma_painted_concat(point_plots(p0, p1, steps, k, primary, secondary), ahead, at, color);
    if moves_first(delta, error) {
        lemma_painted_span(center, delta, direction, error + delta.y, steps, secondary, at, color);
    } else {
        assert(!painted(ahead, at, color));
    }
}

/// What the driver writes for the first `k` points of the central line puts
/// the primary colour at those points and the secondary colour at the places
/// that the spans fill there.
pub proof fn lemma_painted_before<C>(
    p0: Point,
    p1: Point,
    steps: int,
    k: nat,
    primary: C,
    secondary: C,
    at: (int, int),
    color: C,
)
    requires
        k <= central_moves(p0, p1),
    ensures
        painted(plots_before(p0, p1, steps, k, primary, secondary), at, color) <==> (color
            == primary && exists|i: nat| i < k && #[trigger] central_point(p0, p1, i) == at) || (
        color == secondary && exists|i: nat| i < k && #[trigger] span_fills_at(p0, p1, steps, i, at)),
    decreases k,
{
    if k == 0 {
        assert(!painted(plots_before(p0, p1, steps, k, primary, secondary), at, color));
    } else {
        let j: nat = (k - 1) as nat;
        let earlier = plots_before(p0, p1, steps, j, primary, secondary);
        let here = point_plots(p0, p1, steps, j, primary, secondary) + lookahead_plots(
            p0,
            p1,
            steps,
            j,
            secondary,
        );
        lemma_painted_before(p0, p1, steps, j, primary, secondary, at, color);
        lemma_painted_at_point(p0, p1, steps, j, primary, secondary, at, color);
        assert(plots_before(p0, p1, steps, k, primary, secondary) =~= earlier + here);
        lemma_painted_concat(earlier, here, at, color);
        if painted(earlier, at, color) {
            if color == primary && exists|i: nat| i < j && #[trigger] central_point(p0, p1, i) == at {
                let i: nat = choose|i: nat| i < j && #[trigger] central_point(p0, p1, i) == at;
                assert(i < k && central_point(p0, p1, i) == at);
            } else {
                let i: nat = choose|i: nat| i < j && #[trigger] span_fills_at(p0, p1, steps, i, at);
                assert(i < k && span_fills_at(p0, p1, steps, i, at));
            }
        }
        if painted(here, at, color) {
            if color == primary && central_point(p0, p1, j) == at {
                assert(j < k && central_point(p0, p1, j) == at);
            } else {
                assert(j < k && span_fills_at(p0, p1, steps, j, at));
            }
        }
        if color == primary && exists|i: nat| i < k && #[trigger] central_point(p0, p1, i) == at {
            let i: nat = choose|i: nat| i < k && #[trigger] central_point(p0, p1, i) == at;
            if i < j {
                assert(painted(earlier, at, color));
            } else {
                assert(painted(here, at, color));
            }
        }
        if color == secondary && exists|i: nat|
            i < k && #[trigger] span_fills_at(p0, p1, steps, i, at) {
            let i: nat = choose|i: nat| i < k && #[trigger] span_fills_at(p0, p1, steps, i, at);
            if i < j {
                assert(painted(earlier, at, color));
            } else {
                assert(painted(here, at, color));
            }
        }
    }
}

/// The pixels of a thick line put the primary colour at the points of the
/// central line and the secondary colour at the places that the spans fill,
/// and nothing anywhere else.
pub proof fn lemma_thick_line_colors<C>(
    p0: Point,
    p1: Point,
    width: int,
    primary: C,
    secondary: C,
    at: (int, int),
    color: C,
)
    ensures
        painted(thick_line_plots(p0, p1, width, primary, secondary), at, color) <==> (color
            == primary && on_central_line(p0, p1, at)) || (color == secondary && in_spans(
            p0,
            p1,
            span_steps(Delta::of(p0, p1), width),
            at,
        )),
{
    let steps = span_steps(Delta::of(p0, p1), width);
    let last = central_moves(p0, p1);
    let earlier = plots_before(p0, p1, steps, last, primary, secondary);
    let end = point_plots(p0, p1, steps, last, primary, secondary);
    lemma_painted_before(p0, p1, steps, last, primary, secondary, at, color);
    lemma_painted_at_point(p0, p1, steps, last, primary, secondary, at, color);
    lemma_painted_concat(earlier, end, at, color);
    if painted(earlier, at, color) {
        if color == primary && exists|i: nat| i < last && #[trigger] central_point(p0, p1, i) == at {
            let i: nat = choose|i: nat| i < last && #[trigger] central_point(p0, p1, i) == at;
            assert(i <= last && central_point(p0, p1, i) == at);
        } else {
            let i: nat = choose|i: nat| i < last && #[trigger] span_fills_at(p0, p1, steps, i, at);
            assert(i <= last && span_fills_at(p0, p1, steps, i, at));
        }
    }
    if painted(end, at, color) {
        if color == primary && central_point(p0, p1, last) == at {
            assert(last <= last && central_point(p0, p1, last) == at);
        } else {
            assert(last <= last && span_fills_at(p0, p1, steps, last, at));
        }
    }
    if color == primary && on_central_line(p0, p1, at) {
        let i: nat = choose|i: nat| i <= last && #[trigger] central_point(p0, p1, i) == at;
        if i < last {
            assert(painted(earlier, at, color));
        } else {
            assert(painted(end, at, color));
        }
    }
    if color == secondary && in_spans(p0, p1, steps, at) {
        let i: nat = choose|i: nat| i <= last && #[trigger] span_fills_at(p0, p1, steps, i, at);
        if i < last {
            assert(painted(earlier, at, color));
        } else {
            assert(painted(end, at, color));
        }
    }
}

/// The pixels of a thick line are at the places of its region, and at all of
/// them.
pub proof fn lemma_thick_line_region<C>(
    p0: Point,
    p1: Point,
    width: int,
    primary: C,
    secondary: C,
    at: (int, int),
)
    ensures
        plotted(thick_line_plots(p0, p1, width, primary, secondary), at) <==> in_thick_line(
            p0,
            p1,
            width,
            at,
        ),
{
    let plots = thick_line_plots(p0, p1, width, primary, secondary);
    lemma_plotted_is_painted(plots, at);
    lemma_thick_line_colors(p0, p1, width, primary, secondary, at, primary);
    lemma_thick_line_colors(p0, p1, width, primary, secondary, at, secondary);
    if plotted(plots, at) {
        let color: C = choose|color: C| painted(plots, at, color);
        lemma_thick_line_colors(p0, p1, width, primary, secondary, at, color);
    }
}

} // verus!
