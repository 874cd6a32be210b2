//! What holds of every thick line, whatever its ends and its half-width.
use vstd::prelude::*;
use vstd::arithmetic::div_mod::lemma_div_is_ordered;
use vstd::arithmetic::mul::lemma_mul_inequality;
use crate::canvas::{
    lemma_paint_keeps_places, lemma_paint_leaves_rest, lemma_paint_shows_a_plot, paint_all,
};
use crate::central::{
    central_moves, central_plots, central_point, central_walk, lemma_central_error_range,
    lemma_central_line_ends, lemma_central_walk,
};
use crate::geometry::{lemma_signed, magnitude, Delta, Direction, Point};
use crate::length::{lemma_segment_length_bounds, lemma_span_steps_bounds, segment_length, span_steps};
use crate::line::{lookahead_plots, plots_before, point_plots, thick_line_plots};
use crate::pixel::{plotted, Plot};
use crate::region::{
    in_span, in_spans, in_thick_line, lemma_thick_line_colors, lemma_thick_line_region,
    on_central_line, span_fills_at,
};
use crate::span::{span_plots, span_position};
use crate::stepper::{lemma_walk_counts, lemma_walk_error_stays, moves_first, moves_second, walk};

verus! {

/// Whether two places of the grid are neighbours: different, and no more
/// than one pixel apart along each axis.
pub open spec fn adjacent(a: (int, int), b: (int, int)) -> bool {
    &&& -1 <= a.0 - b.0 <= 1
    &&& -1 <= a.1 - b.1 <= 1
    &&& a != b
}

/// The central line is a connected path without repetition: it starts at
/// `p0` and ends at `p1`, each of its points is a neighbour of the next, and
/// no two of its points are the same. Here `i` and `j` stand for the places
/// in the line of any two of its points.
pub proof fn central_line_is_connected(p0: Point, p1: Point, i: nat, j: nat)
    ensures
        central_point(p0, p1, 0) == (p0.x as int, p0.y as int),
        central_point(p0, p1, central_moves(p0, p1)) == (p1.x as int, p1.y as int),
        i < central_moves(p0, p1) ==> adjacent(
            central_point(p0, p1, i),
            central_point(p0, p1, i + 1),
        ),
        i < j <= central_moves(p0, p1) ==> central_point(p0, p1, i) != central_point(p0, p1, j),
{
    let delta = Delta::of(p0, p1);
    let direction = Direction::of(p0, p1);
    let last = central_moves(p0, p1);
    lemma_signed(direction.x as int, 0);
    lemma_signed(direction.y as int, 0);
    lemma_central_line_ends(p0, p1, last);
    if i < last {
        let here = central_walk(delta, i);
        let next = central_walk(delta, i + 1);
        let there = central_walk(delta, j);
        assert(moves_first(delta, here.error) || moves_second(delta, here.error));
        lemma_central_walk(delta, i);
        lemma_central_walk(delta, j);
        lemma_signed(direction.x as int, here.first);
        lemma_signed(direction.x as int, next.first);
        lemma_signed(direction.x as int, there.first);
        lemma_signed(direction.y as int, here.second);
        lemma_signed(direction.y as int, next.second);
        lemma_signed(direction.y as int, there.second);
    }
}

proof fn lemma_thin_before<C>(p0: Point, p1: Point, steps: int, k: nat, primary: C, secondary: C)
    requires
        steps <= 0,
        k <= central_moves(p0, p1) + 1,
    ensures
        plots_before(p0, p1, steps, k, primary, secondary) == central_plots(p0, p1, primary).take(
            k as int,
        ),
    decreases k,
{
    if k == 0 {
        assert(plots_before(p0, p1, steps, k, primary, secondary) =~= central_plots(
            p0,
            p1,
            primary,
        ).take(0));
    } else {
        let j: nat = (k - 1) as nat;
        lemma_thin_before(p0, p1, steps, j, primary, secondary);
        let at = central_point(p0, p1, j);
        assert(point_plots(p0, p1, steps, j, primary, secondary) =~= seq![
            Plot { x: at.0, y: at.1, color: primary },
        ]);
        assert(lookahead_plots(p0, p1, steps, j, secondary) =~= Seq::<Plot<C>>::empty());
        assert(plots_before(p0, p1, steps, k, primary, secondary) =~= central_plots(
            p0,
            p1,
            primary,
        ).take(k as int));
    }
}

/// Drawn with a half-width that is not positive, a thick line is its central
/// line: the points from `p0` to `p1` in the order of the walk, each once,
/// in the primary colour.
pub proof fn thin_line_is_central_line<C>(
    p0: Point,
    p1: Point,
    width: int,
    primary: C,
    secondary: C,
)
    requires
        width <= 0,
    ensures
        thick_line_plots(p0, p1, width, primary, secondary) == central_plots(p0, p1, primary),
{
    let last = central_moves(p0, p1);
    lemma_thin_before(p0, p1, 0, last, primary, secondary);
    lemma_thin_before(p0, p1, 0, last + 1, primary, secondary);
    assert(lookahead_plots(p0, p1, 0, last, secondary) =~= Seq::<Plot<C>>::empty());
    assert(thick_line_plots(p0, p1, width, primary, secondary) =~= plots_before(
        p0,
        p1,
        0,
        last + 1,
        primary,
        secondary,
    ));
    assert(central_plots(p0, p1, primary).take((last + 1) as int) =~= central_plots(p0, p1, primary));
}

/// The plots of the colour `color` among `plots`, in their order.
pub open spec fn in_color<C>(plots: Seq<Plot<C>>, color: C) -> Seq<Plot<C>> {
    plots.filter(|plot: Plot<C>| plot.color == color)
}

proof fn lemma_in_color_concat<C>(a: Seq<Plot<C>>, b: Seq<Plot<C>>, color: C)
    ensures
        in_color(a + b, color) == in_color(a, color) + in_color(b, color),
{
    Seq::filter_distributes_over_add(a, b, |plot: Plot<C>| plot.color == color);
}

proof fn lemma_in_color_push<C>(a: Seq<Plot<C>>, last: Plot<C>, color: C)
    ensures
        in_color(a.push(last), color) == if last.color == color {
            in_color(a, color).push(last)
        } else {
            in_color(a, color)
        },
{
    reveal(Seq::filter);
    assert(a.push(last).drop_last() =~= a);
}

proof fn lemma_in_color_span<C>(
    start: (int, int),
    delta: Delta,
    direction: Direction,
    seed: int,
    steps: int,
    span_color: C,
    color: C,
)
    requires
        span_color != color,
    ensures
        in_color(span_plots(start, delta, direction, seed, steps, span_color), color)
            == Seq::<Plot<C>>::empty(),
{
    let plots = span_plots(start, delta, direction, seed, steps, span_color);
    let wanted = |plot: Plot<C>| plot.color == color;
    assert(plots.all(|plot: Plot<C>| !wanted(plot)));
    plots.lemma_all_neg_filter_empty(wanted);
    assert(plots.filter(wanted) =~= Seq::<Plot<C>>::empty());
}

proof fn lemma_in_color_before<C>(p0: Point, p1: Point, steps: int, k: nat, primary: C, secondary: C)
    requires
        primary != secondary,
        k <= central_moves(p0, p1) + 1,
    ensures
        in_color(plots_before(p0, p1, steps, k, primary, secondary), primary) == central_plots(
            p0,
            p1,
            primary,
        ).take(k as int),
    decreases k,
{
    if k == 0 {
        reveal(Seq::filter);
        assert(central_plots(p0, p1, primary).take(0) =~= Seq::<Plot<C>>::empty());
    } else {
        let j: nat = (k - 1) as nat;
        let delta = Delta::of(p0, p1);
        let direction = Direction::of(p0, p1);
        let at = central_point(p0, p1, j);
        let error = central_walk(delta, j).error;
        let own = Plot { x: at.0, y: at.1, color: primary };
        let earlier = plots_before(p0, p1, steps, j, primary, secondary);
        let span = span_plots(at, delta, direction, error, steps, secondary);
        let ahead = lookahead_plots(p0, p1, steps, j, secondary);
        lemma_in_color_before(p0, p1, steps, j, primary, secondary);
        lemma_in_color_span(at, delta, direction, error, steps, secondary, primary);
        lemma_in_color_push(span, own, primary);
        if moves_first(delta, error) {
            lemma_in_color_span(at, delta, direction, error + delta.y, steps, secondary, primary);
        } else {
            reveal(Seq::filter);
        }
        lemma_in_color_concat(earlier, span.push(own), primary);
        lemma_in_color_concat(earlier + span.push(own), ahead, primary);
        assert(central_plots(p0, p1, primary).take(j as int) + Seq::<Plot<C>>::empty().push(own)
            + Seq::<Plot<C>>::empty() =~= central_plots(p0, p1, primary).take(k as int));
    }
}

/// Whatever the half-width, each point of the central line is written once
/// in the primary colour, in the order of the walk, and nothing else is
/// written in that colour: among the pixels of a thick line those of the
/// primary colour are the central line.
pub proof fn central_line_is_written_once<C>(
    p0: Point,
    p1: Point,
    width: int,
    primary: C,
    secondary: C,
)
    requires
        primary != secondary,
    ensures
        in_color(thick_line_plots(p0, p1, width, primary, secondary), primary) == central_plots(
            p0,
            p1,
            primary,
        ),
{
    let steps = span_steps(Delta::of(p0, p1), width);
    let last = central_moves(p0, p1);
    let delta = Delta::of(p0, p1);
    let direction = Direction::of(p0, p1);
    let at = central_point(p0, p1, last);
    let error = central_walk(delta, last).error;
    let own = Plot { x: at.0, y: at.1, color: primary };
    let earlier = plots_before(p0, p1, steps, last, primary, secondary);
    let span = span_plots(at, delta, direction, error, steps, secondary);
    lemma_in_color_before(p0, p1, steps, last, primary, secondary);
    lemma_in_color_span(at, delta, direction, error, steps, secondary, primary);
    lemma_in_color_push(span, own, primary);
    lemma_in_color_concat(earlier, span.push(own), primary);
    assert(central_plots(p0, p1, primary).take(last as int) + Seq::<Plot<C>>::empty().push(own)
        =~= central_plots(p0, p1, primary));
}

/// The two sides of a span mirror each other through the point at which the
/// span starts.
pub proof fn span_is_centered(
    start: (int, int),
    delta: Delta,
    direction: Direction,
    seed: int,
    j: nat,
)
    ensures
        span_position(start, delta, direction, seed, j, false).0 + span_position(
            start,
            delta,
            direction,
            seed,
            j,
            true,
        ).0 == 2 * start.0,
        span_position(start, delta, direction, seed, j, false).1 + span_position(
            start,
            delta,
            direction,
            seed,
            j,
            true,
        ).1 == 2 * start.1,
{
}

/// On each side a span is a connected path that leaves from its starting
/// point: every step takes it to a neighbour of the place it was at.
pub proof fn span_is_contiguous(
    start: (int, int),
    delta: Delta,
    direction: Direction,
    seed: int,
    j: nat,
    far_side: bool,
)
    requires
        delta.wf(),
        direction.wf(),
        !delta.is_zero(),
    ensures
        span_position(start, delta, direction, seed, 0, far_side) == start,
        adjacent(
            span_position(start, delta, direction, seed, j, far_side),
            span_position(start, delta, direction, seed, j + 1, far_side),
        ),
{
    let here = walk(delta, seed, j);
    let next = walk(delta, seed, j + 1);
    assert(moves_first(delta, here.error) || moves_second(delta, here.error));
    lemma_signed(direction.x as int, 0);
    lemma_signed(direction.y as int, 0);
    lemma_signed(direction.x as int, here.second);
    lemma_signed(direction.x as int, next.second);
    lemma_signed(direction.y as int, here.first);
    lemma_signed(direction.y as int, next.first);
}

/// A span leaves the point at which it starts alone: on a segment with a
/// length, no step of a span comes back to the starting point, so that the
/// colour of a point of the central line is not replaced by the spans that
/// are filled at that point.
pub proof fn span_spares_its_start(
    start: (int, int),
    delta: Delta,
    direction: Direction,
    seed: int,
    steps: int,
    at: (int, int),
)
    requires
        delta.wf(),
        direction.wf(),
        !delta.is_zero(),
        in_span(start, delta, direction, seed, steps, at),
    ensures
        at != start,
{
    let (j, far_side): (nat, bool) = choose|j: nat, far_side: bool|
        1 <= j <= steps && #[trigger] span_position(start, delta, direction, seed, j, far_side)
            == at;
    lemma_walk_counts(delta, seed, j);
    let w = walk(delta, seed, j);
    lemma_signed(direction.x as int, w.second);
    lemma_signed(direction.y as int, w.first);
}

proof fn lemma_offset_along(sx: int, sy: int, dx: int, dy: int, first: int, second: int)
    by (nonlinear_arith)
    requires
        sx == 1 || sx == -1,
        sy == 1 || sy == -1,
    ensures
        (sx * second) * (sx * dx) + (-(sy * first)) * (sy * (-dy)) == dx * second + dy * first,
        (-(sx * second)) * (sx * dx) + (sy * first) * (sy * (-dy)) == -(dx * second + dy * first),
{
}

/// The spans run at right angles to the segment. Take the span at the `k`-th
/// point of the central line, or the lookahead span there, and a place that
/// it reaches: the way from the point to that place, multiplied as a vector
/// with the way from `p0` to `p1`, gives no more than three times the longer
/// extent of the segment. Measured in pixels, the place is no further than
/// three from the line that crosses the segment at right angles in the point.
pub proof fn span_runs_at_right_angles(
    p0: Point,
    p1: Point,
    k: nat,
    lookahead: bool,
    j: nat,
    far_side: bool,
)
    requires
        k <= central_moves(p0, p1),
        lookahead ==> moves_first(Delta::of(p0, p1), central_walk(Delta::of(p0, p1), k).error),
    ensures
        ({
            let delta = Delta::of(p0, p1);
            let start = central_point(p0, p1, k);
            let seed = central_walk(delta, k).error + if lookahead {
                delta.y as int
            } else {
                0
            };
            let at = span_position(start, delta, Direction::of(p0, p1), seed, j, far_side);
            magnitude((at.0 - start.0) * (p1.x - p0.x) + (at.1 - start.1) * (p1.y - p0.y)) <= 3
                * delta.major()
        }),
{
    let delta = Delta::of(p0, p1);
    let direction = Direction::of(p0, p1);
    let seed = central_walk(delta, k).error + if lookahead {
        delta.y as int
    } else {
        0
    };
    let w = walk(delta, seed, j);
    lemma_central_error_range(delta, k);
    lemma_walk_error_stays(delta, seed, j);
    lemma_walk_counts(delta, seed, j);
    lemma_signed(direction.x as int, delta.x as int);
    lemma_signed(direction.y as int, -delta.y);
    assert(p1.x - p0.x == direction.x * delta.x);
    assert(p1.y - p0.y == direction.y * (-delta.y));
    lemma_offset_along(
        direction.x as int,
        direction.y as int,
        delta.x as int,
        delta.y as int,
        w.first,
        w.second,
    );
    assert(delta.x * w.second + delta.y * w.first == w.error - seed);
}

/// The step count bounds a span to its half-width: no place that a span
/// fills is further than the half-width from the starting point of the span,
/// along either axis.
pub proof fn span_stays_within_half_width(
    start: (int, int),
    delta: Delta,
    direction: Direction,
    seed: int,
    width: int,
    at: (int, int),
)
    requires
        delta.wf(),
        direction.wf(),
        in_span(start, delta, direction, seed, span_steps(delta, width), at),
    ensures
        magnitude(at.0 - start.0) <= width,
        magnitude(at.1 - start.1) <= width,
{
    let steps = span_steps(delta, width);
    let (j, far_side): (nat, bool) = choose|j: nat, far_side: bool|
        1 <= j <= steps && #[trigger] span_position(start, delta, direction, seed, j, far_side)
            == at;
    lemma_span_steps_bounds(delta, width);
    lemma_walk_counts(delta, seed, j);
    let w = walk(delta, seed, j);
    lemma_signed(direction.x as int, w.second);
    lemma_signed(direction.y as int, w.first);
}

proof fn lemma_steps_monotone(major: int, width: int, len: int)
    requires
        0 <= major,
        1 <= len,
        1 <= width,
    ensures
        (major * width + len - 1) / len <= (major * (width + 1) + len - 1) / len,
{
    lemma_mul_inequality(width, width + 1, major);
    assert(major * width == width * major) by (nonlinear_arith);
    assert(major * (width + 1) == (width + 1) * major) by (nonlinear_arith);
    lemma_div_is_ordered(major * width + len - 1, major * (width + 1) + len - 1, len);
}

/// A larger half-width never gives a span fewer steps.
pub proof fn span_steps_grow_with_width(delta: Delta, width: int)
    requires
        delta.wf(),
    ensures
        span_steps(delta, width) <= span_steps(delta, width + 1),
{
    lemma_span_steps_bounds(delta, width + 1);
    if width >= 1 && !delta.is_zero() {
        lemma_segment_length_bounds(delta);
        lemma_steps_monotone(delta.major(), width, segment_length(delta));
    }
}

/// A thick line grows with its half-width: every place that is written when
/// a segment is drawn with one half-width is also written when it is drawn
/// with the next larger one.
pub proof fn region_grows_with_width<C>(
    p0: Point,
    p1: Point,
    width: int,
    primary: C,
    secondary: C,
    at: (int, int),
)
    requires
        plotted(thick_line_plots(p0, p1, width, primary, secondary), at),
    ensures
        plotted(thick_line_plots(p0, p1, width + 1, primary, secondary), at),
{
    let delta = Delta::of(p0, p1);
    let direction = Direction::of(p0, p1);
    let narrow = span_steps(delta, width);
    let wide = span_steps(delta, width + 1);
    lemma_thick_line_region(p0, p1, width, primary, secondary, at);
    lemma_thick_line_region(p0, p1, width + 1, primary, secondary, at);
    span_steps_grow_with_width(delta, width);
    if in_spans(p0, p1, narrow, at) {
        let k: nat = choose|k: nat|
            k <= central_moves(p0, p1) && #[trigger] span_fills_at(p0, p1, narrow, k, at);
        let center = central_point(p0, p1, k);
        let error = central_walk(delta, k).error;
        if in_span(center, delta, direction, error, narrow, at) {
            let (j, far_side): (nat, bool) = choose|j: nat, far_side: bool|
                1 <= j <= narrow && #[trigger] span_position(
                    center,
                    delta,
                    direction,
                    error,
                    j,
                    far_side,
                ) == at;
            assert(1 <= j <= wide && span_position(center, delta, direction, error, j, far_side)
                == at);
        } else {
            let (j, far_side): (nat, bool) = choose|j: nat, far_side: bool|
                1 <= j <= narrow && #[trigger] span_position(
                    center,
                    delta,
                    direction,
                    error + delta.y,
                    j,
                    far_side,
                ) == at;
            assert(1 <= j <= wide && span_position(
                center,
                delta,
                direction,
                error + delta.y,
                j,
                far_side,
            ) == at);
        }
        assert(span_fills_at(p0, p1, wide, k, at));
    }
}

/// What a surface shows after a thick line has been drawn on it. It has the
/// places it had. A place outside the region of the line keeps its colour.
/// A point of the central line that no span fills has the primary colour, a
/// place that the spans fill and that is no point of the central line has
/// the secondary colour, and a place that is both has one of the two.
pub proof fn drawing_colors_its_region<C>(
    surface: Map<(int, int), C>,
    p0: Point,
    p1: Point,
    width: int,
    primary: C,
    secondary: C,
    at: (int, int),
)
    ensures
        paint_all(surface, thick_line_plots(p0, p1, width, primary, secondary)).dom()
            == surface.dom(),
        !in_thick_line(p0, p1, width, at) ==> paint_all(
            surface,
            thick_line_plots(p0, p1, width, primary, secondary),
        )[at] == surface[at],
        surface.dom().contains(at) && on_central_line(p0, p1, at) && !in_spans(
            p0,
            p1,
            span_steps(Delta::of(p0, p1), width),
            at,
        ) ==> paint_all(surface, thick_line_plots(p0, p1, width, primary, secondary))[at]
            == primary,
        surface.dom().contains(at) && !on_central_line(p0, p1, at) && in_spans(
            p0,
            p1,
            span_steps(Delta::of(p0, p1), width),
            at,
        ) ==> paint_all(surface, thick_line_plots(p0, p1, width, primary, secondary))[at]
            == secondary,
        surface.dom().contains(at) && in_thick_line(p0, p1, width, at) ==> {
            let shown = paint_all(surface, thick_line_plots(p0, p1, width, primary, secondary))[at];
            shown == primary || shown == secondary
        },
{
    let plots = thick_line_plots(p0, p1, width, primary, secondary);
    let steps = span_steps(Delta::of(p0, p1), width);
    lemma_paint_keeps_places(surface, plots);
    lemma_thick_line_region(p0, p1, width, primary, secondary, at);
    if !in_thick_line(p0, p1, width, at) {
        lemma_paint_leaves_rest(surface, plots, at);
    } else if surface.dom().contains(at) {
        lemma_paint_shows_a_plot(surface, plots, at);
        let shown = paint_all(surface, plots)[at];
        lemma_thick_line_colors(p0, p1, width, primary, secondary, at, shown);
    }
}

} // verus!
