//! Where a span crosses the central line: the one case in which a point of
//! the central line is filled by a span as well.
use vstd::prelude::*;
use crate::canvas::{
    lemma_paint_in_turn, lemma_paint_keeps_places, lemma_paint_leaves_rest, lemma_paint_sets_color,
    paint_all,
};
use crate::central::{
    central_moves, central_point, central_walk, lemma_central_step, lemma_central_walk,
    lemma_shallow_central_error, lemma_steep_central_error,
};
use crate::geometry::{lemma_signed, Delta, Direction, Point};
use crate::length::{lemma_span_steps_bounds, span_steps};
use crate::line::{lookahead_plots, plots_before, point_plots, thick_line_plots};
use crate::pixel::{lemma_painted_concat, lemma_plotted_is_painted, painted, plotted, Plot};
use crate::region::{
    in_span, in_spans, in_thick_line, lemma_painted_at_point, lemma_painted_span, on_central_line,
    span_fills_at,
};
use crate::span::span_position;
use crate::stepper::{
    error_after, lemma_shallow_walk, lemma_steep_walk, lemma_walk_counts, lemma_walk_unfolds,
    moves_first, moves_second, walk,
};
use crate::theorems::{central_line_is_connected, drawing_colors_its_region};

verus! {

/// Whether the `k`-th point of the central line is crossed by a span: the
/// central line leaves the point along x alone and leaves the next point
/// along both axes, and the lookahead span at that next point starts along
/// its second axis alone. The first step of that span then leads, on its far
/// side, back to the `k`-th point.
pub open spec fn crossed(p0: Point, p1: Point, k: nat) -> bool {
    let delta = Delta::of(p0, p1);
    let error = central_walk(delta, k).error;
    let next = central_walk(delta, k + 1).error;
    &&& k + 1 < central_moves(p0, p1)
    &&& !moves_second(delta, error)
    &&& moves_first(delta, next)
    &&& moves_second(delta, next)
    &&& !moves_first(delta, next + delta.y)
}

/// The central walk never goes back: later it has made no fewer moves along
/// either axis.
pub proof fn lemma_central_walk_grows(delta: Delta, i: nat, k: nat)
    requires
        i <= k,
    ensures
        central_walk(delta, i).first <= central_walk(delta, k).first,
        central_walk(delta, i).second <= central_walk(delta, k).second,
    decreases k - i,
{
    if i < k {
        lemma_central_walk_grows(delta, i, (k - 1) as nat);
    }
}

/// Where the central line stands after `k` moves, without a product.
proof fn lemma_central_position(p0: Point, p1: Point, k: nat)
    ensures
        central_point(p0, p1, k) == (
            p0.x + if Direction::of(p0, p1).x == 1 {
                central_walk(Delta::of(p0, p1), k).first
            } else {
                -central_walk(Delta::of(p0, p1), k).first
            },
            p0.y + if Direction::of(p0, p1).y == 1 {
                central_walk(Delta::of(p0, p1), k).second
            } else {
                -central_walk(Delta::of(p0, p1), k).second
            },
        ),
{
    let w = central_walk(Delta::of(p0, p1), k);
    lemma_signed(Direction::of(p0, p1).x as int, w.first);
    lemma_signed(Direction::of(p0, p1).y as int, w.second);
}

/// Where a span stands after `j` steps, without a product.
proof fn lemma_span_offsets(
    start: (int, int),
    delta: Delta,
    direction: Direction,
    seed: int,
    j: nat,
    far_side: bool,
)
    requires
        direction.wf(),
    ensures
        ({
            let w = walk(delta, seed, j);
            let across = if direction.x == 1 {
                w.second
            } else {
                -w.second
            };
            let along = if direction.y == 1 {
                w.first
            } else {
                -w.first
            };
            span_position(start, delta, direction, seed, j, far_side) == if far_side {
                (start.0 - across, start.1 + along)
            } else {
                (start.0 + across, start.1 - along)
            }
        }),
{
    let w = walk(delta, seed, j);
    lemma_signed(direction.x as int, w.second);
    lemma_signed(direction.y as int, w.first);
}

/// A span that reaches a point of the central line is a lookahead span on
/// its far side with its first step, and the point is crossed.
proof fn lemma_span_reaches_central_point(
    p0: Point,
    p1: Point,
    from: nat,
    lookahead: bool,
    j: nat,
    far_side: bool,
    k: nat,
)
    requires
        from <= central_moves(p0, p1),
        k <= central_moves(p0, p1),
        lookahead ==> from < central_moves(p0, p1) && moves_first(
            Delta::of(p0, p1),
            central_walk(Delta::of(p0, p1), from).error,
        ),
        1 <= j,
        !Delta::of(p0, p1).is_zero(),
        span_position(
            central_point(p0, p1, from),
            Delta::of(p0, p1),
            Direction::of(p0, p1),
            central_walk(Delta::of(p0, p1), from).error + if lookahead {
                Delta::of(p0, p1).y as int
            } else {
                0
            },
            j,
            far_side,
        ) == central_point(p0, p1, k),
    ensures
        crossed(p0, p1, k),
        lookahead,
        far_side,
        j == 1,
        from == k + 1,
{
    let delta = Delta::of(p0, p1);
    let direction = Direction::of(p0, p1);
    let error = central_walk(delta, from).error;
    let seed = error + if lookahead {
        delta.y as int
    } else {
        0
    };
    let start = central_point(p0, p1, from);
    let w = walk(delta, seed, j);
    let before: nat = (j - 1) as nat;
    lemma_central_position(p0, p1, from);
    lemma_central_position(p0, p1, k);
    lemma_span_offsets(start, delta, direction, seed, j, far_side);
    lemma_central_walk(delta, from);
    lemma_central_walk(delta, k);
    lemma_walk_counts(delta, seed, j);
    if from <= k {
        lemma_central_walk_grows(delta, from, k);
    } else {
        lemma_central_walk_grows(delta, k, from);
    }
    if delta.x > -delta.y {
        lemma_shallow_central_error(delta, from);
        if !lookahead {
            lemma_shallow_walk(delta, seed, j);
            assert(false);
        } else {
            lemma_walk_unfolds(delta, seed, before);
            lemma_central_step(p0, p1, from);
            let next = central_walk(delta, from + 1).error;
            lemma_shallow_central_error(delta, from + 1);
            if !moves_second(delta, error) {
                lemma_shallow_walk(delta, seed, j);
                assert(false);
            } else if moves_first(delta, seed) {
                lemma_walk_counts(delta, error_after(delta, seed), before);
                assert(false);
            } else {
                assert(error_after(delta, seed) == next);
                lemma_shallow_walk(delta, next, before);
                assert(j == 1);
                assert(w.first == 0 && w.second == 1);
                if !far_side {
                    lemma_central_walk(delta, from + 1);
                    lemma_central_position(p0, p1, from + 1);
                    assert(false);
                } else {
                    assert(from == k + 1);
                    lemma_central_step(p0, p1, k);
                }
            }
        }
    } else {
        lemma_steep_central_error(delta, from);
        if !lookahead {
            lemma_steep_walk(delta, seed, j);
            assert(false);
        } else {
            lemma_walk_unfolds(delta, seed, before);
            lemma_central_step(p0, p1, from);
            let next = central_walk(delta, from + 1).error;
            lemma_steep_central_error(delta, from + 1);
            assert(error_after(delta, seed) == next);
            lemma_steep_walk(delta, next, before);
            assert(false);
        }
    }
}

/// The spans spare the central line but where they cross it: a point of the
/// central line is filled by a span if, and only if, the spans have a step
/// to take and the point is crossed. On a segment that is no longer along x
/// than along y, and on a segment along an axis, no point is crossed.
pub proof fn spans_spare_the_central_line(p0: Point, p1: Point, width: int, k: nat)
    requires
        k <= central_moves(p0, p1),
    ensures
        in_spans(p0, p1, span_steps(Delta::of(p0, p1), width), central_point(p0, p1, k)) <==> (
        span_steps(Delta::of(p0, p1), width) >= 1 && crossed(p0, p1, k)),
        Delta::of(p0, p1).x <= -Delta::of(p0, p1).y || Delta::of(p0, p1).y == 0 ==> !crossed(
            p0,
            p1,
            k,
        ),
{
    let delta = Delta::of(p0, p1);
    let direction = Direction::of(p0, p1);
    let steps = span_steps(delta, width);
    let last = central_moves(p0, p1);
    let at = central_point(p0, p1, k);
    lemma_span_steps_bounds(delta, width);
    if in_spans(p0, p1, steps, at) {
        let from: nat = choose|from: nat| from <= last && #[trigger] span_fills_at(p0, p1, steps, from, at);
        let start = central_point(p0, p1, from);
        let error = central_walk(delta, from).error;
        if in_span(start, delta, direction, error, steps, at) {
            let (j, far_side): (nat, bool) = choose|j: nat, far_side: bool|
                1 <= j <= steps && #[trigger] span_position(start, delta, direction, error, j, far_side)
                    == at;
            lemma_span_reaches_central_point(p0, p1, from, false, j, far_side, k);
        } else {
            let (j, far_side): (nat, bool) = choose|j: nat, far_side: bool|
                1 <= j <= steps && #[trigger] span_position(
                    start,
                    delta,
                    direction,
                    error + delta.y,
                    j,
                    far_side,
                ) == at;
            lemma_span_reaches_central_point(p0, p1, from, true, j, far_side, k);
        }
    }
    if steps >= 1 && crossed(p0, p1, k) {
        let beside = central_point(p0, p1, k + 1);
        let next = central_walk(delta, k + 1).error;
        lemma_central_step(p0, p1, k);
        lemma_span_offsets(beside, delta, direction, next + delta.y, 1, true);
        lemma_walk_unfolds(delta, next + delta.y, 0);
        assert(walk(delta, error_after(delta, next + delta.y), 0).first == 0);
        assert(walk(delta, error_after(delta, next + delta.y), 0).second == 0);
        lemma_shallow_or_not(delta, central_walk(delta, k).error);
        assert(span_position(beside, delta, direction, next + delta.y, 1, true) == at);
        assert(in_span(beside, delta, direction, next + delta.y, steps, at));
        assert(span_fills_at(p0, p1, steps, k + 1, at));
    }
    if delta.x <= -delta.y && !delta.is_zero() {
        lemma_steep_central_error(delta, k);
    }
    if delta.y == 0 && delta.x > 0 {
        lemma_shallow_central_error(delta, k + 1);
    }
}

/// A walk that does not move along its second axis moves along its first,
/// unless the delta is zero.
proof fn lemma_shallow_or_not(delta: Delta, error: int)
    requires
        delta.wf(),
        !moves_second(delta, error),
        !delta.is_zero(),
    ensures
        moves_first(delta, error),
{
}

/// The central line keeps its colour but where a span crosses it: after a
/// thick line has been drawn, every point of the central line that the
/// surface has and that is not crossed shows the primary colour.
pub proof fn central_line_shows_primary<C>(
    surface: Map<(int, int), C>,
    p0: Point,
    p1: Point,
    width: int,
    primary: C,
    secondary: C,
    k: nat,
)
    requires
        k <= central_moves(p0, p1),
        surface.dom().contains(central_point(p0, p1, k)),
        !crossed(p0, p1, k),
    ensures
        paint_all(surface, thick_line_plots(p0, p1, width, primary, secondary))[central_point(
            p0,
            p1,
            k,
        )] == primary,
{
    let at = central_point(p0, p1, k);
    spans_spare_the_central_line(p0, p1, width, k);
    assert(on_central_line(p0, p1, at));
    drawing_colors_its_region(surface, p0, p1, width, primary, secondary, at);
}

/// Everything the driver writes for the points of the central line from the
/// one at `from` up to, but not including, the one at `to`, in order.
pub open spec fn plots_between<C>(
    p0: Point,
    p1: Point,
    steps: int,
    from: nat,
    to: nat,
    primary: C,
    secondary: C,
) -> Seq<Plot<C>>
    decreases to,
{
    if to <= from {
        Seq::empty()
    } else {
        plots_between(p0, p1, steps, from, (to - 1) as nat, primary, secondary) + point_plots(
            p0,
            p1,
            steps,
            (to - 1) as nat,
            primary,
            secondary,
        ) + lookahead_plots(p0, p1, steps, (to - 1) as nat, secondary)
    }
}

/// What is written for the first points of the central line is what is
/// written for some of them followed by what is written for those between.
proof fn lemma_plots_split<C>(
    p0: Point,
    p1: Point,
    steps: int,
    from: nat,
    to: nat,
    primary: C,
    secondary: C,
)
    requires
        from <= to,
    ensures
        plots_before(p0, p1, steps, to, primary, secondary) == plots_before(
            p0,
            p1,
            steps,
            from,
            primary,
            secondary,
        ) + plots_between(p0, p1, steps, from, to, primary, secondary),
    decreases to,
{
    let head = plots_before(p0, p1, steps, from, primary, secondary);
    if to == from {
        assert(head + plots_between(p0, p1, steps, from, to, primary, secondary) =~= head);
    } else {
        let j: nat = (to - 1) as nat;
        lemma_plots_split(p0, p1, steps, from, j, primary, secondary);
        let middle = plots_between(p0, p1, steps, from, j, primary, secondary);
        let here = point_plots(p0, p1, steps, j, primary, secondary);
        let ahead = lookahead_plots(p0, p1, steps, j, secondary);
        assert((head + middle) + here + ahead =~= head + (middle + here + ahead));
    }
}

/// What the driver writes for the points between two of the central line
/// puts the primary colour at those points and the secondary colour at the
/// places that the spans fill there.
proof fn lemma_painted_between<C>(
    p0: Point,
    p1: Point,
    steps: int,
    from: nat,
    to: nat,
    primary: C,
    secondary: C,
    at: (int, int),
    color: C,
)
    requires
        to <= central_moves(p0, p1),
        painted(plots_between(p0, p1, steps, from, to, primary, secondary), at, color),
    ensures
        exists|i: nat|
            from <= i < to && (#[trigger] central_point(p0, p1, i) == at || span_fills_at(
                p0,
                p1,
                steps,
                i,
                at,
            )),
    decreases to,
{
    if to <= from {
        assert(false);
    } else {
        let j: nat = (to - 1) as nat;
        let earlier = plots_between(p0, p1, steps, from, j, primary, secondary);
        let here = point_plots(p0, p1, steps, j, primary, secondary) + lookahead_plots(
            p0,
            p1,
            steps,
            j,
            secondary,
        );
        assert(plots_between(p0, p1, steps, from, to, primary, secondary) =~= earlier + here);
        lemma_painted_concat(earlier, here, at, color);
        if painted(earlier, at, color) {
            lemma_painted_between(p0, p1, steps, from, j, primary, secondary, at, color);
            let i: nat = choose|i: nat|
                from <= i < j && (#[trigger] central_point(p0, p1, i) == at || span_fills_at(
                    p0,
                    p1,
                    steps,
                    i,
                    at,
                ));
            assert(from <= i < to && (central_point(p0, p1, i) == at || span_fills_at(
                p0,
                p1,
                steps,
                i,
                at,
            )));
        } else {
            lemma_painted_at_point(p0, p1, steps, j, primary, secondary, at, color);
            assert(from <= j < to && (central_point(p0, p1, j) == at || span_fills_at(
                p0,
                p1,
                steps,
                j,
                at,
            )));
        }
    }
}

/// No span at a point after the next one reaches back to a point of the
/// central line.
proof fn lemma_later_spans_miss(p0: Point, p1: Point, steps: int, k: nat, i: nat)
    requires
        k + 2 <= i <= central_moves(p0, p1),
    ensures
        !span_fills_at(p0, p1, steps, i, central_point(p0, p1, k)),
{
    let delta = Delta::of(p0, p1);
    let direction = Direction::of(p0, p1);
    let at = central_point(p0, p1, k);
    let start = central_point(p0, p1, i);
    let error = central_walk(delta, i).error;
    if !span_fills_at(p0, p1, steps, i, at) {
    } else if in_span(start, delta, direction, error, steps, at) {
        let (j, far_side): (nat, bool) = choose|j: nat, far_side: bool|
            1 <= j <= steps && #[trigger] span_position(start, delta, direction, error, j, far_side)
                == at;
        lemma_span_reaches_central_point(p0, p1, i, false, j, far_side, k);
    } else {
        let (j, far_side): (nat, bool) = choose|j: nat, far_side: bool|
            1 <= j <= steps && #[trigger] span_position(
                start,
                delta,
                direction,
                error + delta.y,
                j,
                far_side,
            ) == at;
        lemma_span_reaches_central_point(p0, p1, i, true, j, far_side, k);
    }
}

/// A point of the central line that is crossed shows the secondary colour
/// after a thick line has been drawn with spans that have a step to take:
/// the span that crosses the point is written after the point.
pub proof fn crossed_point_shows_secondary<C>(
    surface: Map<(int, int), C>,
    p0: Point,
    p1: Point,
    width: int,
    primary: C,
    secondary: C,
    k: nat,
)
    requires
        crossed(p0, p1, k),
        span_steps(Delta::of(p0, p1), width) >= 1,
        surface.dom().contains(central_point(p0, p1, k)),
    ensures
        paint_all(surface, thick_line_plots(p0, p1, width, primary, secondary))[central_point(
            p0,
            p1,
            k,
        )] == secondary,
{
    let delta = Delta::of(p0, p1);
    let direction = Direction::of(p0, p1);
    let steps = span_steps(delta, width);
    let last = central_moves(p0, p1);
    let at = central_point(p0, p1, k);
    let beside = central_point(p0, p1, k + 1);
    let next = central_walk(delta, k + 1).error;
    let head = plots_before(p0, p1, steps, k + 1, primary, secondary) + point_plots(
        p0,
        p1,
        steps,
        k + 1,
        primary,
        secondary,
    );
    let crossing = lookahead_plots(p0, p1, steps, k + 1, secondary);
    let middle = plots_between(p0, p1, steps, k + 2, last, primary, secondary);
    let end = point_plots(p0, p1, steps, last, primary, secondary);
    let tail = middle + end;
    lemma_plots_split(p0, p1, steps, k + 2, last, primary, secondary);
    assert(plots_before(p0, p1, steps, k + 2, primary, secondary) =~= head + crossing);
    assert(thick_line_plots(p0, p1, width, primary, secondary) =~= (head + crossing) + tail);
    lemma_paint_in_turn(surface, head + crossing, tail);
    lemma_paint_in_turn(surface, head, crossing);
    lemma_paint_keeps_places(surface, head);
    let under = paint_all(surface, head);
    assert(!plotted(tail, at)) by {
        if plotted(tail, at) {
            lemma_plotted_is_painted(tail, at);
            let color: C = choose|color: C| painted(tail, at, color);
            lemma_painted_concat(middle, end, at, color);
            if painted(middle, at, color) {
                lemma_painted_between(p0, p1, steps, k + 2, last, primary, secondary, at, color);
                let i: nat = choose|i: nat|
                    k + 2 <= i < last && (#[trigger] central_point(p0, p1, i) == at
                        || span_fills_at(p0, p1, steps, i, at));
                central_line_is_connected(p0, p1, k, i);
                lemma_later_spans_miss(p0, p1, steps, k, i);
            } else {
                lemma_painted_at_point(p0, p1, steps, last, primary, secondary, at, color);
                central_line_is_connected(p0, p1, k, last);
                lemma_later_spans_miss(p0, p1, steps, k, last);
            }
        }
    }
    lemma_paint_leaves_rest(paint_all(under, crossing), tail, at);
    spans_spare_the_central_line(p0, p1, width, k);
    lemma_central_step(p0, p1, k);
    lemma_span_offsets(beside, delta, direction, next + delta.y, 1, true);
    lemma_walk_unfolds(delta, next + delta.y, 0);
    assert(walk(delta, error_after(delta, next + delta.y), 0).first == 0);
    assert(walk(delta, error_after(delta, next + delta.y), 0).second == 0);
    lemma_shallow_or_not(delta, central_walk(delta, k).error);
    assert(span_position(beside, delta, direction, next + delta.y, 1, true) == at);
    assert(in_span(beside, delta, direction, next + delta.y, steps, at));
    lemma_painted_span(beside, delta, direction, next + delta.y, steps, secondary, at, secondary);
    assert(plotted(crossing, at)) by {
        lemma_plotted_is_painted(crossing, at);
    }
    assert forall|other: C| painted(crossing, at, other) implies other == secondary by {
        lemma_painted_span(beside, delta, direction, next + delta.y, steps, secondary, at, other);
    }
    lemma_paint_sets_color(under, crossing, at, secondary);
}

/// The colour that a place shows after a thick line has been drawn, where
/// it showed `before`: a place outside the region of the line keeps its
/// colour, a point of the central line that no span crosses shows the
/// primary colour, and every other place of the region shows the secondary
/// colour.
pub open spec fn shown<C>(
    p0: Point,
    p1: Point,
    width: int,
    primary: C,
    secondary: C,
    before: C,
    at: (int, int),
) -> C {
    if !in_thick_line(p0, p1, width, at) {
        before
    } else if on_central_line(p0, p1, at) && !in_spans(
        p0,
        p1,
        span_steps(Delta::of(p0, p1), width),
        at,
    ) {
        primary
    } else {
        secondary
    }
}

/// What a surface shows after a thick line has been drawn on it, place by
/// place: the surface keeps its places, and each of them shows the colour
/// that `shown` gives.
pub proof fn drawing_in_closed_form<C>(
    surface: Map<(int, int), C>,
    p0: Point,
    p1: Point,
    width: int,
    primary: C,
    secondary: C,
    at: (int, int),
)
    requires
        surface.dom().contains(at),
    ensures
        paint_all(surface, thick_line_plots(p0, p1, width, primary, secondary)).dom()
            == surface.dom(),
        paint_all(surface, thick_line_plots(p0, p1, width, primary, secondary))[at] == shown(
            p0,
            p1,
            width,
            primary,
            secondary,
            surface[at],
            at,
        ),
{
    let steps = span_steps(Delta::of(p0, p1), width);
    drawing_colors_its_region(surface, p0, p1, width, primary, secondary, at);
    if on_central_line(p0, p1, at) && in_spans(p0, p1, steps, at) {
        let k: nat = choose|k: nat| k <= central_moves(p0, p1) && #[trigger] central_point(p0, p1, k) == at;
        spans_spare_the_central_line(p0, p1, width, k);
        crossed_point_shows_secondary(surface, p0, p1, width, primary, secondary, k);
    }
}

} // verus!
