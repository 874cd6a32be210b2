//! The region of a thick line is connected, and its near side has no gap:
//! the lookahead spans fill what the moves of the central line would leave
//! open between two spans.
use vstd::prelude::*;
use crate::aligned::between;
use crate::central::{
    central_moves, central_point, central_walk, lemma_central_line_ends, lemma_central_step,
    lemma_shallow_central_error, lemma_steep_central_error,
};
use crate::geometry::{lemma_signed, signed, Delta, Direction, Point};
use crate::length::span_steps;
use crate::region::{in_span, in_spans, in_thick_line, on_central_line, span_fills_at};
use crate::span::span_position;
use crate::theorems::{adjacent, span_is_contiguous};
use crate::stepper::{
    error_after, lemma_shallow_walk, lemma_steep_walk, lemma_walk_continues, lemma_walk_unfolds,
    moves_first, moves_second, walk,
};

verus! {

/// The points of the central line belong to the thick line.
pub proof fn lemma_point_is_filled(p0: Point, p1: Point, width: int, k: nat)
    requires
        k <= central_moves(p0, p1),
    ensures
        in_thick_line(p0, p1, width, central_point(p0, p1, k)),
{
    assert(on_central_line(p0, p1, central_point(p0, p1, k)));
}

/// What the span at a point of the central line reaches belongs to the thick
/// line.
pub proof fn lemma_span_is_filled(p0: Point, p1: Point, width: int, k: nat, j: nat, far_side: bool)
    requires
        k <= central_moves(p0, p1),
        1 <= j <= span_steps(Delta::of(p0, p1), width),
    ensures
        in_thick_line(
            p0,
            p1,
            width,
            span_position(
                central_point(p0, p1, k),
                Delta::of(p0, p1),
                Direction::of(p0, p1),
                central_walk(Delta::of(p0, p1), k).error,
                j,
                far_side,
            ),
        ),
{
    let delta = Delta::of(p0, p1);
    let direction = Direction::of(p0, p1);
    let steps = span_steps(delta, width);
    let center = central_point(p0, p1, k);
    let error = central_walk(delta, k).error;
    let at = span_position(center, delta, direction, error, j, far_side);
    assert(in_span(center, delta, direction, error, steps, at));
    assert(span_fills_at(p0, p1, steps, k, at));
    assert(in_spans(p0, p1, steps, at));
}

/// What the lookahead span at a point of the central line reaches belongs to
/// the thick line.
pub proof fn lemma_lookahead_is_filled(
    p0: Point,
    p1: Point,
    width: int,
    k: nat,
    j: nat,
    far_side: bool,
)
    requires
        k < central_moves(p0, p1),
        moves_first(Delta::of(p0, p1), central_walk(Delta::of(p0, p1), k).error),
        1 <= j <= span_steps(Delta::of(p0, p1), width),
    ensures
        in_thick_line(
            p0,
            p1,
            width,
            span_position(
                central_point(p0, p1, k),
                Delta::of(p0, p1),
                Direction::of(p0, p1),
                central_walk(Delta::of(p0, p1), k).error + Delta::of(p0, p1).y,
                j,
                far_side,
            ),
        ),
{
    let delta = Delta::of(p0, p1);
    let direction = Direction::of(p0, p1);
    let steps = span_steps(delta, width);
    let center = central_point(p0, p1, k);
    let error = central_walk(delta, k).error;
    let at = span_position(center, delta, direction, error + delta.y, j, far_side);
    assert(in_span(center, delta, direction, error + delta.y, steps, at));
    assert(span_fills_at(p0, p1, steps, k, at));
    assert(in_spans(p0, p1, steps, at));
}

/// The region of a thick line is connected: every pixel of a span, or of a
/// lookahead span, is the neighbour of the pixel that the span reaches one
/// step earlier on the same side, and that pixel belongs to the thick line
/// too; the first pixel of a span is the neighbour of the point of the
/// central line at which the span starts. With the central line, which is
/// connected itself, every place of the region is joined to `p0` by
/// neighbours within the region.
pub proof fn region_is_connected(
    p0: Point,
    p1: Point,
    width: int,
    k: nat,
    lookahead: bool,
    j: nat,
    far_side: bool,
)
    requires
        k <= central_moves(p0, p1),
        lookahead ==> k < central_moves(p0, p1) && moves_first(
            Delta::of(p0, p1),
            central_walk(Delta::of(p0, p1), k).error,
        ),
        1 <= j <= span_steps(Delta::of(p0, p1), width),
    ensures
        ({
            let delta = Delta::of(p0, p1);
            let direction = Direction::of(p0, p1);
            let start = central_point(p0, p1, k);
            let seed = central_walk(delta, k).error + if lookahead {
                delta.y as int
            } else {
                0
            };
            let at = span_position(start, delta, direction, seed, j, far_side);
            let before = span_position(start, delta, direction, seed, (j - 1) as nat, far_side);
            &&& adjacent(before, at)
            &&& in_thick_line(p0, p1, width, at)
            &&& in_thick_line(p0, p1, width, before)
            &&& j == 1 ==> before == start
        }),
{
    let delta = Delta::of(p0, p1);
    let direction = Direction::of(p0, p1);
    let start = central_point(p0, p1, k);
    let seed = central_walk(delta, k).error + if lookahead {
        delta.y as int
    } else {
        0
    };
    let earlier: nat = (j - 1) as nat;
    span_is_contiguous(start, delta, direction, seed, earlier, far_side);
    if lookahead {
        lemma_lookahead_is_filled(p0, p1, width, k, j, far_side);
        if j > 1 {
            lemma_lookahead_is_filled(p0, p1, width, k, earlier, far_side);
        }
    } else {
        lemma_span_is_filled(p0, p1, width, k, j, far_side);
        if j > 1 {
            lemma_span_is_filled(p0, p1, width, k, earlier, far_side);
        }
    }
    lemma_point_is_filled(p0, p1, width, k);
}

/// Before a move of the central line along the x axis alone, the lookahead
/// span lies beside the span of the next point: each of its pixels, on
/// either side, is the neighbour along x of the pixel that the next span
/// reaches with the same step. On the near side it is also the neighbour
/// along y of the pixel that the span of the point itself reaches one step
/// later.
pub proof fn lookahead_joins_spans_along_x(p0: Point, p1: Point, k: nat, j: nat, far_side: bool)
    requires
        k < central_moves(p0, p1),
        moves_first(Delta::of(p0, p1), central_walk(Delta::of(p0, p1), k).error),
        !moves_second(Delta::of(p0, p1), central_walk(Delta::of(p0, p1), k).error),
    ensures
        ({
            let delta = Delta::of(p0, p1);
            let direction = Direction::of(p0, p1);
            let error = central_walk(delta, k).error;
            let here = central_point(p0, p1, k);
            let ahead = span_position(here, delta, direction, error + delta.y, j, far_side);
            let next = span_position(
                central_point(p0, p1, k + 1),
                delta,
                direction,
                central_walk(delta, k + 1).error,
                j,
                far_side,
            );
            let later = span_position(here, delta, direction, error, j + 1, false);
            &&& next == (ahead.0 + direction.x, ahead.1)
            &&& !far_side ==> later == (ahead.0, ahead.1 - direction.y)
        }),
{
    let delta = Delta::of(p0, p1);
    let direction = Direction::of(p0, p1);
    let error = central_walk(delta, k).error;
    let w = central_walk(delta, k);
    let ahead = walk(delta, error + delta.y, j);
    lemma_walk_continues(delta, error, 1, j);
    assert(walk(delta, error, 0).error == error);
    assert(walk(delta, error, 1).error == error + delta.y);
    assert(walk(delta, error, 1).first == 1 && walk(delta, error, 1).second == 0);
    lemma_signed(direction.x as int, w.first);
    lemma_signed(direction.x as int, w.first + 1);
    lemma_signed(direction.y as int, ahead.first);
    lemma_signed(direction.y as int, ahead.first + 1);
}

/// Before a move of the central line along both axes, the spans of the two
/// points are two pixels apart on the near side, and the lookahead span
/// fills the pixel between them: where its walk starts along the second axis
/// alone, as it does on every segment that is no longer along x than along
/// y, the pixel that the lookahead span reaches with a step is the
/// neighbour along y both of the pixel that the span of the point reaches
/// with the same step and of the pixel that the span of the next point
/// reaches one step earlier.
pub proof fn lookahead_fills_the_gap(p0: Point, p1: Point, k: nat, j: nat)
    requires
        k < central_moves(p0, p1),
        moves_first(Delta::of(p0, p1), central_walk(Delta::of(p0, p1), k).error),
        moves_second(Delta::of(p0, p1), central_walk(Delta::of(p0, p1), k).error),
        !moves_first(
            Delta::of(p0, p1),
            central_walk(Delta::of(p0, p1), k).error + Delta::of(p0, p1).y,
        ),
    ensures
        ({
            let delta = Delta::of(p0, p1);
            let direction = Direction::of(p0, p1);
            let error = central_walk(delta, k).error;
            let here = central_point(p0, p1, k);
            let ahead = span_position(here, delta, direction, error + delta.y, j + 1, false);
            let own = span_position(here, delta, direction, error, j + 1, false);
            let next = span_position(
                central_point(p0, p1, k + 1),
                delta,
                direction,
                central_walk(delta, k + 1).error,
                j,
                false,
            );
            &&& ahead == (own.0, own.1 + direction.y)
            &&& next == (ahead.0, ahead.1 + direction.y)
        }),
{
    let delta = Delta::of(p0, p1);
    let direction = Direction::of(p0, p1);
    let error = central_walk(delta, k).error;
    let w = central_walk(delta, k);
    let onward = walk(delta, central_walk(delta, k + 1).error, j);
    lemma_walk_continues(delta, error, 1, j);
    lemma_walk_continues(delta, error + delta.y, 1, j);
    assert(walk(delta, error, 0).error == error);
    assert(walk(delta, error + delta.y, 0).error == error + delta.y);
    assert(walk(delta, error, 1).error == central_walk(delta, k + 1).error);
    assert(walk(delta, error + delta.y, 1).error == central_walk(delta, k + 1).error);
    lemma_signed(direction.x as int, w.first);
    lemma_signed(direction.x as int, w.first + 1);
    lemma_signed(direction.y as int, w.second);
    lemma_signed(direction.y as int, w.second + 1);
    lemma_signed(direction.x as int, onward.second);
    lemma_signed(direction.x as int, onward.second + 1);
    lemma_signed(direction.y as int, onward.first);
    lemma_signed(direction.y as int, onward.first + 1);
}

/// On a segment that is no longer along x than along y, the walk of every
/// lookahead span starts along the second axis alone.
pub proof fn lookahead_starts_sideways(delta: Delta, error: int)
    requires
        delta.wf(),
        delta.x <= -delta.y,
        moves_second(delta, error),
    ensures
        !moves_first(delta, error + delta.y),
{
}

/// The place that a span reaches on its near side, without a product.
proof fn lemma_near_position(
    start: (int, int),
    delta: Delta,
    direction: Direction,
    seed: int,
    j: nat,
)
    requires
        direction.wf(),
    ensures
        span_position(start, delta, direction, seed, j, false) == (
            start.0 + signed(direction.x as int, walk(delta, seed, j).second),
            start.1 - signed(direction.y as int, walk(delta, seed, j).first),
        ),
{
    let w = walk(delta, seed, j);
    lemma_signed(direction.x as int, w.second);
    lemma_signed(direction.y as int, w.first);
}

/// On a segment that is longer along x than along y: under a pixel that the
/// span at a point of the central line fills on its near side, the pixel
/// next to it toward the central line is filled as well.
proof fn lemma_below_span(p0: Point, p1: Point, width: int, k: nat, j: nat)
    requires
        Delta::of(p0, p1).x > -Delta::of(p0, p1).y,
        k <= central_moves(p0, p1),
        1 <= j <= span_steps(Delta::of(p0, p1), width),
        k == central_moves(p0, p1) ==> between(
            p0.x as int,
            span_position(
                central_point(p0, p1, k),
                Delta::of(p0, p1),
                Direction::of(p0, p1),
                central_walk(Delta::of(p0, p1), k).error,
                j,
                false,
            ).0,
            p1.x as int,
        ),
    ensures
        ({
            let at = span_position(
                central_point(p0, p1, k),
                Delta::of(p0, p1),
                Direction::of(p0, p1),
                central_walk(Delta::of(p0, p1), k).error,
                j,
                false,
            );
            in_thick_line(p0, p1, width, (at.0, at.1 + Direction::of(p0, p1).y))
        }),
{
    let delta = Delta::of(p0, p1);
    let direction = Direction::of(p0, p1);
    let last = central_moves(p0, p1);
    let center = central_point(p0, p1, k);
    let error = central_walk(delta, k).error;
    let before: nat = (j - 1) as nat;
    let w = walk(delta, error, j);
    let v = walk(delta, error, before);
    let at = span_position(center, delta, direction, error, j, false);
    let below = (at.0, at.1 + direction.y);
    lemma_shallow_central_error(delta, k);
    lemma_shallow_walk(delta, error, j);
    lemma_shallow_walk(delta, error, before);
    lemma_near_position(center, delta, direction, error, j);
    lemma_near_position(center, delta, direction, error, before);
    if !moves_second(delta, v.error) {
        if j == 1 {
            assert(below == center);
            lemma_point_is_filled(p0, p1, width, k);
        } else {
            assert(below == span_position(center, delta, direction, error, before, false));
            lemma_span_is_filled(p0, p1, width, k, before, false);
        }
    } else if k == last {
        lemma_central_line_ends(p0, p1, k);
        assert(false);
    } else {
        lemma_central_step(p0, p1, k);
        lemma_walk_unfolds(delta, error, before);
        let next = central_walk(delta, k + 1).error;
        let u = walk(delta, next, before);
        lemma_shallow_central_error(delta, k + 1);
        lemma_shallow_walk(delta, next, before);
        if !moves_second(delta, error) {
            assert(next == error + delta.y);
            lemma_near_position(center, delta, direction, error + delta.y, before);
            if j == 1 {
                assert(u.second == 0);
                assert(false);
            } else {
                assert(below == span_position(center, delta, direction, error + delta.y, before, false));
                lemma_lookahead_is_filled(p0, p1, width, k, before, false);
            }
        } else if !moves_first(delta, error + delta.y) {
            lemma_walk_unfolds(delta, error + delta.y, before);
            lemma_near_position(center, delta, direction, error + delta.y, j);
            assert(error_after(delta, error + delta.y) == next);
            assert(below == span_position(center, delta, direction, error + delta.y, j, false));
            lemma_lookahead_is_filled(p0, p1, width, k, j, false);
        } else {
            assert(!moves_second(delta, next));
            if j == 1 {
                let beside = central_point(p0, p1, k + 1);
                lemma_near_position(beside, delta, direction, next, 1);
                lemma_walk_unfolds(delta, next, 0);
                assert(walk(delta, error_after(delta, next), 0).first == 0);
                assert(walk(delta, error_after(delta, next), 0).second == 0);
                assert(walk(delta, error, 0).second == 0);
                assert(below == span_position(beside, delta, direction, next, 1, false));
                lemma_span_is_filled(p0, p1, width, k + 1, 1, false);
            } else {
                let earlier: nat = (j - 2) as nat;
                lemma_walk_unfolds(delta, next, earlier);
                lemma_walk_unfolds(delta, error + delta.y, earlier);
                assert(error_after(delta, next) == next + delta.y);
                assert(error_after(delta, error + delta.y) == next + delta.y);
                lemma_near_position(center, delta, direction, error + delta.y, before);
                assert(below == span_position(center, delta, direction, error + delta.y, before, false));
                lemma_lookahead_is_filled(p0, p1, width, k, before, false);
            }
        }
    }
}

/// On a segment that is longer along x than along y: under a pixel that the
/// lookahead span at a point of the central line fills on its near side, the
/// pixel next to it toward the central line is filled as well.
proof fn lemma_below_lookahead(p0: Point, p1: Point, width: int, k: nat, j: nat)
    requires
        Delta::of(p0, p1).x > -Delta::of(p0, p1).y,
        k < central_moves(p0, p1),
        1 <= j <= span_steps(Delta::of(p0, p1), width),
    ensures
        ({
            let at = span_position(
                central_point(p0, p1, k),
                Delta::of(p0, p1),
                Direction::of(p0, p1),
                central_walk(Delta::of(p0, p1), k).error + Delta::of(p0, p1).y,
                j,
                false,
            );
            in_thick_line(p0, p1, width, (at.0, at.1 + Direction::of(p0, p1).y))
        }),
{
    let delta = Delta::of(p0, p1);
    let direction = Direction::of(p0, p1);
    let center = central_point(p0, p1, k);
    let beside = central_point(p0, p1, k + 1);
    let error = central_walk(delta, k).error;
    let next = central_walk(delta, k + 1).error;
    let seed = error + delta.y;
    let before: nat = (j - 1) as nat;
    let at = span_position(center, delta, direction, seed, j, false);
    let below = (at.0, at.1 + direction.y);
    lemma_shallow_central_error(delta, k);
    lemma_shallow_central_error(delta, k + 1);
    lemma_central_step(p0, p1, k);
    lemma_near_position(center, delta, direction, seed, j);
    lemma_walk_unfolds(delta, seed, before);
    if !moves_second(delta, error) {
        assert(seed == next);
        let v = walk(delta, seed, before);
        lemma_shallow_walk(delta, seed, j);
        lemma_shallow_walk(delta, seed, before);
        lemma_near_position(center, delta, direction, seed, before);
        lemma_near_position(beside, delta, direction, next, before);
        if !moves_second(delta, v.error) {
            if j == 1 {
                assert(below == center);
                lemma_point_is_filled(p0, p1, width, k);
            } else {
                assert(below == span_position(center, delta, direction, seed, before, false));
                lemma_lookahead_is_filled(p0, p1, width, k, before, false);
            }
        } else {
            if j == 1 {
                assert(below == beside);
                lemma_point_is_filled(p0, p1, width, k + 1);
            } else {
                assert(below == span_position(beside, delta, direction, next, before, false));
                lemma_span_is_filled(p0, p1, width, k + 1, before, false);
            }
        }
    } else if !moves_first(delta, seed) {
        assert(error_after(delta, seed) == next);
        lemma_shallow_walk(delta, next, before);
        lemma_near_position(beside, delta, direction, next, before);
        if j == 1 {
            assert(below == beside);
            lemma_point_is_filled(p0, p1, width, k + 1);
        } else {
            assert(below == span_position(beside, delta, direction, next, before, false));
            lemma_span_is_filled(p0, p1, width, k + 1, before, false);
        }
    } else {
        assert(!moves_second(delta, next));
        assert(error_after(delta, seed) == next + delta.y);
        assert(error_after(delta, next) == next + delta.y);
        lemma_walk_unfolds(delta, next, before);
        lemma_near_position(beside, delta, direction, next, j);
        assert(below == span_position(beside, delta, direction, next, j, false));
        lemma_span_is_filled(p0, p1, width, k + 1, j, false);
    }
}

/// On a segment that is longer along x than along y, the near side of the
/// thick line has no gap in any column of the central line. Take a pixel
/// that the span at the `k`-th point of the central line, or the lookahead
/// span there, fills on its near side: the pixel next to it in its column,
/// toward the central line, is filled as well, by a span or by the central
/// line itself. At the last point of the central line, where the spans
/// reach beyond the end of the segment, this holds of the pixels in the
/// columns of the central line.
pub proof fn shallow_near_side_has_no_gap(
    p0: Point,
    p1: Point,
    width: int,
    k: nat,
    lookahead: bool,
    j: nat,
)
    requires
        Delta::of(p0, p1).x > -Delta::of(p0, p1).y,
        k <= central_moves(p0, p1),
        lookahead ==> k < central_moves(p0, p1),
        1 <= j <= span_steps(Delta::of(p0, p1), width),
        k == central_moves(p0, p1) ==> between(
            p0.x as int,
            span_position(
                central_point(p0, p1, k),
                Delta::of(p0, p1),
                Direction::of(p0, p1),
                central_walk(Delta::of(p0, p1), k).error,
                j,
                false,
            ).0,
            p1.x as int,
        ),
    ensures
        ({
            let delta = Delta::of(p0, p1);
            let seed = central_walk(delta, k).error + if lookahead {
                delta.y as int
            } else {
                0
            };
            let at = span_position(
                central_point(p0, p1, k),
                delta,
                Direction::of(p0, p1),
                seed,
                j,
                false,
            );
            in_thick_line(p0, p1, width, (at.0, at.1 + Direction::of(p0, p1).y))
        }),
{
    if lookahead {
        lemma_below_lookahead(p0, p1, width, k, j);
    } else {
        lemma_below_span(p0, p1, width, k, j);
    }
}

/// On a segment that is no longer along x than along y: beside a pixel that
/// the span at a point of the central line fills on its near side, in a row
/// of the central line, the pixel next to it toward the central line is
/// filled as well.
proof fn lemma_beside_span(p0: Point, p1: Point, width: int, k: nat, j: nat)
    requires
        Delta::of(p0, p1).x <= -Delta::of(p0, p1).y,
        k <= central_moves(p0, p1),
        1 <= j <= span_steps(Delta::of(p0, p1), width),
        between(
            p0.y as int,
            span_position(
                central_point(p0, p1, k),
                Delta::of(p0, p1),
                Direction::of(p0, p1),
                central_walk(Delta::of(p0, p1), k).error,
                j,
                false,
            ).1,
            p1.y as int,
        ),
    ensures
        ({
            let at = span_position(
                central_point(p0, p1, k),
                Delta::of(p0, p1),
                Direction::of(p0, p1),
                central_walk(Delta::of(p0, p1), k).error,
                j,
                false,
            );
            in_thick_line(p0, p1, width, (at.0 - Direction::of(p0, p1).x, at.1))
        }),
    decreases k,
{
    let delta = Delta::of(p0, p1);
    let direction = Direction::of(p0, p1);
    let center = central_point(p0, p1, k);
    let error = central_walk(delta, k).error;
    let before: nat = (j - 1) as nat;
    let w = walk(delta, error, j);
    let v = walk(delta, error, before);
    let at = span_position(center, delta, direction, error, j, false);
    let beside = (at.0 - direction.x, at.1);
    lemma_steep_central_error(delta, k);
    lemma_steep_walk(delta, error, j);
    lemma_steep_walk(delta, error, before);
    lemma_near_position(center, delta, direction, error, j);
    lemma_near_position(center, delta, direction, error, before);
    if !moves_first(delta, v.error) {
        if j == 1 {
            assert(beside == center);
            lemma_point_is_filled(p0, p1, width, k);
        } else {
            assert(beside == span_position(center, delta, direction, error, before, false));
            lemma_span_is_filled(p0, p1, width, k, before, false);
        }
    } else if k == 0 {
        lemma_signed(direction.x as int, 0);
        lemma_signed(direction.y as int, 0);
        assert(center == (p0.x as int, p0.y as int));
        assert(false);
    } else {
        let back: nat = (k - 1) as nat;
        let behind = central_point(p0, p1, back);
        let seed = central_walk(delta, back).error;
        lemma_steep_central_error(delta, back);
        lemma_central_step(p0, p1, back);
        if moves_first(delta, seed) {
            lemma_walk_unfolds(delta, seed + delta.y, before);
            lemma_near_position(behind, delta, direction, seed + delta.y, j);
            assert(error_after(delta, seed + delta.y) == error);
            assert(beside == span_position(behind, delta, direction, seed + delta.y, j, false));
            lemma_lookahead_is_filled(p0, p1, width, back, j, false);
        } else {
            lemma_walk_unfolds(delta, seed, before);
            lemma_near_position(behind, delta, direction, seed, j);
            assert(at == span_position(behind, delta, direction, seed, j, false));
            lemma_beside_span(p0, p1, width, back, j);
        }
    }
}

/// On a segment that is no longer along x than along y: beside a pixel that
/// the lookahead span at a point of the central line fills on its near side,
/// the pixel next to it toward the central line is filled as well.
proof fn lemma_beside_lookahead(p0: Point, p1: Point, width: int, k: nat, j: nat)
    requires
        Delta::of(p0, p1).x <= -Delta::of(p0, p1).y,
        k < central_moves(p0, p1),
        moves_first(Delta::of(p0, p1), central_walk(Delta::of(p0, p1), k).error),
        1 <= j <= span_steps(Delta::of(p0, p1), width),
    ensures
        ({
            let at = span_position(
                central_point(p0, p1, k),
                Delta::of(p0, p1),
                Direction::of(p0, p1),
                central_walk(Delta::of(p0, p1), k).error + Delta::of(p0, p1).y,
                j,
                false,
            );
            in_thick_line(p0, p1, width, (at.0 - Direction::of(p0, p1).x, at.1))
        }),
{
    let delta = Delta::of(p0, p1);
    let direction = Direction::of(p0, p1);
    let center = central_point(p0, p1, k);
    let error = central_walk(delta, k).error;
    let next = central_walk(delta, k + 1).error;
    let seed = error + delta.y;
    let before: nat = (j - 1) as nat;
    let at = span_position(center, delta, direction, seed, j, false);
    let beside = (at.0 - direction.x, at.1);
    lemma_steep_central_error(delta, k);
    lemma_steep_central_error(delta, k + 1);
    lemma_central_step(p0, p1, k);
    lemma_walk_unfolds(delta, seed, before);
    lemma_near_position(center, delta, direction, seed, j);
    lemma_steep_walk(delta, next, before);
    assert(error_after(delta, seed) == next);
    if j == 1 {
        assert(beside == center);
        lemma_point_is_filled(p0, p1, width, k);
    } else {
        let earlier: nat = (j - 2) as nat;
        let u = walk(delta, next, earlier);
        lemma_steep_walk(delta, next, earlier);
        if !moves_first(delta, u.error) {
            lemma_walk_unfolds(delta, seed, earlier);
            lemma_near_position(center, delta, direction, seed, before);
            assert(beside == span_position(center, delta, direction, seed, before, false));
            lemma_lookahead_is_filled(p0, p1, width, k, before, false);
        } else {
            lemma_walk_unfolds(delta, error, earlier);
            lemma_near_position(center, delta, direction, error, before);
            assert(beside == span_position(center, delta, direction, error, before, false));
            lemma_span_is_filled(p0, p1, width, k, before, false);
        }
    }
}

/// On a segment that is no longer along x than along y, the near side of the
/// thick line has no gap in any row of the central line. Take a pixel that
/// the span at the `k`-th point of the central line fills on its near side
/// in one of the rows of the central line, or any pixel that the lookahead
/// span there fills on its near side: the pixel next to it in its row,
/// toward the central line, is filled as well, by a span or by the central
/// line itself.
pub proof fn steep_near_side_has_no_gap(
    p0: Point,
    p1: Point,
    width: int,
    k: nat,
    lookahead: bool,
    j: nat,
)
    requires
        Delta::of(p0, p1).x <= -Delta::of(p0, p1).y,
        k <= central_moves(p0, p1),
        lookahead ==> k < central_moves(p0, p1) && moves_first(
            Delta::of(p0, p1),
            central_walk(Delta::of(p0, p1), k).error,
        ),
        1 <= j <= span_steps(Delta::of(p0, p1), width),
        !lookahead ==> between(
            p0.y as int,
            span_position(
                central_point(p0, p1, k),
                Delta::of(p0, p1),
                Direction::of(p0, p1),
                central_walk(Delta::of(p0, p1), k).error,
                j,
                false,
            ).1,
            p1.y as int,
        ),
    ensures
        ({
            let delta = Delta::of(p0, p1);
            let seed = central_walk(delta, k).error + if lookahead {
                delta.y as int
            } else {
                0
            };
            let at = span_position(
                central_point(p0, p1, k),
                delta,
                Direction::of(p0, p1),
                seed,
                j,
                false,
            );
            in_thick_line(p0, p1, width, (at.0 - Direction::of(p0, p1).x, at.1))
        }),
{
    if lookahead {
        lemma_beside_lookahead(p0, p1, width, k, j);
    } else {
        lemma_beside_span(p0, p1, width, k, j);
    }
}

} // verus!
