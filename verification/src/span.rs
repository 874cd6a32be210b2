//! The perpendicular span filler: from a point of the central line it walks
//! away at right angles to the segment, on both sides, and fills what it
//! visits.
use vstd::prelude::*;
use crate::geometry::{Delta, Direction, Point};
use crate::length::{count_span_steps, span_steps};
use crate::pixel::{lemma_plots_push, plots, Pixel, Plot};
use crate::stepper::{next_move, walk};

verus! {

/// The place of the pixel that a span reaches with its `j`-th step. The span
/// follows the walk seeded with `seed`, turned by a right angle: a move of
/// the walk along the first axis takes the span one pixel along y, against
/// the segment's direction, and a move along the second axis takes it one
/// pixel along x, with the segment's direction. The far side mirrors the near
/// side through the starting point.
pub open spec fn span_position(
    start: (int, int),
    delta: Delta,
    direction: Direction,
    seed: int,
    j: nat,
    far_side: bool,
) -> (int, int) {
    let w = walk(delta, seed, j);
    if far_side {
        (start.0 - direction.x * w.second, start.1 + direction.y * w.first)
    } else {
        (start.0 + direction.x * w.second, start.1 - direction.y * w.first)
    }
}

/// The pixels of a span of `steps` steps, in the order in which they are
/// filled: step by step outward, the near side before the far side. The
/// starting point itself is not part of the span.
pub open spec fn span_plots<C>(
    start: (int, int),
    delta: Delta,
    direction: Direction,
    seed: int,
    steps: int,
    color: C,
) -> Seq<Plot<C>> {
    Seq::new(
        if steps > 0 {
            (2 * steps) as nat
        } else {
            0
        },
        |i: int|
            {
                let at = span_position(start, delta, direction, seed, (i / 2 + 1) as nat, i % 2 == 1);
                Plot { x: at.0, y: at.1, color }
            },
    )
}

/// `v` taken with the sign `sign`.
fn with_sign(sign: i64, v: i64) -> (r: i64)
    requires
        sign == 1 || sign == -1,
        v > i64::MIN,
    ensures
        r == sign * v,
{
    if sign > 0 {
        v
    } else {
        -v
    }
}

/// Appends to `out` the pixels of the span of `steps` steps that starts at
/// `start`.
pub(crate) fn fill_span<C: Copy>(
    out: &mut Vec<Pixel<C>>,
    start: Point,
    delta: Delta,
    direction: Direction,
    seed: i64,
    steps: u64,
    color: C,
)
    requires
        delta.wf(),
        direction.wf(),
        steps <= i32::MAX,
    ensures
        plots(final(out)@) == plots(old(out)@) + span_plots(
            (start.x as int, start.y as int),
            delta,
            direction,
            seed as int,
            steps as int,
            color,
        ),
{
    let ghost before = plots(out@);
    let ghost origin = (start.x as int, start.y as int);
    let mut first: i64 = 0;
    let mut second: i64 = 0;
    let mut error: i64 = seed;
    let mut j: u64 = 0;
    assert(plots(out@) =~= before + span_plots(origin, delta, direction, seed as int, 0, color));
    while j < steps
        invariant
            delta.wf(),
            direction.wf(),
            steps <= i32::MAX,
            j <= steps,
            origin == (start.x as int, start.y as int),
            0 <= first <= j,
            0 <= second <= j,
            first == walk(delta, seed as int, j as nat).first,
            second == walk(delta, seed as int, j as nat).second,
            error == walk(delta, seed as int, j as nat).error,
            plots(out@) == before + span_plots(
                origin,
                delta,
                direction,
                seed as int,
                j as int,
                color,
            ),
        decreases steps - j,
    {
        let m = next_move(delta, error);
        if m.first {
            first = first + 1;
        }
        if m.second {
            second = second + 1;
        }
        error = m.error;
        j = j + 1;
        let across: i64 = with_sign(direction.x, second);
        let along: i64 = with_sign(direction.y, first);
        let near = Pixel { x: start.x as i64 + across, y: start.y as i64 - along, color };
        let far = Pixel { x: start.x as i64 - across, y: start.y as i64 + along, color };
        proof {
            let grown = span_plots(origin, delta, direction, seed as int, j as int, color);
            let shorter = span_plots(origin, delta, direction, seed as int, j - 1, color);
            assert(near@ == grown[2 * j - 2]);
            assert(far@ == grown[2 * j - 1]);
            assert(grown =~= shorter.push(near@).push(far@));
            lemma_plots_push(out@, near);
            lemma_plots_push(out@.push(near), far);
            assert((before + shorter).push(near@).push(far@) =~= before + grown);
        }
        out.push(near);
        out.push(far);
    }
}

/// Fills the span at `p_start`: the pixels at right angles to the segment,
/// on both sides of `p_start`, out to the half-width `width`. The walk that
/// the span follows is seeded with `initial_error`. A half-width that is not
/// positive gives an empty span, and so does a delta of zero.
pub fn perpendicular_span<C: Copy>(
    p_start: Point,
    delta: Delta,
    direction: Direction,
    initial_error: i64,
    width: i32,
    color: C,
) -> (span: Vec<Pixel<C>>)
    requires
        delta.wf(),
        direction.wf(),
    ensures
        plots(span@) == span_plots(
            (p_start.x as int, p_start.y as int),
            delta,
            direction,
            initial_error as int,
            span_steps(delta, width as int),
            color,
        ),
{
    let steps: u64 = count_span_steps(delta, width);
    let mut span: Vec<Pixel<C>> = Vec::new();
    assert(plots(span@) =~= Seq::<Plot<C>>::empty());
    fill_span(&mut span, p_start, delta, direction, initial_error, steps, color);
    assert(Seq::<Plot<C>>::empty() + span_plots(
        (p_start.x as int, p_start.y as int),
        delta,
        direction,
        initial_error as int,
        steps as int,
        color,
    ) =~= span_plots(
        (p_start.x as int, p_start.y as int),
        delta,
        direction,
        initial_error as int,
        steps as int,
        color,
    ));
    span
}

} // verus!
