//! The central line of a segment: the points that the line driver visits on
//! its way from one end to the other, and what is known of them.
use vstd::prelude::*;
use vstd::arithmetic::div_mod::lemma_fundamental_div_mod_converse;
use crate::geometry::{lemma_signed, magnitude, Delta, Direction, Point};
use crate::pixel::Plot;
use crate::stepper::{
    error_after, lemma_shallow_walk, lemma_steep_walk, lemma_walk_counts, moves_first, moves_second,
    on_steep_course, walk, Progress,
};

verus! {

/// The progress of the walk along the central line after `k` moves. Its
/// error starts as the sum of the two components of the delta.
pub open spec fn central_walk(delta: Delta, k: nat) -> Progress {
    walk(delta, delta.x + delta.y, k)
}

/// The `k`-th point of the central line from `p0` to `p1`, counted from zero.
pub open spec fn central_point(p0: Point, p1: Point, k: nat) -> (int, int) {
    let w = central_walk(Delta::of(p0, p1), k);
    let direction = Direction::of(p0, p1);
    (p0.x + direction.x * w.first, p0.y + direction.y * w.second)
}

/// The number of moves that take the central line from `p0` to `p1`: the
/// extent of the segment along its longer axis.
pub open spec fn central_moves(p0: Point, p1: Point) -> nat {
    Delta::of(p0, p1).major() as nat
}

/// The central line from `p0` to `p1` as pixels of one colour: its points in
/// the order of the walk, `p0` first and `p1` last.
pub open spec fn central_plots<C>(p0: Point, p1: Point, color: C) -> Seq<Plot<C>> {
    Seq::new(
        central_moves(p0, p1) + 1,
        |k: int|
            {
                let at = central_point(p0, p1, k as nat);
                Plot { x: at.0, y: at.1, color }
            },
    )
}

/// The quotient `n / m` rounded to the nearest integer, a half rounded down.
pub open spec fn nearest(n: int, m: int) -> int {
    (2 * n + m - 1) / (2 * m)
}

/// An integer no further than half of `m` above `n` and less than half of `m`
/// below it, both measured in units of `m`, is `n / m` rounded to the nearest
/// integer.
pub proof fn lemma_nearest(n: int, m: int, r: int)
    requires
        m > 0,
        -m <= 2 * (m * r - n) < m,
    ensures
        r == nearest(n, m),
{
    let x: int = 2 * n + m - 1;
    let d: int = 2 * m;
    assert(r * d == 2 * (m * r)) by (nonlinear_arith)
        requires
            d == 2 * m,
    ;
    lemma_fundamental_div_mod_converse(x, d, r, x - r * d);
}

proof fn lemma_scaled_difference(m: int, u: int, v: int)
    by (nonlinear_arith)
    requires
        m > 0,
        -m <= 2 * (m * u - v * m) < m,
    ensures
        u == v,
{
}

/// Along the longer axis of its delta the central walk advances with every
/// move; along the other axis it stays within half a pixel of the ideal
/// line, a tie going to the pixel nearer the start.
pub proof fn lemma_central_walk(delta: Delta, k: nat)
    requires
        delta.wf(),
        !delta.is_zero(),
    ensures
        delta.x >= -delta.y ==> central_walk(delta, k).first == k,
        -delta.y >= delta.x ==> central_walk(delta, k).second == k,
        -delta.major() <= 2 * (delta.major() * central_walk(delta, k).first - delta.x * k)
            < delta.major(),
        -delta.major() <= 2 * (delta.major() * central_walk(delta, k).second + delta.y * k)
            < delta.major(),
        central_walk(delta, k).error == delta.x + delta.y + delta.y * central_walk(delta, k).first
            + delta.x * central_walk(delta, k).second,
    decreases k,
{
    let dx: int = delta.x as int;
    let dy: int = delta.y as int;
    lemma_walk_counts(delta, dx + dy, k);
    if k == 0 {
        assert(dx * 0 == 0 && dy * 0 == 0 && delta.major() * 0 == 0) by (nonlinear_arith);
    } else {
        let j: nat = (k - 1) as nat;
        lemma_central_walk(delta, j);
        lemma_walk_counts(delta, dx + dy, j);
        let before = central_walk(delta, j);
        let after = central_walk(delta, k);
        assert(dx * (j + 1) == dx * j + dx) by (nonlinear_arith);
        assert(dy * (j + 1) == dy * j + dy) by (nonlinear_arith);
        assert(dx * (before.first + 1) == dx * before.first + dx) by (nonlinear_arith);
        assert(dx * (before.second + 1) == dx * before.second + dx) by (nonlinear_arith);
        assert(dy * (before.first + 1) == dy * before.first + dy) by (nonlinear_arith);
        assert(dy * (before.second + 1) == dy * before.second + dy) by (nonlinear_arith);
        if dx > -dy {
            assert(before.first == j);
            assert(delta.major() == dx);
            assert(moves_first(delta, before.error));
            assert(after.first == k);
        } else if -dy > dx {
            assert(before.second == j);
            assert(delta.major() == -dy);
            assert((-dy) * (before.first + 1) == (-dy) * before.first - dy) by (nonlinear_arith);
            assert((-dy) * before.first == -(dy * before.first)) by (nonlinear_arith);
            assert((-dy) * (before.second + 1) == (-dy) * before.second - dy) by (nonlinear_arith);
            assert((-dy) * before.second == -(dy * before.second)) by (nonlinear_arith);
            assert(moves_second(delta, before.error));
            assert(after.second == k);
        } else {
            assert(before.first == j && before.second == j);
            assert(dy * j == -(dx * j)) by (nonlinear_arith)
                requires
                    dy == -dx,
            ;
            assert(before.error == 0);
            assert(moves_first(delta, before.error));
            assert(moves_second(delta, before.error));
        }
    }
}

/// Twice the error of the central walk lies between `delta.x + 3 * delta.y`
/// and `3 * delta.x + delta.y`.
pub proof fn lemma_central_error_range(delta: Delta, k: nat)
    requires
        delta.wf(),
    ensures
        delta.x + 3 * delta.y <= 2 * central_walk(delta, k).error <= 3 * delta.x + delta.y,
{
    if delta.is_zero() {
        lemma_walk_counts(delta, 0, k);
        assert(0 * central_walk(delta, k).first == 0 && 0 * central_walk(delta, k).second == 0)
            by (nonlinear_arith);
    } else {
        lemma_central_walk(delta, k);
        let w = central_walk(delta, k);
        assert((-delta.y) * w.first == -(delta.y * w.first)) by (nonlinear_arith);
        assert((-delta.y) * w.second == -(delta.y * w.second)) by (nonlinear_arith);
    }
}

/// The central line follows the ideal line of the segment. After `k` moves
/// the walk has covered, along each axis, the share of the extent that `k`
/// steps out of the longer extent make up, rounded to the nearest integer, a
/// half rounded down: no point of the central line is further than half a
/// pixel from the ideal line, measured along the shorter axis.
pub proof fn central_line_follows_the_ideal_line(delta: Delta, k: nat)
    requires
        delta.wf(),
        !delta.is_zero(),
    ensures
        central_walk(delta, k).first == nearest(delta.x * k, delta.major()),
        central_walk(delta, k).second == nearest(-delta.y * k, delta.major()),
{
    lemma_central_walk(delta, k);
    let w = central_walk(delta, k);
    assert(-delta.y * k == -(delta.y * k)) by (nonlinear_arith);
    lemma_nearest(delta.x * k, delta.major(), w.first);
    lemma_nearest(-delta.y * k, delta.major(), w.second);
}

/// The central walk has covered the whole delta after as many moves as the
/// longer axis is long, and not before.
pub proof fn lemma_central_walk_arrives(delta: Delta, k: nat)
    requires
        delta.wf(),
        k <= delta.major(),
    ensures
        0 <= central_walk(delta, k).first <= delta.x,
        0 <= central_walk(delta, k).second <= -delta.y,
        k == delta.major() <==> (central_walk(delta, k).first == delta.x && central_walk(
            delta,
            k,
        ).second == -delta.y),
    decreases delta.major() - k,
{
    let dx: int = delta.x as int;
    let dy: int = delta.y as int;
    let m: int = delta.major();
    lemma_walk_counts(delta, dx + dy, k);
    if delta.is_zero() {
    } else if k == m {
        lemma_central_walk(delta, k);
        let w = central_walk(delta, k);
        lemma_scaled_difference(m, w.first, dx);
        assert(dy * k == -((-dy) * m)) by (nonlinear_arith)
            requires
                k == m,
        ;
        lemma_scaled_difference(m, w.second, -dy);
    } else {
        lemma_central_walk(delta, k);
        lemma_central_walk_arrives(delta, k + 1);
        lemma_walk_counts(delta, dx + dy, k + 1);
    }
}

/// The central line ends at `p1`: its last point is `p1`, and no earlier
/// point is.
pub proof fn lemma_central_line_ends(p0: Point, p1: Point, k: nat)
    requires
        k <= central_moves(p0, p1),
    ensures
        central_point(p0, p1, k) == (p1.x as int, p1.y as int) <==> k == central_moves(p0, p1),
        magnitude(central_point(p0, p1, k).0 - p0.x) <= magnitude(p1.x - p0.x),
        magnitude(central_point(p0, p1, k).1 - p0.y) <= magnitude(p1.y - p0.y),
{
    let delta = Delta::of(p0, p1);
    let direction = Direction::of(p0, p1);
    let w = central_walk(delta, k);
    lemma_central_walk_arrives(delta, k);
    lemma_signed(direction.x as int, w.first);
    lemma_signed(direction.y as int, w.second);
}

/// On a segment that is longer along x than along y, the error of the
/// central walk never falls below half of `delta.x + 2 * delta.y`.
pub proof fn lemma_shallow_central_error(delta: Delta, k: nat)
    requires
        delta.wf(),
        delta.x > -delta.y,
    ensures
        2 * central_walk(delta, k).error >= delta.x + 2 * delta.y,
        moves_first(delta, central_walk(delta, k).error),
{
    lemma_shallow_walk(delta, delta.x + delta.y, k);
}

/// On a segment that is no longer along x than along y, the central walk is
/// on course.
pub proof fn lemma_steep_central_error(delta: Delta, k: nat)
    requires
        delta.wf(),
        !delta.is_zero(),
        delta.x <= -delta.y,
    ensures
        on_steep_course(delta, central_walk(delta, k).error),
        moves_second(delta, central_walk(delta, k).error),
{
    lemma_steep_walk(delta, delta.x + delta.y, k);
}

/// The central line moves from each of its points to the next as the move of
/// its walk says.
pub proof fn lemma_central_step(p0: Point, p1: Point, k: nat)
    ensures
        ({
            let delta = Delta::of(p0, p1);
            let direction = Direction::of(p0, p1);
            let error = central_walk(delta, k).error;
            let here = central_point(p0, p1, k);
            let next = central_point(p0, p1, k + 1);
            &&& central_walk(delta, k + 1).error == error_after(delta, error)
            &&& next.0 == here.0 + if moves_first(delta, error) {
                direction.x as int
            } else {
                0
            }
            &&& next.1 == here.1 + if moves_second(delta, error) {
                direction.y as int
            } else {
                0
            }
        }),
{
    let delta = Delta::of(p0, p1);
    let direction = Direction::of(p0, p1);
    let w = central_walk(delta, k);
    lemma_signed(direction.x as int, w.first);
    lemma_signed(direction.x as int, w.first + 1);
    lemma_signed(direction.y as int, w.second);
    lemma_signed(direction.y as int, w.second + 1);
}

} // verus!
