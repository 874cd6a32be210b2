//! The stepping rule that the central line and the spans share: an error
//! accumulator decides, move by move, along which axes a walk advances.
use vstd::prelude::*;
use crate::geometry::Delta;

verus! {

/// Whether a walk with this delta advances along its first axis when its
/// accumulated error is `error`.
pub open spec fn moves_first(delta: Delta, error: int) -> bool {
    2 * error > delta.y
}

/// Whether a walk with this delta advances along its second axis when its
/// accumulated error is `error`.
pub open spec fn moves_second(delta: Delta, error: int) -> bool {
    2 * error < delta.x
}

/// The error after one move: `delta.y` is added for a move along the first
/// axis and `delta.x` for a move along the second.
pub open spec fn error_after(delta: Delta, error: int) -> int {
    error + (if moves_first(delta, error) {
        delta.y as int
    } else {
        0
    }) + (if moves_second(delta, error) {
        delta.x as int
    } else {
        0
    })
}

/// How far a walk has come: the moves it has made along each axis, and its
/// accumulated error.
pub struct Progress {
    pub first: int,
    pub second: int,
    pub error: int,
}

/// The progress of a walk that started with the error `seed`, after `n` moves.
pub open spec fn walk(delta: Delta, seed: int, n: nat) -> Progress
    decreases n,
{
    if n == 0 {
        Progress { first: 0, second: 0, error: seed }
    } else {
        let before = walk(delta, seed, (n - 1) as nat);
        Progress {
            first: before.first + (if moves_first(delta, before.error) {
                1int
            } else {
                0
            }),
            second: before.second + (if moves_second(delta, before.error) {
                1int
            } else {
                0
            }),
            error: error_after(delta, before.error),
        }
    }
}

/// One move of a walk.
#[derive(Clone, Copy, Debug, PartialEq, Eq)]
pub struct Move {
    /// Whether the walk advances along its first axis.
    pub first: bool,
    /// Whether the walk advances along its second axis.
    pub second: bool,
    /// The accumulated error after the move.
    pub error: i64,
}

/// Decides one move of a walk from its accumulated error. Twice the error is
/// compared against both components of the delta; both axes may advance in
/// one move.
pub fn next_move(delta: Delta, error: i64) -> (m: Move)
    requires
        delta.wf(),
    ensures
        m.first == moves_first(delta, error as int),
        m.second == moves_second(delta, error as int),
        m.error == error_after(delta, error as int),
{
    let doubled: i128 = 2 * (error as i128);
    let first: bool = doubled > delta.y as i128;
    let second: bool = doubled < delta.x as i128;
    let mut next: i64 = error;
    if first {
        next = next + delta.y;
    }
    if second {
        next = next + delta.x;
    }
    Move { first, second, error: next }
}

/// In `n` moves a walk advances at most `n` times along each axis, never
/// backward, and at least `n` times along both taken together unless the
/// delta is zero. Its error is the seed plus `delta.y` for each move along
/// the first axis and `delta.x` for each move along the second.
pub proof fn lemma_walk_counts(delta: Delta, seed: int, n: nat)
    requires
        delta.wf(),
    ensures
        0 <= walk(delta, seed, n).first <= n,
        0 <= walk(delta, seed, n).second <= n,
        !delta.is_zero() ==> walk(delta, seed, n).first + walk(delta, seed, n).second >= n,
        walk(delta, seed, n).error == seed + delta.y * walk(delta, seed, n).first + delta.x
            * walk(delta, seed, n).second,
    decreases n,
{
    if n > 0 {
        lemma_walk_counts(delta, seed, (n - 1) as nat);
        let before = walk(delta, seed, (n - 1) as nat);
        let dx: int = delta.x as int;
        let dy: int = delta.y as int;
        assert(dy * (before.first + 1) == dy * before.first + dy) by (nonlinear_arith);
        assert(dx * (before.second + 1) == dx * before.second + dx) by (nonlinear_arith);
    }
}

/// A walk of `n + j` moves is a walk of `n` moves followed by a walk of `j`
/// moves that starts with the error the first one ended with.
pub proof fn lemma_walk_continues(delta: Delta, seed: int, n: nat, j: nat)
    ensures
        walk(delta, seed, n + j).first == walk(delta, seed, n).first + walk(
            delta,
            walk(delta, seed, n).error,
            j,
        ).first,
        walk(delta, seed, n + j).second == walk(delta, seed, n).second + walk(
            delta,
            walk(delta, seed, n).error,
            j,
        ).second,
        walk(delta, seed, n + j).error == walk(delta, walk(delta, seed, n).error, j).error,
    decreases j,
{
    if j > 0 {
        lemma_walk_continues(delta, seed, n, (j - 1) as nat);
        assert((n + j - 1) as nat == n + (j - 1) as nat);
    }
}

/// A walk of one move more is the first move followed by the walk that
/// starts with the error the first move leaves.
pub proof fn lemma_walk_unfolds(delta: Delta, seed: int, j: nat)
    ensures
        walk(delta, seed, j + 1).first == walk(delta, error_after(delta, seed), j).first + if moves_first(
            delta,
            seed,
        ) {
            1int
        } else {
            0
        },
        walk(delta, seed, j + 1).second == walk(delta, error_after(delta, seed), j).second
            + if moves_second(delta, seed) {
            1int
        } else {
            0
        },
        walk(delta, seed, j + 1).error == walk(delta, error_after(delta, seed), j).error,
{
    lemma_walk_continues(delta, seed, 1, j);
    assert(walk(delta, seed, 0) == (Progress { first: 0, second: 0, error: seed }));
    assert(walk(delta, seed, 1).error == error_after(delta, seed));
    assert((1 + j) as nat == j + 1);
}

/// The error of a walk stays in bounds: twice the error, once it lies
/// between `delta.x + 5 * delta.y` and `3 * delta.x + delta.y`, lies there
/// after every move.
pub proof fn lemma_walk_error_stays(delta: Delta, seed: int, n: nat)
    requires
        delta.wf(),
        delta.x + 5 * delta.y <= 2 * seed <= 3 * delta.x + delta.y,
    ensures
        delta.x + 5 * delta.y <= 2 * walk(delta, seed, n).error <= 3 * delta.x + delta.y,
    decreases n,
{
    if n > 0 {
        lemma_walk_error_stays(delta, seed, (n - 1) as nat);
    }
}

/// On a segment that is longer along x than along y, a walk whose error has
/// at least the least value that the error of the central walk takes moves
/// along its first axis every time.
pub proof fn lemma_shallow_walk(delta: Delta, seed: int, j: nat)
    requires
        delta.wf(),
        delta.x > -delta.y,
        2 * seed >= delta.x + 2 * delta.y,
    ensures
        walk(delta, seed, j).first == j,
        0 <= walk(delta, seed, j).second <= j,
        2 * walk(delta, seed, j).error >= delta.x + 2 * delta.y,
        moves_first(delta, walk(delta, seed, j).error),
    decreases j,
{
    if j > 0 {
        lemma_shallow_walk(delta, seed, (j - 1) as nat);
    }
}

/// Whether a walk with the error `error` keeps to the course of a segment
/// that is no longer along x than along y: from such an error it moves
/// along its second axis every time.
pub open spec fn on_steep_course(delta: Delta, error: int) -> bool {
    ||| delta.x < -delta.y && 2 * error <= 2 * delta.x + delta.y
    ||| delta.x == -delta.y && delta.x > 0 && error == 0
}

/// On a segment that is no longer along x than along y, a walk that is on
/// course stays on it and moves along its second axis every time.
pub proof fn lemma_steep_walk(delta: Delta, seed: int, j: nat)
    requires
        delta.wf(),
        on_steep_course(delta, seed),
    ensures
        walk(delta, seed, j).second == j,
        0 <= walk(delta, seed, j).first <= j,
        on_steep_course(delta, walk(delta, seed, j).error),
        moves_second(delta, walk(delta, seed, j).error),
    decreases j,
{
    if j > 0 {
        lemma_steep_walk(delta, seed, (j - 1) as nat);
    }
}

} // verus!
