//! The length of a segment, by an integer square root, and the number of
//! steps a span takes to reach a half-width.
use vstd::prelude::*;
use crate::geometry::Delta;

verus! {

/// Whether `r` is the integer square root of `n`: the largest integer whose
/// square does not exceed `n`.
pub open spec fn is_sqrt_floor(n: int, r: int) -> bool {
    0 <= r && r * r <= n < (r + 1) * (r + 1)
}

/// The integer square root of `n`.
pub open spec fn sqrt_floor(n: int) -> int {
    choose|r: int| is_sqrt_floor(n, r)
}

proof fn lemma_square_monotone(r: int, s: int)
    by (nonlinear_arith)
    requires
        0 <= r <= s,
    ensures
        r * r <= s * s,
{
}

/// Every natural number has an integer square root.
pub proof fn lemma_sqrt_floor_exists(n: int)
    requires
        0 <= n,
    ensures
        is_sqrt_floor(n, sqrt_floor(n)),
    decreases n,
{
    if n == 0 {
        assert(is_sqrt_floor(0, 0));
    } else {
        lemma_sqrt_floor_exists(n - 1);
        let r: int = sqrt_floor(n - 1);
        if (r + 1) * (r + 1) <= n {
            assert((r + 2) * (r + 2) > (r + 1) * (r + 1)) by (nonlinear_arith)
                requires
                    0 <= r,
            ;
            assert(is_sqrt_floor(n, r + 1));
        } else {
            assert(is_sqrt_floor(n, r));
        }
    }
}

/// The integer square root is unique.
pub proof fn lemma_sqrt_floor_unique(n: int, r: int)
    requires
        is_sqrt_floor(n, r),
    ensures
        sqrt_floor(n) == r,
{
    let s: int = sqrt_floor(n);
    assert(is_sqrt_floor(n, s));
    if s < r {
        lemma_square_monotone(s + 1, r);
    } else if r < s {
        lemma_square_monotone(r + 1, s);
    }
}

/// The integer square root of `n`, found by bisection.
pub fn isqrt(n: u128) -> (r: u64)
    ensures
        is_sqrt_floor(n as int, r as int),
        r == sqrt_floor(n as int),
{
    let mut lo: u128 = 0;
    let mut hi: u128 = 18446744073709551616;
    assert(hi * hi > n) by (nonlinear_arith)
        requires
            hi == 18446744073709551616u128,
            n <= u128::MAX,
    ;
    while hi - lo > 1
        invariant
            lo < hi <= 18446744073709551616,
            lo * lo <= n < hi * hi,
        decreases hi - lo,
    {
        let mid: u128 = lo + (hi - lo) / 2;
        assert(mid * mid <= u128::MAX) by (nonlinear_arith)
            requires
                mid <= 18446744073709551615u128,
        ;
        if mid * mid <= n {
            lo = mid;
        } else {
            hi = mid;
        }
    }
    proof {
        lemma_sqrt_floor_unique(n as int, lo as int);
    }
    lo as u64
}

/// The square of the length of a delta.
pub open spec fn length_squared(delta: Delta) -> int {
    delta.x * delta.x + delta.y * delta.y
}

/// The length of a delta, rounded down to an integer.
pub open spec fn segment_length(delta: Delta) -> int {
    sqrt_floor(length_squared(delta))
}

/// The number of steps a span takes away from the central line, on each
/// side, to reach the half-width `width` on a segment with this delta: the
/// longer axis of the delta times the half-width, counted in steps of the
/// segment's length and rounded up. A half-width that is not positive, and a
/// segment without length, give no step. A span ends by this count of its
/// steps alone; no threshold on a squared width is kept beside it.
pub open spec fn span_steps(delta: Delta, width: int) -> int {
    if width <= 0 || delta.is_zero() {
        0
    } else {
        (delta.major() * width + segment_length(delta) - 1) / segment_length(delta)
    }
}

proof fn lemma_length_bounds(x: int, y: int, major: int, len: int)
    by (nonlinear_arith)
    requires
        0 <= x,
        y <= 0,
        major == x || major == -y,
        major >= x,
        major >= -y,
        is_sqrt_floor(x * x + y * y, len),
    ensures
        major <= len <= x - y,
{
}

proof fn lemma_steps_bounds(major: int, width: int, len: int, steps: int)
    by (nonlinear_arith)
    requires
        1 <= major <= len,
        1 <= width,
        steps == (major * width + len - 1) / len,
    ensures
        1 <= steps <= width,
{
}

/// The length of a segment is at least its longer axis, and at most the sum
/// of both.
pub proof fn lemma_segment_length_bounds(delta: Delta)
    requires
        delta.wf(),
    ensures
        delta.major() <= segment_length(delta) <= delta.x - delta.y,
{
    let n: int = length_squared(delta);
    assert(0 <= n) by (nonlinear_arith)
        requires
            n == delta.x * delta.x + delta.y * delta.y,
    ;
    lemma_sqrt_floor_exists(n);
    lemma_length_bounds(delta.x as int, delta.y as int, delta.major(), segment_length(delta));
}

/// A span never takes more steps than the half-width asks for, and takes at
/// least one wherever the half-width is positive and the segment has a length.
pub proof fn lemma_span_steps_bounds(delta: Delta, width: int)
    requires
        delta.wf(),
    ensures
        0 <= span_steps(delta, width),
        width > 0 ==> span_steps(delta, width) <= width,
        width >= 1 && !delta.is_zero() ==> span_steps(delta, width) >= 1,
{
    if width >= 1 && !delta.is_zero() {
        lemma_segment_length_bounds(delta);
        lemma_steps_bounds(delta.major(), width, segment_length(delta), span_steps(delta, width));
    }
}

/// The length of a segment with the given delta, rounded down.
pub fn segment_len(delta: Delta) -> (len: u64)
    requires
        delta.wf(),
    ensures
        len == segment_length(delta),
{
    let x: u128 = delta.x as u128;
    let y: u128 = (-delta.y) as u128;
    assert(x * x <= 18446744065119617025 && y * y <= 18446744065119617025) by (nonlinear_arith)
        requires
            x <= 4294967295,
            y <= 4294967295,
    ;
    assert(y * y == delta.y * delta.y) by (nonlinear_arith)
        requires
            y == -delta.y,
    ;
    isqrt(x * x + y * y)
}

/// The number of steps a span takes on each side of the central line to reach
/// the half-width `width`.
pub fn count_span_steps(delta: Delta, width: i32) -> (steps: u64)
    requires
        delta.wf(),
    ensures
        steps == span_steps(delta, width as int),
        width > 0 ==> steps <= width,
{
    if width <= 0 || (delta.x == 0 && delta.y == 0) {
        return 0;
    }
    let len: u64 = segment_len(delta);
    let major: u64 = if delta.x >= -delta.y { delta.x as u64 } else { (-delta.y) as u64 };
    proof {
        lemma_segment_length_bounds(delta);
        lemma_span_steps_bounds(delta, width as int);
    }
    assert(major * (width as u64) <= 9223372030412324865) by (nonlinear_arith)
        requires
            major <= 4294967295,
            0 <= width <= 2147483647,
    ;
    (major * (width as u64) + len - 1) / len
}

} // verus!
