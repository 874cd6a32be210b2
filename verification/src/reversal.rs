//! Drawing a segment from its other end: when the same places are written.
use vstd::prelude::*;
use vstd::arithmetic::div_mod::{lemma_fundamental_div_mod, lemma_fundamental_div_mod_converse};
use crate::aligned::{level_line_is_a_bar, upright_line_is_a_bar};
use crate::central::{
    central_moves, central_point, central_walk, lemma_central_walk, lemma_central_walk_arrives,
};
use crate::geometry::{lemma_signed, Delta, Direction, Point};
use crate::length::span_steps;
use crate::line::thick_line_plots;
use crate::pixel::plotted;
use crate::region::{in_spans, lemma_thick_line_region, on_central_line};

verus! {

/// Whether `n / m` lies exactly halfway between two integers.
pub open spec fn halfway(n: int, m: int) -> bool {
    (2 * n) % (2 * m) == m
}

/// Whether the ideal line of a segment with this delta passes exactly
/// halfway between two pixels at one of the steps of its longer axis. There
/// the central line has to choose, and it chooses the pixel nearer the end
/// from which it is walked.
pub open spec fn has_tie(delta: Delta) -> bool {
    !delta.is_zero() && exists|k: nat|
        k <= delta.major() && (#[trigger] halfway(delta.x * k, delta.major()) || halfway(
            -delta.y * k,
            delta.major(),
        ))
}

/// Whether the segment from `p0` to `p1`, drawn with the half-width `width`,
/// fills the same places from either end: it runs along an axis, or it is
/// drawn without thickness and its ideal line is nowhere halfway between two
/// pixels.
pub open spec fn reversible(p0: Point, p1: Point, width: int) -> bool {
    p0.x == p1.x || p0.y == p1.y || (width <= 0 && !has_tie(Delta::of(p0, p1)))
}

proof fn lemma_not_halfway(n: int, m: int, r: int)
    requires
        m > 0,
        !halfway(n, m),
    ensures
        2 * (m * r - n) != m,
        2 * (m * r - n) != -m,
{
    if 2 * (m * r - n) == m {
        assert((r - 1) * (2 * m) + m == 2 * n) by (nonlinear_arith)
            requires
                2 * (m * r - n) == m,
        ;
        lemma_fundamental_div_mod_converse(2 * n, 2 * m, r - 1, m);
    }
    if 2 * (m * r - n) == -m {
        assert(r * (2 * m) + m == 2 * n) by (nonlinear_arith)
            requires
                2 * (m * r - n) == -m,
        ;
        lemma_fundamental_div_mod_converse(2 * n, 2 * m, r, m);
    }
}

proof fn lemma_mirrored_share(m: int, extent: int, k: int, forward: int, backward: int)
    by (nonlinear_arith)
    requires
        m > 0,
        -m < 2 * (m * forward - extent * k) < m,
        -m < 2 * (m * backward - extent * (m - k)) < m,
    ensures
        forward + backward == extent,
{
}

/// Where no tie has to be broken, the central walk is its own mirror image:
/// what it has covered after `k` moves it has left to cover `k` moves before
/// its end.
pub proof fn lemma_central_walk_mirrors(delta: Delta, k: nat)
    requires
        delta.wf(),
        !delta.is_zero(),
        !has_tie(delta),
        k <= delta.major(),
    ensures
        central_walk(delta, k).first + central_walk(delta, (delta.major() - k) as nat).first
            == delta.x,
        central_walk(delta, k).second + central_walk(delta, (delta.major() - k) as nat).second
            == -delta.y,
{
    let m: int = delta.major();
    let back: nat = (m - k) as nat;
    let w = central_walk(delta, k);
    let v = central_walk(delta, back);
    lemma_central_walk(delta, k);
    lemma_central_walk(delta, back);
    assert(!halfway(delta.x * k, m) && !halfway(-delta.y * k, m));
    assert(!halfway(delta.x * back, m) && !halfway(-delta.y * back, m));
    lemma_not_halfway(delta.x * k, m, w.first);
    lemma_not_halfway(delta.x * back, m, v.first);
    lemma_not_halfway(-delta.y * k, m, w.second);
    lemma_not_halfway(-delta.y * back, m, v.second);
    assert(-delta.y * k == -(delta.y * k) && -delta.y * back == -(delta.y * back))
        by (nonlinear_arith);
    assert(delta.x * back == delta.x * (m - k) && (-delta.y) * back == (-delta.y) * (m - k));
    lemma_mirrored_share(m, delta.x as int, k as int, w.first, v.first);
    lemma_mirrored_share(m, -delta.y, k as int, w.second, v.second);
}

/// Where no tie has to be broken, the central line from `p1` to `p0` is the
/// central line from `p0` to `p1` walked backward.
pub proof fn central_line_reverses(p0: Point, p1: Point, k: nat)
    requires
        !has_tie(Delta::of(p0, p1)),
        k <= central_moves(p0, p1),
    ensures
        central_moves(p1, p0) == central_moves(p0, p1),
        central_point(p1, p0, k) == central_point(p0, p1, (central_moves(p0, p1) - k) as nat),
{
    let delta = Delta::of(p0, p1);
    assert(Delta::of(p1, p0) == delta);
    let forth = Direction::of(p0, p1);
    let back = Direction::of(p1, p0);
    let last = central_moves(p0, p1);
    let w = central_walk(delta, k);
    let v = central_walk(delta, (last - k) as nat);
    lemma_central_walk_arrives(delta, k);
    lemma_central_walk_arrives(delta, (last - k) as nat);
    if !delta.is_zero() {
        lemma_central_walk_mirrors(delta, k);
    }
    lemma_signed(forth.x as int, v.first);
    lemma_signed(forth.y as int, v.second);
    lemma_signed(back.x as int, w.first);
    lemma_signed(back.y as int, w.second);
}

/// The two ends of a reversible segment can change places: drawn from `p1`
/// to `p0` the segment fills the places that it fills drawn from `p0` to
/// `p1`.
pub proof fn ends_are_interchangeable<C>(
    p0: Point,
    p1: Point,
    width: int,
    primary: C,
    secondary: C,
    at: (int, int),
)
    requires
        reversible(p0, p1, width),
    ensures
        plotted(thick_line_plots(p0, p1, width, primary, secondary), at) <==> plotted(
            thick_line_plots(p1, p0, width, primary, secondary),
            at,
        ),
{
    lemma_thick_line_region(p0, p1, width, primary, secondary, at);
    lemma_thick_line_region(p1, p0, width, primary, secondary, at);
    if p0.y == p1.y {
        level_line_is_a_bar(p0, p1, width, at);
        level_line_is_a_bar(p1, p0, width, at);
    } else if p0.x == p1.x {
        upright_line_is_a_bar(p0, p1, width, at);
        upright_line_is_a_bar(p1, p0, width, at);
    } else {
        let delta = Delta::of(p0, p1);
        assert(Delta::of(p1, p0) == delta);
        let last = central_moves(p0, p1);
        assert(span_steps(delta, width) == 0);
        assert(!in_spans(p0, p1, 0, at));
        assert(!in_spans(p1, p0, 0, at));
        if on_central_line(p0, p1, at) {
            let k: nat = choose|k: nat| k <= last && #[trigger] central_point(p0, p1, k) == at;
            central_line_reverses(p0, p1, (last - k) as nat);
            assert(central_point(p1, p0, (last - k) as nat) == at);
        }
        if on_central_line(p1, p0, at) {
            let k: nat = choose|k: nat| k <= last && #[trigger] central_point(p1, p0, k) == at;
            central_line_reverses(p0, p1, k);
            assert(central_point(p0, p1, (last - k) as nat) == at);
        }
    }
}

/// Where `n / m` lies exactly halfway between two integers, rounding it to
/// the nearest integer with a half rounded down gives the lower of the two.
proof fn lemma_tie_goes_down(n: int, m: int, r: int)
    requires
        m > 0,
        halfway(n, m),
        -m <= 2 * (m * r - n) < m,
    ensures
        2 * (m * r - n) == -m,
{
    let q: int = (2 * n) / (2 * m);
    lemma_fundamental_div_mod(2 * n, 2 * m);
    assert(r == q) by (nonlinear_arith)
        requires
            m > 0,
            2 * n == (2 * m) * q + m,
            -m <= 2 * (m * r - n) < m,
    ;
    assert(2 * (m * r - n) == -m) by (nonlinear_arith)
        requires
            2 * n == (2 * m) * r + m,
    ;
}

/// What is halfway between two integers counted from one end is halfway
/// between two integers counted from the other.
proof fn lemma_tie_mirrors(extent: int, k: int, m: int)
    requires
        m > 0,
        halfway(extent * k, m),
    ensures
        halfway(extent * (m - k), m),
{
    let q: int = (2 * (extent * k)) / (2 * m);
    lemma_fundamental_div_mod(2 * (extent * k), 2 * m);
    assert((extent - q - 1) * (2 * m) + m == 2 * (extent * (m - k))) by (nonlinear_arith)
        requires
            2 * (extent * k) == (2 * m) * q + m,
    ;
    lemma_fundamental_div_mod_converse(2 * (extent * (m - k)), 2 * m, extent - q - 1, m);
}

proof fn lemma_tie_shares(m: int, extent: int, k: int, forward: int, backward: int)
    by (nonlinear_arith)
    requires
        m > 0,
        2 * (m * forward - extent * k) == -m,
        2 * (m * backward - extent * (m - k)) == -m,
    ensures
        forward + backward == extent - 1,
{
}

/// Where a tie has to be broken, the central line from `p0` to `p1` has a
/// point that the central line from `p1` to `p0` does not have: drawn without
/// thickness, the segment does not fill the same places from either end.
pub proof fn tie_tells_the_ends_apart<C>(
    p0: Point,
    p1: Point,
    width: int,
    primary: C,
    secondary: C,
) -> (at: (int, int))
    requires
        width <= 0,
        has_tie(Delta::of(p0, p1)),
    ensures
        plotted(thick_line_plots(p0, p1, width, primary, secondary), at),
        !plotted(thick_line_plots(p1, p0, width, primary, secondary), at),
{
    let delta = Delta::of(p0, p1);
    assert(Delta::of(p1, p0) == delta);
    let forth = Direction::of(p0, p1);
    let back = Direction::of(p1, p0);
    let m: int = delta.major();
    let last = central_moves(p0, p1);
    let k: nat = choose|k: nat|
        k <= delta.major() && (#[trigger] halfway(delta.x * k, delta.major()) || halfway(
            -delta.y * k,
            delta.major(),
        ));
    let w = central_walk(delta, k);
    let v = central_walk(delta, (m - k) as nat);
    let at = central_point(p0, p1, k);
    lemma_central_walk(delta, k);
    lemma_central_walk(delta, (m - k) as nat);
    assert(-delta.y * k == -(delta.y * k)) by (nonlinear_arith);
    assert(-delta.y * (m - k) == -(delta.y * (m - k))) by (nonlinear_arith);
    if halfway(delta.x * k, m) {
        lemma_tie_goes_down(delta.x * k, m, w.first);
        lemma_tie_mirrors(delta.x as int, k as int, m);
        lemma_tie_goes_down(delta.x * (m - k), m, v.first);
        lemma_tie_shares(m, delta.x as int, k as int, w.first, v.first);
    } else {
        lemma_tie_goes_down(-delta.y * k, m, w.second);
        lemma_tie_mirrors(-delta.y, k as int, m);
        lemma_tie_goes_down(-delta.y * (m - k), m, v.second);
        lemma_tie_shares(m, -delta.y, k as int, w.second, v.second);
    }
    assert(delta.x > 0 && delta.y < 0) by {
        if delta.x == 0 {
            assert(0 * k == 0) by (nonlinear_arith);
            assert(w.first == 0 && v.first == 0) by (nonlinear_arith)
                requires
                    m > 0,
                    -m <= 2 * (m * w.first - 0) < m,
                    -m <= 2 * (m * v.first - 0) < m,
            ;
        }
        if delta.y == 0 {
            assert(0 * k == 0) by (nonlinear_arith);
            assert(w.second == 0 && v.second == 0) by (nonlinear_arith)
                requires
                    m > 0,
                    -m <= 2 * (m * w.second + 0) < m,
                    -m <= 2 * (m * v.second + 0) < m,
            ;
        }
    }
    assert forall|i: nat| i <= last implies #[trigger] central_point(p1, p0, i) != at by {
        let u = central_walk(delta, i);
        lemma_central_walk(delta, i);
        lemma_signed(forth.x as int, w.first);
        lemma_signed(forth.y as int, w.second);
        lemma_signed(back.x as int, u.first);
        lemma_signed(back.y as int, u.second);
    }
    lemma_thick_line_region(p0, p1, width, primary, secondary, at);
    lemma_thick_line_region(p1, p0, width, primary, secondary, at);
    assert(span_steps(delta, width) == 0);
    assert(!in_spans(p1, p0, 0, at));
    assert(k <= last && central_point(p0, p1, k) == at);
    at
}

} // verus!
