//! What the loop filter does at the edges inside a macroblock.
//!
//! A macroblock's last two rows are filtered across vertical edges only, and its last two
//! columns across horizontal ones. So a step there shows what the filter does at one
//! interior edge.

use vstd::prelude::*;

use crate::deblock_laws::{lemma_disjoint, lemma_left_fits, lemma_top_fits};
use crate::filter_laws::{
    at, deblocked, disjoint, far_samples_stay, is_tap, lemma_deblocked_ext,
    simple_filter_moves_two, smoothed, taps, taps_fit, whole_pass, whole_simple_pass,
};
use crate::loop_filter::{
    chroma_filtered, inner_limits, normal_filtered, normal_pass, outer_limits, simple_filtered,
    simple_pass, FInfo, Limits,
};
use crate::margin::tap;

verus! {

/// Sample `c` of line `r` of the block at `off`.
pub open spec fn on_line(p: Seq<u8>, off: int, h: int, v: int, r: int, c: int) -> int {
    p[off + r * v + c * h] as int
}

/// Whether line `r` is a step: `a` before number `edge`, `b` from there on.
pub open spec fn is_step(
    p: Seq<u8>,
    off: int,
    h: int,
    v: int,
    r: int,
    lo: int,
    hi: int,
    edge: int,
    a: u8,
    b: u8,
) -> bool {
    forall|c: int| lo <= c < hi ==> #[trigger] on_line(p, off, h, v, r, c) == (if c < edge {
        a as int
    } else {
        b as int
    })
}

/// A flat edge stays.
proof fn lemma_flat(p: Seq<u8>, pos: int, step: int, limit: int, inner: int, hev: int, wide: bool, t: int)
    requires
        -4 <= t < 4,
        at(p, pos, step, -2) == at(p, pos, step, -1),
        at(p, pos, step, -1) == at(p, pos, step, 0),
        at(p, pos, step, 0) == at(p, pos, step, 1),
    ensures
        deblocked(p, pos, step, limit, inner, hev, wide, t) == at(p, pos, step, t),
        smoothed(p, pos, step, limit, t) == at(p, pos, step, t),
{
    reveal(deblocked);
    reveal(smoothed);
    let k = taps(p, pos, step);
    let v = at(p, pos, step, 0);
    assert(0 <= v <= 255);
    assert(k.own(t) == at(p, pos, step, t));
}

/// Whether `h` runs along lines and `v` from line to line, or the other way round.
spec fn across(h: int, v: int, n: int) -> bool {
    (h == 1 && n < v && 8 <= v || v == 1 && n < h && 8 <= h) && 8 <= n
}

proof fn lemma_across(h: int, v: int, n: int)
    requires
        across(h, v, n),
    ensures
        disjoint(h, v, n),
        1 <= h,
{
    if h == 1 {
        lemma_disjoint(v, n);
    } else {
        lemma_disjoint(h, n);
    }
}

proof fn lemma_same(h: int, v: int, n: int, d: int, e: int)
    requires
        across(h, v, n),
        -n < d < n,
        h == 1 ==> -v < e < v,
    ensures
        d * v == e * h ==> d == 0 && e == 0,
{
    if d * v == e * h {
        if h == 1 {
            assert(d == 0) by (nonlinear_arith)
                requires
                    d * v == e,
                    -v < e < v,
                    1 <= v,
            ;
        } else {
            assert(e == 0) by (nonlinear_arith)
                requires
                    d == e * h,
                    -h < d < h,
                    1 <= h,
            ;
        }
    }
}

proof fn lemma_apart(h: int, v: int, d: int, e: int)
    requires
        (h == 1 && -v < d < v && 1 <= v) || (v == 1 && -h < e < h && 1 <= h),
        d * h == e * v,
    ensures
        d == 0 && e == 0,
{
    if h == 1 && -v < d < v {
        assert(e == 0) by (nonlinear_arith)
            requires
                d == e * v,
                -v < d < v,
                1 <= v,
        ;
    } else {
        assert(d == 0) by (nonlinear_arith)
            requires
                d * h == e,
                -h < e < h,
                1 <= h,
        ;
    }
}

/// A pass along its own line: sample `c` of line `r`.
proof fn lemma_own(p: Seq<u8>, off: int, h: int, v: int, n: int, g: int, lim: Limits, six: bool, r: int, c: int)
    requires
        across(h, v, n),
        0 <= r < n,
        -4 <= c < n,
        0 <= g <= n - 4,
        h == 1 ==> c - g + 4 < v && g + 3 - c < v,
        taps_fit(p.len() as int, off + g * h, h, v, n),
        0 <= off + r * v + c * h < p.len(),
    ensures
        ({
            let q = normal_pass(p, off + g * h, h, v, n, lim, six);
            let k = off + r * v + c * h;
            &&& q.len() == p.len()
            &&& -4 <= c - g < 4 ==> q[k] == deblocked(p, off + g * h + r * v, h, lim.thresh as int, lim.ithresh as int, lim.hev_thresh as int, six, c - g)
            &&& !(-4 <= c - g < 4) ==> q[k] == p[k]
        }),
{
    lemma_across(h, v, n);
    whole_pass(p, off + g * h, h, v, n, lim, six);
    let k = off + r * v + c * h;
    assert(tap(off + g * h, r, v, c - g, h) == k) by (nonlinear_arith)
        requires
            tap(off + g * h, r, v, c - g, h) == off + g * h + r * v + (c - g) * h,
            k == off + r * v + c * h,
    ;
    if !(-4 <= c - g < 4) && is_tap(k, off + g * h, h, v, n) {
        let (i, t) = choose|i: int, t: int|
            0 <= i < n && -4 <= t < 4 && k == #[trigger] tap(off + g * h, i, v, t, h);
        lemma_same(h, v, n, i - r, c - g - t);
        assert((i - r) * v == (c - g - t) * h) by (nonlinear_arith)
            requires
                off + g * h + i * v + t * h == off + r * v + c * h,
        ;
    }
}

/// A pass across the lines leaves the last two of them alone.
proof fn lemma_cross(p: Seq<u8>, off: int, h: int, v: int, n: int, g: int, lim: Limits, six: bool, r: int, c: int)
    requires
        across(v, h, n),
        n - 2 <= r < n,
        -4 <= c < n,
        0 <= g <= n - 4,
        six ==> g == 0,
        h == 1 ==> n - c < v + 1,
        v == 1 ==> r - g + 4 < h,
        taps_fit(p.len() as int, off + g * v, v, h, n),
        0 <= off + r * v + c * h < p.len(),
    ensures
        normal_pass(p, off + g * v, v, h, n, lim, six).len() == p.len(),
        normal_pass(p, off + g * v, v, h, n, lim, six)[off + r * v + c * h] == p[off + r * v + c * h],
{
    lemma_across(v, h, n);
    whole_pass(p, off + g * v, v, h, n, lim, six);
    let k = off + r * v + c * h;
    let q = normal_pass(p, off + g * v, v, h, n, lim, six);
    assert(0 <= k < p.len());
    assert(!is_tap(k, off + g * v, v, h, n) ==> q[k] == p[k]);
    if is_tap(k, off + g * v, v, h, n) {
        let (i, t) = choose|i: int, t: int|
            0 <= i < n && -4 <= t < 4 && k == #[trigger] tap(off + g * v, i, h, t, v);
        assert((i - c) * h == (r - g - t) * v) by (nonlinear_arith)
            requires
                off + g * v + i * h + t * v == off + r * v + c * h,
        ;
        lemma_apart(h, v, i - c, r - g - t);
        assert(i == c && t == r - g);
        assert(k == off + g * v + i * h + t * v);
        assert(at(p, off + g * v + i * h, v, t) == p[k]);
        assert(t == 2 || t == 3);
        far_samples_stay(p, off + g * v + i * h, v, lim.thresh as int, lim.ithresh as int, lim.hev_thresh as int, six, t);
    }
}

/// A pass along its own line: sample `c` of line `r`.
proof fn lemma_simple_own(p: Seq<u8>, off: int, h: int, v: int, n: int, g: int, limit: int, r: int, c: int)
    requires
        across(h, v, n),
        0 <= r < n,
        -4 <= c < n,
        0 <= g <= n - 4,
        h == 1 ==> c - g + 4 < v && g + 3 - c < v,
        taps_fit(p.len() as int, off + g * h, h, v, n),
        0 <= off + r * v + c * h < p.len(),
    ensures
        ({
            let q = simple_pass(p, off + g * h, h, v, n, 2 * limit + 1);
            let k = off + r * v + c * h;
            &&& q.len() == p.len()
            &&& -4 <= c - g < 4 ==> q[k] == smoothed(p, off + g * h + r * v, h, limit, c - g)
            &&& !(-4 <= c - g < 4) ==> q[k] == p[k]
        }),
{
    lemma_across(h, v, n);
    whole_simple_pass(p, off + g * h, h, v, n, limit);
    let k = off + r * v + c * h;
    assert(tap(off + g * h, r, v, c - g, h) == k) by (nonlinear_arith)
        requires
            tap(off + g * h, r, v, c - g, h) == off + g * h + r * v + (c - g) * h,
            k == off + r * v + c * h,
    ;
    if !(-4 <= c - g < 4) && is_tap(k, off + g * h, h, v, n) {
        let (i, t) = choose|i: int, t: int|
            0 <= i < n && -4 <= t < 4 && k == #[trigger] tap(off + g * h, i, v, t, h);
        lemma_same(h, v, n, i - r, c - g - t);
        assert((i - r) * v == (c - g - t) * h) by (nonlinear_arith)
            requires
                off + g * h + i * v + t * h == off + r * v + c * h,
        ;
    }
}

/// A pass across the lines leaves the last two of them alone.
proof fn lemma_simple_cross(p: Seq<u8>, off: int, h: int, v: int, n: int, g: int, limit: int, r: int, c: int)
    requires
        across(v, h, n),
        n - 2 <= r < n,
        -4 <= c < n,
        0 <= g <= n - 4,
        h == 1 ==> n - c < v + 1,
        v == 1 ==> r - g + 4 < h,
        taps_fit(p.len() as int, off + g * v, v, h, n),
        0 <= off + r * v + c * h < p.len(),
    ensures
        simple_pass(p, off + g * v, v, h, n, 2 * limit + 1).len() == p.len(),
        simple_pass(p, off + g * v, v, h, n, 2 * limit + 1)[off + r * v + c * h] == p[off + r * v + c * h],
{
    lemma_across(v, h, n);
    whole_simple_pass(p, off + g * v, v, h, n, limit);
    let k = off + r * v + c * h;
    if is_tap(k, off + g * v, v, h, n) {
        let (i, t) = choose|i: int, t: int|
            0 <= i < n && -4 <= t < 4 && k == #[trigger] tap(off + g * v, i, h, t, v);
        assert((i - c) * h == (r - g - t) * v) by (nonlinear_arith)
            requires
                off + g * v + i * h + t * v == off + r * v + c * h,
        ;
        lemma_apart(h, v, i - c, r - g - t);
        assert(i == c && t == r - g);
        assert(k == off + g * v + i * h + t * v);
        assert(at(p, off + g * v + i * h, v, t) == p[k]);
        assert(t == 2 || t == 3);
        simple_filter_moves_two(p, off + g * v + i * h, v, limit, t);
    }
}

/// What becomes of a line with a step at an interior edge.
pub open spec fn stepped(
    y: Seq<u8>,
    off: int,
    h: int,
    v: int,
    r: int,
    edge: int,
    lim: Limits,
    c: int,
) -> int {
    if -4 <= c - edge < 4 {
        deblocked(y, off + r * v + edge * h, h, lim.thresh as int, lim.ithresh as int, lim.hev_thresh as int, false, c - edge)
    } else {
        on_line(y, off, h, v, r, c)
    }
}

/// Whether line `r` of `p` is where it should be: as in `y` before the pass at `edge`, as
/// that pass makes it after.
spec fn keeps(
    y: Seq<u8>,
    p: Seq<u8>,
    off: int,
    h: int,
    v: int,
    n: int,
    r: int,
    lo: int,
    edge: int,
    lim: Limits,
    done: bool,
) -> bool {
    &&& p.len() == y.len()
    &&& forall|c: int|
        lo <= c < n ==> #[trigger] on_line(p, off, h, v, r, c) == (if done {
            stepped(y, off, h, v, r, edge, lim, c)
        } else {
            on_line(y, off, h, v, r, c)
        })
}

/// A line with a step goes through the pass at `g`.
proof fn lemma_stage(
    y: Seq<u8>,
    p: Seq<u8>,
    off: int,
    h: int,
    v: int,
    n: int,
    r: int,
    lo: int,
    edge: int,
    a: u8,
    b: u8,
    lim: Limits,
    g: int,
    by: Limits, six: bool,
)
    requires
        across(h, v, n),
        0 <= r < n,
        lo == 0 || lo == -4,
        g % 4 == 0,
        edge % 4 == 0,
        0 <= g <= n - 4,
        g == 0 ==> lo == -4,
        4 <= edge <= n - 4,
        g == edge ==> by == lim && !six,
        h == 1 ==> n - g + 3 < v && g + 3 - lo < v,
        taps_fit(y.len() as int, off + g * h, h, v, n),
        forall|c: int| lo <= c < n ==> 0 <= off + r * v + #[trigger] (c * h) < y.len(),
        is_step(y, off, h, v, r, lo, n, edge, a, b),
        keeps(y, p, off, h, v, n, r, lo, edge, lim, g > edge),
    ensures
        keeps(y, normal_pass(p, off + g * h, h, v, n, by, six), off, h, v, n, r, lo, edge, lim, g >= edge),
{
    let q = normal_pass(p, off + g * h, h, v, n, by, six);
    let pos = off + g * h + r * v;
    far_samples_stay(y, off + r * v + edge * h, h, lim.thresh as int, lim.ithresh as int, lim.hev_thresh as int, false, 2);
    far_samples_stay(y, off + r * v + edge * h, h, lim.thresh as int, lim.ithresh as int, lim.hev_thresh as int, false, 3);
    assert forall|t: int| -4 <= t < 4 && lo <= g + t implies #[trigger] at(p, pos, h, t) == on_line(p, off, h, v, r, g + t) by {
        assert((g + t) * h == g * h + t * h) by (nonlinear_arith);
    }
    assert(lo <= g - 4);
    assert((edge + 2) * h == edge * h + 2 * h && (edge + 3) * h == edge * h + 3 * h) by (nonlinear_arith);
    assert(at(y, off + r * v + edge * h, h, 2) == on_line(y, off, h, v, r, edge + 2));
    assert(at(y, off + r * v + edge * h, h, 3) == on_line(y, off, h, v, r, edge + 3));
    assert forall|c: int| lo <= c < n implies #[trigger] on_line(q, off, h, v, r, c) == (if g >= edge {
        stepped(y, off, h, v, r, edge, lim, c)
    } else {
        on_line(y, off, h, v, r, c)
    }) by {
        assert(0 <= off + r * v + c * h < y.len());
        lemma_own(p, off, h, v, n, g, by, six, r, c);
        assert(on_line(p, off, h, v, r, c) == p[off + r * v + c * h]);
        if -4 <= c - g < 4 {
            if g == edge {
                assert(edge * h == g * h);
                assert forall|u: int| -4 <= u < 4 implies #[trigger] at(p, pos, h, u) == at(y, pos, h, u) by {
                    assert(on_line(p, off, h, v, r, g + u) == on_line(y, off, h, v, r, g + u));
                    assert((g + u) * h == g * h + u * h) by (nonlinear_arith);
                }
                lemma_deblocked_ext(p, y, pos, h, by.thresh as int, by.ithresh as int, by.hev_thresh as int, six, c - g);
            } else {
                assert(on_line(p, off, h, v, r, g - 2) == on_line(y, off, h, v, r, g - 2));
                assert(on_line(p, off, h, v, r, g - 1) == on_line(y, off, h, v, r, g - 1));
                assert(on_line(p, off, h, v, r, g) == on_line(y, off, h, v, r, g));
                assert(on_line(p, off, h, v, r, g + 1) == on_line(y, off, h, v, r, g + 1));
                assert(at(p, pos, h, -2) == at(p, pos, h, -1) && at(p, pos, h, -1) == at(p, pos, h, 0) && at(p, pos, h, 0) == at(p, pos, h, 1));
                lemma_flat(p, pos, h, by.thresh as int, by.ithresh as int, by.hev_thresh as int, six, c - g);
                assert(at(p, pos, h, c - g) == on_line(p, off, h, v, r, g + (c - g)));
            }
        }
    }
    lemma_own(p, off, h, v, n, g, by, six, r, 0);
}

/// A line goes through a pass across the lines.
proof fn lemma_cross_stage(
    y: Seq<u8>,
    p: Seq<u8>,
    off: int,
    h: int,
    v: int,
    n: int,
    r: int,
    lo: int,
    edge: int,
    lim: Limits,
    g: int,
    by: Limits, six: bool,
    done: bool,
)
    requires
        across(v, h, n),
        n - 2 <= r < n,
        lo == 0 || lo == -4,
        0 <= g <= n - 4,
        six ==> g == 0,
        h == 1 ==> n - lo < v + 1,
        v == 1 ==> r - g + 4 < h,
        taps_fit(y.len() as int, off + g * v, v, h, n),
        forall|c: int| lo <= c < n ==> 0 <= off + r * v + #[trigger] (c * h) < y.len(),
        keeps(y, p, off, h, v, n, r, lo, edge, lim, done),
    ensures
        keeps(y, normal_pass(p, off + g * v, v, h, n, by, six), off, h, v, n, r, lo, edge, lim, done),
{
    let q = normal_pass(p, off + g * v, v, h, n, by, six);
    assert forall|c: int| lo <= c < n implies #[trigger] on_line(q, off, h, v, r, c) == on_line(p, off, h, v, r, c) by {
        assert(0 <= off + r * v + c * h < y.len());
        lemma_cross(p, off, h, v, n, g, by, six, r, c);
    }
    assert(0 <= off + r * v + 0 * h < y.len());
    lemma_cross(p, off, h, v, n, g, by, six, r, 0);
}

/// What becomes of a line with a step at an interior edge.
pub open spec fn simple_stepped(
    y: Seq<u8>,
    off: int,
    h: int,
    v: int,
    r: int,
    edge: int,
    limit: int,
    c: int,
) -> int {
    if -4 <= c - edge < 4 {
        smoothed(y, off + r * v + edge * h, h, limit, c - edge)
    } else {
        on_line(y, off, h, v, r, c)
    }
}

/// Whether line `r` of `p` is where it should be: as in `y` before the pass at `edge`, as
/// that pass makes it after.
spec fn simple_keeps(
    y: Seq<u8>,
    p: Seq<u8>,
    off: int,
    h: int,
    v: int,
    n: int,
    r: int,
    lo: int,
    edge: int,
    limit: int,
    done: bool,
) -> bool {
    &&& p.len() == y.len()
    &&& forall|c: int|
        lo <= c < n ==> #[trigger] on_line(p, off, h, v, r, c) == (if done {
            simple_stepped(y, off, h, v, r, edge, limit, c)
        } else {
            on_line(y, off, h, v, r, c)
        })
}

/// A line with a step goes through the pass at `g`.
proof fn lemma_simple_stage(
    y: Seq<u8>,
    p: Seq<u8>,
    off: int,
    h: int,
    v: int,
    n: int,
    r: int,
    lo: int,
    edge: int,
    a: u8,
    b: u8,
    limit: int,
    g: int,
    by: int,
)
    requires
        across(h, v, n),
        0 <= r < n,
        lo == 0 || lo == -4,
        g % 4 == 0,
        edge % 4 == 0,
        0 <= g <= n - 4,
        g == 0 ==> lo == -4,
        4 <= edge <= n - 4,
        g == edge ==> by == limit,
        h == 1 ==> n - g + 3 < v && g + 3 - lo < v,
        taps_fit(y.len() as int, off + g * h, h, v, n),
        forall|c: int| lo <= c < n ==> 0 <= off + r * v + #[trigger] (c * h) < y.len(),
        is_step(y, off, h, v, r, lo, n, edge, a, b),
        simple_keeps(y, p, off, h, v, n, r, lo, edge, limit, g > edge),
    ensures
        simple_keeps(y, simple_pass(p, off + g * h, h, v, n, 2 * by + 1), off, h, v, n, r, lo, edge, limit, g >= edge),
{
    let q = simple_pass(p, off + g * h, h, v, n, 2 * by + 1);
    let pos = off + g * h + r * v;
    
    assert forall|t: int| -4 <= t < 4 && lo <= g + t implies #[trigger] at(p, pos, h, t) == on_line(p, off, h, v, r, g + t) by {
        assert((g + t) * h == g * h + t * h) by (nonlinear_arith);
    }
    simple_filter_moves_two(y, off + r * v + edge * h, h, limit, 2);
    simple_filter_moves_two(y, off + r * v + edge * h, h, limit, 3);
    assert(lo <= g - 4);
    assert((edge + 2) * h == edge * h + 2 * h && (edge + 3) * h == edge * h + 3 * h) by (nonlinear_arith);
    assert(at(y, off + r * v + edge * h, h, 2) == on_line(y, off, h, v, r, edge + 2));
    assert(at(y, off + r * v + edge * h, h, 3) == on_line(y, off, h, v, r, edge + 3));
    assert forall|c: int| lo <= c < n implies #[trigger] on_line(q, off, h, v, r, c) == (if g >= edge {
        simple_stepped(y, off, h, v, r, edge, limit, c)
    } else {
        on_line(y, off, h, v, r, c)
    }) by {
        assert(0 <= off + r * v + c * h < y.len());
        lemma_simple_own(p, off, h, v, n, g, by, r, c);
        assert(on_line(p, off, h, v, r, c) == p[off + r * v + c * h]);
        if -4 <= c - g < 4 {
            if g == edge {
                assert(edge * h == g * h);
                assert forall|u: int| -4 <= u < 4 implies #[trigger] at(p, pos, h, u) == at(y, pos, h, u) by {
                    assert(on_line(p, off, h, v, r, g + u) == on_line(y, off, h, v, r, g + u));
                    assert((g + u) * h == g * h + u * h) by (nonlinear_arith);
                }
                lemma_deblocked_ext(p, y, pos, h, by, 0, 0, false, c - g);
            } else {
                assert(on_line(p, off, h, v, r, g - 2) == on_line(y, off, h, v, r, g - 2));
                assert(on_line(p, off, h, v, r, g - 1) == on_line(y, off, h, v, r, g - 1));
                assert(on_line(p, off, h, v, r, g) == on_line(y, off, h, v, r, g));
                assert(on_line(p, off, h, v, r, g + 1) == on_line(y, off, h, v, r, g + 1));
                assert(at(p, pos, h, -2) == at(p, pos, h, -1) && at(p, pos, h, -1) == at(p, pos, h, 0) && at(p, pos, h, 0) == at(p, pos, h, 1));
                lemma_flat(p, pos, h, by, 0, 0, false, c - g);
                assert(at(p, pos, h, c - g) == on_line(p, off, h, v, r, g + (c - g)));
            }
        }
    }
    lemma_simple_own(p, off, h, v, n, g, by, r, 0);
}

/// A line goes through a pass across the lines.
proof fn lemma_simple_cross_stage(
    y: Seq<u8>,
    p: Seq<u8>,
    off: int,
    h: int,
    v: int,
    n: int,
    r: int,
    lo: int,
    edge: int,
    limit: int,
    g: int,
    by: int,
    done: bool,
)
    requires
        across(v, h, n),
        n - 2 <= r < n,
        lo == 0 || lo == -4,
        0 <= g <= n - 4,
        
        h == 1 ==> n - lo < v + 1,
        v == 1 ==> r - g + 4 < h,
        taps_fit(y.len() as int, off + g * v, v, h, n),
        forall|c: int| lo <= c < n ==> 0 <= off + r * v + #[trigger] (c * h) < y.len(),
        simple_keeps(y, p, off, h, v, n, r, lo, edge, limit, done),
    ensures
        simple_keeps(y, simple_pass(p, off + g * v, v, h, n, 2 * by + 1), off, h, v, n, r, lo, edge, limit, done),
{
    let q = simple_pass(p, off + g * v, v, h, n, 2 * by + 1);
    assert forall|c: int| lo <= c < n implies #[trigger] on_line(q, off, h, v, r, c) == on_line(p, off, h, v, r, c) by {
        assert(0 <= off + r * v + c * h < y.len());
        lemma_simple_cross(p, off, h, v, n, g, by, r, c);
    }
    assert(0 <= off + r * v + 0 * h < y.len());
    lemma_simple_cross(p, off, h, v, n, g, by, r, 0);
}

/// The samples of a pass at an interior edge lie in the plane.
proof fn lemma_inner_fits(len: int, off: int, stride: int, n: int, g: int)
    requires
        8 <= n < stride,
        0 <= off,
        4 <= g <= n - 4,
        off + (n - 1) * stride + n <= len,
    ensures
        taps_fit(len, off + g * 1, 1, stride, n),
        taps_fit(len, off + g * stride, stride, 1, n),
{
    assert forall|i: int, t: int| 0 <= i < n && -4 <= t < 4 implies 0 <= #[trigger] tap(
        off + g * 1,
        i,
        stride,
        t,
        1,
    ) < len by {
        assert(0 <= i * stride <= (n - 1) * stride) by (nonlinear_arith)
            requires
                0 <= i <= n - 1,
                0 <= stride,
        ;
    }
    assert forall|i: int, t: int| 0 <= i < n && -4 <= t < 4 implies 0 <= #[trigger] tap(
        off + g * stride,
        i,
        1,
        t,
        stride,
    ) < len by {
        assert(0 <= g * stride + t * stride <= (n - 1) * stride) by (nonlinear_arith)
            requires
                0 <= g + t <= n - 1,
                0 <= stride,
        ;
    }
}

/// The samples of a line lie in the plane.
proof fn lemma_line_inside(len: int, off: int, stride: int, n: int, r: int, c: int)
    requires
        1 <= n < stride,
        0 <= r < n,
        -4 <= c < n,
        off + (n - 1) * stride + n <= len,
    ensures
        (c >= 0 || off >= 4) && off >= 0 ==> 0 <= off + r * stride + c * 1 < len,
        (c >= 0 || off >= 4 * stride) && off >= 0 ==> 0 <= off + r * 1 + c * stride < len,
{
    assert(0 <= r * stride <= (n - 1) * stride) by (nonlinear_arith)
        requires
            0 <= r <= n - 1,
            0 <= stride,
    ;
    if c >= 0 {
        assert(0 <= c * stride <= (n - 1) * stride) by (nonlinear_arith)
            requires
                0 <= c <= n - 1,
                0 <= stride,
        ;
    } else {
        assert(-4 * stride <= c * stride <= 0) by (nonlinear_arith)
            requires
                -4 <= c <= 0,
                0 <= stride,
        ;
    }
}

/// A step in the last two rows or columns of a luma macroblock, at one of its interior
/// edges, is spread by the normal filter as [`deblocked`] says of an interior edge, and
/// the rest of the row or column stays.
pub proof fn interior_edges_are_deblocked(
    y: Seq<u8>,
    off: int,
    stride: int,
    left: bool,
    top: bool,
    info: FInfo,
    row: bool,
    r: int,
    edge: int,
    a: u8,
    b: u8,
)
    requires
        21 <= stride,
        0 <= off,
        left ==> 4 <= off,
        top ==> 4 * stride <= off,
        off + 15 * stride + 16 <= y.len(),
        info.f_limit != 0,
        -900000 <= info.f_limit <= 900000,
        info.f_inner,
        r == 14 || r == 15,
        edge == 4 || edge == 8 || edge == 12,
        is_step(
            y,
            off,
            if row {
                1
            } else {
                stride
            },
            if row {
                stride
            } else {
                1
            },
            r,
            if (row && left) || (!row && top) {
                -4
            } else {
                0
            },
            16,
            edge,
            a,
            b,
        ),
    ensures
        ({
            let h = if row {
                1
            } else {
                stride
            };
            let v = if row {
                stride
            } else {
                1
            };
            let q = normal_filtered(y, off, stride, left, top, info);
            forall|c: int|
                0 <= c < 16 ==> #[trigger] on_line(q, off, h, v, r, c) == stepped(
                    y,
                    off,
                    h,
                    v,
                    r,
                    edge,
                    inner_limits(info),
                    c,
                )
        }),
{
    let len = y.len() as int;
    let q = normal_filtered(y, off, stride, left, top, info);
    let lo = if (row && left) || (!row && top) {
        -4int
    } else {
        0int
    };
    lemma_inner_fits(len, off, stride, 16, 4);
    lemma_inner_fits(len, off, stride, 16, 8);
    lemma_inner_fits(len, off, stride, 16, 12);
    if row {
        let h = 1int;
        let v = stride;
        assert forall|c: int| lo <= c < 16 implies 0 <= off + r * v + #[trigger] (c * h) < len by {
            lemma_line_inside(len, off, stride, 16, r, c);
        }
        let p1 = if left {
            lemma_left_fits(len, off, stride, 16);
            assert(off + 0 * h == off && off + 0 * v == off);
            lemma_stage(y, y, off, h, v, 16, r, lo, edge, a, b, inner_limits(info), 0, outer_limits(info), true);
            normal_pass(y, off + 0 * 1, 1, stride, 16, outer_limits(info), true)
        } else {
            y
        };
        lemma_stage(y, p1, off, h, v, 16, r, lo, edge, a, b, inner_limits(info), 4, inner_limits(info), false);
        let p2 = normal_pass(p1, off + 4 * 1, 1, stride, 16, inner_limits(info), false);
        lemma_stage(y, p2, off, h, v, 16, r, lo, edge, a, b, inner_limits(info), 8, inner_limits(info), false);
        let p3 = normal_pass(p2, off + 8 * 1, 1, stride, 16, inner_limits(info), false);
        lemma_stage(y, p3, off, h, v, 16, r, lo, edge, a, b, inner_limits(info), 12, inner_limits(info), false);
        let p4 = normal_pass(p3, off + 12 * 1, 1, stride, 16, inner_limits(info), false);
        let p5 = if top {
            lemma_top_fits(len, off, stride, 16);
            assert(off + 0 * h == off && off + 0 * v == off);
            lemma_cross_stage(y, p4, off, h, v, 16, r, lo, edge, inner_limits(info), 0, outer_limits(info), true, true);
            normal_pass(p4, off + 0 * stride, stride, 1, 16, outer_limits(info), true)
        } else {
            p4
        };
        lemma_cross_stage(y, p5, off, h, v, 16, r, lo, edge, inner_limits(info), 4, inner_limits(info), false, true);
        let p6 = normal_pass(p5, off + 4 * stride, stride, 1, 16, inner_limits(info), false);
        lemma_cross_stage(y, p6, off, h, v, 16, r, lo, edge, inner_limits(info), 8, inner_limits(info), false, true);
        let p7 = normal_pass(p6, off + 8 * stride, stride, 1, 16, inner_limits(info), false);
        lemma_cross_stage(y, p7, off, h, v, 16, r, lo, edge, inner_limits(info), 12, inner_limits(info), false, true);
        let p8 = normal_pass(p7, off + 12 * stride, stride, 1, 16, inner_limits(info), false);
        assert(p8 == q);
        assert forall|c: int| 0 <= c < 16 implies #[trigger] on_line(q, off, h, v, r, c) == stepped(y, off, h, v, r, edge, inner_limits(info), c) by {}
    } else {
        let h = stride;
        let v = 1int;
        assert forall|c: int| lo <= c < 16 implies 0 <= off + r * v + #[trigger] (c * h) < len by {
            lemma_line_inside(len, off, stride, 16, r, c);
        }
        let p1 = if left {
            lemma_left_fits(len, off, stride, 16);
            assert(off + 0 * h == off && off + 0 * v == off);
            lemma_cross_stage(y, y, off, h, v, 16, r, lo, edge, inner_limits(info), 0, outer_limits(info), true, false);
            normal_pass(y, off + 0 * 1, 1, stride, 16, outer_limits(info), true)
        } else {
            y
        };
        lemma_cross_stage(y, p1, off, h, v, 16, r, lo, edge, inner_limits(info), 4, inner_limits(info), false, false);
        let p2 = normal_pass(p1, off + 4 * 1, 1, stride, 16, inner_limits(info), false);
        lemma_cross_stage(y, p2, off, h, v, 16, r, lo, edge, inner_limits(info), 8, inner_limits(info), false, false);
        let p3 = normal_pass(p2, off + 8 * 1, 1, stride, 16, inner_limits(info), false);
        lemma_cross_stage(y, p3, off, h, v, 16, r, lo, edge, inner_limits(info), 12, inner_limits(info), false, false);
        let p4 = normal_pass(p3, off + 12 * 1, 1, stride, 16, inner_limits(info), false);
        let p5 = if top {
            lemma_top_fits(len, off, stride, 16);
            assert(off + 0 * h == off && off + 0 * v == off);
            lemma_stage(y, p4, off, h, v, 16, r, lo, edge, a, b, inner_limits(info), 0, outer_limits(info), true);
            normal_pass(p4, off + 0 * stride, stride, 1, 16, outer_limits(info), true)
        } else {
            p4
        };
        lemma_stage(y, p5, off, h, v, 16, r, lo, edge, a, b, inner_limits(info), 4, inner_limits(info), false);
        let p6 = normal_pass(p5, off + 4 * stride, stride, 1, 16, inner_limits(info), false);
        lemma_stage(y, p6, off, h, v, 16, r, lo, edge, a, b, inner_limits(info), 8, inner_limits(info), false);
        let p7 = normal_pass(p6, off + 8 * stride, stride, 1, 16, inner_limits(info), false);
        lemma_stage(y, p7, off, h, v, 16, r, lo, edge, a, b, inner_limits(info), 12, inner_limits(info), false);
        let p8 = normal_pass(p7, off + 12 * stride, stride, 1, 16, inner_limits(info), false);
        assert(p8 == q);
        assert forall|c: int| 0 <= c < 16 implies #[trigger] on_line(q, off, h, v, r, c) == stepped(y, off, h, v, r, edge, inner_limits(info), c) by {}
    }
}

/// A step in the last two rows or columns of a chroma block, at its interior edge, is
/// spread by the normal filter as [`deblocked`] says of an interior edge, and the rest of
/// the row or column stays.
pub proof fn interior_chroma_edges_are_deblocked(
    y: Seq<u8>,
    off: int,
    stride: int,
    left: bool,
    top: bool,
    info: FInfo,
    row: bool,
    r: int,
    edge: int,
    a: u8,
    b: u8,
)
    requires
        9 <= stride,
        0 <= off,
        left ==> 4 <= off && 17 <= stride,
        top ==> 4 * stride <= off,
        off + 7 * stride + 8 <= y.len(),
        info.f_limit != 0,
        -900000 <= info.f_limit <= 900000,
        info.f_inner,
        r == 6 || r == 7,
        edge == 4,
        is_step(
            y,
            off,
            if row {
                1
            } else {
                stride
            },
            if row {
                stride
            } else {
                1
            },
            r,
            if (row && left) || (!row && top) {
                -4
            } else {
                0
            },
            8,
            edge,
            a,
            b,
        ),
    ensures
        ({
            let h = if row {
                1
            } else {
                stride
            };
            let v = if row {
                stride
            } else {
                1
            };
            let q = chroma_filtered(y, off, stride, left, top, info);
            forall|c: int|
                0 <= c < 8 ==> #[trigger] on_line(q, off, h, v, r, c) == stepped(
                    y,
                    off,
                    h,
                    v,
                    r,
                    edge,
                    inner_limits(info),
                    c,
                )
        }),
{
    let len = y.len() as int;
    let q = chroma_filtered(y, off, stride, left, top, info);
    let lo = if (row && left) || (!row && top) {
        -4int
    } else {
        0int
    };
    lemma_inner_fits(len, off, stride, 8, 4);
    if row {
        let h = 1int;
        let v = stride;
        assert forall|c: int| lo <= c < 8 implies 0 <= off + r * v + #[trigger] (c * h) < len by {
            lemma_line_inside(len, off, stride, 8, r, c);
        }
        let p1 = if left {
            lemma_left_fits(len, off, stride, 8);
            assert(off + 0 * h == off && off + 0 * v == off);
            lemma_stage(y, y, off, h, v, 8, r, lo, edge, a, b, inner_limits(info), 0, outer_limits(info), true);
            normal_pass(y, off + 0 * 1, 1, stride, 8, outer_limits(info), true)
        } else {
            y
        };
        lemma_stage(y, p1, off, h, v, 8, r, lo, edge, a, b, inner_limits(info), 4, inner_limits(info), false);
        let p2 = normal_pass(p1, off + 4 * 1, 1, stride, 8, inner_limits(info), false);
        let p3 = if top {
            lemma_top_fits(len, off, stride, 8);
            assert(off + 0 * h == off && off + 0 * v == off);
            lemma_cross_stage(y, p2, off, h, v, 8, r, lo, edge, inner_limits(info), 0, outer_limits(info), true, true);
            normal_pass(p2, off + 0 * stride, stride, 1, 8, outer_limits(info), true)
        } else {
            p2
        };
        lemma_cross_stage(y, p3, off, h, v, 8, r, lo, edge, inner_limits(info), 4, inner_limits(info), false, true);
        let p4 = normal_pass(p3, off + 4 * stride, stride, 1, 8, inner_limits(info), false);
        assert(p4 == q);
        assert forall|c: int| 0 <= c < 8 implies #[trigger] on_line(q, off, h, v, r, c) == stepped(y, off, h, v, r, edge, inner_limits(info), c) by {}
    } else {
        let h = stride;
        let v = 1int;
        assert forall|c: int| lo <= c < 8 implies 0 <= off + r * v + #[trigger] (c * h) < len by {
            lemma_line_inside(len, off, stride, 8, r, c);
        }
        let p1 = if left {
            lemma_left_fits(len, off, stride, 8);
            assert(off + 0 * h == off && off + 0 * v == off);
            lemma_cross_stage(y, y, off, h, v, 8, r, lo, edge, inner_limits(info), 0, outer_limits(info), true, false);
            normal_pass(y, off + 0 * 1, 1, stride, 8, outer_limits(info), true)
        } else {
            y
        };
        lemma_cross_stage(y, p1, off, h, v, 8, r, lo, edge, inner_limits(info), 4, inner_limits(info), false, false);
        let p2 = normal_pass(p1, off + 4 * 1, 1, stride, 8, inner_limits(info), false);
        let p3 = if top {
            lemma_top_fits(len, off, stride, 8);
            assert(off + 0 * h == off && off + 0 * v == off);
            lemma_stage(y, p2, off, h, v, 8, r, lo, edge, a, b, inner_limits(info), 0, outer_limits(info), true);
            normal_pass(p2, off + 0 * stride, stride, 1, 8, outer_limits(info), true)
        } else {
            p2
        };
        lemma_stage(y, p3, off, h, v, 8, r, lo, edge, a, b, inner_limits(info), 4, inner_limits(info), false);
        let p4 = normal_pass(p3, off + 4 * stride, stride, 1, 8, inner_limits(info), false);
        assert(p4 == q);
        assert forall|c: int| 0 <= c < 8 implies #[trigger] on_line(q, off, h, v, r, c) == stepped(y, off, h, v, r, edge, inner_limits(info), c) by {}
    }
}

/// A step in the last two rows or columns of a luma macroblock, at one of its interior
/// edges, is lessened by the simple filter as [`smoothed`] says, and the rest of the row or
/// column stays.
pub proof fn interior_edges_are_smoothed(
    y: Seq<u8>,
    off: int,
    stride: int,
    left: bool,
    top: bool,
    info: FInfo,
    row: bool,
    r: int,
    edge: int,
    a: u8,
    b: u8,
)
    requires
        21 <= stride,
        0 <= off,
        left ==> 4 <= off,
        top ==> 4 * stride <= off,
        off + 15 * stride + 16 <= y.len(),
        info.f_limit != 0,
        -900000 <= info.f_limit <= 900000,
        info.f_inner,
        r == 14 || r == 15,
        edge == 4 || edge == 8 || edge == 12,
        is_step(
            y,
            off,
            if row {
                1
            } else {
                stride
            },
            if row {
                stride
            } else {
                1
            },
            r,
            if (row && left) || (!row && top) {
                -4
            } else {
                0
            },
            16,
            edge,
            a,
            b,
        ),
    ensures
        ({
            let h = if row {
                1
            } else {
                stride
            };
            let v = if row {
                stride
            } else {
                1
            };
            let q = simple_filtered(y, off, stride, left, top, info);
            forall|c: int|
                0 <= c < 16 ==> #[trigger] on_line(q, off, h, v, r, c) == simple_stepped(
                    y,
                    off,
                    h,
                    v,
                    r,
                    edge,
                    info.f_limit as int,
                    c,
                )
        }),
{
    let len = y.len() as int;
    let q = simple_filtered(y, off, stride, left, top, info);
    let lo = if (row && left) || (!row && top) {
        -4int
    } else {
        0int
    };
    lemma_inner_fits(len, off, stride, 16, 4);
    lemma_inner_fits(len, off, stride, 16, 8);
    lemma_inner_fits(len, off, stride, 16, 12);
    if row {
        let h = 1int;
        let v = stride;
        assert forall|c: int| lo <= c < 16 implies 0 <= off + r * v + #[trigger] (c * h) < len by {
            lemma_line_inside(len, off, stride, 16, r, c);
        }
        let p1 = if left {
            lemma_left_fits(len, off, stride, 16);
            assert(off + 0 * h == off && off + 0 * v == off);
            lemma_simple_stage(y, y, off, h, v, 16, r, lo, edge, a, b, info.f_limit as int, 0, info.f_limit + 4);
            simple_pass(y, off + 0 * 1, 1, stride, 16, 2 * (info.f_limit + 4) + 1)
        } else {
            y
        };
        lemma_simple_stage(y, p1, off, h, v, 16, r, lo, edge, a, b, info.f_limit as int, 4, info.f_limit as int);
        let p2 = simple_pass(p1, off + 4 * 1, 1, stride, 16, 2 * info.f_limit + 1);
        lemma_simple_stage(y, p2, off, h, v, 16, r, lo, edge, a, b, info.f_limit as int, 8, info.f_limit as int);
        let p3 = simple_pass(p2, off + 8 * 1, 1, stride, 16, 2 * info.f_limit + 1);
        lemma_simple_stage(y, p3, off, h, v, 16, r, lo, edge, a, b, info.f_limit as int, 12, info.f_limit as int);
        let p4 = simple_pass(p3, off + 12 * 1, 1, stride, 16, 2 * info.f_limit + 1);
        let p5 = if top {
            lemma_top_fits(len, off, stride, 16);
            assert(off + 0 * h == off && off + 0 * v == off);
            lemma_simple_cross_stage(y, p4, off, h, v, 16, r, lo, edge, info.f_limit as int, 0, info.f_limit + 4, true);
            simple_pass(p4, off + 0 * stride, stride, 1, 16, 2 * (info.f_limit + 4) + 1)
        } else {
            p4
        };
        lemma_simple_cross_stage(y, p5, off, h, v, 16, r, lo, edge, info.f_limit as int, 4, info.f_limit as int, true);
        let p6 = simple_pass(p5, off + 4 * stride, stride, 1, 16, 2 * info.f_limit + 1);
        lemma_simple_cross_stage(y, p6, off, h, v, 16, r, lo, edge, info.f_limit as int, 8, info.f_limit as int, true);
        let p7 = simple_pass(p6, off + 8 * stride, stride, 1, 16, 2 * info.f_limit + 1);
        lemma_simple_cross_stage(y, p7, off, h, v, 16, r, lo, edge, info.f_limit as int, 12, info.f_limit as int, true);
        let p8 = simple_pass(p7, off + 12 * stride, stride, 1, 16, 2 * info.f_limit + 1);
        assert(p8 == q);
        assert forall|c: int| 0 <= c < 16 implies #[trigger] on_line(q, off, h, v, r, c) == simple_stepped(y, off, h, v, r, edge, info.f_limit as int, c) by {}
    } else {
        let h = stride;
        let v = 1int;
        assert forall|c: int| lo <= c < 16 implies 0 <= off + r * v + #[trigger] (c * h) < len by {
            lemma_line_inside(len, off, stride, 16, r, c);
        }
        let p1 = if left {
            lemma_left_fits(len, off, stride, 16);
            assert(off + 0 * h == off && off + 0 * v == off);
            lemma_simple_cross_stage(y, y, off, h, v, 16, r, lo, edge, info.f_limit as int, 0, info.f_limit + 4, false);
            simple_pass(y, off + 0 * 1, 1, stride, 16, 2 * (info.f_limit + 4) + 1)
        } else {
            y
        };
        lemma_simple_cross_stage(y, p1, off, h, v, 16, r, lo, edge, info.f_limit as int, 4, info.f_limit as int, false);
        let p2 = simple_pass(p1, off + 4 * 1, 1, stride, 16, 2 * info.f_limit + 1);
        lemma_simple_cross_stage(y, p2, off, h, v, 16, r, lo, edge, info.f_limit as int, 8, info.f_limit as int, false);
        let p3 = simple_pass(p2, off + 8 * 1, 1, stride, 16, 2 * info.f_limit + 1);
        lemma_simple_cross_stage(y, p3, off, h, v, 16, r, lo, edge, info.f_limit as int, 12, info.f_limit as int, false);
        let p4 = simple_pass(p3, off + 12 * 1, 1, stride, 16, 2 * info.f_limit + 1);
        let p5 = if top {
            lemma_top_fits(len, off, stride, 16);
            assert(off + 0 * h == off && off + 0 * v == off);
            lemma_simple_stage(y, p4, off, h, v, 16, r, lo, edge, a, b, info.f_limit as int, 0, info.f_limit + 4);
            simple_pass(p4, off + 0 * stride, stride, 1, 16, 2 * (info.f_limit + 4) + 1)
        } else {
            p4
        };
        lemma_simple_stage(y, p5, off, h, v, 16, r, lo, edge, a, b, info.f_limit as int, 4, info.f_limit as int);
        let p6 = simple_pass(p5, off + 4 * stride, stride, 1, 16, 2 * info.f_limit + 1);
        lemma_simple_stage(y, p6, off, h, v, 16, r, lo, edge, a, b, info.f_limit as int, 8, info.f_limit as int);
        let p7 = simple_pass(p6, off + 8 * stride, stride, 1, 16, 2 * info.f_limit + 1);
        lemma_simple_stage(y, p7, off, h, v, 16, r, lo, edge, a, b, info.f_limit as int, 12, info.f_limit as int);
        let p8 = simple_pass(p7, off + 12 * stride, stride, 1, 16, 2 * info.f_limit + 1);
        assert(p8 == q);
        assert forall|c: int| 0 <= c < 16 implies #[trigger] on_line(q, off, h, v, r, c) == simple_stepped(y, off, h, v, r, edge, info.f_limit as int, c) by {}
    }
}

} // verus!
