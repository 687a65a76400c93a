//! What the loop filter does to the samples across an edge.
//!
//! Everything is said of samples: `tap` `t` of a position counts from the edge, so that
//! -1 is the last sample before it and 0 the first behind it.

use vstd::prelude::*;

use crate::loop_filter::{
    filter2_spec, filter4_spec, filter6_spec, hev_spec, needs_filter2_spec, needs_filter_spec,
    normal_edge, normal_pass, simple_edge, simple_pass, Limits,
};
use crate::margin::tap;

verus! {

/// `v`, or the nearer end of `lo..=hi`.
pub open spec fn limited(v: int, lo: int, hi: int) -> int {
    if v < lo {
        lo
    } else if v > hi {
        hi
    } else {
        v
    }
}

/// How far apart two samples are.
pub open spec fn apart(a: int, b: int) -> int {
    if a < b {
        b - a
    } else {
        a - b
    }
}

/// Tap `t` of the edge position `pos`.
pub open spec fn at(p: Seq<u8>, pos: int, step: int, t: int) -> int {
    p[pos + t * step] as int
}

/// The eight samples across an edge.
pub struct Taps {
    /// The fourth before the edge.
    pub p3: int,
    /// The third before the edge.
    pub p2: int,
    /// The second before the edge.
    pub p1: int,
    /// The last before the edge.
    pub p0: int,
    /// The first behind the edge.
    pub q0: int,
    /// The second behind the edge.
    pub q1: int,
    /// The third behind the edge.
    pub q2: int,
    /// The fourth behind the edge.
    pub q3: int,
}

/// The taps of the edge position `pos`.
pub open spec fn taps(p: Seq<u8>, pos: int, step: int) -> Taps {
    Taps {
        p3: at(p, pos, step, -4),
        p2: at(p, pos, step, -3),
        p1: at(p, pos, step, -2),
        p0: at(p, pos, step, -1),
        q0: at(p, pos, step, 0),
        q1: at(p, pos, step, 1),
        q2: at(p, pos, step, 2),
        q3: at(p, pos, step, 3),
    }
}

impl Taps {
    /// Tap `t`.
    pub open spec fn own(self, t: int) -> int {
        if t == -4 {
            self.p3
        } else if t == -3 {
            self.p2
        } else if t == -2 {
            self.p1
        } else if t == -1 {
            self.p0
        } else if t == 0 {
            self.q0
        } else if t == 1 {
            self.q1
        } else if t == 2 {
            self.q2
        } else {
            self.q3
        }
    }

    /// Whether the step across the edge is within `limit`.
    pub open spec fn small(self, limit: int) -> bool {
        4 * apart(self.p0, self.q0) + apart(self.p1, self.q1) <= 2 * limit + 1
    }

    /// Whether no two neighbours on either side are more than `inner` apart.
    pub open spec fn smooth(self, inner: int) -> bool {
        &&& apart(self.p3, self.p2) <= inner
        &&& apart(self.p2, self.p1) <= inner
        &&& apart(self.p1, self.p0) <= inner
        &&& apart(self.q3, self.q2) <= inner
        &&& apart(self.q2, self.q1) <= inner
        &&& apart(self.q1, self.q0) <= inner
    }

    /// Whether the edge is a real boundary of the picture.
    pub open spec fn sharp(self, hev: int) -> bool {
        apart(self.p1, self.p0) > hev || apart(self.q1, self.q0) > hev
    }

    /// The step across the edge, thrice, and what is beside it.
    pub open spec fn jump(self) -> int {
        3 * (self.q0 - self.p0) + limited(self.p1 - self.q1, -128, 127)
    }

    /// Tap `t` after the two samples next to the edge moved toward each other.
    pub open spec fn nudged(self, t: int) -> int {
        if t == -1 {
            limited(self.p0 + limited((self.jump() + 3) / 8, -16, 15), 0, 255)
        } else if t == 0 {
            limited(self.q0 - limited((self.jump() + 4) / 8, -16, 15), 0, 255)
        } else {
            self.own(t)
        }
    }

    /// Tap `t` after the step is spread over three samples on either side, 27, 18 and 9
    /// parts in 128.
    pub open spec fn spread3(self, t: int) -> int {
        let w = limited(self.jump(), -128, 127);
        if t == -3 {
            limited(self.p2 + (9 * w + 63) / 128, 0, 255)
        } else if t == -2 {
            limited(self.p1 + (18 * w + 63) / 128, 0, 255)
        } else if t == -1 {
            limited(self.p0 + (27 * w + 63) / 128, 0, 255)
        } else if t == 0 {
            limited(self.q0 - (27 * w + 63) / 128, 0, 255)
        } else if t == 1 {
            limited(self.q1 - (18 * w + 63) / 128, 0, 255)
        } else if t == 2 {
            limited(self.q2 - (9 * w + 63) / 128, 0, 255)
        } else {
            self.own(t)
        }
    }

    /// Tap `t` after the step is spread over two samples on either side.
    pub open spec fn spread2(self, t: int) -> int {
        let d = 3 * (self.q0 - self.p0);
        let half = (limited((d + 4) / 8, -16, 15) + 1) / 2;
        if t == -2 {
            limited(self.p1 + half, 0, 255)
        } else if t == -1 {
            limited(self.p0 + limited((d + 3) / 8, -16, 15), 0, 255)
        } else if t == 0 {
            limited(self.q0 - limited((d + 4) / 8, -16, 15), 0, 255)
        } else if t == 1 {
            limited(self.q1 - half, 0, 255)
        } else {
            self.own(t)
        }
    }

    /// Tap `t` after the normal filter: nothing unless the edge is smooth and its step
    /// small; a real boundary moves by its two nearest samples; else a macroblock edge
    /// (`wide`) spreads the step over three samples on either side, an interior edge over
    /// two.
    pub open spec fn deblocked(self, limit: int, inner: int, hev: int, wide: bool, t: int) -> int {
        if !(self.small(limit) && self.smooth(inner)) {
            self.own(t)
        } else if self.sharp(hev) {
            self.nudged(t)
        } else if wide {
            self.spread3(t)
        } else {
            self.spread2(t)
        }
    }
}

/// Tap `t` of a position after the normal filter.
#[verifier::opaque]
pub open spec fn deblocked(
    p: Seq<u8>,
    pos: int,
    step: int,
    limit: int,
    inner: int,
    hev: int,
    wide: bool,
    t: int,
) -> int {
    taps(p, pos, step).deblocked(limit, inner, hev, wide, t)
}

/// Tap `t` of a position after the simple filter: the two samples next to the edge move
/// toward each other if the step is small.
#[verifier::opaque]
pub open spec fn smoothed(p: Seq<u8>, pos: int, step: int, limit: int, t: int) -> int {
    if taps(p, pos, step).small(limit) {
        taps(p, pos, step).nudged(t)
    } else {
        taps(p, pos, step).own(t)
    }
}

/// The taps of a position depend on nothing but themselves.
pub proof fn lemma_deblocked_ext(
    p: Seq<u8>,
    q: Seq<u8>,
    pos: int,
    step: int,
    limit: int,
    inner: int,
    hev: int,
    wide: bool,
    t: int,
)
    requires
        -4 <= t < 4,
        forall|u: int| -4 <= u < 4 ==> #[trigger] at(p, pos, step, u) == at(q, pos, step, u),
    ensures
        deblocked(p, pos, step, limit, inner, hev, wide, t) == deblocked(
            q,
            pos,
            step,
            limit,
            inner,
            hev,
            wide,
            t,
        ),
        smoothed(p, pos, step, limit, t) == smoothed(q, pos, step, limit, t),
{
    reveal(deblocked);
    reveal(smoothed);
    assert(at(p, pos, step, -4) == at(q, pos, step, -4));
    assert(at(p, pos, step, -3) == at(q, pos, step, -3));
    assert(at(p, pos, step, -2) == at(q, pos, step, -2));
    assert(at(p, pos, step, -1) == at(q, pos, step, -1));
    assert(at(p, pos, step, 0) == at(q, pos, step, 0));
    assert(at(p, pos, step, 1) == at(q, pos, step, 1));
    assert(at(p, pos, step, 2) == at(q, pos, step, 2));
    assert(at(p, pos, step, 3) == at(q, pos, step, 3));
}

/// The two samples farthest from an edge on either side stay, the third one too at an
/// interior edge.
pub proof fn far_samples_stay(
    p: Seq<u8>,
    pos: int,
    step: int,
    limit: int,
    inner: int,
    hev: int,
    wide: bool,
    t: int,
)
    requires
        t == -4 || t == 3 || (!wide && (t == -3 || t == 2)),
    ensures
        deblocked(p, pos, step, limit, inner, hev, wide, t) == at(p, pos, step, t),
{
    reveal(deblocked);
}

/// The simple filter moves the two samples next to an edge only.
pub proof fn simple_filter_moves_two(p: Seq<u8>, pos: int, step: int, limit: int, t: int)
    requires
        -4 <= t < 4,
        t != -1,
        t != 0,
    ensures
        smoothed(p, pos, step, limit, t) == at(p, pos, step, t),
{
    reveal(smoothed);
    assert(t == -4 || t == -3 || t == -2 || t == 1 || t == 2 || t == 3);
}

/// A macroblock edge between flat sides, a step of at most 42 within the limits, becomes a
/// ramp: the samples move toward each other by 54, 36 and 18 parts in 128 of the step.
pub proof fn steps_become_ramps(
    p: Seq<u8>,
    pos: int,
    step: int,
    limit: int,
    inner: int,
    hev: int,
    a: int,
    b: int,
)
    requires
        0 <= inner,
        0 <= hev,
        0 <= a <= 255,
        0 <= b <= 255,
        -42 <= b - a <= 42,
        5 * apart(a, b) <= 2 * limit + 1,
        forall|t: int| -4 <= t < 0 ==> #[trigger] at(p, pos, step, t) == a,
        forall|t: int| 0 <= t < 4 ==> #[trigger] at(p, pos, step, t) == b,
    ensures
        deblocked(p, pos, step, limit, inner, hev, true, -4) == a,
        deblocked(p, pos, step, limit, inner, hev, true, -3) == a + (18 * (b - a) + 63) / 128,
        deblocked(p, pos, step, limit, inner, hev, true, -2) == a + (36 * (b - a) + 63) / 128,
        deblocked(p, pos, step, limit, inner, hev, true, -1) == a + (54 * (b - a) + 63) / 128,
        deblocked(p, pos, step, limit, inner, hev, true, 0) == b - (54 * (b - a) + 63) / 128,
        deblocked(p, pos, step, limit, inner, hev, true, 1) == b - (36 * (b - a) + 63) / 128,
        deblocked(p, pos, step, limit, inner, hev, true, 2) == b - (18 * (b - a) + 63) / 128,
        deblocked(p, pos, step, limit, inner, hev, true, 3) == b,
{
    reveal(deblocked);
    assert(at(p, pos, step, -4) == a && at(p, pos, step, -3) == a && at(p, pos, step, -2) == a
        && at(p, pos, step, -1) == a);
    assert(at(p, pos, step, 0) == b && at(p, pos, step, 1) == b && at(p, pos, step, 2) == b && at(
        p,
        pos,
        step,
        3,
    ) == b);
}

/// The conditions and kernels of the filter, sample by sample.
proof fn lemma_kernels(k: Taps, limit: int, inner: int, hev: int)
    requires
        0 <= k.p3 <= 255,
        0 <= k.p2 <= 255,
        0 <= k.p1 <= 255,
        0 <= k.p0 <= 255,
        0 <= k.q0 <= 255,
        0 <= k.q1 <= 255,
        0 <= k.q2 <= 255,
        0 <= k.q3 <= 255,
    ensures
        needs_filter2_spec(
            k.p3,
            k.p2,
            k.p1,
            k.p0,
            k.q0,
            k.q1,
            k.q2,
            k.q3,
            2 * limit + 1,
            inner,
        ) == (k.small(limit) && k.smooth(inner)),
        needs_filter_spec(k.p1, k.p0, k.q0, k.q1, 2 * limit + 1) == k.small(limit),
        hev_spec(k.p1, k.p0, k.q0, k.q1, hev) == k.sharp(hev),
        filter2_spec(k.p1, k.p0, k.q0, k.q1).0 == k.nudged(-1),
        filter2_spec(k.p1, k.p0, k.q0, k.q1).1 == k.nudged(0),
{
}

proof fn lemma_kernel4(k: Taps)
    requires
        0 <= k.p1 <= 255,
        0 <= k.p0 <= 255,
        0 <= k.q0 <= 255,
        0 <= k.q1 <= 255,
    ensures
        filter4_spec(k.p1, k.p0, k.q0, k.q1).0 == k.spread2(-2),
        filter4_spec(k.p1, k.p0, k.q0, k.q1).1 == k.spread2(-1),
        filter4_spec(k.p1, k.p0, k.q0, k.q1).2 == k.spread2(0),
        filter4_spec(k.p1, k.p0, k.q0, k.q1).3 == k.spread2(1),
{
}

proof fn lemma_kernel6(k: Taps)
    requires
        0 <= k.p2 <= 255,
        0 <= k.p1 <= 255,
        0 <= k.p0 <= 255,
        0 <= k.q0 <= 255,
        0 <= k.q1 <= 255,
        0 <= k.q2 <= 255,
    ensures
        filter6_spec(k.p2, k.p1, k.p0, k.q0, k.q1, k.q2).0 == k.spread3(-3),
        filter6_spec(k.p2, k.p1, k.p0, k.q0, k.q1, k.q2).1 == k.spread3(-2),
        filter6_spec(k.p2, k.p1, k.p0, k.q0, k.q1, k.q2).2 == k.spread3(-1),
        filter6_spec(k.p2, k.p1, k.p0, k.q0, k.q1, k.q2).3 == k.spread3(0),
        filter6_spec(k.p2, k.p1, k.p0, k.q0, k.q1, k.q2).4 == k.spread3(1),
        filter6_spec(k.p2, k.p1, k.p0, k.q0, k.q1, k.q2).5 == k.spread3(2),
{
}

/// A plane whose taps at a position are replaced.
#[verifier::opaque]
spec fn with_taps(p: Seq<u8>, pos: int, step: int, q: Seq<u8>, k: Taps) -> bool {
    &&& q.len() == p.len()
    &&& q[pos - 4 * step] == k.p3
    &&& q[pos - 3 * step] == k.p2
    &&& q[pos - 2 * step] == k.p1
    &&& q[pos - step] == k.p0
    &&& q[pos] == k.q0
    &&& q[pos + step] == k.q1
    &&& q[pos + 2 * step] == k.q2
    &&& q[pos + 3 * step] == k.q3
    &&& forall|i: int|
        0 <= i < p.len() && i != pos - 4 * step && i != pos - 3 * step && i != pos - 2 * step && i
            != pos - step && i != pos && i != pos + step && i != pos + 2 * step && i != pos + 3 * step
            ==> #[trigger] q[i] == p[i]
}

/// What the taps become.
#[verifier::opaque]
spec fn after(k: Taps, limit: int, inner: int, hev: int, wide: bool) -> Taps {
    Taps {
        p3: k.deblocked(limit, inner, hev, wide, -4),
        p2: k.deblocked(limit, inner, hev, wide, -3),
        p1: k.deblocked(limit, inner, hev, wide, -2),
        p0: k.deblocked(limit, inner, hev, wide, -1),
        q0: k.deblocked(limit, inner, hev, wide, 0),
        q1: k.deblocked(limit, inner, hev, wide, 1),
        q2: k.deblocked(limit, inner, hev, wide, 2),
        q3: k.deblocked(limit, inner, hev, wide, 3),
    }
}

/// What the taps become, in terms of the kernels.
proof fn lemma_after(k: Taps, limit: int, inner: int, hev: int, wide: bool)
    requires
        0 <= k.p3 <= 255,
        0 <= k.p2 <= 255,
        0 <= k.p1 <= 255,
        0 <= k.p0 <= 255,
        0 <= k.q0 <= 255,
        0 <= k.q1 <= 255,
        0 <= k.q2 <= 255,
        0 <= k.q3 <= 255,
    ensures
        ({
            let r = after(k, limit, inner, hev, wide);
            if !needs_filter2_spec(
                k.p3,
                k.p2,
                k.p1,
                k.p0,
                k.q0,
                k.q1,
                k.q2,
                k.q3,
                2 * limit + 1,
                inner,
            ) {
                r == k
            } else if hev_spec(k.p1, k.p0, k.q0, k.q1, hev) {
                let (a, b) = filter2_spec(k.p1, k.p0, k.q0, k.q1);
                r == (Taps { p0: a as int, q0: b as int, ..k })
            } else if wide {
                let (a, b, c, d, e, f) = filter6_spec(k.p2, k.p1, k.p0, k.q0, k.q1, k.q2);
                r == (Taps {
                    p2: a as int,
                    p1: b as int,
                    p0: c as int,
                    q0: d as int,
                    q1: e as int,
                    q2: f as int,
                    ..k
                })
            } else {
                let (a, b, c, d) = filter4_spec(k.p1, k.p0, k.q0, k.q1);
                r == (Taps { p1: a as int, p0: b as int, q0: c as int, q1: d as int, ..k })
            }
        }),
{
    reveal(after);
    lemma_kernels(k, limit, inner, hev);
    lemma_kernel4(k);
    lemma_kernel6(k);
}

/// Replacing up to six taps.
proof fn lemma_put(plane: Seq<u8>, pos: int, step: int, k: Taps, v: (u8, u8, u8, u8, u8, u8))
    requires
        1 <= step,
        4 * step <= pos,
        pos + 3 * step < plane.len(),
        k == taps(plane, pos, step),
    ensures
        with_taps(plane, pos, step, plane, k),
        with_taps(
            plane,
            pos,
            step,
            plane.update(pos - step, v.2).update(pos, v.3),
            Taps { p0: v.2 as int, q0: v.3 as int, ..k },
        ),
        with_taps(
            plane,
            pos,
            step,
            plane.update(pos - 2 * step, v.1).update(pos - step, v.2).update(pos, v.3).update(
                pos + step,
                v.4,
            ),
            Taps { p1: v.1 as int, p0: v.2 as int, q0: v.3 as int, q1: v.4 as int, ..k },
        ),
        with_taps(
            plane,
            pos,
            step,
            plane.update(pos - 3 * step, v.0).update(pos - 2 * step, v.1).update(
                pos - step,
                v.2,
            ).update(pos, v.3).update(pos + step, v.4).update(pos + 2 * step, v.5),
            Taps {
                p2: v.0 as int,
                p1: v.1 as int,
                p0: v.2 as int,
                q0: v.3 as int,
                q1: v.4 as int,
                q2: v.5 as int,
                ..k
            },
        ),
{
    reveal(with_taps);
    assert(at(plane, pos, step, -4) == plane[pos - 4 * step]);
    assert(at(plane, pos, step, -3) == plane[pos - 3 * step]);
    assert(at(plane, pos, step, -2) == plane[pos - 2 * step]);
    assert(at(plane, pos, step, -1) == plane[pos - step]);
    assert(at(plane, pos, step, 0) == plane[pos]);
    assert(at(plane, pos, step, 1) == plane[pos + step]);
    assert(at(plane, pos, step, 2) == plane[pos + 2 * step]);
    assert(at(plane, pos, step, 3) == plane[pos + 3 * step]);
}

proof fn lemma_edge_taps(plane: Seq<u8>, pos: int, step: int, lim: Limits, six: bool)
    requires
        1 <= step,
        4 * step <= pos,
        pos + 3 * step < plane.len(),
    ensures
        with_taps(
            plane,
            pos,
            step,
            normal_edge(plane, pos, step, lim, six),
            after(
                taps(plane, pos, step),
                lim.thresh as int,
                lim.ithresh as int,
                lim.hev_thresh as int,
                six,
            ),
        ),
{
    let k = taps(plane, pos, step);
    assert(k.p3 == plane[pos - 4 * step] && k.p2 == plane[pos - 3 * step] && k.p1 == plane[pos - 2
        * step] && k.p0 == plane[pos - step]);
    assert(k.q0 == plane[pos] && k.q1 == plane[pos + step] && k.q2 == plane[pos + 2 * step] && k.q3
        == plane[pos + 3 * step]);
    let (t, i, h) = (lim.thresh as int, lim.ithresh as int, lim.hev_thresh as int);
    lemma_after(k, t, i, h, six);
    let f2 = filter2_spec(k.p1, k.p0, k.q0, k.q1);
    let f4 = filter4_spec(k.p1, k.p0, k.q0, k.q1);
    let f6 = filter6_spec(k.p2, k.p1, k.p0, k.q0, k.q1, k.q2);
    if !needs_filter2_spec(k.p3, k.p2, k.p1, k.p0, k.q0, k.q1, k.q2, k.q3, 2 * t + 1, i) {
        lemma_put(plane, pos, step, k, f6);
    } else if hev_spec(k.p1, k.p0, k.q0, k.q1, h) {
        lemma_put(plane, pos, step, k, (0, 0, f2.0, f2.1, 0, 0));
    } else if six {
        lemma_put(plane, pos, step, k, f6);
    } else {
        lemma_put(plane, pos, step, k, (0, f4.0, f4.1, f4.2, f4.3, 0));
    }
}

/// The normal filter at one position changes its eight taps as [`deblocked`] says, and
/// nothing else.
pub proof fn one_position(plane: Seq<u8>, pos: int, step: int, lim: Limits, six: bool)
    requires
        1 <= step,
        4 * step <= pos,
        pos + 3 * step < plane.len(),
    ensures
        normal_edge(plane, pos, step, lim, six).len() == plane.len(),
        forall|t: int|
            -4 <= t < 4 ==> normal_edge(plane, pos, step, lim, six)[#[trigger] tap(
                pos,
                0,
                0,
                t,
                step,
            )] == deblocked(
                plane,
                pos,
                step,
                lim.thresh as int,
                lim.ithresh as int,
                lim.hev_thresh as int,
                six,
                t,
            ),
        forall|i: int|
            0 <= i < plane.len() && (forall|t: int|
                -4 <= t < 4 ==> i != #[trigger] tap(pos, 0, 0, t, step)) ==> #[trigger] normal_edge(
                plane,
                pos,
                step,
                lim,
                six,
            )[i] == plane[i],
{
    reveal(deblocked);
    let q = normal_edge(plane, pos, step, lim, six);
    lemma_edge_taps(plane, pos, step, lim, six);
    reveal(with_taps);
    reveal(after);
    assert(tap(pos, 0, 0, -4, step) == pos - 4 * step);
    assert(tap(pos, 0, 0, -3, step) == pos - 3 * step);
    assert(tap(pos, 0, 0, -2, step) == pos - 2 * step);
    assert(tap(pos, 0, 0, -1, step) == pos - step);
    assert(tap(pos, 0, 0, 0, step) == pos);
    assert(tap(pos, 0, 0, 1, step) == pos + step);
    assert(tap(pos, 0, 0, 2, step) == pos + 2 * step);
    assert(tap(pos, 0, 0, 3, step) == pos + 3 * step);
    assert forall|t: int| -4 <= t < 4 implies q[#[trigger] tap(pos, 0, 0, t, step)] == deblocked(
        plane,
        pos,
        step,
        lim.thresh as int,
        lim.ithresh as int,
        lim.hev_thresh as int,
        six,
        t,
    ) by {
        assert(t == -4 || t == -3 || t == -2 || t == -1 || t == 0 || t == 1 || t == 2 || t == 3);
    }
}

proof fn lemma_simple_kernel(k: Taps, limit: int)
    requires
        0 <= k.p1 <= 255,
        0 <= k.p0 <= 255,
        0 <= k.q0 <= 255,
        0 <= k.q1 <= 255,
    ensures
        needs_filter_spec(k.p1, k.p0, k.q0, k.q1, 2 * limit + 1) == k.small(limit),
        filter2_spec(k.p1, k.p0, k.q0, k.q1).0 == k.nudged(-1),
        filter2_spec(k.p1, k.p0, k.q0, k.q1).1 == k.nudged(0),
{
}

/// The simple filter at one position changes the two taps next to the edge as
/// [`smoothed`] says, and nothing else.
pub proof fn one_simple_position(plane: Seq<u8>, pos: int, step: int, limit: int)
    requires
        1 <= step,
        2 * step <= pos,
        pos + step < plane.len(),
    ensures
        simple_edge(plane, pos, step, 2 * limit + 1).len() == plane.len(),
        forall|t: int|
            -2 <= t < 2 ==> simple_edge(plane, pos, step, 2 * limit + 1)[#[trigger] tap(
                pos,
                0,
                0,
                t,
                step,
            )] == smoothed(plane, pos, step, limit, t),
        forall|i: int|
            0 <= i < plane.len() && (forall|t: int|
                -2 <= t < 2 ==> i != #[trigger] tap(pos, 0, 0, t, step)) ==> #[trigger] simple_edge(
                plane,
                pos,
                step,
                2 * limit + 1,
            )[i] == plane[i],
{
    reveal(smoothed);
    let q = simple_edge(plane, pos, step, 2 * limit + 1);
    lemma_simple_kernel(taps(plane, pos, step), limit);
    assert(tap(pos, 0, 0, -2, step) == pos - 2 * step);
    assert(tap(pos, 0, 0, -1, step) == pos - step);
    assert(tap(pos, 0, 0, 0, step) == pos);
    assert(tap(pos, 0, 0, 1, step) == pos + step);
    assert(at(plane, pos, step, -2) == plane[pos - 2 * step]);
    assert(at(plane, pos, step, -1) == plane[pos - step]);
    assert(at(plane, pos, step, 0) == plane[pos]);
    assert(at(plane, pos, step, 1) == plane[pos + step]);
    assert forall|t: int| -2 <= t < 2 implies q[#[trigger] tap(pos, 0, 0, t, step)] == smoothed(
        plane,
        pos,
        step,
        limit,
        t,
    ) by {
        if t == -2 {
        } else if t == -1 {
        } else if t == 0 {
        } else {
            assert(t == 1);
        }
    }
}

/// Whether the taps of different positions of a pass are different samples.
pub open spec fn disjoint(h: int, v: int, size: int) -> bool {
    forall|i: int, j: int, t: int, u: int|
        0 <= i < size && 0 <= j < size && i != j && -4 <= t < 4 && -4 <= u < 4 ==> #[trigger] tap(
            0,
            i,
            v,
            t,
            h,
        ) != #[trigger] tap(0, j, v, u, h)
}

/// Whether the taps of a pass lie in a plane.
pub open spec fn taps_fit(len: int, off: int, h: int, v: int, size: int) -> bool {
    forall|i: int, t: int|
        0 <= i < size && -4 <= t < 4 ==> 0 <= #[trigger] tap(off, i, v, t, h) < len
}

/// Whether sample `k` is a tap of a pass.
pub open spec fn is_tap(k: int, off: int, h: int, v: int, size: int) -> bool {
    exists|i: int, t: int| 0 <= i < size && -4 <= t < 4 && k == #[trigger] tap(off, i, v, t, h)
}

/// A pass of the normal filter changes the taps of each of its positions as
/// [`deblocked`] says, and nothing else.
pub proof fn whole_pass(
    plane: Seq<u8>,
    off: int,
    h: int,
    v: int,
    size: int,
    lim: Limits,
    six: bool,
)
    requires
        0 <= size,
        1 <= h,
        disjoint(h, v, size),
        taps_fit(plane.len() as int, off, h, v, size),
    ensures
        normal_pass(plane, off, h, v, size, lim, six).len() == plane.len(),
        forall|i: int, t: int|
            0 <= i < size && -4 <= t < 4 ==> normal_pass(plane, off, h, v, size, lim, six)[#[trigger] tap(
                off,
                i,
                v,
                t,
                h,
            )] == deblocked(
                plane,
                off + i * v,
                h,
                lim.thresh as int,
                lim.ithresh as int,
                lim.hev_thresh as int,
                six,
                t,
            ),
        forall|k: int|
            0 <= k < plane.len() && !is_tap(k, off, h, v, size) ==> #[trigger] normal_pass(
                plane,
                off,
                h,
                v,
                size,
                lim,
                six,
            )[k] == plane[k],
    decreases size,
{
    if size > 0 {
        let n = size - 1;
        whole_pass(plane, off, h, v, n, lim, six);
        let p = normal_pass(plane, off, h, v, n, lim, six);
        let pos = off + n * v;
        let q = normal_edge(p, pos, h, lim, six);
        let (x, y, z) = (lim.thresh as int, lim.ithresh as int, lim.hev_thresh as int);
        assert forall|t: int| -4 <= t < 4 implies #[trigger] at(p, pos, h, t) == at(plane, pos, h, t) by {
            let k = tap(off, n, v, t, h);
            assert(k == pos + t * h);
            assert(!is_tap(k, off, h, v, n)) by {
                if is_tap(k, off, h, v, n) {
                    let (i, u) = choose|i: int, u: int|
                        0 <= i < n && -4 <= u < 4 && k == #[trigger] tap(off, i, v, u, h);
                    assert(tap(0, n, v, t, h) == tap(0, i, v, u, h));
                }
            }
        }
        assert(0 <= tap(off, n, v, -4, h) && tap(off, n, v, 3, h) < plane.len());
        one_position(p, pos, h, lim, six);
        assert forall|i: int, t: int| 0 <= i < size && -4 <= t < 4 implies q[#[trigger] tap(
            off,
            i,
            v,
            t,
            h,
        )] == deblocked(plane, off + i * v, h, x, y, z, six, t) by {
            let k = tap(off, i, v, t, h);
            if i == n {
                assert(k == tap(pos, 0, 0, t, h));
                lemma_deblocked_ext(p, plane, pos, h, x, y, z, six, t);
            } else {
                assert forall|u: int| -4 <= u < 4 implies k != #[trigger] tap(pos, 0, 0, u, h) by {
                    assert(tap(0, n, v, u, h) != tap(0, i, v, t, h));
                }
                assert(q[k] == p[k]);
            }
        }
        assert forall|k: int| 0 <= k < plane.len() && !is_tap(k, off, h, v, size) implies #[trigger] q[k]
            == plane[k] by {
            assert forall|u: int| -4 <= u < 4 implies k != #[trigger] tap(pos, 0, 0, u, h) by {
                assert(tap(pos, 0, 0, u, h) == tap(off, n, v, u, h));
            }
            if is_tap(k, off, h, v, n) {
                let (i, u) = choose|i: int, u: int|
                    0 <= i < n && -4 <= u < 4 && k == #[trigger] tap(off, i, v, u, h);
                assert(is_tap(k, off, h, v, size));
            }
            assert(p[k] == plane[k]);
        }
    }
}

/// A pass of the simple filter changes the taps of each of its positions as [`smoothed`]
/// says, and nothing else.
pub proof fn whole_simple_pass(plane: Seq<u8>, off: int, h: int, v: int, size: int, limit: int)
    requires
        0 <= size,
        1 <= h,
        disjoint(h, v, size),
        taps_fit(plane.len() as int, off, h, v, size),
    ensures
        simple_pass(plane, off, h, v, size, 2 * limit + 1).len() == plane.len(),
        forall|i: int, t: int|
            0 <= i < size && -4 <= t < 4 ==> simple_pass(
                plane,
                off,
                h,
                v,
                size,
                2 * limit + 1,
            )[#[trigger] tap(off, i, v, t, h)] == smoothed(plane, off + i * v, h, limit, t),
        forall|k: int|
            0 <= k < plane.len() && !is_tap(k, off, h, v, size) ==> #[trigger] simple_pass(
                plane,
                off,
                h,
                v,
                size,
                2 * limit + 1,
            )[k] == plane[k],
    decreases size,
{
    if size > 0 {
        let n = size - 1;
        whole_simple_pass(plane, off, h, v, n, limit);
        let p = simple_pass(plane, off, h, v, n, 2 * limit + 1);
        let pos = off + n * v;
        let q = simple_edge(p, pos, h, 2 * limit + 1);
        assert forall|t: int| -4 <= t < 4 implies #[trigger] at(p, pos, h, t) == at(plane, pos, h, t) by {
            let k = tap(off, n, v, t, h);
            assert(k == pos + t * h);
            assert(!is_tap(k, off, h, v, n)) by {
                if is_tap(k, off, h, v, n) {
                    let (i, u) = choose|i: int, u: int|
                        0 <= i < n && -4 <= u < 4 && k == #[trigger] tap(off, i, v, u, h);
                    assert(tap(0, n, v, t, h) == tap(0, i, v, u, h));
                }
            }
        }
        assert(0 <= tap(off, n, v, -4, h) && tap(off, n, v, 3, h) < plane.len());
        one_simple_position(p, pos, h, limit);
        assert forall|i: int, t: int| 0 <= i < size && -4 <= t < 4 implies q[#[trigger] tap(
            off,
            i,
            v,
            t,
            h,
        )] == smoothed(plane, off + i * v, h, limit, t) by {
            let k = tap(off, i, v, t, h);
            if i == n {
                assert(k == tap(pos, 0, 0, t, h));
                lemma_deblocked_ext(p, plane, pos, h, limit, 0, 0, false, t);
                if t < -2 || t >= 2 {
                    assert forall|u: int| -2 <= u < 2 implies k != #[trigger] tap(pos, 0, 0, u, h) by {
                        assert(t * h != u * h) by (nonlinear_arith)
                            requires
                                t != u,
                                h >= 1,
                        ;
                    }
                    assert(q[k] == p[k]);
                    assert(at(p, pos, h, t) == p[k]);
                    simple_filter_moves_two(plane, pos, h, limit, t);
                }
            } else {
                assert forall|u: int| -2 <= u < 2 implies k != #[trigger] tap(pos, 0, 0, u, h) by {
                    assert(tap(0, n, v, u, h) != tap(0, i, v, t, h));
                }
                assert(q[k] == p[k]);
            }
        }
        assert forall|k: int| 0 <= k < plane.len() && !is_tap(k, off, h, v, size) implies #[trigger] q[k]
            == plane[k] by {
            assert forall|u: int| -2 <= u < 2 implies k != #[trigger] tap(pos, 0, 0, u, h) by {
                assert(tap(pos, 0, 0, u, h) == tap(off, n, v, u, h));
            }
            if is_tap(k, off, h, v, n) {
                let (i, u) = choose|i: int, u: int|
                    0 <= i < n && -4 <= u < 4 && k == #[trigger] tap(off, i, v, u, h);
                assert(is_tap(k, off, h, v, size));
            }
            assert(p[k] == plane[k]);
        }
    }
}

} // verus!
