//! The in-loop deblocking filter.
//!
//! An edge position `pos` with cross-edge step `step` has the samples
//! `p3..p0 = plane[pos - 4 * step..=pos - step]` before it and
//! `q0..q3 = plane[pos..=pos + 3 * step]` behind it. A filter pass walks the
//! positions of one edge; a macroblock's filter is a fixed sequence of passes.

use vstd::prelude::*;

use crate::arith::{abs_i32, abs_int, clamp_int, clip8, clip8_spec, group_shr};
use crate::block::square_fits;

verus! {

broadcast use group_shr;

/// Filter parameters of one macroblock.
#[derive(Clone, Copy, PartialEq, Eq, Debug)]
pub struct FInfo {
    /// Edge limit; zero disables the filter.
    pub f_limit: i32,
    /// Interior smoothness limit.
    pub f_ilevel: i32,
    /// Whether the interior edges are filtered.
    pub f_inner: bool,
    /// Threshold above which an edge counts as high-variance.
    pub hev_thresh: i32,
}

impl Default for FInfo {
    fn default() -> (r: Self)
        ensures
            r == finfo_off(),
    {
        FInfo { f_limit: 0, f_ilevel: 0, f_inner: false, hev_thresh: 0 }
    }
}

/// The parameters that disable the filter.
pub open spec fn finfo_off() -> FInfo {
    FInfo { f_limit: 0, f_ilevel: 0, f_inner: false, hev_thresh: 0 }
}

/// The thresholds of one normal-filter pass.
#[derive(Clone, Copy)]
pub struct Limits {
    /// Edge difference limit.
    pub thresh: i32,
    /// Interior smoothness limit.
    pub ithresh: i32,
    /// High-variance threshold.
    pub hev_thresh: i32,
}

/// Limited to `-128..=127`.
pub open spec fn sclip1_spec(v: int) -> int {
    clamp_int(v, -128, 127)
}

/// Limited to `-16..=15`.
pub open spec fn sclip2_spec(v: int) -> int {
    clamp_int(v, -16, 15)
}

/// Limit to `-128..=127`.
pub fn sclip1(v: i32) -> (r: i32)
    ensures
        r == sclip1_spec(v as int),
{
    if v < -128 {
        -128
    } else if v > 127 {
        127
    } else {
        v
    }
}

/// Limit to `-16..=15`.
pub fn sclip2(v: i32) -> (r: i32)
    ensures
        r == sclip2_spec(v as int),
{
    if v < -16 {
        -16
    } else if v > 15 {
        15
    } else {
        v
    }
}

/// Whether `v` is small enough for the filter arithmetic.
pub open spec fn sample_like(v: i32) -> bool {
    -65536 <= v <= 65536
}

/// The two-tap kernel: the new `p0` and `q0`.
pub open spec fn filter2_spec(p1: int, p0: int, q0: int, q1: int) -> (u8, u8) {
    let a = 3 * (q0 - p0) + sclip1_spec(p1 - q1);
    (clip8_spec(p0 + sclip2_spec((a + 3) / 8)), clip8_spec(q0 - sclip2_spec((a + 4) / 8)))
}

/// The four-tap kernel: the new `p1`, `p0`, `q0` and `q1`.
pub open spec fn filter4_spec(p1: int, p0: int, q0: int, q1: int) -> (u8, u8, u8, u8) {
    let a = 3 * (q0 - p0);
    let a1 = sclip2_spec((a + 4) / 8);
    let a2 = sclip2_spec((a + 3) / 8);
    let a3 = (a1 + 1) / 2;
    (clip8_spec(p1 + a3), clip8_spec(p0 + a2), clip8_spec(q0 - a1), clip8_spec(q1 - a3))
}

/// The six-tap kernel: the new `p2`, `p1`, `p0`, `q0`, `q1` and `q2`.
pub open spec fn filter6_spec(p2: int, p1: int, p0: int, q0: int, q1: int, q2: int) -> (
    u8,
    u8,
    u8,
    u8,
    u8,
    u8,
) {
    let a = sclip1_spec(3 * (q0 - p0) + sclip1_spec(p1 - q1));
    let a1 = (27 * a + 63) / 128;
    let a2 = (18 * a + 63) / 128;
    let a3 = (9 * a + 63) / 128;
    (
        clip8_spec(p2 + a3),
        clip8_spec(p1 + a2),
        clip8_spec(p0 + a1),
        clip8_spec(q0 - a1),
        clip8_spec(q1 - a2),
        clip8_spec(q2 - a3),
    )
}

/// Whether the edge is a sharp boundary.
pub open spec fn hev_spec(p1: int, p0: int, q0: int, q1: int, thresh: int) -> bool {
    abs_int(p1 - p0) > thresh || abs_int(q1 - q0) > thresh
}

/// Whether the simple filter applies.
pub open spec fn needs_filter_spec(p1: int, p0: int, q0: int, q1: int, t: int) -> bool {
    4 * abs_int(p0 - q0) + abs_int(p1 - q1) <= t
}

/// Whether the normal filter applies.
pub open spec fn needs_filter2_spec(
    p3: int,
    p2: int,
    p1: int,
    p0: int,
    q0: int,
    q1: int,
    q2: int,
    q3: int,
    t: int,
    it: int,
) -> bool {
    &&& needs_filter_spec(p1, p0, q0, q1, t)
    &&& abs_int(p3 - p2) <= it
    &&& abs_int(p2 - p1) <= it
    &&& abs_int(p1 - p0) <= it
    &&& abs_int(q3 - q2) <= it
    &&& abs_int(q2 - q1) <= it
    &&& abs_int(q1 - q0) <= it
}

/// Apply the two-tap kernel.
pub fn filter2(p1: i32, p0: i32, q0: i32, q1: i32) -> (r: (u8, u8))
    requires
        sample_like(p1),
        sample_like(p0),
        sample_like(q0),
        sample_like(q1),
    ensures
        r == filter2_spec(p1 as int, p0 as int, q0 as int, q1 as int),
{
    let a: i32 = 3 * (q0 - p0) + sclip1(p1 - q1);
    let a1: i32 = sclip2((a + 4) >> 3);
    let a2: i32 = sclip2((a + 3) >> 3);
    (clip8(p0 + a2), clip8(q0 - a1))
}

/// Apply the four-tap kernel.
pub fn filter4(p1: i32, p0: i32, q0: i32, q1: i32) -> (r: (u8, u8, u8, u8))
    requires
        sample_like(p1),
        sample_like(p0),
        sample_like(q0),
        sample_like(q1),
    ensures
        r == filter4_spec(p1 as int, p0 as int, q0 as int, q1 as int),
{
    let a: i32 = 3 * (q0 - p0);
    let a1: i32 = sclip2((a + 4) >> 3);
    let a2: i32 = sclip2((a + 3) >> 3);
    let a3: i32 = (a1 + 1) >> 1;
    (clip8(p1 + a3), clip8(p0 + a2), clip8(q0 - a1), clip8(q1 - a3))
}

/// Apply the six-tap kernel.
pub fn filter6(p2: i32, p1: i32, p0: i32, q0: i32, q1: i32, q2: i32) -> (r: (u8, u8, u8, u8, u8, u8))
    requires
        sample_like(p2),
        sample_like(p1),
        sample_like(p0),
        sample_like(q0),
        sample_like(q1),
        sample_like(q2),
    ensures
        r == filter6_spec(p2 as int, p1 as int, p0 as int, q0 as int, q1 as int, q2 as int),
{
    let a: i32 = sclip1(3 * (q0 - p0) + sclip1(p1 - q1));
    let a1: i32 = (27 * a + 63) >> 7;
    let a2: i32 = (18 * a + 63) >> 7;
    let a3: i32 = (9 * a + 63) >> 7;
    (
        clip8(p2 + a3),
        clip8(p1 + a2),
        clip8(p0 + a1),
        clip8(q0 - a1),
        clip8(q1 - a2),
        clip8(q2 - a3),
    )
}

/// Whether the edge is a sharp boundary.
pub fn hev(p1: i32, p0: i32, q0: i32, q1: i32, thresh: i32) -> (r: bool)
    requires
        sample_like(p1),
        sample_like(p0),
        sample_like(q0),
        sample_like(q1),
    ensures
        r == hev_spec(p1 as int, p0 as int, q0 as int, q1 as int, thresh as int),
{
    abs_i32(p1 - p0) > thresh || abs_i32(q1 - q0) > thresh
}

/// Whether the simple filter applies.
pub fn needs_filter(p1: i32, p0: i32, q0: i32, q1: i32, t: i32) -> (r: bool)
    requires
        sample_like(p1),
        sample_like(p0),
        sample_like(q0),
        sample_like(q1),
    ensures
        r == needs_filter_spec(p1 as int, p0 as int, q0 as int, q1 as int, t as int),
{
    4 * abs_i32(p0 - q0) + abs_i32(p1 - q1) <= t
}

/// Whether the normal filter applies.
pub fn needs_filter2(
    p3: i32,
    p2: i32,
    p1: i32,
    p0: i32,
    q0: i32,
    q1: i32,
    q2: i32,
    q3: i32,
    t: i32,
    it: i32,
) -> (r: bool)
    requires
        sample_like(p3),
        sample_like(p2),
        sample_like(p1),
        sample_like(p0),
        sample_like(q0),
        sample_like(q1),
        sample_like(q2),
        sample_like(q3),
    ensures
        r == needs_filter2_spec(
            p3 as int,
            p2 as int,
            p1 as int,
            p0 as int,
            q0 as int,
            q1 as int,
            q2 as int,
            q3 as int,
            t as int,
            it as int,
        ),
{
    if 4 * abs_i32(p0 - q0) + abs_i32(p1 - q1) > t {
        return false;
    }
    abs_i32(p3 - p2) <= it && abs_i32(p2 - p1) <= it && abs_i32(p1 - p0) <= it && abs_i32(q3 - q2)
        <= it && abs_i32(q2 - q1) <= it && abs_i32(q1 - q0) <= it
}

/// `plane` after the simple filter at one edge position.
pub open spec fn simple_edge(plane: Seq<u8>, pos: int, step: int, thresh2: int) -> Seq<u8> {
    let p1 = plane[pos - 2 * step] as int;
    let p0 = plane[pos - step] as int;
    let q0 = plane[pos] as int;
    let q1 = plane[pos + step] as int;
    if needs_filter_spec(p1, p0, q0, q1, thresh2) {
        let (np0, nq0) = filter2_spec(p1, p0, q0, q1);
        plane.update(pos - step, np0).update(pos, nq0)
    } else {
        plane
    }
}

/// `plane` after the normal filter at one edge position.
pub open spec fn normal_edge(plane: Seq<u8>, pos: int, step: int, lim: Limits, six: bool) -> Seq<u8> {
    let p3 = plane[pos - 4 * step] as int;
    let p2 = plane[pos - 3 * step] as int;
    let p1 = plane[pos - 2 * step] as int;
    let p0 = plane[pos - step] as int;
    let q0 = plane[pos] as int;
    let q1 = plane[pos + step] as int;
    let q2 = plane[pos + 2 * step] as int;
    let q3 = plane[pos + 3 * step] as int;
    if !needs_filter2_spec(p3, p2, p1, p0, q0, q1, q2, q3, 2 * lim.thresh + 1, lim.ithresh as int) {
        plane
    } else if hev_spec(p1, p0, q0, q1, lim.hev_thresh as int) {
        let (np0, nq0) = filter2_spec(p1, p0, q0, q1);
        plane.update(pos - step, np0).update(pos, nq0)
    } else if six {
        let (np2, np1, np0, nq0, nq1, nq2) = filter6_spec(p2, p1, p0, q0, q1, q2);
        plane.update(pos - 3 * step, np2).update(pos - 2 * step, np1).update(pos - step, np0).update(
            pos,
            nq0,
        ).update(pos + step, nq1).update(pos + 2 * step, nq2)
    } else {
        let (np1, np0, nq0, nq1) = filter4_spec(p1, p0, q0, q1);
        plane.update(pos - 2 * step, np1).update(pos - step, np0).update(pos, nq0).update(
            pos + step,
            nq1,
        )
    }
}

/// `plane` after the simple filter at `size` positions, `vstride` apart.
pub open spec fn simple_pass(
    plane: Seq<u8>,
    off: int,
    hstride: int,
    vstride: int,
    size: int,
    thresh2: int,
) -> Seq<u8>
    decreases size,
{
    if size <= 0 {
        plane
    } else {
        simple_edge(
            simple_pass(plane, off, hstride, vstride, size - 1, thresh2),
            off + (size - 1) * vstride,
            hstride,
            thresh2,
        )
    }
}

/// `plane` after the normal filter at `size` positions, `vstride` apart.
pub open spec fn normal_pass(
    plane: Seq<u8>,
    off: int,
    hstride: int,
    vstride: int,
    size: int,
    lim: Limits,
    six: bool,
) -> Seq<u8>
    decreases size,
{
    if size <= 0 {
        plane
    } else {
        normal_edge(
            normal_pass(plane, off, hstride, vstride, size - 1, lim, six),
            off + (size - 1) * vstride,
            hstride,
            lim,
            six,
        )
    }
}

/// A filter pass keeps the plane's size.
pub proof fn lemma_normal_pass_len(
    plane: Seq<u8>,
    off: int,
    hstride: int,
    vstride: int,
    size: int,
    lim: Limits,
    six: bool,
)
    requires
        size >= 1 ==> pass_fits(plane.len() as int, off, hstride, vstride, size, 4, 3),
    ensures
        normal_pass(plane, off, hstride, vstride, size, lim, six).len() == plane.len(),
    decreases size,
{
    if size > 0 {
        assert(0 <= (size - 2) * vstride || size == 1) by (nonlinear_arith)
            requires
                size >= 1,
                vstride >= 0,
        ;
        assert((size - 1) * vstride == (size - 2) * vstride + vstride) by (nonlinear_arith);
        assert((size - 1) * vstride >= 0) by (nonlinear_arith)
            requires
                size >= 1,
                vstride >= 0,
        ;
        lemma_normal_pass_len(plane, off, hstride, vstride, size - 1, lim, six);
    }
}

/// A filter pass keeps the plane's size.
pub proof fn lemma_simple_pass_len(
    plane: Seq<u8>,
    off: int,
    hstride: int,
    vstride: int,
    size: int,
    thresh2: int,
)
    requires
        size >= 1 ==> pass_fits(plane.len() as int, off, hstride, vstride, size, 2, 1),
    ensures
        simple_pass(plane, off, hstride, vstride, size, thresh2).len() == plane.len(),
    decreases size,
{
    if size > 0 {
        assert(0 <= (size - 2) * vstride || size == 1) by (nonlinear_arith)
            requires
                size >= 1,
                vstride >= 0,
        ;
        assert((size - 1) * vstride == (size - 2) * vstride + vstride) by (nonlinear_arith);
        assert((size - 1) * vstride >= 0) by (nonlinear_arith)
            requires
                size >= 1,
                vstride >= 0,
        ;
        lemma_simple_pass_len(plane, off, hstride, vstride, size - 1, thresh2);
    }
}

/// Whether a pass that reads `before` samples before and `after` samples behind
/// each position stays inside a plane of `len` samples.
pub open spec fn pass_fits(
    len: int,
    off: int,
    hstride: int,
    vstride: int,
    size: int,
    before: int,
    after: int,
) -> bool {
    &&& 1 <= size
    &&& 0 <= hstride
    &&& 0 <= vstride
    &&& off >= before * hstride
    &&& off + (size - 1) * vstride + after * hstride < len
}

/// Whether a limit is small enough for the filter arithmetic.
pub open spec fn limit_ok(v: i32) -> bool {
    -1000000 <= v <= 1000000
}

/// The simple filter at one edge position.
pub fn simple_filter_edge(plane: &mut [u8], pos: usize, step: usize, thresh2: i32)
    requires
        pos >= 2 * step,
        pos + step < old(plane)@.len(),
    ensures
        final(plane)@ == simple_edge(old(plane)@, pos as int, step as int, thresh2 as int),
{
    let len: usize = plane.len();
    let p1: i32 = plane[pos - 2 * step] as i32;
    let p0: i32 = plane[pos - step] as i32;
    let q0: i32 = plane[pos] as i32;
    let q1: i32 = plane[pos + step] as i32;
    if needs_filter(p1, p0, q0, q1, thresh2) {
        let (np0, nq0) = filter2(p1, p0, q0, q1);
        plane[pos - step] = np0;
        plane[pos] = nq0;
    }
}

fn simple_filter_loop(
    plane: &mut [u8],
    off: usize,
    hstride: usize,
    vstride: usize,
    size: usize,
    thresh: i32,
)
    requires
        pass_fits(old(plane)@.len() as int, off as int, hstride as int, vstride as int, size as int, 2, 1),
        limit_ok(thresh),
    ensures
        final(plane)@ == simple_pass(
            old(plane)@,
            off as int,
            hstride as int,
            vstride as int,
            size as int,
            2 * thresh + 1,
        ),
        final(plane)@.len() == old(plane)@.len(),
{
    let thresh2: i32 = 2 * thresh + 1;
    let len: usize = plane.len();
    let ghost p0 = plane@;
    let mut i: usize = 0;
    let mut pos: usize = off;
    while i < size
        invariant
            i <= size,
            pass_fits(len as int, off as int, hstride as int, vstride as int, size as int, 2, 1),
            thresh2 == 2 * thresh + 1,
            i < size ==> pos == off + i * vstride,
            p0.len() == len,
            plane@.len() == len,
            plane@ == simple_pass(p0, off as int, hstride as int, vstride as int, i as int, thresh2 as int),
        decreases size - i,
    {
        proof {
            assert(0 <= i * vstride <= (size - 1) * vstride) by (nonlinear_arith)
                requires
                    0 <= i <= size - 1,
                    vstride >= 0,
            ;
        }
        simple_filter_edge(plane, pos, hstride, thresh2);
        i = i + 1;
        if i < size {
            proof {
                assert(i * vstride == (i - 1) * vstride + vstride) by (nonlinear_arith);
                assert(i * vstride <= (size - 1) * vstride) by (nonlinear_arith)
                    requires
                        0 <= i <= size - 1,
                        vstride >= 0,
                ;
            }
            pos = pos + vstride;
        }
    }
}

/// The normal filter along one edge: the two-tap kernel at sharp boundaries, else
/// the six-tap (`use_filter6`) or four-tap kernel.
pub fn filter_loop(
    plane: &mut [u8],
    off: usize,
    hstride: usize,
    vstride: usize,
    size: usize,
    lim: Limits,
    use_filter6: bool,
)
    requires
        pass_fits(old(plane)@.len() as int, off as int, hstride as int, vstride as int, size as int, 4, 3),
        limit_ok(lim.thresh),
    ensures
        final(plane)@ == normal_pass(
            old(plane)@,
            off as int,
            hstride as int,
            vstride as int,
            size as int,
            lim,
            use_filter6,
        ),
        final(plane)@.len() == old(plane)@.len(),
{
    let thresh2: i32 = 2 * lim.thresh + 1;
    let step: usize = hstride;
    let len: usize = plane.len();
    let ghost start = plane@;
    let mut i: usize = 0;
    let mut pos: usize = off;
    while i < size
        invariant
            i <= size,
            pass_fits(len as int, off as int, hstride as int, vstride as int, size as int, 4, 3),
            thresh2 == 2 * lim.thresh + 1,
            step == hstride,
            i < size ==> pos == off + i * vstride,
            start.len() == len,
            plane@.len() == len,
            plane@ == normal_pass(
                start,
                off as int,
                hstride as int,
                vstride as int,
                i as int,
                lim,
                use_filter6,
            ),
        decreases size - i,
    {
        proof {
            assert(0 <= i * vstride <= (size - 1) * vstride) by (nonlinear_arith)
                requires
                    0 <= i <= size - 1,
                    vstride >= 0,
            ;
        }
        let p3: i32 = plane[pos - 4 * step] as i32;
        let p2: i32 = plane[pos - 3 * step] as i32;
        let p1: i32 = plane[pos - 2 * step] as i32;
        let p0: i32 = plane[pos - step] as i32;
        let q0: i32 = plane[pos] as i32;
        let q1: i32 = plane[pos + step] as i32;
        let q2: i32 = plane[pos + 2 * step] as i32;
        let q3: i32 = plane[pos + 3 * step] as i32;
        if needs_filter2(p3, p2, p1, p0, q0, q1, q2, q3, thresh2, lim.ithresh) {
            if hev(p1, p0, q0, q1, lim.hev_thresh) {
                let (np0, nq0) = filter2(p1, p0, q0, q1);
                plane[pos - step] = np0;
                plane[pos] = nq0;
            } else if use_filter6 {
                let (np2, np1, np0, nq0, nq1, nq2) = filter6(p2, p1, p0, q0, q1, q2);
                plane[pos - 3 * step] = np2;
                plane[pos - 2 * step] = np1;
                plane[pos - step] = np0;
                plane[pos] = nq0;
                plane[pos + step] = nq1;
                plane[pos + 2 * step] = nq2;
            } else {
                let (np1, np0, nq0, nq1) = filter4(p1, p0, q0, q1);
                plane[pos - 2 * step] = np1;
                plane[pos - step] = np0;
                plane[pos] = nq0;
                plane[pos + step] = nq1;
            }
        }
        i = i + 1;
        if i < size {
            proof {
                assert(i * vstride == (i - 1) * vstride + vstride) by (nonlinear_arith);
                assert(i * vstride <= (size - 1) * vstride) by (nonlinear_arith)
                    requires
                        0 <= i <= size - 1,
                        vstride >= 0,
                ;
            }
            pos = pos + vstride;
        }
    }
}

/// Whether a macroblock's `n`-by-`n` block and the samples its edge filters read fit.
pub open spec fn filter_fits(
    len: int,
    off: int,
    stride: int,
    n: int,
    do_left: bool,
    do_top: bool,
) -> bool {
    &&& square_fits(len, off, stride, n)
    &&& (do_left ==> off >= 4)
    &&& (do_top ==> off >= 4 * stride)
}

/// The simple filter across the top edge: sixteen columns.
pub fn simple_v_filter16(plane: &mut [u8], off: usize, stride: usize, thresh: i32)
    requires
        square_fits(old(plane)@.len() as int, off as int, stride as int, 16),
        off >= 2 * stride,
        limit_ok(thresh),
    ensures
        final(plane)@ == simple_pass(old(plane)@, off as int, stride as int, 1, 16, 2 * thresh + 1),
        final(plane)@.len() == old(plane)@.len(),
{
    simple_filter_loop(plane, off, stride, 1, 16, thresh);
}

/// The simple filter across the left edge: sixteen rows.
pub fn simple_h_filter16(plane: &mut [u8], off: usize, stride: usize, thresh: i32)
    requires
        square_fits(old(plane)@.len() as int, off as int, stride as int, 16),
        off >= 2,
        limit_ok(thresh),
    ensures
        final(plane)@ == simple_pass(old(plane)@, off as int, 1, stride as int, 16, 2 * thresh + 1),
        final(plane)@.len() == old(plane)@.len(),
{
    simple_filter_loop(plane, off, 1, stride, 16, thresh);
}

/// The three interior passes of the simple filter, `gap` apart.
pub open spec fn simple_inner(plane: Seq<u8>, off: int, hstride: int, vstride: int, gap: int, thresh2: int) -> Seq<u8> {
    let a = simple_pass(plane, off + gap, hstride, vstride, 16, thresh2);
    let b = simple_pass(a, off + 2 * gap, hstride, vstride, 16, thresh2);
    simple_pass(b, off + 3 * gap, hstride, vstride, 16, thresh2)
}

/// The three interior passes of the normal filter, `gap` apart.
pub open spec fn normal_inner(plane: Seq<u8>, off: int, hstride: int, vstride: int, gap: int, lim: Limits) -> Seq<u8> {
    let a = normal_pass(plane, off + gap, hstride, vstride, 16, lim, false);
    let b = normal_pass(a, off + 2 * gap, hstride, vstride, 16, lim, false);
    normal_pass(b, off + 3 * gap, hstride, vstride, 16, lim, false)
}

/// The simple filter across the three interior horizontal edges (rows 4, 8 and 12).
pub fn simple_v_filter16i(plane: &mut [u8], off: usize, stride: usize, thresh: i32)
    requires
        square_fits(old(plane)@.len() as int, off as int, stride as int, 16),
        limit_ok(thresh),
    ensures
        final(plane)@ == simple_inner(old(plane)@, off as int, stride as int, 1, 4 * stride as int, 2 * thresh + 1),
        final(plane)@.len() == old(plane)@.len(),
{
    let len: usize = plane.len();
    assert(off + 15 * stride + 16 <= len);
    simple_filter_loop(plane, off + 4 * stride, stride, 1, 16, thresh);
    simple_filter_loop(plane, off + 8 * stride, stride, 1, 16, thresh);
    simple_filter_loop(plane, off + 12 * stride, stride, 1, 16, thresh);
}

/// The simple filter across the three interior vertical edges (columns 4, 8 and 12).
pub fn simple_h_filter16i(plane: &mut [u8], off: usize, stride: usize, thresh: i32)
    requires
        square_fits(old(plane)@.len() as int, off as int, stride as int, 16),
        limit_ok(thresh),
    ensures
        final(plane)@ == simple_inner(old(plane)@, off as int, 1, stride as int, 4, 2 * thresh + 1),
        final(plane)@.len() == old(plane)@.len(),
{
    let len: usize = plane.len();
    assert(off + 15 * stride + 16 <= len);
    simple_filter_loop(plane, off + 4, 1, stride, 16, thresh);
    simple_filter_loop(plane, off + 8, 1, stride, 16, thresh);
    simple_filter_loop(plane, off + 12, 1, stride, 16, thresh);
}

/// The normal filter across the top macroblock edge of luma.
pub fn v_filter16(plane: &mut [u8], off: usize, stride: usize, lim: Limits)
    requires
        square_fits(old(plane)@.len() as int, off as int, stride as int, 16),
        off >= 4 * stride,
        limit_ok(lim.thresh),
    ensures
        final(plane)@ == normal_pass(old(plane)@, off as int, stride as int, 1, 16, lim, true),
        final(plane)@.len() == old(plane)@.len(),
{
    filter_loop(plane, off, stride, 1, 16, lim, true);
}

/// The normal filter across the left macroblock edge of luma.
pub fn h_filter16(plane: &mut [u8], off: usize, stride: usize, lim: Limits)
    requires
        square_fits(old(plane)@.len() as int, off as int, stride as int, 16),
        off >= 4,
        limit_ok(lim.thresh),
    ensures
        final(plane)@ == normal_pass(old(plane)@, off as int, 1, stride as int, 16, lim, true),
        final(plane)@.len() == old(plane)@.len(),
{
    filter_loop(plane, off, 1, stride, 16, lim, true);
}

/// The normal filter across the three interior horizontal edges of luma.
pub fn v_filter16i(plane: &mut [u8], off: usize, stride: usize, lim: Limits)
    requires
        square_fits(old(plane)@.len() as int, off as int, stride as int, 16),
        limit_ok(lim.thresh),
    ensures
        final(plane)@ == normal_inner(old(plane)@, off as int, stride as int, 1, 4 * stride as int, lim),
        final(plane)@.len() == old(plane)@.len(),
{
    let len: usize = plane.len();
    assert(off + 15 * stride + 16 <= len);
    filter_loop(plane, off + 4 * stride, stride, 1, 16, lim, false);
    filter_loop(plane, off + 8 * stride, stride, 1, 16, lim, false);
    filter_loop(plane, off + 12 * stride, stride, 1, 16, lim, false);
}

/// The normal filter across the three interior vertical edges of luma.
pub fn h_filter16i(plane: &mut [u8], off: usize, stride: usize, lim: Limits)
    requires
        square_fits(old(plane)@.len() as int, off as int, stride as int, 16),
        limit_ok(lim.thresh),
    ensures
        final(plane)@ == normal_inner(old(plane)@, off as int, 1, stride as int, 4, lim),
        final(plane)@.len() == old(plane)@.len(),
{
    let len: usize = plane.len();
    assert(off + 15 * stride + 16 <= len);
    filter_loop(plane, off + 4, 1, stride, 16, lim, false);
    filter_loop(plane, off + 8, 1, stride, 16, lim, false);
    filter_loop(plane, off + 12, 1, stride, 16, lim, false);
}

/// The normal filter across the top macroblock edge of both chroma planes.
pub fn v_filter8(u: &mut [u8], v: &mut [u8], off: usize, stride: usize, lim: Limits)
    requires
        square_fits(old(u)@.len() as int, off as int, stride as int, 8),
        square_fits(old(v)@.len() as int, off as int, stride as int, 8),
        off >= 4 * stride,
        limit_ok(lim.thresh),
    ensures
        final(u)@ == normal_pass(old(u)@, off as int, stride as int, 1, 8, lim, true),
        final(v)@ == normal_pass(old(v)@, off as int, stride as int, 1, 8, lim, true),
        final(u)@.len() == old(u)@.len(),
        final(v)@.len() == old(v)@.len(),
{
    let len: usize = u.len();
    assert(off + 7 * stride + 8 <= len);
    filter_loop(u, off, stride, 1, 8, lim, true);
    filter_loop(v, off, stride, 1, 8, lim, true);
}

/// The normal filter across the left macroblock edge of both chroma planes.
pub fn h_filter8(u: &mut [u8], v: &mut [u8], off: usize, stride: usize, lim: Limits)
    requires
        square_fits(old(u)@.len() as int, off as int, stride as int, 8),
        square_fits(old(v)@.len() as int, off as int, stride as int, 8),
        off >= 4,
        limit_ok(lim.thresh),
    ensures
        final(u)@ == normal_pass(old(u)@, off as int, 1, stride as int, 8, lim, true),
        final(v)@ == normal_pass(old(v)@, off as int, 1, stride as int, 8, lim, true),
        final(u)@.len() == old(u)@.len(),
        final(v)@.len() == old(v)@.len(),
{
    let len: usize = u.len();
    assert(off + 7 * stride + 8 <= len);
    filter_loop(u, off, 1, stride, 8, lim, true);
    filter_loop(v, off, 1, stride, 8, lim, true);
}

/// The normal filter across the interior horizontal edge of both chroma planes.
pub fn v_filter8i(u: &mut [u8], v: &mut [u8], off: usize, stride: usize, lim: Limits)
    requires
        square_fits(old(u)@.len() as int, off as int, stride as int, 8),
        square_fits(old(v)@.len() as int, off as int, stride as int, 8),
        limit_ok(lim.thresh),
    ensures
        final(u)@ == normal_pass(old(u)@, off as int + 4 * stride, stride as int, 1, 8, lim, false),
        final(v)@ == normal_pass(old(v)@, off as int + 4 * stride, stride as int, 1, 8, lim, false),
        final(u)@.len() == old(u)@.len(),
        final(v)@.len() == old(v)@.len(),
{
    let len: usize = u.len();
    assert(off + 7 * stride + 8 <= len);
    filter_loop(u, off + 4 * stride, stride, 1, 8, lim, false);
    filter_loop(v, off + 4 * stride, stride, 1, 8, lim, false);
}

/// The normal filter across the interior vertical edge of both chroma planes.
pub fn h_filter8i(u: &mut [u8], v: &mut [u8], off: usize, stride: usize, lim: Limits)
    requires
        square_fits(old(u)@.len() as int, off as int, stride as int, 8),
        square_fits(old(v)@.len() as int, off as int, stride as int, 8),
        limit_ok(lim.thresh),
    ensures
        final(u)@ == normal_pass(old(u)@, off as int + 4, 1, stride as int, 8, lim, false),
        final(v)@ == normal_pass(old(v)@, off as int + 4, 1, stride as int, 8, lim, false),
        final(u)@.len() == old(u)@.len(),
        final(v)@.len() == old(v)@.len(),
{
    let len: usize = u.len();
    assert(off + 7 * stride + 8 <= len);
    filter_loop(u, off + 4, 1, stride, 8, lim, false);
    filter_loop(v, off + 4, 1, stride, 8, lim, false);
}

/// The thresholds at a macroblock edge.
pub open spec fn outer_limits(info: FInfo) -> Limits {
    Limits { thresh: (info.f_limit + 4) as i32, ithresh: info.f_ilevel, hev_thresh: info.hev_thresh }
}

/// The thresholds at an interior edge.
pub open spec fn inner_limits(info: FInfo) -> Limits {
    Limits { thresh: info.f_limit, ithresh: info.f_ilevel, hev_thresh: info.hev_thresh }
}

/// A luma plane after the simple filter of one macroblock.
pub open spec fn simple_filtered(
    y: Seq<u8>,
    off: int,
    stride: int,
    do_left: bool,
    do_top: bool,
    info: FInfo,
) -> Seq<u8> {
    if info.f_limit == 0 {
        y
    } else {
        let edge = 2 * (info.f_limit + 4) + 1;
        let inside = 2 * info.f_limit + 1;
        let a = if do_left {
            simple_pass(y, off, 1, stride, 16, edge)
        } else {
            y
        };
        let b = if info.f_inner {
            simple_inner(a, off, 1, stride, 4, inside)
        } else {
            a
        };
        let c = if do_top {
            simple_pass(b, off, stride, 1, 16, edge)
        } else {
            b
        };
        if info.f_inner {
            simple_inner(c, off, stride, 1, 4 * stride, inside)
        } else {
            c
        }
    }
}

/// A luma plane after the normal filter of one macroblock.
pub open spec fn normal_filtered(
    y: Seq<u8>,
    off: int,
    stride: int,
    do_left: bool,
    do_top: bool,
    info: FInfo,
) -> Seq<u8> {
    if info.f_limit == 0 {
        y
    } else {
        let a = if do_left {
            normal_pass(y, off, 1, stride, 16, outer_limits(info), true)
        } else {
            y
        };
        let b = if info.f_inner {
            normal_inner(a, off, 1, stride, 4, inner_limits(info))
        } else {
            a
        };
        let c = if do_top {
            normal_pass(b, off, stride, 1, 16, outer_limits(info), true)
        } else {
            b
        };
        if info.f_inner {
            normal_inner(c, off, stride, 1, 4 * stride, inner_limits(info))
        } else {
            c
        }
    }
}

/// A chroma plane after the normal filter of one macroblock.
pub open spec fn chroma_filtered(
    p: Seq<u8>,
    off: int,
    stride: int,
    do_left: bool,
    do_top: bool,
    info: FInfo,
) -> Seq<u8> {
    if info.f_limit == 0 {
        p
    } else {
        let a = if do_left {
            normal_pass(p, off, 1, stride, 8, outer_limits(info), true)
        } else {
            p
        };
        let b = if info.f_inner {
            normal_pass(a, off + 4, 1, stride, 8, inner_limits(info), false)
        } else {
            a
        };
        let c = if do_top {
            normal_pass(b, off, stride, 1, 8, outer_limits(info), true)
        } else {
            b
        };
        if info.f_inner {
            normal_pass(c, off + 4 * stride, stride, 1, 8, inner_limits(info), false)
        } else {
            c
        }
    }
}

/// Apply the simple filter to one luma macroblock: left edge, interior vertical
/// edges, top edge, interior horizontal edges.
pub fn filter_mb_simple(
    y: &mut [u8],
    off: usize,
    stride: usize,
    do_left_edge: bool,
    do_top_edge: bool,
    info: FInfo,
)
    requires
        filter_fits(old(y)@.len() as int, off as int, stride as int, 16, do_left_edge, do_top_edge),
        -900000 <= info.f_limit <= 900000,
    ensures
        final(y)@ == simple_filtered(
            old(y)@,
            off as int,
            stride as int,
            do_left_edge,
            do_top_edge,
            info,
        ),
        final(y)@.len() == old(y)@.len(),
{
    if info.f_limit == 0 {
        return ;
    }
    let limit: i32 = info.f_limit;
    if do_left_edge {
        simple_h_filter16(y, off, stride, limit + 4);
    }
    if info.f_inner {
        simple_h_filter16i(y, off, stride, limit);
    }
    if do_top_edge {
        simple_v_filter16(y, off, stride, limit + 4);
    }
    if info.f_inner {
        simple_v_filter16i(y, off, stride, limit);
    }
}

/// Apply the normal filter to one macroblock's luma and chroma: left edges,
/// interior vertical edges, top edges, interior horizontal edges.
pub fn filter_mb_normal(
    y: &mut [u8],
    y_off: usize,
    y_stride: usize,
    u: &mut [u8],
    v: &mut [u8],
    uv_off: usize,
    uv_stride: usize,
    do_left_edge: bool,
    do_top_edge: bool,
    info: FInfo,
)
    requires
        filter_fits(old(y)@.len() as int, y_off as int, y_stride as int, 16, do_left_edge, do_top_edge),
        filter_fits(old(u)@.len() as int, uv_off as int, uv_stride as int, 8, do_left_edge, do_top_edge),
        filter_fits(old(v)@.len() as int, uv_off as int, uv_stride as int, 8, do_left_edge, do_top_edge),
        -900000 <= info.f_limit <= 900000,
    ensures
        final(y)@ == normal_filtered(
            old(y)@,
            y_off as int,
            y_stride as int,
            do_left_edge,
            do_top_edge,
            info,
        ),
        final(u)@ == chroma_filtered(
            old(u)@,
            uv_off as int,
            uv_stride as int,
            do_left_edge,
            do_top_edge,
            info,
        ),
        final(v)@ == chroma_filtered(
            old(v)@,
            uv_off as int,
            uv_stride as int,
            do_left_edge,
            do_top_edge,
            info,
        ),
        final(y)@.len() == old(y)@.len(),
        final(u)@.len() == old(u)@.len(),
        final(v)@.len() == old(v)@.len(),
{
    if info.f_limit == 0 {
        return ;
    }
    let outer = Limits {
        thresh: info.f_limit + 4,
        ithresh: info.f_ilevel,
        hev_thresh: info.hev_thresh,
    };
    let inner = Limits { thresh: info.f_limit, ithresh: info.f_ilevel, hev_thresh: info.hev_thresh };
    if do_left_edge {
        h_filter16(y, y_off, y_stride, outer);
        h_filter8(u, v, uv_off, uv_stride, outer);
    }
    if info.f_inner {
        h_filter16i(y, y_off, y_stride, inner);
        h_filter8i(u, v, uv_off, uv_stride, inner);
    }
    if do_top_edge {
        v_filter16(y, y_off, y_stride, outer);
        v_filter8(u, v, uv_off, uv_stride, outer);
    }
    if info.f_inner {
        v_filter16i(y, y_off, y_stride, inner);
        v_filter8i(u, v, uv_off, uv_stride, inner);
    }
}

} // verus!
