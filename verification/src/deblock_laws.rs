//! What the loop filter does to a frame.
//!
//! A frame is filtered macroblock by macroblock: filtering some of them and then the others
//! is filtering all of them. So it is enough to say what filtering one macroblock does.

use vstd::prelude::*;

use crate::filter_laws::{
    at, deblocked, disjoint, far_samples_stay, is_tap, lemma_deblocked_ext, simple_filter_moves_two,
    smoothed, taps_fit, whole_pass, whole_simple_pass,
};
use crate::loop_filter::{
    chroma_filtered, normal_filtered, normal_pass, outer_limits, simple_filtered, simple_pass, FInfo,
    Limits,
};
use crate::margin::tap;
use crate::reconstruct::{
    frame_filtered, lemma_mb_fits, mb_filtered, planes_sized, row_filtered, Samples,
};
use crate::tiles::lemma_grid;

verus! {

/// The samples of a pass along a vertical or a horizontal edge do not overlap.
pub proof fn lemma_disjoint(stride: int, n: int)
    requires
        1 <= n < stride,
        8 <= stride,
    ensures
        disjoint(1, stride, n),
        disjoint(stride, 1, n),
{
    assert forall|i: int, j: int, t: int, u: int|
        0 <= i < n && 0 <= j < n && i != j && -4 <= t < 4 && -4 <= u < 4 implies #[trigger] tap(
        0,
        i,
        stride,
        t,
        1,
    ) != #[trigger] tap(0, j, stride, u, 1) by {
        assert(i * stride + t * 1 != j * stride + u * 1) by (nonlinear_arith)
            requires
                i != j,
                -8 < t - u < 8,
                8 <= stride,
        ;
    }
    assert forall|i: int, j: int, t: int, u: int|
        0 <= i < n && 0 <= j < n && i != j && -4 <= t < 4 && -4 <= u < 4 implies #[trigger] tap(
        0,
        i,
        1,
        t,
        stride,
    ) != #[trigger] tap(0, j, 1, u, stride) by {
        assert(i * 1 + t * stride != j * 1 + u * stride) by (nonlinear_arith)
            requires
                i != j,
                0 <= i < n,
                0 <= j < n,
                n < stride,
        ;
    }
}

/// The samples of a pass across the left edge of a block lie in the plane.
pub proof fn lemma_left_fits(len: int, off: int, stride: int, n: int)
    requires
        4 <= n < stride,
        4 <= off,
        off + (n - 1) * stride + n <= len,
    ensures
        taps_fit(len, off, 1, stride, n),
{
    assert forall|i: int, t: int| 0 <= i < n && -4 <= t < 4 implies 0 <= #[trigger] tap(
        off,
        i,
        stride,
        t,
        1,
    ) < len by {
        assert(0 <= i * stride <= (n - 1) * stride) by (nonlinear_arith)
            requires
                0 <= i <= n - 1,
                0 <= stride,
        ;
    }
}

/// The samples of a pass across the top edge of a block lie in the plane.
pub proof fn lemma_top_fits(len: int, off: int, stride: int, n: int)
    requires
        4 <= n < stride,
        4 * stride <= off,
        off + (n - 1) * stride + n <= len,
    ensures
        taps_fit(len, off, stride, 1, n),
{
    assert forall|i: int, t: int| 0 <= i < n && -4 <= t < 4 implies 0 <= #[trigger] tap(
        off,
        i,
        1,
        t,
        stride,
    ) < len by {
        assert(-4 * stride <= t * stride <= 3 * stride) by (nonlinear_arith)
            requires
                -4 <= t <= 3,
                0 <= stride,
        ;
        assert(3 * stride <= (n - 1) * stride) by (nonlinear_arith)
            requires
                3 <= n - 1,
                0 <= stride,
        ;
    }
}

/// The two outer passes of a block: what they make of the samples across its left and its
/// top edge.
spec fn outer(y: Seq<u8>, off: int, stride: int, n: int, left: bool, top: bool, lim: Limits) -> Seq<
    u8,
> {
    let a = if left {
        normal_pass(y, off, 1, stride, n, lim, true)
    } else {
        y
    };
    if top {
        normal_pass(a, off, stride, 1, n, lim, true)
    } else {
        a
    }
}

/// Whether `q` is `p` with the left and top edges of the `n`-by-`n` block at `off`
/// deblocked: each row across the left edge, and each column across the top edge, except
/// near the corner, where the edges meet.
pub open spec fn edges_deblocked(
    p: Seq<u8>,
    q: Seq<u8>,
    off: int,
    stride: int,
    n: int,
    left: bool,
    top: bool,
    limit: int,
    inner: int,
    hev: int,
) -> bool {
    &&& q.len() == p.len()
    &&& left ==> forall|r: int, t: int|
        0 <= r < n && -4 <= t < 4 && (!top || t < 0 || r >= 3) ==> q[#[trigger] tap(
            off,
            r,
            stride,
            t,
            1,
        )] == deblocked(p, off + r * stride, 1, limit, inner, hev, true, t)
    &&& top ==> forall|c: int, t: int|
        0 <= c < n && -4 <= t < 4 && (!left || c >= 3) ==> q[#[trigger] tap(off, c, 1, t, stride)]
            == deblocked(p, off + c, stride, limit, inner, hev, true, t)
    &&& forall|k: int|
        0 <= k < p.len() && !(left && is_tap(k, off, 1, stride, n)) && !(top && is_tap(
            k,
            off,
            stride,
            1,
            n,
        )) ==> #[trigger] q[k] == p[k]
}

proof fn lemma_outer(
    y: Seq<u8>,
    off: int,
    stride: int,
    n: int,
    left: bool,
    top: bool,
    lim: Limits,
)
    requires
        n == 8 || n == 16,
        n < stride,
        stride >= 9,
        left ==> 4 <= off && n + 4 < stride,
        top ==> 4 * stride <= off,
        off + (n - 1) * stride + n <= y.len(),
    ensures
        edges_deblocked(
            y,
            outer(y, off, stride, n, left, top, lim),
            off,
            stride,
            n,
            left,
            top,
            lim.thresh as int,
            lim.ithresh as int,
            lim.hev_thresh as int,
        ),
{
    let (x, i, h) = (lim.thresh as int, lim.ithresh as int, lim.hev_thresh as int);
    let len = y.len() as int;
    lemma_disjoint(stride, n);
    let a = if left {
        lemma_left_fits(len, off, stride, n);
        whole_pass(y, off, 1, stride, n, lim, true);
        normal_pass(y, off, 1, stride, n, lim, true)
    } else {
        y
    };
    assert(a.len() == y.len());
    let q = outer(y, off, stride, n, left, top, lim);
    if top {
        lemma_top_fits(len, off, stride, n);
        whole_pass(a, off, stride, 1, n, lim, true);
    }
    if left {
        assert forall|r: int, t: int|
            0 <= r < n && -4 <= t < 4 && (!top || t < 0 || r >= 3) implies q[#[trigger] tap(
            off,
            r,
            stride,
            t,
            1,
        )] == deblocked(y, off + r * stride, 1, x, i, h, true, t) by {
            let k = tap(off, r, stride, t, 1);
            if top {
                lemma_left_tap_after_top(a, q, off, stride, n, lim, r, t);
            }
        }
    }
    if top {
        assert forall|c: int, t: int|
            0 <= c < n && -4 <= t < 4 && (!left || c >= 3) implies q[#[trigger] tap(
            off,
            c,
            1,
            t,
            stride,
        )] == deblocked(y, off + c, stride, x, i, h, true, t) by {
            if left {
                assert forall|u: int| -4 <= u < 4 implies #[trigger] at(a, off + c * 1, stride, u)
                    == at(y, off + c * 1, stride, u) by {
                    lemma_top_tap_before_left(y, a, off, stride, n, lim, c, u);
                }
                lemma_deblocked_ext(a, y, off + c * 1, stride, x, i, h, true, t);
            }
        }
    }
}

/// The top pass leaves the samples across the left edge alone, but for the first three rows
/// behind it.
proof fn lemma_left_tap_after_top(
    a: Seq<u8>,
    q: Seq<u8>,
    off: int,
    stride: int,
    n: int,
    lim: Limits,
    r: int,
    t: int,
)
    requires
        n == 8 || n == 16,
        n + 4 < stride,
        4 * stride <= off,
        off + (n - 1) * stride + n <= a.len(),
        q == normal_pass(a, off, stride, 1, n, lim, true),
        0 <= r < n,
        -4 <= t < 4,
        t < 0 || r >= 3,
    ensures
        q[tap(off, r, stride, t, 1)] == a[tap(off, r, stride, t, 1)],
{
    lemma_disjoint(stride, n);
    lemma_top_fits(a.len() as int, off, stride, n);
    whole_pass(a, off, stride, 1, n, lim, true);
    let k = tap(off, r, stride, t, 1);
    assert(0 <= r * stride <= (n - 1) * stride) by (nonlinear_arith)
        requires
            0 <= r <= n - 1,
            0 <= stride,
    ;
    if is_tap(k, off, stride, 1, n) {
        let (c, u) = choose|c: int, u: int|
            0 <= c < n && -4 <= u < 4 && k == #[trigger] tap(off, c, 1, u, stride);
        assert(r * stride + t == u * stride + c);
        assert(r == u && t == c) by (nonlinear_arith)
            requires
                r * stride + t == u * stride + c,
                -4 <= t < 4,
                0 <= c < n,
                n + 4 < stride,
        ;
        assert(u == 3);
        assert(q[k] == deblocked(
            a,
            off + c * 1,
            stride,
            lim.thresh as int,
            lim.ithresh as int,
            lim.hev_thresh as int,
            true,
            3,
        ));
        assert(at(a, off + c * 1, stride, 3) == a[k]);
        far_samples_stay(
            a,
            off + c * 1,
            stride,
            lim.thresh as int,
            lim.ithresh as int,
            lim.hev_thresh as int,
            true,
            3,
        );
    }
}

/// The left pass leaves the samples across the top edge alone, but for the first three
/// columns.
proof fn lemma_top_tap_before_left(
    y: Seq<u8>,
    a: Seq<u8>,
    off: int,
    stride: int,
    n: int,
    lim: Limits,
    c: int,
    u: int,
)
    requires
        n == 8 || n == 16,
        n + 4 < stride,
        4 * stride <= off,
        off + (n - 1) * stride + n <= y.len(),
        a == normal_pass(y, off, 1, stride, n, lim, true),
        3 <= c < n,
        -4 <= u < 4,
    ensures
        at(a, off + c * 1, stride, u) == at(y, off + c * 1, stride, u),
{
    lemma_disjoint(stride, n);
    lemma_left_fits(y.len() as int, off, stride, n);
    whole_pass(y, off, 1, stride, n, lim, true);
    lemma_top_fits(y.len() as int, off, stride, n);
    let k = tap(off, c, 1, u, stride);
    assert(k == off + c * 1 + u * stride);
    assert(0 <= k < y.len());
    if is_tap(k, off, 1, stride, n) {
        let (r, t) = choose|r: int, t: int|
            0 <= r < n && -4 <= t < 4 && k == #[trigger] tap(off, r, stride, t, 1);
        assert(r * stride + t == u * stride + c);
        assert(r == u && t == c) by (nonlinear_arith)
            requires
                r * stride + t == u * stride + c,
                -4 <= t < 4,
                0 <= c < n,
                n + 4 < stride,
        ;
        assert(t == 3);
        assert(a[k] == deblocked(
            y,
            off + r * stride,
            1,
            lim.thresh as int,
            lim.ithresh as int,
            lim.hev_thresh as int,
            true,
            3,
        ));
        assert(at(y, off + r * stride, 1, 3) == y[k]);
        far_samples_stay(
            y,
            off + r * stride,
            1,
            lim.thresh as int,
            lim.ithresh as int,
            lim.hev_thresh as int,
            true,
            3,
        );
    }
}

/// Filtering macroblock by macroblock, the first `k` of them.
spec fn run(s: Samples, mb_w: int, finfo: Seq<FInfo>, ft: u8, k: int) -> Samples
    decreases k,
{
    if k <= 0 {
        s
    } else {
        let p = run(s, mb_w, finfo, ft, k - 1);
        if ft == 0 {
            p
        } else {
            mb_filtered(p, mb_w, (k - 1) % mb_w, (k - 1) / mb_w, ft, finfo[k - 1])
        }
    }
}

proof fn lemma_run_row(s: Samples, mb_w: int, finfo: Seq<FInfo>, ft: u8, y: int, k: int)
    requires
        1 <= mb_w,
        0 <= y,
        (y + 1) * mb_w <= finfo.len(),
        0 <= k <= mb_w,
    ensures
        row_filtered(
            run(s, mb_w, finfo, ft, y * mb_w),
            mb_w,
            finfo.subrange(y * mb_w, (y + 1) * mb_w),
            y,
            ft,
            k,
        ) == run(s, mb_w, finfo, ft, y * mb_w + k),
    decreases k,
{
    assert((y + 1) * mb_w == y * mb_w + mb_w) by (nonlinear_arith);
    assert(0 <= y * mb_w) by (nonlinear_arith)
        requires
            0 <= y,
            1 <= mb_w,
    ;
    if k > 0 {
        lemma_run_row(s, mb_w, finfo, ft, y, k - 1);
        vstd::arithmetic::div_mod::lemma_fundamental_div_mod_converse(
            y * mb_w + (k - 1),
            mb_w,
            y,
            k - 1,
        );
    }
    if ft == 0 {
        lemma_run_off(s, mb_w, finfo, y * mb_w);
        lemma_run_off(s, mb_w, finfo, y * mb_w + k);
    }
}

proof fn lemma_run_off(s: Samples, mb_w: int, finfo: Seq<FInfo>, k: int)
    ensures
        run(s, mb_w, finfo, 0, k) == s,
    decreases k,
{
    if k > 0 {
        lemma_run_off(s, mb_w, finfo, k - 1);
    }
}

proof fn lemma_run(s: Samples, mb_w: int, finfo: Seq<FInfo>, ft: u8, rows: int)
    requires
        1 <= mb_w,
        0 <= rows,
        rows * mb_w <= finfo.len(),
    ensures
        frame_filtered(s, mb_w, finfo, ft, rows) == run(s, mb_w, finfo, ft, rows * mb_w),
    decreases rows,
{
    if rows > 0 {
        assert((rows - 1) * mb_w + mb_w == rows * mb_w) by (nonlinear_arith);
        assert(((rows - 1) + 1) * mb_w == rows * mb_w);
        lemma_run(s, mb_w, finfo, ft, rows - 1);
        lemma_run_row(s, mb_w, finfo, ft, rows - 1, mb_w);
    } else {
        assert(0 * mb_w == 0);
    }
}

/// A macroblock whose limit is zero is not filtered.
proof fn lemma_mb_off(s: Samples, mb_w: int, x: int, y: int, ft: u8, info: FInfo)
    requires
        info.f_limit == 0,
    ensures
        mb_filtered(s, mb_w, x, y, ft, info) == s,
{
}

/// Filtering the first `n` macroblocks of a frame and then the others is filtering the
/// frame; a macroblock whose limit is zero is left out.
pub proof fn filtering_goes_macroblock_by_macroblock(
    s: Samples,
    mb_w: int,
    mb_h: int,
    finfo: Seq<FInfo>,
    first: Seq<FInfo>,
    others: Seq<FInfo>,
    filter_type: u8,
    n: int,
)
    requires
        1 <= mb_w,
        0 <= mb_h,
        finfo.len() == mb_w * mb_h,
        first.len() == finfo.len(),
        others.len() == finfo.len(),
        0 <= n <= finfo.len(),
        forall|i: int| 0 <= i < n ==> #[trigger] first[i] == finfo[i],
        forall|i: int| n <= i < finfo.len() ==> (#[trigger] first[i]).f_limit == 0,
        forall|i: int| 0 <= i < n ==> (#[trigger] others[i]).f_limit == 0,
        forall|i: int| n <= i < finfo.len() ==> #[trigger] others[i] == finfo[i],
    ensures
        frame_filtered(
            frame_filtered(s, mb_w, first, filter_type, mb_h),
            mb_w,
            others,
            filter_type,
            mb_h,
        ) == frame_filtered(s, mb_w, finfo, filter_type, mb_h),
{
    let total = mb_h * mb_w;
    assert(total == mb_w * mb_h) by (nonlinear_arith)
        requires
            total == mb_h * mb_w,
    ;
    let a = frame_filtered(s, mb_w, first, filter_type, mb_h);
    lemma_run(s, mb_w, first, filter_type, mb_h);
    lemma_run(a, mb_w, others, filter_type, mb_h);
    lemma_run(s, mb_w, finfo, filter_type, mb_h);
    lemma_run_first(s, mb_w, finfo, first, filter_type, n, total);
    lemma_run_others(s, a, mb_w, finfo, others, filter_type, n, total);
}

proof fn lemma_run_first(
    s: Samples,
    mb_w: int,
    finfo: Seq<FInfo>,
    first: Seq<FInfo>,
    ft: u8,
    n: int,
    k: int,
)
    requires
        0 <= k <= first.len() == finfo.len(),
        0 <= n,
        forall|i: int| 0 <= i < n && i < finfo.len() ==> #[trigger] first[i] == finfo[i],
        forall|i: int| n <= i < finfo.len() ==> (#[trigger] first[i]).f_limit == 0,
    ensures
        run(s, mb_w, first, ft, k) == run(s, mb_w, finfo, ft, if k < n {
            k
        } else {
            n
        }),
    decreases k,
{
    if k > 0 {
        lemma_run_first(s, mb_w, finfo, first, ft, n, k - 1);
        if k > n {
            lemma_mb_off(
                run(s, mb_w, first, ft, k - 1),
                mb_w,
                (k - 1) % mb_w,
                (k - 1) / mb_w,
                ft,
                first[k - 1],
            );
        } else {
            assert(first[k - 1] == finfo[k - 1]);
        }
    }
}

proof fn lemma_run_others(
    s: Samples,
    a: Samples,
    mb_w: int,
    finfo: Seq<FInfo>,
    others: Seq<FInfo>,
    ft: u8,
    n: int,
    k: int,
)
    requires
        0 <= k <= others.len() == finfo.len(),
        0 <= n <= finfo.len(),
        a == run(s, mb_w, finfo, ft, n),
        forall|i: int| 0 <= i < n ==> (#[trigger] others[i]).f_limit == 0,
        forall|i: int| n <= i < finfo.len() ==> #[trigger] others[i] == finfo[i],
    ensures
        run(a, mb_w, others, ft, k) == run(s, mb_w, finfo, ft, if k < n {
            n
        } else {
            k
        }),
    decreases k,
{
    if k > 0 {
        lemma_run_others(s, a, mb_w, finfo, others, ft, n, k - 1);
        if k <= n {
            lemma_mb_off(
                run(a, mb_w, others, ft, k - 1),
                mb_w,
                (k - 1) % mb_w,
                (k - 1) / mb_w,
                ft,
                others[k - 1],
            );
        } else {
            assert(others[k - 1] == finfo[k - 1]);
        }
    }
}

/// Whether macroblock `k` alone is filtered.
pub open spec fn only(finfo: Seq<FInfo>, k: int) -> bool {
    forall|i: int| 0 <= i < finfo.len() && i != k ==> (#[trigger] finfo[i]).f_limit == 0
}

proof fn lemma_only(s: Samples, mb_w: int, mb_h: int, finfo: Seq<FInfo>, ft: u8, k: int)
    requires
        1 <= mb_w,
        finfo.len() == mb_w * mb_h,
        0 <= k < finfo.len(),
        only(finfo, k),
        ft != 0,
    ensures
        frame_filtered(s, mb_w, finfo, ft, mb_h) == mb_filtered(
            s,
            mb_w,
            k % mb_w,
            k / mb_w,
            ft,
            finfo[k],
        ),
{
    lemma_grid(mb_w, mb_h, k);
    let total = mb_h * mb_w;
    assert(total == mb_w * mb_h) by (nonlinear_arith)
        requires
            total == mb_h * mb_w,
    ;
    lemma_run(s, mb_w, finfo, ft, mb_h);
    lemma_only_run(s, mb_w, finfo, ft, k, total);
}

proof fn lemma_only_run(s: Samples, mb_w: int, finfo: Seq<FInfo>, ft: u8, k: int, n: int)
    requires
        0 <= n <= finfo.len(),
        0 <= k < finfo.len(),
        only(finfo, k),
        ft != 0,
    ensures
        n <= k ==> run(s, mb_w, finfo, ft, n) == s,
        n > k ==> run(s, mb_w, finfo, ft, n) == mb_filtered(
            s,
            mb_w,
            k % mb_w,
            k / mb_w,
            ft,
            finfo[k],
        ),
    decreases n,
{
    if n > 0 {
        lemma_only_run(s, mb_w, finfo, ft, k, n - 1);
        if n - 1 != k {
            assert(finfo[n - 1].f_limit == 0);
            lemma_mb_off(
                run(s, mb_w, finfo, ft, n - 1),
                mb_w,
                (n - 1) % mb_w,
                (n - 1) / mb_w,
                ft,
                finfo[n - 1],
            );
        }
    }
}

/// Filtering one macroblock of a frame with the normal filter, interior edges left out,
/// deblocks its left edge (unless it is in the first column) and its top edge (unless it is
/// in the first row) in all three planes, and changes nothing else.
pub proof fn normal_filter_deblocks_macroblock_edges(
    s: Samples,
    mb_w: int,
    mb_h: int,
    finfo: Seq<FInfo>,
    k: int,
)
    requires
        1 <= mb_w,
        planes_sized(s, mb_w, mb_h),
        finfo.len() == mb_w * mb_h,
        0 <= k < finfo.len(),
        only(finfo, k),
        finfo[k].f_limit != 0,
        finfo[k].f_limit <= 900000,
        !finfo[k].f_inner,
    ensures
        ({
            let q = frame_filtered(s, mb_w, finfo, 2, mb_h);
            let x = k % mb_w;
            let y = k / mb_w;
            let ys = mb_w * 16 + 5;
            let us = mb_w * 8 + 1;
            let luma = (y * 16 + 1) * ys + (x * 16 + 1);
            let chroma = (y * 8 + 1) * us + (x * 8 + 1);
            let limit = finfo[k].f_limit + 4;
            let inner = finfo[k].f_ilevel as int;
            let hev = finfo[k].hev_thresh as int;
            &&& edges_deblocked(s.y, q.y, luma, ys, 16, x > 0, y > 0, limit, inner, hev)
            &&& edges_deblocked(s.u, q.u, chroma, us, 8, x > 0, y > 0, limit, inner, hev)
            &&& edges_deblocked(s.v, q.v, chroma, us, 8, x > 0, y > 0, limit, inner, hev)
        }),
{
    lemma_only(s, mb_w, mb_h, finfo, 2, k);
    lemma_grid(mb_w, mb_h, k);
    lemma_mb_fits(mb_w, mb_h, k % mb_w, k / mb_w);
    let x = k % mb_w;
    let y = k / mb_w;
    let ys = mb_w * 16 + 5;
    let us = mb_w * 8 + 1;
    let luma = (y * 16 + 1) * ys + (x * 16 + 1);
    let chroma = (y * 8 + 1) * us + (x * 8 + 1);
    let info = finfo[k];
    let lim = outer_limits(info);
    lemma_outer(s.y, luma, ys, 16, x > 0, y > 0, lim);
    lemma_outer(s.u, chroma, us, 8, x > 0, y > 0, lim);
    lemma_outer(s.v, chroma, us, 8, x > 0, y > 0, lim);
    assert(normal_filtered(s.y, luma, ys, x > 0, y > 0, info) == outer(
        s.y,
        luma,
        ys,
        16,
        x > 0,
        y > 0,
        lim,
    ));
    assert(chroma_filtered(s.u, chroma, us, x > 0, y > 0, info) == outer(
        s.u,
        chroma,
        us,
        8,
        x > 0,
        y > 0,
        lim,
    ));
    assert(chroma_filtered(s.v, chroma, us, x > 0, y > 0, info) == outer(
        s.v,
        chroma,
        us,
        8,
        x > 0,
        y > 0,
        lim,
    ));
}

/// One macroblock of a frame is filtered where it lies: its luma from row `16 y + 1` and
/// column `16 x + 1` of the plane on, its chroma from row `8 y + 1` and column `8 x + 1`
/// on, in the luma plane only by the simple filter, in all planes by the normal one. The
/// left edge is left out in the first column, the top edge in the first row.
pub proof fn one_macroblock_is_filtered_in_place(
    s: Samples,
    mb_w: int,
    mb_h: int,
    finfo: Seq<FInfo>,
    k: int,
)
    requires
        1 <= mb_w,
        finfo.len() == mb_w * mb_h,
        0 <= k < finfo.len(),
        only(finfo, k),
    ensures
        ({
            let x = k % mb_w;
            let y = k / mb_w;
            let ys = mb_w * 16 + 5;
            let us = mb_w * 8 + 1;
            let luma = (y * 16 + 1) * ys + (x * 16 + 1);
            let chroma = (y * 8 + 1) * us + (x * 8 + 1);
            let off = frame_filtered(s, mb_w, finfo, 0, mb_h);
            let simple = frame_filtered(s, mb_w, finfo, 1, mb_h);
            let normal = frame_filtered(s, mb_w, finfo, 2, mb_h);
            &&& off == s
            &&& simple.y == simple_filtered(s.y, luma, ys, x > 0, y > 0, finfo[k])
            &&& simple.u == s.u
            &&& simple.v == s.v
            &&& normal.y == normal_filtered(s.y, luma, ys, x > 0, y > 0, finfo[k])
            &&& normal.u == chroma_filtered(s.u, chroma, us, x > 0, y > 0, finfo[k])
            &&& normal.v == chroma_filtered(s.v, chroma, us, x > 0, y > 0, finfo[k])
        }),
{
    lemma_only(s, mb_w, mb_h, finfo, 1, k);
    lemma_only(s, mb_w, mb_h, finfo, 2, k);
    crate::reconstruct::filter_off_changes_nothing(s, mb_w, finfo, mb_h);
}

/// Whether `q` is `p` with the left and top edges of the macroblock at `off` smoothed by
/// the simple filter, except at the corner, where the edges meet.
pub open spec fn edges_smoothed(
    p: Seq<u8>,
    q: Seq<u8>,
    off: int,
    stride: int,
    left: bool,
    top: bool,
    limit: int,
) -> bool {
    &&& q.len() == p.len()
    &&& left ==> forall|r: int, t: int|
        0 <= r < 16 && -4 <= t < 4 && (!top || t < 0 || r >= 1) ==> q[#[trigger] tap(
            off,
            r,
            stride,
            t,
            1,
        )] == smoothed(p, off + r * stride, 1, limit, t)
    &&& top ==> forall|c: int, t: int|
        0 <= c < 16 && -4 <= t < 4 && (!left || c >= 1) ==> q[#[trigger] tap(off, c, 1, t, stride)]
            == smoothed(p, off + c, stride, limit, t)
    &&& forall|k: int|
        0 <= k < p.len() && !(left && is_tap(k, off, 1, stride, 16)) && !(top && is_tap(
            k,
            off,
            stride,
            1,
            16,
        )) ==> #[trigger] q[k] == p[k]
}

/// A sample across the left edge that the top pass does not move.
proof fn lemma_left_tap_after_simple_top(
    a: Seq<u8>,
    off: int,
    stride: int,
    limit: int,
    r: int,
    t: int,
)
    requires
        21 <= stride,
        4 * stride <= off,
        off + 15 * stride + 16 <= a.len(),
        0 <= r < 16,
        -4 <= t < 4,
        t < 0 || r >= 1,
    ensures
        simple_pass(a, off, stride, 1, 16, 2 * limit + 1)[tap(off, r, stride, t, 1)] == a[tap(
            off,
            r,
            stride,
            t,
            1,
        )],
{
    let q = simple_pass(a, off, stride, 1, 16, 2 * limit + 1);
    lemma_disjoint(stride, 16);
    lemma_top_fits(a.len() as int, off, stride, 16);
    whole_simple_pass(a, off, stride, 1, 16, limit);
    let k = tap(off, r, stride, t, 1);
    assert(0 <= r * stride <= 15 * stride) by (nonlinear_arith)
        requires
            0 <= r <= 15,
            0 <= stride,
    ;
    if is_tap(k, off, stride, 1, 16) {
        let (c, u) = choose|c: int, u: int|
            0 <= c < 16 && -4 <= u < 4 && k == #[trigger] tap(off, c, 1, u, stride);
        assert(r == u && t == c) by (nonlinear_arith)
            requires
                r * stride + t == u * stride + c,
                -4 <= t < 4,
                0 <= c < 16,
                21 <= stride,
        ;
        assert(at(a, off + c * 1, stride, u) == a[k]);
        simple_filter_moves_two(a, off + c * 1, stride, limit, u);
    }
}

/// A sample across the top edge that the left pass does not move.
proof fn lemma_top_tap_before_simple_left(
    y: Seq<u8>,
    off: int,
    stride: int,
    limit: int,
    c: int,
    u: int,
)
    requires
        21 <= stride,
        4 * stride <= off,
        off + 15 * stride + 16 <= y.len(),
        1 <= c < 16,
        -4 <= u < 4,
    ensures
        at(simple_pass(y, off, 1, stride, 16, 2 * limit + 1), off + c * 1, stride, u) == at(
            y,
            off + c * 1,
            stride,
            u,
        ),
{
    let a = simple_pass(y, off, 1, stride, 16, 2 * limit + 1);
    lemma_disjoint(stride, 16);
    lemma_left_fits(y.len() as int, off, stride, 16);
    whole_simple_pass(y, off, 1, stride, 16, limit);
    lemma_top_fits(y.len() as int, off, stride, 16);
    let k = tap(off, c, 1, u, stride);
    assert(k == off + c * 1 + u * stride);
    assert(0 <= k < y.len());
    if is_tap(k, off, 1, stride, 16) {
        let (r, t) = choose|r: int, t: int|
            0 <= r < 16 && -4 <= t < 4 && k == #[trigger] tap(off, r, stride, t, 1);
        assert(r == u && t == c) by (nonlinear_arith)
            requires
                r * stride + t == u * stride + c,
                -4 <= t < 4,
                0 <= c < 16,
                21 <= stride,
        ;
        assert(at(y, off + r * stride, 1, t) == y[k]);
        simple_filter_moves_two(y, off + r * stride, 1, limit, t);
    }
}

/// Filtering one macroblock of a frame with the simple filter, interior edges left out,
/// smooths its left edge (unless it is in the first column) and its top edge (unless it is
/// in the first row) in the luma plane, and changes nothing else.
pub proof fn simple_filter_smooths_macroblock_edges(
    s: Samples,
    mb_w: int,
    mb_h: int,
    finfo: Seq<FInfo>,
    k: int,
)
    requires
        1 <= mb_w,
        planes_sized(s, mb_w, mb_h),
        finfo.len() == mb_w * mb_h,
        0 <= k < finfo.len(),
        only(finfo, k),
        finfo[k].f_limit != 0,
        !finfo[k].f_inner,
    ensures
        ({
            let q = frame_filtered(s, mb_w, finfo, 1, mb_h);
            let x = k % mb_w;
            let y = k / mb_w;
            let ys = mb_w * 16 + 5;
            let luma = (y * 16 + 1) * ys + (x * 16 + 1);
            &&& edges_smoothed(s.y, q.y, luma, ys, x > 0, y > 0, finfo[k].f_limit + 4)
            &&& q.u == s.u
            &&& q.v == s.v
        }),
{
    one_macroblock_is_filtered_in_place(s, mb_w, mb_h, finfo, k);
    lemma_grid(mb_w, mb_h, k);
    lemma_mb_fits(mb_w, mb_h, k % mb_w, k / mb_w);
    let left = k % mb_w > 0;
    let top = k / mb_w > 0;
    let stride = mb_w * 16 + 5;
    let off = (k / mb_w * 16 + 1) * stride + (k % mb_w * 16 + 1);
    let limit = finfo[k].f_limit + 4;
    let y = s.y;
    let len = y.len() as int;
    lemma_disjoint(stride, 16);
    let a = if left {
        lemma_left_fits(len, off, stride, 16);
        whole_simple_pass(y, off, 1, stride, 16, limit);
        simple_pass(y, off, 1, stride, 16, 2 * limit + 1)
    } else {
        y
    };
    let q = if top {
        lemma_top_fits(len, off, stride, 16);
        whole_simple_pass(a, off, stride, 1, 16, limit);
        simple_pass(a, off, stride, 1, 16, 2 * limit + 1)
    } else {
        a
    };
    assert(q == frame_filtered(s, mb_w, finfo, 1, mb_h).y);
    if left {
        assert forall|r: int, t: int|
            0 <= r < 16 && -4 <= t < 4 && (!top || t < 0 || r >= 1) implies q[#[trigger] tap(
            off,
            r,
            stride,
            t,
            1,
        )] == smoothed(y, off + r * stride, 1, limit, t) by {
            if top {
                lemma_left_tap_after_simple_top(a, off, stride, limit, r, t);
            }
        }
    }
    if top {
        assert forall|c: int, t: int|
            0 <= c < 16 && -4 <= t < 4 && (!left || c >= 1) implies q[#[trigger] tap(
            off,
            c,
            1,
            t,
            stride,
        )] == smoothed(y, off + c, stride, limit, t) by {
            if left {
                assert forall|u: int| -4 <= u < 4 implies #[trigger] at(a, off + c * 1, stride, u)
                    == at(y, off + c * 1, stride, u) by {
                    lemma_top_tap_before_simple_left(y, off, stride, limit, c, u);
                }
                lemma_deblocked_ext(a, y, off + c * 1, stride, limit, 0, 0, false, t);
            }
        }
    }
}

} // verus!
