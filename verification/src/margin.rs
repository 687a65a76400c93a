//! The right margin of the luma plane does not count.
//!
//! Four columns right of the picture hold what prediction sets up above to the right of
//! a macroblock, and encoder and decoder leave different things there. They are
//! never part of the picture, and the loop filter neither reads nor writes them. So
//! planes that show the same tiles yield the same picture, filtered or not.

use vstd::arithmetic::div_mod::{lemma_fundamental_div_mod, lemma_fundamental_div_mod_converse};
use vstd::prelude::*;

use crate::loop_filter::{
    inner_limits, normal_edge, normal_filtered, normal_inner, normal_pass, outer_limits, simple_edge,
    simple_filtered, simple_inner, simple_pass, FInfo, Limits,
};
use crate::planning::before;
use crate::reconstruct::{
    chroma_stride, frame_filtered, luma_stride, mb_off, picture_of, row_filtered, Samples,
};
use crate::tiles::{
    lemma_tile_row, lemma_tile_sample, plane_shows, shows, u_blocks, v_blocks, y_blocks, Tile,
};
use crate::yuv::{rgba_image, rgba_row};

verus! {

/// Whether position `i` of a plane lies left of the margin.
pub open spec fn counts(i: int, len: int, stride: int, width: int) -> bool {
    0 <= i < len && i % stride <= width
}

/// Whether planes agree left of the margin.
pub open spec fn agree(p: Seq<u8>, q: Seq<u8>, stride: int, width: int) -> bool {
    &&& p.len() == q.len()
    &&& forall|i: int|
        #![trigger p[i]]
        #![trigger q[i]]
        counts(i, p.len() as int, stride, width) ==> p[i] == q[i]
}

/// Whether frames agree left of the margin of the luma plane.
pub open spec fn same_picture(s: Samples, t: Samples, mb_w: int) -> bool {
    &&& agree(s.y, t.y, luma_stride(mb_w), mb_w * 16)
    &&& s.u == t.u
    &&& s.v == t.v
}

/// Tap `t` of the filter at position `i` of a pass.
pub open spec fn tap(off: int, i: int, vstride: int, t: int, hstride: int) -> int {
    off + i * vstride + t * hstride
}

/// Whether every tap of a pass lies left of the margin.
pub open spec fn taps_count(
    len: int,
    off: int,
    hstride: int,
    vstride: int,
    size: int,
    stride: int,
    width: int,
) -> bool {
    forall|i: int, t: int|
        0 <= i < size && -4 <= t < 4 ==> counts(
            #[trigger] tap(off, i, vstride, t, hstride),
            len,
            stride,
            width,
        )
}

proof fn lemma_normal_edge(
    p: Seq<u8>,
    q: Seq<u8>,
    pos: int,
    step: int,
    lim: Limits,
    six: bool,
    stride: int,
    width: int,
)
    requires
        agree(p, q, stride, width),
        forall|t: int|
            -4 <= t < 4 ==> counts(#[trigger] tap(pos, 0, 0, t, step), p.len() as int, stride, width),
    ensures
        agree(
            normal_edge(p, pos, step, lim, six),
            normal_edge(q, pos, step, lim, six),
            stride,
            width,
        ),
        normal_edge(p, pos, step, lim, six).len() == p.len(),
{
    assert(counts(tap(pos, 0, 0, -4, step), p.len() as int, stride, width));
    assert(counts(tap(pos, 0, 0, -3, step), p.len() as int, stride, width));
    assert(counts(tap(pos, 0, 0, -2, step), p.len() as int, stride, width));
    assert(counts(tap(pos, 0, 0, -1, step), p.len() as int, stride, width));
    assert(counts(tap(pos, 0, 0, 0, step), p.len() as int, stride, width));
    assert(counts(tap(pos, 0, 0, 1, step), p.len() as int, stride, width));
    assert(counts(tap(pos, 0, 0, 2, step), p.len() as int, stride, width));
    assert(counts(tap(pos, 0, 0, 3, step), p.len() as int, stride, width));
    assert(p[pos - 4 * step] == q[pos - 4 * step]);
    assert(p[pos - 3 * step] == q[pos - 3 * step]);
    assert(p[pos - 2 * step] == q[pos - 2 * step]);
    assert(p[pos - step] == q[pos - step]);
    assert(p[pos] == q[pos]);
    assert(p[pos + step] == q[pos + step]);
    assert(p[pos + 2 * step] == q[pos + 2 * step]);
    assert(p[pos + 3 * step] == q[pos + 3 * step]);
}

proof fn lemma_simple_edge(
    p: Seq<u8>,
    q: Seq<u8>,
    pos: int,
    step: int,
    thresh2: int,
    stride: int,
    width: int,
)
    requires
        agree(p, q, stride, width),
        forall|t: int|
            -4 <= t < 4 ==> counts(#[trigger] tap(pos, 0, 0, t, step), p.len() as int, stride, width),
    ensures
        agree(
            simple_edge(p, pos, step, thresh2),
            simple_edge(q, pos, step, thresh2),
            stride,
            width,
        ),
        simple_edge(p, pos, step, thresh2).len() == p.len(),
{
    assert(counts(tap(pos, 0, 0, -2, step), p.len() as int, stride, width));
    assert(counts(tap(pos, 0, 0, -1, step), p.len() as int, stride, width));
    assert(counts(tap(pos, 0, 0, 0, step), p.len() as int, stride, width));
    assert(counts(tap(pos, 0, 0, 1, step), p.len() as int, stride, width));
    assert(p[pos - 2 * step] == q[pos - 2 * step]);
    assert(p[pos - step] == q[pos - step]);
    assert(p[pos] == q[pos]);
    assert(p[pos + step] == q[pos + step]);
}

proof fn lemma_normal_pass(
    p: Seq<u8>,
    q: Seq<u8>,
    off: int,
    hstride: int,
    vstride: int,
    size: int,
    lim: Limits,
    six: bool,
    stride: int,
    width: int,
)
    requires
        agree(p, q, stride, width),
        taps_count(p.len() as int, off, hstride, vstride, size, stride, width),
    ensures
        agree(
            normal_pass(p, off, hstride, vstride, size, lim, six),
            normal_pass(q, off, hstride, vstride, size, lim, six),
            stride,
            width,
        ),
        normal_pass(p, off, hstride, vstride, size, lim, six).len() == p.len(),
    decreases size,
{
    if size > 0 {
        assert forall|i: int, t: int| 0 <= i < size - 1 && -4 <= t < 4 implies counts(
            #[trigger] tap(off, i, vstride, t, hstride),
            p.len() as int,
            stride,
            width,
        ) by {}
        lemma_normal_pass(p, q, off, hstride, vstride, size - 1, lim, six, stride, width);
        let a = normal_pass(p, off, hstride, vstride, size - 1, lim, six);
        let b = normal_pass(q, off, hstride, vstride, size - 1, lim, six);
        let pos = off + (size - 1) * vstride;
        assert forall|t: int| -4 <= t < 4 implies counts(
            #[trigger] tap(pos, 0, 0, t, hstride),
            a.len() as int,
            stride,
            width,
        ) by {
            assert(tap(pos, 0, 0, t, hstride) == tap(off, size - 1, vstride, t, hstride));
        }
        lemma_normal_edge(a, b, pos, hstride, lim, six, stride, width);
    }
}

proof fn lemma_simple_pass(
    p: Seq<u8>,
    q: Seq<u8>,
    off: int,
    hstride: int,
    vstride: int,
    size: int,
    thresh2: int,
    stride: int,
    width: int,
)
    requires
        agree(p, q, stride, width),
        taps_count(p.len() as int, off, hstride, vstride, size, stride, width),
    ensures
        agree(
            simple_pass(p, off, hstride, vstride, size, thresh2),
            simple_pass(q, off, hstride, vstride, size, thresh2),
            stride,
            width,
        ),
        simple_pass(p, off, hstride, vstride, size, thresh2).len() == p.len(),
    decreases size,
{
    if size > 0 {
        assert forall|i: int, t: int| 0 <= i < size - 1 && -4 <= t < 4 implies counts(
            #[trigger] tap(off, i, vstride, t, hstride),
            p.len() as int,
            stride,
            width,
        ) by {}
        lemma_simple_pass(p, q, off, hstride, vstride, size - 1, thresh2, stride, width);
        let a = simple_pass(p, off, hstride, vstride, size - 1, thresh2);
        let b = simple_pass(q, off, hstride, vstride, size - 1, thresh2);
        let pos = off + (size - 1) * vstride;
        assert forall|t: int| -4 <= t < 4 implies counts(
            #[trigger] tap(pos, 0, 0, t, hstride),
            a.len() as int,
            stride,
            width,
        ) by {
            assert(tap(pos, 0, 0, t, hstride) == tap(off, size - 1, vstride, t, hstride));
        }
        lemma_simple_edge(a, b, pos, hstride, thresh2, stride, width);
    }
}

/// The sample `c` columns right of and `r` rows below a macroblock's corner.
proof fn lemma_at(mb_w: int, mb_h: int, mb_x: int, mb_y: int, r: int, c: int)
    requires
        0 <= mb_x < mb_w,
        0 <= mb_y < mb_h,
        -4 <= r < 16,
        -4 <= c < 16,
        mb_y > 0 || r >= 0,
        mb_x > 0 || c >= 0,
    ensures
        counts(
            mb_off(luma_stride(mb_w), 16, mb_x, mb_y) + r * luma_stride(mb_w) + c,
            luma_stride(mb_w) * (1 + mb_h * 16),
            luma_stride(mb_w),
            mb_w * 16,
        ),
{
    let s = luma_stride(mb_w);
    let row = mb_y * 16 + 1 + r;
    let col = mb_x * 16 + 1 + c;
    let i = mb_off(s, 16, mb_x, mb_y) + r * s + c;
    assert(i == row * s + col) by (nonlinear_arith)
        requires
            i == (mb_y * 16 + 1) * s + (mb_x * 16 + 1) + r * s + c,
            row == mb_y * 16 + 1 + r,
            col == mb_x * 16 + 1 + c,
    ;
    assert(0 <= col <= mb_w * 16);
    assert(0 <= row <= mb_h * 16);
    lemma_fundamental_div_mod_converse(i, s, row, col);
    assert(0 <= i < s * (1 + mb_h * 16)) by (nonlinear_arith)
        requires
            i == row * s + col,
            0 <= col < s,
            0 <= row < 1 + mb_h * 16,
    ;
}

/// The taps across a vertical edge `gap` columns into a macroblock.
proof fn lemma_taps_across(mb_w: int, mb_h: int, mb_x: int, mb_y: int, gap: int)
    requires
        0 <= mb_x < mb_w,
        0 <= mb_y < mb_h,
        gap == 0 || gap == 4 || gap == 8 || gap == 12,
        mb_x > 0 || gap > 0,
    ensures
        taps_count(
            luma_stride(mb_w) * (1 + mb_h * 16),
            mb_off(luma_stride(mb_w), 16, mb_x, mb_y) + gap,
            1,
            luma_stride(mb_w),
            16,
            luma_stride(mb_w),
            mb_w * 16,
        ),
{
    let s = luma_stride(mb_w);
    let off = mb_off(s, 16, mb_x, mb_y);
    assert forall|i: int, t: int| 0 <= i < 16 && -4 <= t < 4 implies counts(
        #[trigger] tap(off + gap, i, s, t, 1),
        s * (1 + mb_h * 16),
        s,
        mb_w * 16,
    ) by {
        lemma_at(mb_w, mb_h, mb_x, mb_y, i, gap + t);
    }
}

/// The taps across a horizontal edge `gap` rows into a macroblock.
proof fn lemma_taps_down(mb_w: int, mb_h: int, mb_x: int, mb_y: int, gap: int)
    requires
        0 <= mb_x < mb_w,
        0 <= mb_y < mb_h,
        gap == 0 || gap == 4 || gap == 8 || gap == 12,
        mb_y > 0 || gap > 0,
    ensures
        taps_count(
            luma_stride(mb_w) * (1 + mb_h * 16),
            mb_off(luma_stride(mb_w), 16, mb_x, mb_y) + gap * luma_stride(mb_w),
            luma_stride(mb_w),
            1,
            16,
            luma_stride(mb_w),
            mb_w * 16,
        ),
{
    let s = luma_stride(mb_w);
    let off = mb_off(s, 16, mb_x, mb_y);
    assert forall|i: int, t: int| 0 <= i < 16 && -4 <= t < 4 implies counts(
        #[trigger] tap(off + gap * s, i, 1, t, s),
        s * (1 + mb_h * 16),
        s,
        mb_w * 16,
    ) by {
        lemma_at(mb_w, mb_h, mb_x, mb_y, gap + t, i);
        assert((gap + t) * s == gap * s + t * s) by (nonlinear_arith);
    }
}

proof fn lemma_normal_mb(
    p: Seq<u8>,
    q: Seq<u8>,
    mb_w: int,
    mb_h: int,
    mb_x: int,
    mb_y: int,
    info: FInfo,
)
    requires
        0 <= mb_x < mb_w,
        0 <= mb_y < mb_h,
        p.len() == luma_stride(mb_w) * (1 + mb_h * 16),
        agree(p, q, luma_stride(mb_w), mb_w * 16),
    ensures
        ({
            let s = luma_stride(mb_w);
            let off = mb_off(s, 16, mb_x, mb_y);
            let a = normal_filtered(p, off, s, mb_x > 0, mb_y > 0, info);
            let b = normal_filtered(q, off, s, mb_x > 0, mb_y > 0, info);
            agree(a, b, s, mb_w * 16) && a.len() == p.len()
        }),
{
    let s = luma_stride(mb_w);
    let w = mb_w * 16;
    let off = mb_off(s, 16, mb_x, mb_y);
    let outer = outer_limits(info);
    let inner = inner_limits(info);
    if info.f_limit != 0 {
        let (p1, q1) = if mb_x > 0 {
            lemma_taps_across(mb_w, mb_h, mb_x, mb_y, 0);
            lemma_normal_pass(p, q, off, 1, s, 16, outer, true, s, w);
            (
                normal_pass(p, off, 1, s, 16, outer, true),
                normal_pass(q, off, 1, s, 16, outer, true),
            )
        } else {
            (p, q)
        };
        let (p2, q2) = if info.f_inner {
            lemma_normal_inner_across(p1, q1, mb_w, mb_h, mb_x, mb_y, inner);
            (normal_inner(p1, off, 1, s, 4, inner), normal_inner(q1, off, 1, s, 4, inner))
        } else {
            (p1, q1)
        };
        let (p3, q3) = if mb_y > 0 {
            lemma_taps_down(mb_w, mb_h, mb_x, mb_y, 0);
            assert(0 * s == 0);
            lemma_normal_pass(p2, q2, off, s, 1, 16, outer, true, s, w);
            (
                normal_pass(p2, off, s, 1, 16, outer, true),
                normal_pass(q2, off, s, 1, 16, outer, true),
            )
        } else {
            (p2, q2)
        };
        if info.f_inner {
            lemma_normal_inner_down(p3, q3, mb_w, mb_h, mb_x, mb_y, inner);
        }
    }
}

proof fn lemma_normal_inner_across(
    p: Seq<u8>,
    q: Seq<u8>,
    mb_w: int,
    mb_h: int,
    mb_x: int,
    mb_y: int,
    lim: Limits,
)
    requires
        0 <= mb_x < mb_w,
        0 <= mb_y < mb_h,
        p.len() == luma_stride(mb_w) * (1 + mb_h * 16),
        agree(p, q, luma_stride(mb_w), mb_w * 16),
    ensures
        ({
            let s = luma_stride(mb_w);
            let off = mb_off(s, 16, mb_x, mb_y);
            let a = normal_inner(p, off, 1, s, 4, lim);
            let b = normal_inner(q, off, 1, s, 4, lim);
            agree(a, b, s, mb_w * 16) && a.len() == p.len()
        }),
{
    let s = luma_stride(mb_w);
    let w = mb_w * 16;
    let off = mb_off(s, 16, mb_x, mb_y);
    lemma_taps_across(mb_w, mb_h, mb_x, mb_y, 4);
    lemma_taps_across(mb_w, mb_h, mb_x, mb_y, 8);
    lemma_taps_across(mb_w, mb_h, mb_x, mb_y, 12);
    lemma_normal_pass(p, q, off + 4, 1, s, 16, lim, false, s, w);
    let a = normal_pass(p, off + 4, 1, s, 16, lim, false);
    let b = normal_pass(q, off + 4, 1, s, 16, lim, false);
    lemma_normal_pass(a, b, off + 8, 1, s, 16, lim, false, s, w);
    let c = normal_pass(a, off + 8, 1, s, 16, lim, false);
    let d = normal_pass(b, off + 8, 1, s, 16, lim, false);
    lemma_normal_pass(c, d, off + 12, 1, s, 16, lim, false, s, w);
}

proof fn lemma_normal_inner_down(
    p: Seq<u8>,
    q: Seq<u8>,
    mb_w: int,
    mb_h: int,
    mb_x: int,
    mb_y: int,
    lim: Limits,
)
    requires
        0 <= mb_x < mb_w,
        0 <= mb_y < mb_h,
        p.len() == luma_stride(mb_w) * (1 + mb_h * 16),
        agree(p, q, luma_stride(mb_w), mb_w * 16),
    ensures
        ({
            let s = luma_stride(mb_w);
            let off = mb_off(s, 16, mb_x, mb_y);
            let a = normal_inner(p, off, s, 1, 4 * s, lim);
            let b = normal_inner(q, off, s, 1, 4 * s, lim);
            agree(a, b, s, mb_w * 16) && a.len() == p.len()
        }),
{
    let s = luma_stride(mb_w);
    let w = mb_w * 16;
    let off = mb_off(s, 16, mb_x, mb_y);
    let g = 4 * s;
    assert(8 * s == 2 * g && 12 * s == 3 * g);
    lemma_taps_down(mb_w, mb_h, mb_x, mb_y, 4);
    lemma_taps_down(mb_w, mb_h, mb_x, mb_y, 8);
    lemma_taps_down(mb_w, mb_h, mb_x, mb_y, 12);
    lemma_normal_pass(p, q, off + g, s, 1, 16, lim, false, s, w);
    let a = normal_pass(p, off + g, s, 1, 16, lim, false);
    let b = normal_pass(q, off + g, s, 1, 16, lim, false);
    lemma_normal_pass(a, b, off + 2 * g, s, 1, 16, lim, false, s, w);
    let c = normal_pass(a, off + 2 * g, s, 1, 16, lim, false);
    let d = normal_pass(b, off + 2 * g, s, 1, 16, lim, false);
    lemma_normal_pass(c, d, off + 3 * g, s, 1, 16, lim, false, s, w);
}

proof fn lemma_simple_inner_across(
    p: Seq<u8>,
    q: Seq<u8>,
    mb_w: int,
    mb_h: int,
    mb_x: int,
    mb_y: int,
    th: int,
)
    requires
        0 <= mb_x < mb_w,
        0 <= mb_y < mb_h,
        p.len() == luma_stride(mb_w) * (1 + mb_h * 16),
        agree(p, q, luma_stride(mb_w), mb_w * 16),
    ensures
        ({
            let s = luma_stride(mb_w);
            let off = mb_off(s, 16, mb_x, mb_y);
            let a = simple_inner(p, off, 1, s, 4, th);
            let b = simple_inner(q, off, 1, s, 4, th);
            agree(a, b, s, mb_w * 16) && a.len() == p.len()
        }),
{
    let s = luma_stride(mb_w);
    let w = mb_w * 16;
    let off = mb_off(s, 16, mb_x, mb_y);
    lemma_taps_across(mb_w, mb_h, mb_x, mb_y, 4);
    lemma_taps_across(mb_w, mb_h, mb_x, mb_y, 8);
    lemma_taps_across(mb_w, mb_h, mb_x, mb_y, 12);
    lemma_simple_pass(p, q, off + 4, 1, s, 16, th, s, w);
    let a = simple_pass(p, off + 4, 1, s, 16, th);
    let b = simple_pass(q, off + 4, 1, s, 16, th);
    lemma_simple_pass(a, b, off + 8, 1, s, 16, th, s, w);
    let c = simple_pass(a, off + 8, 1, s, 16, th);
    let d = simple_pass(b, off + 8, 1, s, 16, th);
    lemma_simple_pass(c, d, off + 12, 1, s, 16, th, s, w);
}

proof fn lemma_simple_inner_down(
    p: Seq<u8>,
    q: Seq<u8>,
    mb_w: int,
    mb_h: int,
    mb_x: int,
    mb_y: int,
    th: int,
)
    requires
        0 <= mb_x < mb_w,
        0 <= mb_y < mb_h,
        p.len() == luma_stride(mb_w) * (1 + mb_h * 16),
        agree(p, q, luma_stride(mb_w), mb_w * 16),
    ensures
        ({
            let s = luma_stride(mb_w);
            let off = mb_off(s, 16, mb_x, mb_y);
            let a = simple_inner(p, off, s, 1, 4 * s, th);
            let b = simple_inner(q, off, s, 1, 4 * s, th);
            agree(a, b, s, mb_w * 16) && a.len() == p.len()
        }),
{
    let s = luma_stride(mb_w);
    let w = mb_w * 16;
    let off = mb_off(s, 16, mb_x, mb_y);
    let g = 4 * s;
    assert(8 * s == 2 * g && 12 * s == 3 * g);
    lemma_taps_down(mb_w, mb_h, mb_x, mb_y, 4);
    lemma_taps_down(mb_w, mb_h, mb_x, mb_y, 8);
    lemma_taps_down(mb_w, mb_h, mb_x, mb_y, 12);
    lemma_simple_pass(p, q, off + g, s, 1, 16, th, s, w);
    let a = simple_pass(p, off + g, s, 1, 16, th);
    let b = simple_pass(q, off + g, s, 1, 16, th);
    lemma_simple_pass(a, b, off + 2 * g, s, 1, 16, th, s, w);
    let c = simple_pass(a, off + 2 * g, s, 1, 16, th);
    let d = simple_pass(b, off + 2 * g, s, 1, 16, th);
    lemma_simple_pass(c, d, off + 3 * g, s, 1, 16, th, s, w);
}

proof fn lemma_simple_mb(
    p: Seq<u8>,
    q: Seq<u8>,
    mb_w: int,
    mb_h: int,
    mb_x: int,
    mb_y: int,
    info: FInfo,
)
    requires
        0 <= mb_x < mb_w,
        0 <= mb_y < mb_h,
        p.len() == luma_stride(mb_w) * (1 + mb_h * 16),
        agree(p, q, luma_stride(mb_w), mb_w * 16),
    ensures
        ({
            let s = luma_stride(mb_w);
            let off = mb_off(s, 16, mb_x, mb_y);
            let a = simple_filtered(p, off, s, mb_x > 0, mb_y > 0, info);
            let b = simple_filtered(q, off, s, mb_x > 0, mb_y > 0, info);
            agree(a, b, s, mb_w * 16) && a.len() == p.len()
        }),
{
    let s = luma_stride(mb_w);
    let w = mb_w * 16;
    let off = mb_off(s, 16, mb_x, mb_y);
    let edge = 2 * (info.f_limit + 4) + 1;
    let inside = 2 * info.f_limit + 1;
    if info.f_limit != 0 {
        let (p1, q1) = if mb_x > 0 {
            lemma_taps_across(mb_w, mb_h, mb_x, mb_y, 0);
            lemma_simple_pass(p, q, off, 1, s, 16, edge, s, w);
            (simple_pass(p, off, 1, s, 16, edge), simple_pass(q, off, 1, s, 16, edge))
        } else {
            (p, q)
        };
        let (p2, q2) = if info.f_inner {
            lemma_simple_inner_across(p1, q1, mb_w, mb_h, mb_x, mb_y, inside);
            (simple_inner(p1, off, 1, s, 4, inside), simple_inner(q1, off, 1, s, 4, inside))
        } else {
            (p1, q1)
        };
        let (p3, q3) = if mb_y > 0 {
            lemma_taps_down(mb_w, mb_h, mb_x, mb_y, 0);
            assert(0 * s == 0);
            lemma_simple_pass(p2, q2, off, s, 1, 16, edge, s, w);
            (simple_pass(p2, off, s, 1, 16, edge), simple_pass(q2, off, s, 1, 16, edge))
        } else {
            (p2, q2)
        };
        if info.f_inner {
            lemma_simple_inner_down(p3, q3, mb_w, mb_h, mb_x, mb_y, inside);
        }
    }
}

proof fn lemma_row(
    s: Samples,
    t: Samples,
    mb_w: int,
    mb_h: int,
    row: Seq<FInfo>,
    mb_y: int,
    ft: u8,
    k: int,
)
    requires
        0 <= k <= mb_w,
        0 <= mb_y < mb_h,
        s.y.len() == luma_stride(mb_w) * (1 + mb_h * 16),
        same_picture(s, t, mb_w),
    ensures
        same_picture(
            row_filtered(s, mb_w, row, mb_y, ft, k),
            row_filtered(t, mb_w, row, mb_y, ft, k),
            mb_w,
        ),
        row_filtered(s, mb_w, row, mb_y, ft, k).y.len() == s.y.len(),
    decreases k,
{
    if ft != 0 && k > 0 {
        lemma_row(s, t, mb_w, mb_h, row, mb_y, ft, k - 1);
        let a = row_filtered(s, mb_w, row, mb_y, ft, k - 1);
        let b = row_filtered(t, mb_w, row, mb_y, ft, k - 1);
        if ft == 1 {
            lemma_simple_mb(a.y, b.y, mb_w, mb_h, k - 1, mb_y, row[k - 1]);
        } else {
            lemma_normal_mb(a.y, b.y, mb_w, mb_h, k - 1, mb_y, row[k - 1]);
        }
    }
}

/// The loop filter keeps pictures the same: what lies in the margin does not reach them.
pub proof fn filter_keeps_same_picture(
    s: Samples,
    t: Samples,
    mb_w: int,
    mb_h: int,
    finfo: Seq<FInfo>,
    ft: u8,
    rows: int,
)
    requires
        0 <= rows <= mb_h,
        1 <= mb_w,
        s.y.len() == luma_stride(mb_w) * (1 + mb_h * 16),
        same_picture(s, t, mb_w),
    ensures
        same_picture(
            frame_filtered(s, mb_w, finfo, ft, rows),
            frame_filtered(t, mb_w, finfo, ft, rows),
            mb_w,
        ),
        frame_filtered(s, mb_w, finfo, ft, rows).y.len() == s.y.len(),
    decreases rows,
{
    if rows > 0 {
        filter_keeps_same_picture(s, t, mb_w, mb_h, finfo, ft, rows - 1);
        lemma_row(
            frame_filtered(s, mb_w, finfo, ft, rows - 1),
            frame_filtered(t, mb_w, finfo, ft, rows - 1),
            mb_w,
            mb_h,
            finfo.subrange((rows - 1) * mb_w, rows * mb_w),
            rows - 1,
            ft,
            mb_w,
        );
    }
}

/// A plane that shows all its blocks is determined left of the margin.
proof fn lemma_plane_shows_agree(
    p: Seq<u8>,
    q: Seq<u8>,
    stride: int,
    n: int,
    mb_w: int,
    mb_h: int,
    blocks: spec_fn(int) -> Seq<u8>,
)
    requires
        plane_shows(p, stride, n, mb_w, mb_h, blocks, before(mb_w * mb_h)),
        plane_shows(q, stride, n, mb_w, mb_h, blocks, before(mb_w * mb_h)),
        1 <= mb_w,
        0 <= mb_h,
        n == 8 || n == 16,
        stride >= mb_w * n + 1,
    ensures
        agree(p, q, stride, mb_w * n),
{
    assert forall|i: int| counts(i, p.len() as int, stride, mb_w * n) implies p[i] == q[i] by {
        let r = i / stride;
        let c = i % stride;
        lemma_fundamental_div_mod(i, stride);
        assert(stride * r == r * stride) by (nonlinear_arith);
        assert(0 <= r < 1 + mb_h * n) by (nonlinear_arith)
            requires
                0 <= i < stride * (1 + mb_h * n),
                i == r * stride + c,
                0 <= c < stride,
        ;
        if r == 0 {
            assert(0 * stride == 0);
            assert(p[c] == 127 && q[c] == 127);
        } else if c == 0 {
            assert(p[r * stride] == 129 && q[r * stride] == 129);
        } else {
            let by = (r - 1) / n;
            let y = (r - 1) % n;
            let bx = (c - 1) / n;
            let x = (c - 1) % n;
            assert(r - 1 == by * n + y && 0 <= y < n && 0 <= by);
            assert(c - 1 == bx * n + x && 0 <= x < n && 0 <= bx);
            assert(by < mb_h && bx < mb_w) by {
                if n == 8 {
                    assert(r - 1 < mb_h * 8);
                } else {
                    assert(r - 1 < mb_h * 16);
                }
            }
            let k = by * mb_w + bx;
            crate::planning::lemma_raster(mb_w, mb_h, bx, by);
            assert(before(mb_w * mb_h)(k));
            lemma_tile_sample(p, stride, n, mb_w, mb_h, blocks, before(mb_w * mb_h), k, x, y);
            lemma_tile_sample(q, stride, n, mb_w, mb_h, blocks, before(mb_w * mb_h), k, x, y);
            lemma_tile_row(stride, n, mb_w, k, x, y);
        }
    }
    assert forall|i: int| #![trigger q[i]] counts(i, p.len() as int, stride, mb_w * n) implies p[i]
        == q[i] by {
        let a = p[i];
    }
}

/// Planes that show the same tiles show the same picture.
pub proof fn same_tiles_same_picture(
    s: Samples,
    t: Samples,
    mb_w: int,
    mb_h: int,
    tiles: Seq<Tile>,
)
    requires
        1 <= mb_w,
        0 <= mb_h,
        shows(s, mb_w, mb_h, tiles, before(mb_w * mb_h)),
        shows(t, mb_w, mb_h, tiles, before(mb_w * mb_h)),
    ensures
        same_picture(s, t, mb_w),
{
    let us = chroma_stride(mb_w);
    lemma_plane_shows_agree(s.y, t.y, luma_stride(mb_w), 16, mb_w, mb_h, y_blocks(tiles));
    lemma_plane_shows_agree(s.u, t.u, us, 8, mb_w, mb_h, u_blocks(tiles));
    lemma_plane_shows_agree(s.v, t.v, us, 8, mb_w, mb_h, v_blocks(tiles));
    assert forall|i: int| 0 <= i < s.u.len() implies s.u[i] == t.u[i] by {
        assert(0 <= i % us < us) by (nonlinear_arith)
            requires
                us >= 1,
        ;
        assert(counts(i, s.u.len() as int, us, mb_w * 8));
    }
    assert forall|i: int| 0 <= i < s.v.len() implies s.v[i] == t.v[i] by {
        assert(0 <= i % us < us) by (nonlinear_arith)
            requires
                us >= 1,
        ;
        assert(counts(i, s.v.len() as int, us, mb_w * 8));
    }
    assert(s.u =~= t.u);
    assert(s.v =~= t.v);
}

/// The same picture converts to the same pixels.
pub proof fn same_picture_same_pixels(
    s: Samples,
    t: Samples,
    mb_w: int,
    mb_h: int,
    width: int,
    height: int,
)
    requires
        1 <= mb_w,
        1 <= width <= mb_w * 16,
        0 <= height <= mb_h * 16,
        s.y.len() == luma_stride(mb_w) * (1 + mb_h * 16),
        same_picture(s, t, mb_w),
    ensures
        rgba_image(picture_of(s, mb_w), width, height) == rgba_image(
            picture_of(t, mb_w),
            width,
            height,
        ),
{
    let a = picture_of(s, mb_w);
    let b = picture_of(t, mb_w);
    let ys = luma_stride(mb_w);
    let w4 = width * 4;
    assert forall|i: int| 0 <= i < w4 * height implies rgba_image(a, width, height)[i]
        == rgba_image(b, width, height)[i] by {
        let y = i / w4;
        let j = i % w4;
        lemma_fundamental_div_mod(i, w4);
        assert(0 <= y < height) by (nonlinear_arith)
            requires
                0 <= i < w4 * height,
                i == w4 * y + j,
                0 <= j < w4,
        ;
        let x = j / 4;
        let at = y * ys + x;
        let pos = (y + 1) * ys + (1 + x);
        assert(pos == at + ys + 1) by (nonlinear_arith)
            requires
                at == y * ys + x,
                pos == (y + 1) * ys + (1 + x),
        ;
        lemma_fundamental_div_mod_converse(pos, ys, y + 1, 1 + x);
        assert(0 <= at && pos < s.y.len()) by (nonlinear_arith)
            requires
                at == y * ys + x,
                pos == (y + 1) * ys + (1 + x),
                s.y.len() == ys * (1 + mb_h * 16),
                0 <= y < mb_h * 16,
                0 <= x,
                1 + x < ys,
        ;
        assert(counts(pos, s.y.len() as int, ys, mb_w * 16));
        assert(s.y[pos] == t.y[pos]);
        assert(a.y[at] == b.y[at]);
        assert(rgba_row(a, width, height, y)[j] == rgba_row(b, width, height, y)[j]);
    }
    assert(rgba_image(a, width, height) =~= rgba_image(b, width, height));
}

} // verus!
