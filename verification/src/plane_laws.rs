//! What the small operations on numbers, planes and settings do.

use vstd::prelude::*;

use crate::arith::{abs_int, clamp_int, clip8_spec};
use crate::block::{blit, lemma_blit_at, square_fits};
use crate::decode::FilterHeader;
use crate::filter_choice::{filter_level, is_filter};
use crate::frame::is_source;
use crate::image::dimensions_ok;
use crate::predict::{block4, edge4, predict4, predict_whole};
use crate::quant::div_toward_zero;
use crate::recon_block::{i4_edge, Edge};
use crate::reconstruct::{cropped, empty_plane};
use crate::rgb_to_yuv::{chroma_plane, luma_plane, SourceYuv, U_COEFF, V_COEFF};
use crate::segment::{clusters_of, activities, segment_index, Segmentation};
use crate::effort::FrameTuning;
use crate::sharp_yuv::sharp_plane;
use crate::tuning::{clamp_spec, default_knobs, preset_knobs, Knobs, Preset};

verus! {

/// Limiting leaves what is in range and takes the nearer end of what is not.
pub proof fn limiting(v: int, lo: int, hi: int)
    requires
        lo <= hi,
    ensures
        lo <= clamp_int(v, lo, hi) <= hi,
        lo <= v <= hi ==> clamp_int(v, lo, hi) == v,
        v < lo ==> clamp_int(v, lo, hi) == lo,
        v > hi ==> clamp_int(v, lo, hi) == hi,
        clamp_spec(v, lo, hi) == clamp_int(v, lo, hi),
        0 <= v <= 255 ==> clip8_spec(v) == v,
        v < 0 ==> clip8_spec(v) == 0,
        v > 255 ==> clip8_spec(v) == 255,
        abs_int(v) == abs_int(-v),
        v >= 0 ==> abs_int(v) == v,
{
}

/// Division toward zero: the quotient of the sizes, with the sign of the dividend.
pub proof fn dividing_toward_zero(a: int, b: int)
    requires
        0 < b,
    ensures
        a >= 0 ==> div_toward_zero(a, b) == a / b,
        div_toward_zero(-a, b) == -div_toward_zero(a, b),
{
    if a == 0 {
        assert(0int / b == 0) by (nonlinear_arith)
            requires
                0 < b,
        ;
    }
}

/// A block written into a plane replaces its own samples and no others.
pub proof fn blocks_replace_their_samples(
    p: Seq<u8>,
    off: int,
    stride: int,
    n: int,
    b: Seq<u8>,
    x: int,
    y: int,
)
    requires
        square_fits(p.len() as int, off, stride, n),
        0 <= x < n,
        0 <= y < n,
    ensures
        blit(p, off, stride, n, b).len() == p.len(),
        blit(p, off, stride, n, b)[off + y * stride + x] == b[y * n + x],
        forall|i: int|
            0 <= i < p.len() && (i < off || (i - off) % stride >= n || (i - off) / stride >= n)
                ==> #[trigger] blit(p, off, stride, n, b)[i] == p[i],
{
    lemma_blit_at(p, off, stride, n, b, x, y);
}

/// The edge of a 4x4 block in a plane: the four samples to the left, the corner, and the
/// eight samples above, four of them to the right.
pub proof fn edge_in_a_plane(p: Seq<u8>, off: int, stride: int, i: int)
    requires
        0 <= i < 8,
    ensures
        edge4(p, off, stride).len() == 13,
        edge4(p, off, stride)[5 + i] == p[off - stride + i],
        edge4(p, off, stride)[4] == p[off - stride - 1],
        i < 4 ==> edge4(p, off, stride)[i] == p[off + i * stride - 1],
        forall|mode: u8|
            mode <= 9 ==> #[trigger] predict4(p, off, stride, mode) == blit(
                p,
                off,
                stride,
                4,
                block4(mode, edge4(p, off, stride)),
            ),
        forall|mode: u8| mode > 9 ==> #[trigger] predict4(p, off, stride, mode) == p,
{
    assert(i == 0 || i == 1 || i == 2 || i == 3 || i == 4 || i == 5 || i == 6 || i == 7);
}

/// A whole-block prediction in a plane: each column repeats the sample above it, or each row
/// the sample to its left; modes that there are not change nothing.
pub proof fn whole_prediction_in_a_plane(
    p: Seq<u8>,
    off: int,
    stride: int,
    n: int,
    mode: u8,
    has_top: bool,
    has_left: bool,
    x: int,
    y: int,
)
    requires
        n == 8 || n == 16,
        square_fits(p.len() as int, off, stride, n),
        0 <= x < n,
        0 <= y < n,
    ensures
        ({
            let q = predict_whole(p, off, stride, n, mode, has_top, has_left);
            let at = off + y * stride + x;
            let t = p[off - stride + x] + p[off + y * stride - 1] - p[off - stride - 1];
            &&& mode == 2 ==> q[at] == p[off - stride + x]
            &&& mode == 3 ==> q[at] == p[off + y * stride - 1]
            &&& mode == 1 ==> q[at] == (if t < 0 {
                0
            } else if t > 255 {
                255
            } else {
                t
            })
            &&& mode == 0 && !has_top && !has_left ==> q[at] == 128
            &&& mode > 3 ==> q == p
        }),
{
    if mode <= 3 {
        let top = crate::predict::top_row(p, off, stride, n);
        let left = crate::predict::left_col(p, off, stride, n);
        let corner = p[off - stride - 1];
        let b = crate::predict::whole_block(n, mode, top, left, corner, has_top, has_left);
        lemma_blit_at(p, off, stride, n, b, x, y);
        crate::predict_laws::whole_predictions(
            n,
            mode,
            top,
            left,
            corner,
            has_top,
            has_left,
            x,
            y,
        );
        assert(y * n + x == n * y + x) by (nonlinear_arith);
    }
}

/// The edge of 4x4 block `k` of a macroblock: from the macroblock's own samples, from its
/// edge outside it, and to the right of it from the row above the macroblock.
pub proof fn edge_in_a_macroblock(e: Edge, b: Seq<u8>, bx: int, by: int, i: int)
    requires
        0 <= bx < 4,
        0 <= by < 4,
        0 <= i < 8,
    ensures
        ({
            let g = i4_edge(e, b, 4 * by + bx);
            let x = 4 * bx + i;
            &&& g.len() == 13
            &&& g[5 + i] == (if by == 0 || x >= 16 {
                e.top[x]
            } else {
                b[16 * (4 * by - 1) + x]
            })
            &&& i < 4 ==> g[i] == (if bx == 0 {
                e.left[4 * by + i]
            } else {
                b[16 * (4 * by + i) + 4 * bx - 1]
            })
            &&& g[4] == (if by == 0 && bx == 0 {
                e.corner
            } else if by == 0 {
                e.top[4 * bx - 1]
            } else if bx == 0 {
                e.left[4 * by - 1]
            } else {
                b[16 * (4 * by - 1) + 4 * bx - 1]
            })
        }),
{
    assert((4 * by + bx) / 4 == by && (4 * by + bx) % 4 == bx);
    assert(i == 0 || i == 1 || i == 2 || i == 3 || i == 4 || i == 5 || i == 6 || i == 7);
}

/// A fresh plane is 127 in its first row, 129 in the rest of its first column, and zero.
pub proof fn fresh_planes(stride: int, rows: int, r: int, c: int)
    requires
        1 <= stride,
        0 <= r < rows,
        0 <= c < stride,
    ensures
        empty_plane(stride, rows).len() == stride * rows,
        empty_plane(stride, rows)[r * stride + c] == (if r == 0 {
            127u8
        } else if c == 0 {
            129u8
        } else {
            0u8
        }),
{
    crate::rgb_to_yuv::lemma_at(stride, c, r, rows);
    assert(0 <= stride * rows) by (nonlinear_arith)
        requires
            1 <= stride,
            0 <= rows,
    ;
    if r == 0 {
        assert(r * stride == 0) by (nonlinear_arith)
            requires
                r == 0,
        ;
    } else {
        assert(r * stride >= stride) by (nonlinear_arith)
            requires
                r >= 1,
                stride >= 1,
        ;
    }
}

/// A crop takes the samples behind the first row and column.
pub proof fn crops_leave_out_the_border(p: Seq<u8>, stride: int, w: int, h: int, x: int, y: int)
    requires
        0 <= x < w,
        0 <= y < h,
    ensures
        cropped(p, stride, w, h).len() == w * h,
        cropped(p, stride, w, h)[y * w + x] == p[(y + 1) * stride + 1 + x],
{
    crate::rgb_to_yuv::lemma_at(w, x, y, h);
    assert(0 <= w * h) by (nonlinear_arith)
        requires
            0 <= w,
            0 <= h,
    ;
}

/// The source of a frame is its picture: luma always, and chroma averaged or, where asked
/// for, weighed by luma.
pub proof fn sources_are_of_the_picture(
    src: SourceYuv,
    rgba: Seq<u8>,
    width: int,
    height: int,
    sharp: bool,
)
    requires
        is_source(src, rgba, width, height, sharp),
    ensures
        src.mb_w == (width + 15) / 16,
        src.mb_h == (height + 15) / 16,
        src.y@ == luma_plane(rgba, width, height),
        !sharp ==> src.u@ == chroma_plane(rgba, width, height, U_COEFF) && src.v@ == chroma_plane(
            rgba,
            width,
            height,
            V_COEFF,
        ),
        sharp ==> src.u@ == sharp_plane(rgba, width, height, U_COEFF) && src.v@ == sharp_plane(
            rgba,
            width,
            height,
            V_COEFF,
        ),
{
}

/// The encoder's filter header: the normal filter at the level of its quantizer and
/// strength, with the sharpness asked for, without deltas.
pub proof fn encoder_filters(f: FilterHeader, q: int, apply: bool, strength: int, sharpness: int)
    requires
        is_filter(f, q, apply, strength, sharpness),
    ensures
        !f.simple,
        !f.use_lf_delta,
        f.level == filter_level(q, strength, apply),
        apply ==> f.sharpness == sharpness,
        !apply ==> f.level == 0 && f.sharpness == 0,
{
}

/// Segments: none where they are not asked for, where there is no shaping or where they
/// would not move the quantizer; else the clusters of the activities, each with the index
/// that its mean asks for, sent as its distance from the frame's.
pub proof fn segments_are_planned(
    g: Segmentation,
    src: SourceYuv,
    base_q: int,
    enabled: bool,
    tuning: FrameTuning,
    k: int,
)
    requires
        g.is_plan(src, base_q, enabled, tuning),
        0 <= k < 4,
    ensures
        !enabled || tuning.segments <= 1 || tuning.sns_strength == 0 ==> g.params is None,
        g.params is None ==> g.base_q@[k] == base_q && (forall|i: int|
            0 <= i < g.seg_ids@.len() ==> #[trigger] g.seg_ids@[i] == 0),
        g.params matches Some(p) ==> ({
            let nb = if tuning.segments > 4 {
                4int
            } else {
                tuning.segments as int
            };
            let c = clusters_of(activities(src, src.mb_w * src.mb_h), nb);
            &&& g.seg_ids@ == c.ids
            &&& p.quantizer@[k] == g.base_q@[k] - base_q
            &&& k < c.count ==> g.base_q@[k] == segment_index(
                base_q,
                c.means[k] as int,
                tuning.sns_strength as int,
            )
            &&& k >= c.count ==> g.base_q@[k] == base_q
        }),
{
    let nb = clamp_int(tuning.segments as int, 1, 4);
    let c = clusters_of(activities(src, src.mb_w * src.mb_h), nb);
    let sns = tuning.sns_strength as int;
    if g.params is Some {
        assert(g.follows(c, base_q, sns));
        assert(g.params->Some_0.quantizer@[k] == g.base_q@[k] - base_q);
    }
}

/// Segments are there where they are asked for, where there are several clusters and where
/// one of them moves the quantizer.
pub proof fn segments_that_pay_are_kept(
    g: Segmentation,
    src: SourceYuv,
    base_q: int,
    tuning: FrameTuning,
    j: int,
)
    requires
        g.is_plan(src, base_q, true, tuning),
        tuning.segments > 1,
        tuning.sns_strength > 0,
    ensures
        ({
            let nb = if tuning.segments > 4 {
                4int
            } else {
                tuning.segments as int
            };
            let c = clusters_of(activities(src, src.mb_w * src.mb_h), nb);
            0 <= j < c.count && c.count > 1 && segment_index(
                base_q,
                c.means[j] as int,
                tuning.sns_strength as int,
            ) != base_q ==> g.params is Some
        }),
{
}

/// The presets: what each shapes, with everything else as by default.
pub proof fn presets_bundle(p: Preset)
    ensures
        ({
            let k = preset_knobs(p);
            let d = default_knobs();
            let four = match p {
                Preset::Default => (50int, 60int, 0int, 4int),
                Preset::Picture => (80int, 35int, 4int, 4int),
                Preset::Photo => (80int, 30int, 3int, 4int),
                Preset::Drawing => (25int, 10int, 6int, 4int),
                Preset::Icon => (25int, 10int, 0int, 4int),
                Preset::Text => (0int, 0int, 0int, 2int),
            };
            &&& (k.sns_strength, k.filter_strength, k.filter_sharpness, k.segments) == four
            &&& k == (Knobs {
                sns_strength: four.0,
                filter_strength: four.1,
                filter_sharpness: four.2,
                segments: four.3,
                ..d
            })
            &&& d.alpha_q == 100 && d.partition_limit == 0 && d.pass == 1
            &&& !d.sharp_yuv && !d.smooth_segments && !d.freq_sharpen && d.exact && !d.jpeg_like
        }),
{
}

/// Pictures have sides from one to 16383.
pub proof fn sides_of_pictures(w: int, h: int)
    ensures
        dimensions_ok(w, h) <==> 1 <= w <= 16383 && 1 <= h <= 16383,
{
}

} // verus!
