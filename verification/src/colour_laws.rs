//! What colour conversion does to the bytes of a picture.

use vstd::prelude::*;

use crate::rgb_to_yuv::{
    chroma_at, chroma_of_sum, chroma_plane, lemma_at, luma_at, luma_plane, pixel, weigh,
    U_COEFF, V_COEFF,
};
use crate::reconstruct::{picture_of, planes_sized, Samples};
use crate::sharp_yuv::{luma_sum, sharp_plane, weighted, weighted_sum};
use crate::yuv::{far_row, near_row, rgba_image, rgba_of, upsampled, YuvView};

verus! {


/// Where the bytes of the pixel that sample (`x`, `y`) shows start: its own, or that of the
/// nearest column and row of the picture.
pub open spec fn pixel_start(width: int, height: int, x: int, y: int) -> int {
    4 * ((if y < height {
        y
    } else {
        height - 1
    }) * width + (if x < width {
        x
    } else {
        width - 1
    }))
}

/// The bytes of a pixel that is shown lie in the picture.
proof fn lemma_start(width: int, height: int, x: int, y: int)
    requires
        1 <= width,
        1 <= height,
        0 <= x,
        0 <= y,
    ensures
        0 <= pixel_start(width, height, x, y),
        pixel_start(width, height, x, y) + 4 <= width * height * 4,
        x < width && y < height ==> pixel_start(width, height, x, y) == (y * width + x) * 4,
{
    let cx = if x < width {
        x
    } else {
        width - 1
    };
    let cy = if y < height {
        y
    } else {
        height - 1
    };
    assert(0 <= cy * width && cy * width + cx + 1 <= width * height) by (nonlinear_arith)
        requires
            0 <= cx < width,
            0 <= cy < height,
    ;
}

/// Luma sample (`x`, `y`) of a frame is the weighted sum of the three colours of pixel
/// (`x`, `y`), read at byte `4 * (y * width + x)`; past the picture its last column and row
/// go on.
pub proof fn luma_shows_its_pixel(rgba: Seq<u8>, width: int, height: int, x: int, y: int)
    requires
        1 <= width,
        1 <= height,
        width * height * 4 <= rgba.len(),
        0 <= x < (width + 15) / 16 * 16,
        0 <= y < (height + 15) / 16 * 16,
    ensures
        ({
            let i = pixel_start(width, height, x, y);
            luma_plane(rgba, width, height)[y * ((width + 15) / 16 * 16) + x] == (16839 * rgba[i]
                + 33059 * rgba[i + 1] + 6420 * rgba[i + 2] + 1081344) / 65536
        }),
        x < width && y < height ==> pixel_start(width, height, x, y) == (y * width + x) * 4,
        luma_plane(rgba, width, height).len() == ((width + 15) / 16 * 16) * ((height + 15) / 16
            * 16),
{
    lemma_at((width + 15) / 16 * 16, x, y, (height + 15) / 16 * 16);
    lemma_start(width, height, x, y);
    let i = pixel_start(width, height, x, y);
    assert(luma_at(rgba, width, height, x, y) == (16839 * rgba[i] + 33059 * rgba[i + 1] + 6420
        * rgba[i + 2] + 1081344) / 65536);
    let stride = (width + 15) / 16 * 16;
    let rows = (height + 15) / 16 * 16;
    assert(0 <= stride * rows) by (nonlinear_arith)
        requires
            0 <= stride,
            0 <= rows,
    ;
}

/// A pixel of the picture decides its own luma sample and no other: a black one shows as
/// 16, a white one as 235, and a picture that differs elsewhere shows the same there.
pub proof fn luma_depends_on_its_pixel_alone(
    a: Seq<u8>,
    b: Seq<u8>,
    width: int,
    height: int,
    x: int,
    y: int,
)
    requires
        1 <= width,
        1 <= height,
        width * height * 4 <= a.len(),
        width * height * 4 <= b.len(),
        0 <= x < width,
        0 <= y < height,
    ensures
        ({
            let i = (y * width + x) * 4;
            let at = y * ((width + 15) / 16 * 16) + x;
            let p = luma_plane(a, width, height)[at];
            let q = luma_plane(b, width, height)[at];
            &&& a[i] == b[i] && a[i + 1] == b[i + 1] && a[i + 2] == b[i + 2] ==> p == q
            &&& a[i] == 0 && a[i + 1] == 0 && a[i + 2] == 0 ==> p == 16
            &&& a[i] == 255 && a[i + 1] == 255 && a[i + 2] == 255 ==> p == 235
            &&& a[i] <= b[i] && a[i + 1] <= b[i + 1] && a[i + 2] <= b[i + 2] ==> p <= q
        }),
{
    luma_shows_its_pixel(a, width, height, x, y);
    luma_shows_its_pixel(b, width, height, x, y);
}

/// The four pixels of chroma site (`x`, `y`): columns `2x` and `2x + 1` of rows `2y` and
/// `2y + 1`.
pub open spec fn site_sum(rgba: Seq<u8>, width: int, height: int, x: int, y: int, c: int) -> int {
    rgba[pixel_start(width, height, 2 * x, 2 * y) + c] + rgba[pixel_start(
        width,
        height,
        2 * x + 1,
        2 * y,
    ) + c] + rgba[pixel_start(width, height, 2 * x, 2 * y + 1) + c] + rgba[pixel_start(
        width,
        height,
        2 * x + 1,
        2 * y + 1,
    ) + c]
}

/// Chroma samples (`x`, `y`) of a frame are weighted sums over the four pixels at columns
/// `2x`, `2x + 1` and rows `2y`, `2y + 1`.
pub proof fn chroma_shows_its_four_pixels(rgba: Seq<u8>, width: int, height: int, x: int, y: int)
    requires
        1 <= width,
        1 <= height,
        width * height * 4 <= rgba.len(),
        0 <= x < (width + 15) / 16 * 8,
        0 <= y < (height + 15) / 16 * 8,
    ensures
        ({
            let at = y * ((width + 15) / 16 * 8) + x;
            let r = site_sum(rgba, width, height, x, y, 0);
            let g = site_sum(rgba, width, height, x, y, 1);
            let b = site_sum(rgba, width, height, x, y, 2);
            &&& chroma_plane(rgba, width, height, U_COEFF)[at] == (28800 * b - 9719 * r - 19081 * g
                + 33685504) / 262144
            &&& chroma_plane(rgba, width, height, V_COEFF)[at] == (28800 * r - 24116 * g - 4684 * b
                + 33685504) / 262144
        }),
{
    lemma_at((width + 15) / 16 * 8, x, y, (height + 15) / 16 * 8);
    lemma_start(width, height, 2 * x, 2 * y);
    lemma_start(width, height, 2 * x + 1, 2 * y);
    lemma_start(width, height, 2 * x, 2 * y + 1);
    lemma_start(width, height, 2 * x + 1, 2 * y + 1);
    let r = site_sum(rgba, width, height, x, y, 0);
    let g = site_sum(rgba, width, height, x, y, 1);
    let b = site_sum(rgba, width, height, x, y, 2);
    assert(0 <= r <= 1020 && 0 <= g <= 1020 && 0 <= b <= 1020);
    assert(chroma_at(rgba, width, height, U_COEFF, x, y) == (28800 * b - 9719 * r - 19081 * g
        + 33685504) / 262144);
    assert(chroma_at(rgba, width, height, V_COEFF, x, y) == (28800 * r - 24116 * g - 4684 * b
        + 33685504) / 262144);
}

/// The chroma of one pixel: U where `blue`, else V.
pub open spec fn pixel_chroma(rgba: Seq<u8>, i: int, blue: bool) -> int {
    if blue {
        28800 * rgba[i + 2] - 9719 * rgba[i] - 19081 * rgba[i + 1]
    } else {
        28800 * rgba[i] - 24116 * rgba[i + 1] - 4684 * rgba[i + 2]
    }
}

/// A weighted mean lies between the least and the largest value.
proof fn lemma_mean_between(
    w: (int, int, int, int),
    c: (int, int, int, int),
    lo: int,
    hi: int,
)
    requires
        0 < w.0,
        0 < w.1,
        0 < w.2,
        0 < w.3,
        lo <= c.0 <= hi,
        lo <= c.1 <= hi,
        lo <= c.2 <= hi,
        lo <= c.3 <= hi,
    ensures
        4 * lo <= (4 * (w.0 * c.0 + w.1 * c.1 + w.2 * c.2 + w.3 * c.3)) / (w.0 + w.1 + w.2 + w.3)
            <= 4 * hi,
{
    let t = w.0 + w.1 + w.2 + w.3;
    let s = w.0 * c.0 + w.1 * c.1 + w.2 * c.2 + w.3 * c.3;
    lemma_scale(w.0, c.0, lo, hi);
    lemma_scale(w.1, c.1, lo, hi);
    lemma_scale(w.2, c.2, lo, hi);
    lemma_scale(w.3, c.3, lo, hi);
    assert(t * lo == w.0 * lo + w.1 * lo + w.2 * lo + w.3 * lo) by (nonlinear_arith)
        requires
            t == w.0 + w.1 + w.2 + w.3,
    ;
    assert(t * hi == w.0 * hi + w.1 * hi + w.2 * hi + w.3 * hi) by (nonlinear_arith)
        requires
            t == w.0 + w.1 + w.2 + w.3,
    ;
    let q = (4 * s) / t;
    assert(4 * lo <= q <= 4 * hi) by (nonlinear_arith)
        requires
            q == (4 * s) / t,
            0 < t,
            t * lo <= s <= t * hi,
    ;
}

proof fn lemma_scale(w: int, c: int, lo: int, hi: int)
    requires
        0 < w,
        lo <= c <= hi,
    ensures
        w * lo <= w * c <= w * hi,
{
    assert(w * lo <= w * c <= w * hi) by (nonlinear_arith)
        requires
            0 < w,
            lo <= c <= hi,
    ;
}

/// A luma-weighted chroma sample averages the chroma of the four pixels at columns `2x`,
/// `2x + 1` and rows `2y`, `2y + 1`, each counted as often as its luma sample says.
pub proof fn sharp_chroma_is_weighted_by_luma(
    rgba: Seq<u8>,
    width: int,
    height: int,
    blue: bool,
    x: int,
    y: int,
)
    requires
        1 <= width,
        1 <= height,
        width * height * 4 <= rgba.len(),
        0 <= x < (width + 15) / 16 * 8,
        0 <= y < (height + 15) / 16 * 8,
    ensures
        ({
            let at = y * ((width + 15) / 16 * 8) + x;
            let stride = (width + 15) / 16 * 16;
            let luma = luma_plane(rgba, width, height);
            let i = pixel_start(width, height, 2 * x, 2 * y);
            let j = pixel_start(width, height, 2 * x + 1, 2 * y);
            let k = pixel_start(width, height, 2 * x, 2 * y + 1);
            let l = pixel_start(width, height, 2 * x + 1, 2 * y + 1);
            let wi = luma[(2 * y) * stride + 2 * x] as int;
            let wj = luma[(2 * y) * stride + (2 * x + 1)] as int;
            let wk = luma[(2 * y + 1) * stride + 2 * x] as int;
            let wl = luma[(2 * y + 1) * stride + (2 * x + 1)] as int;
            let mean = (4 * (wi * pixel_chroma(rgba, i, blue) + wj * pixel_chroma(rgba, j, blue) + wk
                * pixel_chroma(rgba, k, blue) + wl * pixel_chroma(rgba, l, blue))) / (wi + wj + wk
                + wl);
            sharp_plane(
                rgba,
                width,
                height,
                if blue {
                    U_COEFF
                } else {
                    V_COEFF
                },
            )[at] == (mean + 33685504) / 262144
        }),
{
    let coeff = if blue {
        U_COEFF
    } else {
        V_COEFF
    };
    lemma_at((width + 15) / 16 * 8, x, y, (height + 15) / 16 * 8);
    lemma_weighted(rgba, width, height, blue, 2 * x, 2 * y);
    lemma_weighted(rgba, width, height, blue, 2 * x + 1, 2 * y);
    lemma_weighted(rgba, width, height, blue, 2 * x, 2 * y + 1);
    lemma_weighted(rgba, width, height, blue, 2 * x + 1, 2 * y + 1);
    let wi = luma_at(rgba, width, height, 2 * x, 2 * y) as int;
    let wj = luma_at(rgba, width, height, 2 * x + 1, 2 * y) as int;
    let wk = luma_at(rgba, width, height, 2 * x, 2 * y + 1) as int;
    let wl = luma_at(rgba, width, height, 2 * x + 1, 2 * y + 1) as int;
    lemma_mean_between(
        (wi, wj, wk, wl),
        (
            pixel_chroma(rgba, pixel_start(width, height, 2 * x, 2 * y), blue),
            pixel_chroma(rgba, pixel_start(width, height, 2 * x + 1, 2 * y), blue),
            pixel_chroma(rgba, pixel_start(width, height, 2 * x, 2 * y + 1), blue),
            pixel_chroma(rgba, pixel_start(width, height, 2 * x + 1, 2 * y + 1), blue),
        ),
        -7344000,
        7344000,
    );
    assert(luma_sum(rgba, width, height, x, y) == wi + wj + wk + wl);
    lemma_clip(
        (4 * weighted_sum(rgba, width, height, coeff, x, y)) / luma_sum(rgba, width, height, x, y),
    );
}

/// Mean chroma needs no clipping.
proof fn lemma_clip(mean: int)
    requires
        -29376000 <= mean <= 29376000,
    ensures
        chroma_of_sum(mean) == (mean + 33685504) / 262144,
{
}

/// What a pixel adds to a luma-weighted sum.
proof fn lemma_weighted(rgba: Seq<u8>, width: int, height: int, blue: bool, x: int, y: int)
    requires
        1 <= width,
        1 <= height,
        width * height * 4 <= rgba.len(),
        0 <= x < (width + 15) / 16 * 16,
        0 <= y < (height + 15) / 16 * 16,
    ensures
        ({
            let i = pixel_start(width, height, x, y);
            let w = luma_at(rgba, width, height, x, y) as int;
            &&& w == luma_plane(rgba, width, height)[y * ((width + 15) / 16 * 16) + x]
            &&& 16 <= w
            &&& -7344000 <= pixel_chroma(rgba, i, blue) <= 7344000
            &&& weighted(
                rgba,
                width,
                height,
                if blue {
                    U_COEFF
                } else {
                    V_COEFF
                },
                x,
                y,
            ) == w * pixel_chroma(rgba, i, blue)
        }),
{
    luma_shows_its_pixel(rgba, width, height, x, y);
    lemma_at((width + 15) / 16 * 16, x, y, (height + 15) / 16 * 16);
    lemma_start(width, height, x, y);
    let i = pixel_start(width, height, x, y);
    let r = rgba[i] as int;
    let g = rgba[i + 1] as int;
    let b = rgba[i + 2] as int;
    assert(pixel(rgba, width, height, x, y, 0) == r);
    assert(pixel(rgba, width, height, x, y, 1) == g);
    assert(pixel(rgba, width, height, x, y, 2) == b);
    assert(weigh(U_COEFF, r, g, b) == -9719 * r - 19081 * g + 28800 * b);
    assert(weigh(V_COEFF, r, g, b) == 28800 * r - 24116 * g - 4684 * b);
}

/// A luma-weighted chroma sample lies between the least and the largest chroma of the four
/// pixels at columns `2x`, `2x + 1` and rows `2y`, `2y + 1`; where they have one colour, it
/// is the sample that plain averaging gives.
pub proof fn sharp_chroma_lies_between_its_pixels(
    rgba: Seq<u8>,
    width: int,
    height: int,
    blue: bool,
    x: int,
    y: int,
    lo: int,
    hi: int,
)
    requires
        1 <= width,
        1 <= height,
        width * height * 4 <= rgba.len(),
        0 <= x < (width + 15) / 16 * 8,
        0 <= y < (height + 15) / 16 * 8,
        forall|dx: int, dy: int|
            0 <= dx < 2 && 0 <= dy < 2 ==> lo <= pixel_chroma(
                rgba,
                #[trigger] pixel_start(width, height, 2 * x + dx, 2 * y + dy),
                blue,
            ) <= hi,
    ensures
        ({
            let at = y * ((width + 15) / 16 * 8) + x;
            let coeff = if blue {
                U_COEFF
            } else {
                V_COEFF
            };
            let sharp = sharp_plane(rgba, width, height, coeff)[at];
            &&& (4 * lo + 33685504) / 262144 <= sharp <= (4 * hi + 33685504) / 262144
            &&& lo == hi ==> sharp == chroma_plane(rgba, width, height, coeff)[at]
        }),
{
    sharp_chroma_is_weighted_by_luma(rgba, width, height, blue, x, y);
    chroma_shows_its_four_pixels(rgba, width, height, x, y);
    let stride = (width + 15) / 16 * 16;
    let luma = luma_plane(rgba, width, height);
    let i = pixel_start(width, height, 2 * x + 0, 2 * y + 0);
    let j = pixel_start(width, height, 2 * x + 1, 2 * y + 0);
    let k = pixel_start(width, height, 2 * x + 0, 2 * y + 1);
    let l = pixel_start(width, height, 2 * x + 1, 2 * y + 1);
    luma_shows_its_pixel(rgba, width, height, 2 * x, 2 * y);
    luma_shows_its_pixel(rgba, width, height, 2 * x + 1, 2 * y);
    luma_shows_its_pixel(rgba, width, height, 2 * x, 2 * y + 1);
    luma_shows_its_pixel(rgba, width, height, 2 * x + 1, 2 * y + 1);
    lemma_mean_between(
        (
            luma[(2 * y) * stride + 2 * x] as int,
            luma[(2 * y) * stride + (2 * x + 1)] as int,
            luma[(2 * y + 1) * stride + 2 * x] as int,
            luma[(2 * y + 1) * stride + (2 * x + 1)] as int,
        ),
        (
            pixel_chroma(rgba, i, blue),
            pixel_chroma(rgba, j, blue),
            pixel_chroma(rgba, k, blue),
            pixel_chroma(rgba, l, blue),
        ),
        lo,
        hi,
    );
}

/// The other one of the two chroma samples nearest to sample `i` of `n`: after its own for
/// an odd `i`, before it for an even one, and its own again at the ends.
pub open spec fn other_site(n: int, i: int) -> int {
    if i % 2 == 1 {
        if i / 2 + 1 < (n + 1) / 2 {
            i / 2 + 1
        } else {
            i / 2
        }
    } else if i == 0 {
        0
    } else {
        i / 2 - 1
    }
}

/// The chroma of pixel (`x`, `y`), blended 9:3:3:1 from the four nearest samples.
pub open spec fn blended(plane: Seq<u8>, stride: int, width: int, height: int, x: int, y: int) -> int {
    let own = plane[(y / 2) * stride + x / 2] as int;
    let beside = plane[(y / 2) * stride + other_site(width, x)] as int;
    let over = plane[other_site(height, y) * stride + x / 2] as int;
    let across = plane[other_site(height, y) * stride + other_site(width, x)] as int;
    ((own + 3 * beside + 3 * over + across + 8) / 8 + own) / 2
}

/// Between zero and 16383, in units of 64.
pub open spec fn unit64(v: int) -> int {
    if v < 0 {
        0
    } else if v > 16383 {
        255
    } else {
        v / 64
    }
}

/// Upsampling blends the four nearest samples, at the edges too.
proof fn lemma_blended(plane: Seq<u8>, stride: int, width: int, height: int, x: int, y: int)
    requires
        0 <= x < width,
        0 <= y < height,
    ensures
        upsampled(plane, near_row(y) * stride, far_row(y, height) * stride, width, x) == blended(
            plane,
            stride,
            width,
            height,
            x,
            y,
        ),
{
    assert(far_row(y, height) == other_site(height, y));
}

/// A decoded pixel shows its luma sample and the blend of the nearest chroma samples: the
/// bytes of pixel (`x`, `y`) are red, green, blue and an opaque alpha.
pub proof fn pixels_show_their_samples(src: YuvView, width: int, height: int, x: int, y: int)
    requires
        0 <= x < width,
        0 <= y < height,
    ensures
        ({
            let out = rgba_image(src, width, height);
            let i = (y * width + x) * 4;
            let l = (src.y[y * src.y_stride + x] * 19077) / 256;
            let u = blended(src.u, src.uv_stride, width, height, x, y);
            let v = blended(src.v, src.uv_stride, width, height, x, y);
            &&& out.len() == width * height * 4
            &&& out[i] == unit64(l + (v * 26149) / 256 - 14234)
            &&& out[i + 1] == unit64(l - (u * 6419) / 256 - (v * 13320) / 256 + 8708)
            &&& out[i + 2] == unit64(l + (u * 33050) / 256 - 17685)
            &&& out[i + 3] == 255
        }),
{
    lemma_blended(src.u, src.uv_stride, width, height, x, y);
    lemma_blended(src.v, src.uv_stride, width, height, x, y);
    let stride = width * 4;
    assert(stride * height == width * height * 4) by (nonlinear_arith)
        requires
            stride == width * 4,
    ;
    assert((y * width + x) * 4 == y * stride + 4 * x) by (nonlinear_arith)
        requires
            stride == width * 4,
    ;
    assert forall|c: int| 0 <= c < 4 implies rgba_image(src, width, height)[#[trigger] (y * stride
        + (4 * x + c))] == rgba_of(
        src.y[y * src.y_stride + x] as int,
        blended(src.u, src.uv_stride, width, height, x, y),
        blended(src.v, src.uv_stride, width, height, x, y),
        c,
    ) by {
        lemma_at(stride, 4 * x + c, y, height);
        assert((4 * x + c) / 4 == x && (4 * x + c) % 4 == c);
    }
    let out = rgba_image(src, width, height);
    assert(out[y * stride + (4 * x + 0)] == out[(y * width + x) * 4]);
    assert(out[y * stride + (4 * x + 1)] == out[(y * width + x) * 4 + 1]);
    assert(out[y * stride + (4 * x + 2)] == out[(y * width + x) * 4 + 2]);
    assert(out[y * stride + (4 * x + 3)] == out[(y * width + x) * 4 + 3]);
}

/// The frame that planes hold starts one row and one column in.
pub proof fn pictures_start_behind_the_border(s: Samples, mb_w: int, mb_h: int, x: int, y: int)
    requires
        planes_sized(s, mb_w, mb_h),
        1 <= mb_w,
        1 <= mb_h,
        0 <= x < mb_w * 16,
        0 <= y < mb_h * 16,
    ensures
        ({
            let p = picture_of(s, mb_w);
            &&& p.y[y * p.y_stride + x] == s.y[(y + 1) * (mb_w * 16 + 5) + (x + 1)]
            &&& x < mb_w * 8 && y < mb_h * 8 ==> p.u[y * p.uv_stride + x] == s.u[(y + 1) * (mb_w * 8
                + 1) + (x + 1)] && p.v[y * p.uv_stride + x] == s.v[(y + 1) * (mb_w * 8 + 1) + (x
                + 1)]
        }),
{
    let ys = mb_w * 16 + 5;
    let us = mb_w * 8 + 1;
    assert((y + 1) * ys == y * ys + ys) by (nonlinear_arith);
    assert((y + 1) * us == y * us + us) by (nonlinear_arith);
    assert(0 <= y * ys && (y + 1) * ys + ys <= ys * (1 + mb_h * 16)) by (nonlinear_arith)
        requires
            0 <= y < mb_h * 16,
            0 <= ys,
    ;
    if y < mb_h * 8 {
        assert(0 <= y * us && (y + 1) * us + us <= us * (1 + mb_h * 8)) by (nonlinear_arith)
            requires
                0 <= y < mb_h * 8,
                0 <= us,
        ;
    }
}

} // verus!
