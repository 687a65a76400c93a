//! YUV 4:2:0 to RGBA conversion with bilinear chroma upsampling.
//!
//! Every output row depends on the planes alone: on its luma row, the nearer chroma row
//! (weight three) and the farther one (weight one). So rows can be produced in any
//! order, one at a time or in parallel, with the same bytes.

use rayon::iter::{IndexedParallelIterator, ParallelIterator};
use rayon::slice::ParallelSliceMut;
use vstd::arithmetic::div_mod::lemma_fundamental_div_mod;
use vstd::prelude::*;

use crate::arith::{clamp_int, group_shr};

verus! {

broadcast use group_shr;

/// Frames of at least this many pixels are converted in parallel.
pub const PAR_MIN_PIXELS: usize = 65536;

/// A sample times a coefficient, eight fraction bits dropped.
pub open spec fn mult_hi_spec(v: int, coeff: int) -> int {
    (v * coeff) / 256
}

/// Six fraction bits dropped, saturated to a byte.
pub open spec fn descale(v: int) -> u8 {
    (clamp_int(v, 0, 16383) / 64) as u8
}

/// Red of one pixel.
pub open spec fn red(y: int, v: int) -> u8 {
    descale(mult_hi_spec(y, 19077) + mult_hi_spec(v, 26149) - 14234)
}

/// Green of one pixel.
pub open spec fn green(y: int, u: int, v: int) -> u8 {
    descale(mult_hi_spec(y, 19077) - mult_hi_spec(u, 6419) - mult_hi_spec(v, 13320) + 8708)
}

/// Blue of one pixel.
pub open spec fn blue(y: int, u: int) -> u8 {
    descale(mult_hi_spec(y, 19077) + mult_hi_spec(u, 33050) - 17685)
}

/// Channel `c` of one opaque RGBA pixel.
pub open spec fn rgba_of(y: int, u: int, v: int, c: int) -> u8 {
    if c == 0 {
        red(y, v)
    } else if c == 1 {
        green(y, u, v)
    } else if c == 2 {
        blue(y, u)
    } else {
        255
    }
}

fn mult_hi(v: i32, coeff: i32) -> (r: i32)
    requires
        0 <= v <= 255,
        0 <= coeff <= 40000,
    ensures
        r == mult_hi_spec(v as int, coeff as int),
        0 <= r <= 39844,
{
    assert(0 <= v * coeff <= 255 * 40000) by (nonlinear_arith)
        requires
            0 <= v <= 255,
            0 <= coeff <= 40000,
    ;
    (v * coeff) >> 8
}

fn vp8_clip8(v: i32) -> (r: u8)
    ensures
        r == descale(v as int),
{
    let c: i32 = if v < 0 {
        0
    } else if v > 16383 {
        16383
    } else {
        v
    };
    (c >> 6) as u8
}

fn vp8_yuv_to_r(y: i32, v: i32) -> (r: u8)
    requires
        0 <= y <= 255,
        0 <= v <= 255,
    ensures
        r == red(y as int, v as int),
{
    vp8_clip8(mult_hi(y, 19077) + mult_hi(v, 26149) - 14234)
}

fn vp8_yuv_to_g(y: i32, u: i32, v: i32) -> (r: u8)
    requires
        0 <= y <= 255,
        0 <= u <= 255,
        0 <= v <= 255,
    ensures
        r == green(y as int, u as int, v as int),
{
    vp8_clip8(mult_hi(y, 19077) - mult_hi(u, 6419) - mult_hi(v, 13320) + 8708)
}

fn vp8_yuv_to_b(y: i32, u: i32) -> (r: u8)
    requires
        0 <= y <= 255,
        0 <= u <= 255,
    ensures
        r == blue(y as int, u as int),
{
    vp8_clip8(mult_hi(y, 19077) + mult_hi(u, 33050) - 17685)
}

/// Borrowed planes and pitches of a YUV 4:2:0 frame.
pub struct Yuv420Ref<'a> {
    /// Luma, from the first picture sample on.
    pub y: &'a [u8],
    /// Luma row pitch.
    pub y_stride: usize,
    /// U chroma, from the first picture sample on.
    pub u: &'a [u8],
    /// V chroma, from the first picture sample on.
    pub v: &'a [u8],
    /// Chroma row pitch.
    pub uv_stride: usize,
}

/// The samples and pitches of a YUV 4:2:0 frame.
pub struct YuvView {
    /// Luma.
    pub y: Seq<u8>,
    /// Luma row pitch.
    pub y_stride: int,
    /// U chroma.
    pub u: Seq<u8>,
    /// V chroma.
    pub v: Seq<u8>,
    /// Chroma row pitch.
    pub uv_stride: int,
}

impl YuvView {
    /// Every sample that a `width` by `height` picture reads is there.
    pub open spec fn covers(&self, width: int, height: int) -> bool {
        let cw = (width + 1) / 2;
        let ch = (height + 1) / 2;
        &&& 0 <= self.y_stride
        &&& 0 <= self.uv_stride
        &&& (height - 1) * self.y_stride + width <= self.y.len()
        &&& (ch - 1) * self.uv_stride + cw <= self.u.len()
        &&& (ch - 1) * self.uv_stride + cw <= self.v.len()
    }
}

impl View for Yuv420Ref<'_> {
    type V = YuvView;

    open spec fn view(&self) -> YuvView {
        YuvView {
            y: self.y@,
            y_stride: self.y_stride as int,
            u: self.u@,
            v: self.v@,
            uv_stride: self.uv_stride as int,
        }
    }
}

/// The chroma row nearer to output row `y`.
pub open spec fn near_row(y: int) -> int {
    y / 2
}

/// The chroma row farther from output row `y`; the nearer one again at the edges.
pub open spec fn far_row(y: int, height: int) -> int {
    if y == 0 {
        0
    } else if y % 2 == 1 {
        if (y + 1) / 2 < (height + 1) / 2 {
            (y + 1) / 2
        } else {
            y / 2
        }
    } else {
        y / 2 - 1
    }
}

/// The upsampled chroma at column `x` of `width`: a 3:1 vertical blend at the first
/// column and, for an even width, the last; the 9:3:3:1 blend elsewhere.
pub open spec fn upsampled(plane: Seq<u8>, near: int, far: int, width: int, x: int) -> int {
    if x == 0 || (x == width - 1 && width % 2 == 0) {
        (3 * plane[near + x / 2] + plane[far + x / 2] + 2) / 4
    } else {
        let r = (x + 1) / 2;
        let l = r - 1;
        if x % 2 == 1 {
            ((plane[near + l] + 3 * plane[near + r] + 3 * plane[far + l] + plane[far + r] + 8) / 8
                + plane[near + l]) / 2
        } else {
            let r = x / 2;
            let l = r - 1;
            ((3 * plane[near + l] + plane[near + r] + plane[far + l] + 3 * plane[far + r] + 8) / 8
                + plane[near + r]) / 2
        }
    }
}

/// Channel `c` of output pixel (`x`, `y`).
pub open spec fn rgba_at(src: YuvView, width: int, height: int, x: int, y: int, c: int) -> u8 {
    let near = near_row(y) * src.uv_stride;
    let far = far_row(y, height) * src.uv_stride;
    rgba_of(
        src.y[y * src.y_stride + x] as int,
        upsampled(src.u, near, far, width, x),
        upsampled(src.v, near, far, width, x),
        c,
    )
}

/// Output row `y`.
pub open spec fn rgba_row(src: YuvView, width: int, height: int, y: int) -> Seq<u8> {
    Seq::new((width * 4) as nat, |i: int| rgba_at(src, width, height, i / 4, y, i % 4))
}

/// The whole picture, row-major.
pub open spec fn rgba_image(src: YuvView, width: int, height: int) -> Seq<u8> {
    let stride = width * 4;
    Seq::new(
        (stride * height) as nat,
        |i: int| rgba_row(src, width, height, i / stride)[i % stride],
    )
}

fn upsample(plane: &[u8], near: usize, far: usize, width: usize, x: usize) -> (r: i32)
    requires
        x < width,
        near + (width + 1) / 2 <= plane@.len(),
        far + (width + 1) / 2 <= plane@.len(),
    ensures
        r == upsampled(plane@, near as int, far as int, width as int, x as int),
        0 <= r <= 255,
{
    let len: usize = plane.len();
    if x == 0 || (x == width - 1 && width % 2 == 0) {
        let n: i32 = plane[near + x / 2] as i32;
        let f: i32 = plane[far + x / 2] as i32;
        (3 * n + f + 2) >> 2
    } else if x % 2 == 1 {
        let r: usize = (x + 1) / 2;
        let nl: i32 = plane[near + r - 1] as i32;
        let nr: i32 = plane[near + r] as i32;
        let fl: i32 = plane[far + r - 1] as i32;
        let fr: i32 = plane[far + r] as i32;
        let d: i32 = (nl + 3 * nr + 3 * fl + fr + 8) >> 3;
        (d + nl) >> 1
    } else {
        let r: usize = x / 2;
        let nl: i32 = plane[near + r - 1] as i32;
        let nr: i32 = plane[near + r] as i32;
        let fl: i32 = plane[far + r - 1] as i32;
        let fr: i32 = plane[far + r] as i32;
        let d: i32 = (3 * nl + nr + fl + 3 * fr + 8) >> 3;
        (d + nr) >> 1
    }
}

/// `out` with the samples from `base` on replaced by `row`.
pub open spec fn with_row(out: Seq<u8>, base: int, row: Seq<u8>) -> Seq<u8> {
    Seq::new(
        out.len(),
        |i: int|
            if base <= i < base + row.len() {
                row[i - base]
            } else {
                out[i]
            },
    )
}

/// The chroma rows of an output row lie in the planes.
proof fn lemma_rows_fit(src: YuvView, width: int, height: int, y: int)
    requires
        1 <= width,
        0 <= y < height,
        src.covers(width, height),
    ensures
        ({
            let cw = (width + 1) / 2;
            let near = near_row(y) * src.uv_stride;
            let far = far_row(y, height) * src.uv_stride;
            &&& 0 <= y * src.y_stride
            &&& y * src.y_stride + width <= src.y.len()
            &&& 0 <= near
            &&& near + cw <= src.u.len()
            &&& near + cw <= src.v.len()
            &&& 0 <= far
            &&& far + cw <= src.u.len()
            &&& far + cw <= src.v.len()
        }),
{
    let ch = (height + 1) / 2;
    let ys = src.y_stride;
    let us = src.uv_stride;
    let n = near_row(y);
    let f = far_row(y, height);
    assert(0 <= y * ys <= (height - 1) * ys) by (nonlinear_arith)
        requires
            0 <= y <= height - 1,
            0 <= ys,
    ;
    assert(0 <= n * us <= (ch - 1) * us) by (nonlinear_arith)
        requires
            0 <= n <= ch - 1,
            0 <= us,
    ;
    assert(0 <= f * us <= (ch - 1) * us) by (nonlinear_arith)
        requires
            0 <= f <= ch - 1,
            0 <= us,
    ;
}

/// Write output row `out_y` into `out` from `base` on.
fn upsample_row_at(
    src: &Yuv420Ref<'_>,
    width: usize,
    height: usize,
    out_y: usize,
    out: &mut [u8],
    base: usize,
)
    requires
        1 <= width,
        out_y < height,
        src@.covers(width as int, height as int),
        base + width * 4 <= old(out)@.len(),
    ensures
        final(out)@ == with_row(
            old(out)@,
            base as int,
            rgba_row(src@, width as int, height as int, out_y as int),
        ),
{
    let ghost row = rgba_row(src@, width as int, height as int, out_y as int);
    let ghost out0 = out@;
    let len: usize = out.len();
    let ylen: usize = src.y.len();
    let ulen: usize = src.u.len();
    proof {
        lemma_rows_fit(src@, width as int, height as int, out_y as int);
    }
    let near: usize = out_y / 2;
    let far: usize = if out_y == 0 {
        0
    } else if out_y % 2 == 1 {
        if out_y / 2 + 1 < height / 2 + height % 2 {
            out_y / 2 + 1
        } else {
            out_y / 2
        }
    } else {
        out_y / 2 - 1
    };
    let near_off: usize = near * src.uv_stride;
    let far_off: usize = far * src.uv_stride;
    let y_off: usize = out_y * src.y_stride;
    let mut x: usize = 0;
    while x < width
        invariant
            x <= width,
            1 <= width,
            out@.len() == out0.len(),
            out0.len() == len,
            base + width * 4 <= len,
            row == rgba_row(src@, width as int, height as int, out_y as int),
            near_off == near_row(out_y as int) * src.uv_stride,
            far_off == far_row(out_y as int, height as int) * src.uv_stride,
            y_off == out_y * src.y_stride,
            y_off + width <= src.y@.len(),
            src.y@.len() == ylen,
            src.u@.len() == ulen,
            near_off + (width + 1) / 2 <= src.u@.len(),
            near_off + (width + 1) / 2 <= src.v@.len(),
            far_off + (width + 1) / 2 <= src.u@.len(),
            far_off + (width + 1) / 2 <= src.v@.len(),
            forall|i: int|
                0 <= i < out0.len() ==> #[trigger] out@[i] == (if base <= i < base + 4 * x {
                    row[i - base]
                } else {
                    out0[i]
                }),
        decreases width - x,
    {
        let y: i32 = src.y[y_off + x] as i32;
        let u: i32 = upsample(src.u, near_off, far_off, width, x);
        let v: i32 = upsample(src.v, near_off, far_off, width, x);
        let p: usize = base + 4 * x;
        let ghost before = out@;
        out[p] = vp8_yuv_to_r(y, v);
        out[p + 1] = vp8_yuv_to_g(y, u, v);
        out[p + 2] = vp8_yuv_to_b(y, u);
        out[p + 3] = 0xff;
        proof {
            assert forall|i: int| 0 <= i < out0.len() implies #[trigger] out@[i] == (if base <= i
                < base + 4 * (x + 1) {
                row[i - base]
            } else {
                out0[i]
            }) by {
                if p <= i < p + 4 {
                    assert((i - base) / 4 == x);
                    assert((i - base) % 4 == i - p);
                } else {
                    assert(out@[i] == before[i]);
                }
            }
        }
        x = x + 1;
    }
    assert(out@ =~= with_row(out0, base as int, row));
}

/// Produce output row `out_y` of a `width` by `height` picture: `width` RGBA pixels.
pub fn upsample_output_row(
    src: &Yuv420Ref<'_>,
    width: usize,
    height: usize,
    out_y: usize,
    out: &mut [u8],
)
    requires
        1 <= width,
        out_y < height,
        src@.covers(width as int, height as int),
        width * 4 <= old(out)@.len(),
    ensures
        final(out)@ == with_row(
            old(out)@,
            0,
            rgba_row(src@, width as int, height as int, out_y as int),
        ),
{
    upsample_row_at(src, width, height, out_y, out, 0);
}

/// The chunks of a picture are its rows.
proof fn lemma_rows_make_image(src: YuvView, width: int, height: int, out: Seq<u8>)
    requires
        1 <= width,
        0 <= height,
        out.len() == width * 4 * height,
        forall|y: int|
            0 <= y < height ==> out.subrange(y * (width * 4), (y + 1) * (width * 4))
                == #[trigger] rgba_row(src, width, height, y),
    ensures
        out == rgba_image(src, width, height),
{
    let stride = width * 4;
    let image = rgba_image(src, width, height);
    assert forall|i: int| 0 <= i < out.len() implies out[i] == image[i] by {
        let y = i / stride;
        let x = i % stride;
        lemma_fundamental_div_mod(i, stride);
        assert(stride * y == y * stride) by (nonlinear_arith);
        assert(0 <= y < height) by (nonlinear_arith)
            requires
                0 <= i < stride * height,
                i == y * stride + x,
                0 <= x < stride,
        ;
        assert((y + 1) * stride == y * stride + stride) by (nonlinear_arith);
        assert((y + 1) * stride <= stride * height) by (nonlinear_arith)
            requires
                y + 1 <= height,
                stride >= 1,
        ;
        assert(0 <= y * stride) by (nonlinear_arith)
            requires
                0 <= y,
                0 <= stride,
        ;
        let row = rgba_row(src, width, height, y);
        assert(out.subrange(y * stride, (y + 1) * stride)[x] == row[x]);
    }
    assert(out =~= image);
}

/// Emit every output row, one after the other.
pub fn emit_rows_serial(
    src: &Yuv420Ref<'_>,
    width: usize,
    height: usize,
    out_stride: usize,
    out: &mut [u8],
)
    requires
        1 <= width,
        1 <= height,
        src@.covers(width as int, height as int),
        out_stride == width * 4,
        old(out)@.len() == out_stride * height,
    ensures
        final(out)@ == rgba_image(src@, width as int, height as int),
{
    let len: usize = out.len();
    let ghost s = out_stride as int;
    let mut y: usize = 0;
    let mut base: usize = 0;
    while y < height
        invariant
            y <= height,
            1 <= width,
            src@.covers(width as int, height as int),
            s == out_stride,
            out_stride == width * 4,
            out@.len() == out_stride * height,
            out@.len() == len,
            base == y * s,
            forall|r: int|
                0 <= r < y ==> out@.subrange(r * s, (r + 1) * s) == #[trigger] rgba_row(
                    src@,
                    width as int,
                    height as int,
                    r,
                ),
        decreases height - y,
    {
        proof {
            assert(y * s + s <= s * height) by (nonlinear_arith)
                requires
                    y + 1 <= height,
                    0 <= s,
            ;
            assert((y + 1) * s == y * s + s) by (nonlinear_arith);
        }
        let ghost before = out@;
        upsample_row_at(src, width, height, y, out, base);
        proof {
            assert forall|r: int| 0 <= r < y + 1 implies out@.subrange(r * s, (r + 1) * s)
                == #[trigger] rgba_row(src@, width as int, height as int, r) by {
                let row = rgba_row(src@, width as int, height as int, r);
                assert((r + 1) * s == r * s + s) by (nonlinear_arith);
                assert(0 <= r * s) by (nonlinear_arith)
                    requires
                        0 <= r,
                        0 <= s,
                ;
                assert(r * s + s <= y * s + s) by (nonlinear_arith)
                    requires
                        r <= y,
                        0 <= s,
                ;
                if r < y {
                    assert(r * s + s <= y * s) by (nonlinear_arith)
                        requires
                            r + 1 <= y,
                            0 <= s,
                    ;
                    assert(before.subrange(r * s, (r + 1) * s) == row);
                    assert forall|i: int| 0 <= i < s implies out@.subrange(r * s, (r + 1) * s)[i]
                        == row[i] by {
                        assert(before.subrange(r * s, (r + 1) * s)[i] == before[r * s + i]);
                    }
                }
                assert(out@.subrange(r * s, (r + 1) * s) =~= row);
            }
        }
        base = base + out_stride;
        y = y + 1;
    }
    proof {
        lemma_rows_make_image(src@, width as int, height as int, out@);
    }
}

/// `rayon`'s `par_chunks_mut(out_stride).enumerate().for_each(..)` with
/// [`upsample_output_row`]: the chunks of `out_stride` samples are disjoint, together
/// they are the whole slice, the `y`-th comes with the number `y`, and `for_each` calls
/// the closure once on each. So chunk `y` ends as row `y` of the picture.
#[verifier::external_body]
fn emit_rows_parallel(
    src: &Yuv420Ref<'_>,
    width: usize,
    height: usize,
    out_stride: usize,
    out: &mut [u8],
)
    requires
        1 <= width,
        src@.covers(width as int, height as int),
        out_stride == width * 4,
        old(out)@.len() == out_stride * height,
    ensures
        final(out)@.len() == old(out)@.len(),
        forall|y: int|
            0 <= y < height ==> final(out)@.subrange(y * out_stride, (y + 1) * out_stride)
                == #[trigger] rgba_row(src@, width as int, height as int, y),
{
    out.par_chunks_mut(out_stride)
        .enumerate()
        .for_each(|(y, row)| upsample_output_row(src, width, height, y, row));
}

/// Emit every output row; large pictures in parallel.
fn emit_rows(
    src: &Yuv420Ref<'_>,
    width: usize,
    height: usize,
    out_stride: usize,
    out: &mut [u8],
)
    requires
        1 <= width,
        1 <= height,
        src@.covers(width as int, height as int),
        out_stride == width * 4,
        old(out)@.len() == out_stride * height,
    ensures
        final(out)@ == rgba_image(src@, width as int, height as int),
{
    let len: usize = out.len();
    proof {
        assert(width * height <= width * 4 * height) by (nonlinear_arith);
    }
    if width * height < PAR_MIN_PIXELS {
        emit_rows_serial(src, width, height, out_stride, out);
    } else {
        emit_rows_parallel(src, width, height, out_stride, out);
        proof {
            assert forall|y: int| 0 <= y < height implies out@.subrange(
                y * (width * 4),
                (y + 1) * (width * 4),
            ) == #[trigger] rgba_row(src@, width as int, height as int, y) by {
                assert(width * 4 == out_stride as int);
            }
            lemma_rows_make_image(src@, width as int, height as int, out@);
        }
    }
}

/// Convert a frame to RGBA, four bytes a pixel, alpha 255.
pub fn yuv420_to_rgba(src: &Yuv420Ref<'_>, width: usize, height: usize) -> (r: Vec<u8>)
    requires
        width * 4 * height <= usize::MAX,
        width > 0 && height > 0 ==> src@.covers(width as int, height as int),
    ensures
        width > 0 && height > 0 ==> r@ == rgba_image(src@, width as int, height as int),
        r@.len() == width * 4 * height,
{
    if width == 0 || height == 0 {
        assert(width * 4 * height == 0) by (nonlinear_arith)
            requires
                width == 0 || height == 0,
        ;
        return Vec::new();
    }
    assert(width * 4 <= width * 4 * height) by (nonlinear_arith)
        requires
            height >= 1,
            width >= 0,
    ;
    let out_stride: usize = width * 4;
    let mut out: Vec<u8> = vec![0u8; out_stride * height];
    emit_rows(src, width, height, out_stride, &mut out);
    out
}

} // verus!
