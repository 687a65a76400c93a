//! RGBA to YUV 4:2:0 conversion.
//!
//! The matrix is the studio-swing one that [`crate::yuv`] inverts. Chroma is
//! box-downsampled: a chroma sample sums its 2x2 luma sites, and the descaling shift
//! folds in the division by four. The picture is extended to whole macroblocks by
//! replicating its last row and column.

use vstd::arithmetic::div_mod::lemma_fundamental_div_mod_converse;
use vstd::prelude::*;

use crate::arith::{clip8_spec, group_shr};

verus! {

broadcast use group_shr;

/// Weights of red, green and blue in U.
pub const U_COEFF: [i32; 3] = [-9719, -19081, 28800];

/// Weights of red, green and blue in V.
pub const V_COEFF: [i32; 3] = [28800, -24116, -4684];

/// The source planes of one frame, padded to whole macroblocks.
pub struct SourceYuv {
    /// Luma, `mb_w * 16` by `mb_h * 16`.
    pub y: Vec<u8>,
    /// U chroma, `mb_w * 8` by `mb_h * 8`.
    pub u: Vec<u8>,
    /// V chroma, `mb_w * 8` by `mb_h * 8`.
    pub v: Vec<u8>,
    /// Width in macroblocks.
    pub mb_w: usize,
    /// Height in macroblocks.
    pub mb_h: usize,
}

impl SourceYuv {
    /// The planes have the sizes the grid asks for.
    pub open spec fn wf(&self) -> bool {
        &&& 1 <= self.mb_w
        &&& 1 <= self.mb_h
        &&& self.y@.len() == (self.mb_w * 16) * (self.mb_h * 16)
        &&& self.u@.len() == (self.mb_w * 8) * (self.mb_h * 8)
        &&& self.v@.len() == (self.mb_w * 8) * (self.mb_h * 8)
    }

    /// Row stride of the luma plane.
    pub fn y_stride(&self) -> (r: usize)
        requires
            self.wf(),
        ensures
            r == self.mb_w * 16,
    {
        proof {
            lemma_stride_fits(self.mb_w as int, self.mb_h as int);
        }
        let len: usize = self.y.len();
        self.mb_w * 16
    }

    /// Row stride of the chroma planes.
    pub fn uv_stride(&self) -> (r: usize)
        requires
            self.wf(),
        ensures
            r == self.mb_w * 8,
    {
        proof {
            lemma_stride_fits(self.mb_w as int, self.mb_h as int);
        }
        let len: usize = self.y.len();
        self.mb_w * 8
    }
}

pub(crate) proof fn lemma_stride_fits(w: int, h: int)
    requires
        1 <= w,
        1 <= h,
    ensures
        w * 16 <= (w * 16) * (h * 16),
        h * 16 <= (w * 16) * (h * 16),
        (w * 8) * (h * 8) <= (w * 16) * (h * 16),
{
    assert(w * 16 <= (w * 16) * (h * 16)) by (nonlinear_arith)
        requires
            1 <= w,
            1 <= h,
    ;
    assert(h * 16 <= (w * 16) * (h * 16)) by (nonlinear_arith)
        requires
            1 <= w,
            1 <= h,
    ;
    assert((w * 8) * (h * 8) <= (w * 16) * (h * 16)) by (nonlinear_arith)
        requires
            1 <= w,
            1 <= h,
    ;
}

/// The luma of one pixel.
pub open spec fn rgb_to_y_spec(r: int, g: int, b: int) -> u8 {
    clip8_spec((16839 * r + 33059 * g + 6420 * b + 32768 + 1048576) / 65536)
}

/// A chroma sample from four summed pixels weighed into `acc`.
pub open spec fn chroma_of_sum(acc: int) -> u8 {
    clip8_spec((acc + 131072 + 33554432) / 262144)
}

/// The weighted sum of three channels.
pub open spec fn weigh(c: [i32; 3], r: int, g: int, b: int) -> int {
    c[0] * r + c[1] * g + c[2] * b
}

/// The luma of one pixel.
pub fn rgb_to_y(r: i32, g: i32, b: i32) -> (y: u8)
    requires
        0 <= r <= 255,
        0 <= g <= 255,
        0 <= b <= 255,
    ensures
        y == rgb_to_y_spec(r as int, g as int, b as int),
        16 <= y <= 235,
{
    let luma: i32 = 16839 * r + 33059 * g + 6420 * b;
    let v: i32 = (luma + 32768 + 1048576) >> 16;
    crate::arith::clip8(v)
}

/// Centre, round, descale and clip a summed chroma value.
pub(crate) fn clip_uv_sum(acc: i32) -> (r: u8)
    requires
        -1_000_000_000 <= acc <= 1_000_000_000,
    ensures
        r == chroma_of_sum(acc as int),
{
    let v: i32 = (acc + 131072 + 33554432) >> 18;
    crate::arith::clip8(v)
}

/// The U sample of a summed 2x2 block of pixels.
pub fn rgb_to_u(sr: i32, sg: i32, sb: i32) -> (r: u8)
    requires
        0 <= sr <= 1020,
        0 <= sg <= 1020,
        0 <= sb <= 1020,
    ensures
        r == chroma_of_sum(weigh(U_COEFF, sr as int, sg as int, sb as int)),
{
    clip_uv_sum(U_COEFF[0] * sr + U_COEFF[1] * sg + U_COEFF[2] * sb)
}

/// The V sample of a summed 2x2 block of pixels.
pub fn rgb_to_v(sr: i32, sg: i32, sb: i32) -> (r: u8)
    requires
        0 <= sr <= 1020,
        0 <= sg <= 1020,
        0 <= sb <= 1020,
    ensures
        r == chroma_of_sum(weigh(V_COEFF, sr as int, sg as int, sb as int)),
{
    clip_uv_sum(V_COEFF[0] * sr + V_COEFF[1] * sg + V_COEFF[2] * sb)
}

/// Channel `c` of the pixel at (`x`, `y`), replicated past the picture's edges.
pub open spec fn pixel(rgba: Seq<u8>, width: int, height: int, x: int, y: int, c: int) -> int {
    let cx = if x < width {
        x
    } else {
        width - 1
    };
    let cy = if y < height {
        y
    } else {
        height - 1
    };
    rgba[(cy * width + cx) * 4 + c] as int
}

/// Channel `c` summed over the 2x2 pixels of chroma site (`x`, `y`).
pub open spec fn pixel_sum(rgba: Seq<u8>, width: int, height: int, x: int, y: int, c: int) -> int {
    pixel(rgba, width, height, 2 * x, 2 * y, c) + pixel(rgba, width, height, 2 * x + 1, 2 * y, c)
        + pixel(rgba, width, height, 2 * x, 2 * y + 1, c) + pixel(
        rgba,
        width,
        height,
        2 * x + 1,
        2 * y + 1,
        c,
    )
}

/// How many macroblocks cover `n` samples.
pub open spec fn blocks_of(n: int) -> int {
    (n + 15) / 16
}

/// Luma sample (`x`, `y`) of a picture.
pub open spec fn luma_at(rgba: Seq<u8>, width: int, height: int, x: int, y: int) -> u8 {
    rgb_to_y_spec(
        pixel(rgba, width, height, x, y, 0),
        pixel(rgba, width, height, x, y, 1),
        pixel(rgba, width, height, x, y, 2),
    )
}

/// Chroma sample (`x`, `y`) of a picture under the weights `coeff`.
pub open spec fn chroma_at(
    rgba: Seq<u8>,
    width: int,
    height: int,
    coeff: [i32; 3],
    x: int,
    y: int,
) -> u8 {
    chroma_of_sum(
        weigh(
            coeff,
            pixel_sum(rgba, width, height, x, y, 0),
            pixel_sum(rgba, width, height, x, y, 1),
            pixel_sum(rgba, width, height, x, y, 2),
        ),
    )
}

/// The padded luma plane of a picture.
pub open spec fn luma_plane(rgba: Seq<u8>, width: int, height: int) -> Seq<u8> {
    let stride = blocks_of(width) * 16;
    Seq::new(
        (stride * (blocks_of(height) * 16)) as nat,
        |i: int| luma_at(rgba, width, height, i % stride, i / stride),
    )
}

/// A padded chroma plane of a picture.
pub open spec fn chroma_plane(rgba: Seq<u8>, width: int, height: int, coeff: [i32; 3]) -> Seq<u8> {
    let stride = blocks_of(width) * 8;
    Seq::new(
        (stride * (blocks_of(height) * 8)) as nat,
        |i: int| chroma_at(rgba, width, height, coeff, i % stride, i / stride),
    )
}

/// Read one pixel, replicated past the picture's edges.
pub(crate) fn read_pixel(rgba: &[u8], width: usize, height: usize, x: usize, y: usize) -> (r: (i32, i32, i32))
    requires
        1 <= width,
        1 <= height,
        width * height * 4 <= rgba@.len(),
    ensures
        r.0 == pixel(rgba@, width as int, height as int, x as int, y as int, 0),
        r.1 == pixel(rgba@, width as int, height as int, x as int, y as int, 1),
        r.2 == pixel(rgba@, width as int, height as int, x as int, y as int, 2),
        0 <= r.0 <= 255,
        0 <= r.1 <= 255,
        0 <= r.2 <= 255,
{
    let len: usize = rgba.len();
    let cx: usize = if x < width {
        x
    } else {
        width - 1
    };
    let cy: usize = if y < height {
        y
    } else {
        height - 1
    };
    proof {
        assert(cy * width + cx + 1 <= width * height) by (nonlinear_arith)
            requires
                cx < width,
                cy < height,
        ;
        assert(0 <= cy * width) by (nonlinear_arith);
    }
    let i: usize = (cy * width + cx) * 4;
    (rgba[i] as i32, rgba[i + 1] as i32, rgba[i + 2] as i32)
}

/// The position after one more sample of a row.
pub(crate) proof fn lemma_at(stride: int, x: int, y: int, rows: int)
    requires
        0 <= x < stride,
        0 <= y < rows,
    ensures
        (y * stride + x) / stride == y,
        (y * stride + x) % stride == x,
        0 <= y * stride + x < stride * rows,
{
    lemma_fundamental_div_mod_converse(y * stride + x, stride, y, x);
    assert(0 <= y * stride + x < stride * rows) by (nonlinear_arith)
        requires
            0 <= x < stride,
            0 <= y < rows,
    ;
}

fn luma_of(rgba: &[u8], width: usize, height: usize, stride: usize, rows: usize) -> (r: Vec<u8>)
    requires
        1 <= width,
        1 <= height,
        width * height * 4 <= rgba@.len(),
        stride == blocks_of(width as int) * 16,
        rows == blocks_of(height as int) * 16,
        stride * rows <= usize::MAX,
    ensures
        r@ == luma_plane(rgba@, width as int, height as int),
{
    let mut out: Vec<u8> = Vec::new();
    let mut y: usize = 0;
    while y < rows
        invariant
            y <= rows,
            1 <= width,
            1 <= height,
            width * height * 4 <= rgba@.len(),
            out@.len() == y * stride,
            forall|i: int|
                0 <= i < out@.len() ==> #[trigger] out@[i] == luma_at(
                    rgba@,
                    width as int,
                    height as int,
                    i % stride as int,
                    i / stride as int,
                ),
        decreases rows - y,
    {
        let mut x: usize = 0;
        while x < stride
            invariant
                x <= stride,
                y < rows,
                1 <= width,
                1 <= height,
                width * height * 4 <= rgba@.len(),
                out@.len() == y * stride + x,
                forall|i: int|
                    0 <= i < out@.len() ==> #[trigger] out@[i] == luma_at(
                        rgba@,
                        width as int,
                        height as int,
                        i % stride as int,
                        i / stride as int,
                    ),
            decreases stride - x,
        {
            let (r, g, b) = read_pixel(rgba, width, height, x, y);
            proof {
                lemma_at(stride as int, x as int, y as int, rows as int);
            }
            out.push(rgb_to_y(r, g, b));
            x = x + 1;
        }
        y = y + 1;
        assert((y - 1) * stride + stride == y * stride) by (nonlinear_arith);
    }
    assert(rows * stride == stride * rows) by (nonlinear_arith);
    assert(out@ =~= luma_plane(rgba@, width as int, height as int));
    out
}

fn chroma_of(rgba: &[u8], width: usize, height: usize, stride: usize, rows: usize) -> (r: (
    Vec<u8>,
    Vec<u8>,
))
    requires
        1 <= width,
        1 <= height,
        width * height * 4 <= rgba@.len(),
        stride == blocks_of(width as int) * 8,
        rows == blocks_of(height as int) * 8,
        2 * stride <= usize::MAX,
        2 * rows <= usize::MAX,
        stride * rows <= usize::MAX,
    ensures
        r.0@ == chroma_plane(rgba@, width as int, height as int, U_COEFF),
        r.1@ == chroma_plane(rgba@, width as int, height as int, V_COEFF),
{
    let mut u: Vec<u8> = Vec::new();
    let mut v: Vec<u8> = Vec::new();
    let mut y: usize = 0;
    while y < rows
        invariant
            y <= rows,
            1 <= width,
            1 <= height,
            2 * stride <= usize::MAX,
            2 * rows <= usize::MAX,
            width * height * 4 <= rgba@.len(),
            u@.len() == y * stride,
            v@.len() == y * stride,
            forall|i: int|
                0 <= i < u@.len() ==> #[trigger] u@[i] == chroma_at(
                    rgba@,
                    width as int,
                    height as int,
                    U_COEFF,
                    i % stride as int,
                    i / stride as int,
                ),
            forall|i: int|
                0 <= i < v@.len() ==> #[trigger] v@[i] == chroma_at(
                    rgba@,
                    width as int,
                    height as int,
                    V_COEFF,
                    i % stride as int,
                    i / stride as int,
                ),
        decreases rows - y,
    {
        let mut x: usize = 0;
        while x < stride
            invariant
                x <= stride,
                y < rows,
                1 <= width,
                1 <= height,
                2 * stride <= usize::MAX,
                2 * rows <= usize::MAX,
                width * height * 4 <= rgba@.len(),
                u@.len() == y * stride + x,
                v@.len() == y * stride + x,
                forall|i: int|
                    0 <= i < u@.len() ==> #[trigger] u@[i] == chroma_at(
                        rgba@,
                        width as int,
                        height as int,
                        U_COEFF,
                        i % stride as int,
                        i / stride as int,
                    ),
                forall|i: int|
                    0 <= i < v@.len() ==> #[trigger] v@[i] == chroma_at(
                        rgba@,
                        width as int,
                        height as int,
                        V_COEFF,
                        i % stride as int,
                        i / stride as int,
                    ),
            decreases stride - x,
        {
            let a: (i32, i32, i32) = read_pixel(rgba, width, height, 2 * x, 2 * y);
            let b: (i32, i32, i32) = read_pixel(rgba, width, height, 2 * x + 1, 2 * y);
            let c: (i32, i32, i32) = read_pixel(rgba, width, height, 2 * x, 2 * y + 1);
            let d: (i32, i32, i32) = read_pixel(rgba, width, height, 2 * x + 1, 2 * y + 1);
            let sr: i32 = a.0 + b.0 + c.0 + d.0;
            let sg: i32 = a.1 + b.1 + c.1 + d.1;
            let sb: i32 = a.2 + b.2 + c.2 + d.2;
            proof {
                lemma_at(stride as int, x as int, y as int, rows as int);
            }
            u.push(rgb_to_u(sr, sg, sb));
            v.push(rgb_to_v(sr, sg, sb));
            x = x + 1;
        }
        y = y + 1;
        assert((y - 1) * stride + stride == y * stride) by (nonlinear_arith);
    }
    assert(rows * stride == stride * rows) by (nonlinear_arith);
    assert(u@ =~= chroma_plane(rgba@, width as int, height as int, U_COEFF));
    assert(v@ =~= chroma_plane(rgba@, width as int, height as int, V_COEFF));
    (u, v)
}

/// Whether a picture of this size has planes that fit in memory.
pub open spec fn picture_fits(rgba_len: int, width: int, height: int) -> bool {
    &&& 1 <= width
    &&& 1 <= height
    &&& width * height * 4 <= rgba_len
    &&& (blocks_of(width) * 16) * (blocks_of(height) * 16) <= usize::MAX
}

/// Convert an RGBA picture (row-major, alpha ignored) into padded YUV 4:2:0 planes.
#[must_use]
pub fn from_rgba(rgba: &[u8], width: usize, height: usize) -> (r: SourceYuv)
    requires
        picture_fits(rgba@.len() as int, width as int, height as int),
    ensures
        r.wf(),
        r.mb_w == blocks_of(width as int),
        r.mb_h == blocks_of(height as int),
        r.y@ == luma_plane(rgba@, width as int, height as int),
        r.u@ == chroma_plane(rgba@, width as int, height as int, U_COEFF),
        r.v@ == chroma_plane(rgba@, width as int, height as int, V_COEFF),
{
    proof {
        lemma_stride_fits(blocks_of(width as int), blocks_of(height as int));
    }
    let mb_w: usize = (width - 1) / 16 + 1;
    let mb_h: usize = (height - 1) / 16 + 1;
    let y: Vec<u8> = luma_of(rgba, width, height, mb_w * 16, mb_h * 16);
    let (u, v) = chroma_of(rgba, width, height, mb_w * 8, mb_h * 8);
    SourceYuv { y, u, v, mb_w, mb_h }
}

} // verus!
