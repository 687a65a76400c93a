//! Key-frame reconstruction and in-loop filtering.
//!
//! A macroblock is predicted from already reconstructed, unfiltered neighbours and its
//! residual is added; when the whole frame is reconstructed the loop filter runs over
//! it in place. The planes carry a row of 127 above, a column of 129 to the left, and
//! luma four scratch columns to the right, where the samples above to the right of a
//! macroblock are repeated for its 4x4 sub-blocks.

use vstd::arithmetic::div_mod::lemma_fundamental_div_mod_converse;
use vstd::prelude::*;

use crate::arith::{clamp_int, group_shr};
use crate::block::{
    blit, lemma_blit_blit, lemma_blit_square, lemma_blit_sub, lemma_square4_sub, lemma_square_blit,
    lemma_sub_fits, square, square4, square_fits, sub_block, sub_off,
};
use crate::constants::{B_HU_PRED, H_PRED};
use crate::decode::{FilterHeader, MbData, SegmentHeader};
use crate::error::{Codec, Error, Result};
use crate::idct::{
    dc_only_transform_is_full_transform, idct_add, idct_dc_add, transform_dc, transform_one,
};
use crate::image::{dimensions_ok, Dimensions, Image, PixelLayout};
use crate::loop_filter::{
    chroma_filtered, filter_fits, filter_mb_normal, filter_mb_simple, finfo_off, normal_filtered,
    simple_filtered, FInfo,
};
use crate::predict::{block4, edge4, predict_chroma8, predict_luma16, predict_luma4, top_row};
use crate::recon_block::{
    add_residuals, blank_block, chroma_edge, chroma_recon, coeff_block, has_lane, i4_blocks,
    i4_decoded, i4_edge, lemma_add_residuals_len, lemma_i4_blocks_ext, lemma_i4_edge_plane,
    luma16_recon, luma4_recon, luma_edge, luma_fits, predicted, Edge,
};
use crate::yuv::{rgba_image, yuv420_to_rgba, Yuv420Ref, YuvView};

verus! {

broadcast use group_shr;

/// The padded reconstruction planes of a frame.
pub struct Planes {
    /// Luma.
    pub y: Vec<u8>,
    /// U chroma.
    pub u: Vec<u8>,
    /// V chroma.
    pub v: Vec<u8>,
    /// Luma row stride.
    pub y_stride: usize,
    /// Chroma row stride.
    pub uv_stride: usize,
}

/// The samples of three planes.
pub struct Samples {
    /// Luma.
    pub y: Seq<u8>,
    /// U chroma.
    pub u: Seq<u8>,
    /// V chroma.
    pub v: Seq<u8>,
}

impl View for Planes {
    type V = Samples;

    open spec fn view(&self) -> Samples {
        Samples { y: self.y@, u: self.u@, v: self.v@ }
    }
}

/// The luma stride of a frame `mb_w` macroblocks wide: the left column, the samples,
/// four scratch columns.
pub open spec fn luma_stride(mb_w: int) -> int {
    mb_w * 16 + 5
}

/// The chroma stride of a frame `mb_w` macroblocks wide.
pub open spec fn chroma_stride(mb_w: int) -> int {
    mb_w * 8 + 1
}

/// Whether planes have the sizes a frame asks for.
pub open spec fn planes_sized(s: Samples, mb_w: int, mb_h: int) -> bool {
    &&& s.y.len() == luma_stride(mb_w) * (1 + mb_h * 16)
    &&& s.u.len() == chroma_stride(mb_w) * (1 + mb_h * 8)
    &&& s.v.len() == chroma_stride(mb_w) * (1 + mb_h * 8)
}

/// `plane` with its first row set to 127 and the rest of its first column to 129.
pub open spec fn bordered(plane: Seq<u8>, stride: int) -> Seq<u8> {
    Seq::new(
        plane.len(),
        |i: int|
            if i < stride {
                127
            } else if i % stride == 0 {
                129
            } else {
                plane[i]
            },
    )
}

/// An empty plane with its borders.
pub open spec fn empty_plane(stride: int, rows: int) -> Seq<u8> {
    bordered(Seq::new((stride * rows) as nat, |i: int| 0u8), stride)
}

/// Set a plane's first row to 127 and the rest of its first column to 129.
pub fn fill_borders(plane: &mut [u8], stride: usize, rows: usize)
    requires
        1 <= stride,
        1 <= rows,
        old(plane)@.len() == stride * rows,
    ensures
        final(plane)@ == bordered(old(plane)@, stride as int),
{
    let ghost p0 = plane@;
    let ghost s = stride as int;
    let len: usize = plane.len();
    let mut x: usize = 0;
    proof {
        assert(stride <= stride * rows) by (nonlinear_arith)
            requires
                1 <= rows,
        ;
    }
    while x < stride
        invariant
            x <= stride <= len,
            plane@.len() == len,
            p0.len() == len,
            forall|i: int| 0 <= i < len ==> #[trigger] plane@[i] == (if i < x {
                127
            } else {
                p0[i]
            }),
        decreases stride - x,
    {
        plane[x] = 127;
        x = x + 1;
    }
    let mut row: usize = 1;
    let mut at: usize = stride;
    while row < rows
        invariant
            1 <= row <= rows,
            1 <= stride,
            s == stride,
            plane@.len() == len,
            p0.len() == len,
            len == stride * rows,
            at == row * s,
            forall|i: int|
                0 <= i < len ==> #[trigger] plane@[i] == (if i < s {
                    127
                } else if i % s == 0 && i < row * s {
                    129
                } else {
                    p0[i]
                }),
        decreases rows - row,
    {
        let ghost before = plane@;
        proof {
            assert(row * s + s <= s * rows) by (nonlinear_arith)
                requires
                    row + 1 <= rows,
                    1 <= s,
            ;
            assert((row + 1) * s == row * s + s) by (nonlinear_arith);
            lemma_fundamental_div_mod_converse(row * s, s, row as int, 0);
            assert(s <= row * s) by (nonlinear_arith)
                requires
                    1 <= row,
                    1 <= s,
            ;
        }
        plane[at] = 129;
        proof {
            assert forall|i: int| 0 <= i < len implies #[trigger] plane@[i] == (if i < s {
                127
            } else if i % s == 0 && i < (row + 1) * s {
                129
            } else {
                p0[i]
            }) by {
                if i != at {
                    assert(plane@[i] == before[i]);
                    if row * s < i < row * s + s {
                        lemma_fundamental_div_mod_converse(i, s, row as int, i - row * s);
                    }
                }
            }
        }
        at = at + stride;
        row = row + 1;
    }
    assert(rows * s == s * rows) by (nonlinear_arith);
    assert(plane@ =~= bordered(p0, s));
}

pub proof fn lemma_frame_sizes(mb_w: int, mb_h: int)
    requires
        0 <= mb_w,
        0 <= mb_h,
    ensures
        luma_stride(mb_w) <= luma_stride(mb_w) * (1 + mb_h * 16),
        1 + mb_h * 16 <= luma_stride(mb_w) * (1 + mb_h * 16),
        0 <= chroma_stride(mb_w) * (1 + mb_h * 8) <= luma_stride(mb_w) * (1 + mb_h * 16),
{
    let a = luma_stride(mb_w);
    let b = 1 + mb_h * 16;
    let c = chroma_stride(mb_w);
    let d = 1 + mb_h * 8;
    assert(a <= a * b && b <= a * b) by (nonlinear_arith)
        requires
            a >= 1,
            b >= 1,
    ;
    assert(0 <= c * d <= a * b) by (nonlinear_arith)
        requires
            0 <= c <= a,
            0 <= d <= b,
    ;
}

impl Planes {
    /// The strides and sizes are those of a frame of `mb_w` by `mb_h` macroblocks.
    pub open spec fn wf(&self, mb_w: int, mb_h: int) -> bool {
        &&& self.y_stride == luma_stride(mb_w)
        &&& self.uv_stride == chroma_stride(mb_w)
        &&& planes_sized(self@, mb_w, mb_h)
    }

    /// Empty planes with their borders.
    pub fn new(mb_w: usize, mb_h: usize) -> (r: Self)
        requires
            luma_stride(mb_w as int) * (1 + mb_h * 16) <= usize::MAX,
        ensures
            r.wf(mb_w as int, mb_h as int),
            r.y@ == empty_plane(luma_stride(mb_w as int), 1 + mb_h * 16),
            r.u@ == empty_plane(chroma_stride(mb_w as int), 1 + mb_h * 8),
            r.v@ == empty_plane(chroma_stride(mb_w as int), 1 + mb_h * 8),
    {
        proof {
            lemma_frame_sizes(mb_w as int, mb_h as int);
        }
        let y_stride: usize = 1 + mb_w * 16 + 4;
        let uv_stride: usize = 1 + mb_w * 8;
        let y_rows: usize = 1 + mb_h * 16;
        let uv_rows: usize = 1 + mb_h * 8;
        let mut y: Vec<u8> = vec![0u8; y_stride * y_rows];
        let mut u: Vec<u8> = vec![0u8; uv_stride * uv_rows];
        let mut v: Vec<u8> = vec![0u8; uv_stride * uv_rows];
        assert(y@ =~= Seq::new((y_stride * y_rows) as nat, |i: int| 0u8));
        assert(u@ =~= Seq::new((uv_stride * uv_rows) as nat, |i: int| 0u8));
        assert(v@ =~= Seq::new((uv_stride * uv_rows) as nat, |i: int| 0u8));
        fill_borders(&mut y, y_stride, y_rows);
        fill_borders(&mut u, uv_stride, uv_rows);
        fill_borders(&mut v, uv_stride, uv_rows);
        Planes { y, u, v, y_stride, uv_stride }
    }

    /// The luma samples of the top-left `w` by `h` region.
    pub fn crop_y(&self, w: usize, h: usize) -> (r: Vec<u8>)
        requires
            crop_fits(self.y@.len() as int, self.y_stride as int, w as int, h as int),
        ensures
            r@ == cropped(self.y@, self.y_stride as int, w as int, h as int),
    {
        crop(&self.y, self.y_stride, w, h)
    }

    /// The U samples of the top-left `w` by `h` region.
    pub fn crop_u(&self, w: usize, h: usize) -> (r: Vec<u8>)
        requires
            crop_fits(self.u@.len() as int, self.uv_stride as int, w as int, h as int),
        ensures
            r@ == cropped(self.u@, self.uv_stride as int, w as int, h as int),
    {
        crop(&self.u, self.uv_stride, w, h)
    }

    /// The V samples of the top-left `w` by `h` region.
    pub fn crop_v(&self, w: usize, h: usize) -> (r: Vec<u8>)
        requires
            crop_fits(self.v@.len() as int, self.uv_stride as int, w as int, h as int),
        ensures
            r@ == cropped(self.v@, self.uv_stride as int, w as int, h as int),
    {
        crop(&self.v, self.uv_stride, w, h)
    }
}

/// Whether a plane holds a `w` by `h` region behind its borders.
pub open spec fn crop_fits(len: int, stride: int, w: int, h: int) -> bool {
    h > 0 ==> h * stride + 1 + w <= len
}

/// The `w` by `h` region behind a plane's borders, row-major.
pub open spec fn cropped(plane: Seq<u8>, stride: int, w: int, h: int) -> Seq<u8> {
    Seq::new((w * h) as nat, |i: int| plane[(i / w + 1) * stride + 1 + i % w])
}

/// Copy the `w` by `h` region behind a plane's borders.
fn crop(plane: &[u8], stride: usize, w: usize, h: usize) -> (r: Vec<u8>)
    requires
        crop_fits(plane@.len() as int, stride as int, w as int, h as int),
    ensures
        r@ == cropped(plane@, stride as int, w as int, h as int),
{
    let len: usize = plane.len();
    let mut out: Vec<u8> = Vec::new();
    let mut y: usize = 0;
    let mut row: usize = 0;
    while y < h
        invariant
            y <= h,
            h > 0 ==> h * stride + 1 + w <= plane@.len(),
            plane@.len() == len,
            row == y * stride,
            out@.len() == y * w,
            forall|i: int|
                0 <= i < out@.len() ==> #[trigger] out@[i] == plane@[(i / w as int + 1) * stride + 1
                    + i % w as int],
        decreases h - y,
    {
        proof {
            assert((y + 1) * stride == y * stride + stride) by (nonlinear_arith);
            assert((y + 1) * stride <= h * stride) by (nonlinear_arith)
                requires
                    y + 1 <= h,
            ;
        }
        row = row + stride;
        let mut x: usize = 0;
        while x < w
            invariant
                x <= w,
                y < h,
                row == (y + 1) * stride,
                row + 1 + w <= plane@.len(),
                plane@.len() == len,
                out@.len() == y * w + x,
                forall|i: int|
                    0 <= i < out@.len() ==> #[trigger] out@[i] == plane@[(i / w as int + 1) * stride
                        + 1 + i % w as int],
            decreases w - x,
        {
            proof {
                lemma_fundamental_div_mod_converse(y * w + x, w as int, y as int, x as int);
            }
            out.push(plane[row + 1 + x]);
            x = x + 1;
        }
        assert((y + 1) * w == y * w + w) by (nonlinear_arith);
        y = y + 1;
    }
    assert(h * w == w * h) by (nonlinear_arith);
    assert(out@ =~= cropped(plane@, stride as int, w as int, h as int));
    out
}

/// Four samples written from `at` on.
pub open spec fn put4(p: Seq<u8>, at: int, v: Seq<u8>) -> Seq<u8> {
    p.update(at, v[0]).update(at + 1, v[1]).update(at + 2, v[2]).update(at + 3, v[3])
}

/// `p` with the samples above to the right of the macroblock at `off` set up: in the
/// rightmost column below the first row they repeat the last sample above, and they are
/// copied beside rows 3, 7 and 11.
pub open spec fn lane_filled(
    p: Seq<u8>,
    off: int,
    stride: int,
    has_top: bool,
    is_rightmost: bool,
) -> Seq<u8> {
    let tr = off - stride + 16;
    let q = if has_top && is_rightmost {
        let last = p[off - stride + 15];
        put4(p, tr, seq![last, last, last, last])
    } else {
        p
    };
    let lane = seq![q[tr], q[tr + 1], q[tr + 2], q[tr + 3]];
    put4(
        put4(put4(q, off + 3 * stride + 16, lane), off + 7 * stride + 16, lane),
        off + 11 * stride + 16,
        lane,
    )
}

/// Whether index `i` is one of the samples right of the macroblock at `off` that hold
/// what is above to the right.
pub open spec fn in_lane(i: int, off: int, stride: int) -> bool {
    ||| off - stride + 16 <= i < off - stride + 20
    ||| off + 3 * stride + 16 <= i < off + 3 * stride + 20
    ||| off + 7 * stride + 16 <= i < off + 7 * stride + 20
    ||| off + 11 * stride + 16 <= i < off + 11 * stride + 20
}

/// Setting up the samples above to the right gives the macroblock its edge and changes
/// nothing else.
pub proof fn lemma_lane(p: Seq<u8>, off: int, stride: int, has_top: bool, is_rightmost: bool)
    requires
        luma_fits(p.len() as int, off, stride),
    ensures
        lane_filled(p, off, stride, has_top, is_rightmost).len() == p.len(),
        has_lane(
            lane_filled(p, off, stride, has_top, is_rightmost),
            off,
            stride,
            luma_edge(p, off, stride, has_top, is_rightmost),
        ),
        forall|i: int|
            0 <= i < p.len() && !in_lane(i, off, stride) ==> #[trigger] lane_filled(
                p,
                off,
                stride,
                has_top,
                is_rightmost,
            )[i] == p[i],
{
    let e = luma_edge(p, off, stride, has_top, is_rightmost);
    let q = lane_filled(p, off, stride, has_top, is_rightmost);
    assert forall|y: int| 0 <= y < 16 implies q[off + y * stride - 1] == #[trigger] e.left[y] by {
        assert(0 <= y * stride <= 15 * stride) by (nonlinear_arith)
            requires
                0 <= y <= 15,
                stride >= 21,
        ;
        let i = off + y * stride - 1;
        assert(!in_lane(i, off, stride)) by {
            if y <= 3 {
                assert(y * stride <= 3 * stride) by (nonlinear_arith)
                    requires
                        0 <= y <= 3,
                        stride >= 21,
                ;
            } else {
                assert(y * stride >= 4 * stride) by (nonlinear_arith)
                    requires
                        y >= 4,
                        stride >= 21,
                ;
                if y <= 7 {
                    assert(y * stride <= 7 * stride) by (nonlinear_arith)
                        requires
                            0 <= y <= 7,
                            stride >= 21,
                    ;
                } else {
                    assert(y * stride >= 8 * stride) by (nonlinear_arith)
                        requires
                            y >= 8,
                            stride >= 21,
                    ;
                    if y <= 11 {
                        assert(y * stride <= 11 * stride) by (nonlinear_arith)
                            requires
                                0 <= y <= 11,
                                stride >= 21,
                        ;
                    } else {
                        assert(y * stride >= 12 * stride) by (nonlinear_arith)
                            requires
                                y >= 12,
                                stride >= 21,
                        ;
                    }
                }
            }
        }
        assert(q[i] == p[i]);
    }
}

/// Set up the samples above to the right of the luma macroblock at `y_off`.
pub fn fill_top_right_lane(
    y: &mut [u8],
    y_off: usize,
    stride: usize,
    has_top: bool,
    is_rightmost: bool,
)
    requires
        luma_fits(old(y)@.len() as int, y_off as int, stride as int),
    ensures
        final(y)@ == lane_filled(old(y)@, y_off as int, stride as int, has_top, is_rightmost),
{
    let len: usize = y.len();
    let tr: usize = y_off - stride + 16;
    if has_top && is_rightmost {
        let last: u8 = y[y_off - stride + 15];
        y[tr] = last;
        y[tr + 1] = last;
        y[tr + 2] = last;
        y[tr + 3] = last;
    }
    let lane: [u8; 4] = [y[tr], y[tr + 1], y[tr + 2], y[tr + 3]];
    put_lane(y, y_off + 3 * stride + 16, lane);
    put_lane(y, y_off + 7 * stride + 16, lane);
    put_lane(y, y_off + 11 * stride + 16, lane);
}

fn put_lane(y: &mut [u8], at: usize, lane: [u8; 4])
    requires
        at + 4 <= old(y)@.len(),
    ensures
        final(y)@ == put4(old(y)@, at as int, lane@),
        final(y)@.len() == old(y)@.len(),
{
    let len: usize = y.len();
    y[at] = lane[0];
    y[at + 1] = lane[1];
    y[at + 2] = lane[2];
    y[at + 3] = lane[3];
}

/// A macroblock's modes are modes of the predictors it uses.
pub open spec fn modes_ok(b: MbData) -> bool {
    &&& b.uvmode <= H_PRED
    &&& if b.is_i4x4 {
        forall|k: int| 0 <= k < 16 ==> #[trigger] b.imodes@[k] <= B_HU_PRED
    } else {
        b.imodes@[0] <= H_PRED
    }
}

/// What a macroblock's luma reconstructs to, given its edge.
pub open spec fn luma_recon(e: Edge, b: MbData, has_top: bool, has_left: bool) -> Seq<u8> {
    if b.is_i4x4 {
        luma4_recon(e, b.imodes@, b.coeffs@)
    } else {
        luma16_recon(e, b.imodes@[0], b.coeffs@, has_top, has_left)
    }
}

/// Whether the chroma block at `off` and its edge lie in a plane.
pub open spec fn chroma_fits(len: int, off: int, stride: int) -> bool {
    crate::predict::has_edge(len, off, stride, 8)
}

/// Coefficients that are all zero add nothing.
pub proof fn lemma_zero_adds_nothing(c: Seq<i16>, pred: Seq<u8>)
    requires
        c.len() == 16,
        pred.len() == 16,
        forall|i: int| 0 <= i < 16 ==> c[i] == 0,
    ensures
        idct_add(c, pred) == pred,
{
    dc_only_transform_is_full_transform(c, pred);
    assert(idct_dc_add(0, pred) =~= pred);
}

/// The 4x4 samples as a block.
pub proof fn lemma_square4_is_square(p: Seq<u8>, off: int, stride: int)
    ensures
        square4(p, off, stride) == square(p, off, stride, 4),
{
    let a = square4(p, off, stride);
    let b = square(p, off, stride, 4);
    assert forall|i: int| 0 <= i < 16 implies a[i] == b[i] by {
        let y = i / 4;
        assert(y == 0 || y == 1 || y == 2 || y == 3);
        assert(0 * stride == 0 && 1 * stride == stride);
    }
    assert(4 * 4 == 16);
    assert(a =~= b);
}

/// Copy the coefficients of block `idx`.
fn block_coeffs(coeffs: &[i16; 384], idx: usize) -> (r: [i16; 16])
    requires
        idx < 24,
    ensures
        r@ == coeff_block(coeffs@, idx as int),
{
    let mut r: [i16; 16] = [0i16; 16];
    let mut i: usize = 0;
    while i < 16
        invariant
            i <= 16,
            idx < 24,
            forall|j: int| 0 <= j < i ==> #[trigger] r@[j] == coeffs@[16 * idx + j],
        decreases 16 - i,
    {
        r[i] = coeffs[16 * idx + i];
        i = i + 1;
    }
    assert(r@ =~= coeff_block(coeffs@, idx as int));
    r
}

/// Whether a block has a coefficient besides its DC term.
pub fn has_ac(c: &[i16; 16]) -> (r: bool)
    ensures
        r <==> exists|i: int| 1 <= i < 16 && #[trigger] c@[i] != 0,
{
    let mut i: usize = 1;
    while i < 16
        invariant
            1 <= i <= 16,
            forall|j: int| 1 <= j < i ==> #[trigger] c@[j] == 0,
        decreases 16 - i,
    {
        if c[i] != 0 {
            return true;
        }
        i = i + 1;
    }
    false
}

/// Add the residual of coefficient block `idx` onto the 4x4 block at `sub`: nothing for
/// an all-zero block, the constant for a block with a DC term alone, the full inverse
/// transform otherwise.
fn add_residual(plane: &mut [u8], coeffs: &[i16; 384], idx: usize, sub: usize, stride: usize)
    requires
        idx < 24,
        square_fits(old(plane)@.len() as int, sub as int, stride as int, 4),
    ensures
        final(plane)@ == blit(
            old(plane)@,
            sub as int,
            stride as int,
            4,
            idct_add(
                coeff_block(coeffs@, idx as int),
                square4(old(plane)@, sub as int, stride as int),
            ),
        ),
{
    let c: [i16; 16] = block_coeffs(coeffs, idx);
    if has_ac(&c) {
        transform_one(&c, plane, sub, stride);
    } else if c[0] != 0 {
        proof {
            dc_only_transform_is_full_transform(
                c@,
                square4(plane@, sub as int, stride as int),
            );
        }
        transform_dc(c[0], plane, sub, stride);
    } else {
        proof {
            lemma_zero_adds_nothing(c@, square4(plane@, sub as int, stride as int));
            lemma_square4_is_square(plane@, sub as int, stride as int);
            lemma_blit_square(plane@, sub as int, stride as int, 4);
        }
    }
}

/// The offset of 4x4 sub-block `k` of a macroblock.
pub(crate) fn sub_offset(off: usize, stride: usize, k: usize, Ghost(len): Ghost<int>) -> (r: usize)
    requires
        k < 16,
        len <= usize::MAX,
        square_fits(len, off as int, stride as int, 16),
    ensures
        r == sub_off(off as int, stride as int, 16, k as int),
        square_fits(len, r as int, stride as int, 4),
        r >= off,
{
    proof {
        assert((16int / 4) * (16int / 4) == 16);
        lemma_sub_fits(len, off as int, stride as int, 16, k as int);
        let b = (k / 4) * 4;
        assert(0 <= b * stride <= 12 * stride) by (nonlinear_arith)
            requires
                0 <= b <= 12,
                0 <= stride,
        ;
    }
    off + (k % 4) * 4 + (k / 4) * 4 * stride
}

/// The offset of 4x4 sub-block `k` of a chroma block.
pub(crate) fn chroma_sub_offset(off: usize, stride: usize, k: usize, Ghost(len): Ghost<int>) -> (r: usize)
    requires
        k < 4,
        len <= usize::MAX,
        square_fits(len, off as int, stride as int, 8),
    ensures
        r == sub_off(off as int, stride as int, 8, k as int),
        square_fits(len, r as int, stride as int, 4),
        r >= off,
{
    proof {
        assert((8int / 4) * (8int / 4) == 4);
        lemma_sub_fits(len, off as int, stride as int, 8, k as int);
        let b = (k / 2) * 4;
        assert(0 <= b * stride <= 4 * stride) by (nonlinear_arith)
            requires
                0 <= b <= 4,
                0 <= stride,
        ;
    }
    off + (k % 2) * 4 + (k / 2) * 4 * stride
}

/// One residual added to a blitted block.
pub proof fn lemma_residual_step(
    p: Seq<u8>,
    off: int,
    stride: int,
    n: int,
    pred: Seq<u8>,
    coeffs: Seq<i16>,
    base: int,
    k: int,
)
    requires
        n == 8 || n == 16,
        square_fits(p.len() as int, off, stride, n),
        pred.len() == n * n,
        0 <= k < (n / 4) * (n / 4),
    ensures
        ({
            let b = add_residuals(n, pred, coeffs, base, k);
            let so = sub_off(off, stride, n, k);
            let q = blit(p, off, stride, n, b);
            blit(q, so, stride, 4, idct_add(coeff_block(coeffs, base + k), square4(q, so, stride)))
                == blit(p, off, stride, n, add_residuals(n, pred, coeffs, base, k + 1))
        }),
{
    let b = add_residuals(n, pred, coeffs, base, k);
    let q = blit(p, off, stride, n, b);
    lemma_add_residuals_len(n, pred, coeffs, base, k);
    lemma_square_blit(p, off, stride, n, b);
    lemma_square4_sub(q, off, stride, n, k);
    lemma_blit_sub(
        p,
        off,
        stride,
        n,
        b,
        k,
        idct_add(coeff_block(coeffs, base + k), sub_block(b, n, k)),
    );
}

/// Predict the 16x16 luma block and add its sixteen residuals.
fn reconstruct_luma_16(
    planes: &mut Planes,
    block: &MbData,
    y_off: usize,
    has_top: bool,
    has_left: bool,
)
    requires
        luma_fits(old(planes).y@.len() as int, y_off as int, old(planes).y_stride as int),
        block.imodes@[0] <= H_PRED,
    ensures
        final(planes).y@ == blit(
            old(planes).y@,
            y_off as int,
            old(planes).y_stride as int,
            16,
            luma16_recon(
                luma_edge(old(planes).y@, y_off as int, old(planes).y_stride as int, has_top, false),
                block.imodes@[0],
                block.coeffs@,
                has_top,
                has_left,
            ),
        ),
        final(planes).u == old(planes).u,
        final(planes).v == old(planes).v,
        final(planes).y_stride == old(planes).y_stride,
        final(planes).uv_stride == old(planes).uv_stride,
{
    let stride: usize = planes.y_stride;
    let ghost p0 = planes.y@;
    let ghost off = y_off as int;
    let ghost s = stride as int;
    let ghost e = luma_edge(p0, off, s, has_top, false);
    let ghost pred = predicted(16, e, block.imodes@[0], has_top, has_left);
    let len: usize = planes.y.len();
    proof {
        assert(e.top.take(16) =~= top_row(p0, off, s, 16));
        assert(16 * 16 == 256);
        assert(pred.len() == 256);
    }
    predict_luma16(&mut planes.y, y_off, stride, block.imodes[0], has_top, has_left);
    let mut n: usize = 0;
    while n < 16
        invariant
            n <= 16,
            s == stride,
            off == y_off,
            p0.len() == len,
            luma_fits(p0.len() as int, off, s),
            pred.len() == 256,
            planes.y@ == blit(p0, off, s, 16, add_residuals(16, pred, block.coeffs@, 0, n as int)),
            planes.u == old(planes).u,
            planes.v == old(planes).v,
            planes.y_stride == old(planes).y_stride,
            planes.uv_stride == old(planes).uv_stride,
        decreases 16 - n,
    {
        let sub: usize = sub_offset(y_off, stride, n, Ghost(len as int));
        proof {
            assert((16int / 4) * (16int / 4) == 16);
            assert(16 * 16 == 256);
            lemma_residual_step(p0, off, s, 16, pred, block.coeffs@, 0, n as int);
        }
        add_residual(&mut planes.y, &block.coeffs, n, sub, stride);
        n = n + 1;
    }
}

/// One sub-block predicted and its residual added.
pub proof fn lemma_i4_step(
    p: Seq<u8>,
    off: int,
    stride: int,
    e: Edge,
    f: spec_fn(int, Seq<u8>) -> Seq<u8>,
    b0: Seq<u8>,
    k: int,
)
    requires
        luma_fits(p.len() as int, off, stride),
        has_lane(p, off, stride, e),
        0 <= k < 16,
    ensures
        ({
            let q = blit(p, off, stride, 16, i4_blocks(e, f, b0, k));
            let so = sub_off(off, stride, 16, k);
            blit(q, so, stride, 4, f(k, edge4(q, so, stride))) == blit(
                p,
                off,
                stride,
                16,
                i4_blocks(e, f, b0, k + 1),
            )
        }),
{
    let b = i4_blocks(e, f, b0, k);
    assert((16int / 4) * (16int / 4) == 16);
    lemma_i4_edge_plane(p, off, stride, e, b, k);
    lemma_blit_sub(p, off, stride, 16, b, k, f(k, i4_edge(e, b, k)));
}

/// A 4x4 block reads back after it was written.
pub proof fn lemma_square4_blit(p: Seq<u8>, off: int, stride: int, d: Seq<u8>)
    requires
        square_fits(p.len() as int, off, stride, 4),
        d.len() == 16,
    ensures
        square4(blit(p, off, stride, 4, d), off, stride) == d,
{
    assert(4 * 4 == 16);
    lemma_square_blit(p, off, stride, 4, d);
    lemma_square4_is_square(blit(p, off, stride, 4, d), off, stride);
}

/// Predict and reconstruct the sixteen 4x4 luma sub-blocks in raster order.
fn reconstruct_luma_i4x4(
    planes: &mut Planes,
    block: &MbData,
    y_off: usize,
    has_top: bool,
    is_rightmost: bool,
)
    requires
        luma_fits(old(planes).y@.len() as int, y_off as int, old(planes).y_stride as int),
        forall|k: int| 0 <= k < 16 ==> #[trigger] block.imodes@[k] <= B_HU_PRED,
    ensures
        final(planes).y@ == blit(
            lane_filled(
                old(planes).y@,
                y_off as int,
                old(planes).y_stride as int,
                has_top,
                is_rightmost,
            ),
            y_off as int,
            old(planes).y_stride as int,
            16,
            luma4_recon(
                luma_edge(
                    old(planes).y@,
                    y_off as int,
                    old(planes).y_stride as int,
                    has_top,
                    is_rightmost,
                ),
                block.imodes@,
                block.coeffs@,
            ),
        ),
        final(planes).u == old(planes).u,
        final(planes).v == old(planes).v,
        final(planes).y_stride == old(planes).y_stride,
        final(planes).uv_stride == old(planes).uv_stride,
{
    let stride: usize = planes.y_stride;
    let ghost off = y_off as int;
    let ghost s = stride as int;
    let ghost e = luma_edge(planes.y@, off, s, has_top, is_rightmost);
    let ghost f = i4_decoded(block.imodes@, block.coeffs@);
    proof {
        lemma_lane(planes.y@, off, s, has_top, is_rightmost);
    }
    fill_top_right_lane(&mut planes.y, y_off, stride, has_top, is_rightmost);
    let ghost p0 = planes.y@;
    let ghost b0 = square(p0, off, s, 16);
    let len: usize = planes.y.len();
    proof {
        assert(16 * 16 == 256);
        lemma_blit_square(p0, off, s, 16);
    }
    let mut n: usize = 0;
    while n < 16
        invariant
            n <= 16,
            s == stride,
            off == y_off,
            p0.len() == len,
            luma_fits(p0.len() as int, off, s),
            has_lane(p0, off, s, e),
            f == i4_decoded(block.imodes@, block.coeffs@),
            forall|k: int| 0 <= k < 16 ==> #[trigger] block.imodes@[k] <= B_HU_PRED,
            planes.y@ == blit(p0, off, s, 16, i4_blocks(e, f, b0, n as int)),
            planes.u == old(planes).u,
            planes.v == old(planes).v,
            planes.y_stride == old(planes).y_stride,
            planes.uv_stride == old(planes).uv_stride,
        decreases 16 - n,
    {
        let sub: usize = sub_offset(y_off, stride, n, Ghost(len as int));
        let ghost q = planes.y@;
        let ghost so = sub as int;
        let ghost d = block4(block.imodes@[n as int], edge4(q, so, s));
        proof {
            lemma_i4_step(p0, off, s, e, f, b0, n as int);
            crate::predict::lemma_block4_len(block.imodes@[n as int], edge4(q, so, s));
            lemma_square4_blit(q, so, s, d);
            lemma_blit_blit(
                q,
                so,
                s,
                4,
                d,
                idct_add(coeff_block(block.coeffs@, n as int), d),
            );
        }
        predict_luma4(&mut planes.y, sub, stride, block.imodes[n]);
        add_residual(&mut planes.y, &block.coeffs, n, sub, stride);
        n = n + 1;
    }
    proof {
        lemma_i4_blocks_ext(e, f, f, b0, blank_block());
    }
}

/// Predict and reconstruct one 8x8 chroma plane's block, its coefficients starting at
/// block `base`.
fn reconstruct_chroma_plane(
    plane: &mut [u8],
    stride: usize,
    block: &MbData,
    base: usize,
    uv_off: usize,
    has_top: bool,
    has_left: bool,
)
    requires
        chroma_fits(old(plane)@.len() as int, uv_off as int, stride as int),
        base == 16 || base == 20,
        block.uvmode <= H_PRED,
    ensures
        final(plane)@ == blit(
            old(plane)@,
            uv_off as int,
            stride as int,
            8,
            chroma_recon(
                chroma_edge(old(plane)@, uv_off as int, stride as int),
                block.uvmode,
                block.coeffs@,
                base as int,
                has_top,
                has_left,
            ),
        ),
{
    let ghost p0 = plane@;
    let ghost off = uv_off as int;
    let ghost s = stride as int;
    let ghost e = chroma_edge(p0, off, s);
    let ghost pred = predicted(8, e, block.uvmode, has_top, has_left);
    let len: usize = plane.len();
    proof {
        assert(e.top.take(8) =~= top_row(p0, off, s, 8));
        assert(8 * 8 == 64);
        assert(pred.len() == 64);
    }
    predict_chroma8(plane, uv_off, stride, block.uvmode, has_top, has_left);
    let mut n: usize = 0;
    while n < 4
        invariant
            n <= 4,
            s == stride,
            off == uv_off,
            base == 16 || base == 20,
            p0.len() == len,
            chroma_fits(p0.len() as int, off, s),
            pred.len() == 64,
            plane@ == blit(
                p0,
                off,
                s,
                8,
                add_residuals(8, pred, block.coeffs@, base as int, n as int),
            ),
        decreases 4 - n,
    {
        let sub: usize = chroma_sub_offset(uv_off, stride, n, Ghost(len as int));
        proof {
            assert((8int / 4) * (8int / 4) == 4);
            assert(8 * 8 == 64);
            lemma_residual_step(p0, off, s, 8, pred, block.coeffs@, base as int, n as int);
        }
        add_residual(plane, &block.coeffs, base + n, sub, stride);
        n = n + 1;
    }
}

/// Predict and reconstruct the 8x8 U and V blocks.
fn reconstruct_chroma(
    planes: &mut Planes,
    block: &MbData,
    uv_off: usize,
    has_top: bool,
    has_left: bool,
)
    requires
        chroma_fits(old(planes).u@.len() as int, uv_off as int, old(planes).uv_stride as int),
        chroma_fits(old(planes).v@.len() as int, uv_off as int, old(planes).uv_stride as int),
        block.uvmode <= H_PRED,
    ensures
        final(planes).y == old(planes).y,
        final(planes).u@ == chroma_done(
            old(planes).u@,
            uv_off as int,
            old(planes).uv_stride as int,
            *block,
            16,
            has_top,
            has_left,
        ),
        final(planes).v@ == chroma_done(
            old(planes).v@,
            uv_off as int,
            old(planes).uv_stride as int,
            *block,
            20,
            has_top,
            has_left,
        ),
        final(planes).y_stride == old(planes).y_stride,
        final(planes).uv_stride == old(planes).uv_stride,
{
    let stride: usize = planes.uv_stride;
    reconstruct_chroma_plane(&mut planes.u, stride, block, 16, uv_off, has_top, has_left);
    reconstruct_chroma_plane(&mut planes.v, stride, block, 20, uv_off, has_top, has_left);
}

/// A chroma plane after a macroblock's block is reconstructed into it.
pub open spec fn chroma_done(
    p: Seq<u8>,
    off: int,
    stride: int,
    b: MbData,
    base: int,
    has_top: bool,
    has_left: bool,
) -> Seq<u8> {
    blit(
        p,
        off,
        stride,
        8,
        chroma_recon(chroma_edge(p, off, stride), b.uvmode, b.coeffs@, base, has_top, has_left),
    )
}

/// The luma plane after a macroblock is reconstructed into it.
pub open spec fn luma_done(
    p: Seq<u8>,
    off: int,
    stride: int,
    b: MbData,
    has_top: bool,
    has_left: bool,
    is_rightmost: bool,
) -> Seq<u8> {
    blit(
        if b.is_i4x4 {
            lane_filled(p, off, stride, has_top, is_rightmost)
        } else {
            p
        },
        off,
        stride,
        16,
        luma_recon(luma_edge(p, off, stride, has_top, is_rightmost), b, has_top, has_left),
    )
}

/// A 16x16 prediction does not look above to the right.
pub proof fn lemma_luma16_edge(
    p: Seq<u8>,
    off: int,
    stride: int,
    mode: u8,
    coeffs: Seq<i16>,
    has_top: bool,
    has_left: bool,
    is_rightmost: bool,
)
    ensures
        luma16_recon(luma_edge(p, off, stride, has_top, false), mode, coeffs, has_top, has_left)
            == luma16_recon(
            luma_edge(p, off, stride, has_top, is_rightmost),
            mode,
            coeffs,
            has_top,
            has_left,
        ),
{
    let a = luma_edge(p, off, stride, has_top, false);
    let b = luma_edge(p, off, stride, has_top, is_rightmost);
    assert(a.top.take(16) =~= b.top.take(16));
}

/// Reconstruct one macroblock at the given offsets and edge flags.
pub fn reconstruct_mb_at(
    planes: &mut Planes,
    block: &MbData,
    y_off: usize,
    uv_off: usize,
    has_top: bool,
    has_left: bool,
    is_rightmost: bool,
)
    requires
        luma_fits(old(planes).y@.len() as int, y_off as int, old(planes).y_stride as int),
        chroma_fits(old(planes).u@.len() as int, uv_off as int, old(planes).uv_stride as int),
        chroma_fits(old(planes).v@.len() as int, uv_off as int, old(planes).uv_stride as int),
        modes_ok(*block),
    ensures
        final(planes).y@ == luma_done(
            old(planes).y@,
            y_off as int,
            old(planes).y_stride as int,
            *block,
            has_top,
            has_left,
            is_rightmost,
        ),
        final(planes).u@ == chroma_done(
            old(planes).u@,
            uv_off as int,
            old(planes).uv_stride as int,
            *block,
            16,
            has_top,
            has_left,
        ),
        final(planes).v@ == chroma_done(
            old(planes).v@,
            uv_off as int,
            old(planes).uv_stride as int,
            *block,
            20,
            has_top,
            has_left,
        ),
        final(planes).y_stride == old(planes).y_stride,
        final(planes).uv_stride == old(planes).uv_stride,
{
    if block.is_i4x4 {
        reconstruct_luma_i4x4(planes, block, y_off, has_top, is_rightmost);
    } else {
        proof {
            lemma_luma16_edge(
                planes.y@,
                y_off as int,
                planes.y_stride as int,
                block.imodes@[0],
                block.coeffs@,
                has_top,
                has_left,
                is_rightmost,
            );
        }
        reconstruct_luma_16(planes, block, y_off, has_top, has_left);
    }
    reconstruct_chroma(planes, block, uv_off, has_top, has_left);
}

/// The offset of macroblock (`mb_x`, `mb_y`) in a plane with `n` samples a macroblock.
pub open spec fn mb_off(stride: int, n: int, mb_x: int, mb_y: int) -> int {
    (mb_y * n + 1) * stride + (mb_x * n + 1)
}

/// A macroblock of the grid lies in its planes.
pub proof fn lemma_mb_fits(mb_w: int, mb_h: int, mb_x: int, mb_y: int)
    requires
        0 <= mb_x < mb_w,
        0 <= mb_y < mb_h,
    ensures
        ({
            let ys = luma_stride(mb_w);
            let us = chroma_stride(mb_w);
            let y_len = ys * (1 + mb_h * 16);
            let uv_len = us * (1 + mb_h * 8);
            let y_off = mb_off(ys, 16, mb_x, mb_y);
            let uv_off = mb_off(us, 8, mb_x, mb_y);
            &&& luma_fits(y_len, y_off, ys)
            &&& chroma_fits(uv_len, uv_off, us)
            &&& filter_fits(y_len, y_off, ys, 16, mb_x > 0, mb_y > 0)
            &&& filter_fits(uv_len, uv_off, us, 8, mb_x > 0, mb_y > 0)
        }),
{
    let ys = luma_stride(mb_w);
    let us = chroma_stride(mb_w);
    let a = mb_y * 16 + 1;
    assert(a * ys >= ys && a * ys + 16 * ys <= ys * (1 + mb_h * 16)) by (nonlinear_arith)
        requires
            a >= 1,
            a + 16 <= 1 + mb_h * 16,
            ys >= 1,
    ;
    let b = mb_y * 8 + 1;
    assert(b * us >= us && b * us + 8 * us <= us * (1 + mb_h * 8)) by (nonlinear_arith)
        requires
            b >= 1,
            b + 8 <= 1 + mb_h * 8,
            us >= 1,
    ;
    if mb_y > 0 {
        assert(a * ys >= 17 * ys) by (nonlinear_arith)
            requires
                a >= 17,
                ys >= 1,
        ;
        assert(b * us >= 9 * us) by (nonlinear_arith)
            requires
                b >= 9,
                us >= 1,
        ;
    }
    if mb_x > 0 {
        assert(a * ys >= 1);
        assert(b * us >= 1);
    }
}

/// The luma offset of macroblock (`mb_x`, `mb_y`).
pub(crate) fn luma_offset(planes: &Planes, mb_x: usize, mb_y: usize, mb_w: usize, Ghost(mb_h): Ghost<int>) -> (r: usize)
    requires
        planes.wf(mb_w as int, mb_h),
        mb_x < mb_w,
        mb_y < mb_h,
    ensures
        r == mb_off(luma_stride(mb_w as int), 16, mb_x as int, mb_y as int),
{
    let len: usize = planes.y.len();
    proof {
        lemma_mb_fits(mb_w as int, mb_h, mb_x as int, mb_y as int);
        lemma_frame_sizes(mb_w as int, mb_h);
    }
    (mb_y * 16 + 1) * planes.y_stride + (mb_x * 16 + 1)
}

/// The chroma offset of macroblock (`mb_x`, `mb_y`).
pub(crate) fn chroma_offset(planes: &Planes, mb_x: usize, mb_y: usize, mb_w: usize, Ghost(mb_h): Ghost<int>) -> (r: usize)
    requires
        planes.wf(mb_w as int, mb_h),
        mb_x < mb_w,
        mb_y < mb_h,
    ensures
        r == mb_off(chroma_stride(mb_w as int), 8, mb_x as int, mb_y as int),
{
    let len: usize = planes.y.len();
    let ulen: usize = planes.u.len();
    proof {
        lemma_mb_fits(mb_w as int, mb_h, mb_x as int, mb_y as int);
        lemma_frame_sizes(mb_w as int, mb_h);
    }
    (mb_y * 8 + 1) * planes.uv_stride + (mb_x * 8 + 1)
}

/// The planes after macroblock (`mb_x`, `mb_y`) is reconstructed into them.
pub open spec fn mb_done(s: Samples, mb_w: int, mb_x: int, mb_y: int, b: MbData) -> Samples {
    let ys = luma_stride(mb_w);
    let us = chroma_stride(mb_w);
    let uv_off = mb_off(us, 8, mb_x, mb_y);
    Samples {
        y: luma_done(
            s.y,
            mb_off(ys, 16, mb_x, mb_y),
            ys,
            b,
            mb_y > 0,
            mb_x > 0,
            mb_x == mb_w - 1,
        ),
        u: chroma_done(s.u, uv_off, us, b, 16, mb_y > 0, mb_x > 0),
        v: chroma_done(s.v, uv_off, us, b, 20, mb_y > 0, mb_x > 0),
    }
}

/// Reconstruction keeps the sizes of the planes.
pub proof fn lemma_mb_done_sized(s: Samples, mb_w: int, mb_h: int, mb_x: int, mb_y: int, b: MbData)
    requires
        planes_sized(s, mb_w, mb_h),
        0 <= mb_x < mb_w,
        0 <= mb_y < mb_h,
    ensures
        planes_sized(mb_done(s, mb_w, mb_x, mb_y, b), mb_w, mb_h),
{
    lemma_mb_fits(mb_w, mb_h, mb_x, mb_y);
    lemma_lane(
        s.y,
        mb_off(luma_stride(mb_w), 16, mb_x, mb_y),
        luma_stride(mb_w),
        mb_y > 0,
        mb_x == mb_w - 1,
    );
}

/// Reconstruct macroblock (`mb_x`, `mb_y`) of a frame.
pub fn reconstruct_mb(
    planes: &mut Planes,
    block: &MbData,
    mb_x: usize,
    mb_y: usize,
    mb_w: usize,
    mb_h: usize,
)
    requires
        old(planes).wf(mb_w as int, mb_h as int),
        mb_x < mb_w,
        mb_y < mb_h,
        modes_ok(*block),
    ensures
        final(planes).wf(mb_w as int, mb_h as int),
        final(planes)@ == mb_done(
            old(planes)@,
            mb_w as int,
            mb_x as int,
            mb_y as int,
            *block,
        ),
{
    proof {
        lemma_mb_fits(mb_w as int, mb_h as int, mb_x as int, mb_y as int);
        lemma_mb_done_sized(
            planes@,
            mb_w as int,
            mb_h as int,
            mb_x as int,
            mb_y as int,
            *block,
        );
    }
    let y_off: usize = luma_offset(planes, mb_x, mb_y, mb_w, Ghost(mb_h as int));
    let uv_off: usize = chroma_offset(planes, mb_x, mb_y, mb_w, Ghost(mb_h as int));
    reconstruct_mb_at(planes, block, y_off, uv_off, mb_y > 0, mb_x > 0, mb_x == mb_w - 1);
}

/// The filter level a segment starts from.
pub open spec fn base_level(segment: SegmentHeader, filter: FilterHeader, s: int) -> int {
    if segment.use_segment {
        segment.filter_strength@[s] + (if segment.absolute_delta {
            0
        } else {
            filter.level as int
        })
    } else {
        filter.level as int
    }
}

/// The level after the deltas of intra macroblocks, limited to `0..=63`.
pub open spec fn adjusted_level(filter: FilterHeader, base: int, i4x4: bool) -> int {
    clamp_int(
        base + (if filter.use_lf_delta {
            filter.ref_lf_delta@[0] + (if i4x4 {
                filter.mode_lf_delta@[0] as int
            } else {
                0
            })
        } else {
            0
        }),
        0,
        63,
    )
}

/// The interior limit of a level under a sharpness.
pub open spec fn interior_limit(level: int, sharpness: int) -> int {
    let inner = if sharpness > 4 {
        level / 4
    } else if sharpness > 0 {
        level / 2
    } else {
        level
    };
    let capped = if sharpness > 0 && inner > 9 - sharpness {
        9 - sharpness
    } else {
        inner
    };
    if capped < 1 {
        1
    } else {
        capped
    }
}

/// The filter parameters of a base level.
pub open spec fn strength_spec(filter: FilterHeader, base: int, i4x4: bool) -> FInfo {
    let level = adjusted_level(filter, base, i4x4);
    if level == 0 {
        finfo_off()
    } else {
        let inner = interior_limit(level, filter.sharpness as int);
        FInfo {
            f_limit: (2 * level + inner) as i32,
            f_ilevel: inner as i32,
            f_inner: i4x4,
            hev_thresh: if level >= 40 {
                2
            } else if level >= 15 {
                1
            } else {
                0
            },
        }
    }
}

/// Whether filter parameters are small enough to add up.
pub open spec fn filter_small(filter: FilterHeader) -> bool {
    &&& -0x100_0000 <= filter.level <= 0x100_0000
    &&& -0x100_0000 <= filter.sharpness <= 0x100_0000
    &&& -0x100_0000 <= filter.ref_lf_delta@[0] <= 0x100_0000
    &&& -0x100_0000 <= filter.mode_lf_delta@[0] <= 0x100_0000
}

/// Whether segment filter levels are small enough to add up.
pub open spec fn segment_small(segment: SegmentHeader) -> bool {
    forall|s: int|
        0 <= s < 4 ==> -0x100_0000 <= #[trigger] segment.filter_strength@[s] <= 0x100_0000
}

/// The filter parameters of a base level.
fn strength_for(filter: &FilterHeader, base: i32, i4x4: bool) -> (r: FInfo)
    requires
        filter_small(*filter),
        -0x200_0000 <= base <= 0x200_0000,
    ensures
        r == strength_spec(*filter, base as int, i4x4),
{
    let mut sum: i32 = base;
    if filter.use_lf_delta {
        sum = sum + filter.ref_lf_delta[0];
        if i4x4 {
            sum = sum + filter.mode_lf_delta[0];
        }
    }
    let level: i32 = if sum < 0 {
        0
    } else if sum > 63 {
        63
    } else {
        sum
    };
    if level == 0 {
        return FInfo::default();
    }
    let mut inner: i32 = level;
    if filter.sharpness > 0 {
        inner = if filter.sharpness > 4 {
            inner >> 2
        } else {
            inner >> 1
        };
        let cap: i32 = 9 - filter.sharpness;
        if inner > cap {
            inner = cap;
        }
    }
    if inner < 1 {
        inner = 1;
    }
    FInfo {
        f_limit: 2 * level + inner,
        f_ilevel: inner,
        f_inner: i4x4,
        hev_thresh: if level >= 40 {
            2
        } else if level >= 15 {
            1
        } else {
            0
        },
    }
}

/// The filter parameters of every segment, without and with 4x4 prediction.
pub fn compute_fstrengths(segment: &SegmentHeader, filter: &FilterHeader) -> (r: [[FInfo; 2]; 4])
    requires
        filter_small(*filter),
        segment_small(*segment),
    ensures
        forall|s: int|
            0 <= s < 4 ==> (#[trigger] r@[s])@[0] == strength_spec(
                *filter,
                base_level(*segment, *filter, s),
                false,
            ) && r@[s]@[1] == strength_spec(*filter, base_level(*segment, *filter, s), true),
{
    let mut table: [[FInfo; 2]; 4] = [[FInfo::default();2];4];
    let mut s: usize = 0;
    while s < 4
        invariant
            s <= 4,
            filter_small(*filter),
            segment_small(*segment),
            forall|t: int|
                0 <= t < s ==> (#[trigger] table@[t])@[0] == strength_spec(
                    *filter,
                    base_level(*segment, *filter, t),
                    false,
                ) && table@[t]@[1] == strength_spec(*filter, base_level(*segment, *filter, t), true),
        decreases 4 - s,
    {
        let base: i32 = if segment.use_segment {
            if segment.absolute_delta {
                segment.filter_strength[s]
            } else {
                segment.filter_strength[s] + filter.level
            }
        } else {
            filter.level
        };
        table[s] = [strength_for(filter, base, false), strength_for(filter, base, true)];
        s = s + 1;
    }
    table
}

/// Whether a macroblock counts as having no coefficients.
pub open spec fn counts_as_skipped(b: MbData, use_skip: bool) -> bool {
    (use_skip && b.skip) || (b.non_zero_y == 0 && b.non_zero_uv == 0)
}

/// One macroblock's filter parameters: those of its segment and prediction, with the
/// interior edges filtered if it is predicted per 4x4 block or has coefficients.
pub open spec fn resolved_finfo(table: [[FInfo; 2]; 4], b: MbData, use_skip: bool) -> FInfo {
    let info = table@[b.segment as int]@[if b.is_i4x4 {
        1int
    } else {
        0int
    }];
    FInfo { f_inner: b.is_i4x4 || !counts_as_skipped(b, use_skip), ..info }
}

/// One macroblock's filter parameters.
pub fn resolve_finfo(table: [[FInfo; 2]; 4], block: &MbData, use_skip: bool) -> (r: FInfo)
    requires
        block.segment < 4,
    ensures
        r == resolved_finfo(table, *block, use_skip),
{
    let skip: bool = (use_skip && block.skip) || (block.non_zero_y == 0 && block.non_zero_uv == 0);
    let mut info: FInfo = table[block.segment as usize][if block.is_i4x4 {
        1usize
    } else {
        0usize
    }];
    info.f_inner = block.is_i4x4 || !skip;
    info
}

/// Whether a filter limit is small enough for the filter arithmetic.
pub open spec fn limits_small(row: Seq<FInfo>) -> bool {
    forall|i: int| 0 <= i < row.len() ==> -900000 <= (#[trigger] row[i]).f_limit <= 900000
}

/// The planes after the filter of macroblock (`mb_x`, `mb_y`).
pub open spec fn mb_filtered(
    s: Samples,
    mb_w: int,
    mb_x: int,
    mb_y: int,
    filter_type: u8,
    info: FInfo,
) -> Samples {
    let ys = luma_stride(mb_w);
    let us = chroma_stride(mb_w);
    let y_off = mb_off(ys, 16, mb_x, mb_y);
    let uv_off = mb_off(us, 8, mb_x, mb_y);
    if filter_type == 1 {
        Samples { y: simple_filtered(s.y, y_off, ys, mb_x > 0, mb_y > 0, info), ..s }
    } else {
        Samples {
            y: normal_filtered(s.y, y_off, ys, mb_x > 0, mb_y > 0, info),
            u: chroma_filtered(s.u, uv_off, us, mb_x > 0, mb_y > 0, info),
            v: chroma_filtered(s.v, uv_off, us, mb_x > 0, mb_y > 0, info),
        }
    }
}

/// The planes after the filter of the first `k` macroblocks of row `mb_y`.
pub open spec fn row_filtered(
    s: Samples,
    mb_w: int,
    row: Seq<FInfo>,
    mb_y: int,
    filter_type: u8,
    k: int,
) -> Samples
    decreases k,
{
    if filter_type == 0 || k <= 0 {
        s
    } else {
        mb_filtered(
            row_filtered(s, mb_w, row, mb_y, filter_type, k - 1),
            mb_w,
            k - 1,
            mb_y,
            filter_type,
            row[k - 1],
        )
    }
}

/// The planes after the filter of the first `rows` macroblock rows.
pub open spec fn frame_filtered(
    s: Samples,
    mb_w: int,
    finfo: Seq<FInfo>,
    filter_type: u8,
    rows: int,
) -> Samples
    decreases rows,
{
    if rows <= 0 {
        s
    } else {
        row_filtered(
            frame_filtered(s, mb_w, finfo, filter_type, rows - 1),
            mb_w,
            finfo.subrange((rows - 1) * mb_w, rows * mb_w),
            rows - 1,
            filter_type,
            mb_w,
        )
    }
}

/// Filter one macroblock row in place; nothing if the filter is off.
pub fn filter_mb_row(
    planes: &mut Planes,
    finfo_row: &[FInfo],
    mb_y: usize,
    mb_h: usize,
    filter_type: u8,
)
    requires
        old(planes).wf(finfo_row@.len() as int, mb_h as int),
        mb_y < mb_h,
        limits_small(finfo_row@),
    ensures
        final(planes).wf(finfo_row@.len() as int, mb_h as int),
        final(planes)@ == row_filtered(
            old(planes)@,
            finfo_row@.len() as int,
            finfo_row@,
            mb_y as int,
            filter_type,
            finfo_row@.len() as int,
        ),
        filter_type == 0 ==> final(planes)@ == old(planes)@,
{
    if filter_type == 0 {
        return ;
    }
    let mb_w: usize = finfo_row.len();
    let mut mb_x: usize = 0;
    while mb_x < mb_w
        invariant
            mb_x <= mb_w,
            mb_w == finfo_row@.len(),
            mb_y < mb_h,
            filter_type != 0,
            limits_small(finfo_row@),
            planes.wf(mb_w as int, mb_h as int),
            planes@ == row_filtered(
                old(planes)@,
                mb_w as int,
                finfo_row@,
                mb_y as int,
                filter_type,
                mb_x as int,
            ),
        decreases mb_w - mb_x,
    {
        proof {
            lemma_mb_fits(mb_w as int, mb_h as int, mb_x as int, mb_y as int);
        }
        let info: FInfo = finfo_row[mb_x];
        let y_off: usize = luma_offset(planes, mb_x, mb_y, mb_w, Ghost(mb_h as int));
        let uv_off: usize = chroma_offset(planes, mb_x, mb_y, mb_w, Ghost(mb_h as int));
        let y_stride: usize = planes.y_stride;
        let uv_stride: usize = planes.uv_stride;
        if filter_type == 1 {
            filter_mb_simple(&mut planes.y, y_off, y_stride, mb_x > 0, mb_y > 0, info);
        } else {
            filter_mb_normal(
                &mut planes.y,
                y_off,
                y_stride,
                &mut planes.u,
                &mut planes.v,
                uv_off,
                uv_stride,
                mb_x > 0,
                mb_y > 0,
                info,
            );
        }
        mb_x = mb_x + 1;
    }
}

/// Filter a whole frame in place, macroblock by macroblock; nothing if the filter is
/// off.
pub fn filter_frame(planes: &mut Planes, finfo: &[FInfo], mb_w: usize, mb_h: usize, filter_type: u8)
    requires
        old(planes).wf(mb_w as int, mb_h as int),
        finfo@.len() == mb_w * mb_h,
        limits_small(finfo@),
    ensures
        final(planes).wf(mb_w as int, mb_h as int),
        final(planes)@ == frame_filtered(
            old(planes)@,
            mb_w as int,
            finfo@,
            filter_type,
            mb_h as int,
        ),
{
    let len: usize = finfo.len();
    let mut mb_y: usize = 0;
    let mut at: usize = 0;
    while mb_y < mb_h
        invariant
            mb_y <= mb_h,
            planes.wf(mb_w as int, mb_h as int),
            finfo@.len() == mb_w * mb_h,
            finfo@.len() == len,
            at == mb_y * mb_w,
            limits_small(finfo@),
            planes@ == frame_filtered(
                old(planes)@,
                mb_w as int,
                finfo@,
                filter_type,
                mb_y as int,
            ),
        decreases mb_h - mb_y,
    {
        proof {
            assert((mb_y + 1) * mb_w == mb_y * mb_w + mb_w) by (nonlinear_arith);
            assert((mb_y + 1) * mb_w <= mb_w * mb_h) by (nonlinear_arith)
                requires
                    mb_y + 1 <= mb_h,
            ;
        }
        let row: &[FInfo] = vstd::slice::slice_subrange(finfo, at, at + mb_w);
        assert(row@.len() == mb_w);
        filter_mb_row(planes, row, mb_y, mb_h, filter_type);
        at = at + mb_w;
        mb_y = mb_y + 1;
    }
}

/// With the filter off nothing changes.
pub proof fn filter_off_changes_nothing(s: Samples, mb_w: int, finfo: Seq<FInfo>, rows: int)
    ensures
        frame_filtered(s, mb_w, finfo, 0, rows) == s,
    decreases rows,
{
    if rows > 0 {
        filter_off_changes_nothing(s, mb_w, finfo, rows - 1);
    }
}

/// The picture that planes hold behind their borders.
pub open spec fn picture_of(s: Samples, mb_w: int) -> YuvView {
    let ys = luma_stride(mb_w);
    let us = chroma_stride(mb_w);
    YuvView {
        y: s.y.subrange(ys + 1, s.y.len() as int),
        y_stride: ys,
        u: s.u.subrange(us + 1, s.u.len() as int),
        v: s.v.subrange(us + 1, s.v.len() as int),
        uv_stride: us,
    }
}

/// Convert the `width` by `height` picture behind the borders to RGBA.
///
/// # Errors
///
/// [`Error::InvalidBitstream`] if a picture cannot have that size.
pub fn to_image(planes: &Planes, width: usize, height: usize, mb_w: usize, mb_h: usize) -> (r: Result<
    Image,
>)
    requires
        planes.wf(mb_w as int, mb_h as int),
        width <= mb_w * 16,
        height <= mb_h * 16,
        1 <= mb_w,
        1 <= mb_h,
        width * 4 * height <= usize::MAX,
    ensures
        match r {
            Ok(image) => {
                &&& dimensions_ok(width as int, height as int)
                &&& image.wf()
                &&& image.dims.width == width
                &&& image.dims.height == height
                &&& image.layout == PixelLayout::Rgba8
                &&& image.bytes@ == rgba_image(
                    picture_of(planes@, mb_w as int),
                    width as int,
                    height as int,
                )
            },
            Err(e) => {
                &&& !dimensions_ok(width as int, height as int)
                &&& e == (Error::InvalidBitstream { codec: Codec::Lossy })
            },
        },
{
    if width < 1 || width > 16383 || height < 1 || height > 16383 {
        return Err(Error::InvalidBitstream { codec: Codec::Lossy });
    }
    let y_len: usize = planes.y.len();
    let uv_len: usize = planes.u.len();
    proof {
        lemma_picture_covers(planes@, mb_w as int, mb_h as int, width as int, height as int);
    }
    let y0: usize = planes.y_stride + 1;
    let uv0: usize = planes.uv_stride + 1;
    let src = Yuv420Ref {
        y: vstd::slice::slice_subrange(planes.y.as_slice(), y0, y_len),
        y_stride: planes.y_stride,
        u: vstd::slice::slice_subrange(planes.u.as_slice(), uv0, uv_len),
        v: vstd::slice::slice_subrange(planes.v.as_slice(), uv0, uv_len),
        uv_stride: planes.uv_stride,
    };
    assert(src@ == picture_of(planes@, mb_w as int));
    let rgba: Vec<u8> = yuv420_to_rgba(&src, width, height);
    assert(width * height * 4 == width * 4 * height) by (nonlinear_arith);
    match Dimensions::new(width as u32, height as u32) {
        Ok(dims) => Ok(Image::from_parts(dims, PixelLayout::Rgba8, rgba)),
        Err(e) => Err(Error::InvalidBitstream { codec: Codec::Lossy }),
    }
}

/// The planes of a frame cover its picture.
pub proof fn lemma_picture_covers(s: Samples, mb_w: int, mb_h: int, width: int, height: int)
    requires
        planes_sized(s, mb_w, mb_h),
        1 <= mb_w,
        1 <= mb_h,
        1 <= width <= mb_w * 16,
        1 <= height <= mb_h * 16,
    ensures
        picture_of(s, mb_w).covers(width, height),
        luma_stride(mb_w) + 1 <= s.y.len(),
        chroma_stride(mb_w) + 1 <= s.u.len(),
        chroma_stride(mb_w) + 1 <= s.v.len(),
{
    let ys = luma_stride(mb_w);
    let us = chroma_stride(mb_w);
    let ch = (height + 1) / 2;
    assert((height - 1) * ys + 2 * ys <= ys * (1 + mb_h * 16)) by (nonlinear_arith)
        requires
            height <= mb_h * 16,
            ys >= 1,
    ;
    assert((ch - 1) * us + 2 * us <= us * (1 + mb_h * 8)) by (nonlinear_arith)
        requires
            ch <= mb_h * 8,
            us >= 1,
    ;
    assert((height - 1) * ys >= 0) by (nonlinear_arith)
        requires
            height >= 1,
            ys >= 1,
    ;
    assert((ch - 1) * us >= 0) by (nonlinear_arith)
        requires
            ch >= 1,
            us >= 1,
    ;
}

} // verus!
