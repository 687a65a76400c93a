//! Coding a luma macroblock as sixteen 4x4 sub-blocks, and the choice between that and
//! one 16x16 block.
//!
//! Each sub-block takes the mode whose prediction has the least squared error, is coded
//! and reconstructed before the next one, and so sees the edge a decoder will see.

use vstd::prelude::*;

use crate::block::{
    blit, lemma_blit_blit, lemma_blit_square, lemma_square4_sub, lemma_square_blit, square, square4,
    square_fits, sub_block,
};
use crate::constants::{B_DC_PRED, B_HU_PRED};
use crate::fdct::{fdct4x4, fdct_spec};
use crate::idct::{idct_add, transform_one};
use crate::mode_search::{
    i4x4_lambda, lambda_of, luma16_perceptual_disto, luma16_reconstruction_sse, luma_disto,
    luma_src_at, src_mb, I16X16_MODE_COST, I4X4_SUBMODE_COST,
};
use crate::predict::{block4, edge4, lemma_block4_len, predict_luma4};
use crate::quant::Quantized;
use crate::recon_block::{
    add_residuals, blank_block, has_lane, i4_blocks, i4_edge, lemma_i4_blocks_ext,
    lemma_i4_blocks_local, lemma_i4_edge_local, lemma_i4_len, luma_edge, luma_fits, Edge,
};
use crate::reconstruct::{
    fill_top_right_lane, has_ac, lane_filled, lemma_i4_step, lemma_lane, lemma_square4_blit,
    lemma_square4_is_square, lemma_zero_adds_nothing, sub_offset, Planes,
};
use crate::residual::{
    block_cost, block_of, costable, luma16_bits, luma16_token_bits, quantize_one, quantized_block,
    residual_at, residual_of, sound_block, sse, sse_block, QuantPlan,
};
use crate::rgb_to_yuv::SourceYuv;
use crate::tokens::{Block, MbTokens};
use crate::trellis::{block_token_cost, RD_DISTO_MULT};

verus! {

/// The squared error of a 4x4 mode's prediction.
pub open spec fn bmode_sse(edge: Seq<u8>, s: Seq<u8>, mode: int) -> int {
    sse(s, block4(mode as u8, edge))
}

/// The least-error mode among the first `k`; the earlier wins ties.
pub open spec fn best_bmode(edge: Seq<u8>, s: Seq<u8>, k: int) -> int
    decreases k,
{
    if k <= 1 {
        0
    } else {
        let best = best_bmode(edge, s, k - 1);
        if bmode_sse(edge, s, k - 1) < bmode_sse(edge, s, best) {
            k - 1
        } else {
            best
        }
    }
}

/// The mode of a sub-block with the given edge.
pub open spec fn i4_mode(edge: Seq<u8>, s: Seq<u8>) -> u8 {
    best_bmode(edge, s, 10) as u8
}

/// The quantized residual of a sub-block with the given edge.
pub open spec fn i4_quantized(edge: Seq<u8>, s: Seq<u8>, plan: QuantPlan<'_>) -> Quantized {
    quantized_block(
        fdct_spec(residual_of(s, block4(i4_mode(edge, s), edge))),
        plan.quant.y1,
        0,
        3,
        plan,
    )
}

/// What sub-block `k` of the source macroblock `s` reconstructs to, given its edge.
pub open spec fn i4_coded(s: Seq<u8>, plan: QuantPlan<'_>) -> spec_fn(int, Seq<u8>) -> Seq<u8> {
    |k: int, edge: Seq<u8>|
        idct_add(
            i4_quantized(edge, sub_block(s, 16, k), plan).recon@,
            block4(i4_mode(edge, sub_block(s, 16, k)), edge),
        )
}

/// The macroblock after its first `k` sub-blocks.
pub open spec fn i4_upto(e: Edge, s: Seq<u8>, plan: QuantPlan<'_>, k: int) -> Seq<u8> {
    i4_blocks(e, i4_coded(s, plan), blank_block(), k)
}

/// The edge that sub-block `k` sees.
pub open spec fn i4_edge_at(e: Edge, s: Seq<u8>, plan: QuantPlan<'_>, k: int) -> Seq<u8> {
    i4_edge(e, i4_upto(e, s, plan, k), k)
}

/// The mode of sub-block `k`.
pub open spec fn i4_mode_at(e: Edge, s: Seq<u8>, plan: QuantPlan<'_>, k: int) -> u8 {
    i4_mode(i4_edge_at(e, s, plan, k), sub_block(s, 16, k))
}

/// The quantized residual of sub-block `k`.
pub open spec fn i4_quant_at(e: Edge, s: Seq<u8>, plan: QuantPlan<'_>, k: int) -> Quantized {
    i4_quantized(i4_edge_at(e, s, plan, k), sub_block(s, 16, k), plan)
}

/// The bits of the first `k` sub-blocks, with their modes.
pub open spec fn i4_bits(e: Edge, s: Seq<u8>, plan: QuantPlan<'_>, k: int) -> int
    decreases k,
{
    if k <= 0 {
        0
    } else {
        i4_bits(e, s, plan, k - 1) + (block_cost(
            block_of(i4_quant_at(e, s, plan, k - 1)),
            0,
            3,
            *plan.probas,
        ) + 512)
    }
}

/// The luma coefficients of a macroblock coded as sub-blocks.
pub open spec fn i4_coeffs(e: Edge, s: Seq<u8>, plan: QuantPlan<'_>) -> Seq<i16> {
    Seq::new(256, |i: int| i4_quant_at(e, s, plan, i / 16).recon@[i % 16])
}

/// A luma macroblock coded as sixteen sub-blocks.
pub struct I4x4Luma {
    /// The sub-block modes in raster order.
    pub imodes: [u8; 16],
    /// The token blocks.
    pub luma: [Block; 16],
    /// The coefficients their levels stand for.
    pub coeffs: [i16; 256],
}

/// Whether `r` codes the source macroblock `s` with the edge `e`.
pub open spec fn codes_i4(r: I4x4Luma, e: Edge, s: Seq<u8>, plan: QuantPlan<'_>) -> bool {
    &&& forall|k: int| 0 <= k < 16 ==> #[trigger] r.imodes@[k] == i4_mode_at(e, s, plan, k)
    &&& forall|k: int| 0 <= k < 16 ==> #[trigger] r.imodes@[k] <= B_HU_PRED
    &&& forall|k: int|
        0 <= k < 16 ==> #[trigger] r.luma@[k] == block_of(i4_quant_at(e, s, plan, k))
    &&& forall|k: int| 0 <= k < 16 ==> sound_block(#[trigger] r.luma@[k], 0)
    &&& r.coeffs@ == i4_coeffs(e, s, plan)
}

/// The best mode is one of the modes tried.
pub proof fn lemma_best_bmode_range(edge: Seq<u8>, s: Seq<u8>, k: int)
    requires
        1 <= k <= 10,
    ensures
        0 <= best_bmode(edge, s, k) < k,
    decreases k,
{
    if k > 1 {
        lemma_best_bmode_range(edge, s, k - 1);
    }
}

/// A sub-block reconstructs to sixteen samples.
pub proof fn lemma_i4_coded_len(s: Seq<u8>, plan: QuantPlan<'_>)
    ensures
        forall|k: int, edge: Seq<u8>| (#[trigger] i4_coded(s, plan)(k, edge)).len() == 16,
{
}

/// The edge that sub-block `k` sees does not depend on what the macroblock held.
proof fn lemma_edge_from(e: Edge, s: Seq<u8>, plan: QuantPlan<'_>, b0: Seq<u8>, k: int)
    requires
        0 <= k < 16,
    ensures
        i4_edge(e, i4_blocks(e, i4_coded(s, plan), b0, k), k) == i4_edge_at(e, s, plan, k),
{
    let f = i4_coded(s, plan);
    let a = i4_blocks(e, f, b0, k);
    let b = i4_blocks(e, f, blank_block(), k);
    lemma_i4_coded_len(s, plan);
    assert forall|j: int| 0 <= j < k implies #[trigger] sub_block(a, 16, j) == sub_block(b, 16, j) by {
        lemma_i4_blocks_local(e, f, f, b0, blank_block(), k, j);
    }
    lemma_i4_edge_local(e, a, b, k);
}

/// Choose the least-error mode of the 4x4 sub-block at `sub`, whose source samples are
/// at `src_at`; its prediction is left in the plane.
fn search_bmode(
    plane: &mut [u8],
    sub: usize,
    stride: usize,
    src: &[u8],
    src_at: usize,
    src_stride: usize,
) -> (r: u8)
    requires
        square_fits(old(plane)@.len() as int, sub as int, stride as int, 4),
        sub >= stride + 1,
        stride >= 8,
        square_fits(src@.len() as int, src_at as int, src_stride as int, 4),
    ensures
        ({
            let edge = edge4(old(plane)@, sub as int, stride as int);
            let s = square4(src@, src_at as int, src_stride as int);
            &&& r == i4_mode(edge, s)
            &&& r <= B_HU_PRED
            &&& final(plane)@ == blit(old(plane)@, sub as int, stride as int, 4, block4(r, edge))
        }),
{
    let ghost p0 = plane@;
    let ghost so = sub as int;
    let ghost st = stride as int;
    let ghost edge = edge4(p0, so, st);
    let ghost s = square4(src@, src_at as int, src_stride as int);
    let mut best: u8 = B_DC_PRED;
    let mut best_sse: i64 = 0;
    let mut m: u8 = 0;
    proof {
        assert(4 * 4 == 16);
        lemma_square4_is_square(src@, src_at as int, src_stride as int);
        lemma_blit_square(p0, so, st, 4);
        lemma_square4_is_square(p0, so, st);
    }
    while m < 10
        invariant
            m <= 10,
            so == sub,
            st == stride,
            st >= 8,
            square_fits(p0.len() as int, so, st, 4),
            sub >= stride + 1,
            square_fits(src@.len() as int, src_at as int, src_stride as int, 4),
            edge == edge4(p0, so, st),
            s == square(src@, src_at as int, src_stride as int, 4),
            exists|b: Seq<u8>| plane@ == #[trigger] blit(p0, so, st, 4, b),
            m >= 1 ==> best == best_bmode(edge, s, m as int),
            m >= 1 ==> best_sse == bmode_sse(edge, s, best as int),
            best < 10,
        decreases 10 - m,
    {
        let ghost before = plane@;
        proof {
            let b = choose|b: Seq<u8>| before == #[trigger] blit(p0, so, st, 4, b);
            lemma_edge4_blit(p0, so, st, b);
            lemma_blit_blit(p0, so, st, 4, b, block4(m, edge));
            lemma_block4_len(m, edge);
            lemma_square_blit(p0, so, st, 4, block4(m, edge));
            assert(4 * 4 == 16);
        }
        predict_luma4(plane, sub, stride, m);
        let e: i64 = sse_block(src, src_at, src_stride, plane, sub, stride, 4);
        if m == 0 || e < best_sse {
            best_sse = e;
            best = m;
        }
        m = m + 1;
    }
    proof {
        let b = choose|b: Seq<u8>| plane@ == #[trigger] blit(p0, so, st, 4, b);
        lemma_edge4_blit(p0, so, st, b);
        lemma_blit_blit(p0, so, st, 4, b, block4(best, edge));
        lemma_best_bmode_range(edge, s, 10);
        lemma_square4_is_square(src@, src_at as int, src_stride as int);
    }
    predict_luma4(plane, sub, stride, best);
    best
}

/// Writing a sub-block does not change its own edge.
proof fn lemma_edge4_blit(p: Seq<u8>, off: int, stride: int, b: Seq<u8>)
    requires
        square_fits(p.len() as int, off, stride, 4),
        off >= stride + 1,
        stride >= 8,
    ensures
        edge4(blit(p, off, stride, 4, b), off, stride) == edge4(p, off, stride),
{
    let q = blit(p, off, stride, 4, b);
    crate::mode_search::lemma_left_outside(off, stride, 4, 0);
    crate::mode_search::lemma_left_outside(off, stride, 4, 1);
    crate::mode_search::lemma_left_outside(off, stride, 4, 2);
    crate::mode_search::lemma_left_outside(off, stride, 4, 3);
    assert(0 * stride == 0 && 1 * stride == stride);
    assert(edge4(q, off, stride) =~= edge4(p, off, stride));
}

/// Code the 4x4 sub-block at `sub` and reconstruct it into the plane.
fn code_sub_block(
    plane: &mut [u8],
    sub: usize,
    stride: usize,
    src: &[u8],
    src_at: usize,
    src_stride: usize,
    plan: QuantPlan<'_>,
) -> (r: (u8, Quantized))
    requires
        square_fits(old(plane)@.len() as int, sub as int, stride as int, 4),
        sub >= stride + 1,
        stride >= 8,
        square_fits(src@.len() as int, src_at as int, src_stride as int, 4),
        plan.quant.wf(),
    ensures
        ({
            let edge = edge4(old(plane)@, sub as int, stride as int);
            let s = square4(src@, src_at as int, src_stride as int);
            &&& r.0 == i4_mode(edge, s)
            &&& r.0 <= B_HU_PRED
            &&& r.1 == i4_quantized(edge, s, plan)
            &&& sound_block(block_of(r.1), 0)
            &&& final(plane)@ == blit(
                old(plane)@,
                sub as int,
                stride as int,
                4,
                idct_add(r.1.recon@, block4(r.0, edge)),
            )
        }),
{
    let ghost q = plane@;
    let ghost so = sub as int;
    let ghost st = stride as int;
    let ghost edge = edge4(q, so, st);
    let mode: u8 = search_bmode(plane, sub, stride, src, src_at, src_stride);
    let ghost pred = block4(mode, edge);
    proof {
        lemma_block4_len(mode, edge);
        lemma_square4_blit(q, so, st, pred);
    }
    let residual: [i16; 16] = residual_at(src, src_at, src_stride, plane, sub, stride);
    let quantized: Quantized = quantize_one(fdct4x4(residual), plan.quant.y1, 0, 3, plan);
    proof {
        lemma_blit_blit(q, so, st, 4, pred, idct_add(quantized.recon@, pred));
    }
    if has_ac(&quantized.recon) || quantized.recon[0] != 0 {
        transform_one(&quantized.recon, plane, sub, stride);
    } else {
        proof {
            lemma_zero_adds_nothing(quantized.recon@, pred);
        }
    }
    (mode, quantized)
}

/// Code the luma macroblock at `y_off` as sixteen sub-blocks, reconstructing each into
/// the plane before the next. Returns the coded macroblock, its squared error and its
/// bits.
#[verifier::rlimit(60)]
pub fn search_luma_i4x4(
    planes: &mut Planes,
    y_off: usize,
    src: &SourceYuv,
    mb_x: usize,
    mb_y: usize,
    has_top: bool,
    is_rightmost: bool,
    plan: QuantPlan<'_>,
) -> (r: (I4x4Luma, i64, i64))
    requires
        src.wf(),
        mb_x < src.mb_w,
        mb_y < src.mb_h,
        luma_fits(old(planes).y@.len() as int, y_off as int, old(planes).y_stride as int),
        plan.quant.wf(),
    ensures
        ({
            let stride = old(planes).y_stride as int;
            let e = luma_edge(old(planes).y@, y_off as int, stride, has_top, is_rightmost);
            let s = src_mb(*src, mb_x as int, mb_y as int).y;
            let rec = i4_upto(e, s, plan, 16);
            &&& codes_i4(r.0, e, s, plan)
            &&& r.1 == sse(s, rec)
            &&& r.2 == i4_bits(e, s, plan, 16)
            &&& rec.len() == 256
            &&& final(planes).y@ == blit(
                lane_filled(old(planes).y@, y_off as int, stride, has_top, is_rightmost),
                y_off as int,
                stride,
                16,
                rec,
            )
        }),
        0 <= r.1 <= 65025 * 256,
        0 <= r.2 <= 16 * 801_000,
        final(planes).u == old(planes).u,
        final(planes).v == old(planes).v,
        final(planes).y_stride == old(planes).y_stride,
        final(planes).uv_stride == old(planes).uv_stride,
{
    let stride: usize = planes.y_stride;
    let ghost off = y_off as int;
    let ghost st = stride as int;
    let ghost e = luma_edge(planes.y@, off, st, has_top, is_rightmost);
    let ghost s = src_mb(*src, mb_x as int, mb_y as int).y;
    let ghost f = i4_coded(s, plan);
    let src_stride: usize = src.y_stride();
    let src_at: usize = luma_src_at(src, mb_x, mb_y);
    let slen: usize = src.y.len();
    proof {
        lemma_lane(planes.y@, off, st, has_top, is_rightmost);
    }
    fill_top_right_lane(&mut planes.y, y_off, stride, has_top, is_rightmost);
    let ghost p0 = planes.y@;
    let ghost b0 = square(p0, off, st, 16);
    let len: usize = planes.y.len();
    proof {
        assert(16 * 16 == 256);
        lemma_blit_square(p0, off, st, 16);
        lemma_i4_coded_len(s, plan);
    }
    let mut cand = I4x4Luma {
        imodes: [0u8; 16],
        luma: [Block { levels: [0i16; 16], last: 0 };16],
        coeffs: [0i16; 256],
    };
    proof {
        reveal(codes_i4_upto);
    }
    let mut bits: i64 = 0;
    let mut n: usize = 0;
    while n < 16
        invariant
            n <= 16,
            off == y_off,
            st == stride,
            p0.len() == len,
            src.y@.len() == slen,
            luma_fits(p0.len() as int, off, st),
            has_lane(p0, off, st, e),
            square_fits(slen as int, src_at as int, src_stride as int, 16),
            s == square(src.y@, src_at as int, src_stride as int, 16),
            f == i4_coded(s, plan),
            plan.quant.wf(),
            planes.y@ == blit(p0, off, st, 16, i4_blocks(e, f, b0, n as int)),
            planes.u == old(planes).u,
            planes.v == old(planes).v,
            planes.y_stride == old(planes).y_stride,
            planes.uv_stride == old(planes).uv_stride,
            bits == i4_bits(e, s, plan, n as int),
            0 <= bits <= n * 801_000,
            codes_i4_upto(cand, e, s, plan, n as int),
        decreases 16 - n,
    {
        let sub: usize = sub_offset(y_off, stride, n, Ghost(len as int));
        let at: usize = sub_offset(src_at, src_stride, n, Ghost(slen as int));
        let ghost q = planes.y@;
        let ghost so = sub as int;
        let ghost edge = edge4(q, so, st);
        let ghost sb = sub_block(s, 16, n as int);
        proof {
            assert((16int / 4) * (16int / 4) == 16);
            lemma_square4_sub(src.y@, src_at as int, src_stride as int, 16, n as int);
            lemma_i4_step(p0, off, st, e, f, b0, n as int);
            crate::recon_block::lemma_i4_edge_plane(
                p0,
                off,
                st,
                e,
                i4_blocks(e, f, b0, n as int),
                n as int,
            );
            lemma_edge_from(e, s, plan, b0, n as int);
            assert(edge == i4_edge_at(e, s, plan, n as int));
        }
        let (mode, quantized) = code_sub_block(
            &mut planes.y,
            sub,
            stride,
            &src.y,
            at,
            src_stride,
            plan,
        );
        assert(quantized == i4_quant_at(e, s, plan, n as int));
        assert(planes.y@ == blit(q, so, st, 4, f(n as int, edge)));
        store_sub_block(&mut cand, n, mode, &quantized, Ghost(e), Ghost(s), plan);
        let b: i64 = block_token_cost(
            quantized.levels,
            0,
            quantized.last,
            3,
            0,
            plan.probas,
        );
        bits = bits + (b + I4X4_SUBMODE_COST);
        n = n + 1;
    }
    proof {
        reveal(codes_i4_upto);
        assert(cand.coeffs@ =~= i4_coeffs(e, s, plan));
        lemma_i4_blocks_ext(e, f, f, b0, blank_block());
        lemma_i4_len(e, f, blank_block(), 16);
        lemma_square_blit(p0, off, st, 16, i4_upto(e, s, plan, 16));
    }
    let dist: i64 = sse_block(&src.y, src_at, src_stride, &planes.y, y_off, stride, 16);
    (cand, dist, bits)
}

/// Whether the first `n` sub-blocks of `r` code those of the source macroblock `s`.
#[verifier::opaque]
spec fn codes_i4_upto(r: I4x4Luma, e: Edge, s: Seq<u8>, plan: QuantPlan<'_>, n: int) -> bool {
    &&& forall|k: int| 0 <= k < n ==> #[trigger] r.imodes@[k] == i4_mode_at(e, s, plan, k)
    &&& forall|k: int| 0 <= k < n ==> #[trigger] r.imodes@[k] <= B_HU_PRED
    &&& forall|k: int| 0 <= k < n ==> #[trigger] r.luma@[k] == block_of(i4_quant_at(e, s, plan, k))
    &&& forall|k: int| 0 <= k < n ==> sound_block(#[trigger] r.luma@[k], 0)
    &&& forall|i: int|
        0 <= i < 16 * n ==> #[trigger] r.coeffs@[i] == i4_quant_at(e, s, plan, i / 16).recon@[i % 16]
}

/// Store sub-block `n`.
fn store_sub_block(
    cand: &mut I4x4Luma,
    n: usize,
    mode: u8,
    q: &Quantized,
    Ghost(e): Ghost<Edge>,
    Ghost(s): Ghost<Seq<u8>>,
    plan: QuantPlan<'_>,
)
    requires
        n < 16,
        codes_i4_upto(*old(cand), e, s, plan, n as int),
        mode == i4_mode_at(e, s, plan, n as int),
        mode <= B_HU_PRED,
        *q == i4_quant_at(e, s, plan, n as int),
        sound_block(block_of(*q), 0),
    ensures
        codes_i4_upto(*final(cand), e, s, plan, n + 1),
{
    reveal(codes_i4_upto);
    cand.imodes[n] = mode;
    cand.luma[n] = Block { levels: q.levels, last: q.last };
    copy_coeffs(&mut cand.coeffs, n, &q.recon);
}

/// Store the sixteen coefficients of block `n`.
fn copy_coeffs(out: &mut [i16; 256], n: usize, block: &[i16; 16])
    requires
        n < 16,
    ensures
        forall|i: int|
            0 <= i < 256 ==> #[trigger] final(out)@[i] == (if i / 16 == n {
                block@[i % 16]
            } else {
                old(out)@[i]
            }),
{
    let mut i: usize = 0;
    while i < 16
        invariant
            i <= 16,
            n < 16,
            forall|j: int|
                0 <= j < 256 ==> #[trigger] out@[j] == (if j / 16 == n && j % 16 < i {
                    block@[j % 16]
                } else {
                    old(out)@[j]
                }),
        decreases 16 - i,
    {
        let at: usize = 16 * n + i;
        let ghost before = out@;
        out[at] = block[i];
        proof {
            assert forall|j: int| 0 <= j < 256 implies #[trigger] out@[j] == (if j / 16 == n && j
                % 16 < i + 1 {
                block@[j % 16]
            } else {
                old(out)@[j]
            }) by {
                if j != at {
                    assert(out@[j] == before[j]);
                }
            }
        }
        i = i + 1;
    }
}

/// The cost of a macroblock coded as sub-blocks.
pub open spec fn i4_cost(e: Edge, s: Seq<u8>, plan: QuantPlan<'_>) -> int {
    256 * luma_disto(s, i4_upto(e, s, plan, 16), plan) + lambda_of(
        1,
        128,
        plan.quant.y1.ac.q as int,
    ) * i4_bits(e, s, plan, 16)
}

/// The cost, by the measure of the 4x4 decision, of a macroblock that reconstructs to
/// `rec` with the given 16x16 token blocks.
pub open spec fn i16_cost(
    s: Seq<u8>,
    rec: Seq<u8>,
    y2: Block,
    luma: Seq<Block>,
    plan: QuantPlan<'_>,
) -> int {
    256 * luma_disto(s, rec, plan) + lambda_of(1, 128, plan.quant.y1.ac.q as int) * (512
        + luma16_bits(y2, luma, *plan.probas))
}

/// Code the luma macroblock, whose 16x16 prediction the plane holds, as sub-blocks, and
/// return that if it costs less than its 16x16 coding.
#[verifier::rlimit(60)]
pub fn try_i4x4_luma(
    planes: &mut Planes,
    coeffs: &[i16; 384],
    tokens: &MbTokens,
    y_off: usize,
    src: &SourceYuv,
    mb: (usize, usize),
    has_top: bool,
    is_rightmost: bool,
    plan: QuantPlan<'_>,
) -> (r: Option<I4x4Luma>)
    requires
        src.wf(),
        mb.0 < src.mb_w,
        mb.1 < src.mb_h,
        luma_fits(old(planes).y@.len() as int, y_off as int, old(planes).y_stride as int),
        plan.quant.wf(),
        costable(tokens.y2, 0),
        forall|k: int| 0 <= k < 16 ==> costable(#[trigger] tokens.luma@[k], 1),
    ensures
        ({
            let stride = old(planes).y_stride as int;
            let e = luma_edge(old(planes).y@, y_off as int, stride, has_top, is_rightmost);
            let s = src_mb(*src, mb.0 as int, mb.1 as int).y;
            let p = square(old(planes).y@, y_off as int, stride, 16);
            let rec = add_residuals(16, p, coeffs@, 0, 16);
            &&& r is Some <==> i4_cost(e, s, plan) < i16_cost(
                s,
                rec,
                tokens.y2,
                tokens.luma@,
                plan,
            )
            &&& r is Some ==> codes_i4(r->0, e, s, plan)
            &&& final(planes).y@ == blit(
                lane_filled(old(planes).y@, y_off as int, stride, has_top, is_rightmost),
                y_off as int,
                stride,
                16,
                i4_upto(e, s, plan, 16),
            )
            &&& i4_upto(e, s, plan, 16).len() == 256
        }),
        final(planes).u == old(planes).u,
        final(planes).v == old(planes).v,
        final(planes).y_stride == old(planes).y_stride,
        final(planes).uv_stride == old(planes).uv_stride,
{
    let (mb_x, mb_y) = mb;
    let ghost off = y_off as int;
    let ghost st = planes.y_stride as int;
    let ghost p0 = planes.y@;
    let ghost e = luma_edge(p0, off, st, has_top, is_rightmost);
    let ghost s = src_mb(*src, mb_x as int, mb_y as int).y;
    let ghost rec = add_residuals(16, square(p0, off, st, 16), coeffs@, 0, 16);
    let dist16: i64 = luma16_reconstruction_sse(planes, coeffs, y_off, src, mb_x, mb_y);
    proof {
        assert(16 * 16 == 256);
        lemma_square_blit(p0, off, st, 16, rec);
    }
    let perceptual16: i64 = luma16_perceptual_disto(dist16, planes, y_off, src, mb_x, mb_y, plan);
    let bits16: i64 = I16X16_MODE_COST + luma16_token_bits(tokens.y2, &tokens.luma, plan.probas);
    proof {
        crate::mode_search::lemma_luma_edge_blit(p0, off, st, rec, has_top, is_rightmost);
        lemma_lane(p0, off, st, has_top, is_rightmost);
        crate::mode_search::lemma_lane_blit(
            p0,
            off,
            st,
            rec,
            i4_upto(e, s, plan, 16),
            has_top,
            is_rightmost,
        );
    }
    let (cand, dist4, bits4) = search_luma_i4x4(
        planes,
        y_off,
        src,
        mb_x,
        mb_y,
        has_top,
        is_rightmost,
        plan,
    );
    proof {
        lemma_square_blit(
            lane_filled(p0, off, st, has_top, is_rightmost),
            off,
            st,
            16,
            i4_upto(e, s, plan, 16),
        );
    }
    let perceptual4: i64 = luma16_perceptual_disto(dist4, planes, y_off, src, mb_x, mb_y, plan);
    let lambda: i64 = i4x4_lambda(plan.quant.y1.ac.q);
    assert(0 <= lambda * bits16 <= 28_125_000 * 20_000_000) by (nonlinear_arith)
        requires
            0 <= lambda <= 28_125_000,
            0 <= bits16 <= 20_000_000,
    ;
    assert(0 <= lambda * bits4 <= 28_125_000 * 20_000_000) by (nonlinear_arith)
        requires
            0 <= lambda <= 28_125_000,
            0 <= bits4 <= 20_000_000,
    ;
    let cost16: i64 = RD_DISTO_MULT * perceptual16 + lambda * bits16;
    let cost4: i64 = RD_DISTO_MULT * perceptual4 + lambda * bits4;
    if cost4 < cost16 {
        Some(cand)
    } else {
        None
    }
}

} // verus!
