//! The rate-distortion choice of whole-block intra modes.
//!
//! Every available mode is predicted, transformed, quantized and reconstructed; its
//! cost is 256 times the distortion of what it reconstructs to plus lambda times the
//! bits of its tokens. The modes are tried in a fixed order and only a smaller cost
//! replaces an earlier choice, so ties go to the earliest.

use vstd::prelude::*;

use crate::arith::group_shr;
use crate::block::{
    blit, in_square, lemma_blit_blit, lemma_in_square_at, lemma_square_blit, square, square_fits,
};
use crate::constants::{DC_PRED, H_PRED, TM_PRED, V_PRED};
use crate::idct::{idct_add, transform_one};
use crate::perceptual::{disto16, disto16_spec, tlambda, tlambda_spec, PlaneWindow};
use crate::predict::{predict_chroma8, predict_luma16, top_row};
use crate::recon_block::{
    add_residuals, chroma_edge, coeff_block, lemma_add_residuals_ext, lemma_add_residuals_len,
    luma_edge, luma_fits, predicted, Edge,
};
use crate::reconstruct::{
    chroma_fits, chroma_sub_offset, in_lane, lane_filled, lemma_lane, lemma_residual_step,
    lemma_zero_adds_nothing, sub_offset, Planes,
};
use crate::residual::{
    block_of, blocks_cost, chroma8_coeffs, chroma8_token_bits, chroma_quantized, codes_chroma8,
    codes_luma16, encode_chroma8_residual, encode_luma16_residual, luma16_bits, lemma_src_fits,
    luma16_coeffs, luma16_sound, luma16_token_bits, sound_block, src_off, sse, sse_block,
    y2_quantized, ac_quantized, Chroma8Encode, Luma16Encode, QuantPlan,
};
use crate::rgb_to_yuv::SourceYuv;
use crate::tokens::Block;
use crate::trellis::RD_DISTO_MULT;

verus! {

broadcast use group_shr;

/// The mode-signalling cost of a 16x16 macroblock, about two bits.
pub const I16X16_MODE_COST: i64 = 512;

/// The mode-signalling cost of each 4x4 sub-block.
pub const I4X4_SUBMODE_COST: i64 = 512;

/// The whole-block modes in the order they are tried.
pub const WHOLE_BLOCK_MODES: [u8; 4] = [DC_PRED, V_PRED, H_PRED, TM_PRED];

/// `num * q^2` over `den`, at least one.
pub open spec fn lambda_of(num: int, den: int, q: int) -> int {
    let l = (num * q * q) / den;
    if l < 1 {
        1
    } else {
        l
    }
}

proof fn lemma_square_range(q: int)
    requires
        -60000 <= q <= 60000,
    ensures
        0 <= q * q <= 3_600_000_000,
        1 * q * q == q * q,
        3 * q * q == 3 * (q * q),
{
    assert(0 <= q * q <= 3_600_000_000) by (nonlinear_arith)
        requires
            -60000 <= q <= 60000,
    ;
    assert(3 * q * q == 3 * (q * q)) by (nonlinear_arith);
}

/// The multiplier of the 4x4 decision.
pub fn i4x4_lambda(q_ac: i32) -> (r: i64)
    requires
        -60000 <= q_ac <= 60000,
    ensures
        r == lambda_of(1, 128, q_ac as int),
        1 <= r <= 28_125_000,
{
    let q: i64 = q_ac as i64;
    proof {
        lemma_square_range(q as int);
        let x = (q * q) as i64;
        assert((x >> 7i64) == x / 128) by (bit_vector);
    }
    let l: i64 = (q * q) >> 7;
    if l < 1 {
        1
    } else {
        l
    }
}

/// The multiplier of the 16x16 luma mode decision.
pub fn luma16_lambda(q_ac: i32) -> (r: i64)
    requires
        -60000 <= q_ac <= 60000,
    ensures
        r == lambda_of(3, 128, q_ac as int),
        1 <= r <= 84_375_000,
{
    let q: i64 = q_ac as i64;
    proof {
        lemma_square_range(q as int);
        let x = (3 * q * q) as i64;
        assert((x >> 7i64) == x / 128) by (bit_vector);
    }
    let l: i64 = (3 * q * q) >> 7;
    if l < 1 {
        1
    } else {
        l
    }
}

/// The multiplier of the chroma mode decision.
pub fn chroma_lambda(q_ac: i32) -> (r: i64)
    requires
        -60000 <= q_ac <= 60000,
    ensures
        r == lambda_of(3, 64, q_ac as int),
        1 <= r <= 168_750_000,
{
    let q: i64 = q_ac as i64;
    proof {
        lemma_square_range(q as int);
        let x = (3 * q * q) as i64;
        assert((x >> 6i64) == x / 64) by (bit_vector);
    }
    let l: i64 = (3 * q * q) >> 6;
    if l < 1 {
        1
    } else {
        l
    }
}

/// Whether a whole-block mode's neighbours are there.
pub open spec fn mode_available_spec(mode: u8, has_top: bool, has_left: bool) -> bool {
    if mode == V_PRED {
        has_top
    } else if mode == H_PRED {
        has_left
    } else if mode == TM_PRED {
        has_top && has_left
    } else {
        true
    }
}

/// Whether a whole-block mode's neighbours are there; DC prediction needs none.
pub fn mode_available(mode: u8, has_top: bool, has_left: bool) -> (r: bool)
    ensures
        r == mode_available_spec(mode, has_top, has_left),
{
    if mode == V_PRED {
        has_top
    } else if mode == H_PRED {
        has_left
    } else if mode == TM_PRED {
        has_top && has_left
    } else {
        true
    }
}

/// The distortion of a luma macroblock that reconstructs to `rec`.
pub open spec fn luma_disto(s: Seq<u8>, rec: Seq<u8>, plan: QuantPlan<'_>) -> int {
    disto16_spec(
        sse(s, rec),
        tlambda_spec(plan.sns_strength as int, plan.quant.y1.ac.q as int),
        s,
        rec,
    )
}

/// What a luma macroblock coded against the prediction `p` reconstructs to.
pub open spec fn luma16_coded(s: Seq<u8>, p: Seq<u8>, plan: QuantPlan<'_>) -> Seq<u8> {
    add_residuals(16, p, luma16_coeffs(s, p, plan), 0, 16)
}

/// The luma blocks of a macroblock coded against the prediction `p`.
pub open spec fn luma16_blocks(s: Seq<u8>, p: Seq<u8>, plan: QuantPlan<'_>) -> Seq<Block> {
    Seq::new(16, |k: int| block_of(ac_quantized(s, p, plan, k)))
}

/// The bits of a luma macroblock coded against the prediction `p`, with its mode.
pub open spec fn luma16_rate(s: Seq<u8>, p: Seq<u8>, plan: QuantPlan<'_>) -> int {
    512 + luma16_bits(
        block_of(y2_quantized(s, p, plan)),
        luma16_blocks(s, p, plan),
        *plan.probas,
    )
}

/// The cost of coding a luma macroblock against the prediction `p`.
pub open spec fn luma16_cost(s: Seq<u8>, p: Seq<u8>, plan: QuantPlan<'_>) -> int {
    256 * luma_disto(s, luma16_coded(s, p, plan), plan) + lambda_of(
        3,
        128,
        plan.quant.y1.ac.q as int,
    ) * luma16_rate(s, p, plan)
}

/// The best of the first `k` luma modes.
pub open spec fn best_luma_mode(
    e: Edge,
    s: Seq<u8>,
    has_top: bool,
    has_left: bool,
    plan: QuantPlan<'_>,
    k: int,
) -> Option<u8>
    decreases k,
{
    if k <= 0 {
        None
    } else {
        let best = best_luma_mode(e, s, has_top, has_left, plan, k - 1);
        let mode = WHOLE_BLOCK_MODES[k - 1];
        if mode_available_spec(mode, has_top, has_left) && (best is None || luma16_cost(
            s,
            predicted(16, e, mode, has_top, has_left),
            plan,
        ) < luma16_cost(s, predicted(16, e, best->0, has_top, has_left), plan)) {
            Some(mode)
        } else {
            best
        }
    }
}

/// The luma mode that the search chooses.
pub open spec fn luma_mode(
    e: Edge,
    s: Seq<u8>,
    has_top: bool,
    has_left: bool,
    plan: QuantPlan<'_>,
) -> u8 {
    best_luma_mode(e, s, has_top, has_left, plan, 4)->0
}

/// What one chroma plane's block coded against the prediction `p` reconstructs to.
pub open spec fn chroma8_coded(s: Seq<u8>, p: Seq<u8>, plan: QuantPlan<'_>) -> Seq<u8> {
    add_residuals(8, p, chroma8_coeffs(s, p, plan), 0, 4)
}

/// The chroma blocks of a macroblock coded against the predictions `pu` and `pv`.
pub open spec fn chroma8_blocks(
    su: Seq<u8>,
    pu: Seq<u8>,
    sv: Seq<u8>,
    pv: Seq<u8>,
    plan: QuantPlan<'_>,
) -> Seq<Block> {
    Seq::new(
        8,
        |k: int|
            block_of(
                if k < 4 {
                    chroma_quantized(su, pu, plan, k)
                } else {
                    chroma_quantized(sv, pv, plan, k - 4)
                },
            ),
    )
}

/// The cost of coding a macroblock's chroma against the predictions `pu` and `pv`.
pub open spec fn chroma8_cost(
    su: Seq<u8>,
    pu: Seq<u8>,
    sv: Seq<u8>,
    pv: Seq<u8>,
    plan: QuantPlan<'_>,
) -> int {
    256 * (sse(su, chroma8_coded(su, pu, plan)) + sse(sv, chroma8_coded(sv, pv, plan))) + lambda_of(
        3,
        64,
        plan.quant.uv.ac.q as int,
    ) * blocks_cost(chroma8_blocks(su, pu, sv, pv, plan), 0, 2, *plan.probas, 8)
}

/// The cost of a chroma mode.
pub open spec fn chroma_mode_cost(
    ue: Edge,
    ve: Edge,
    su: Seq<u8>,
    sv: Seq<u8>,
    mode: u8,
    has_top: bool,
    has_left: bool,
    plan: QuantPlan<'_>,
) -> int {
    chroma8_cost(
        su,
        predicted(8, ue, mode, has_top, has_left),
        sv,
        predicted(8, ve, mode, has_top, has_left),
        plan,
    )
}

/// The best of the first `k` chroma modes.
pub open spec fn best_chroma_mode(
    ue: Edge,
    ve: Edge,
    su: Seq<u8>,
    sv: Seq<u8>,
    has_top: bool,
    has_left: bool,
    plan: QuantPlan<'_>,
    k: int,
) -> Option<u8>
    decreases k,
{
    if k <= 0 {
        None
    } else {
        let best = best_chroma_mode(ue, ve, su, sv, has_top, has_left, plan, k - 1);
        let mode = WHOLE_BLOCK_MODES[k - 1];
        if mode_available_spec(mode, has_top, has_left) && (best is None || chroma_mode_cost(
            ue,
            ve,
            su,
            sv,
            mode,
            has_top,
            has_left,
            plan,
        ) < chroma_mode_cost(ue, ve, su, sv, best->0, has_top, has_left, plan)) {
            Some(mode)
        } else {
            best
        }
    }
}

/// The chroma mode that the search chooses.
pub open spec fn chroma_mode(
    ue: Edge,
    ve: Edge,
    su: Seq<u8>,
    sv: Seq<u8>,
    has_top: bool,
    has_left: bool,
    plan: QuantPlan<'_>,
) -> u8 {
    best_chroma_mode(ue, ve, su, sv, has_top, has_left, plan, 4)->0
}

/// A sample left of or above a block is not in it.
proof fn lemma_edge_outside(off: int, stride: int, n: int, x: int, y: int)
    requires
        1 <= n < stride,
        (y == -1 && -1 <= x < stride - 1) || (x == -1 && 0 <= y),
    ensures
        !in_square(off + y * stride + x, off, stride, n),
{
    assert(off + 0 * stride + 0 == off);
    if x == -1 {
        assert(y * stride + x == (y - 1) * stride + (stride - 1)) by (nonlinear_arith)
            requires
                x == -1,
        ;
        lemma_in_square_at(off, stride, 0, 0, n, stride - 1, y - 1);
    } else {
        lemma_in_square_at(off, stride, 0, 0, n, x, y);
    }
}

/// The samples left of a block are not in it.
pub proof fn lemma_left_outside(off: int, stride: int, n: int, y: int)
    requires
        1 <= n < stride,
        0 <= y,
    ensures
        !in_square(off + y * stride - 1, off, stride, n),
{
    lemma_edge_outside(off, stride, n, -1, y);
}

/// Setting up the samples above to the right commutes with writing the macroblock.
pub proof fn lemma_lane_blit(
    p: Seq<u8>,
    off: int,
    stride: int,
    a: Seq<u8>,
    b: Seq<u8>,
    has_top: bool,
    is_rightmost: bool,
)
    requires
        luma_fits(p.len() as int, off, stride),
    ensures
        blit(
            lane_filled(blit(p, off, stride, 16, a), off, stride, has_top, is_rightmost),
            off,
            stride,
            16,
            b,
        ) == blit(lane_filled(p, off, stride, has_top, is_rightmost), off, stride, 16, b),
{
    let q = blit(p, off, stride, 16, a);
    let lp = lane_filled(p, off, stride, has_top, is_rightmost);
    let lq = lane_filled(q, off, stride, has_top, is_rightmost);
    lemma_lane(p, off, stride, has_top, is_rightmost);
    lemma_lane(q, off, stride, has_top, is_rightmost);
    lemma_luma_edge_blit(p, off, stride, a, has_top, is_rightmost);
    let e = luma_edge(p, off, stride, has_top, is_rightmost);
    let l = blit(lq, off, stride, 16, b);
    let r = blit(lp, off, stride, 16, b);
    assert forall|i: int| 0 <= i < p.len() implies l[i] == r[i] by {
        if !in_square(i, off, stride, 16) {
            if in_lane(i, off, stride) {
                let x = if i < off {
                    i - (off - stride)
                } else if i < off + 4 * stride {
                    i - (off + 3 * stride)
                } else if i < off + 8 * stride {
                    i - (off + 7 * stride)
                } else {
                    i - (off + 11 * stride)
                };
                assert(16 <= x < 20);
                assert(lp[off - stride + x] == e.top[x]);
                assert(lq[off - stride + x] == e.top[x]);
                assert(lp[off + 3 * stride + x] == e.top[x]);
                assert(lq[off + 3 * stride + x] == e.top[x]);
            } else {
                assert(lp[i] == p[i]);
                assert(lq[i] == q[i]);
            }
        }
    }
    assert(l =~= r);
}

/// Writing a macroblock does not change its own edge.
pub proof fn lemma_luma_edge_blit(
    p: Seq<u8>,
    off: int,
    stride: int,
    b: Seq<u8>,
    has_top: bool,
    is_rightmost: bool,
)
    requires
        luma_fits(p.len() as int, off, stride),
    ensures
        luma_edge(blit(p, off, stride, 16, b), off, stride, has_top, is_rightmost) == luma_edge(
            p,
            off,
            stride,
            has_top,
            is_rightmost,
        ),
{
    let q = blit(p, off, stride, 16, b);
    let e = luma_edge(p, off, stride, has_top, is_rightmost);
    let f = luma_edge(q, off, stride, has_top, is_rightmost);
    lemma_edge_samples(p, off, stride, 16, b, 20);
    assert(e.left =~= f.left);
    assert(e.top =~= f.top);
}

/// Writing a block does not change the samples above and left of it.
proof fn lemma_edge_samples(p: Seq<u8>, off: int, stride: int, n: int, b: Seq<u8>, w: int)
    requires
        square_fits(p.len() as int, off, stride, n),
        off >= stride + 1,
        n <= w < stride,
    ensures
        blit(p, off, stride, n, b)[off - stride - 1] == p[off - stride - 1],
        forall|x: int|
            0 <= x < w ==> #[trigger] blit(p, off, stride, n, b)[off - stride + x] == p[off - stride
                + x],
        forall|y: int|
            0 <= y < n ==> #[trigger] blit(p, off, stride, n, b)[off + y * stride - 1] == p[off + y
                * stride - 1],
{
    let q = blit(p, off, stride, n, b);
    assert((-1) * stride == -stride);
    assert((n - 1) * stride >= 0) by (nonlinear_arith)
        requires
            n >= 1,
            stride >= 1,
    ;
    lemma_edge_outside(off, stride, n, -1, -1);
    assert forall|x: int| 0 <= x < w implies #[trigger] q[off - stride + x] == p[off - stride + x] by {
        lemma_edge_outside(off, stride, n, x, -1);
    }
    assert forall|y: int| 0 <= y < n implies #[trigger] q[off + y * stride - 1] == p[off + y * stride
        - 1] by {
        lemma_edge_outside(off, stride, n, -1, y);
        assert(0 <= y * stride <= (n - 1) * stride) by (nonlinear_arith)
            requires
                0 <= y <= n - 1,
                stride >= 1,
        ;
    }
}

/// Writing a chroma block does not change its own edge.
pub proof fn lemma_chroma_edge_blit(p: Seq<u8>, off: int, stride: int, b: Seq<u8>)
    requires
        chroma_fits(p.len() as int, off, stride),
        stride >= 9,
    ensures
        chroma_edge(blit(p, off, stride, 8, b), off, stride) == chroma_edge(p, off, stride),
{
    let q = blit(p, off, stride, 8, b);
    let e = chroma_edge(p, off, stride);
    let f = chroma_edge(q, off, stride);
    lemma_edge_samples(p, off, stride, 8, b, 8);
    assert(e.left =~= f.left);
    assert(e.top =~= f.top);
}

/// Predict the luma macroblock at `off`.
pub(crate) fn predict_luma_at(
    plane: &mut [u8],
    off: usize,
    stride: usize,
    mode: u8,
    has_top: bool,
    has_left: bool,
)
    requires
        luma_fits(old(plane)@.len() as int, off as int, stride as int),
        mode <= H_PRED,
    ensures
        final(plane)@ == blit(
            old(plane)@,
            off as int,
            stride as int,
            16,
            predicted(
                16,
                luma_edge(old(plane)@, off as int, stride as int, has_top, false),
                mode,
                has_top,
                has_left,
            ),
        ),
        predicted(
            16,
            luma_edge(old(plane)@, off as int, stride as int, has_top, false),
            mode,
            has_top,
            has_left,
        ).len() == 256,
{
    proof {
        let e = luma_edge(plane@, off as int, stride as int, has_top, false);
        assert(e.top.take(16) =~= top_row(plane@, off as int, stride as int, 16));
        assert(16 * 16 == 256);
    }
    predict_luma16(plane, off, stride, mode, has_top, has_left);
}

/// Predict the chroma block at `off`.
pub(crate) fn predict_chroma_at(
    plane: &mut [u8],
    off: usize,
    stride: usize,
    mode: u8,
    has_top: bool,
    has_left: bool,
)
    requires
        chroma_fits(old(plane)@.len() as int, off as int, stride as int),
        mode <= H_PRED,
    ensures
        final(plane)@ == blit(
            old(plane)@,
            off as int,
            stride as int,
            8,
            predicted(
                8,
                chroma_edge(old(plane)@, off as int, stride as int),
                mode,
                has_top,
                has_left,
            ),
        ),
        predicted(
            8,
            chroma_edge(old(plane)@, off as int, stride as int),
            mode,
            has_top,
            has_left,
        ).len() == 64,
{
    proof {
        let e = chroma_edge(plane@, off as int, stride as int);
        assert(e.top.take(8) =~= top_row(plane@, off as int, stride as int, 8));
        assert(8 * 8 == 64);
    }
    predict_chroma8(plane, off, stride, mode, has_top, has_left);
}

/// Whether any of sixteen coefficients from `at` on is not zero.
fn any_nonzero(coeffs: &[i16], at: usize) -> (r: bool)
    requires
        at + 16 <= coeffs@.len(),
    ensures
        !r ==> forall|i: int| 0 <= i < 16 ==> #[trigger] coeffs@.subrange(at as int, at + 16)[i] == 0,
{
    let len: usize = coeffs.len();
    let ghost w = coeffs@.subrange(at as int, at + 16);
    let mut i: usize = 0;
    while i < 16
        invariant
            i <= 16,
            at + 16 <= coeffs@.len(),
            coeffs@.len() == len,
            w == coeffs@.subrange(at as int, at + 16),
            forall|j: int| 0 <= j < i ==> #[trigger] w[j] == 0,
        decreases 16 - i,
    {
        if coeffs[at + i] != 0 {
            return true;
        }
        i = i + 1;
    }
    false
}

/// Add the residual of the sixteen coefficients from `at` on, if any is not zero.
fn add_block(plane: &mut [u8], coeffs: &[i16], at: usize, sub: usize, stride: usize)
    requires
        at + 16 <= coeffs@.len(),
        square_fits(old(plane)@.len() as int, sub as int, stride as int, 4),
    ensures
        final(plane)@ == blit(
            old(plane)@,
            sub as int,
            stride as int,
            4,
            idct_add(
                coeffs@.subrange(at as int, at + 16),
                crate::block::square4(old(plane)@, sub as int, stride as int),
            ),
        ),
{
    let len: usize = coeffs.len();
    if any_nonzero(coeffs, at) {
        let block: &[i16] = vstd::slice::slice_subrange(coeffs, at, at + 16);
        transform_one(block, plane, sub, stride);
    } else {
        proof {
            lemma_zero_adds_nothing(
                coeffs@.subrange(at as int, at + 16),
                crate::block::square4(plane@, sub as int, stride as int),
            );
            crate::reconstruct::lemma_square4_is_square(plane@, sub as int, stride as int);
            crate::block::lemma_blit_square(plane@, sub as int, stride as int, 4);
        }
    }
}

/// Add the sixteen luma residuals onto the prediction that the plane holds, and return
/// the squared error against the source.
fn luma_plane_sse(
    plane: &mut [u8],
    coeffs: &[i16],
    y_off: usize,
    stride: usize,
    src: &[u8],
    src_at: usize,
    src_stride: usize,
) -> (r: i64)
    requires
        coeffs@.len() >= 256,
        square_fits(old(plane)@.len() as int, y_off as int, stride as int, 16),
        square_fits(src@.len() as int, src_at as int, src_stride as int, 16),
    ensures
        ({
            let p = square(old(plane)@, y_off as int, stride as int, 16);
            let rec = add_residuals(16, p, coeffs@, 0, 16);
            &&& final(plane)@ == blit(old(plane)@, y_off as int, stride as int, 16, rec)
            &&& rec.len() == 256
            &&& r == sse(square(src@, src_at as int, src_stride as int, 16), rec)
        }),
        0 <= r <= 65025 * 256,
{
    let ghost p0 = plane@;
    let ghost off = y_off as int;
    let ghost s = stride as int;
    let ghost p = square(p0, off, s, 16);
    let len: usize = plane.len();
    proof {
        assert(16 * 16 == 256);
        crate::block::lemma_blit_square(p0, off, s, 16);
        lemma_add_residuals_len(16, p, coeffs@, 0, 16);
    }
    let mut n: usize = 0;
    while n < 16
        invariant
            n <= 16,
            s == stride,
            off == y_off,
            p0.len() == len,
            p.len() == 256,
            coeffs@.len() >= 256,
            square_fits(p0.len() as int, off, s, 16),
            plane@ == blit(p0, off, s, 16, add_residuals(16, p, coeffs@, 0, n as int)),
        decreases 16 - n,
    {
        let sub: usize = sub_offset(y_off, stride, n, Ghost(len as int));
        proof {
            assert((16int / 4) * (16int / 4) == 16);
            assert(16 * 16 == 256);
            lemma_residual_step(p0, off, s, 16, p, coeffs@, 0, n as int);
        }
        add_block(plane, coeffs, 16 * n, sub, stride);
        n = n + 1;
    }
    proof {
        lemma_square_blit(p0, off, s, 16, add_residuals(16, p, coeffs@, 0, 16));
    }
    sse_block(src, src_at, src_stride, plane, y_off, stride, 16)
}

/// Add four chroma residuals, their coefficients starting at block `base`, onto the
/// prediction that the plane holds, and return the squared error against the source.
fn chroma_plane_sse(
    plane: &mut [u8],
    coeffs: &[i16],
    base: usize,
    uv_off: usize,
    stride: usize,
    src: &[u8],
    src_at: usize,
    src_stride: usize,
) -> (r: i64)
    requires
        base <= 4,
        coeffs@.len() == 128,
        square_fits(old(plane)@.len() as int, uv_off as int, stride as int, 8),
        square_fits(src@.len() as int, src_at as int, src_stride as int, 8),
    ensures
        ({
            let p = square(old(plane)@, uv_off as int, stride as int, 8);
            let rec = add_residuals(8, p, coeffs@, base as int, 4);
            &&& final(plane)@ == blit(old(plane)@, uv_off as int, stride as int, 8, rec)
            &&& rec.len() == 64
            &&& r == sse(square(src@, src_at as int, src_stride as int, 8), rec)
        }),
        0 <= r <= 65025 * 64,
{
    let ghost p0 = plane@;
    let ghost off = uv_off as int;
    let ghost s = stride as int;
    let ghost p = square(p0, off, s, 8);
    let len: usize = plane.len();
    proof {
        assert(8 * 8 == 64);
        crate::block::lemma_blit_square(p0, off, s, 8);
        lemma_add_residuals_len(8, p, coeffs@, base as int, 4);
    }
    let mut n: usize = 0;
    while n < 4
        invariant
            n <= 4,
            s == stride,
            off == uv_off,
            base <= 4,
            p0.len() == len,
            p.len() == 64,
            coeffs@.len() == 128,
            square_fits(p0.len() as int, off, s, 8),
            plane@ == blit(p0, off, s, 8, add_residuals(8, p, coeffs@, base as int, n as int)),
        decreases 4 - n,
    {
        let sub: usize = chroma_sub_offset(uv_off, stride, n, Ghost(len as int));
        proof {
            assert((8int / 4) * (8int / 4) == 4);
            assert(8 * 8 == 64);
            lemma_residual_step(p0, off, s, 8, p, coeffs@, base as int, n as int);
        }
        add_block(plane, coeffs, 16 * (base + n), sub, stride);
        n = n + 1;
    }
    proof {
        lemma_square_blit(p0, off, s, 8, add_residuals(8, p, coeffs@, base as int, 4));
    }
    sse_block(src, src_at, src_stride, plane, uv_off, stride, 8)
}

/// The source samples of one macroblock.
pub struct SrcMb {
    /// Luma, 16x16.
    pub y: Seq<u8>,
    /// U chroma, 8x8.
    pub u: Seq<u8>,
    /// V chroma, 8x8.
    pub v: Seq<u8>,
}

/// The source samples of macroblock (`mb_x`, `mb_y`).
pub open spec fn src_mb(src: SourceYuv, mb_x: int, mb_y: int) -> SrcMb {
    let ys = src.mb_w * 16;
    let us = src.mb_w * 8;
    SrcMb {
        y: square(src.y@, src_off(ys, 16, mb_x, mb_y), ys, 16),
        u: square(src.u@, src_off(us, 8, mb_x, mb_y), us, 8),
        v: square(src.v@, src_off(us, 8, mb_x, mb_y), us, 8),
    }
}

/// Where a macroblock's luma source samples start.
pub(crate) fn luma_src_at(src: &SourceYuv, mb_x: usize, mb_y: usize) -> (r: usize)
    requires
        src.wf(),
        mb_x < src.mb_w,
        mb_y < src.mb_h,
    ensures
        r == src_off(src.mb_w * 16, 16, mb_x as int, mb_y as int),
        square_fits(src.y@.len() as int, r as int, src.mb_w * 16, 16),
{
    let len: usize = src.y.len();
    proof {
        lemma_src_fits(src.mb_w as int, src.mb_h as int, 16, mb_x as int, mb_y as int);
        assert(mb_y * 16 <= mb_y * 16 * (src.mb_w * 16)) by (nonlinear_arith)
            requires
                src.mb_w >= 1,
        ;
    }
    let stride: usize = src.y_stride();
    mb_y * 16 * stride + mb_x * 16
}

/// Where a macroblock's chroma source samples start.
pub(crate) fn chroma_src_at(src: &SourceYuv, mb_x: usize, mb_y: usize) -> (r: usize)
    requires
        src.wf(),
        mb_x < src.mb_w,
        mb_y < src.mb_h,
    ensures
        r == src_off(src.mb_w * 8, 8, mb_x as int, mb_y as int),
        square_fits(src.u@.len() as int, r as int, src.mb_w * 8, 8),
        square_fits(src.v@.len() as int, r as int, src.mb_w * 8, 8),
{
    let len: usize = src.u.len();
    proof {
        lemma_src_fits(src.mb_w as int, src.mb_h as int, 8, mb_x as int, mb_y as int);
        assert(mb_y * 8 <= mb_y * 8 * (src.mb_w * 8)) by (nonlinear_arith)
            requires
                src.mb_w >= 1,
        ;
    }
    let stride: usize = src.uv_stride();
    mb_y * 8 * stride + mb_x * 8
}

/// Reconstruct the luma macroblock at `y_off`, whose prediction the plane holds, and
/// return the squared error against the source.
pub fn luma16_reconstruction_sse(
    planes: &mut Planes,
    coeffs: &[i16],
    y_off: usize,
    src: &SourceYuv,
    mb_x: usize,
    mb_y: usize,
) -> (r: i64)
    requires
        src.wf(),
        mb_x < src.mb_w,
        mb_y < src.mb_h,
        coeffs@.len() >= 256,
        luma_fits(old(planes).y@.len() as int, y_off as int, old(planes).y_stride as int),
    ensures
        ({
            let stride = old(planes).y_stride as int;
            let p = square(old(planes).y@, y_off as int, stride, 16);
            let rec = add_residuals(16, p, coeffs@, 0, 16);
            &&& final(planes).y@ == blit(old(planes).y@, y_off as int, stride, 16, rec)
            &&& rec.len() == 256
            &&& r == sse(src_mb(*src, mb_x as int, mb_y as int).y, rec)
        }),
        0 <= r <= 65025 * 256,
        final(planes).u == old(planes).u,
        final(planes).v == old(planes).v,
        final(planes).y_stride == old(planes).y_stride,
        final(planes).uv_stride == old(planes).uv_stride,
{
    let at: usize = luma_src_at(src, mb_x, mb_y);
    let stride: usize = planes.y_stride;
    luma_plane_sse(&mut planes.y, coeffs, y_off, stride, &src.y, at, src.y_stride())
}

/// Reconstruct the chroma blocks at `uv_off`, whose predictions the planes hold, and
/// return the summed squared error against the source.
pub fn chroma8_reconstruction_sse(
    planes: &mut Planes,
    coeffs: &[i16; 128],
    uv_off: usize,
    src: &SourceYuv,
    mb_x: usize,
    mb_y: usize,
) -> (r: i64)
    requires
        src.wf(),
        mb_x < src.mb_w,
        mb_y < src.mb_h,
        chroma_fits(old(planes).u@.len() as int, uv_off as int, old(planes).uv_stride as int),
        chroma_fits(old(planes).v@.len() as int, uv_off as int, old(planes).uv_stride as int),
    ensures
        ({
            let stride = old(planes).uv_stride as int;
            let pu = square(old(planes).u@, uv_off as int, stride, 8);
            let pv = square(old(planes).v@, uv_off as int, stride, 8);
            let u = add_residuals(8, pu, coeffs@, 0, 4);
            let v = add_residuals(8, pv, coeffs@, 4, 4);
            let s = src_mb(*src, mb_x as int, mb_y as int);
            &&& final(planes).u@ == blit(old(planes).u@, uv_off as int, stride, 8, u)
            &&& final(planes).v@ == blit(old(planes).v@, uv_off as int, stride, 8, v)
            &&& r == sse(s.u, u) + sse(s.v, v)
        }),
        0 <= r <= 2 * 65025 * 64,
        final(planes).y == old(planes).y,
        final(planes).y_stride == old(planes).y_stride,
        final(planes).uv_stride == old(planes).uv_stride,
{
    let at: usize = chroma_src_at(src, mb_x, mb_y);
    let stride: usize = planes.uv_stride;
    let a: i64 = chroma_plane_sse(
        &mut planes.u,
        coeffs,
        0,
        uv_off,
        stride,
        &src.u,
        at,
        src.uv_stride(),
    );
    let b: i64 = chroma_plane_sse(
        &mut planes.v,
        coeffs,
        4,
        uv_off,
        stride,
        &src.v,
        at,
        src.uv_stride(),
    );
    a + b
}

/// The perceptual distortion of the luma macroblock that the plane holds at `y_off`,
/// whose squared error is `sse`.
pub fn luma16_perceptual_disto(
    sse: i64,
    planes: &Planes,
    y_off: usize,
    src: &SourceYuv,
    mb_x: usize,
    mb_y: usize,
    plan: QuantPlan<'_>,
) -> (r: i64)
    requires
        src.wf(),
        mb_x < src.mb_w,
        mb_y < src.mb_h,
        luma_fits(planes.y@.len() as int, y_off as int, planes.y_stride as int),
        plan.quant.wf(),
        0 <= sse <= 20_000_000,
    ensures
        r == disto16_spec(
            sse as int,
            tlambda_spec(plan.sns_strength as int, plan.quant.y1.ac.q as int),
            src_mb(*src, mb_x as int, mb_y as int).y,
            square(planes.y@, y_off as int, planes.y_stride as int, 16),
        ),
        0 <= r <= 40_000_000,
{
    let t: i64 = tlambda(plan.sns_strength, plan.quant.y1.ac.q);
    let at: usize = luma_src_at(src, mb_x, mb_y);
    let sw = PlaneWindow::new(&src.y, at, src.y_stride());
    let rw = PlaneWindow::new(&planes.y, y_off, planes.y_stride);
    disto16(sse, t, &sw, &rw)
}

/// The cost of a distortion and a rate.
fn rd_cost(disto: i64, lambda: i64, bits: i64) -> (r: i64)
    requires
        0 <= disto <= 40_000_000,
        0 <= lambda <= 200_000_000,
        0 <= bits <= 20_000_000,
    ensures
        r == 256 * disto + lambda * bits,
        0 <= r <= 0x1000_0000_0000_0000,
{
    assert(0 <= lambda * bits <= 200_000_000 * 20_000_000) by (nonlinear_arith)
        requires
            0 <= lambda <= 200_000_000,
            0 <= bits <= 20_000_000,
    ;
    RD_DISTO_MULT * disto + lambda * bits
}

/// Choose the 16x16 luma mode of the macroblock at `y_off` and leave its prediction in
/// the plane.
#[verifier::rlimit(60)]
pub fn select_luma16_mode_rd(
    planes: &mut Planes,
    y_off: usize,
    src: &SourceYuv,
    mb: (usize, usize),
    has_top: bool,
    has_left: bool,
    plan: QuantPlan<'_>,
) -> (r: (u8, Luma16Encode))
    requires
        src.wf(),
        mb.0 < src.mb_w,
        mb.1 < src.mb_h,
        luma_fits(old(planes).y@.len() as int, y_off as int, old(planes).y_stride as int),
        plan.quant.wf(),
    ensures
        ({
            let stride = old(planes).y_stride as int;
            let e = luma_edge(old(planes).y@, y_off as int, stride, has_top, false);
            let s = src_mb(*src, mb.0 as int, mb.1 as int).y;
            let p = predicted(16, e, r.0, has_top, has_left);
            &&& r.0 == luma_mode(e, s, has_top, has_left, plan)
            &&& r.0 <= H_PRED
            &&& mode_available_spec(r.0, has_top, has_left)
            &&& codes_luma16(r.1, s, p, plan)
            &&& p.len() == 256
            &&& final(planes).y@ == blit(old(planes).y@, y_off as int, stride, 16, p)
        }),
        luma16_sound(r.1, plan),
        final(planes).u == old(planes).u,
        final(planes).v == old(planes).v,
        final(planes).y_stride == old(planes).y_stride,
        final(planes).uv_stride == old(planes).uv_stride,
{
    let (mb_x, mb_y) = mb;
    let stride: usize = planes.y_stride;
    let ghost off = y_off as int;
    let ghost st = stride as int;
    let ghost p0 = planes.y@;
    let ghost e = luma_edge(p0, off, st, has_top, false);
    let ghost s = src_mb(*src, mb_x as int, mb_y as int).y;
    let lambda: i64 = luma16_lambda(plan.quant.y1.ac.q);
    let mut best_mode: u8 = DC_PRED;
    // DC prediction is always available and comes first.
    let (mut best, mut best_cost) = try_luma16_mode(
        planes,
        y_off,
        src,
        mb,
        DC_PRED,
        has_top,
        has_left,
        plan,
        lambda,
    );
    proof {
        reveal_with_fuel(best_luma_mode, 2);
    }
    let mut k: usize = 1;
    while k < 4
        invariant
            1 <= k <= 4,
            off == y_off,
            st == stride,
            mb == (mb_x, mb_y),
            mb_x < src.mb_w,
            mb_y < src.mb_h,
            src.wf(),
            plan.quant.wf(),
            luma_fits(p0.len() as int, off, st),
            e == luma_edge(p0, off, st, has_top, false),
            s == src_mb(*src, mb_x as int, mb_y as int).y,
            lambda == lambda_of(3, 128, plan.quant.y1.ac.q as int),
            1 <= lambda <= 84_375_000,
            planes.y@.len() == p0.len(),
            luma_edge(planes.y@, off, st, has_top, false) == e,
            exists|b: Seq<u8>| planes.y@ == #[trigger] blit(p0, off, st, 16, b),
            planes.u == old(planes).u,
            planes.v == old(planes).v,
            planes.y_stride == stride,
            planes.y_stride == old(planes).y_stride,
            planes.uv_stride == old(planes).uv_stride,
            best_luma_mode(e, s, has_top, has_left, plan, k as int) == Some(best_mode),
            best_mode <= H_PRED,
            mode_available_spec(best_mode, has_top, has_left),
            best_cost == luma16_cost(s, predicted(16, e, best_mode, has_top, has_left), plan),
            codes_luma16(best, s, predicted(16, e, best_mode, has_top, has_left), plan),
            luma16_sound(best, plan),
        decreases 4 - k,
    {
        let mode: u8 = WHOLE_BLOCK_MODES[k];
        if mode_available(mode, has_top, has_left) {
            let ghost before = planes.y@;
            let (enc, cost) = try_luma16_mode(
                planes,
                y_off,
                src,
                mb,
                mode,
                has_top,
                has_left,
                plan,
                lambda,
            );
            proof {
                let b = choose|b: Seq<u8>| before == #[trigger] blit(p0, off, st, 16, b);
                let c = luma16_coded(s, predicted(16, e, mode, has_top, has_left), plan);
                lemma_blit_blit(p0, off, st, 16, b, c);
                lemma_luma_edge_blit(before, off, st, c, has_top, false);
            }
            if cost < best_cost {
                best_cost = cost;
                best_mode = mode;
                best = enc;
            }
        }
        k = k + 1;
    }
    proof {
        let b = choose|b: Seq<u8>| planes.y@ == #[trigger] blit(p0, off, st, 16, b);
        lemma_blit_blit(
            p0,
            off,
            st,
            16,
            b,
            predicted(16, e, best_mode, has_top, has_left),
        );
    }
    predict_luma_at(&mut planes.y, y_off, stride, best_mode, has_top, has_left);
    (best_mode, best)
}

/// Code the luma macroblock at `y_off` in one mode and measure its cost; the plane is
/// left with what it reconstructs to.
fn try_luma16_mode(
    planes: &mut Planes,
    y_off: usize,
    src: &SourceYuv,
    mb: (usize, usize),
    mode: u8,
    has_top: bool,
    has_left: bool,
    plan: QuantPlan<'_>,
    lambda: i64,
) -> (r: (Luma16Encode, i64))
    requires
        src.wf(),
        mb.0 < src.mb_w,
        mb.1 < src.mb_h,
        luma_fits(old(planes).y@.len() as int, y_off as int, old(planes).y_stride as int),
        plan.quant.wf(),
        mode <= H_PRED,
        lambda == lambda_of(3, 128, plan.quant.y1.ac.q as int),
        1 <= lambda <= 84_375_000,
    ensures
        ({
            let stride = old(planes).y_stride as int;
            let e = luma_edge(old(planes).y@, y_off as int, stride, has_top, false);
            let s = src_mb(*src, mb.0 as int, mb.1 as int).y;
            let p = predicted(16, e, mode, has_top, has_left);
            &&& codes_luma16(r.0, s, p, plan)
            &&& r.1 == luma16_cost(s, p, plan)
            &&& final(planes).y@ == blit(
                old(planes).y@,
                y_off as int,
                stride,
                16,
                luma16_coded(s, p, plan),
            )
            &&& luma_edge(final(planes).y@, y_off as int, stride, has_top, false) == e
        }),
        luma16_sound(r.0, plan),
        final(planes).u == old(planes).u,
        final(planes).v == old(planes).v,
        final(planes).y_stride == old(planes).y_stride,
        final(planes).uv_stride == old(planes).uv_stride,
{
    let stride: usize = planes.y_stride;
    let ghost off = y_off as int;
    let ghost st = stride as int;
    let ghost p0 = planes.y@;
    let ghost e = luma_edge(p0, off, st, has_top, false);
    let ghost s = src_mb(*src, mb.0 as int, mb.1 as int).y;
    let ghost p = predicted(16, e, mode, has_top, has_left);
    predict_luma_at(&mut planes.y, y_off, stride, mode, has_top, has_left);
    proof {
        assert(16 * 16 == 256);
        lemma_square_blit(p0, off, st, 16, p);
    }
    let at: usize = luma_src_at(src, mb.0, mb.1);
    let enc: Luma16Encode = encode_luma16_residual(
        &src.y,
        at,
        src.y_stride(),
        &planes.y,
        y_off,
        stride,
        plan,
    );
    let bits: i64 = I16X16_MODE_COST + luma16_token_bits(enc.y2, &enc.blocks, plan.probas);
    assert(enc.blocks@ =~= luma16_blocks(s, p, plan));
    let sse: i64 = luma16_reconstruction_sse(planes, &enc.coeffs, y_off, src, mb.0, mb.1);
    proof {
        let rec = luma16_coded(s, p, plan);
        lemma_square_blit(p0, off, st, 16, rec);
        lemma_blit_blit(p0, off, st, 16, p, rec);
        lemma_luma_edge_blit(p0, off, st, rec, has_top, false);
    }
    let disto: i64 = luma16_perceptual_disto(sse, planes, y_off, src, mb.0, mb.1, plan);
    let cost: i64 = rd_cost(disto, lambda, bits);
    (enc, cost)
}

/// Code the chroma of a macroblock in one mode and measure its cost; the planes are
/// left with what it reconstructs to.
fn try_chroma8_mode(
    planes: &mut Planes,
    uv_off: usize,
    src: &SourceYuv,
    mb: (usize, usize),
    mode: u8,
    has_top: bool,
    has_left: bool,
    plan: QuantPlan<'_>,
    lambda: i64,
) -> (r: (Chroma8Encode, i64))
    requires
        src.wf(),
        mb.0 < src.mb_w,
        mb.1 < src.mb_h,
        chroma_fits(old(planes).u@.len() as int, uv_off as int, old(planes).uv_stride as int),
        chroma_fits(old(planes).v@.len() as int, uv_off as int, old(planes).uv_stride as int),
        old(planes).uv_stride >= 9,
        plan.quant.wf(),
        mode <= H_PRED,
        lambda == lambda_of(3, 64, plan.quant.uv.ac.q as int),
        1 <= lambda <= 168_750_000,
    ensures
        ({
            let stride = old(planes).uv_stride as int;
            let off = uv_off as int;
            let ue = chroma_edge(old(planes).u@, off, stride);
            let ve = chroma_edge(old(planes).v@, off, stride);
            let s = src_mb(*src, mb.0 as int, mb.1 as int);
            let pu = predicted(8, ue, mode, has_top, has_left);
            let pv = predicted(8, ve, mode, has_top, has_left);
            &&& codes_chroma8(r.0, s.u, pu, s.v, pv, plan)
            &&& r.1 == chroma8_cost(s.u, pu, s.v, pv, plan)
            &&& final(planes).u@ == blit(
                old(planes).u@,
                off,
                stride,
                8,
                chroma8_coded(s.u, pu, plan),
            )
            &&& final(planes).v@ == blit(
                old(planes).v@,
                off,
                stride,
                8,
                chroma8_coded(s.v, pv, plan),
            )
            &&& chroma_edge(final(planes).u@, off, stride) == ue
            &&& chroma_edge(final(planes).v@, off, stride) == ve
        }),
        forall|k: int| 0 <= k < 8 ==> sound_block(#[trigger] r.0.blocks@[k], 0),
        final(planes).y == old(planes).y,
        final(planes).y_stride == old(planes).y_stride,
        final(planes).uv_stride == old(planes).uv_stride,
{
    let stride: usize = planes.uv_stride;
    let ghost off = uv_off as int;
    let ghost st = stride as int;
    let ghost u0 = planes.u@;
    let ghost v0 = planes.v@;
    let ghost s = src_mb(*src, mb.0 as int, mb.1 as int);
    let ghost pu = predicted(8, chroma_edge(u0, off, st), mode, has_top, has_left);
    let ghost pv = predicted(8, chroma_edge(v0, off, st), mode, has_top, has_left);
    predict_chroma_at(&mut planes.u, uv_off, stride, mode, has_top, has_left);
    predict_chroma_at(&mut planes.v, uv_off, stride, mode, has_top, has_left);
    proof {
        assert(8 * 8 == 64);
        lemma_square_blit(u0, off, st, 8, pu);
        lemma_square_blit(v0, off, st, 8, pv);
    }
    let at: usize = chroma_src_at(src, mb.0, mb.1);
    let enc: Chroma8Encode = encode_chroma8_residual(
        &src.u,
        &src.v,
        at,
        src.uv_stride(),
        &planes.u,
        &planes.v,
        uv_off,
        stride,
        plan,
    );
    let bits: i64 = chroma8_token_bits(&enc.blocks, plan.probas);
    assert(enc.blocks@ =~= chroma8_blocks(s.u, pu, s.v, pv, plan));
    let sse: i64 = chroma8_reconstruction_sse(planes, &enc.coeffs, uv_off, src, mb.0, mb.1);
    proof {
        lemma_chroma_halves(enc.coeffs@, s.u, pu, s.v, pv, plan);
        let ru = chroma8_coded(s.u, pu, plan);
        let rv = chroma8_coded(s.v, pv, plan);
        lemma_blit_blit(u0, off, st, 8, pu, ru);
        lemma_blit_blit(v0, off, st, 8, pv, rv);
        lemma_chroma_edge_blit(u0, off, st, ru);
        lemma_chroma_edge_blit(v0, off, st, rv);
    }
    let cost: i64 = rd_cost(sse, lambda, bits);
    (enc, cost)
}

/// The U and V residuals of a macroblock's joint chroma coefficients.
proof fn lemma_chroma_halves(
    coeffs: Seq<i16>,
    su: Seq<u8>,
    pu: Seq<u8>,
    sv: Seq<u8>,
    pv: Seq<u8>,
    plan: QuantPlan<'_>,
)
    requires
        coeffs == chroma8_coeffs(su, pu, plan) + chroma8_coeffs(sv, pv, plan),
    ensures
        add_residuals(8, pu, coeffs, 0, 4) == chroma8_coded(su, pu, plan),
        add_residuals(8, pv, coeffs, 4, 4) == chroma8_coded(sv, pv, plan),
{
    let a = chroma8_coeffs(su, pu, plan);
    let b = chroma8_coeffs(sv, pv, plan);
    assert forall|j: int| 0 <= j < 4 implies coeff_block(coeffs, 0 + j) == #[trigger] coeff_block(
        a,
        0 + j,
    ) by {
        assert(coeff_block(coeffs, 0 + j) =~= coeff_block(a, 0 + j));
    }
    lemma_add_residuals_ext(8, pu, coeffs, 0, a, 0, 4);
    assert forall|j: int| 0 <= j < 4 implies coeff_block(coeffs, 4 + j) == #[trigger] coeff_block(
        b,
        0 + j,
    ) by {
        assert(coeff_block(coeffs, 4 + j) =~= coeff_block(b, 0 + j));
    }
    lemma_add_residuals_ext(8, pv, coeffs, 4, b, 0, 4);
}

/// Choose the chroma mode of the macroblock at `uv_off` and leave its predictions in
/// the planes.
#[verifier::rlimit(60)]
pub fn select_chroma8_mode_rd(
    planes: &mut Planes,
    uv_off: usize,
    src: &SourceYuv,
    mb: (usize, usize),
    has_top: bool,
    has_left: bool,
    plan: QuantPlan<'_>,
) -> (r: (u8, Chroma8Encode))
    requires
        src.wf(),
        mb.0 < src.mb_w,
        mb.1 < src.mb_h,
        chroma_fits(old(planes).u@.len() as int, uv_off as int, old(planes).uv_stride as int),
        chroma_fits(old(planes).v@.len() as int, uv_off as int, old(planes).uv_stride as int),
        old(planes).uv_stride >= 9,
        plan.quant.wf(),
    ensures
        ({
            let stride = old(planes).uv_stride as int;
            let off = uv_off as int;
            let ue = chroma_edge(old(planes).u@, off, stride);
            let ve = chroma_edge(old(planes).v@, off, stride);
            let s = src_mb(*src, mb.0 as int, mb.1 as int);
            let pu = predicted(8, ue, r.0, has_top, has_left);
            let pv = predicted(8, ve, r.0, has_top, has_left);
            &&& r.0 == chroma_mode(ue, ve, s.u, s.v, has_top, has_left, plan)
            &&& r.0 <= H_PRED
            &&& mode_available_spec(r.0, has_top, has_left)
            &&& codes_chroma8(r.1, s.u, pu, s.v, pv, plan)
            &&& final(planes).u@ == blit(old(planes).u@, off, stride, 8, pu)
            &&& final(planes).v@ == blit(old(planes).v@, off, stride, 8, pv)
        }),
        forall|k: int| 0 <= k < 8 ==> sound_block(#[trigger] r.1.blocks@[k], 0),
        final(planes).y == old(planes).y,
        final(planes).y_stride == old(planes).y_stride,
        final(planes).uv_stride == old(planes).uv_stride,
{
    let (mb_x, mb_y) = mb;
    let stride: usize = planes.uv_stride;
    let ghost off = uv_off as int;
    let ghost st = stride as int;
    let ghost u0 = planes.u@;
    let ghost v0 = planes.v@;
    let ghost ue = chroma_edge(u0, off, st);
    let ghost ve = chroma_edge(v0, off, st);
    let ghost s = src_mb(*src, mb_x as int, mb_y as int);
    let lambda: i64 = chroma_lambda(plan.quant.uv.ac.q);
    let mut best_mode: u8 = DC_PRED;
    // DC prediction is always available and comes first.
    let (mut best, mut best_cost) = try_chroma8_mode(
        planes,
        uv_off,
        src,
        mb,
        DC_PRED,
        has_top,
        has_left,
        plan,
        lambda,
    );
    proof {
        reveal_with_fuel(best_chroma_mode, 2);
    }
    let mut k: usize = 1;
    while k < 4
        invariant
            1 <= k <= 4,
            off == uv_off,
            st == stride,
            st >= 9,
            mb == (mb_x, mb_y),
            mb_x < src.mb_w,
            mb_y < src.mb_h,
            src.wf(),
            plan.quant.wf(),
            chroma_fits(u0.len() as int, off, st),
            chroma_fits(v0.len() as int, off, st),
            ue == chroma_edge(u0, off, st),
            ve == chroma_edge(v0, off, st),
            s == src_mb(*src, mb_x as int, mb_y as int),
            lambda == lambda_of(3, 64, plan.quant.uv.ac.q as int),
            1 <= lambda <= 168_750_000,
            planes.u@.len() == u0.len(),
            planes.v@.len() == v0.len(),
            chroma_edge(planes.u@, off, st) == ue,
            chroma_edge(planes.v@, off, st) == ve,
            exists|b: Seq<u8>| planes.u@ == #[trigger] blit(u0, off, st, 8, b),
            exists|b: Seq<u8>| planes.v@ == #[trigger] blit(v0, off, st, 8, b),
            planes.y == old(planes).y,
            planes.y_stride == old(planes).y_stride,
            planes.uv_stride == stride,
            planes.uv_stride == old(planes).uv_stride,
            best_chroma_mode(ue, ve, s.u, s.v, has_top, has_left, plan, k as int) == Some(best_mode),
            best_mode <= H_PRED,
            mode_available_spec(best_mode, has_top, has_left),
            best_cost == chroma_mode_cost(ue, ve, s.u, s.v, best_mode, has_top, has_left, plan),
            codes_chroma8(
                best,
                s.u,
                predicted(8, ue, best_mode, has_top, has_left),
                s.v,
                predicted(8, ve, best_mode, has_top, has_left),
                plan,
            ),
            forall|k: int| 0 <= k < 8 ==> sound_block(#[trigger] best.blocks@[k], 0),
        decreases 4 - k,
    {
        let mode: u8 = WHOLE_BLOCK_MODES[k];
        if mode_available(mode, has_top, has_left) {
            let ghost ub = planes.u@;
            let ghost vb = planes.v@;
            let (enc, cost) = try_chroma8_mode(
                planes,
                uv_off,
                src,
                mb,
                mode,
                has_top,
                has_left,
                plan,
                lambda,
            );
            proof {
                let b = choose|b: Seq<u8>| ub == #[trigger] blit(u0, off, st, 8, b);
                let c = chroma8_coded(s.u, predicted(8, ue, mode, has_top, has_left), plan);
                lemma_blit_blit(u0, off, st, 8, b, c);
                let d = choose|b: Seq<u8>| vb == #[trigger] blit(v0, off, st, 8, b);
                let f = chroma8_coded(s.v, predicted(8, ve, mode, has_top, has_left), plan);
                lemma_blit_blit(v0, off, st, 8, d, f);
            }
            if cost < best_cost {
                best_cost = cost;
                best_mode = mode;
                best = enc;
            }
        }
        k = k + 1;
    }
    proof {
        let b = choose|b: Seq<u8>| planes.u@ == #[trigger] blit(u0, off, st, 8, b);
        lemma_blit_blit(u0, off, st, 8, b, predicted(8, ue, best_mode, has_top, has_left));
        let d = choose|b: Seq<u8>| planes.v@ == #[trigger] blit(v0, off, st, 8, b);
        lemma_blit_blit(v0, off, st, 8, d, predicted(8, ve, best_mode, has_top, has_left));
    }
    predict_chroma_at(&mut planes.u, uv_off, stride, best_mode, has_top, has_left);
    predict_chroma_at(&mut planes.v, uv_off, stride, best_mode, has_top, has_left);
    (best_mode, best)
}

} // verus!
