//! Residuals of a macroblock: transform, quantization, distortion and rate.
//!
//! Everything is stated over blocks of samples: a source block, the prediction it is
//! coded against, and what the quantized residual reconstructs to.

use vstd::prelude::*;

use crate::arith::group_shr;
use crate::block::{
    lemma_square4_sub, lemma_square_at, lemma_square_index, square, square4, square_fits, sub_block,
};
use crate::constants::{CoeffProbas, ZIGZAG};
use crate::fdct::{fdct4x4, fdct_spec, fwht, fwht_spec};
use crate::idct::transform_wht;
use crate::prob_opt::syms_cost;
use crate::quant::{consistent, level_of, quantize_block, QPair, Quantized, Quantizer};
use crate::token::{flat_dc, y2_spread, zeros};
use crate::tokens::{coeff_syms, Block};
use crate::trellis::{
    block_token_cost, signed_level, trellis_lambda, trellis_lambda_spec, trellis_mags,
    trellis_quantize_block, Problem,
};

verus! {

broadcast use group_shr;

/// How a macroblock's coefficients are quantized.
#[derive(Clone, Copy)]
pub struct QuantPlan<'a> {
    /// The quantizer of the macroblock's segment.
    pub quant: Quantizer,
    /// Whether levels are chosen by rate and distortion; to the nearest otherwise.
    pub uses_trellis: bool,
    /// The shaping strength of the luma mode decision; zero is plain squared error.
    pub sns_strength: u8,
    /// The token probabilities that rates are measured against.
    pub probas: &'a CoeffProbas,
}

/// The difference of two 4x4 blocks.
pub open spec fn residual_of(src: Seq<u8>, pred: Seq<u8>) -> Seq<i16> {
    Seq::new(16, |i: int| (src[i] - pred[i]) as i16)
}

/// The squared error of the first `n` samples.
pub open spec fn sse_upto(a: Seq<u8>, b: Seq<u8>, n: int) -> int
    decreases n,
{
    if n <= 0 {
        0
    } else {
        sse_upto(a, b, n - 1) + (a[n - 1] - b[n - 1]) * (a[n - 1] - b[n - 1])
    }
}

/// The squared error of two blocks.
pub open spec fn sse(a: Seq<u8>, b: Seq<u8>) -> int {
    sse_upto(a, b, a.len() as int)
}

/// The difference of a source block and a predicted block, both 4x4.
pub fn residual_block(
    src: &[u8],
    src_stride: usize,
    src_x: usize,
    src_y: usize,
    pred: &[u8],
    pred_off: usize,
    pred_stride: usize,
) -> (r: [i16; 16])
    requires
        square_fits(src@.len() as int, src_y * src_stride + src_x, src_stride as int, 4),
        square_fits(pred@.len() as int, pred_off as int, pred_stride as int, 4),
    ensures
        r@ == residual_of(
            square4(src@, src_y * src_stride + src_x, src_stride as int),
            square4(pred@, pred_off as int, pred_stride as int),
        ),
        forall|i: int| 0 <= i < 16 ==> -255 <= #[trigger] r@[i] <= 255,
{
    let len: usize = src.len();
    assert(0 <= src_y * src_stride) by (nonlinear_arith);
    let s: [u8; 16] = crate::block::get_square4(src, src_y * src_stride + src_x, src_stride);
    let p: [u8; 16] = crate::block::get_square4(pred, pred_off, pred_stride);
    let mut r: [i16; 16] = [0i16; 16];
    let mut i: usize = 0;
    while i < 16
        invariant
            i <= 16,
            forall|j: int| 0 <= j < i ==> #[trigger] r@[j] == s@[j] - p@[j],
            forall|j: int| 0 <= j < 16 ==> -255 <= #[trigger] r@[j] <= 255,
        decreases 16 - i,
    {
        r[i] = s[i] as i16 - p[i] as i16;
        i = i + 1;
    }
    assert(r@ =~= residual_of(s@, p@));
    r
}

/// Squared errors are bounded by the number of samples.
pub proof fn lemma_sse_range(a: Seq<u8>, b: Seq<u8>, n: int)
    requires
        0 <= n,
    ensures
        0 <= sse_upto(a, b, n) <= 65025 * n,
    decreases n,
{
    if n > 0 {
        lemma_sse_range(a, b, n - 1);
        let d = a[n - 1] - b[n - 1];
        assert(0 <= d * d <= 65025) by (nonlinear_arith)
            requires
                -255 <= d <= 255,
        ;
    }
}

/// The squared error of a `size` by `size` source block against a predicted one.
pub fn sse_block(
    src: &[u8],
    src_off: usize,
    src_stride: usize,
    pred: &[u8],
    pred_off: usize,
    pred_stride: usize,
    size: usize,
) -> (r: i64)
    requires
        square_fits(src@.len() as int, src_off as int, src_stride as int, size as int),
        square_fits(pred@.len() as int, pred_off as int, pred_stride as int, size as int),
        size <= 4096,
    ensures
        r == sse(
            square(src@, src_off as int, src_stride as int, size as int),
            square(pred@, pred_off as int, pred_stride as int, size as int),
        ),
        0 <= r <= 65025 * (size * size),
{
    let slen: usize = src.len();
    let plen: usize = pred.len();
    let ghost a = square(src@, src_off as int, src_stride as int, size as int);
    let ghost b = square(pred@, pred_off as int, pred_stride as int, size as int);
    let mut acc: i64 = 0;
    let mut row: usize = 0;
    let mut so: usize = src_off;
    let mut po: usize = pred_off;
    proof {
        assert(size * size <= 4096 * 4096) by (nonlinear_arith)
            requires
                size <= 4096,
        ;
    }
    while row < size
        invariant
            row <= size,
            size <= 4096,
            size * size <= 4096 * 4096,
            src@.len() == slen,
            pred@.len() == plen,
            square_fits(slen as int, src_off as int, src_stride as int, size as int),
            square_fits(plen as int, pred_off as int, pred_stride as int, size as int),
            a == square(src@, src_off as int, src_stride as int, size as int),
            b == square(pred@, pred_off as int, pred_stride as int, size as int),
            row < size ==> so == src_off + row * src_stride && po == pred_off + row * pred_stride,
            acc == sse_upto(a, b, row * size),
            0 <= acc <= 65025 * (row * size),
        decreases size - row,
    {
        let mut col: usize = 0;
        proof {
            lemma_square_index(slen as int, src_off as int, src_stride as int, size as int, size - 1, row as int);
            lemma_square_index(plen as int, pred_off as int, pred_stride as int, size as int, size - 1, row as int);
            assert(row * size + size <= size * size) by (nonlinear_arith)
                requires
                    row < size,
            ;
            assert(0 <= row * size) by (nonlinear_arith);
        }
        while col < size
            invariant
                col <= size,
                row < size,
                size <= 4096,
                size * size <= 4096 * 4096,
                0 <= row * size,
                row * size + size <= size * size,
                src@.len() == slen,
                pred@.len() == plen,
                so == src_off + row * src_stride,
                po == pred_off + row * pred_stride,
                so + size <= slen,
                po + size <= plen,
                a == square(src@, src_off as int, src_stride as int, size as int),
                b == square(pred@, pred_off as int, pred_stride as int, size as int),
                acc == sse_upto(a, b, row * size + col),
                0 <= acc <= 65025 * (row * size + col),
            decreases size - col,
        {
            let d: i64 = src[so + col] as i64 - pred[po + col] as i64;
            proof {
                assert(0 <= d * d <= 65025) by (nonlinear_arith)
                    requires
                        -255 <= d <= 255,
                ;
                lemma_square_at(src@, src_off as int, src_stride as int, size as int, col as int, row as int);
                lemma_square_at(pred@, pred_off as int, pred_stride as int, size as int, col as int, row as int);
            }
            acc = acc + d * d;
            col = col + 1;
        }
        row = row + 1;
        proof {
            assert(row * size == (row - 1) * size + size) by (nonlinear_arith);
        }
        if row < size {
            proof {
                lemma_square_index(slen as int, src_off as int, src_stride as int, size as int, 0, row as int);
                lemma_square_index(plen as int, pred_off as int, pred_stride as int, size as int, 0, row as int);
                assert(row * src_stride == (row - 1) * src_stride + src_stride) by (nonlinear_arith);
                assert(row * pred_stride == (row - 1) * pred_stride + pred_stride) by (nonlinear_arith);
            }
            so = so + src_stride;
            po = po + pred_stride;
        }
    }
    assert(a.len() == size * size);
    acc
}

/// The nearest levels of a block from zig-zag index `first` on.
pub open spec fn nearest_levels(coeffs: Seq<i16>, pair: QPair, first: int) -> Seq<i16> {
    Seq::new(
        16,
        |n: int|
            if n < first {
                0i16
            } else {
                level_of(pair.step(n), coeffs[ZIGZAG[n] as int] as int) as i16
            },
    )
}

/// The levels that minimize distortion and rate together.
pub open spec fn trellis_levels(pr: Problem) -> Seq<i16> {
    Seq::new(
        16,
        |n: int|
            if pr.first <= n < pr.first + trellis_mags(pr).len() {
                signed_level(pr, n, trellis_mags(pr)[n - pr.first]) as i16
            } else {
                0i16
            },
    )
}

/// The quantized block with the given levels.
pub open spec fn quantized_as(levels: Seq<i16>, pair: QPair, first: int) -> Quantized {
    choose|q: Quantized| q.levels@ == levels && consistent(q, pair, first)
}

/// The levels that a block is quantized to, for token plane `plane`.
pub open spec fn chosen_levels(
    coeffs: Seq<i16>,
    pair: QPair,
    first: int,
    plane: int,
    plan: QuantPlan<'_>,
) -> Seq<i16> {
    if plan.uses_trellis {
        trellis_levels(
            Problem {
                coeffs,
                pair,
                first,
                ctx0: 0,
                pb: plan.probas[plane],
                lambda: 2 * trellis_lambda_spec(pair.ac.q as int),
            },
        )
    } else {
        nearest_levels(coeffs, pair, first)
    }
}

/// The block that coefficients are quantized to, for token plane `plane`.
pub open spec fn quantized_block(
    coeffs: Seq<i16>,
    pair: QPair,
    first: int,
    plane: int,
    plan: QuantPlan<'_>,
) -> Quantized {
    quantized_as(chosen_levels(coeffs, pair, first, plane, plan), pair, first)
}

/// Every natural position is a zig-zag position.
pub proof fn lemma_zigzag_onto(j: int) -> (n: int)
    requires
        0 <= j < 16,
    ensures
        0 <= n < 16,
        ZIGZAG[n] == j,
{
    if j == 0 {
        0
    } else if j == 1 {
        1
    } else if j == 2 {
        5
    } else if j == 3 {
        6
    } else if j == 4 {
        2
    } else if j == 5 {
        4
    } else if j == 6 {
        7
    } else if j == 7 {
        12
    } else if j == 8 {
        3
    } else if j == 9 {
        8
    } else if j == 10 {
        11
    } else if j == 11 {
        13
    } else if j == 12 {
        9
    } else if j == 13 {
        10
    } else if j == 14 {
        14
    } else {
        15
    }
}

/// A consistent block is determined by its levels.
pub proof fn lemma_quantized_unique(a: Quantized, b: Quantized, pair: QPair, first: int)
    requires
        consistent(a, pair, first),
        consistent(b, pair, first),
        a.levels@ == b.levels@,
        0 <= first < 16,
    ensures
        a == b,
{
    assert forall|j: int| 0 <= j < 16 implies a.recon@[j] == b.recon@[j] by {
        let n = lemma_zigzag_onto(j);
        assert(a.recon@[ZIGZAG[n] as int] == (a.levels@[n] * pair.step(n)) as i16);
        assert(b.recon@[ZIGZAG[n] as int] == (b.levels@[n] * pair.step(n)) as i16);
    }
    assert(a.recon@ =~= b.recon@);
    assert(a.recon =~= b.recon);
    assert(a.levels =~= b.levels);
    if a.last < b.last {
        assert(b.last >= first);
        assert(a.levels@[b.last as int] == 0);
    }
    if b.last < a.last {
        assert(a.last >= first);
        assert(b.levels@[a.last as int] == 0);
    }
}

/// The block with a consistent block's levels is that block.
pub proof fn lemma_quantized_as(q: Quantized, pair: QPair, first: int)
    requires
        consistent(q, pair, first),
        0 <= first < 16,
    ensures
        quantized_as(q.levels@, pair, first) == q,
{
    let c = quantized_as(q.levels@, pair, first);
    assert(q.levels@ == q.levels@ && consistent(q, pair, first));
    assert(c.levels@ == q.levels@ && consistent(c, pair, first));
    lemma_quantized_unique(c, q, pair, first);
}

/// Quantize one 4x4 block for token plane `plane`, by rate and distortion or to the
/// nearest levels. By rate and distortion, a bit weighs twice the trellis multiplier of
/// the AC step.
pub fn quantize_one(
    coeffs: [i16; 16],
    pair: QPair,
    first: usize,
    plane: usize,
    plan: QuantPlan<'_>,
) -> (r: Quantized)
    requires
        pair.wf(),
        pair.dc.q <= 1024,
        pair.ac.q <= 1024,
        first < 16,
        plane < 4,
    ensures
        consistent(r, pair, first as int),
        r == quantized_block(coeffs@, pair, first as int, plane as int, plan),
{
    if plan.uses_trellis {
        proof {
            let q = pair.ac.q as int;
            assert(0 <= 7 * q * q <= 7340032) by (nonlinear_arith)
                requires
                    1 <= q <= 1024,
            ;
        }
        let lambda: i64 = 2 * trellis_lambda(pair.ac.q);
        let r: Quantized = trellis_quantize_block(
            coeffs,
            pair,
            first,
            0,
            plane,
            plan.probas,
            lambda,
        );
        proof {
            let pr = Problem {
                coeffs: coeffs@,
                pair,
                first: first as int,
                ctx0: 0,
                pb: plan.probas[plane as int],
                lambda: 2 * trellis_lambda_spec(pair.ac.q as int),
            };
            let levels = trellis_levels(pr);
            assert forall|n: int| 0 <= n < 16 implies r.levels@[n] == levels[n] by {
                let t = r.levels@[n];
            }
            assert(r.levels@ =~= levels);
            lemma_quantized_as(r, pair, first as int);
        }
        r
    } else {
        let r: Quantized = quantize_block(coeffs, pair.dc, pair.ac, first);
        proof {
            let levels = nearest_levels(coeffs@, pair, first as int);
            assert(QPair { dc: pair.dc, ac: pair.ac } == pair);
            assert forall|n: int| 0 <= n < 16 implies r.levels@[n] == levels[n] by {
                let t = r.levels@[n];
            }
            assert(r.levels@ =~= levels);
            lemma_quantized_as(r, pair, first as int);
        }
        r
    }
}

/// The token block of a quantized block.
pub open spec fn block_of(q: Quantized) -> Block {
    Block { levels: q.levels, last: q.last }
}

/// The bits of a block coded from `first` on in token plane `plane`, entered without
/// coefficients before it.
pub open spec fn block_cost(b: Block, first: int, plane: int, probas: CoeffProbas) -> int {
    syms_cost(coeff_syms(probas[plane], b.levels@, b.last as int, first, 0))
}

/// The bits of the first `k` blocks.
pub open spec fn blocks_cost(
    blocks: Seq<Block>,
    first: int,
    plane: int,
    probas: CoeffProbas,
    k: int,
) -> int
    decreases k,
{
    if k <= 0 {
        0
    } else {
        blocks_cost(blocks, first, plane, probas, k - 1) + block_cost(
            blocks[k - 1],
            first,
            plane,
            probas,
        )
    }
}

/// Whether a block's `last` is the index of a non-zero level, if it codes any.
pub open spec fn costable(b: Block, first: int) -> bool {
    -1 <= b.last < 16 && (b.last >= first ==> b.levels@[b.last as int] != 0)
}

/// The bits of a macroblock's second-order block and its sixteen luma blocks.
pub open spec fn luma16_bits(y2: Block, luma: Seq<Block>, probas: CoeffProbas) -> int {
    block_cost(y2, 0, 1, probas) + blocks_cost(luma, 1, 0, probas, 16)
}

/// The bits of a macroblock's second-order block and its sixteen luma blocks.
pub fn luma16_token_bits(y2: Block, luma: &[Block; 16], probas: &CoeffProbas) -> (r: i64)
    requires
        costable(y2, 0),
        forall|k: int| 0 <= k < 16 ==> costable(#[trigger] luma@[k], 1),
    ensures
        r == luma16_bits(y2, luma@, *probas),
        0 <= r <= 17 * 800000,
{
    let first_bits: i64 = block_token_cost(y2.levels, 0, y2.last, 1, 0, probas);
    let mut bits: i64 = 0;
    let mut k: usize = 0;
    while k < 16
        invariant
            k <= 16,
            forall|k: int| 0 <= k < 16 ==> costable(#[trigger] luma@[k], 1),
            bits == blocks_cost(luma@, 1, 0, *probas, k as int),
            0 <= bits <= k * 800000,
        decreases 16 - k,
    {
        let b: Block = luma[k];
        assert(costable(luma@[k as int], 1));
        bits = bits + block_token_cost(b.levels, 1, b.last, 0, 0, probas);
        k = k + 1;
    }
    first_bits + bits
}

/// The bits of a macroblock's eight chroma blocks.
pub fn chroma8_token_bits(chroma: &[Block; 8], probas: &CoeffProbas) -> (r: i64)
    requires
        forall|k: int| 0 <= k < 8 ==> costable(#[trigger] chroma@[k], 0),
    ensures
        r == blocks_cost(chroma@, 0, 2, *probas, 8),
        0 <= r <= 8 * 800000,
{
    let mut bits: i64 = 0;
    let mut k: usize = 0;
    while k < 8
        invariant
            k <= 8,
            forall|k: int| 0 <= k < 8 ==> costable(#[trigger] chroma@[k], 0),
            bits == blocks_cost(chroma@, 0, 2, *probas, k as int),
            0 <= bits <= k * 800000,
        decreases 8 - k,
    {
        let b: Block = chroma[k];
        assert(costable(chroma@[k as int], 0));
        bits = bits + block_token_cost(b.levels, 0, b.last, 2, 0, probas);
        k = k + 1;
    }
    bits
}

/// The transformed residual of sub-block `k` of an `n` by `n` block.
pub open spec fn sub_dct(s: Seq<u8>, p: Seq<u8>, n: int, k: int) -> Seq<i16> {
    fdct_spec(residual_of(sub_block(s, n, k), sub_block(p, n, k)))
}

/// The DC coefficients of a macroblock's sixteen luma sub-blocks.
pub open spec fn luma_dcs(s: Seq<u8>, p: Seq<u8>) -> Seq<i16> {
    Seq::new(16, |k: int| sub_dct(s, p, 16, k)[0])
}

/// The second-order block of a 16x16-predicted macroblock.
pub open spec fn y2_quantized(s: Seq<u8>, p: Seq<u8>, plan: QuantPlan<'_>) -> Quantized {
    quantized_block(fwht_spec(luma_dcs(s, p)), plan.quant.y2, 0, 1, plan)
}

/// Luma sub-block `k` of a 16x16-predicted macroblock, without its DC coefficient.
pub open spec fn ac_quantized(s: Seq<u8>, p: Seq<u8>, plan: QuantPlan<'_>, k: int) -> Quantized {
    quantized_block(sub_dct(s, p, 16, k), plan.quant.y1, 1, 0, plan)
}

/// The luma coefficients of a 16x16-predicted macroblock: the DC ones from the
/// second-order block.
pub open spec fn luma16_coeffs(s: Seq<u8>, p: Seq<u8>, plan: QuantPlan<'_>) -> Seq<i16> {
    let y2 = y2_quantized(s, p, plan);
    Seq::new(
        256,
        |i: int|
            if i % 16 == 0 {
                y2_spread(y2.last + 1, y2.recon@)[i]
            } else {
                ac_quantized(s, p, plan, i / 16).recon@[i % 16]
            },
    )
}

/// A coded 16x16-predicted luma macroblock.
pub struct Luma16Encode {
    /// The coefficients its levels stand for.
    pub coeffs: [i16; 256],
    /// The second-order block.
    pub y2: Block,
    /// The sixteen luma blocks.
    pub blocks: [Block; 16],
}

/// Whether `r` codes the source block `s` against the prediction `p`.
pub open spec fn codes_luma16(r: Luma16Encode, s: Seq<u8>, p: Seq<u8>, plan: QuantPlan<'_>) -> bool {
    &&& r.coeffs@ == luma16_coeffs(s, p, plan)
    &&& r.y2 == block_of(y2_quantized(s, p, plan))
    &&& forall|k: int| 0 <= k < 16 ==> #[trigger] r.blocks@[k] == block_of(ac_quantized(s, p, plan, k))
}

/// Whether the blocks of a coded macroblock can be measured and emitted.
pub open spec fn luma16_sound(r: Luma16Encode, plan: QuantPlan<'_>) -> bool {
    &&& sound_block(r.y2, 0)
    &&& forall|k: int| 0 <= k < 16 ==> sound_block(#[trigger] r.blocks@[k], 1)
}

/// Whether a block is zero below `first` and behind `last`, within the level range, and
/// `last` is the index of a non-zero level or `first - 1`.
pub open spec fn sound_block(b: Block, first: int) -> bool {
    &&& forall|n: int| 0 <= n < first ==> #[trigger] b.levels@[n] == 0
    &&& forall|n: int| 0 <= n < 16 ==> -2047 <= #[trigger] b.levels@[n] <= 2047
    &&& first - 1 <= b.last < 16
    &&& (b.last >= first ==> b.levels@[b.last as int] != 0)
    &&& forall|n: int| b.last < n < 16 && 0 <= n ==> #[trigger] b.levels@[n] == 0
}

/// Where a macroblock's source samples start.
pub open spec fn src_off(stride: int, n: int, mb_x: int, mb_y: int) -> int {
    mb_y * n * stride + mb_x * n
}

/// A macroblock of the grid lies in the source planes.
pub proof fn lemma_src_fits(mb_w: int, mb_h: int, n: int, mb_x: int, mb_y: int)
    requires
        0 <= mb_x < mb_w,
        0 <= mb_y < mb_h,
        n == 8 || n == 16,
    ensures
        square_fits((mb_w * n) * (mb_h * n), src_off(mb_w * n, n, mb_x, mb_y), mb_w * n, n),
        0 <= mb_y * n * (mb_w * n),
{
    let s = mb_w * n;
    let r = mb_y * n;
    assert(0 <= mb_x * n && mb_x * n + n <= s) by (nonlinear_arith)
        requires
            0 <= mb_x,
            mb_x + 1 <= mb_w,
            s == mb_w * n,
            n >= 8,
    ;
    assert(0 <= r && r + n <= mb_h * n) by (nonlinear_arith)
        requires
            0 <= mb_y,
            mb_y + 1 <= mb_h,
            r == mb_y * n,
            n >= 8,
    ;
    assert(0 <= r * s && r * s + n * s <= s * (mb_h * n)) by (nonlinear_arith)
        requires
            0 <= r,
            r + n <= mb_h * n,
            s >= 8,
    ;
    assert((n - 1) * s + s == n * s) by (nonlinear_arith);
}

/// Transform and quantize the luma of a 16x16-predicted macroblock: `src_at` is its
/// corner in the source plane, `pred_at` in the plane that holds its prediction.
#[verifier::rlimit(60)]
pub fn encode_luma16_residual(
    src: &[u8],
    src_at: usize,
    src_stride: usize,
    pred: &[u8],
    pred_at: usize,
    pred_stride: usize,
    plan: QuantPlan<'_>,
) -> (r: Luma16Encode)
    requires
        plan.quant.wf(),
        square_fits(src@.len() as int, src_at as int, src_stride as int, 16),
        square_fits(pred@.len() as int, pred_at as int, pred_stride as int, 16),
    ensures
        codes_luma16(
            r,
            square(src@, src_at as int, src_stride as int, 16),
            square(pred@, pred_at as int, pred_stride as int, 16),
            plan,
        ),
        luma16_sound(r, plan),
{
    let ghost s = square(src@, src_at as int, src_stride as int, 16);
    let ghost p = square(pred@, pred_at as int, pred_stride as int, 16);
    let slen: usize = src.len();
    let plen: usize = pred.len();
    let mut dct: [[i16; 16]; 16] = [[0i16; 16]; 16];
    let mut dcs: [i16; 16] = [0i16; 16];
    let mut n: usize = 0;
    while n < 16
        invariant
            n <= 16,
            src@.len() == slen,
            pred@.len() == plen,
            s == square(src@, src_at as int, src_stride as int, 16),
            p == square(pred@, pred_at as int, pred_stride as int, 16),
            square_fits(slen as int, src_at as int, src_stride as int, 16),
            square_fits(plen as int, pred_at as int, pred_stride as int, 16),
            forall|k: int| 0 <= k < n ==> (#[trigger] dct@[k])@ == sub_dct(s, p, 16, k),
            forall|k: int| 0 <= k < n ==> #[trigger] dcs@[k] == sub_dct(s, p, 16, k)[0],
        decreases 16 - n,
    {
        let r: [i16; 16] = sub_residual16(src, src_at, src_stride, pred, pred_at, pred_stride, n);
        let c: [i16; 16] = fdct4x4(r);
        dct[n] = c;
        dcs[n] = c[0];
        n = n + 1;
    }
    assert(dcs@ =~= luma_dcs(s, p));
    let y2: Quantized = quantize_one(fwht(dcs), plan.quant.y2, 0, 1, plan);
    let mut all: [i16; 384] = [0i16; 384];
    assert(all@ =~= zeros(384));
    if y2.last + 1 > 1 {
        transform_wht(y2.recon, &mut all);
    } else {
        let dc: i16 = ((y2.recon[0] as i32 + 3) >> 3) as i16;
        let mut b: usize = 0;
        while b < 16
            invariant
                b <= 16,
                forall|i: int|
                    0 <= i < 384 ==> #[trigger] all@[i] == (if i < 16 * b && i % 16 == 0 {
                        dc
                    } else {
                        0
                    }),
            decreases 16 - b,
        {
            all[b * 16] = dc;
            b = b + 1;
        }
        assert(all@ =~= flat_dc(dc));
    }
    assert(all@ == y2_spread(y2.last + 1, y2.recon@));
    let ghost spread = all@;
    let mut blocks: [Block; 16] = [Block { levels: [0i16; 16], last: 0 };16];
    let mut coeffs: [i16; 256] = [0i16; 256];
    let mut n: usize = 0;
    while n < 16
        invariant
            n <= 16,
            plan.quant.wf(),
            spread == all@,
            forall|k: int| 0 <= k < 16 ==> (#[trigger] dct@[k])@ == sub_dct(s, p, 16, k),
            forall|k: int|
                0 <= k < n ==> #[trigger] blocks@[k] == block_of(ac_quantized(s, p, plan, k)),
            forall|k: int| 0 <= k < n ==> sound_block(#[trigger] blocks@[k], 1),
            forall|i: int|
                0 <= i < 16 * n ==> #[trigger] coeffs@[i] == (if i % 16 == 0 {
                    spread[i]
                } else {
                    ac_quantized(s, p, plan, i / 16).recon@[i % 16]
                }),
        decreases 16 - n,
    {
        let q: Quantized = quantize_one(dct[n], plan.quant.y1, 1, 0, plan);
        assert(q == ac_quantized(s, p, plan, n as int));
        blocks[n] = Block { levels: q.levels, last: q.last };
        coeffs[16 * n] = all[16 * n];
        let mut i: usize = 1;
        while i < 16
            invariant
                1 <= i <= 16,
                n < 16,
                spread == all@,
                q == ac_quantized(s, p, plan, n as int),
                forall|j: int|
                    0 <= j < 16 * n + i ==> #[trigger] coeffs@[j] == (if j % 16 == 0 {
                        spread[j]
                    } else {
                        ac_quantized(s, p, plan, j / 16).recon@[j % 16]
                    }),
            decreases 16 - i,
        {
            coeffs[16 * n + i] = q.recon[i];
            proof {
                let j = 16 * n + i;
                assert(j / 16 == n && j % 16 == i);
            }
            i = i + 1;
        }
        n = n + 1;
    }
    assert(coeffs@ =~= luma16_coeffs(s, p, plan));
    Luma16Encode { coeffs, y2: Block { levels: y2.levels, last: y2.last }, blocks }
}

/// The residual of luma sub-block `k`.
fn sub_residual16(
    src: &[u8],
    src_at: usize,
    src_stride: usize,
    pred: &[u8],
    pred_at: usize,
    pred_stride: usize,
    k: usize,
) -> (r: [i16; 16])
    requires
        k < 16,
        square_fits(src@.len() as int, src_at as int, src_stride as int, 16),
        square_fits(pred@.len() as int, pred_at as int, pred_stride as int, 16),
    ensures
        r@ == residual_of(
            sub_block(square(src@, src_at as int, src_stride as int, 16), 16, k as int),
            sub_block(square(pred@, pred_at as int, pred_stride as int, 16), 16, k as int),
        ),
        forall|i: int| 0 <= i < 16 ==> -255 <= #[trigger] r@[i] <= 255,
{
    let slen: usize = src.len();
    let plen: usize = pred.len();
    proof {
        assert((16int / 4) * (16int / 4) == 16);
        lemma_square4_sub(src@, src_at as int, src_stride as int, 16, k as int);
        lemma_square4_sub(pred@, pred_at as int, pred_stride as int, 16, k as int);
    }
    let so: usize = crate::reconstruct::sub_offset(src_at, src_stride, k, Ghost(slen as int));
    let po: usize = crate::reconstruct::sub_offset(pred_at, pred_stride, k, Ghost(plen as int));
    residual_at(src, so, src_stride, pred, po, pred_stride)
}

/// The residual of chroma sub-block `k`.
fn sub_residual8(
    src: &[u8],
    src_at: usize,
    src_stride: usize,
    pred: &[u8],
    pred_at: usize,
    pred_stride: usize,
    k: usize,
) -> (r: [i16; 16])
    requires
        k < 4,
        square_fits(src@.len() as int, src_at as int, src_stride as int, 8),
        square_fits(pred@.len() as int, pred_at as int, pred_stride as int, 8),
    ensures
        r@ == residual_of(
            sub_block(square(src@, src_at as int, src_stride as int, 8), 8, k as int),
            sub_block(square(pred@, pred_at as int, pred_stride as int, 8), 8, k as int),
        ),
        forall|i: int| 0 <= i < 16 ==> -255 <= #[trigger] r@[i] <= 255,
{
    let slen: usize = src.len();
    let plen: usize = pred.len();
    proof {
        assert((8int / 4) * (8int / 4) == 4);
        lemma_square4_sub(src@, src_at as int, src_stride as int, 8, k as int);
        lemma_square4_sub(pred@, pred_at as int, pred_stride as int, 8, k as int);
    }
    let so: usize = crate::reconstruct::chroma_sub_offset(src_at, src_stride, k, Ghost(slen as int));
    let po: usize = crate::reconstruct::chroma_sub_offset(pred_at, pred_stride, k, Ghost(plen as int));
    residual_at(src, so, src_stride, pred, po, pred_stride)
}

/// The residual of the 4x4 blocks at two offsets.
pub fn residual_at(
    src: &[u8],
    src_at: usize,
    src_stride: usize,
    pred: &[u8],
    pred_at: usize,
    pred_stride: usize,
) -> (r: [i16; 16])
    requires
        square_fits(src@.len() as int, src_at as int, src_stride as int, 4),
        square_fits(pred@.len() as int, pred_at as int, pred_stride as int, 4),
    ensures
        r@ == residual_of(
            square4(src@, src_at as int, src_stride as int),
            square4(pred@, pred_at as int, pred_stride as int),
        ),
        forall|i: int| 0 <= i < 16 ==> -255 <= #[trigger] r@[i] <= 255,
{
    assert(0 * src_stride == 0);
    residual_block(src, src_stride, src_at, 0, pred, pred_at, pred_stride)
}

/// Chroma sub-block `k` of one plane.
pub open spec fn chroma_quantized(s: Seq<u8>, p: Seq<u8>, plan: QuantPlan<'_>, k: int) -> Quantized {
    quantized_block(sub_dct(s, p, 8, k), plan.quant.uv, 0, 2, plan)
}

/// The coefficients of one chroma plane's block.
pub open spec fn chroma8_coeffs(s: Seq<u8>, p: Seq<u8>, plan: QuantPlan<'_>) -> Seq<i16> {
    Seq::new(64, |i: int| chroma_quantized(s, p, plan, i / 16).recon@[i % 16])
}

/// A coded macroblock's chroma.
pub struct Chroma8Encode {
    /// The coefficients its levels stand for, U then V.
    pub coeffs: [i16; 128],
    /// The four U blocks, then the four V blocks.
    pub blocks: [Block; 8],
}

/// Whether `r` codes the U and V source blocks against their predictions.
pub open spec fn codes_chroma8(
    r: Chroma8Encode,
    su: Seq<u8>,
    pu: Seq<u8>,
    sv: Seq<u8>,
    pv: Seq<u8>,
    plan: QuantPlan<'_>,
) -> bool {
    &&& r.coeffs@ == chroma8_coeffs(su, pu, plan) + chroma8_coeffs(sv, pv, plan)
    &&& forall|k: int|
        0 <= k < 8 ==> #[trigger] r.blocks@[k] == block_of(
            if k < 4 {
                chroma_quantized(su, pu, plan, k)
            } else {
                chroma_quantized(sv, pv, plan, k - 4)
            },
        )
}

/// Transform and quantize one chroma plane's block.
fn encode_chroma_plane(
    src: &[u8],
    src_at: usize,
    src_stride: usize,
    pred: &[u8],
    pred_at: usize,
    pred_stride: usize,
    plan: QuantPlan<'_>,
) -> (r: [Quantized; 4])
    requires
        plan.quant.wf(),
        square_fits(src@.len() as int, src_at as int, src_stride as int, 8),
        square_fits(pred@.len() as int, pred_at as int, pred_stride as int, 8),
    ensures
        forall|k: int|
            0 <= k < 4 ==> #[trigger] r@[k] == chroma_quantized(
                square(src@, src_at as int, src_stride as int, 8),
                square(pred@, pred_at as int, pred_stride as int, 8),
                plan,
                k,
            ),
        forall|k: int| 0 <= k < 4 ==> consistent(#[trigger] r@[k], plan.quant.uv, 0),
{
    let r0: [i16; 16] = sub_residual8(src, src_at, src_stride, pred, pred_at, pred_stride, 0);
    let r1: [i16; 16] = sub_residual8(src, src_at, src_stride, pred, pred_at, pred_stride, 1);
    let r2: [i16; 16] = sub_residual8(src, src_at, src_stride, pred, pred_at, pred_stride, 2);
    let r3: [i16; 16] = sub_residual8(src, src_at, src_stride, pred, pred_at, pred_stride, 3);
    [
        quantize_one(fdct4x4(r0), plan.quant.uv, 0, 2, plan),
        quantize_one(fdct4x4(r1), plan.quant.uv, 0, 2, plan),
        quantize_one(fdct4x4(r2), plan.quant.uv, 0, 2, plan),
        quantize_one(fdct4x4(r3), plan.quant.uv, 0, 2, plan),
    ]
}

/// Transform and quantize a macroblock's chroma: `src_at` is its corner in the source
/// planes, `pred_at` in the planes that hold its prediction.
#[verifier::rlimit(60)]
pub fn encode_chroma8_residual(
    src_u: &[u8],
    src_v: &[u8],
    src_at: usize,
    src_stride: usize,
    pred_u: &[u8],
    pred_v: &[u8],
    pred_at: usize,
    pred_stride: usize,
    plan: QuantPlan<'_>,
) -> (r: Chroma8Encode)
    requires
        plan.quant.wf(),
        square_fits(src_u@.len() as int, src_at as int, src_stride as int, 8),
        square_fits(src_v@.len() as int, src_at as int, src_stride as int, 8),
        square_fits(pred_u@.len() as int, pred_at as int, pred_stride as int, 8),
        square_fits(pred_v@.len() as int, pred_at as int, pred_stride as int, 8),
    ensures
        codes_chroma8(
            r,
            square(src_u@, src_at as int, src_stride as int, 8),
            square(pred_u@, pred_at as int, pred_stride as int, 8),
            square(src_v@, src_at as int, src_stride as int, 8),
            square(pred_v@, pred_at as int, pred_stride as int, 8),
            plan,
        ),
        forall|k: int| 0 <= k < 8 ==> sound_block(#[trigger] r.blocks@[k], 0),
{
    let ghost su = square(src_u@, src_at as int, src_stride as int, 8);
    let ghost pu = square(pred_u@, pred_at as int, pred_stride as int, 8);
    let ghost sv = square(src_v@, src_at as int, src_stride as int, 8);
    let ghost pv = square(pred_v@, pred_at as int, pred_stride as int, 8);
    let u: [Quantized; 4] = encode_chroma_plane(
        src_u,
        src_at,
        src_stride,
        pred_u,
        pred_at,
        pred_stride,
        plan,
    );
    let v: [Quantized; 4] = encode_chroma_plane(
        src_v,
        src_at,
        src_stride,
        pred_v,
        pred_at,
        pred_stride,
        plan,
    );
    let mut blocks: [Block; 8] = [Block { levels: [0i16; 16], last: 0 };8];
    let mut coeffs: [i16; 128] = [0i16; 128];
    let ghost want = chroma8_coeffs(su, pu, plan) + chroma8_coeffs(sv, pv, plan);
    let mut k: usize = 0;
    while k < 8
        invariant
            k <= 8,
            want == chroma8_coeffs(su, pu, plan) + chroma8_coeffs(sv, pv, plan),
            forall|j: int| 0 <= j < 4 ==> #[trigger] u@[j] == chroma_quantized(su, pu, plan, j),
            forall|j: int| 0 <= j < 4 ==> #[trigger] v@[j] == chroma_quantized(sv, pv, plan, j),
            forall|j: int| 0 <= j < 4 ==> consistent(#[trigger] u@[j], plan.quant.uv, 0),
            forall|j: int| 0 <= j < 4 ==> consistent(#[trigger] v@[j], plan.quant.uv, 0),
            forall|j: int|
                0 <= j < k ==> #[trigger] blocks@[j] == block_of(
                    if j < 4 {
                        chroma_quantized(su, pu, plan, j)
                    } else {
                        chroma_quantized(sv, pv, plan, j - 4)
                    },
                ),
            forall|j: int| 0 <= j < k ==> sound_block(#[trigger] blocks@[j], 0),
            forall|i: int| 0 <= i < 16 * k ==> #[trigger] coeffs@[i] == want[i],
        decreases 8 - k,
    {
        let q: Quantized = if k < 4 {
            u[k]
        } else {
            v[k - 4]
        };
        proof {
            if k < 4 {
                assert(consistent(u@[k as int], plan.quant.uv, 0));
            } else {
                assert(consistent(v@[k - 4], plan.quant.uv, 0));
            }
        }
        blocks[k] = Block { levels: q.levels, last: q.last };
        let mut i: usize = 0;
        while i < 16
            invariant
                i <= 16,
                k < 8,
                want == chroma8_coeffs(su, pu, plan) + chroma8_coeffs(sv, pv, plan),
                q == (if k < 4 {
                    chroma_quantized(su, pu, plan, k as int)
                } else {
                    chroma_quantized(sv, pv, plan, k - 4)
                }),
                forall|j: int| 0 <= j < 16 * k + i ==> #[trigger] coeffs@[j] == want[j],
            decreases 16 - i,
        {
            coeffs[16 * k + i] = q.recon[i];
            proof {
                let j = 16 * k + i;
                if k < 4 {
                    assert(j / 16 == k && j % 16 == i);
                } else {
                    assert((j - 64) / 16 == k - 4 && (j - 64) % 16 == i);
                }
            }
            i = i + 1;
        }
        k = k + 1;
    }
    assert(coeffs@ =~= want);
    Chroma8Encode { coeffs, blocks }
}

} // verus!
