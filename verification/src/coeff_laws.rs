//! What a macroblock's tokens dequantize to.
//!
//! Every block that the planner quantizes is consistent, so the coefficients that a
//! reader dequantizes from a plan's tokens are those the planner reconstructed with.

use vstd::prelude::*;

use crate::constants::ZIGZAG;
use crate::decode::QuantMatrix;
use crate::block::sub_block;
use crate::fdct::{fdct_spec, fwht_spec};
use crate::i4_search::{i4_edge_at, i4_mode, i4_quant_at};
use crate::predict::block4;
use crate::plan::{MbPlan, PlanInput};
use crate::quant::{consistent, lemma_zigzag, QPair, Quantized};
use crate::residual::{
    ac_quantized, block_of, chosen_levels, chroma_quantized, lemma_quantized_as, luma_dcs,
    residual_of, sub_dct, lemma_zigzag_onto, quantized_as, quantized_block, y2_quantized, QuantPlan,
};
use crate::coder::{dec_after, decodes, lemma_decodes_concat, DecState};
use crate::constants::CoeffProbas;
use crate::token::{
    chroma_read, dequant, luma_read, mb_read, nz_code, uv_code, y2_read, y2_spread, zeros,
};
use crate::token_laws::{
    block_end, block_ok, block_read_inverts, chroma_coeffs, chroma_read_inverts, dequantized,
    luma_coeffs, luma_read_inverts, mb_coeffs, mb_ok, y2_coeffs,
};
use crate::tokens::{
    block_flags, block_syms, chroma_ctx, chroma_syms, lemma_chroma_ctx_prefix, lemma_luma_ctx_prefix,
    luma_ctx, luma_first, luma_syms, luma_type, mb_syms, y2_syms, Block,
};
use crate::trellis::{
    is_candidate, lemma_mags, lemma_nearest, signed_level, trellis_lambda_spec, trellis_mags, Problem,
};

verus! {

/// Whether levels are zero below `first`, codable, and stand for coefficients that fit.
pub open spec fn levels_fit(levels: Seq<i16>, pair: QPair, first: int) -> bool {
    &&& levels.len() == 16
    &&& forall|n: int| 0 <= n < first ==> #[trigger] levels[n] == 0
    &&& forall|n: int| 0 <= n < 16 ==> -2047 <= #[trigger] levels[n] <= 2047
    &&& forall|n: int| 0 <= n < 16 ==> -34000 <= #[trigger] levels[n] * pair.step(n) <= 34000
}

/// The steps that a macroblock is quantized with.
pub open spec fn pair_ok(pair: QPair) -> bool {
    pair.wf() && pair.dc.q <= 1024 && pair.ac.q <= 1024
}

proof fn lemma_signed_level(pr: Problem, n: int, m: int)
    requires
        pr.wf(),
        0 <= n < 16,
        is_candidate(pr, n, m),
    ensures
        -2047 <= signed_level(pr, n, m) <= 2047,
        -34000 <= signed_level(pr, n, m) * pr.pair.step(n) <= 34000,
{
    let c = choose|c: int| 0 <= c < pr.cand_count(n) && m == #[trigger] pr.cand(n, c);
    lemma_nearest(pr, n, c);
    let q = pr.pair.step(n);
    assert((-m) * q == -(m * q)) by (nonlinear_arith);
}

/// The levels that a block is quantized to fit.
proof fn lemma_chosen_fit(coeffs: Seq<i16>, pair: QPair, first: int, plane: int, plan: QuantPlan<'_>)
    requires
        coeffs.len() == 16,
        pair_ok(pair),
        0 <= first < 16,
    ensures
        levels_fit(chosen_levels(coeffs, pair, first, plane, plan), pair, first),
{
    let q = pair.ac.q as int;
    assert(0 <= 7 * q * q <= 7 * 1024 * 1024) by (nonlinear_arith)
        requires
            1 <= q <= 1024,
    ;
    let pr = Problem {
        coeffs,
        pair,
        first,
        ctx0: 0,
        pb: plan.probas[plane],
        lambda: 2 * trellis_lambda_spec(q),
    };
    assert(pr.wf());
    let levels = chosen_levels(coeffs, pair, first, plane, plan);
    assert forall|n: int| 0 <= n < 16 implies -2047 <= #[trigger] levels[n] <= 2047 && -34000
        <= levels[n] * pair.step(n) <= 34000 by {
        assert(0 * pair.step(n) == 0) by (nonlinear_arith);
        if plan.uses_trellis {
            lemma_mags(pr, n - first);
            if first <= n < first + trellis_mags(pr).len() {
                assert(is_candidate(pr, pr.first + (n - first), trellis_mags(pr)[n - first]));
                lemma_signed_level(pr, n, trellis_mags(pr)[n - first]);
            }
        } else if n >= first {
            assert(is_candidate(pr, n, pr.nearest(n))) by {
                lemma_zigzag(n, 0);
                assert(pr.cand(n, 0) == pr.nearest(n));
                lemma_nearest_sign(pr, n);
            }
            lemma_signed_level(pr, n, pr.nearest(n));
        }
    }
}

proof fn lemma_nearest_sign(pr: Problem, n: int)
    requires
        pr.wf(),
        0 <= n < 16,
    ensures
        0 <= pr.nearest(n),
{
    lemma_zigzag(n, 0);
    let q = pr.pair.step(n);
    let a = pr.mag_of(n);
    let iq = (131072 + q / 2) / q;
    assert(0 <= iq) by (nonlinear_arith)
        requires
            iq == (131072 + q / 2) / q,
            1 <= q,
    ;
    assert(0 <= a * iq) by (nonlinear_arith)
        requires
            0 <= a,
            0 <= iq,
    ;
}

/// The index of the last non-zero level among the first `n`, or `first - 1`.
spec fn last_of(levels: Seq<i16>, first: int, n: int) -> int
    decreases n - first,
{
    if n <= first {
        first - 1
    } else if levels[n - 1] != 0 {
        n - 1
    } else {
        last_of(levels, first, n - 1)
    }
}

proof fn lemma_last_of(levels: Seq<i16>, first: int, n: int)
    requires
        first <= n <= 16,
    ensures
        first - 1 <= last_of(levels, first, n) < n || (n == first && last_of(levels, first, n) == first - 1),
        last_of(levels, first, n) >= first ==> levels[last_of(levels, first, n)] != 0,
        forall|i: int| last_of(levels, first, n) < i < n && first <= i ==> #[trigger] levels[i] == 0,
    decreases n - first,
{
    if n > first && levels[n - 1] == 0 {
        lemma_last_of(levels, first, n - 1);
    }
}

/// Levels that fit are those of a consistent block.
proof fn lemma_quantized_exists(levels: Seq<i16>, pair: QPair, first: int)
    requires
        levels_fit(levels, pair, first),
        0 <= first < 16,
    ensures
        consistent(quantized_as(levels, pair, first), pair, first),
        quantized_as(levels, pair, first).levels@ == levels,
{
    let f = |n: int| (levels[n] * pair.step(n)) as i16;
    let l: [i16; 16] = [
        levels[0], levels[1], levels[2], levels[3], levels[4], levels[5], levels[6], levels[7],
        levels[8], levels[9], levels[10], levels[11], levels[12], levels[13], levels[14], levels[15],
    ];
    let r: [i16; 16] = [
        f(0), f(1), f(5), f(6), f(2), f(4), f(7), f(12), f(3), f(8), f(11), f(13), f(9), f(10), f(14), f(15),
    ];
    assert(l@ =~= levels);
    lemma_last_of(levels, first, 16);
    let q = Quantized { levels: l, recon: r, last: last_of(levels, first, 16) as i32 };
    assert forall|n: int| 0 <= n < 16 implies q.recon@[ZIGZAG[n] as int] == (#[trigger] q.levels@[n]
        * pair.step(n)) as i16 by {
        assert(q.recon@[ZIGZAG[n] as int] == f(n));
    }
    assert(consistent(q, pair, first));
    lemma_quantized_as(q, pair, first);
}

/// A small non-zero number stays non-zero in sixteen bits.
proof fn lemma_kept(x: int)
    requires
        -34000 <= x <= 34000,
    ensures
        x as i16 != 0 <==> x != 0,
{
    let v = x as i32;
    assert(v as i16 != 0 <==> v != 0) by (bit_vector)
        requires
            -34000 <= v <= 34000,
    ;
}

/// A quantized block is consistent, and its non-zero levels stand for non-zero
/// coefficients.
pub proof fn quantized_blocks_are_consistent(
    coeffs: Seq<i16>,
    pair: QPair,
    first: int,
    plane: int,
    plan: QuantPlan<'_>,
)
    requires
        coeffs.len() == 16,
        pair_ok(pair),
        0 <= first < 16,
    ensures
        is_exact(quantized_block(coeffs, pair, first, plane, plan), pair, first),
{
    let levels = chosen_levels(coeffs, pair, first, plane, plan);
    lemma_chosen_fit(coeffs, pair, first, plane, plan);
    lemma_quantized_exists(levels, pair, first);
    let q = quantized_block(coeffs, pair, first, plane, plan);
    assert forall|n: int| 0 <= n < 16 implies (#[trigger] q.levels@[n] != 0 <==> q.recon@[ZIGZAG[n] as int] != 0) by {
        let s = pair.step(n);
        let v = q.levels@[n] as int;
        assert(q.levels@[n] == levels[n]);
        assert(-34000 <= v * s <= 34000);
        assert(v != 0 ==> v * s != 0) by (nonlinear_arith)
            requires
                1 <= s,
        ;
        assert(v == 0 ==> v * s == 0) by (nonlinear_arith);
        lemma_kept(v * s);
    }
}

/// Whether a block is consistent and no level is lost to the range of a coefficient.
pub open spec fn is_exact(q: Quantized, pair: QPair, first: int) -> bool {
    &&& consistent(q, pair, first)
    &&& forall|n: int|
        0 <= n < 16 ==> (#[trigger] q.levels@[n] != 0 <==> q.recon@[ZIGZAG[n] as int] != 0)
}

/// What one dequantized level holds: the level times its step if it is read and not
/// zero, what was there otherwise. Nothing outside the block changes.
proof fn lemma_dequantized_at(levels: Seq<i16>, dq: [i32; 2], off: int, n: int, out: Seq<i16>)
    requires
        0 <= n <= 16,
        0 <= off,
        off + 16 <= out.len(),
    ensures
        dequantized(levels, dq, off, n, out).len() == out.len(),
        forall|m: int|
            0 <= m < 16 ==> dequantized(levels, dq, off, n, out)[off + #[trigger] ZIGZAG[m]] == (if m >= n
                && levels[m] != 0 {
                dequant(levels[m] as int, dq, m)
            } else {
                out[off + ZIGZAG[m]]
            }),
        forall|i: int|
            0 <= i < out.len() && !(off <= i < off + 16) ==> #[trigger] dequantized(
                levels,
                dq,
                off,
                n,
                out,
            )[i] == out[i],
    decreases 16 - n,
{
    if n < 16 {
        lemma_zigzag(n, 0);
        let next = if levels[n] == 0 {
            out
        } else {
            out.update(off + ZIGZAG[n], dequant(levels[n] as int, dq, n))
        };
        lemma_dequantized_at(levels, dq, off, n + 1, next);
        assert forall|m: int| 0 <= m < 16 implies dequantized(levels, dq, off, n, out)[off
            + #[trigger] ZIGZAG[m]] == (if m >= n && levels[m] != 0 {
            dequant(levels[m] as int, dq, m)
        } else {
            out[off + ZIGZAG[m]]
        }) by {
            lemma_zigzag(m, n);
            assert(dequantized(levels, dq, off, n + 1, next)[off + ZIGZAG[m]] == (if m >= n + 1
                && levels[m] != 0 {
                dequant(levels[m] as int, dq, m)
            } else {
                next[off + ZIGZAG[m]]
            }));
        }
    } else {
        assert forall|m: int| 0 <= m < 16 implies dequantized(levels, dq, off, n, out)[off
            + #[trigger] ZIGZAG[m]] == out[off + ZIGZAG[m]] by {}
    }
}

/// A consistent block dequantizes to its coefficients.
proof fn lemma_block_recon(
    q: Quantized,
    pair: QPair,
    dq: [i32; 2],
    first: int,
    off: int,
    out: Seq<i16>,
)
    requires
        consistent(q, pair, first),
        pair.is_steps(dq),
        0 <= first <= 1,
        0 <= off,
        off + 16 <= out.len(),
        forall|j: int| first <= j < 16 ==> #[trigger] out[off + j] == 0,
    ensures
        ({
            let r = dequantized(q.levels@, dq, off, first, out);
            &&& r.len() == out.len()
            &&& forall|j: int| first <= j < 16 ==> #[trigger] r[off + j] == q.recon@[j]
            &&& (first == 1 ==> r[off] == out[off])
            &&& forall|i: int| 0 <= i < out.len() && !(off <= i < off + 16) ==> #[trigger] r[i] == out[i]
        }),
{
    let r = dequantized(q.levels@, dq, off, first, out);
    lemma_dequantized_at(q.levels@, dq, off, first, out);
    assert forall|j: int| first <= j < 16 implies #[trigger] r[off + j] == q.recon@[j] by {
        let n = lemma_zigzag_onto(j);
        let s = pair.step(n);
        assert(r[off + ZIGZAG[n]] == r[off + j]);
        assert(q.recon@[ZIGZAG[n] as int] == (q.levels@[n] * s) as i16);
        assert(0 * s == 0) by (nonlinear_arith);
        assert(out[off + j] == 0);
        if n == 0 {
            assert(j == 0);
        }
    }
    if first == 1 {
        assert(r[off + ZIGZAG[0]] == out[off + ZIGZAG[0]]);
    }
}

/// The coefficients of the first `k` luma blocks: the blocks' own from `first` on, what
/// was there before elsewhere.
proof fn lemma_luma_recon(
    qs: Seq<Quantized>,
    blocks: Seq<Block>,
    pair: QPair,
    dq: [i32; 2],
    first: int,
    out: Seq<i16>,
    k: int,
)
    requires
        0 <= k <= 16,
        qs.len() == 16,
        blocks.len() == 16,
        forall|i: int| 0 <= i < 16 ==> #[trigger] blocks[i] == block_of(qs[i]),
        forall|i: int| 0 <= i < 16 ==> consistent(#[trigger] qs[i], pair, first),
        pair.is_steps(dq),
        0 <= first <= 1,
        out.len() == 384,
        forall|i: int| 0 <= i < 256 && i % 16 >= first ==> #[trigger] out[i] == 0,
    ensures
        ({
            let r = luma_coeffs(blocks, dq, first, out, k);
            &&& r.len() == 384
            &&& forall|i: int|
                0 <= i < 384 ==> #[trigger] r[i] == (if i < 16 * k && i % 16 >= first {
                    qs[i / 16].recon@[i % 16]
                } else {
                    out[i]
                })
        }),
    decreases k,
{
    if k > 0 {
        let t = k - 1;
        let before = luma_coeffs(blocks, dq, first, out, t);
        lemma_luma_recon(qs, blocks, pair, dq, first, out, t);
        assert(blocks[t] == block_of(qs[t]));
        assert forall|j: int| first <= j < 16 implies #[trigger] before[16 * t + j] == 0 by {
            assert((16 * t + j) % 16 == j);
        }
        lemma_block_recon(qs[t], pair, dq, first, 16 * t, before);
        let r = luma_coeffs(blocks, dq, first, out, k);
        assert forall|i: int| 0 <= i < 384 implies #[trigger] r[i] == (if i < 16 * k && i % 16 >= first {
            qs[i / 16].recon@[i % 16]
        } else {
            out[i]
        }) by {
            if 16 * t <= i < 16 * t + 16 {
                let j = i - 16 * t;
                assert(i % 16 == j && i / 16 == t);
                assert(r[16 * t + j] == r[i]);
            }
        }
    }
}

/// The coefficients of the first `k` chroma blocks.
proof fn lemma_chroma_recon(
    qs: Seq<Quantized>,
    blocks: Seq<Block>,
    pair: QPair,
    dq: [i32; 2],
    out: Seq<i16>,
    k: int,
)
    requires
        0 <= k <= 8,
        qs.len() == 8,
        blocks.len() == 8,
        forall|i: int| 0 <= i < 8 ==> #[trigger] blocks[i] == block_of(qs[i]),
        forall|i: int| 0 <= i < 8 ==> consistent(#[trigger] qs[i], pair, 0),
        pair.is_steps(dq),
        out.len() == 384,
        forall|i: int| 256 <= i < 384 ==> #[trigger] out[i] == 0,
    ensures
        ({
            let r = chroma_coeffs(blocks, dq, out, k);
            &&& r.len() == 384
            &&& forall|i: int|
                0 <= i < 384 ==> #[trigger] r[i] == (if 256 <= i < 256 + 16 * k {
                    qs[(i - 256) / 16].recon@[i % 16]
                } else {
                    out[i]
                })
        }),
    decreases k,
{
    if k > 0 {
        let t = k - 1;
        let off = 256 + 16 * t;
        let before = chroma_coeffs(blocks, dq, out, t);
        lemma_chroma_recon(qs, blocks, pair, dq, out, t);
        assert(blocks[t] == block_of(qs[t]));
        assert forall|j: int| 0 <= j < 16 implies #[trigger] before[off + j] == 0 by {}
        lemma_block_recon(qs[t], pair, dq, 0, off, before);
        let r = chroma_coeffs(blocks, dq, out, k);
        assert forall|i: int| 0 <= i < 384 implies #[trigger] r[i] == (if 256 <= i < 256 + 16 * k {
            qs[(i - 256) / 16].recon@[i % 16]
        } else {
            out[i]
        }) by {
            if off <= i < off + 16 {
                let j = i - off;
                assert(i % 16 == j && (i - 256) / 16 == t);
                assert(r[off + j] == r[i]);
            }
        }
    }
}

/// The quantized luma blocks of a macroblock.
pub open spec fn luma_quants(i: PlanInput<'_>) -> Seq<Quantized> {
    Seq::new(
        16,
        |k: int|
            if i.is_i4x4() {
                i4_quant_at(i.edges.y, i.src.y, i.plan, k)
            } else {
                ac_quantized(i.src.y, i.luma_pred(), i.plan, k)
            },
    )
}

/// The quantized chroma blocks of a macroblock.
pub open spec fn chroma_quants(i: PlanInput<'_>) -> Seq<Quantized> {
    Seq::new(
        8,
        |k: int|
            if k < 4 {
                chroma_quantized(i.src.u, i.u_pred(), i.plan, k)
            } else {
                chroma_quantized(i.src.v, i.v_pred(), i.plan, k - 4)
            },
    )
}

/// Every quantized block of a macroblock is exact.
pub proof fn lemma_quants_exact(i: PlanInput<'_>)
    requires
        i.plan.quant.wf(),
    ensures
        is_exact(y2_quantized(i.src.y, i.luma_pred(), i.plan), i.plan.quant.y2, 0),
        forall|k: int|
            0 <= k < 16 ==> is_exact(
                #[trigger] luma_quants(i)[k],
                i.plan.quant.y1,
                luma_first(i.is_i4x4()),
            ),
        forall|k: int| 0 <= k < 8 ==> is_exact(#[trigger] chroma_quants(i)[k], i.plan.quant.uv, 0),
{
    let s = i.src.y;
    let p = i.luma_pred();
    quantized_blocks_are_consistent(fwht_spec(luma_dcs(s, p)), i.plan.quant.y2, 0, 1, i.plan);
    assert forall|k: int| 0 <= k < 16 implies is_exact(
        #[trigger] luma_quants(i)[k],
        i.plan.quant.y1,
        luma_first(i.is_i4x4()),
    ) by {
        if i.is_i4x4() {
            let edge = i4_edge_at(i.edges.y, s, i.plan, k);
            let b = sub_block(s, 16, k);
            let c = fdct_spec(residual_of(b, block4(i4_mode(edge, b), edge)));
            quantized_blocks_are_consistent(c, i.plan.quant.y1, 0, 3, i.plan);
        } else {
            quantized_blocks_are_consistent(sub_dct(s, p, 16, k), i.plan.quant.y1, 1, 0, i.plan);
        }
    }
    assert forall|k: int| 0 <= k < 8 implies is_exact(
        #[trigger] chroma_quants(i)[k],
        i.plan.quant.uv,
        0,
    ) by {
        let c = if k < 4 {
            sub_dct(i.src.u, i.u_pred(), 8, k)
        } else {
            sub_dct(i.src.v, i.v_pred(), 8, k - 4)
        };
        quantized_blocks_are_consistent(c, i.plan.quant.uv, 0, 2, i.plan);
    }
}

/// The luma DC slots that the second-order block stands for.
proof fn lemma_y2_recon(i: PlanInput<'_>, p: MbPlan, m: QuantMatrix)
    requires
        i.is_plan(p),
        i.plan.quant.wf(),
        i.plan.quant.matches(m),
    ensures
        ({
            let r = y2_coeffs(p.tokens, m.y2);
            let y2 = y2_quantized(i.src.y, i.luma_pred(), i.plan);
            &&& r.len() == 384
            &&& forall|j: int| 0 <= j < 384 && (j >= 256 || j % 16 != 0) ==> #[trigger] r[j] == 0
            &&& (i.is_i4x4() ==> r == zeros(384))
            &&& (!i.is_i4x4() ==> r == y2_spread(y2.last + 1, y2.recon@))
        }),
{
    if !i.is_i4x4() {
        let y2 = y2_quantized(i.src.y, i.luma_pred(), i.plan);
        lemma_quants_exact(i);
        let out = zeros(16);
        assert forall|j: int| 0 <= j < 16 implies #[trigger] out[0 + j] == 0 by {}
        lemma_block_recon(y2, i.plan.quant.y2, m.y2, 0, 0, out);
        let d = dequantized(p.tokens.y2.levels@, m.y2, 0, 0, out);
        assert forall|j: int| 0 <= j < 16 implies d[j] == y2.recon@[j] by {
            assert(d[0 + j] == y2.recon@[j]);
        }
        assert(d =~= y2.recon@);
    }
}

/// The coefficients that a reader dequantizes from a plan's tokens are those the planner
/// reconstructs with.
pub proof fn plan_dequantizes(i: PlanInput<'_>, p: MbPlan, m: QuantMatrix)
    requires
        i.is_plan(p),
        i.plan.quant.wf(),
        i.plan.quant.matches(m),
    ensures
        mb_coeffs(p.tokens, m) == i.coeffs(),
{
    lemma_quants_exact(i);
    lemma_y2_recon(i, p, m);
    let first = luma_first(i.is_i4x4());
    let base = y2_coeffs(p.tokens, m.y2);
    let lq = luma_quants(i);
    let cq = chroma_quants(i);
    lemma_plan_blocks(i, p);
    lemma_luma_recon(lq, p.tokens.luma@, i.plan.quant.y1, m.y1, first, base, 16);
    let luma = luma_coeffs(p.tokens.luma@, m.y1, first, base, 16);
    lemma_chroma_recon(cq, p.tokens.chroma@, i.plan.quant.uv, m.uv, luma, 8);
    let r = mb_coeffs(p.tokens, m);
    assert forall|j: int| 0 <= j < 384 implies r[j] == i.coeffs()[j] by {
        if j < 256 {
            assert(r[j] == luma[j]);
            assert(i.coeffs()[j] == i.luma_coeffs()[j]);
        } else if j < 320 {
            assert((j - 256) % 16 == j % 16);
        } else {
            assert((j - 320) % 16 == j % 16 && (j - 320) / 16 == (j - 256) / 16 - 4);
        }
    }
    assert(r =~= i.coeffs());
}

/// Whether the sixteen coefficients from `off` on are zero.
pub open spec fn is_clear(c: Seq<i16>, off: int) -> bool {
    forall|j: int| 0 <= j < 16 ==> #[trigger] c[off + j] == 0
}

/// A block whose last level is its first, and whose DC coefficient is zero, has no
/// coefficients; and the other way round.
proof fn lemma_block_clear(q: Quantized, pair: QPair, first: int, c: Seq<i16>, off: int)
    requires
        is_exact(q, pair, first),
        0 <= first <= 1,
        forall|j: int| first <= j < 16 ==> #[trigger] c[off + j] == q.recon@[j],
    ensures
        is_clear(c, off) <==> block_end(block_of(q), first) <= 1 && c[off] == 0,
{
    if block_end(block_of(q), first) <= 1 && c[off] == 0 {
        assert forall|j: int| 0 <= j < 16 implies #[trigger] c[off + j] == 0 by {
            if j > 0 {
                let n = lemma_zigzag_onto(j);
                lemma_zigzag(n, 0);
                assert(q.levels@[n] == 0);
                assert(c[off + j] == q.recon@[j]);
            }
        }
    }
    if block_end(block_of(q), first) > 1 {
        let n = q.last as int;
        lemma_zigzag(n, 0);
        let j = ZIGZAG[n] as int;
        assert(q.levels@[n] != 0);
        assert(c[off + j] == q.recon@[j]);
    }
    if c[off] != 0 {
        assert(c[off + 0] != 0);
    }
}

/// Whether the first `k` luma blocks have no coefficients, by their codes.
pub open spec fn luma_clear(
    blocks: Seq<Block>,
    dq: [i32; 2],
    first: int,
    coeffs: Seq<i16>,
    k: int,
) -> bool {
    forall|t: int|
        0 <= t < k ==> block_end(#[trigger] blocks[t], first) <= 1 && luma_coeffs(
            blocks,
            dq,
            first,
            coeffs,
            t + 1,
        )[16 * t] == 0
}

/// The luma codes that a reader gathers are zero if no block has coefficients.
proof fn lemma_luma_code(
    d: DecState,
    bands: CoeffProbas,
    dq: [i32; 2],
    is_i4x4: bool,
    blocks: Seq<Block>,
    top: Seq<bool>,
    left: Seq<bool>,
    coeffs: Seq<i16>,
    k: int,
)
    requires
        0 <= k <= 16,
        blocks.len() == 16,
        forall|i: int| 0 <= i < 16 ==> block_ok(#[trigger] blocks[i], luma_first(is_i4x4)),
        decodes(d, luma_syms(bands, luma_type(is_i4x4), blocks, luma_first(is_i4x4), top, left, k)),
    ensures
        ({
            let r = luma_read(d, bands, dq, is_i4x4, top, left, coeffs, k);
            &&& 0 <= r.code
            &&& (r.code == 0 <==> luma_clear(blocks, dq, luma_first(is_i4x4), coeffs, k))
        }),
    decreases k,
{
    let first = luma_first(is_i4x4);
    let plane = luma_type(is_i4x4);
    let flags = block_flags(blocks, first);
    if k > 0 {
        let t = k - 1;
        let head = luma_syms(bands, plane, blocks, first, top, left, t);
        let ctx = luma_ctx(flags, top, left, t);
        let tail = block_syms(bands, plane, ctx, blocks[t], first);
        lemma_decodes_concat(d, head, tail);
        lemma_luma_code(d, bands, dq, is_i4x4, blocks, top, left, coeffs, t);
        luma_read_inverts(d, bands, dq, is_i4x4, blocks, top, left, coeffs, t);
        let r = luma_read(d, bands, dq, is_i4x4, top, left, coeffs, t);
        lemma_luma_ctx_prefix(r.flags, flags, top, left, t);
        block_read_inverts(r.d, bands, plane, dq, 16 * t, blocks[t], first, ctx, r.coeffs);
        let end = block_end(blocks[t], first);
        let out = luma_coeffs(blocks, dq, first, coeffs, t + 1);
        let next = luma_read(d, bands, dq, is_i4x4, top, left, coeffs, k);
        assert(next.code == 4 * r.code + nz_code(end, out[16 * t] != 0));
        if luma_clear(blocks, dq, first, coeffs, k) {
            assert(block_end(blocks[t], first) <= 1);
            assert forall|u: int| 0 <= u < t implies block_end(#[trigger] blocks[u], first) <= 1
                && luma_coeffs(blocks, dq, first, coeffs, u + 1)[16 * u] == 0 by {}
        }
        if next.code == 0 {
            assert forall|u: int| 0 <= u < k implies block_end(#[trigger] blocks[u], first) <= 1
                && luma_coeffs(blocks, dq, first, coeffs, u + 1)[16 * u] == 0 by {
                if u < t {
                    assert(luma_clear(blocks, dq, first, coeffs, t));
                }
            }
        }
    }
}

/// Whether the first `k` chroma blocks have no coefficients, by their codes.
pub open spec fn chroma_clear(blocks: Seq<Block>, dq: [i32; 2], coeffs: Seq<i16>, k: int) -> bool {
    forall|t: int|
        0 <= t < k ==> block_end(#[trigger] blocks[t], 0) <= 1 && chroma_coeffs(
            blocks,
            dq,
            coeffs,
            t + 1,
        )[256 + 16 * t] == 0
}

/// The chroma codes that a reader gathers are zero if no block has coefficients.
proof fn lemma_chroma_code(
    d: DecState,
    bands: CoeffProbas,
    dq: [i32; 2],
    blocks: Seq<Block>,
    top: Seq<bool>,
    left: Seq<bool>,
    coeffs: Seq<i16>,
    k: int,
)
    requires
        0 <= k <= 8,
        blocks.len() == 8,
        forall|i: int| 0 <= i < 8 ==> block_ok(#[trigger] blocks[i], 0),
        decodes(d, chroma_syms(bands, blocks, top, left, k)),
    ensures
        ({
            let r = chroma_read(d, bands, dq, top, left, coeffs, k);
            &&& 0 <= r.code
            &&& (r.code == 0 <==> chroma_clear(blocks, dq, coeffs, k))
        }),
    decreases k,
{
    let flags = block_flags(blocks, 0);
    if k > 0 {
        let t = k - 1;
        let head = chroma_syms(bands, blocks, top, left, t);
        let ctx = chroma_ctx(flags, top, left, t);
        let tail = block_syms(bands, 2, ctx, blocks[t], 0);
        lemma_decodes_concat(d, head, tail);
        lemma_chroma_code(d, bands, dq, blocks, top, left, coeffs, t);
        chroma_read_inverts(d, bands, dq, blocks, top, left, coeffs, t);
        let r = chroma_read(d, bands, dq, top, left, coeffs, t);
        lemma_chroma_ctx_prefix(r.flags, flags, top, left, t);
        block_read_inverts(r.d, bands, 2, dq, 256 + 16 * t, blocks[t], 0, ctx, r.coeffs);
        let end = block_end(blocks[t], 0);
        let out = chroma_coeffs(blocks, dq, coeffs, t + 1);
        let next = chroma_read(d, bands, dq, top, left, coeffs, k);
        assert(next.code == 4 * r.code + nz_code(end, out[256 + 16 * t] != 0));
        if chroma_clear(blocks, dq, coeffs, k) {
            assert(block_end(blocks[t], 0) <= 1);
            assert forall|u: int| 0 <= u < t implies block_end(#[trigger] blocks[u], 0) <= 1
                && chroma_coeffs(blocks, dq, coeffs, u + 1)[256 + 16 * u] == 0 by {}
        }
        if next.code == 0 {
            assert forall|u: int| 0 <= u < k implies block_end(#[trigger] blocks[u], 0) <= 1
                && chroma_coeffs(blocks, dq, coeffs, u + 1)[256 + 16 * u] == 0 by {
                if u < t {
                    assert(chroma_clear(blocks, dq, coeffs, t));
                }
            }
        }
    }
}

/// The blocks' codes tell whether a macroblock has coefficients.
pub proof fn codes_tell_residual(
    d: DecState,
    bands: CoeffProbas,
    i: PlanInput<'_>,
    p: MbPlan,
    m: QuantMatrix,
    top: Seq<bool>,
    left: Seq<bool>,
    dc_ctx: int,
)
    requires
        i.is_plan(p),
        i.plan.quant.wf(),
        i.plan.quant.matches(m),
        mb_ok(p.tokens),
        decodes(d, mb_syms(bands, p.tokens, top, left, dc_ctx)),
    ensures
        ({
            let r = mb_read(d, bands, m, p.is_i4x4, top, left, dc_ctx);
            (r.luma.code == 0 && uv_code(r.chroma.code) == 0) <==> !p.has_residual
        }),
{
    let mb = p.tokens;
    let first = luma_first(mb.is_i4x4);
    let s1 = y2_syms(bands, mb, dc_ctx);
    let s2 = luma_syms(bands, luma_type(mb.is_i4x4), mb.luma@, first, top, left, 16);
    let s3 = chroma_syms(bands, mb.chroma@, top, left, 8);
    lemma_decodes_concat(d, s1 + s2, s3);
    lemma_decodes_concat(d, s1, s2);
    if !mb.is_i4x4 {
        block_read_inverts(d, bands, 1, m.y2, 0, mb.y2, 0, dc_ctx, zeros(16));
    }
    let (dc_nz, base, d1) = y2_read(d, bands, m.y2, mb.is_i4x4, dc_ctx);
    assert(d1 == dec_after(d, s1));
    assert(base == y2_coeffs(mb, m.y2));
    luma_read_inverts(d1, bands, m.y1, mb.is_i4x4, mb.luma@, top, left, base, 16);
    lemma_luma_code(d1, bands, m.y1, mb.is_i4x4, mb.luma@, top, left, base, 16);
    let l = luma_read(d1, bands, m.y1, mb.is_i4x4, top, left, base, 16);
    lemma_chroma_code(l.d, bands, m.uv, mb.chroma@, top, left, l.coeffs, 8);
    let ch = chroma_read(l.d, bands, m.uv, top, left, l.coeffs, 8);
    assert(uv_code(ch.code) == 0 <==> ch.code == 0);
    plan_dequantizes(i, p, m);
    lemma_clear_blocks(i, p, m);
    let c = i.coeffs();
    if luma_clear(mb.luma@, m.y1, first, base, 16) && chroma_clear(mb.chroma@, m.uv, l.coeffs, 8) {
        assert forall|j: int| 0 <= j < c.len() implies #[trigger] c[j] == 0 by {
            let t = j / 16;
            assert(is_clear(c, 16 * t));
            assert(c[16 * t + j % 16] == 0);
        }
    } else {
        let t = choose|t: int| 0 <= t < 24 && !#[trigger] is_clear(c, 16 * t);
        let j = choose|j: int| 0 <= j < 16 && #[trigger] c[16 * t + j] != 0;
        assert(c[16 * t + j] != 0);
    }
}

/// The token blocks of a plan are those of the quantized blocks.
proof fn lemma_plan_blocks(i: PlanInput<'_>, p: MbPlan)
    requires
        i.is_plan(p),
    ensures
        forall|k: int| 0 <= k < 16 ==> #[trigger] p.tokens.luma@[k] == block_of(luma_quants(i)[k]),
        forall|k: int| 0 <= k < 8 ==> #[trigger] p.tokens.chroma@[k] == block_of(chroma_quants(i)[k]),
{
    assert forall|k: int| 0 <= k < 16 implies #[trigger] p.tokens.luma@[k] == block_of(
        luma_quants(i)[k],
    ) by {
        assert(i.luma_blocks()[k] == block_of(luma_quants(i)[k]));
    }
    assert forall|k: int| 0 <= k < 8 implies #[trigger] p.tokens.chroma@[k] == block_of(
        chroma_quants(i)[k],
    ) by {
        assert(i.chroma_blocks()[k] == block_of(chroma_quants(i)[k]));
    }
}

proof fn lemma_luma_clear_at(
    qs: Seq<Quantized>,
    blocks: Seq<Block>,
    pair: QPair,
    dq: [i32; 2],
    first: int,
    out: Seq<i16>,
    c: Seq<i16>,
    t: int,
)
    requires
        0 <= t < 16,
        qs.len() == 16,
        blocks.len() == 16,
        forall|i: int| 0 <= i < 16 ==> #[trigger] blocks[i] == block_of(qs[i]),
        forall|i: int| 0 <= i < 16 ==> is_exact(#[trigger] qs[i], pair, first),
        pair.is_steps(dq),
        0 <= first <= 1,
        out.len() == 384,
        forall|i: int| 0 <= i < 256 && i % 16 >= first ==> #[trigger] out[i] == 0,
        forall|i: int| 0 <= i < 256 ==> #[trigger] c[i] == luma_coeffs(blocks, dq, first, out, 16)[i],
    ensures
        is_clear(c, 16 * t) <==> block_end(blocks[t], first) <= 1 && luma_coeffs(
            blocks,
            dq,
            first,
            out,
            t + 1,
        )[16 * t] == 0,
{
    lemma_luma_recon(qs, blocks, pair, dq, first, out, 16);
    lemma_luma_recon(qs, blocks, pair, dq, first, out, t + 1);
    assert((16 * t) % 16 == 0 && (16 * t) / 16 == t);
    assert(c[16 * t] == luma_coeffs(blocks, dq, first, out, 16)[16 * t]);
    assert forall|j: int| first <= j < 16 implies #[trigger] c[16 * t + j] == qs[t].recon@[j] by {
        assert((16 * t + j) % 16 == j && (16 * t + j) / 16 == t);
    }
    lemma_block_clear(qs[t], pair, first, c, 16 * t);
}

/// The code of luma block `t` is zero if and only if the block is clear.
proof fn lemma_luma_block_clear(i: PlanInput<'_>, p: MbPlan, m: QuantMatrix, t: int)
    requires
        i.is_plan(p),
        i.plan.quant.wf(),
        i.plan.quant.matches(m),
        0 <= t < 16,
    ensures
        ({
            let first = luma_first(p.tokens.is_i4x4);
            let base = y2_coeffs(p.tokens, m.y2);
            is_clear(i.coeffs(), 16 * t) <==> block_end(p.tokens.luma@[t], first) <= 1 && luma_coeffs(
                p.tokens.luma@,
                m.y1,
                first,
                base,
                t + 1,
            )[16 * t] == 0
        }),
{
    lemma_quants_exact(i);
    lemma_y2_recon(i, p, m);
    lemma_plan_blocks(i, p);
    plan_dequantizes(i, p, m);
    let mb = p.tokens;
    let first = luma_first(mb.is_i4x4);
    let base = y2_coeffs(mb, m.y2);
    let luma = luma_coeffs(mb.luma@, m.y1, first, base, 16);
    let lq = luma_quants(i);
    let c = i.coeffs();
    lemma_luma_recon(lq, mb.luma@, i.plan.quant.y1, m.y1, first, base, 16);
    lemma_chroma_recon(chroma_quants(i), mb.chroma@, i.plan.quant.uv, m.uv, luma, 8);
    assert forall|j: int| 0 <= j < 256 implies #[trigger] c[j] == luma[j] by {}
    lemma_luma_clear_at(lq, mb.luma@, i.plan.quant.y1, m.y1, first, base, c, t);
}

/// The code of chroma block `t` is zero if and only if the block is clear.
proof fn lemma_chroma_block_clear(i: PlanInput<'_>, p: MbPlan, m: QuantMatrix, t: int)
    requires
        i.is_plan(p),
        i.plan.quant.wf(),
        i.plan.quant.matches(m),
        0 <= t < 8,
    ensures
        ({
            let first = luma_first(p.tokens.is_i4x4);
            let luma = luma_coeffs(p.tokens.luma@, m.y1, first, y2_coeffs(p.tokens, m.y2), 16);
            is_clear(i.coeffs(), 16 * (t + 16)) <==> block_end(p.tokens.chroma@[t], 0) <= 1
                && chroma_coeffs(p.tokens.chroma@, m.uv, luma, t + 1)[256 + 16 * t] == 0
        }),
{
    lemma_quants_exact(i);
    lemma_y2_recon(i, p, m);
    lemma_plan_blocks(i, p);
    plan_dequantizes(i, p, m);
    let mb = p.tokens;
    let first = luma_first(mb.is_i4x4);
    let base = y2_coeffs(mb, m.y2);
    let luma = luma_coeffs(mb.luma@, m.y1, first, base, 16);
    let cq = chroma_quants(i);
    let c = i.coeffs();
    lemma_luma_recon(luma_quants(i), mb.luma@, i.plan.quant.y1, m.y1, first, base, 16);
    lemma_chroma_recon(cq, mb.chroma@, i.plan.quant.uv, m.uv, luma, 8);
    lemma_chroma_recon(cq, mb.chroma@, i.plan.quant.uv, m.uv, luma, t + 1);
    let off = 16 * (t + 16);
    assert forall|j: int| 0 <= j < 16 implies #[trigger] c[off + j] == cq[t].recon@[j] by {
        assert((off + j) % 16 == j && (off + j - 256) / 16 == t);
    }
    assert(c[off + 0] == cq[t].recon@[0]);
    lemma_block_clear(cq[t], i.plan.quant.uv, 0, c, off);
}

/// The codes of all blocks are zero if and only if every block is clear.
proof fn lemma_clear_blocks(i: PlanInput<'_>, p: MbPlan, m: QuantMatrix)
    requires
        i.is_plan(p),
        i.plan.quant.wf(),
        i.plan.quant.matches(m),
    ensures
        ({
            let mb = p.tokens;
            let first = luma_first(mb.is_i4x4);
            let base = y2_coeffs(mb, m.y2);
            let luma = luma_coeffs(mb.luma@, m.y1, first, base, 16);
            (luma_clear(mb.luma@, m.y1, first, base, 16) && chroma_clear(mb.chroma@, m.uv, luma, 8))
                <==> forall|t: int| 0 <= t < 24 ==> #[trigger] is_clear(i.coeffs(), 16 * t)
        }),
{
    let mb = p.tokens;
    let first = luma_first(mb.is_i4x4);
    let base = y2_coeffs(mb, m.y2);
    let luma = luma_coeffs(mb.luma@, m.y1, first, base, 16);
    let c = i.coeffs();
    if luma_clear(mb.luma@, m.y1, first, base, 16) && chroma_clear(mb.chroma@, m.uv, luma, 8) {
        assert forall|t: int| 0 <= t < 24 implies #[trigger] is_clear(c, 16 * t) by {
            if t < 16 {
                assert(block_end(mb.luma@[t], first) <= 1);
                lemma_luma_block_clear(i, p, m, t);
            } else {
                assert(block_end(mb.chroma@[t - 16], 0) <= 1);
                lemma_chroma_block_clear(i, p, m, t - 16);
            }
        }
    }
    if forall|t: int| 0 <= t < 24 ==> #[trigger] is_clear(c, 16 * t) {
        assert forall|t: int| 0 <= t < 16 implies block_end(#[trigger] mb.luma@[t], first) <= 1
            && luma_coeffs(mb.luma@, m.y1, first, base, t + 1)[16 * t] == 0 by {
            assert(is_clear(c, 16 * t));
            lemma_luma_block_clear(i, p, m, t);
        }
        assert forall|t: int| 0 <= t < 8 implies block_end(#[trigger] mb.chroma@[t], 0) <= 1
            && chroma_coeffs(mb.chroma@, m.uv, luma, t + 1)[256 + 16 * t] == 0 by {
            assert(is_clear(c, 16 * (t + 16)));
            lemma_chroma_block_clear(i, p, m, t);
        }
    }
}

/// A macroblock that codes no coefficient reconstructs from the prediction alone.
pub proof fn skippable_has_no_coefficients(i: PlanInput<'_>, p: MbPlan)
    requires
        i.is_plan(p),
        i.plan.quant.wf(),
        p.skippable,
    ensures
        i.coeffs() == zeros(384),
{
    lemma_quants_exact(i);
    let c = i.coeffs();
    let y2 = y2_quantized(i.src.y, i.luma_pred(), i.plan);
    lemma_no_levels(y2, i.plan.quant.y2, 0);
    assert(y2.recon@[0] == 0);
    assert forall|j: int| 0 <= j < 384 implies c[j] == 0 by {
        if j < 256 {
            let t = j / 16;
            assert(i.luma_blocks()[t] == block_of(luma_quants(i)[t]));
            assert(p.tokens.luma@[t].last < 1);
            lemma_no_levels(luma_quants(i)[t], i.plan.quant.y1, 1);
            assert(c[j] == i.luma_coeffs()[j]);
        } else {
            let t = (j - 256) / 16;
            assert(i.chroma_blocks()[t] == block_of(chroma_quants(i)[t]));
            assert(p.tokens.chroma@[t].last < 0);
            lemma_no_levels(chroma_quants(i)[t], i.plan.quant.uv, 0);
            if j < 320 {
                assert(c[j] == chroma_quants(i)[t].recon@[(j - 256) % 16]);
            } else {
                assert((j - 320) / 16 == t - 4);
                assert(c[j] == chroma_quants(i)[t].recon@[(j - 320) % 16]);
            }
        }
    }
    assert(c =~= zeros(384));
}

proof fn lemma_no_levels(q: Quantized, pair: QPair, first: int)
    requires
        is_exact(q, pair, first),
        0 <= first <= 1,
        q.last < first,
    ensures
        forall|j: int| 0 <= j < 16 ==> #[trigger] q.recon@[j] == 0,
{
    assert forall|j: int| 0 <= j < 16 implies #[trigger] q.recon@[j] == 0 by {
        let n = lemma_zigzag_onto(j);
        assert(q.levels@[n] == 0);
    }
}

} // verus!
