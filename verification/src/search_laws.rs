//! What the searches weigh, and what a plan says of its macroblock.

use vstd::prelude::*;

use crate::perceptual::{hadamard_row, tdisto4_spec, tdisto_upto, texture, texture_upto, widen};
use crate::plan::{MbPlan, PlanInput};
use crate::prob_opt::{bit_cost_spec, syms_cost};
use crate::coder::Sym;
use crate::constants::entropy_cost;
use crate::i4_search::{i4_bits, i4_upto};
use crate::mode_search::{
    chroma8_blocks, chroma8_cost, luma16_blocks, luma16_coded, luma16_cost, luma_disto,
};
use crate::quant::{level_mag, QPair};
use crate::recon_block::add_residuals;
use crate::residual::{
    block_cost, block_of, blocks_cost, chosen_levels, chroma8_coeffs, luma16_coeffs, nearest_levels,
    sse, trellis_levels, y2_quantized, QuantPlan,
};
use crate::segment::{
    activities, activity_of, alpha_of, bin_at, bin_count, cluster_count, last_bin, max_bin,
    tree_prob_spec, tree_probs_of,
};
use crate::rgb_to_yuv::SourceYuv;
use crate::transform_laws::signed;
use crate::trellis::Problem;

verus! {

/// The levels that the search tries for a coefficient: the nearest, one less, and none, as
/// far as they differ; their error is that of what they reconstruct to, weighed by place.
pub proof fn levels_that_are_tried(pr: Problem, n: int, m: int)
    requires
        0 <= n < 16,
    ensures
        ({
            let c = pr.coeffs[crate::quant_laws::place(n)] as int;
            let size = if c < 0 {
                -c
            } else {
                c
            };
            let q = if n == 0 {
                pr.pair.dc.q as int
            } else {
                pr.pair.ac.q as int
            };
            let near = level_mag(q, size);
            &&& pr.cand(n, 0) == near
            &&& pr.cand(n, 1) == near - 1
            &&& pr.cand(n, 2) == 0
            &&& pr.cand_count(n) == (if near < 2 {
                near + 1
            } else {
                3
            })
            &&& pr.dist(n, m) == seq![30int, 27, 19, 11, 27, 24, 17, 10, 19, 17, 12, 8, 11, 10, 8, 6][
                crate::quant_laws::place(n)
            ] * ((size - m * q) * (size - m * q))
        }),
{
    crate::syntax_laws::coefficient_order(n);
}

/// A symbol costs what its probability says: the share of zeros for a zero, the rest for a
/// one; symbols add up.
pub proof fn symbols_cost_their_probability(s: Seq<Sym>, p: u8, b: bool)
    ensures
        bit_cost_spec(false, p) == entropy_cost(p as int),
        bit_cost_spec(true, p) == entropy_cost(256 - p),
        syms_cost(Seq::empty()) == 0,
        syms_cost(s.push((p, b))) == syms_cost(s) + bit_cost_spec(b, p),
{
    assert(s.push((p, b)).drop_last() =~= s);
}

/// Entry `x` of the Walsh-Hadamard transform of row `r` of a block.
pub open spec fn row_sum(b: Seq<i32>, r: int, x: int) -> int {
    b[4 * r] + signed(x, 1, b[4 * r + 1] as int) + signed(x, 2, b[4 * r + 2] as int) + signed(
        x,
        3,
        b[4 * r + 3] as int,
    )
}

/// The texture of a block is the weighed size of its Walsh-Hadamard transform.
pub proof fn texture_is_weighed_transform(b: Seq<i32>, n: int)
    requires
        0 <= n < 16,
    ensures
        ({
            let x = n % 4;
            let y = n / 4;
            let h = row_sum(b, 0, x) + signed(y, 1, row_sum(b, 1, x)) + signed(
                y,
                2,
                row_sum(b, 2, x),
            ) + signed(y, 3, row_sum(b, 3, x));
            &&& texture_upto(b, n + 1) == texture_upto(b, n) + seq![
                38int, 32, 20, 9, 32, 28, 17, 7, 20, 17, 10, 4, 9, 7, 4, 2,
            ][n] * (if h < 0 {
                -h
            } else {
                h
            })
            &&& texture_upto(b, 0) == 0
            &&& texture(b) == texture_upto(b, 16)
        }),
{
    let x = n % 4;
    lemma_row_sum(b, 0, x);
    lemma_row_sum(b, 1, x);
    lemma_row_sum(b, 2, x);
    lemma_row_sum(b, 3, x);
    assert(n / 4 == 0 || n / 4 == 1 || n / 4 == 2 || n / 4 == 3);
}

proof fn lemma_row_sum(b: Seq<i32>, r: int, x: int)
    requires
        0 <= x < 4,
    ensures
        hadamard_row(b, r, x) == row_sum(b, r, x),
{
    assert(x == 0 || x == 1 || x == 2 || x == 3);
}

/// Texture distortion is how far the textures of two blocks are apart, a 32nd of it, summed
/// over the sixteen 4x4 blocks; none between equal blocks.
pub proof fn texture_distortion(a: Seq<u8>, b: Seq<u8>, n: int)
    requires
        0 <= n < 16,
    ensures
        ({
            let p = crate::block::sub_block(a, 16, n);
            let q = crate::block::sub_block(b, 16, n);
            let d = texture(widen(q)) - texture(widen(p));
            tdisto_upto(a, b, n + 1) == tdisto_upto(a, b, n) + (if d < 0 {
                -d
            } else {
                d
            }) / 32
        }),
        tdisto_upto(a, b, 0) == 0,
        tdisto4_spec(a, a) == 0,
        tdisto4_spec(a, b) == tdisto4_spec(b, a),
{
}

/// The highest bin and the last one in use.
pub proof fn bins_are_summed_up(dist: Seq<i32>, k: int, i: int)
    requires
        0 <= i < k,
    ensures
        dist[i] <= max_bin(dist, k),
        0 <= max_bin(dist, k),
        max_bin(dist, k) == 0 || exists|j: int| 0 <= j < k && #[trigger] dist[j] == max_bin(dist, k),
        dist[i] > 0 ==> i <= last_bin(dist, k),
        last_bin(dist, k) == 1 || (0 <= last_bin(dist, k) < k && dist[last_bin(dist, k)] > 0),
    decreases k,
{
    if k > 1 {
        if i < k - 1 {
            bins_are_summed_up(dist, k - 1, i);
        } else {
            bins_are_summed_up(dist, k - 1, 0);
        }
        if dist[k - 1] <= max_bin(dist, k - 1) && max_bin(dist, k - 1) != 0 {
            let j = choose|j: int| 0 <= j < k - 1 && #[trigger] dist[j] == max_bin(dist, k - 1);
            assert(dist[j] == max_bin(dist, k));
        }
    } else {
        assert(max_bin(dist, 0) == 0);
        assert(last_bin(dist, 0) == 1);
    }
    if dist[k - 1] > max_bin(dist, k - 1) {
        assert(dist[k - 1] == max_bin(dist, k));
    }
}

/// A macroblock's activity: 510 times the last bin in use over the highest one, at most 255;
/// none where no bin holds more than one.
pub proof fn activity_of_bins(dist: Seq<i32>)
    ensures
        max_bin(dist, 32) <= 1 ==> alpha_of(dist) == 0,
        max_bin(dist, 32) > 1 && 510 * last_bin(dist, 32) <= 255 * max_bin(dist, 32)
            && last_bin(dist, 32) >= 0 ==> alpha_of(dist) == (510 * last_bin(dist, 32)) / max_bin(
            dist,
            32,
        ),
        max_bin(dist, 32) > 1 && 510 * last_bin(dist, 32) > 255 * max_bin(dist, 32) ==> alpha_of(dist)
            == 255,
{
    let m = max_bin(dist, 32);
    let l = last_bin(dist, 32);
    if m > 1 {
        let q = (510 * l) / m;
        if 510 * l <= 255 * m && l >= 0 {
            assert(0 <= q <= 255) by (nonlinear_arith)
                requires
                    q == (510 * l) / m,
                    0 <= 510 * l <= 255 * m,
                    1 < m,
            ;
        } else if 510 * l > 255 * m {
            assert(q >= 255) by (nonlinear_arith)
                requires
                    q == (510 * l) / m,
                    510 * l > 255 * m,
                    1 < m,
            ;
        }
    }
}

/// The bin of a coefficient is an eighth of its size, at most 31; the first coefficient of a
/// block counts as none. Every coefficient is counted once, in its bin.
pub proof fn coefficients_are_binned(s: Seq<u8>, b: int, t: int)
    requires
        0 <= t < 256,
    ensures
        0 <= bin_at(s, t) <= 31,
        t % 16 == 0 ==> bin_at(s, t) == 0,
        bin_count(s, b, 0) == 0,
        bin_count(s, b, t + 1) == bin_count(s, b, t) + (if bin_at(s, t) == b {
            1int
        } else {
            0
        }),
{
}

/// The activities of a frame are those of its macroblocks, row by row.
pub proof fn activities_go_row_by_row(src: SourceYuv, n: int, k: int)
    requires
        0 <= k < n,
        1 <= src.mb_w,
        0 <= activity_of(
            crate::mode_search::src_mb(src, k % (src.mb_w as int), k / (src.mb_w as int)).y,
        ) <= 255,
    ensures
        activities(src, n).len() == n,
        activities(src, n)[k] == activity_of(
            crate::mode_search::src_mb(src, k % (src.mb_w as int), k / (src.mb_w as int)).y,
        ),
{
}

/// What a plan says: a macroblock is skippable where it is predicted whole and none of its
/// blocks has a level, and it has a residual where any coefficient is not zero.
pub proof fn plans_say_what_is_coded(i: PlanInput<'_>, p: MbPlan, k: int)
    requires
        i.is_plan(p),
        0 <= k < 16,
    ensures
        p.skippable ==> !p.is_i4x4 && p.tokens.y2.last < 0 && p.tokens.luma@[k].last < 1 && (k < 8
            ==> p.tokens.chroma@[k].last < 0),
        !p.skippable ==> p.is_i4x4 || p.tokens.y2.last >= 0 || (exists|j: int|
            0 <= j < 16 && (#[trigger] p.tokens.luma@[j]).last >= 1) || (exists|j: int|
            0 <= j < 8 && (#[trigger] p.tokens.chroma@[j]).last >= 0),
        p.has_residual <==> exists|j: int| 0 <= j < i.coeffs().len() && #[trigger] i.coeffs()[j] != 0,
        p.segment == i.segment,
        !p.is_i4x4 ==> p.imodes@[0] == p.ymode,
        p.is_i4x4 ==> i.gates.uses_i4x4,
        !i.gates.search_modes ==> p.ymode == 0 && p.uvmode == 0,
{
    assert(p.is_i4x4 == p.tokens.is_i4x4);
    if p.skippable {
        assert(p.tokens.luma@[k].last < 1);
        if k < 8 {
            assert(p.tokens.chroma@[k].last < 0);
        }
    }
}

/// Levels are the nearest ones, or those that the search finds where a bit weighs twice
/// seven eighths of the square of the AC step, at least two.
pub proof fn levels_are_chosen(
    coeffs: Seq<i16>,
    pair: QPair,
    first: int,
    plane: int,
    plan: QuantPlan<'_>,
)
    requires
        0 <= pair.ac.q,
    ensures
        !plan.uses_trellis ==> chosen_levels(coeffs, pair, first, plane, plan) == nearest_levels(
            coeffs,
            pair,
            first,
        ),
        plan.uses_trellis ==> ({
            let l = (7 * pair.ac.q * pair.ac.q) / 8;
            chosen_levels(coeffs, pair, first, plane, plan) == trellis_levels(
                Problem {
                    coeffs,
                    pair,
                    first,
                    ctx0: 0,
                    pb: plan.probas[plane],
                    lambda: if l < 1 {
                        2
                    } else {
                        2 * l
                    },
                },
            )
        }),
{
}

/// The cost of a whole-block luma mode: 256 times the distortion of what it reconstructs
/// to, and its bits, two for the mode among them, weighed.
pub proof fn whole_luma_cost(s: Seq<u8>, p: Seq<u8>, plan: QuantPlan<'_>)
    requires
        0 <= plan.quant.y1.ac.q,
    ensures
        ({
            let q = plan.quant.y1.ac.q as int;
            let l = (3 * q * q) / 128;
            let rec = add_residuals(16, p, luma16_coeffs(s, p, plan), 0, 16);
            let bits = 512 + block_cost(block_of(y2_quantized(s, p, plan)), 0, 1, *plan.probas)
                + blocks_cost(luma16_blocks(s, p, plan), 1, 0, *plan.probas, 16);
            luma16_cost(s, p, plan) == 256 * luma_disto(s, rec, plan) + (if l < 1 {
                1
            } else {
                l
            }) * bits
        }),
{
}

/// The cost of 4x4 luma against that of the whole block, bits weighed alike; the cheaper one
/// is taken, the whole block of equals.
pub proof fn small_or_whole_luma(i: PlanInput<'_>)
    requires
        0 <= i.plan.quant.y1.ac.q,
    ensures
        ({
            let q = i.plan.quant.y1.ac.q as int;
            let l = if (q * q) / 128 < 1 {
                1
            } else {
                (q * q) / 128
            };
            let s = i.src.y;
            let p = i.luma_pred();
            let whole = 256 * luma_disto(s, luma16_coded(s, p, i.plan), i.plan) + l * (512
                + block_cost(block_of(y2_quantized(s, p, i.plan)), 0, 1, *i.plan.probas)
                + blocks_cost(luma16_blocks(s, p, i.plan), 1, 0, *i.plan.probas, 16));
            let small = 256 * luma_disto(s, i4_upto(i.edges.y, s, i.plan, 16), i.plan) + l * i4_bits(
                i.edges.y,
                s,
                i.plan,
                16,
            );
            i.is_i4x4() <==> i.gates.uses_i4x4 && small < whole
        }),
{
    let q = i.plan.quant.y1.ac.q as int;
    assert(1 * q * q == q * q);
}

/// The cost of a chroma mode: 256 times the squared error of both planes, and their bits,
/// weighed.
pub proof fn chroma_cost(su: Seq<u8>, pu: Seq<u8>, sv: Seq<u8>, pv: Seq<u8>, plan: QuantPlan<'_>)
    requires
        0 <= plan.quant.uv.ac.q,
    ensures
        ({
            let q = plan.quant.uv.ac.q as int;
            let l = (3 * q * q) / 64;
            let e = sse(su, add_residuals(8, pu, chroma8_coeffs(su, pu, plan), 0, 4)) + sse(
                sv,
                add_residuals(8, pv, chroma8_coeffs(sv, pv, plan), 0, 4),
            );
            chroma8_cost(su, pu, sv, pv, plan) == 256 * e + (if l < 1 {
                1
            } else {
                l
            }) * blocks_cost(chroma8_blocks(su, pu, sv, pv, plan), 0, 2, *plan.probas, 8)
        }),
{
}

/// The tree probabilities of a segment map: the share of the first two segments, and within
/// either pair the share of its first.
pub proof fn tree_probabilities_of_a_map(ids: Seq<u8>)
    ensures
        ({
            let n = ids.len() as int;
            let a = cluster_count(ids, 0, n);
            let b = cluster_count(ids, 1, n);
            let c = cluster_count(ids, 2, n);
            let d = cluster_count(ids, 3, n);
            let p = tree_probs_of(ids);
            &&& p.len() == 3
            &&& p[0] == tree_prob_spec(a + b, a + b + c + d) as u8
            &&& p[1] == tree_prob_spec(a, a + b) as u8
            &&& p[2] == tree_prob_spec(c, c + d) as u8
        }),
{
}

} // verus!
