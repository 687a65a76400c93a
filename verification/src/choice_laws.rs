//! What the encoder's choices are made by.

use vstd::prelude::*;

use crate::block::lemma_square_at;
use crate::constants::ac_table;
use crate::effort::{gates_of, Effort};
use crate::filter_choice::{filter_level, skip_count, skip_of};
use crate::i4_search::{best_bmode, bmode_sse, i4_mode};
use crate::mode_search::{
    best_chroma_mode, best_luma_mode, chroma_mode, chroma_mode_cost, lambda_of, luma16_cost,
    luma_mode, mode_available_spec, src_mb, WHOLE_BLOCK_MODES,
};
use crate::perceptual::{disto16_spec, tdisto_upto, tlambda_spec};
use crate::plan::MbPlan;
use crate::prob_opt::{bit_cost_spec, counts_cost, empirical_prob, node_choice};
use crate::recon_block::{predicted, Edge};
use crate::residual::{sse, sse_upto, QuantPlan};
use crate::rgb_to_yuv::SourceYuv;
use crate::segment::{segment_index, tree_prob_spec};
use crate::trellis::trellis_lambda_spec;

verus! {

/// The whole-block luma mode that is chosen has its neighbours and costs no more than any
/// other that has; there is always one, since the mean needs none.
pub proof fn chosen_luma_mode_is_cheapest(
    e: Edge,
    s: Seq<u8>,
    has_top: bool,
    has_left: bool,
    plan: QuantPlan<'_>,
    mode: u8,
)
    requires
        mode <= 3,
        (mode == 1 || mode == 2) ==> has_top,
        (mode == 1 || mode == 3) ==> has_left,
    ensures
        ({
            let best = luma_mode(e, s, has_top, has_left, plan);
            &&& best <= 3
            &&& (best == 1 || best == 2) ==> has_top
            &&& (best == 1 || best == 3) ==> has_left
            &&& luma16_cost(s, predicted(16, e, best, has_top, has_left), plan) <= luma16_cost(
                s,
                predicted(16, e, mode, has_top, has_left),
                plan,
            )
        }),
{
    let i: int = if mode == 0 {
        0
    } else if mode == 2 {
        1
    } else if mode == 3 {
        2
    } else {
        3
    };
    assert(WHOLE_BLOCK_MODES[i] == mode);
    lemma_best_luma(e, s, has_top, has_left, plan, 4, i);
}

#[verifier::rlimit(60)]
proof fn lemma_best_luma(
    e: Edge,
    s: Seq<u8>,
    has_top: bool,
    has_left: bool,
    plan: QuantPlan<'_>,
    k: int,
    i: int,
)
    requires
        0 <= i < k <= 4,
        mode_available_spec(WHOLE_BLOCK_MODES[i], has_top, has_left),
    ensures
        ({
            let best = best_luma_mode(e, s, has_top, has_left, plan, k);
            &&& best is Some
            &&& best->0 <= 3
            &&& mode_available_spec(best->0, has_top, has_left)
            &&& luma16_cost(s, predicted(16, e, best->0, has_top, has_left), plan) <= luma16_cost(
                s,
                predicted(16, e, WHOLE_BLOCK_MODES[i], has_top, has_left),
                plan,
            )
        }),
    decreases k,
{
    assert(k == 1 || k == 2 || k == 3 || k == 4);
    assert(WHOLE_BLOCK_MODES[k - 1] <= 3);
    assert(mode_available_spec(WHOLE_BLOCK_MODES[0], has_top, has_left));
    assert(best_luma_mode(e, s, has_top, has_left, plan, 0) is None);
    if i < k - 1 {
        lemma_best_luma(e, s, has_top, has_left, plan, k - 1, i);
    } else if k >= 2 {
        lemma_best_luma(e, s, has_top, has_left, plan, k - 1, 0);
    }
}

/// The chroma mode that is chosen has its neighbours and costs no more than any other that
/// has.
pub proof fn chosen_chroma_mode_is_cheapest(
    ue: Edge,
    ve: Edge,
    su: Seq<u8>,
    sv: Seq<u8>,
    has_top: bool,
    has_left: bool,
    plan: QuantPlan<'_>,
    mode: u8,
)
    requires
        mode <= 3,
        (mode == 1 || mode == 2) ==> has_top,
        (mode == 1 || mode == 3) ==> has_left,
    ensures
        ({
            let best = chroma_mode(ue, ve, su, sv, has_top, has_left, plan);
            &&& best <= 3
            &&& (best == 1 || best == 2) ==> has_top
            &&& (best == 1 || best == 3) ==> has_left
            &&& chroma_mode_cost(ue, ve, su, sv, best, has_top, has_left, plan) <= chroma_mode_cost(
                ue,
                ve,
                su,
                sv,
                mode,
                has_top,
                has_left,
                plan,
            )
        }),
{
    let i: int = if mode == 0 {
        0
    } else if mode == 2 {
        1
    } else if mode == 3 {
        2
    } else {
        3
    };
    assert(WHOLE_BLOCK_MODES[i] == mode);
    lemma_best_chroma(ue, ve, su, sv, has_top, has_left, plan, 4, i);
}

#[verifier::rlimit(60)]
proof fn lemma_best_chroma(
    ue: Edge,
    ve: Edge,
    su: Seq<u8>,
    sv: Seq<u8>,
    has_top: bool,
    has_left: bool,
    plan: QuantPlan<'_>,
    k: int,
    i: int,
)
    requires
        0 <= i < k <= 4,
        mode_available_spec(WHOLE_BLOCK_MODES[i], has_top, has_left),
    ensures
        ({
            let best = best_chroma_mode(ue, ve, su, sv, has_top, has_left, plan, k);
            &&& best is Some
            &&& best->0 <= 3
            &&& mode_available_spec(best->0, has_top, has_left)
            &&& chroma_mode_cost(ue, ve, su, sv, best->0, has_top, has_left, plan)
                <= chroma_mode_cost(
                ue,
                ve,
                su,
                sv,
                WHOLE_BLOCK_MODES[i],
                has_top,
                has_left,
                plan,
            )
        }),
    decreases k,
{
    assert(k == 1 || k == 2 || k == 3 || k == 4);
    assert(WHOLE_BLOCK_MODES[k - 1] <= 3);
    assert(mode_available_spec(WHOLE_BLOCK_MODES[0], has_top, has_left));
    assert(best_chroma_mode(ue, ve, su, sv, has_top, has_left, plan, 0) is None);
    if i < k - 1 {
        lemma_best_chroma(ue, ve, su, sv, has_top, has_left, plan, k - 1, i);
    } else if k >= 2 {
        lemma_best_chroma(ue, ve, su, sv, has_top, has_left, plan, k - 1, 0);
    }
}

/// The 4x4 mode that is chosen predicts no worse than any of the ten, and better than those
/// before it.
pub proof fn chosen_small_mode_is_nearest(edge: Seq<u8>, s: Seq<u8>, mode: int)
    requires
        0 <= mode < 10,
    ensures
        i4_mode(edge, s) < 10,
        bmode_sse(edge, s, i4_mode(edge, s) as int) <= bmode_sse(edge, s, mode),
        mode < i4_mode(edge, s) ==> bmode_sse(edge, s, i4_mode(edge, s) as int) < bmode_sse(
            edge,
            s,
            mode,
        ),
{
    lemma_best_small(edge, s, 10, mode);
}

proof fn lemma_best_small(edge: Seq<u8>, s: Seq<u8>, k: int, i: int)
    requires
        0 <= i < k,
    ensures
        0 <= best_bmode(edge, s, k) < k,
        bmode_sse(edge, s, best_bmode(edge, s, k)) <= bmode_sse(edge, s, i),
        i < best_bmode(edge, s, k) ==> bmode_sse(edge, s, best_bmode(edge, s, k)) < bmode_sse(
            edge,
            s,
            i,
        ),
    decreases k,
{
    if k > 1 {
        if i < k - 1 {
            lemma_best_small(edge, s, k - 1, i);
        } else {
            lemma_best_small(edge, s, k - 1, 0);
        }
    }
}

/// Squared error: never negative, none only for equal blocks, the same either way round, and
/// the square of the difference for blocks that differ in one sample.
pub proof fn squared_error_is_a_distance(a: Seq<u8>, b: Seq<u8>, i: int)
    requires
        a.len() == b.len(),
        0 <= i < a.len(),
    ensures
        0 <= sse(a, b),
        sse(a, b) == sse(b, a),
        sse(a, b) == 0 <==> a == b,
        (forall|j: int| 0 <= j < a.len() && j != i ==> a[j] == b[j]) ==> sse(a, b) == (a[i] - b[i])
            * (a[i] - b[i]),
{
    let n = a.len() as int;
    lemma_sse(a, b, n, i);
    if sse(a, b) == 0 {
        assert(a =~= b);
    }
}

proof fn lemma_sse(a: Seq<u8>, b: Seq<u8>, n: int, i: int)
    requires
        0 <= n <= a.len() == b.len(),
        0 <= i,
    ensures
        0 <= sse_upto(a, b, n),
        sse_upto(a, b, n) == sse_upto(b, a, n),
        sse_upto(a, b, n) == 0 <==> forall|j: int| 0 <= j < n ==> a[j] == b[j],
        (forall|j: int| 0 <= j < n && j != i ==> a[j] == b[j]) ==> sse_upto(a, b, n) == (if i < n {
            (a[i] - b[i]) * (a[i] - b[i])
        } else {
            0
        }),
    decreases n,
{
    if n > 0 {
        lemma_sse(a, b, n - 1, i);
        let d = a[n - 1] - b[n - 1];
        assert(0 <= d * d && (d * d == 0 <==> d == 0) && d * d == (-d) * (-d)) by {
            assert(0 <= d * d) by (nonlinear_arith);
            assert(d * d == 0 ==> d == 0) by (nonlinear_arith);
            assert(d * d == (-d) * (-d)) by (nonlinear_arith);
            if d == 0 {
                assert(d * d == 0);
            }
        }
        assert((b[n - 1] - a[n - 1]) * (b[n - 1] - a[n - 1]) == d * d);
        if sse_upto(a, b, n) == 0 {
            assert forall|j: int| 0 <= j < n implies a[j] == b[j] by {
                if j < n - 1 {
                    assert(sse_upto(a, b, n - 1) == 0);
                }
            }
        }
        if forall|j: int| 0 <= j < n ==> a[j] == b[j] {
            assert(a[n - 1] == b[n - 1]);
            assert forall|j: int| 0 <= j < n - 1 implies a[j] == b[j] by {}
        }
        if forall|j: int| 0 <= j < n && j != i ==> a[j] == b[j] {
            assert forall|j: int| 0 <= j < n - 1 && j != i implies a[j] == b[j] by {}
            if i != n - 1 {
                assert(a[n - 1] == b[n - 1]);
            }
        }
    }
}

/// A macroblock's source samples: sixteen by sixteen of luma at row `16 y` and column
/// `16 x`, eight by eight of either chroma at row `8 y` and column `8 x`.
pub proof fn source_of_a_macroblock(src: SourceYuv, x: int, y: int, i: int, j: int)
    requires
        src.wf(),
        0 <= x < src.mb_w,
        0 <= y < src.mb_h,
        0 <= i < 16,
        0 <= j < 16,
    ensures
        src_mb(src, x, y).y[16 * j + i] == src.y@[(16 * y + j) * (16 * src.mb_w) + (16 * x + i)],
        i < 8 && j < 8 ==> src_mb(src, x, y).u[8 * j + i] == src.u@[(8 * y + j) * (8 * src.mb_w) + (8
            * x + i)] && src_mb(src, x, y).v[8 * j + i] == src.v@[(8 * y + j) * (8 * src.mb_w) + (8
            * x + i)],
{
    let ys = src.mb_w * 16;
    let us = src.mb_w * 8;
    lemma_square_at(src.y@, y * 16 * ys + x * 16, ys, 16, i, j);
    assert((16 * y + j) * ys == y * 16 * ys + j * ys) by (nonlinear_arith);
    if i < 8 && j < 8 {
        lemma_square_at(src.u@, y * 8 * us + x * 8, us, 8, i, j);
        lemma_square_at(src.v@, y * 8 * us + x * 8, us, 8, i, j);
        assert((8 * y + j) * us == y * 8 * us + j * us) by (nonlinear_arith);
    }
}

/// The weights of rate against distortion grow with the square of the step: 3/128 of it for
/// whole luma blocks, 3/64 for chroma, 1/128 for 4x4 blocks, 7/8 for the levels, and never
/// less than one.
pub proof fn rate_weights(q: int)
    requires
        0 <= q,
    ensures
        lambda_of(3, 128, q) == (if 3 * q * q < 128 {
            1
        } else {
            (3 * q * q) / 128
        }),
        lambda_of(3, 64, q) == (if 3 * q * q < 64 {
            1
        } else {
            (3 * q * q) / 64
        }),
        lambda_of(1, 128, q) == (if q * q < 128 {
            1
        } else {
            (q * q) / 128
        }),
        trellis_lambda_spec(q) == (if 7 * q * q < 8 {
            1
        } else {
            (7 * q * q) / 8
        }),
{
    assert(1 * q * q == q * q);
}

/// The share of skipped macroblocks decides on skipping: it is used where any macroblock is
/// skippable and the probability of not skipping, in 255ths, is below 250.
pub proof fn skipping_is_by_share(plans: Seq<MbPlan>, total: int, consider: bool)
    requires
        0 < total,
        0 <= skip_count(plans, plans.len() as int) <= total,
    ensures
        ({
            let n = skip_count(plans, plans.len() as int);
            let p = ((total - n) * 255) / total;
            let s = skip_of(plans, total, consider);
            &&& s.use_skip == (consider && n > 0 && p < 250)
            &&& s.skip_p == p
        }),
{
    let n = skip_count(plans, plans.len() as int);
    let p = ((total - n) * 255) / total;
    assert(0 <= p <= 255) by (nonlinear_arith)
        requires
            p == ((total - n) * 255) / total,
            0 <= n <= total,
            0 < total,
    ;
}

/// Skippable macroblocks are counted one by one.
pub proof fn skippable_ones_are_counted(plans: Seq<MbPlan>, n: int)
    requires
        0 <= n < plans.len(),
    ensures
        skip_count(plans, 0) == 0,
        skip_count(plans, n + 1) == skip_count(plans, n) + (if plans[n].skippable {
            1int
        } else {
            0
        }),
{
}

/// The loop filter's level: five 256ths of the strength times a quarter of the AC step, off
/// below two, at most 63, and off without strength or where no filter is applied.
pub proof fn filter_level_grows_with_the_step(q: int, strength: int, apply: bool)
    requires
        0 <= q <= 127,
        0 <= strength <= 100,
    ensures
        ({
            let f = (5 * strength * (ac_table(q) / 4)) / 256;
            filter_level(q, strength, apply) == (if !apply || f < 2 {
                0
            } else if f > 63 {
                63
            } else {
                f
            })
        }),
{
    if strength == 0 {
        let a = ac_table(q) as int / 4;
        assert(5 * strength * a == 0) by (nonlinear_arith)
            requires
                strength == 0,
        ;
    }
}

/// A segment's quantizer index moves with how far its activity is from the middle, a
/// 512th of that times the shaping strength, toward zero; it stays in the table.
pub proof fn busy_segments_are_coarser(base_q: int, a: int, b: int, strength: int)
    requires
        0 <= base_q <= 127,
        0 <= a <= b <= 255,
        0 <= strength <= 100,
    ensures
        segment_index(base_q, 128, strength) == base_q,
        segment_index(base_q, a, strength) <= segment_index(base_q, b, strength),
        128 <= a ==> segment_index(base_q, a, strength) == (if base_q + ((a - 128) * strength) / 512
            > 127 {
            127
        } else {
            base_q + ((a - 128) * strength) / 512
        }),
        a <= 128 ==> segment_index(base_q, a, strength) == (if base_q - ((128 - a) * strength) / 512
            < 0 {
            0
        } else {
            base_q - ((128 - a) * strength) / 512
        }),
{
    lemma_shift(a, strength);
    lemma_shift(b, strength);
    assert(0 * strength == 0);
    assert((128 - 128) * strength == 0) by (nonlinear_arith);
    assert((a - 128) * strength <= (b - 128) * strength) by (nonlinear_arith)
        requires
            a <= b,
            0 <= strength,
    ;
}

proof fn lemma_shift(a: int, strength: int)
    requires
        0 <= strength,
    ensures
        128 <= a ==> 0 <= (a - 128) * strength,
        a <= 128 ==> (a - 128) * strength <= 0,
        (128 - a) * strength == -((a - 128) * strength),
{
    assert(128 <= a ==> 0 <= (a - 128) * strength) by (nonlinear_arith)
        requires
            0 <= strength,
    ;
    assert(a <= 128 ==> (a - 128) * strength <= 0) by (nonlinear_arith)
        requires
            0 <= strength,
    ;
    assert((128 - a) * strength == -((a - 128) * strength)) by (nonlinear_arith);
}

/// A tree probability is the share of zeros in 255ths, at least one; 128 of nothing.
pub proof fn tree_probability_is_a_share(zeros: int, total: int)
    requires
        0 <= zeros <= total,
    ensures
        total == 0 ==> tree_prob_spec(zeros, total) == 128,
        total > 0 ==> tree_prob_spec(zeros, total) == (if 255 * zeros < total {
            1
        } else {
            (255 * zeros) / total
        }),
{
    if total > 0 {
        let s = (255 * zeros) / total;
        assert(zeros * 255 == 255 * zeros);
        assert(0 <= s <= 255) by (nonlinear_arith)
            requires
                s == (255 * zeros) / total,
                0 <= zeros <= total,
                0 < total,
        ;
        if 255 * zeros < total {
            assert(s == 0) by (nonlinear_arith)
                requires
                    s == (255 * zeros) / total,
                    0 <= 255 * zeros < total,
            ;
        } else {
            assert(s >= 1) by (nonlinear_arith)
                requires
                    s == (255 * zeros) / total,
                    255 * zeros >= total,
                    0 < total,
            ;
        }
    }
}

/// A table entry is replaced by the share of zeros, in 256ths and rounded, where that saves
/// more than the eight bits and the flag that sending it costs; else the default stays.
pub proof fn entries_are_replaced_where_it_pays(c0: int, c1: int, default_p: u8, update_p: u8)
    requires
        0 <= c0,
        0 <= c1,
        0 < c0 + c1,
    ensures
        ({
            let share = (256 * c0 + (c0 + c1) / 2) / (c0 + c1);
            let p = empirical_prob(c0, c1);
            let saves = counts_cost(c0, c1, default_p) - counts_cost(c0, c1, p);
            let flag = bit_cost_spec(true, update_p) - bit_cost_spec(false, update_p);
            &&& p == (if share < 1 {
                1
            } else if share > 255 {
                255
            } else {
                share
            })
            &&& node_choice(c0, c1, default_p, update_p) == (if saves > flag + 2048 {
                (p, true)
            } else {
                (default_p, false)
            })
        }),
        node_choice(0, 0, default_p, update_p) == (default_p, false),
{
}

/// What each effort searches: the fastest nothing; the fullest the whole-block modes and the
/// levels; the best one 4x4 modes too.
pub proof fn efforts_search(sns: u8)
    ensures
        ({
            let g = gates_of(Effort::Fast, sns);
            !g.search_modes && !g.uses_i4x4 && !g.uses_trellis && g.sns_strength == sns
        }),
        ({
            let g = gates_of(Effort::Full, sns);
            g.search_modes && !g.uses_i4x4 && g.uses_trellis && g.sns_strength == sns
        }),
        ({
            let g = gates_of(Effort::Best, sns);
            g.search_modes && g.uses_i4x4 && g.uses_trellis && g.sns_strength == sns
        }),
{
}

/// Shaping adds to the squared error what the texture changed, weighed by the strength and
/// the AC step; without strength it adds nothing.
pub proof fn shaping_adds_texture(e: int, strength: int, q: int, a: Seq<u8>, b: Seq<u8>)
    requires
        0 <= strength <= 100,
        0 <= q,
    ensures
        tlambda_spec(strength, q) == (strength * q) / 32,
        disto16_spec(e, 0, a, b) == e,
        tlambda_spec(strength, q) > 0 ==> disto16_spec(e, tlambda_spec(strength, q), a, b) == e + (((
        strength * q) / 32) * tdisto_upto(a, b, 16) + 128) / 256,
{
}

} // verus!
