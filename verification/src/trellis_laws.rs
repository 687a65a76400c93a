//! The rate-distortion search is optimal.
//!
//! A path assigns a candidate magnitude to every position up to its last non-zero one.
//! No path, and not the empty block either, costs less than what the search chooses.

use vstd::prelude::*;

use crate::coder::Sym;
use crate::constants::BANDS;
use crate::prob_opt::{lemma_syms_cost_concat, lemma_syms_cost_one, syms_cost};
use crate::tokens::{coeff_syms, level_syms, run_syms};
use crate::trellis::{
    ctx_of_spec, is_candidate, lemma_level_cost_sign, lemma_nearest, lemma_row_len, signed_level,
    trellis_mags, Node, Problem,
};

verus! {

/// The context behind a path.
pub open spec fn path_ctx(pr: Problem, mags: Seq<int>) -> int {
    if mags.len() == 0 {
        pr.ctx0
    } else {
        ctx_of_spec(mags.last())
    }
}

/// What a path's magnitudes cost: each one in the context of the one before it.
pub open spec fn path_cost(pr: Problem, mags: Seq<int>) -> int
    decreases mags.len(),
{
    if mags.len() == 0 {
        0
    } else {
        let head = mags.drop_last();
        path_cost(pr, head) + pr.step_cost(
            pr.first + head.len(),
            path_ctx(pr, head),
            mags.last(),
        )
    }
}

/// Whether every magnitude is a candidate of its position.
pub open spec fn is_path(pr: Problem, mags: Seq<int>) -> bool {
    &&& mags.len() <= 16 - pr.first
    &&& forall|i: int| 0 <= i < mags.len() ==> is_candidate(pr, pr.first + i, #[trigger] mags[i])
}

/// What coding a block with the given magnitudes costs: the magnitudes, the end of the
/// block, and the error of the positions behind it.
pub open spec fn block_cost(pr: Problem, mags: Seq<int>) -> int {
    if mags.len() == 0 {
        pr.empty_cost()
    } else {
        let n = pr.first + mags.len() - 1;
        path_cost(pr, mags) + pr.lambda * pr.end_rate(n, path_ctx(pr, mags)) + 256 * pr.suffix(
            n + 1,
        )
    }
}

/// The best of more extensions costs no more.
proof fn lemma_best_falls(pr: Problem, n: int, before: Seq<Option<Node>>, out: int, k: int, to: int)
    requires
        k <= to,
        pr.best_of(n, before, out, k) is Some,
    ensures
        pr.best_of(n, before, out, to) is Some,
        pr.best_of(n, before, out, to)->0.cost <= pr.best_of(n, before, out, k)->0.cost,
    decreases to - k,
{
    if k < to {
        lemma_best_falls(pr, n, before, out, k, to - 1);
    }
}

/// No path costs less than the best path into its context.
proof fn lemma_row_optimal(pr: Problem, mags: Seq<int>)
    requires
        0 <= pr.first < 16,
        0 <= pr.ctx0 < 3,
        is_path(pr, mags),
    ensures
        ({
            let best = pr.row(pr.first + mags.len() - 1)[path_ctx(pr, mags)];
            best is Some && best->0.cost <= path_cost(pr, mags)
        }),
    decreases mags.len(),
{
    if mags.len() > 0 {
        let head = mags.drop_last();
        assert forall|i: int| 0 <= i < head.len() implies is_candidate(
            pr,
            pr.first + i,
            #[trigger] head[i],
        ) by {
            assert(head[i] == mags[i]);
        }
        lemma_row_optimal(pr, head);
        let n = pr.first + head.len();
        let before = pr.row(n - 1);
        let ci = path_ctx(pr, head);
        let out = path_ctx(pr, mags);
        let m = mags[mags.len() - 1];
        assert(is_candidate(pr, pr.first + (mags.len() - 1), m));
        let c = choose|c: int| 0 <= c < pr.cand_count(n) && m == #[trigger] pr.cand(n, c);
        let k = 3 * ci + c + 1;
        assert((k - 1) / 3 == ci && (k - 1) % 3 == c);
        let best = pr.best_of(n, before, out, k);
        assert(best is Some && best->0.cost <= before[ci]->0.cost + pr.step_cost(n, ci, m));
        lemma_best_falls(pr, n, before, out, k, 9);
    }
}

/// The best path into a context costs what its magnitudes cost, and leads there.
proof fn lemma_row_cost(pr: Problem, n: int, out: int)
    requires
        pr.row(n)[out] is Some,
        pr.first - 1 <= n,
        0 <= out < 3,
    ensures
        pr.row(n)[out]->0.cost == path_cost(pr, pr.row(n)[out]->0.mags),
        path_ctx(pr, pr.row(n)[out]->0.mags) == out,
    decreases n - pr.first + 1, 0int,
{
    if n >= pr.first {
        lemma_best_cost(pr, n, out, 9);
    }
}

proof fn lemma_best_cost(pr: Problem, n: int, out: int, k: int)
    requires
        pr.first <= n,
        0 <= k <= 9,
        0 <= out < 3,
        pr.best_of(n, pr.row(n - 1), out, k) is Some,
    ensures
        ({
            let best = pr.best_of(n, pr.row(n - 1), out, k)->0;
            best.cost == path_cost(pr, best.mags) && path_ctx(pr, best.mags) == out
        }),
    decreases n - pr.first, k,
{
    let before = pr.row(n - 1);
    let ci = (k - 1) / 3;
    if pr.best_of(n, before, out, k) != pr.best_of(n, before, out, k - 1) {
        lemma_row_cost(pr, n - 1, ci);
        lemma_row_len(pr, n - 1, ci);
        let from = before[ci]->0;
        let best = pr.best_of(n, before, out, k)->0;
        assert(best.mags.drop_last() =~= from.mags);
    } else {
        lemma_best_cost(pr, n, out, k - 1);
    }
}

/// The best end costs no more than ending any best path.
proof fn lemma_end_optimal(pr: Problem, n: int, out: int, to: int)
    requires
        pr.first <= n <= to,
        1 <= out <= 2,
        pr.row(n)[out] is Some,
    ensures
        pr.best_end(to) is Some,
        pr.best_end(to)->0.cost <= pr.ended(n, out, pr.row(n)[out]->0).cost,
    decreases to - n,
{
    if n < to {
        lemma_end_optimal(pr, n, out, to - 1);
    }
}

/// The best end costs what coding its magnitudes costs.
proof fn lemma_end_cost(pr: Problem, n: int)
    requires
        pr.best_end(n) is Some,
    ensures
        pr.best_end(n)->0.cost == block_cost(pr, pr.best_end(n)->0.mags),
        pr.best_end(n)->0.mags.len() > 0,
    decreases n - pr.first + 1,
{
    let a = pr.best_end(n - 1);
    let b = pr.end_or(a, n, 1);
    let c = pr.end_or(b, n, 2);
    if c != b {
        lemma_row_cost(pr, n, 2);
        lemma_row_len(pr, n, 2);
    } else if b != a {
        lemma_row_cost(pr, n, 1);
        lemma_row_len(pr, n, 1);
    } else {
        lemma_end_cost(pr, n - 1);
    }
}

/// No choice of candidate magnitudes that ends in a non-zero one, and not the empty
/// block, costs less than what the search chooses.
pub proof fn search_is_optimal(pr: Problem, mags: Seq<int>)
    requires
        0 <= pr.first < 16,
        0 <= pr.ctx0 < 3,
        is_path(pr, mags),
        mags.len() > 0 ==> mags.last() != 0,
    ensures
        block_cost(pr, trellis_mags(pr)) <= block_cost(pr, mags),
{
    if pr.best_end(15) is Some {
        lemma_end_cost(pr, 15);
    }
    if mags.len() > 0 {
        let n = pr.first + mags.len() - 1;
        let out = path_ctx(pr, mags);
        lemma_row_optimal(pr, mags);
        assert(is_candidate(pr, pr.first + (mags.len() - 1), mags[mags.len() - 1]));
        lemma_end_optimal(pr, n, out, 15);
    }
}

/// The signed levels that magnitudes from `first` on stand for.
pub open spec fn levels_of(pr: Problem, mags: Seq<int>) -> Seq<i16> {
    Seq::new(
        16,
        |n: int|
            if pr.first <= n < pr.first + mags.len() {
                signed_level(pr, n, mags[n - pr.first]) as i16
            } else {
                0i16
            },
    )
}

/// The weighted error of positions `n..16` under the given magnitudes.
pub open spec fn error_from(pr: Problem, mags: Seq<int>, n: int) -> int
    decreases 16 - n,
{
    if n >= 16 {
        0
    } else {
        pr.dist(
            n,
            if n < pr.first + mags.len() {
                mags[n - pr.first]
            } else {
                0
            },
        ) + error_from(pr, mags, n + 1)
    }
}

/// The context of magnitude `k`.
spec fn ctx_at(pr: Problem, mags: Seq<int>, k: int) -> int {
    path_ctx(pr, mags.take(k))
}

/// The bits of the magnitudes from `k` on and of the end of the block.
spec fn rate_from(pr: Problem, mags: Seq<int>, k: int) -> int
    decreases mags.len() - k,
{
    if k >= mags.len() {
        pr.end_rate(pr.first + mags.len() - 1, ctx_at(pr, mags, k))
    } else {
        pr.rate(pr.first + k, ctx_at(pr, mags, k), mags[k]) + rate_from(pr, mags, k + 1)
    }
}

/// The tokens from magnitude `k` on.
spec fn syms_from(pr: Problem, mags: Seq<int>, k: int) -> Seq<Sym> {
    let levels = levels_of(pr, mags);
    let n = pr.first + k;
    let last = pr.first + mags.len() - 1;
    let ctx = ctx_at(pr, mags, k);
    if ctx > 0 || k == 0 {
        coeff_syms(pr.pb, levels, last, n, ctx)
    } else {
        run_syms(pr.pb, levels, last, n, ctx)
    }
}

/// The bits from magnitude `k` on are what its tokens cost.
proof fn lemma_rate_from(pr: Problem, mags: Seq<int>, k: int)
    requires
        pr.wf(),
        is_path(pr, mags),
        mags.len() > 0,
        mags.last() != 0,
        0 <= k <= mags.len(),
    ensures
        rate_from(pr, mags, k) == syms_cost(syms_from(pr, mags, k)),
    decreases mags.len() - k,
{
    let levels = levels_of(pr, mags);
    let n = pr.first + k;
    let last = pr.first + mags.len() - 1;
    let ctx = ctx_at(pr, mags, k);
    if k == mags.len() {
        assert(mags.take(k) =~= mags);
        assert(is_candidate(pr, pr.first + (k - 1), mags[k - 1]));
        if n < 16 {
            lemma_syms_cost_one((pr.pb[BANDS[n] as int][ctx][0], false));
        }
    } else {
        lemma_rate_from(pr, mags, k + 1);
        assert(mags.take(k + 1).last() == mags[k]);
        let m = mags[k];
        assert(is_candidate(pr, pr.first + k, m));
        let c = choose|c: int| 0 <= c < pr.cand_count(n) && m == #[trigger] pr.cand(n, c);
        lemma_nearest(pr, n, c);
        let p = pr.probs(n, ctx);
        let level = signed_level(pr, n, m);
        assert(levels[n] == level);
        let rest = syms_from(pr, mags, k + 1);
        let run = run_syms(pr.pb, levels, last, n, ctx);
        lemma_syms_cost_one((p[0], true));
        lemma_syms_cost_concat(seq![(p[0], true)], run);
        if m == 0 {
            assert(k + 1 < mags.len());
            lemma_syms_cost_concat(seq![(p[1], false)], rest);
        } else {
            lemma_syms_cost_concat(seq![(p[1], true)] + level_syms(p, level), rest);
            lemma_syms_cost_concat(seq![(p[1], true)], level_syms(p, level));
            lemma_syms_cost_concat(seq![(p[1], true)], level_syms(p, m));
            lemma_level_cost_sign(p, level);
        }
    }
}

/// The error and bits of the first `k` magnitudes, added to those of the rest, are those
/// of all.
proof fn lemma_path_split(pr: Problem, mags: Seq<int>, k: int)
    requires
        0 <= pr.first,
        0 <= k <= mags.len(),
        mags.len() <= 16 - pr.first,
    ensures
        path_cost(pr, mags.take(k)) + 256 * error_from(pr, mags, pr.first + k) + pr.lambda * rate_from(
            pr,
            mags,
            k,
        ) == 256 * error_from(pr, mags, pr.first) + pr.lambda * rate_from(pr, mags, 0),
    decreases k,
{
    if k > 0 {
        lemma_path_split(pr, mags, k - 1);
        assert(mags.take(k).drop_last() =~= mags.take(k - 1));
        let r = pr.rate(pr.first + k - 1, ctx_at(pr, mags, k - 1), mags[k - 1]);
        let l = pr.lambda;
        let t = rate_from(pr, mags, k);
        assert(l * (r + t) == l * r + l * t) by (nonlinear_arith);
    }
}

/// The error behind a path is that of leaving the positions at zero.
proof fn lemma_error_behind(pr: Problem, mags: Seq<int>, n: int)
    requires
        pr.first + mags.len() <= n,
    ensures
        error_from(pr, mags, n) == pr.suffix(n),
    decreases 16 - n,
{
    if n < 16 {
        lemma_error_behind(pr, mags, n + 1);
    }
}

/// The cost that the search minimizes is what it stands for: the weighted squared error
/// of the block, and `lambda` times the exact bits of the tokens that emitting its
/// levels writes.
pub proof fn block_cost_is_error_and_bits(pr: Problem, mags: Seq<int>)
    requires
        pr.wf(),
        is_path(pr, mags),
        mags.len() > 0 ==> mags.last() != 0,
    ensures
        block_cost(pr, mags) == 256 * error_from(pr, mags, pr.first) + pr.lambda * syms_cost(
            coeff_syms(
                pr.pb,
                levels_of(pr, mags),
                pr.first + mags.len() - 1,
                pr.first,
                pr.ctx0,
            ),
        ),
{
    let n = pr.first + mags.len();
    lemma_error_behind(pr, mags, n);
    if mags.len() == 0 {
        lemma_syms_cost_one((pr.probs(pr.first, pr.ctx0)[0], false));
    } else {
        assert(mags.take(mags.len() as int) =~= mags);
        assert(mags.take(0) =~= Seq::<int>::empty());
        lemma_path_split(pr, mags, mags.len() as int);
        lemma_rate_from(pr, mags, 0);
    }
}

} // verus!
