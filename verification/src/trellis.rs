//! Rate-distortion ("trellis") quantization.
//!
//! [`trellis_quantize_block`] picks a block's levels by a Viterbi search over zig-zag
//! positions. Every position may take its nearest level, the level below, or zero; the
//! state carried along is the token context of the chosen level. The cost of a path is
//! the weighted squared error plus `lambda` times the exact number of bits of the
//! tokens, and the search is stated as [`trellis_mags`]; that its result is optimal is
//! proved in [`crate::trellis_laws`].

use vstd::prelude::*;

use crate::arith::{abs_i32, abs_int, group_shr};
use crate::coder::Sym;
use crate::constants::{CoeffProbas, Prob, BANDS, CAT_3456, CAT_BITS, ZIGZAG};
use crate::prob_opt::{
    bit_cost, bit_cost_spec, lemma_syms_cost_concat, lemma_syms_cost_one, syms_cost,
};
use crate::quant::{consistent, lemma_zigzag, level_mag, QFactor, QPair, Quantized};
use crate::tokens::{coeff_syms, extra_syms, large_syms, level_syms, next_ctx, run_syms};

verus! {

broadcast use group_shr;

/// Weight of the squared error against the rate.
pub const RD_DISTO_MULT: i64 = 256;

/// A cost no path reaches.
pub const INF: i64 = 0x1fff_ffff_ffff_ffff;

/// Weight of each coefficient's squared error, in natural order.
pub const K_WEIGHT_TRELLIS: [i64; 16] = [
    30, 27, 19, 11, 27, 24, 17, 10, 19, 17, 12, 8, 11, 10, 8, 6,
];

/// The weight of the coefficient at natural position `j`.
pub fn trellis_weight(j: usize) -> (w: i64)
    requires
        j < 16,
    ensures
        w == K_WEIGHT_TRELLIS[j as int],
{
    K_WEIGHT_TRELLIS[j]
}

/// The rate multiplier of an AC step: `7 q^2 / 8`, at least one.
pub open spec fn trellis_lambda_spec(q_ac: int) -> int {
    let l = (7 * q_ac * q_ac) / 8;
    if l < 1 {
        1
    } else {
        l
    }
}

/// The rate multiplier of an AC step.
pub fn trellis_lambda(q_ac: i32) -> (r: i64)
    requires
        -0x1000_0000 <= q_ac <= 0x1000_0000,
    ensures
        r == trellis_lambda_spec(q_ac as int),
        1 <= r,
        -60000 <= q_ac <= 60000 ==> r <= 0x1_0000_0000,
{
    let q: i64 = q_ac as i64;
    assert(0 <= 7 * q * q <= 7 * 0x1000_0000 * 0x1000_0000) by (nonlinear_arith)
        requires
            -0x1000_0000 <= q <= 0x1000_0000,
    ;
    assert(-7 * 0x1000_0000 <= 7 * q <= 7 * 0x1000_0000);
    proof {
        if -60000 <= q <= 60000 {
            assert(7 * q * q <= 7 * 60000 * 60000) by (nonlinear_arith)
                requires
                    -60000 <= q <= 60000,
            ;
        }
    }
    let l: i64 = (7 * q * q) >> 3;
    if l < 1 {
        1
    } else {
        l
    }
}

/// The context that magnitude `m` leaves behind.
pub open spec fn ctx_of_spec(m: int) -> int {
    if m == 0 {
        0
    } else if m == 1 {
        1
    } else {
        2
    }
}

/// The context that magnitude `m` leaves behind.
pub fn ctx_of(m: i32) -> (r: usize)
    ensures
        r == ctx_of_spec(m as int),
        r < 3,
{
    if m == 0 {
        0
    } else if m == 1 {
        1
    } else {
        2
    }
}

fn extra_rate(cat: usize, v: u32, k: usize) -> (r: i64)
    requires
        cat < 4,
        k <= 11,
    ensures
        r == syms_cost(extra_syms(cat as int, v as int, k as nat)),
        0 <= r <= 2048 * k,
    decreases k,
{
    if k == 0 {
        0
    } else {
        proof {
            let head = extra_syms(cat as int, v as int / 2, (k - 1) as nat);
            let s = extra_syms(cat as int, v as int, k as nat);
            assert(s.drop_last() =~= head);
        }
        extra_rate(cat, v / 2, k - 1) + bit_cost(v % 2 == 1, CAT_3456[cat][k - 1]) as i64
    }
}

/// The exact bit cost of the tokens of a magnitude of two or more.
pub fn large_value_rate(m: i32, p: [Prob; 11]) -> (r: i64)
    requires
        2 <= m,
    ensures
        r == syms_cost(large_syms(p, m as int)),
        0 <= r <= 2048 * 15,
{
    reveal(large_syms);
    let ghost s = large_syms(p, m as int);
    if m <= 4 {
        let mut c: i64 = bit_cost(false, p[3]) as i64;
        if m == 2 {
            c = c + bit_cost(false, p[4]) as i64;
            proof {
                lemma_cost_2(s);
            }
        } else {
            c = c + bit_cost(true, p[4]) as i64;
            c = c + bit_cost(m == 4, p[5]) as i64;
            proof {
                lemma_cost_3(s);
            }
        }
        c
    } else if m <= 10 {
        let mut c: i64 = bit_cost(true, p[3]) as i64 + bit_cost(false, p[6]) as i64;
        if m <= 6 {
            c = c + bit_cost(false, p[7]) as i64;
            c = c + bit_cost(m == 6, 159) as i64;
            proof {
                lemma_cost_4(s);
            }
        } else {
            c = c + bit_cost(true, p[7]) as i64;
            c = c + bit_cost(m >= 9, 165) as i64;
            c = c + bit_cost(m == 8 || m == 10, 145) as i64;
            proof {
                lemma_cost_5(s);
            }
        }
        c
    } else {
        let mut c: i64 = bit_cost(true, p[3]) as i64 + bit_cost(true, p[6]) as i64;
        let cat: usize = if m <= 18 {
            0
        } else if m <= 34 {
            1
        } else if m <= 66 {
            2
        } else {
            3
        };
        let base: i32 = if m <= 18 {
            11
        } else if m <= 34 {
            19
        } else if m <= 66 {
            35
        } else {
            67
        };
        c = c + bit_cost(cat >= 2, p[8]) as i64;
        c = c + bit_cost(cat % 2 == 1, p[9 + cat / 2]) as i64;
        proof {
            let head: Seq<Sym> = seq![
                (p[3], true),
                (p[6], true),
                (p[8], cat >= 2),
                (p[9 + cat as int / 2], cat % 2 == 1),
            ];
            lemma_cost_4(head);
            lemma_syms_cost_concat(
                head,
                extra_syms(cat as int, m - base, CAT_BITS[cat as int] as nat),
            );
        }
        c + extra_rate(cat, (m - base) as u32, CAT_BITS[cat])
    }
}

proof fn lemma_cost_2(s: Seq<Sym>)
    requires
        s.len() == 2,
    ensures
        syms_cost(s) == bit_cost_spec(s[0].1, s[0].0) + bit_cost_spec(s[1].1, s[1].0),
{
    let t = s.drop_last();
    assert(t =~= seq![s[0]]);
    lemma_syms_cost_one(s[0]);
}

proof fn lemma_cost_3(s: Seq<Sym>)
    requires
        s.len() == 3,
    ensures
        syms_cost(s) == bit_cost_spec(s[0].1, s[0].0) + bit_cost_spec(s[1].1, s[1].0)
            + bit_cost_spec(s[2].1, s[2].0),
{
    lemma_cost_2(s.drop_last());
}

proof fn lemma_cost_4(s: Seq<Sym>)
    requires
        s.len() == 4,
    ensures
        syms_cost(s) == bit_cost_spec(s[0].1, s[0].0) + bit_cost_spec(s[1].1, s[1].0)
            + bit_cost_spec(s[2].1, s[2].0) + bit_cost_spec(s[3].1, s[3].0),
{
    lemma_cost_3(s.drop_last());
}

proof fn lemma_cost_5(s: Seq<Sym>)
    requires
        s.len() == 5,
    ensures
        syms_cost(s) == bit_cost_spec(s[0].1, s[0].0) + bit_cost_spec(s[1].1, s[1].0)
            + bit_cost_spec(s[2].1, s[2].0) + bit_cost_spec(s[3].1, s[3].0) + bit_cost_spec(
            s[4].1,
            s[4].0,
        ),
{
    lemma_cost_4(s.drop_last());
}

/// The tokens of magnitude `m` at a position, without the leading "more" decision.
pub open spec fn value_syms(p: [Prob; 11], m: int) -> Seq<Sym> {
    if m == 0 {
        seq![(p[1], false)]
    } else {
        seq![(p[1], true)] + level_syms(p, m)
    }
}

/// The sign of a level does not change what its tokens cost.
pub proof fn lemma_level_cost_sign(p: [Prob; 11], level: int)
    ensures
        syms_cost(level_syms(p, level)) == syms_cost(level_syms(p, abs_int(level))),
{
    reveal(level_syms);
    let v = abs_int(level);
    let mag = if v == 1 {
        seq![(p[2], false)]
    } else {
        seq![(p[2], true)] + large_syms(p, v)
    };
    lemma_syms_cost_concat(mag, seq![(128u8, level < 0)]);
    lemma_syms_cost_concat(mag, seq![(128u8, v < 0)]);
    lemma_syms_cost_one((128u8, level < 0));
    lemma_syms_cost_one((128u8, v < 0));
}

/// The exact bit cost of magnitude `m` at a position, without the leading decision.
pub fn value_rate(m: i32, p: [Prob; 11]) -> (r: i64)
    requires
        0 <= m,
    ensures
        r == syms_cost(value_syms(p, m as int)),
        0 <= r <= 40000,
{
    if m == 0 {
        proof {
            lemma_syms_cost_one((p[1], false));
        }
        return bit_cost(false, p[1]) as i64;
    }
    proof {
        reveal(level_syms);
        crate::constants::lemma_even_cost();
        let sign: Seq<Sym> = seq![(128u8, false)];
        lemma_syms_cost_one((128u8, false));
        lemma_syms_cost_one((p[1], true));
        lemma_syms_cost_one((p[2], m != 1));
        let mag = if m == 1 {
            seq![(p[2], false)]
        } else {
            seq![(p[2], true)] + large_syms(p, m as int)
        };
        lemma_syms_cost_concat(mag, sign);
        lemma_syms_cost_concat(seq![(p[2], true)], large_syms(p, m as int));
        lemma_syms_cost_concat(seq![(p[1], true)], level_syms(p, m as int));
    }
    let mut c: i64 = bit_cost(true, p[1]) as i64 + 256;
    if m == 1 {
        c = c + bit_cost(false, p[2]) as i64;
    } else {
        c = c + bit_cost(true, p[2]) as i64;
        c = c + large_value_rate(m, p);
    }
    c
}

/// The exact token cost of a block: the cost of every symbol that emitting it writes.
pub fn block_token_cost(
    levels: [i16; 16],
    first: usize,
    last: i32,
    plane: usize,
    ctx0: usize,
    bands: &CoeffProbas,
) -> (r: i64)
    requires
        plane < 4,
        ctx0 < 3,
        first < 16,
        -1 <= last < 16,
        last >= first ==> levels@[last as int] != 0,
    ensures
        r == syms_cost(
            coeff_syms(bands[plane as int], levels@, last as int, first as int, ctx0 as int),
        ),
        0 <= r <= 50000 * 16,
{
    coeffs_cost_from(&bands[plane], &levels, last, first, ctx0)
}

fn coeffs_cost_from(
    pb: &[[[Prob; 11]; 3]; 8],
    levels: &[i16; 16],
    last: i32,
    n: usize,
    ctx: usize,
) -> (r: i64)
    requires
        ctx < 3,
        n <= 16,
        -1 <= last < 16,
        last >= n ==> levels@[last as int] != 0,
    ensures
        r == syms_cost(coeff_syms(*pb, levels@, last as int, n as int, ctx as int)),
        0 <= r <= 50000 * (16 - n),
    decreases 16 - n, 1int,
{
    if n == 16 {
        return 0;
    }
    let p0: Prob = pb[BANDS[n]][ctx][0];
    if n as i32 > last {
        proof {
            lemma_syms_cost_one((p0, false));
        }
        bit_cost(false, p0) as i64
    } else {
        proof {
            lemma_syms_cost_one((p0, true));
            lemma_syms_cost_concat(
                seq![(p0, true)],
                run_syms(*pb, levels@, last as int, n as int, ctx as int),
            );
        }
        bit_cost(true, p0) as i64 + run_cost_from(pb, levels, last, n, ctx)
    }
}

fn run_cost_from(
    pb: &[[[Prob; 11]; 3]; 8],
    levels: &[i16; 16],
    last: i32,
    n: usize,
    ctx: usize,
) -> (r: i64)
    requires
        ctx < 3,
        n <= last < 16,
        levels@[last as int] != 0,
    ensures
        r == syms_cost(run_syms(*pb, levels@, last as int, n as int, ctx as int)),
        0 <= r <= 50000 * (16 - n) - 5000,
    decreases 16 - n, 0int,
{
    let p: [Prob; 11] = pb[BANDS[n]][ctx];
    assert(p == pb[BANDS[n as int] as int][ctx as int]);
    if levels[n] == 0 {
        proof {
            lemma_syms_cost_concat(
                seq![(p[1], false)],
                run_syms(*pb, levels@, last as int, n + 1, 0),
            );
        }
        value_rate(0, p) + run_cost_from(pb, levels, last, n + 1, 0)
    } else {
        let v: i32 = abs_i32(levels[n] as i32);
        proof {
            let level = levels@[n as int] as int;
            let rest = coeff_syms(*pb, levels@, last as int, n + 1, next_ctx(level));
            lemma_syms_cost_concat(seq![(p[1], true)] + level_syms(p, level), rest);
            lemma_syms_cost_concat(seq![(p[1], true)], level_syms(p, level));
            lemma_syms_cost_concat(seq![(p[1], true)], level_syms(p, v as int));
            lemma_level_cost_sign(p, level);
        }
        let next: usize = if v == 1 {
            1
        } else {
            2
        };
        value_rate(v, p) + coeffs_cost_from(pb, levels, last, n + 1, next)
    }
}

/// One quantization problem.
pub struct Problem {
    /// Coefficients in natural order.
    pub coeffs: Seq<i16>,
    /// Quantizer steps.
    pub pair: QPair,
    /// First coded zig-zag position.
    pub first: int,
    /// Token context the block starts in.
    pub ctx0: int,
    /// Token probabilities.
    pub pb: [[[Prob; 11]; 3]; 8],
    /// Rate multiplier.
    pub lambda: int,
}

/// A partial path: its cost so far and its magnitudes from `first` on.
pub struct Node {
    /// Accumulated cost.
    pub cost: int,
    /// Chosen magnitudes.
    pub mags: Seq<int>,
}

impl Problem {
    /// The magnitude of the coefficient at position `n`.
    pub open spec fn mag_of(&self, n: int) -> int {
        abs_int(self.coeffs[ZIGZAG[n] as int] as int)
    }

    /// The nearest level at position `n`.
    pub open spec fn nearest(&self, n: int) -> int {
        level_mag(self.pair.step(n), self.mag_of(n))
    }

    /// How many magnitudes position `n` may take.
    pub open spec fn cand_count(&self, n: int) -> int {
        if self.nearest(n) >= 2 {
            3
        } else {
            self.nearest(n) + 1
        }
    }

    /// The candidate magnitudes in order: nearest, one less, zero.
    pub open spec fn cand(&self, n: int, c: int) -> int {
        if c == 0 {
            self.nearest(n)
        } else if c == 1 {
            self.nearest(n) - 1
        } else {
            0
        }
    }

    /// The weighted squared error of magnitude `m` at position `n`.
    pub open spec fn dist(&self, n: int, m: int) -> int {
        let err = self.mag_of(n) - m * self.pair.step(n);
        K_WEIGHT_TRELLIS[ZIGZAG[n] as int] * (err * err)
    }

    /// The token probabilities of position `n` in context `ctx`.
    pub open spec fn probs(&self, n: int, ctx: int) -> [Prob; 11] {
        self.pb[BANDS[n] as int][ctx]
    }

    /// The bits of magnitude `m` at position `n` in context `ctx`; the leading "more"
    /// decision is coded at the start and after every non-zero level.
    pub open spec fn rate(&self, n: int, ctx: int, m: int) -> int {
        (if ctx > 0 || n == self.first {
            bit_cost_spec(true, self.probs(n, ctx)[0])
        } else {
            0
        }) + syms_cost(value_syms(self.probs(n, ctx), m))
    }

    /// The cost that magnitude `m` adds.
    pub open spec fn step_cost(&self, n: int, ctx: int, m: int) -> int {
        256 * self.dist(n, m) + self.lambda * self.rate(n, ctx, m)
    }

    /// The error of leaving positions `n..16` at zero.
    pub open spec fn suffix(&self, n: int) -> int
        decreases 16 - n,
    {
        if n >= 16 {
            0
        } else {
            self.suffix(n + 1) + self.dist(n, 0)
        }
    }

    /// The bits that end the block after position `n` in context `ctx`.
    pub open spec fn end_rate(&self, n: int, ctx: int) -> int {
        if n >= 15 {
            0
        } else {
            bit_cost_spec(false, self.probs(n + 1, ctx)[0])
        }
    }

    /// The best path into context `out` at position `n` among the first `k`
    /// extensions, in order of incoming context and candidate; the earlier wins ties.
    pub open spec fn best_of(&self, n: int, before: Seq<Option<Node>>, out: int, k: int) -> Option<Node>
        decreases k,
    {
        if k <= 0 {
            None
        } else {
            let best = self.best_of(n, before, out, k - 1);
            let ci = (k - 1) / 3;
            let c = (k - 1) % 3;
            let m = self.cand(n, c);
            match before[ci] {
                None => best,
                Some(from) => {
                    let cost = from.cost + self.step_cost(n, ci, m);
                    if c < self.cand_count(n) && ctx_of_spec(m) == out && (best is None || cost
                        < best->0.cost) {
                        Some(Node { cost, mags: from.mags.push(m) })
                    } else {
                        best
                    }
                },
            }
        }
    }

    /// The best path into each context at position `n`.
    pub open spec fn row(&self, n: int) -> Seq<Option<Node>>
        decreases n - self.first + 1,
    {
        if n < self.first {
            Seq::new(
                3,
                |i: int|
                    if i == self.ctx0 {
                        Some(Node { cost: 0, mags: Seq::empty() })
                    } else {
                        None
                    },
            )
        } else {
            let before = self.row(n - 1);
            Seq::new(3, |out: int| self.best_of(n, before, out, 9))
        }
    }

    /// The path through `node` at position `n`, ended there.
    pub open spec fn ended(&self, n: int, out: int, node: Node) -> Node {
        Node {
            cost: node.cost + self.lambda * self.end_rate(n, out) + 256 * self.suffix(n + 1),
            mags: node.mags,
        }
    }

    /// The better of a best ended path so far and ending at position `n` in context
    /// `out`.
    pub open spec fn end_or(&self, best: Option<Node>, n: int, out: int) -> Option<Node> {
        match self.row(n)[out] {
            None => best,
            Some(node) => {
                let e = self.ended(n, out, node);
                if best is None || e.cost < best->0.cost {
                    Some(e)
                } else {
                    best
                }
            },
        }
    }

    /// The best ended path whose last non-zero position is at most `n`.
    pub open spec fn best_end(&self, n: int) -> Option<Node>
        decreases n - self.first + 1,
    {
        if n < self.first {
            None
        } else {
            self.end_or(self.end_or(self.best_end(n - 1), n, 1), n, 2)
        }
    }

    /// The cost of coding no level at all.
    pub open spec fn empty_cost(&self) -> int {
        256 * self.suffix(self.first) + self.lambda * bit_cost_spec(
            false,
            self.probs(self.first, self.ctx0)[0],
        )
    }

    /// The problem's numbers are small enough for 64-bit costs.
    pub open spec fn wf(&self) -> bool {
        &&& self.coeffs.len() == 16
        &&& self.pair.wf()
        &&& self.pair.dc.q <= 1024
        &&& self.pair.ac.q <= 1024
        &&& 0 <= self.first < 16
        &&& 0 <= self.ctx0 < 3
        &&& 0 <= self.lambda <= 0x1_0000_0000
    }
}

/// The magnitudes the search chooses, from `first` to the last non-zero one; empty if
/// nothing is coded.
pub open spec fn trellis_mags(pr: Problem) -> Seq<int> {
    match pr.best_end(15) {
        Some(e) => if e.cost < pr.empty_cost() {
            e.mags
        } else {
            Seq::empty()
        },
        None => Seq::empty(),
    }
}

/// The signed level that magnitude `m` stands for at position `n`.
pub open spec fn signed_level(pr: Problem, n: int, m: int) -> int {
    if pr.coeffs[ZIGZAG[n] as int] < 0 {
        -m
    } else {
        m
    }
}

/// The largest cost one position can add.
spec fn step_bound() -> int {
    200_000_000_000_000
}

/// The candidates lie between zero and the nearest level, and reconstruct to less than
/// `2^16`.
pub(crate) proof fn lemma_nearest(pr: Problem, n: int, c: int)
    requires
        pr.wf(),
        0 <= n < 16,
        0 <= c < pr.cand_count(n),
    ensures
        0 <= pr.nearest(n) <= 2047,
        0 <= pr.cand(n, c) <= pr.nearest(n),
        0 <= pr.mag_of(n) <= 32768,
        0 <= pr.cand(n, c) * pr.pair.step(n) <= 34000,
{
    lemma_zigzag(n, 0);
    let q = pr.pair.step(n);
    let a = pr.mag_of(n);
    let iq = (131072 + q / 2) / q;
    let l = (a * iq + 65536) / 131072;
    assert(0 <= iq && iq * q <= 131072 + q / 2) by (nonlinear_arith)
        requires
            iq == (131072 + q / 2) / q,
            1 <= q,
    ;
    assert(0 <= a * iq) by (nonlinear_arith)
        requires
            0 <= a,
            0 <= iq,
    ;
    assert((l * q) * 131072 <= a * (131072 + q / 2) + 65536 * q) by (nonlinear_arith)
        requires
            l * 131072 <= a * iq + 65536,
            iq * q <= 131072 + q / 2,
            0 <= a,
            1 <= q,
            0 <= l,
    ;
    assert(a * (131072 + q / 2) <= 32768 * (131072 + 512)) by (nonlinear_arith)
        requires
            0 <= a <= 32768,
            1 <= q <= 1024,
    ;
    assert(l * q <= 34000);
    let m = pr.cand(n, c);
    assert(0 <= m * q <= l * q) by (nonlinear_arith)
        requires
            0 <= m <= l,
            1 <= q,
    ;
}

proof fn lemma_weight(n: int)
    requires
        0 <= n < 16,
    ensures
        1 <= K_WEIGHT_TRELLIS[ZIGZAG[n] as int] <= 30,
{
    lemma_zigzag(n, 0);
}

proof fn lemma_dist_range(pr: Problem, n: int, m: int)
    requires
        pr.wf(),
        0 <= n < 16,
        0 <= m * pr.pair.step(n) <= 34000,
    ensures
        0 <= pr.dist(n, m) <= 35_000_000_000,
{
    lemma_weight(n);
    lemma_zigzag(n, 0);
    let err = pr.mag_of(n) - m * pr.pair.step(n);
    assert(-34000 <= err <= 34000);
    assert(0 <= err * err <= 34000 * 34000) by (nonlinear_arith)
        requires
            -34000 <= err <= 34000,
    ;
    let w = K_WEIGHT_TRELLIS[ZIGZAG[n] as int] as int;
    assert(0 <= w * (err * err) <= 30 * (34000 * 34000)) by (nonlinear_arith)
        requires
            1 <= w <= 30,
            0 <= err * err <= 34000 * 34000,
    ;
}

proof fn lemma_suffix_range(pr: Problem, n: int)
    requires
        pr.wf(),
        0 <= n <= 16,
    ensures
        0 <= pr.suffix(n) <= 35_000_000_000 * (16 - n),
    decreases 16 - n,
{
    if n < 16 {
        lemma_suffix_range(pr, n + 1);
        assert(0 * pr.pair.step(n) == 0) by (nonlinear_arith);
        lemma_dist_range(pr, n, 0);
    }
}

/// The cost that one extension adds, as the search computes it.
fn step_cost_exec(
    abs_coeff: i32,
    m: i32,
    q: i32,
    weight: i64,
    lambda: i64,
    rate: i64,
    Ghost(pr): Ghost<Problem>,
    Ghost(n): Ghost<int>,
    Ghost(ci): Ghost<int>,
) -> (r: i64)
    requires
        pr.wf(),
        0 <= n < 16,
        abs_coeff == pr.mag_of(n),
        q == pr.pair.step(n),
        weight == K_WEIGHT_TRELLIS[ZIGZAG[n] as int],
        lambda == pr.lambda,
        rate == pr.rate(n, ci, m as int),
        0 <= rate <= 43000,
        0 <= m <= 2047,
        0 <= m * q <= 34000,
    ensures
        r == pr.step_cost(n, ci, m as int),
        0 <= r <= step_bound(),
{
    proof {
        lemma_dist_range(pr, n, m as int);
        lemma_weight(n);
        lemma_zigzag(n, 0);
        let err = abs_coeff - m * q;
        assert(0 <= err * err <= 34000 * 34000) by (nonlinear_arith)
            requires
                -34000 <= err <= 34000,
        ;
        assert(0 <= lambda * rate <= 0x1_0000_0000 * 43000) by (nonlinear_arith)
            requires
                0 <= lambda <= 0x1_0000_0000,
                0 <= rate <= 43000,
        ;
    }
    let err: i64 = abs_coeff as i64 - (m * q) as i64;
    let sq: i64 = err * err;
    let d: i64 = weight * sq;
    256 * d + lambda * rate
}

/// One row of the search tables: per outgoing context the cost, the magnitude chosen
/// and the context it came from.
struct Row {
    cost: [i64; 3],
    mag: [i32; 3],
    prev: [usize; 3],
}

/// Whether `cost` holds the costs of `nodes`, unreachable ones as `INF`.
spec fn costs_of(cost: Seq<i64>, nodes: Seq<Option<Node>>, bound: int) -> bool {
    forall|i: int|
        0 <= i < 3 ==> match nodes[i] {
            None => #[trigger] cost[i] == INF,
            Some(node) => cost[i] == node.cost && 0 <= node.cost <= bound,
        }
}

/// One cost of a row.
proof fn lemma_cost_at(cost: Seq<i64>, nodes: Seq<Option<Node>>, bound: int, i: int)
    requires
        costs_of(cost, nodes, bound),
        0 <= i < 3,
    ensures
        match nodes[i] {
            None => cost[i] == INF,
            Some(node) => cost[i] == node.cost && 0 <= node.cost <= bound,
        },
{
    let c = cost[i];
}

/// Whether a row's entry `out` is `node`, reached from `before`.
spec fn entry_of(
    cost: i64,
    mag: i32,
    prev: usize,
    node: Option<Node>,
    before: Seq<Option<Node>>,
    out: int,
    bound: int,
) -> bool {
    match node {
        None => cost == INF,
        Some(nd) => {
            &&& cost == nd.cost
            &&& 0 <= nd.cost <= bound
            &&& nd.mags.len() > 0
            &&& mag == nd.mags.last()
            &&& 0 <= mag <= 2047
            &&& ctx_of_spec(mag as int) == out
            &&& prev < 3
            &&& before[prev as int] is Some
            &&& nd.mags.drop_last() == before[prev as int]->0.mags
        },
    }
}

/// Whether a row holds the best paths of position `n`.
spec fn row_of(r: Row, pr: Problem, n: int) -> bool {
    forall|out: int|
        0 <= out < 3 ==> entry_of(
            r.cost@[out],
            r.mag@[out],
            #[trigger] r.prev@[out],
            pr.row(n)[out],
            pr.row(n - 1),
            out,
            step_bound() * (n - pr.first + 1),
        )
}

/// Compute one row of the search from the costs of the row before.
#[verifier::rlimit(60)]
fn viterbi_row(
    coeffs: &[i16; 16],
    pair: QPair,
    first: usize,
    pb: &[[[Prob; 11]; 3]; 8],
    lambda: i64,
    n: usize,
    prev_cost: [i64; 3],
    Ghost(pr): Ghost<Problem>,
) -> (r: Row)
    requires
        pr.wf(),
        pr.coeffs == coeffs@,
        pr.pair == pair,
        pr.first == first,
        pr.pb == *pb,
        pr.lambda == lambda,
        first <= n < 16,
        costs_of(prev_cost@, pr.row(n - 1), step_bound() * (n - first)),
    ensures
        row_of(r, pr, n as int),
{
    let j: usize = ZIGZAG[n];
    proof {
        lemma_zigzag(n as int, 0);
        lemma_weight(n as int);
    }
    let factor: QFactor = if n == 0 {
        pair.dc
    } else {
        pair.ac
    };
    let q: i32 = factor.q;
    let abs_coeff: i32 = abs_i32(coeffs[j] as i32);
    let l0: i32 = factor.quantize(abs_coeff);
    let weight: i64 = trellis_weight(j);
    let count: usize = if l0 >= 2 {
        3
    } else {
        (l0 + 1) as usize
    };
    let ghost before = pr.row(n - 1);
    let ghost bound = step_bound() * (n - first + 1);
    let mut r = Row { cost: [INF; 3], mag: [0i32; 3], prev: [0usize; 3] };
    assert(pr.nearest(n as int) == l0);
    assert(pr.cand_count(n as int) == count);
    let mut ci: usize = 0;
    while ci < 3
        invariant
            ci <= 3,
            pr.wf(),
            pr.first == first,
            pr.pb == *pb,
            pr.lambda == lambda,
            first <= n < 16,
            before == pr.row(n - 1),
            bound == step_bound() * (n - first + 1),
            costs_of(prev_cost@, before, step_bound() * (n - first)),
            abs_coeff == pr.mag_of(n as int),
            q == pr.pair.step(n as int),
            weight == K_WEIGHT_TRELLIS[ZIGZAG[n as int] as int],
            l0 == pr.nearest(n as int),
            0 <= l0 <= 2047,
            count == pr.cand_count(n as int),
            1 <= count <= 3,
            forall|out: int|
                0 <= out < 3 ==> entry_of(
                    r.cost@[out],
                    r.mag@[out],
                    #[trigger] r.prev@[out],
                    pr.best_of(n as int, before, out, 3 * ci as int),
                    before,
                    out,
                    bound,
                ),
        decreases 3 - ci,
    {
        assert(match before[ci as int] {
            None => prev_cost@[ci as int] == INF,
            Some(node) => prev_cost@[ci as int] == node.cost && 0 <= node.cost <= step_bound() * (n
                - first),
        });
        if prev_cost[ci] < INF {
            let p: [Prob; 11] = pb[BANDS[n]][ci];
            assert(p == pr.probs(n as int, ci as int));
            let more: i64 = if ci > 0 || n == first {
                bit_cost(true, p[0]) as i64
            } else {
                0
            };
            let mut c: usize = 0;
            while c < 3
                invariant
                    c <= 3,
                    ci < 3,
                    pr.wf(),
                    pr.first == first,
                    pr.lambda == lambda,
                    first <= n < 16,
                    before == pr.row(n - 1),
                    before[ci as int] is Some,
                    prev_cost@[ci as int] == before[ci as int]->0.cost,
                    0 <= prev_cost@[ci as int] <= step_bound() * (n - first),
                    bound == step_bound() * (n - first + 1),
                    p == pr.probs(n as int, ci as int),
                    more == (if ci > 0 || n == pr.first {
                        bit_cost_spec(true, p[0])
                    } else {
                        0
                    }),
                    0 <= more <= 2048,
                    abs_coeff == pr.mag_of(n as int),
                    q == pr.pair.step(n as int),
                    weight == K_WEIGHT_TRELLIS[ZIGZAG[n as int] as int],
                    l0 == pr.nearest(n as int),
                    0 <= l0 <= 2047,
                    count == pr.cand_count(n as int),
                    forall|out: int|
                        0 <= out < 3 ==> entry_of(
                            r.cost@[out],
                            r.mag@[out],
                            #[trigger] r.prev@[out],
                            pr.best_of(n as int, before, out, 3 * ci + c),
                            before,
                            out,
                            bound,
                        ),
                decreases 3 - c,
            {
                let ghost k = 3 * ci + c + 1;
                assert((k - 1) / 3 == ci && (k - 1) % 3 == c);
                if c < count {
                    let m: i32 = if c == 0 {
                        l0
                    } else if c == 1 {
                        l0 - 1
                    } else {
                        0
                    };
                    proof {
                        lemma_nearest(pr, n as int, c as int);
                        assert(m == pr.cand(n as int, c as int));
                    }
                    let rate: i64 = more + value_rate(m, p);
                    let cost: i64 = prev_cost[ci] + step_cost_exec(
                        abs_coeff,
                        m,
                        q,
                        weight,
                        lambda,
                        rate,
                        Ghost(pr),
                        Ghost(n as int),
                        Ghost(ci as int),
                    );
                    let out: usize = ctx_of(m);
                    let ghost old_entry = r.prev@[out as int];
                    if cost < r.cost[out] {
                        r.cost[out] = cost;
                        r.mag[out] = m;
                        r.prev[out] = ci;
                        proof {
                            let mags = before[ci as int]->0.mags.push(m as int);
                            assert(mags.drop_last() =~= before[ci as int]->0.mags);
                        }
                    }
                    proof {
                        assert forall|o: int| 0 <= o < 3 implies entry_of(
                            r.cost@[o],
                            r.mag@[o],
                            #[trigger] r.prev@[o],
                            pr.best_of(n as int, before, o, k),
                            before,
                            o,
                            bound,
                        ) by {}
                    }
                } else {
                    assert forall|o: int| 0 <= o < 3 implies entry_of(
                        r.cost@[o],
                        r.mag@[o],
                        #[trigger] r.prev@[o],
                        pr.best_of(n as int, before, o, k),
                        before,
                        o,
                        bound,
                    ) by {}
                }
                c = c + 1;
            }
        } else {
            proof {
                assert(before[ci as int] is None);
                reveal_with_fuel(Problem::best_of, 4);
                assert((3 * ci) / 3 == ci && (3 * ci + 1) / 3 == ci && (3 * ci + 2) / 3 == ci);
            }
        }
        ci = ci + 1;
    }
    r
}

/// Rate-distortion optimal levels of one block (natural order) from zig-zag position
/// `first`, in token context `ctx0`, for token plane `plane`.
#[verifier::rlimit(60)]
pub fn trellis_quantize_block(
    coeffs: [i16; 16],
    pair: QPair,
    first: usize,
    ctx0: usize,
    plane: usize,
    bands: &CoeffProbas,
    lambda: i64,
) -> (r: Quantized)
    requires
        pair.wf(),
        pair.dc.q <= 1024,
        pair.ac.q <= 1024,
        first < 16,
        ctx0 < 3,
        plane < 4,
        0 <= lambda <= 0x1_0000_0000,
    ensures
        consistent(r, pair, first as int),
        ({
            let pr = Problem {
                coeffs: coeffs@,
                pair,
                first: first as int,
                ctx0: ctx0 as int,
                pb: bands[plane as int],
                lambda: lambda as int,
            };
            let mags = trellis_mags(pr);
            &&& r.last == first + mags.len() - 1
            &&& forall|n: int|
                first <= n < first + mags.len() ==> #[trigger] r.levels@[n] == signed_level(
                    pr,
                    n,
                    mags[n - first],
                )
        }),
{
    let ghost pr = Problem {
        coeffs: coeffs@,
        pair,
        first: first as int,
        ctx0: ctx0 as int,
        pb: bands[plane as int],
        lambda: lambda as int,
    };
    let mut suffix: [i64; 17] = [0i64; 17];
    let mut i: usize = 16;
    while i > first
        invariant
            first <= i <= 16,
            pr.wf(),
            pr.coeffs == coeffs@,
            forall|k: int| i <= k <= 16 ==> #[trigger] suffix@[k] == pr.suffix(k),
        decreases i,
    {
        let n: usize = i - 1;
        let j: usize = ZIGZAG[n];
        proof {
            lemma_zigzag(n as int, 0);
            lemma_weight(n as int);
            lemma_suffix_range(pr, n + 1);
            let c = coeffs@[j as int] as int;
            let a = pr.mag_of(n as int);
            let z = 0 * pr.pair.step(n as int);
            assert(z == 0) by (nonlinear_arith)
                requires
                    z == 0 * pr.pair.step(n as int),
            ;
            assert(c * c == a * a) by (nonlinear_arith)
                requires
                    a == c || a == -c,
            ;
            assert(0 <= c * c <= 32768 * 32768) by (nonlinear_arith)
                requires
                    -32768 <= c <= 32768,
            ;
        }
        let c: i64 = coeffs[j] as i64;
        let sq: i64 = c * c;
        let w: i64 = trellis_weight(j);
        assert(0 <= w * sq <= 30 * (32768 * 32768)) by (nonlinear_arith)
            requires
                1 <= w <= 30,
                0 <= sq <= 32768 * 32768,
        ;
        suffix[n] = suffix[n + 1] + w * sq;
        i = n;
    }
    let pb: [[[Prob; 11]; 3]; 8] = bands[plane];
    let mut mag: [[i32; 3]; 16] = [[0i32; 3]; 16];
    let mut prev: [[usize; 3]; 16] = [[0usize; 3]; 16];
    let mut prev_cost: [i64; 3] = [INF; 3];
    prev_cost[ctx0] = 0;
    let mut best_total: i64 = INF;
    let mut best_n: usize = 0;
    let mut best_out: usize = 0;
    let mut n: usize = first;
    while n < 16
        invariant
            first <= n <= 16,
            first < 16,
            pr.wf(),
            pr.coeffs == coeffs@,
            pr.pair == pair,
            pr.first == first,
            pr.pb == pb,
            pr.lambda == lambda,
            costs_of(prev_cost@, pr.row(n - 1), step_bound() * (n - first)),
            forall|k: int| first <= k <= 16 ==> #[trigger] suffix@[k] == pr.suffix(k),
            forall|k: int| first <= k < n ==> table_row(#[trigger] mag@[k], prev@[k], pr, k),
            match pr.best_end(n - 1) {
                None => best_total == INF,
                Some(e) => {
                    &&& best_total == e.cost
                    &&& e.cost < INF
                    &&& first <= best_n < n
                    &&& 1 <= best_out < 3
                    &&& pr.row(best_n as int)[best_out as int] is Some
                    &&& pr.row(best_n as int)[best_out as int]->0.mags == e.mags
                },
            },
        decreases 16 - n,
    {
        let r: Row = viterbi_row(&coeffs, pair, first, &pb, lambda, n, prev_cost, Ghost(pr));
        mag[n] = r.mag;
        prev[n] = r.prev;
        proof {
            lemma_suffix_range(pr, n + 1);
            assert forall|out: int| 0 <= out < 3 implies match pr.row(n as int)[out] {
                None => #[trigger] r.cost@[out] == INF,
                Some(node) => r.cost@[out] == node.cost && 0 <= node.cost <= step_bound() * (n - first
                    + 1),
            } by {
                let t = r.prev@[out];
            }
            assert(table_row(mag@[n as int], prev@[n as int], pr, n as int)) by {
                assert forall|out: int| 0 <= out < 3 implies table_entry(
                    mag@[n as int]@[out],
                    #[trigger] prev@[n as int]@[out],
                    pr,
                    n as int,
                    out,
                ) by {
                    let t = r.prev@[out];
                }
            }
        }
        let ghost e0 = pr.best_end(n - 1);
        let ghost e1 = pr.end_or(e0, n as int, 1);
        let mut out: usize = 1;
        while out < 3
            invariant
                1 <= out <= 3,
                first <= n < 16,
                pr.wf(),
                pr.first == first,
                pr.pb == pb,
                pr.lambda == lambda,
                0 <= pr.suffix(n + 1) <= 35_000_000_000 * 16,
                suffix@[n + 1] == pr.suffix(n + 1),
                costs_of(r.cost@, pr.row(n as int), step_bound() * (n - first + 1)),
                e0 == pr.best_end(n - 1),
                e1 == pr.end_or(e0, n as int, 1),
                ({
                    let e = if out == 1 {
                        e0
                    } else if out == 2 {
                        e1
                    } else {
                        pr.end_or(e1, n as int, 2)
                    };
                    match e {
                        None => best_total == INF,
                        Some(e) => {
                            &&& best_total == e.cost
                            &&& e.cost < INF
                            &&& first <= best_n <= n
                            &&& 1 <= best_out < 3
                            &&& pr.row(best_n as int)[best_out as int] is Some
                            &&& pr.row(best_n as int)[best_out as int]->0.mags == e.mags
                        },
                    }
                }),
            decreases 3 - out,
        {
            proof {
                lemma_cost_at(
                    r.cost@,
                    pr.row(n as int),
                    step_bound() * (n - first + 1),
                    out as int,
                );
            }
            if r.cost[out] < INF {
                let eob: i64 = if n == 15 {
                    0
                } else {
                    bit_cost(false, pb[BANDS[n + 1]][out][0]) as i64
                };
                assert(eob == pr.end_rate(n as int, out as int));
                assert(0 <= lambda * eob <= 0x1_0000_0000 * 2048) by (nonlinear_arith)
                    requires
                        0 <= lambda <= 0x1_0000_0000,
                        0 <= eob <= 2048,
                ;
                let total: i64 = r.cost[out] + lambda * eob + 256 * suffix[n + 1];
                if total < best_total {
                    best_total = total;
                    best_n = n;
                    best_out = out;
                }
            }
            out = out + 1;
        }
        prev_cost = r.cost;
        n = n + 1;
    }
    proof {
        lemma_suffix_range(pr, first as int);
    }
    let end0: i64 = bit_cost(false, pb[BANDS[first]][ctx0][0]) as i64;
    assert(0 <= lambda * end0 <= 0x1_0000_0000 * 2048) by (nonlinear_arith)
        requires
            0 <= lambda <= 0x1_0000_0000,
            0 <= end0 <= 2048,
    ;
    let empty_total: i64 = 256 * suffix[first] + lambda * end0;
    let mut levels: [i16; 16] = [0i16; 16];
    let mut recon: [i16; 16] = [0i16; 16];
    proof {
        assert forall|k: int| 0 <= k < 16 implies recon@[ZIGZAG[k] as int] == (#[trigger] levels@[k]
            * pair.step(k)) as i16 by {
            lemma_zigzag(k, 0);
            let s = pair.step(k);
            assert(0 * s == 0) by (nonlinear_arith);
        }
    }
    if best_total >= empty_total {
        return Quantized { levels, recon, last: first as i32 - 1 };
    }
    let ghost mags = trellis_mags(pr);
    proof {
        lemma_row_len(pr, best_n as int, best_out as int);
    }
    let mut out: usize = best_out;
    let mut k: usize = best_n + 1;
    while k > first
        invariant
            first <= k <= best_n + 1,
            best_n < 16,
            pr.wf(),
            pr.coeffs == coeffs@,
            pr.pair == pair,
            pr.first == first,
            mags.len() == best_n - first + 1,
            1 <= best_out < 3,
            k == best_n + 1 ==> out == best_out,
            out < 3,
            pr.row(k - 1)[out as int] is Some,
            pr.row(k - 1)[out as int]->0.mags == mags.take(k - first),
            forall|i: int|
                first <= i <= best_n ==> table_row(#[trigger] mag@[i], prev@[i], pr, i),
            forall|i: int|
                (0 <= i < k || best_n < i < 16) && 0 <= i ==> #[trigger] levels@[i] == 0,
            forall|i: int|
                k <= i <= best_n ==> #[trigger] levels@[i] == signed_level(pr, i, mags[i - first]),
            forall|i: int| 0 <= i < 16 ==> -2047 <= #[trigger] levels@[i] <= 2047,
            forall|i: int|
                0 <= i < 16 ==> recon@[ZIGZAG[i] as int] == (#[trigger] levels@[i] * pair.step(i)) as i16,
            k <= best_n ==> levels@[best_n as int] != 0,
        decreases k,
    {
        let i: usize = k - 1;
        proof {
            let t = mag@[i as int];
            assert(table_row(mag@[i as int], prev@[i as int], pr, i as int));
            assert(table_entry(
                mag@[i as int]@[out as int],
                prev@[i as int]@[out as int],
                pr,
                i as int,
                out as int,
            ));
            lemma_zigzag(i as int, 0);
        }
        let m: i32 = mag[i][out];
        let j: usize = ZIGZAG[i];
        let q: i32 = if i == 0 {
            pair.dc.q
        } else {
            pair.ac.q
        };
        let signed: i32 = if coeffs[j] < 0 {
            -m
        } else {
            m
        };
        assert(-2047 * 1024 <= signed * q <= 2047 * 1024) by (nonlinear_arith)
            requires
                -2047 <= signed <= 2047,
                1 <= q <= 1024,
        ;
        let ghost levels0 = levels@;
        levels[i] = signed as i16;
        recon[j] = (signed * q) as i16;
        proof {
            assert(mags.take(k - first).last() == mags[i - first]);
            assert(mags.take(k - first).drop_last() =~= mags.take(i - first));
            assert forall|x: int| 0 <= x < 16 implies recon@[ZIGZAG[x] as int] == (
            #[trigger] levels@[x] * pair.step(x)) as i16 by {
                lemma_zigzag(x, i as int);
                if x != i {
                    assert(levels0[x] == levels@[x]);
                }
            }
        }
        out = prev[i][out];
        k = i;
    }
    Quantized { levels, recon, last: best_n as i32 }
}

/// Whether a stored magnitude and back pointer are those of the best path.
spec fn table_entry(mag: i32, prev: usize, pr: Problem, n: int, out: int) -> bool {
    match pr.row(n)[out] {
        None => true,
        Some(nd) => {
            &&& nd.mags.len() > 0
            &&& mag == nd.mags.last()
            &&& 0 <= mag <= 2047
            &&& ctx_of_spec(mag as int) == out
            &&& prev < 3
            &&& pr.row(n - 1)[prev as int] is Some
            &&& nd.mags.drop_last() == pr.row(n - 1)[prev as int]->0.mags
        },
    }
}

spec fn table_row(mag: [i32; 3], prev: [usize; 3], pr: Problem, n: int) -> bool {
    forall|out: int|
        0 <= out < 3 ==> table_entry(mag@[out], #[trigger] prev@[out], pr, n, out)
}

/// A path at position `n` has one magnitude per position.
pub proof fn lemma_row_len(pr: Problem, n: int, out: int)
    requires
        pr.row(n)[out] is Some,
        pr.first - 1 <= n,
        0 <= out < 3,
    ensures
        pr.row(n)[out]->0.mags.len() == n - pr.first + 1,
    decreases n - pr.first + 1, 0int,
{
    if n >= pr.first {
        lemma_best_len(pr, n, out, 9);
    }
}

/// The magnitudes of a path are candidates.
pub proof fn lemma_row_mags(pr: Problem, n: int, out: int, i: int)
    requires
        pr.row(n)[out] is Some,
        pr.first - 1 <= n,
        0 <= out < 3,
        0 <= i < n - pr.first + 1,
    ensures
        is_candidate(pr, pr.first + i, pr.row(n)[out]->0.mags[i]),
    decreases n - pr.first + 1, 0int,
{
    lemma_best_mags(pr, n, out, 9, i);
}

/// Whether position `n` may take magnitude `m`.
pub open spec fn is_candidate(pr: Problem, n: int, m: int) -> bool {
    exists|c: int| 0 <= c < pr.cand_count(n) && m == #[trigger] pr.cand(n, c)
}

proof fn lemma_best_mags(pr: Problem, n: int, out: int, k: int, i: int)
    requires
        pr.first <= n,
        0 <= k <= 9,
        pr.best_of(n, pr.row(n - 1), out, k) is Some,
        0 <= i < n - pr.first + 1,
    ensures
        is_candidate(pr, pr.first + i, pr.best_of(n, pr.row(n - 1), out, k)->0.mags[i]),
    decreases n - pr.first, k,
{
    let before = pr.row(n - 1);
    let ci = (k - 1) / 3;
    let c = (k - 1) % 3;
    if pr.best_of(n, before, out, k) != pr.best_of(n, before, out, k - 1) {
        lemma_row_len(pr, n - 1, ci);
        if i < n - pr.first {
            lemma_row_mags(pr, n - 1, ci, i);
        } else {
            assert(pr.best_of(n, before, out, k)->0.mags[i] == pr.cand(n, c));
        }
    } else {
        lemma_best_mags(pr, n, out, k - 1, i);
    }
}

/// The best ended path is a path of some row.
pub proof fn lemma_best_end_row(pr: Problem, n: int) -> (at: (int, int))
    requires
        pr.best_end(n) is Some,
    ensures
        pr.first <= at.0 <= n,
        1 <= at.1 <= 2,
        pr.row(at.0)[at.1] is Some,
        pr.best_end(n)->0.mags == pr.row(at.0)[at.1]->0.mags,
    decreases n - pr.first + 1,
{
    let a = pr.best_end(n - 1);
    let b = pr.end_or(a, n, 1);
    let c = pr.end_or(b, n, 2);
    if c != b {
        (n, 2)
    } else if b != a {
        (n, 1)
    } else {
        lemma_best_end_row(pr, n - 1)
    }
}

/// The chosen magnitudes are candidates, at most up to the last position.
pub proof fn lemma_mags(pr: Problem, i: int)
    requires
        0 <= pr.first < 16,
    ensures
        trellis_mags(pr).len() <= 16 - pr.first,
        0 <= i < trellis_mags(pr).len() ==> is_candidate(pr, pr.first + i, trellis_mags(pr)[i]),
{
    if trellis_mags(pr).len() > 0 {
        let (n, out) = lemma_best_end_row(pr, 15);
        lemma_row_len(pr, n, out);
        if 0 <= i < trellis_mags(pr).len() {
            lemma_row_mags(pr, n, out, i);
        }
    }
}

proof fn lemma_best_len(pr: Problem, n: int, out: int, k: int)
    requires
        pr.first <= n,
        0 <= k <= 9,
        pr.best_of(n, pr.row(n - 1), out, k) is Some,
    ensures
        pr.best_of(n, pr.row(n - 1), out, k)->0.mags.len() == n - pr.first + 1,
    decreases n - pr.first, k,
{
    let before = pr.row(n - 1);
    let ci = (k - 1) / 3;
    if pr.best_of(n, before, out, k) != pr.best_of(n, before, out, k - 1) {
        lemma_row_len(pr, n - 1, ci);
    } else {
        lemma_best_len(pr, n, out, k - 1);
    }
}

} // verus!
