//! Forward quantization and the quality scale.
//!
//! A level reconstructs to `level * q`, exactly the value a decoder recovers for it;
//! the quantizer steps are derived from the base index exactly as a decoder derives
//! them.

use vstd::prelude::*;

use crate::arith::{clamp_int, group_shr};
use crate::constants::{
    ac_step, ac_table, dc_step, dc_table, quality_curve, quality_index, ZIGZAG,
};
use crate::decode::QuantMatrix;
use crate::header::{clip_q, clip_uv, no_deltas, steps_of, y2_ac_step};

verus! {

broadcast use group_shr;

/// A quantizer step and its fixed-point reciprocal.
#[derive(Clone, Copy, PartialEq, Eq, Debug)]
pub struct QFactor {
    /// The step: level `l` reconstructs to `l * q`.
    pub q: i32,
    /// The reciprocal of `q`, scaled by `2^17` and rounded.
    pub iq: i32,
}

/// The magnitude that a coefficient of magnitude `c` is quantized to with step `q`:
/// round to nearest by the fixed-point reciprocal, limited to the codable range.
pub open spec fn level_mag(q: int, c: int) -> int {
    let l = (c * ((131072 + q / 2) / q) + 65536) / 131072;
    if l > 2047 {
        2047
    } else {
        l
    }
}

/// The level of coefficient `c` with step `q`.
pub open spec fn level_of(q: int, c: int) -> int {
    if c < 0 {
        -level_mag(q, -c)
    } else {
        level_mag(q, c)
    }
}

impl QFactor {
    /// The reciprocal belongs to the step.
    pub open spec fn wf(&self) -> bool {
        &&& 1 <= self.q <= 65536
        &&& self.iq == (131072 + self.q as int / 2) / self.q as int
    }

    /// The factor of step `q`.
    pub fn new(q: i32) -> (r: Self)
        requires
            1 <= q <= 65536,
        ensures
            r.wf(),
            r.q == q,
    {
        QFactor { q, iq: (131072 + q / 2) / q }
    }

    /// Quantize a coefficient.
    pub fn quantize(self, coeff: i32) -> (level: i32)
        requires
            self.wf(),
        ensures
            level == level_of(self.q as int, coeff as int),
            -2047 <= level <= 2047,
            coeff > 0 ==> level >= 0,
            coeff == 0 ==> level == 0,
            coeff < 0 ==> level <= 0,
    {
        let c: i64 = if coeff < 0 {
            -(coeff as i64)
        } else {
            coeff as i64
        };
        proof {
            let q = self.q as int;
            assert(0 <= self.iq <= 131072) by (nonlinear_arith)
                requires
                    self.iq == (131072 + q / 2) / q,
                    1 <= q <= 65536,
            ;
            assert(0 <= c * self.iq <= 2147483648 * 131072) by (nonlinear_arith)
                requires
                    0 <= c <= 2147483648,
                    0 <= self.iq <= 131072,
            ;
            if c == 0 {
                assert(c * self.iq == 0) by (nonlinear_arith)
                    requires
                        c == 0,
                ;
            }
        }
        let l: i64 = (c * self.iq as i64 + 65536) >> 17;
        let level: i32 = if l > 2047 {
            2047
        } else {
            l as i32
        };
        if coeff < 0 {
            -level
        } else {
            level
        }
    }
}

/// The DC and AC factors of one plane class.
#[derive(Clone, Copy, PartialEq, Eq, Debug)]
pub struct QPair {
    /// DC factor.
    pub dc: QFactor,
    /// AC factor.
    pub ac: QFactor,
}

impl QPair {
    /// Both reciprocals belong to their steps.
    pub open spec fn wf(&self) -> bool {
        self.dc.wf() && self.ac.wf()
    }

    /// The step at zig-zag index `n`.
    pub open spec fn step(&self, n: int) -> int {
        if n == 0 {
            self.dc.q as int
        } else {
            self.ac.q as int
        }
    }

    /// The pair as dequantization steps.
    pub open spec fn is_steps(&self, dq: [i32; 2]) -> bool {
        dq@[0] == self.dc.q && dq@[1] == self.ac.q
    }
}

/// The factors of one quantizer index.
#[derive(Clone, Copy, PartialEq, Eq, Debug)]
pub struct Quantizer {
    /// Luma.
    pub y1: QPair,
    /// Second-order luma.
    pub y2: QPair,
    /// Chroma.
    pub uv: QPair,
}

impl Quantizer {
    /// Every factor is well formed and at most the coarsest table step.
    pub open spec fn wf(&self) -> bool {
        &&& self.y1.wf() && self.y2.wf() && self.uv.wf()
        &&& 4 <= self.y1.dc.q <= 157 && 4 <= self.y1.ac.q <= 284
        &&& 8 <= self.y2.dc.q <= 314 && 8 <= self.y2.ac.q <= 440
        &&& 4 <= self.uv.dc.q <= 157 && 4 <= self.uv.ac.q <= 284
    }

    /// Whether a decoder's steps are these factors' steps.
    pub open spec fn matches(&self, m: QuantMatrix) -> bool {
        self.y1.is_steps(m.y1) && self.y2.is_steps(m.y2) && self.uv.is_steps(m.uv)
    }

    /// The factors for quantizer index `base_q`, clamped to the tables.
    pub fn new(base_q: i32) -> (r: Self)
        ensures
            r.wf(),
            quantizer_of(r, base_q as int),
    {
        let i: usize = clip_q(base_q) as usize;
        let dc: i32 = dc_step(i) as i32;
        let ac: i32 = ac_step(i) as i32;
        let uv_dc: i32 = dc_step(clip_uv(base_q) as usize) as i32;
        let y2: i32 = (ac * 101581) >> 16;
        let y2_ac: i32 = if y2 < 8 {
            8
        } else {
            y2
        };
        Quantizer {
            y1: QPair { dc: QFactor::new(dc), ac: QFactor::new(ac) },
            y2: QPair { dc: QFactor::new(dc * 2), ac: QFactor::new(y2_ac) },
            uv: QPair { dc: QFactor::new(uv_dc), ac: QFactor::new(ac) },
        }
    }
}

/// Whether `r` holds the steps of quantizer index `q`.
pub open spec fn quantizer_of(r: Quantizer, q: int) -> bool {
    &&& r.y1.dc.q == dc_table(clamp_int(q, 0, 127))
    &&& r.y1.ac.q == ac_table(clamp_int(q, 0, 127))
    &&& r.y2.dc.q == 2 * dc_table(clamp_int(q, 0, 127))
    &&& r.y2.ac.q == y2_ac_step(ac_table(clamp_int(q, 0, 127)) as int)
    &&& r.uv.dc.q == dc_table(clamp_int(q, 0, 117))
    &&& r.uv.ac.q == ac_table(clamp_int(q, 0, 127))
}

/// The encoder's factors and the decoder's steps for the same index agree.
pub proof fn quantizer_matches_decoder(r: Quantizer, m: QuantMatrix, q: int)
    requires
        quantizer_of(r, q),
        steps_of(m, q, no_deltas()),
    ensures
        r.matches(m),
{
}

/// One quantized block.
#[derive(Clone, Copy, PartialEq, Eq, Debug)]
pub struct Quantized {
    /// Signed levels in zig-zag order.
    pub levels: [i16; 16],
    /// The coefficients the levels reconstruct to, in natural order.
    pub recon: [i16; 16],
    /// Zig-zag index of the last non-zero level, or `first - 1`.
    pub last: i32,
}

/// Whether a quantized block is consistent: levels below `first` are zero, every
/// coefficient is its level times the step, and `last` is the last non-zero level.
pub open spec fn consistent(r: Quantized, pair: QPair, first: int) -> bool {
    &&& forall|n: int| 0 <= n < first ==> #[trigger] r.levels@[n] == 0
    &&& forall|n: int| 0 <= n < 16 ==> -2047 <= #[trigger] r.levels@[n] <= 2047
    &&& forall|n: int|
        0 <= n < 16 ==> r.recon@[ZIGZAG[n] as int] == (#[trigger] r.levels@[n] * pair.step(n)) as i16
    &&& first - 1 <= r.last < 16
    &&& (r.last >= first ==> r.levels@[r.last as int] != 0)
    &&& forall|n: int| r.last < n < 16 && 0 <= n ==> #[trigger] r.levels@[n] == 0
}

/// Zig-zag order is a permutation.
pub proof fn lemma_zigzag(a: int, b: int)
    requires
        0 <= a < 16,
        0 <= b < 16,
    ensures
        0 <= ZIGZAG[a] < 16,
        ZIGZAG[a] == ZIGZAG[b] ==> a == b,
        ZIGZAG[a] == 0 ==> a == 0,
        ZIGZAG[0] == 0,
{
}

/// Quantize a block (natural order) from zig-zag index `first` on, each coefficient
/// to the nearest level.
pub fn quantize_block(coeffs: [i16; 16], dc: QFactor, ac: QFactor, first: usize) -> (r: Quantized)
    requires
        dc.wf(),
        ac.wf(),
        first <= 16,
    ensures
        consistent(r, QPair { dc, ac }, first as int),
        forall|n: int|
            first <= n < 16 ==> #[trigger] r.levels@[n] == level_of(
                (QPair { dc, ac }).step(n),
                coeffs@[ZIGZAG[n] as int] as int,
            ),
{
    let ghost pair = QPair { dc, ac };
    let mut levels: [i16; 16] = [0i16; 16];
    let mut recon: [i16; 16] = [0i16; 16];
    let mut last: i32 = first as i32 - 1;
    let mut n: usize = first;
    proof {
        assert forall|k: int| 0 <= k < 16 implies recon@[ZIGZAG[k] as int] == (#[trigger] levels@[k]
            * pair.step(k)) as i16 by {
            lemma_zigzag(k, 0);
            let s = pair.step(k);
            assert(0 * s == 0) by (nonlinear_arith);
        }
    }
    while n < 16
        invariant
            first <= n <= 16,
            dc.wf(),
            ac.wf(),
            pair == (QPair { dc, ac }),
            forall|k: int| 0 <= k < first ==> #[trigger] levels@[k] == 0,
            forall|k: int| n <= k < 16 ==> #[trigger] levels@[k] == 0,
            forall|k: int| 0 <= k < 16 ==> -2047 <= #[trigger] levels@[k] <= 2047,
            forall|k: int|
                0 <= k < 16 ==> recon@[ZIGZAG[k] as int] == (#[trigger] levels@[k] * pair.step(k)) as i16,
            forall|k: int|
                first <= k < n ==> #[trigger] levels@[k] == level_of(
                    pair.step(k),
                    coeffs@[ZIGZAG[k] as int] as int,
                ),
            first - 1 <= last < n,
            last >= first ==> levels@[last as int] != 0,
            forall|k: int| last < k < 16 && 0 <= k ==> #[trigger] levels@[k] == 0,
        decreases 16 - n,
    {
        let j: usize = ZIGZAG[n];
        proof {
            lemma_zigzag(n as int, 0);
        }
        let factor: QFactor = if n == 0 {
            dc
        } else {
            ac
        };
        let level: i32 = factor.quantize(coeffs[j] as i32);
        if level != 0 {
            last = n as i32;
        }
        let ghost levels0 = levels@;
        let ghost recon0 = recon@;
        levels[n] = level as i16;
        assert(-2047 * 65536 <= level * factor.q <= 2047 * 65536) by (nonlinear_arith)
            requires
                -2047 <= level <= 2047,
                1 <= factor.q <= 65536,
        ;
        recon[j] = (level * factor.q) as i16;
        proof {
            assert forall|k: int| 0 <= k < 16 implies recon@[ZIGZAG[k] as int] == (
            #[trigger] levels@[k] * pair.step(k)) as i16 by {
                lemma_zigzag(k, n as int);
                if k != n {
                    assert(levels0[k] == levels@[k]);
                }
            }
        }
        n = n + 1;
    }
    Quantized { levels, recon, last }
}

/// Map a quality `0..=100` (larger values count as 100) to a base quantizer index.
pub fn quality_to_base_q(quality: u8) -> (r: i32)
    ensures
        r == quality_curve(clamp_int(quality as int, 0, 100)),
        0 <= r <= 127,
{
    let i: usize = if quality > 100 {
        100
    } else {
        quality as usize
    };
    quality_index(i) as i32
}

/// A higher quality never has a coarser base quantizer; quality 0 has the coarsest
/// and quality 100 the finest.
pub proof fn quality_to_base_q_monotone(a: u8, b: u8)
    requires
        a <= b,
    ensures
        quality_curve(clamp_int(b as int, 0, 100)) <= quality_curve(clamp_int(a as int, 0, 100)),
        quality_curve(0) == 127,
        quality_curve(100) == 0,
{
    crate::constants::lemma_quality_curve(clamp_int(a as int, 0, 100), clamp_int(b as int, 0, 100));
}

/// Division that rounds toward zero.
pub open spec fn div_toward_zero(a: int, b: int) -> int {
    if a < 0 {
        -((-a) / b)
    } else {
        a / b
    }
}

/// The quantizer-index delta of a segment with activity `activity` under
/// spatial-noise-shaping strength `sns_strength`: flat segments get finer, busy ones
/// coarser, the middle activity 128 stays.
pub fn sns_quant_delta(activity: u8, sns_strength: u8) -> (r: i32)
    ensures
        r == div_toward_zero((activity - 128) * sns_strength, 512),
        -64 <= r <= 64,
{
    let d: i32 = activity as i32 - 128;
    let s: i32 = sns_strength as i32;
    assert(-128 * 255 <= d * s <= 127 * 255) by (nonlinear_arith)
        requires
            -128 <= d <= 127,
            0 <= s <= 255,
    ;
    let v: i32 = d * s;
    if v < 0 {
        -((-v) / 512)
    } else {
        v / 512
    }
}

} // verus!
