//! Perceptual (texture-aware) distortion for the luma mode decision.
//!
//! Squared error is blind to where the error lands in the frequency plane. The texture
//! term compares the two blocks under a 4x4 Hadamard transform whose low frequencies
//! weigh more, and [`disto16`] adds it to the squared error, scaled by a strength that
//! grows with the shaping knob and the quantizer step. A strength of zero leaves the
//! squared error alone.

use vstd::prelude::*;

use crate::arith::{abs_int, group_shr};
use crate::block::{lemma_square4_sub, lemma_sub_fits, square, square_fits, sub_block};

verus! {

broadcast use group_shr;

/// Weight of each Hadamard coefficient, row-major.
pub const K_WEIGHT_Y: [i64; 16] = [
    38, 32, 20, 9, 32, 28, 17, 7, 20, 17, 10, 4, 9, 7, 4, 2,
];

/// The texture strength of an AC step under a shaping strength.
pub open spec fn tlambda_spec(sns_strength: int, q_ac: int) -> int {
    ((if sns_strength <= 100 {
        sns_strength
    } else {
        100
    }) * q_ac) / 32
}

/// The texture strength of an AC step under a shaping strength (capped at 100); zero at
/// strength zero.
pub fn tlambda(sns_strength: u8, q_ac: i32) -> (r: i64)
    ensures
        r == tlambda_spec(sns_strength as int, q_ac as int),
        sns_strength == 0 ==> r == 0,
        0 <= q_ac <= 1024 ==> 0 <= r <= 3200,
{
    let strength: i64 = if sns_strength <= 100 {
        sns_strength as i64
    } else {
        100
    };
    assert(-100 * 0x8000_0000 <= strength * q_ac <= 100 * 0x8000_0000) by (nonlinear_arith)
        requires
            0 <= strength <= 100,
            -0x8000_0000 <= q_ac <= 0x7fff_ffff,
    ;
    proof {
        if 0 <= q_ac <= 1024 {
            assert(0 <= strength * q_ac <= 102400) by (nonlinear_arith)
                requires
                    0 <= strength <= 100,
                    0 <= q_ac <= 1024,
            ;
        }
        if strength == 0 {
            assert(strength * q_ac == 0) by (nonlinear_arith)
                requires
                    strength == 0,
            ;
        }
    }
    (strength * q_ac as i64) >> 5
}

/// A read window into a plane: the samples, the offset of the region, the row stride.
pub struct PlaneWindow<'a> {
    /// The plane.
    pub data: &'a [u8],
    /// The region's top-left sample.
    pub off: usize,
    /// Row stride.
    pub stride: usize,
}

impl<'a> PlaneWindow<'a> {
    /// A window into `data` whose region starts at `off`.
    pub fn new(data: &'a [u8], off: usize, stride: usize) -> (r: Self)
        ensures
            r.data@ == data@,
            r.off == off,
            r.stride == stride,
    {
        PlaneWindow { data, off, stride }
    }

    /// Whether a whole macroblock lies in the plane.
    pub open spec fn wf(&self) -> bool {
        square_fits(self.data@.len() as int, self.off as int, self.stride as int, 16)
    }

    /// The 16x16 region, row-major.
    pub open spec fn block(&self) -> Seq<u8> {
        square(self.data@, self.off as int, self.stride as int, 16)
    }
}

/// One four-point Hadamard transform: output `k`.
pub open spec fn hadamard4(a: int, b: int, c: int, d: int, k: int) -> int {
    if k == 0 {
        a + b + c + d
    } else if k == 1 {
        a + b - c - d
    } else if k == 2 {
        a - b - c + d
    } else {
        a - b + c - d
    }
}

/// Coefficient `k` of row `r`.
pub open spec fn hadamard_row(b: Seq<i32>, r: int, k: int) -> int {
    hadamard4(b[4 * r] as int, b[4 * r + 1] as int, b[4 * r + 2] as int, b[4 * r + 3] as int, k)
}

/// Coefficient `n` of a 4x4 block (row-major).
pub open spec fn hadamard(b: Seq<i32>, n: int) -> int {
    let x = n % 4;
    hadamard4(
        hadamard_row(b, 0, x),
        hadamard_row(b, 1, x),
        hadamard_row(b, 2, x),
        hadamard_row(b, 3, x),
        n / 4,
    )
}

/// The weighted sum of the first `n` coefficient magnitudes.
pub open spec fn texture_upto(b: Seq<i32>, n: int) -> int
    decreases n,
{
    if n <= 0 {
        0
    } else {
        texture_upto(b, n - 1) + K_WEIGHT_Y[n - 1] * abs_int(hadamard(b, n - 1))
    }
}

/// The texture of a 4x4 block.
pub open spec fn texture(b: Seq<i32>) -> int {
    texture_upto(b, 16)
}

/// The weighted Hadamard magnitude of a 4x4 block (row-major).
pub fn ttransform(block: [i32; 16]) -> (r: i64)
    requires
        forall|i: int| 0 <= i < 16 ==> -0x400_0000 <= #[trigger] block@[i] <= 0x400_0000,
    ensures
        r == texture(block@),
        0 <= r <= 16 * 38 * 0x4000_0000,
        (forall|i: int| 0 <= i < 16 ==> 0 <= #[trigger] block@[i] <= 255) ==> r <= 16 * 38 * 4080,
{
    let mut tmp: [i32; 16] = [0i32; 16];
    let ghost bound: int = if forall|i: int| 0 <= i < 16 ==> 0 <= #[trigger] block@[i] <= 255 {
        255
    } else {
        0x400_0000
    };
    let mut i: usize = 0;
    while i < 4
        invariant
            i <= 4,
            0 <= bound <= 0x400_0000,
            forall|i: int| 0 <= i < 16 ==> -bound <= #[trigger] block@[i] <= bound,
            forall|n: int|
                0 <= n < 4 * i ==> #[trigger] tmp@[n] == hadamard_row(block@, n / 4, n % 4),
            forall|n: int| 0 <= n < 4 * i ==> -4 * bound <= #[trigger] tmp@[n] <= 4 * bound,
        decreases 4 - i,
    {
        let r: usize = i * 4;
        let a0: i32 = block[r] + block[r + 2];
        let a1: i32 = block[r + 1] + block[r + 3];
        let a2: i32 = block[r + 1] - block[r + 3];
        let a3: i32 = block[r] - block[r + 2];
        tmp[r] = a0 + a1;
        tmp[r + 1] = a3 + a2;
        tmp[r + 2] = a3 - a2;
        tmp[r + 3] = a0 - a1;
        i = i + 1;
    }
    let mut sum: i64 = 0;
    let mut n: usize = 0;
    while n < 16
        invariant
            n <= 16,
            0 <= bound <= 0x400_0000,
            forall|n: int| 0 <= n < 16 ==> #[trigger] tmp@[n] == hadamard_row(block@, n / 4, n % 4),
            forall|n: int| 0 <= n < 16 ==> -4 * bound <= #[trigger] tmp@[n] <= 4 * bound,
            sum == texture_upto(block@, n as int),
            0 <= sum <= n * (38 * (16 * bound)),
        decreases 16 - n,
    {
        let x: usize = n % 4;
        let k: usize = n / 4;
        let a0: i32 = tmp[x] + tmp[8 + x];
        let a1: i32 = tmp[4 + x] + tmp[12 + x];
        let a2: i32 = tmp[4 + x] - tmp[12 + x];
        let a3: i32 = tmp[x] - tmp[8 + x];
        let c: i32 = if k == 0 {
            a0 + a1
        } else if k == 1 {
            a3 + a2
        } else if k == 2 {
            a3 - a2
        } else {
            a0 - a1
        };
        let mag: i64 = if c < 0 {
            -(c as i64)
        } else {
            c as i64
        };
        let w: i64 = K_WEIGHT_Y[n];
        proof {
            assert(c == hadamard(block@, n as int));
            assert(1 <= w <= 38);
            assert(0 <= mag <= 16 * bound);
            assert(0 <= w * mag <= 38 * (16 * bound)) by (nonlinear_arith)
                requires
                    1 <= w <= 38,
                    0 <= mag <= 16 * bound,
            ;
            assert((n + 1) * (38 * (16 * bound)) == n * (38 * (16 * bound)) + 38 * (16 * bound))
                by (nonlinear_arith);
            assert(n * (38 * (16 * bound)) <= 16 * (38 * (16 * 0x400_0000))) by (nonlinear_arith)
                requires
                    0 <= n <= 16,
                    0 <= bound <= 0x400_0000,
            ;
        }
        sum = sum + w * mag;
        n = n + 1;
    }
    sum
}

/// Read 4x4 sub-block `k` of a window.
pub fn gather4(w: &PlaneWindow<'_>, k: usize) -> (r: [i32; 16])
    requires
        w.wf(),
        k < 16,
    ensures
        r@ == widen(sub_block(w.block(), 16, k as int)),
{
    proof {
        lemma_sub_fits(w.data@.len() as int, w.off as int, w.stride as int, 16, k as int);
        lemma_square4_sub(w.data@, w.off as int, w.stride as int, 16, k as int);
    }
    let len: usize = w.data.len();
    let mut base: usize = w.off + (k % 4) * 4;
    let mut y: usize = 0;
    let rows: usize = (k / 4) * 4;
    while y < rows
        invariant
            y <= rows <= 12,
            base == w.off + (k % 4) * 4 + y * w.stride,
            w.off + (k % 4) * 4 + rows * w.stride <= w.data@.len(),
            w.data@.len() == len,
        decreases rows - y,
    {
        proof {
            assert(y * w.stride + w.stride <= rows * w.stride) by (nonlinear_arith)
                requires
                    y < rows,
            ;
            assert((y + 1) * w.stride == y * w.stride + w.stride) by (nonlinear_arith);
        }
        base = base + w.stride;
        y = y + 1;
    }
    let b: [u8; 16] = crate::block::get_square4(w.data, base, w.stride);
    let r: [i32; 16] = [
        b[0] as i32,
        b[1] as i32,
        b[2] as i32,
        b[3] as i32,
        b[4] as i32,
        b[5] as i32,
        b[6] as i32,
        b[7] as i32,
        b[8] as i32,
        b[9] as i32,
        b[10] as i32,
        b[11] as i32,
        b[12] as i32,
        b[13] as i32,
        b[14] as i32,
        b[15] as i32,
    ];
    assert(r@ =~= widen(sub_block(w.block(), 16, k as int)));
    r
}

/// Samples as signed integers.
pub open spec fn widen(b: Seq<u8>) -> Seq<i32> {
    Seq::new(b.len(), |i: int| b[i] as i32)
}

/// The texture distance of one pair of 4x4 blocks.
pub open spec fn tdisto4_spec(src: Seq<u8>, rec: Seq<u8>) -> int {
    abs_int(texture(widen(rec)) - texture(widen(src))) / 32
}

/// The texture distance of the first `n` sub-blocks of two macroblocks.
pub open spec fn tdisto_upto(src: Seq<u8>, rec: Seq<u8>, n: int) -> int
    decreases n,
{
    if n <= 0 {
        0
    } else {
        tdisto_upto(src, rec, n - 1) + tdisto4_spec(
            sub_block(src, 16, n - 1),
            sub_block(rec, 16, n - 1),
        )
    }
}

/// Squared error `sse` with the texture term folded in.
pub open spec fn disto16_spec(sse: int, tlambda: int, src: Seq<u8>, rec: Seq<u8>) -> int {
    if tlambda == 0 {
        sse
    } else {
        sse + (tlambda * tdisto_upto(src, rec, 16) + 128) / 256
    }
}

/// The texture distance of sub-block `k`.
pub fn tdisto4(src: &PlaneWindow<'_>, rec: &PlaneWindow<'_>, k: usize) -> (r: i64)
    requires
        src.wf(),
        rec.wf(),
        k < 16,
    ensures
        r == tdisto4_spec(sub_block(src.block(), 16, k as int), sub_block(rec.block(), 16, k as int)),
        0 <= r <= 77520,
{
    let ts: i64 = ttransform(gather4(src, k));
    let tr: i64 = ttransform(gather4(rec, k));
    let d: i64 = if tr < ts {
        ts - tr
    } else {
        tr - ts
    };
    d >> 5
}

/// The texture distance of two macroblocks.
pub fn tdisto16(src: &PlaneWindow<'_>, rec: &PlaneWindow<'_>) -> (r: i64)
    requires
        src.wf(),
        rec.wf(),
    ensures
        r == tdisto_upto(src.block(), rec.block(), 16),
        0 <= r <= 16 * 77520,
{
    let mut d: i64 = 0;
    let mut n: usize = 0;
    while n < 16
        invariant
            n <= 16,
            src.wf(),
            rec.wf(),
            d == tdisto_upto(src.block(), rec.block(), n as int),
            0 <= d <= n * 77520,
        decreases 16 - n,
    {
        d = d + tdisto4(src, rec, n);
        n = n + 1;
    }
    d
}

/// The perceptual distortion of a macroblock: its squared error plus the texture
/// distance scaled by `tlambda`.
pub fn disto16(sse: i64, tlambda: i64, src: &PlaneWindow<'_>, rec: &PlaneWindow<'_>) -> (r: i64)
    requires
        src.wf(),
        rec.wf(),
        -0x4000_0000_0000_0000 <= sse <= 0x3fff_0000_0000_0000,
        0 <= tlambda <= 0xff_ffff_ffff,
    ensures
        r == disto16_spec(sse as int, tlambda as int, src.block(), rec.block()),
        tlambda == 0 ==> r == sse,
        0 <= tlambda <= 3200 && 0 <= sse <= 20_000_000 ==> 0 <= r <= 40_000_000,
{
    if tlambda == 0 {
        return sse;
    }
    let texture: i64 = tdisto16(src, rec);
    proof {
        assert(0 <= tlambda * texture <= 0xff_ffff_ffff * 1240320) by (nonlinear_arith)
            requires
                0 <= tlambda <= 0xff_ffff_ffff,
                0 <= texture <= 1240320,
        ;
        if tlambda <= 3200 {
            assert(tlambda * texture <= 3200 * 1240320) by (nonlinear_arith)
                requires
                    0 <= tlambda <= 3200,
                    0 <= texture <= 1240320,
            ;
        }
    }
    sse + ((tlambda * texture + 128) >> 8)
}

} // verus!
