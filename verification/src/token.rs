//! Parsing of coefficient tokens, and the laws that parsing
//! inverts the emission of [`crate::tokens`].

use vstd::prelude::*;

use crate::arith::group_shr;
use crate::bool_dec::BoolDecoder;
use crate::coder::{dec_step, DecState};
use crate::constants::{CoeffProbas, Prob, BANDS, CAT_3456, CAT_BITS, ZIGZAG};
use crate::decode::{same_headers, step_ok, Frame, MbData, MbInfo, QuantMatrix};
use crate::idct::{transform_wht, wht_scatter};
use crate::tokens::{
    b2n, bit_u32, bottom_flags, cat_base, chroma_ctx, chroma_ctx_exec, flags_word, lemma_flags_word,
    luma_ctx, luma_ctx_exec, luma_first, luma_type, next_ctx, pack_flags, right_flags, unpack_flags,
    word_flags,
};

verus! {

broadcast use group_shr;

/// Read the `k` leading extra bits of a value category.
pub open spec fn extra_read(d: DecState, cat: int, k: nat) -> (int, DecState)
    decreases k,
{
    if k == 0 {
        (0, d)
    } else {
        let (v, d1) = extra_read(d, cat, (k - 1) as nat);
        let (bit, d2) = dec_step(d1, CAT_3456[cat][k - 1]);
        (2 * v + b2n(bit), d2)
    }
}

/// Read a magnitude of two or more.
#[verifier::opaque]
pub open spec fn large_read(d: DecState, p: [Prob; 11]) -> (int, DecState) {
    let (b3, d3) = dec_step(d, p[3]);
    if !b3 {
        let (b4, d4) = dec_step(d3, p[4]);
        if b4 {
            let (b5, d5) = dec_step(d4, p[5]);
            (3 + b2n(b5), d5)
        } else {
            (2, d4)
        }
    } else {
        let (b6, d6) = dec_step(d3, p[6]);
        if !b6 {
            let (b7, d7) = dec_step(d6, p[7]);
            if b7 {
                let (hi, d8) = dec_step(d7, 165);
                let (lo, d9) = dec_step(d8, 145);
                (7 + 2 * b2n(hi) + b2n(lo), d9)
            } else {
                let (b8, d8) = dec_step(d7, 159);
                (5 + b2n(b8), d8)
            }
        } else {
            let (bit1, d8) = dec_step(d6, p[8]);
            let (bit0, d9) = dec_step(d8, p[9 + b2n(bit1)]);
            let cat = 2 * b2n(bit1) + b2n(bit0);
            let (v, d10) = extra_read(d9, cat, CAT_BITS[cat] as nat);
            (v + cat_base(cat), d10)
        }
    }
}

/// Read a non-zero level: magnitude and sign.
#[verifier::opaque]
pub open spec fn level_read(d: DecState, p: [Prob; 11]) -> (int, DecState) {
    let (big, d1) = dec_step(d, p[2]);
    let (v, d2) = if big {
        large_read(d1, p)
    } else {
        (1, d1)
    };
    let (neg, d3) = dec_step(d2, 128);
    (
        if neg {
            -v
        } else {
            v
        },
        d3,
    )
}

/// A dequantized coefficient: level `level` at zig-zag index `n`.
pub open spec fn dequant(level: int, dq: [i32; 2], n: int) -> i16 {
    (level * dq[if n > 0 {
        1
    } else {
        0
    }]) as i16
}

/// Read a block from zig-zag index `n` on into `out[off..off + 16]`: the index after
/// the last level, the coefficients and the decoder.
pub open spec fn coeffs_read(
    d: DecState,
    pb: [[[Prob; 11]; 3]; 8],
    dq: [i32; 2],
    off: int,
    n: int,
    ctx: int,
    out: Seq<i16>,
) -> (int, Seq<i16>, DecState)
    decreases 16 - n, 1int,
{
    if n >= 16 {
        (16, out, d)
    } else {
        let (more, d1) = dec_step(d, pb[BANDS[n] as int][ctx][0]);
        if more {
            run_read(d1, pb, dq, off, n, ctx, out)
        } else {
            (n, out, d1)
        }
    }
}

/// Read a run of zeros, a level and the rest of the block.
pub open spec fn run_read(
    d: DecState,
    pb: [[[Prob; 11]; 3]; 8],
    dq: [i32; 2],
    off: int,
    n: int,
    ctx: int,
    out: Seq<i16>,
) -> (int, Seq<i16>, DecState)
    decreases 16 - n, 0int,
{
    if n >= 16 {
        (16, out, d)
    } else {
        let (nz, d1) = dec_step(d, pb[BANDS[n] as int][ctx][1]);
        if nz {
            let (level, d2) = level_read(d1, pb[BANDS[n] as int][ctx]);
            coeffs_read(
                d2,
                pb,
                dq,
                off,
                n + 1,
                next_ctx(level),
                out.update(off + ZIGZAG[n], dequant(level, dq, n)),
            )
        } else {
            run_read(d1, pb, dq, off, n + 1, 0, out)
        }
    }
}

/// How many coefficients a block has, in two bits.
pub open spec fn nz_code(nz: int, dc_nz: bool) -> int {
    if nz > 3 {
        3
    } else if nz > 1 {
        2
    } else {
        b2n(dc_nz)
    }
}

/// What parsing a run of blocks yields.
#[verifier::ext_equal]
pub struct BlocksRead {
    /// Which blocks have coefficients.
    pub flags: Seq<bool>,
    /// The blocks' coefficient-count codes, two bits each.
    pub code: int,
    /// The macroblock's coefficients.
    pub coeffs: Seq<i16>,
    /// The decoder.
    pub d: DecState,
}

/// Parse the first `k` luma blocks.
pub open spec fn luma_read(
    d: DecState,
    bands: CoeffProbas,
    dq: [i32; 2],
    is_i4x4: bool,
    top: Seq<bool>,
    left: Seq<bool>,
    coeffs: Seq<i16>,
    k: int,
) -> BlocksRead
    decreases k,
{
    if k <= 0 {
        BlocksRead { flags: Seq::empty(), code: 0, coeffs, d }
    } else {
        let r = luma_read(d, bands, dq, is_i4x4, top, left, coeffs, k - 1);
        let first = luma_first(is_i4x4);
        let (nz, out, d1) = coeffs_read(
            r.d,
            bands[luma_type(is_i4x4)],
            dq,
            16 * (k - 1),
            first,
            luma_ctx(r.flags, top, left, k - 1),
            r.coeffs,
        );
        BlocksRead {
            flags: r.flags.push(nz > first),
            code: 4 * r.code + nz_code(nz, out[16 * (k - 1)] != 0),
            coeffs: out,
            d: d1,
        }
    }
}

/// Parse the first `k` chroma blocks.
pub open spec fn chroma_read(
    d: DecState,
    bands: CoeffProbas,
    dq: [i32; 2],
    top: Seq<bool>,
    left: Seq<bool>,
    coeffs: Seq<i16>,
    k: int,
) -> BlocksRead
    decreases k,
{
    if k <= 0 {
        BlocksRead { flags: Seq::empty(), code: 0, coeffs, d }
    } else {
        let r = chroma_read(d, bands, dq, top, left, coeffs, k - 1);
        let (nz, out, d1) = coeffs_read(
            r.d,
            bands[2],
            dq,
            256 + 16 * (k - 1),
            0,
            chroma_ctx(r.flags, top, left, k - 1),
            r.coeffs,
        );
        BlocksRead {
            flags: r.flags.push(nz > 0),
            code: 4 * r.code + nz_code(nz, out[256 + 16 * (k - 1)] != 0),
            coeffs: out,
            d: d1,
        }
    }
}

/// The packed chroma codes: U in the low byte, V in the byte above.
pub open spec fn uv_code(code: int) -> int {
    code / 256 + 256 * (code % 256)
}

/// A block of zero coefficients.
pub open spec fn zeros(n: nat) -> Seq<i16> {
    Seq::new(n, |i: int| 0i16)
}

/// A macroblock's coefficients with every luma DC slot set to `dc`.
pub open spec fn flat_dc(dc: i16) -> Seq<i16> {
    Seq::new(
        384,
        |i: int|
            if i < 256 && i % 16 == 0 {
                dc
            } else {
                0i16
            },
    )
}

/// The luma DC slots that a second-order block of `nz` levels stands for.
pub open spec fn y2_spread(nz: int, dc: Seq<i16>) -> Seq<i16> {
    if nz > 1 {
        wht_scatter(dc, zeros(384))
    } else {
        flat_dc(((dc[0] + 3) / 8) as i16)
    }
}

/// Parse the second-order block, if there is one: its flag, the luma DC slots and
/// the decoder.
pub open spec fn y2_read(
    d: DecState,
    bands: CoeffProbas,
    dq: [i32; 2],
    is_i4x4: bool,
    ctx: int,
) -> (bool, Seq<i16>, DecState) {
    if is_i4x4 {
        (false, zeros(384), d)
    } else {
        let (nz, dc, d1) = coeffs_read(d, bands[1], dq, 0, 0, ctx, zeros(16));
        (nz > 0, y2_spread(nz, dc), d1)
    }
}

/// What parsing a macroblock's residual yields.
#[verifier::ext_equal]
pub struct MbRead {
    /// The second-order flag.
    pub dc_nz: bool,
    /// The luma blocks.
    pub luma: BlocksRead,
    /// The chroma blocks, with all coefficients and the decoder after them.
    pub chroma: BlocksRead,
}

/// Parse a macroblock's residual in the given neighbour context.
pub open spec fn mb_read(
    d: DecState,
    bands: CoeffProbas,
    q: QuantMatrix,
    is_i4x4: bool,
    top: Seq<bool>,
    left: Seq<bool>,
    dc_ctx: int,
) -> MbRead {
    let (dc_nz, coeffs, d1) = y2_read(d, bands, q.y2, is_i4x4, dc_ctx);
    let luma = luma_read(d1, bands, q.y1, is_i4x4, top, left, coeffs, 16);
    let chroma = chroma_read(luma.d, bands, q.uv, top, left, luma.coeffs, 8);
    MbRead { dc_nz, luma, chroma }
}

/// The neighbour flags after a parsed macroblock.
pub open spec fn info_after(old_info: MbInfo, is_i4x4: bool, dc_nz: bool, flags: Seq<bool>) -> MbInfo {
    MbInfo {
        nz: flags_word(flags),
        nz_dc: if is_i4x4 {
            old_info.nz_dc
        } else {
            b2n(dc_nz) as u32
        },
    }
}

proof fn lemma_extra_read_range(d: DecState, cat: int, k: nat)
    ensures
        0 <= extra_read(d, cat, k).0 < vstd::arithmetic::power2::pow2(k),
    decreases k,
{
    vstd::arithmetic::power2::lemma2_to64();
    if k > 0 {
        lemma_extra_read_range(d, cat, (k - 1) as nat);
        vstd::arithmetic::power2::lemma_pow2_unfold(k);
    }
}

/// Read a magnitude of two or more.
pub fn get_large_value(br: &mut BoolDecoder<'_>, p: [Prob; 11]) -> (v: i32)
    requires
        old(br).wf(),
    ensures
        final(br).wf(),
        (v as int, final(br)@) == large_read(old(br)@, p),
        2 <= v <= 2114,
{
    reveal(large_read);
    if !br.read_bool(p[3]) {
        if br.read_bool(p[4]) {
            let b: bool = br.read_bool(p[5]);
            return 3 + bit_u32(b) as i32;
        }
        return 2;
    }
    if !br.read_bool(p[6]) {
        if br.read_bool(p[7]) {
            let hi: bool = br.read_bool(165);
            let lo: bool = br.read_bool(145);
            return 7 + 2 * bit_u32(hi) as i32 + bit_u32(lo) as i32;
        }
        let b: bool = br.read_bool(159);
        return 5 + bit_u32(b) as i32;
    }
    let bit1: bool = br.read_bool(p[8]);
    let hi: usize = bit_u32(bit1) as usize;
    let bit0: bool = br.read_bool(p[9 + hi]);
    let cat: usize = 2 * hi + bit_u32(bit0) as usize;
    let base: i32 = if cat == 0 {
        11
    } else if cat == 1 {
        19
    } else if cat == 2 {
        35
    } else {
        67
    };
    let ghost d9 = br@;
    let mut v: i32 = 0;
    let mut i: usize = 0;
    let bits: usize = CAT_BITS[cat];
    proof {
        vstd::arithmetic::power2::lemma2_to64();
    }
    while i < bits
        invariant
            i <= bits,
            bits == CAT_BITS[cat as int],
            bits <= 11,
            cat < 4,
            br.wf(),
            (v as int, br@) == extra_read(d9, cat as int, i as nat),
            0 <= v < 2048,
        decreases bits - i,
    {
        proof {
            lemma_extra_read_range(d9, cat as int, i as nat);
            lemma_extra_read_range(d9, cat as int, (i + 1) as nat);
            vstd::arithmetic::power2::lemma2_to64();
            if i + 1 < 11 {
                vstd::arithmetic::power2::lemma_pow2_strictly_increases((i + 1) as nat, 11);
            }
        }
        let bit: bool = br.read_bool(CAT_3456[cat][i]);
        v = 2 * v + bit_u32(bit) as i32;
        i = i + 1;
    }
    proof {
        lemma_extra_read_range(d9, cat as int, bits as nat);
        vstd::arithmetic::power2::lemma2_to64();
    }
    v + base
}

fn get_level(br: &mut BoolDecoder<'_>, p: [Prob; 11]) -> (v: i32)
    requires
        old(br).wf(),
    ensures
        final(br).wf(),
        (v as int, final(br)@) == level_read(old(br)@, p),
        -2114 <= v <= 2114,
        v != 0,
{
    reveal(level_read);
    let v: i32 = if br.read_bool(p[2]) {
        get_large_value(br, p)
    } else {
        1
    };
    br.apply_sign(v)
}

/// Read one block from index `n_start` into `out[off..off + 16]` (natural order),
/// returning the index after its last non-zero level.
pub fn get_coeffs(
    br: &mut BoolDecoder<'_>,
    bands: &CoeffProbas,
    plane: usize,
    ctx: usize,
    dq: [i32; 2],
    n_start: usize,
    out: &mut [i16],
    off: usize,
) -> (nz: usize)
    requires
        old(br).wf(),
        plane < 4,
        ctx < 3,
        n_start <= 16,
        off + 16 <= old(out)@.len(),
        step_ok(dq),
    ensures
        final(br).wf(),
        (nz as int, final(out)@, final(br)@) == coeffs_read(
            old(br)@,
            bands[plane as int],
            dq,
            off as int,
            n_start as int,
            ctx as int,
            old(out)@,
        ),
        n_start <= nz <= 16,
        final(out)@.len() == old(out)@.len(),
{
    get_coeffs_from(br, &bands[plane], dq, off, n_start, ctx, out)
}

fn get_coeffs_from(
    br: &mut BoolDecoder<'_>,
    pb: &[[[Prob; 11]; 3]; 8],
    dq: [i32; 2],
    off: usize,
    n: usize,
    ctx: usize,
    out: &mut [i16],
) -> (nz: usize)
    requires
        old(br).wf(),
        ctx < 3,
        n <= 16,
        off + 16 <= old(out)@.len(),
        step_ok(dq),
    ensures
        final(br).wf(),
        (nz as int, final(out)@, final(br)@) == coeffs_read(
            old(br)@,
            *pb,
            dq,
            off as int,
            n as int,
            ctx as int,
            old(out)@,
        ),
        n <= nz <= 16,
        final(out)@.len() == old(out)@.len(),
    decreases 16 - n, 1int,
{
    if n == 16 {
        return 16;
    }
    let p0: Prob = pb[BANDS[n]][ctx][0];
    if br.read_bool(p0) {
        get_run_from(br, pb, dq, off, n, ctx, out)
    } else {
        n
    }
}

fn get_run_from(
    br: &mut BoolDecoder<'_>,
    pb: &[[[Prob; 11]; 3]; 8],
    dq: [i32; 2],
    off: usize,
    n: usize,
    ctx: usize,
    out: &mut [i16],
) -> (nz: usize)
    requires
        old(br).wf(),
        ctx < 3,
        n <= 16,
        off + 16 <= old(out)@.len(),
        step_ok(dq),
    ensures
        final(br).wf(),
        (nz as int, final(out)@, final(br)@) == run_read(
            old(br)@,
            *pb,
            dq,
            off as int,
            n as int,
            ctx as int,
            old(out)@,
        ),
        n <= nz <= 16,
        final(out)@.len() == old(out)@.len(),
    decreases 16 - n, 0int,
{
    if n == 16 {
        return 16;
    }
    let p: [Prob; 11] = pb[BANDS[n]][ctx];
    assert(p == pb[BANDS[n as int] as int][ctx as int]);
    if br.read_bool(p[1]) {
        let level: i32 = get_level(br, p);
        let step: i32 = if n > 0 {
            dq[1]
        } else {
            dq[0]
        };
        assert(-2114 * 65536 <= level * step <= 2114 * 65536) by (nonlinear_arith)
            requires
                -2114 <= level <= 2114,
                -65536 <= step <= 65536,
        ;
        let len: usize = out.len();
        let at: usize = off + ZIGZAG[n];
        out[at] = (level * step) as i16;
        let next: usize = if level == 1 || level == -1 {
            1
        } else {
            2
        };
        get_coeffs_from(br, pb, dq, off, n + 1, next, out)
    } else {
        get_run_from(br, pb, dq, off, n + 1, 0, out)
    }
}

/// Append a block's two-bit coefficient-count code to `nz_coeffs`.
pub fn nz_code_bits(nz_coeffs: u32, nz: usize, dc_nz: bool) -> (r: u32)
    ensures
        r == (nz_coeffs % 0x4000_0000) * 4 + nz_code(nz as int, dc_nz),
{
    let code: u32 = if nz > 3 {
        3
    } else if nz > 1 {
        2
    } else {
        bit_u32(dc_nz)
    };
    (nz_coeffs % 0x4000_0000) * 4 + code
}

impl Frame {
    /// Parse and dequantize the residual of macroblock `mb_x`.
    #[verifier::rlimit(60)]
    pub fn parse_residuals(&mut self, br: &mut BoolDecoder<'_>, mb_x: usize)
        requires
            old(self).wf(),
            old(br).wf(),
            mb_x < old(self).mb_w,
        ensures
            final(self).wf(),
            final(br).wf(),
            same_headers(*final(self), *old(self)),
            final(self).intra_t@ == old(self).intra_t@,
            final(self).intra_l == old(self).intra_l,
            ({
                let m = old(self).mb_data@[mb_x as int];
                let above = old(self).mb_info@[mb_x + 1];
                let before = old(self).mb_info@[0];
                let r = mb_read(
                    old(br)@,
                    old(self).proba.bands,
                    old(self).dqm@[m.segment as int],
                    m.is_i4x4,
                    word_flags(above.nz),
                    word_flags(before.nz),
                    above.nz_dc + before.nz_dc,
                );
                let now = final(self).mb_data@[mb_x as int];
                &&& final(br)@ == r.chroma.d
                &&& now.coeffs@ == r.chroma.coeffs
                &&& now.non_zero_y == r.luma.code
                &&& now.non_zero_uv == uv_code(r.chroma.code)
                &&& final(self).mb_data@ == old(self).mb_data@.update(
                    mb_x as int,
                    (MbData {
                        coeffs: now.coeffs,
                        non_zero_y: now.non_zero_y,
                        non_zero_uv: now.non_zero_uv,
                        ..m
                    }),
                )
                &&& final(self).mb_info@ == old(self).mb_info@.update(
                    mb_x + 1,
                    info_after(
                        above,
                        m.is_i4x4,
                        r.dc_nz,
                        bottom_flags(r.luma.flags, r.chroma.flags),
                    ),
                ).update(
                    0,
                    info_after(
                        before,
                        m.is_i4x4,
                        r.dc_nz,
                        right_flags(r.luma.flags, r.chroma.flags),
                    ),
                )
            }),
    {
        let m: MbData = self.mb_data[mb_x];
        let q: QuantMatrix = self.dqm[m.segment as usize];
        let above: MbInfo = self.mb_info[mb_x + 1];
        let before: MbInfo = self.mb_info[0];
        let top: [bool; 8] = unpack_flags(above.nz);
        let left: [bool; 8] = unpack_flags(before.nz);
        let mut coeffs: [i16; 384] = [0i16; 384];
        let mut above_dc: u32 = above.nz_dc;
        let mut before_dc: u32 = before.nz_dc;
        let first: usize = if m.is_i4x4 {
            0
        } else {
            1
        };
        let plane: usize = if m.is_i4x4 {
            3
        } else {
            0
        };
        let ghost d0 = br@;
        let ghost bands = self.proba.bands;
        let ghost dc_ctx = above.nz_dc + before.nz_dc;
        assert(q.wf());
        assert(coeffs@ =~= zeros(384));
        let ghost y2 = y2_read(d0, bands, q.y2, m.is_i4x4, dc_ctx);
        if !m.is_i4x4 {
            let mut dc: [i16; 16] = [0i16; 16];
            assert(dc@ =~= zeros(16));
            let c: usize = (above.nz_dc + before.nz_dc) as usize;
            let nz: usize = get_coeffs(br, &self.proba.bands, 1, c, q.y2, 0, &mut dc, 0);
            let dc_nz: u32 = bit_u32(nz > 0);
            above_dc = dc_nz;
            before_dc = dc_nz;
            if nz > 1 {
                transform_wht(dc, &mut coeffs);
            } else {
                let dc0: i16 = ((dc[0] as i32 + 3) >> 3) as i16;
                let mut i: usize = 0;
                while i < 16
                    invariant
                        i <= 16,
                        forall|j: int|
                            0 <= j < 384 ==> #[trigger] coeffs@[j] == (if j < 16 * i && j % 16 == 0 {
                                dc0
                            } else {
                                0i16
                            }),
                    decreases 16 - i,
                {
                    coeffs[16 * i] = dc0;
                    i = i + 1;
                }
                assert(coeffs@ =~= flat_dc(dc0));
            }
        }
        assert(coeffs@ == y2.1 && br@ == y2.2);
        let ghost c0 = coeffs@;
        let mut luma: [bool; 16] = [false; 16];
        let mut non_zero_y: u32 = 0;
        let mut i: usize = 0;
        let ghost mut codes: int = 0;
        while i < 16
            invariant
                i <= 16,
                self.wf(),
                *self == *old(self),
                br.wf(),
                q.wf(),
                bands == self.proba.bands,
                plane == luma_type(m.is_i4x4),
                first == luma_first(m.is_i4x4),
                ({
                    let r = luma_read(y2.2, bands, q.y1, m.is_i4x4, top@, left@, c0, i as int);
                    &&& r.flags.len() == i
                    &&& forall|j: int| 0 <= j < i ==> #[trigger] luma@[j] == r.flags[j]
                    &&& non_zero_y == r.code
                    &&& coeffs@ == r.coeffs
                    &&& br@ == r.d
                }),
                non_zero_y < code_bound(i as int),
            decreases 16 - i,
        {
            let ghost r = luma_read(y2.2, bands, q.y1, m.is_i4x4, top@, left@, c0, i as int);
            let c: usize = luma_ctx_exec(&luma, &top, &left, i);
            proof {
                crate::tokens::lemma_luma_ctx_prefix(luma@, r.flags, top@, left@, i as int);
                lemma_code_bound(i as int);
            }
            let nz: usize = get_coeffs(
                br,
                &self.proba.bands,
                plane,
                c,
                q.y1,
                first,
                &mut coeffs,
                16 * i,
            );
            luma[i] = nz > first;
            non_zero_y = nz_code_bits(non_zero_y, nz, coeffs[16 * i] != 0);
            i = i + 1;
        }
        let ghost lr = luma_read(y2.2, bands, q.y1, m.is_i4x4, top@, left@, c0, 16);
        let ghost c1 = coeffs@;
        let mut chroma: [bool; 8] = [false; 8];
        let mut code: u32 = 0;
        let mut k: usize = 0;
        while k < 8
            invariant
                k <= 8,
                self.wf(),
                *self == *old(self),
                br.wf(),
                q.wf(),
                bands == self.proba.bands,
                ({
                    let r = chroma_read(lr.d, bands, q.uv, top@, left@, c1, k as int);
                    &&& r.flags.len() == k
                    &&& forall|j: int| 0 <= j < k ==> #[trigger] chroma@[j] == r.flags[j]
                    &&& code == r.code
                    &&& coeffs@ == r.coeffs
                    &&& br@ == r.d
                }),
                code < code_bound(k as int),
            decreases 8 - k,
        {
            let ghost r = chroma_read(lr.d, bands, q.uv, top@, left@, c1, k as int);
            let c: usize = chroma_ctx_exec(&chroma, &top, &left, k);
            proof {
                crate::tokens::lemma_chroma_ctx_prefix(chroma@, r.flags, top@, left@, k as int);
                lemma_code_bound(k as int);
            }
            let nz: usize = get_coeffs(
                br,
                &self.proba.bands,
                2,
                c,
                q.uv,
                0,
                &mut coeffs,
                256 + 16 * k,
            );
            chroma[k] = nz > 0;
            code = nz_code_bits(code, nz, coeffs[256 + 16 * k] != 0);
            k = k + 1;
        }
        let ghost cr = chroma_read(lr.d, bands, q.uv, top@, left@, c1, 8);
        proof {
            reveal_with_fuel(code_bound, 10);
            assert(luma@ =~= lr.flags);
            assert(chroma@ =~= cr.flags);
            lemma_flags_word(bottom_flags(lr.flags, cr.flags));
            lemma_flags_word(right_flags(lr.flags, cr.flags));
        }
        let bottom: [bool; 8] = [
            luma[12],
            luma[13],
            luma[14],
            luma[15],
            chroma[2],
            chroma[3],
            chroma[6],
            chroma[7],
        ];
        let right: [bool; 8] = [
            luma[3],
            luma[7],
            luma[11],
            luma[15],
            chroma[1],
            chroma[3],
            chroma[5],
            chroma[7],
        ];
        assert(bottom@ =~= bottom_flags(lr.flags, cr.flags));
        assert(right@ =~= right_flags(lr.flags, cr.flags));
        self.mb_info[mb_x + 1] = MbInfo { nz: pack_flags(bottom), nz_dc: above_dc };
        self.mb_info[0] = MbInfo { nz: pack_flags(right), nz_dc: before_dc };
        let done = MbData { coeffs, non_zero_y, non_zero_uv: code / 256 + 256 * (code % 256), ..m };
        self.mb_data[mb_x] = done;
    }

    /// Clear the residual of a skipped macroblock: no coefficients, and no flags for
    /// its neighbours.
    pub fn skip_residuals(&mut self, mb_x: usize)
        requires
            old(self).wf(),
            mb_x < old(self).mb_w,
        ensures
            final(self).wf(),
            same_headers(*final(self), *old(self)),
            final(self).intra_t@ == old(self).intra_t@,
            final(self).intra_l == old(self).intra_l,
            final(self).mb_data@[mb_x as int].coeffs@ == zeros(384),
            final(self).mb_data@ == old(self).mb_data@.update(
                mb_x as int,
                (MbData {
                    coeffs: final(self).mb_data@[mb_x as int].coeffs,
                    non_zero_y: 0,
                    non_zero_uv: 0,
                    ..old(self).mb_data@[mb_x as int]
                }),
            ),
            final(self).mb_info@ == old(self).mb_info@.update(
                mb_x + 1,
                skipped_info(old(self).mb_info@[mb_x + 1], old(self).mb_data@[mb_x as int].is_i4x4),
            ).update(
                0,
                skipped_info(old(self).mb_info@[0], old(self).mb_data@[mb_x as int].is_i4x4),
            ),
    {
        let m: MbData = self.mb_data[mb_x];
        let above: MbInfo = self.mb_info[mb_x + 1];
        let before: MbInfo = self.mb_info[0];
        let above_dc: u32 = if m.is_i4x4 {
            above.nz_dc
        } else {
            0
        };
        let before_dc: u32 = if m.is_i4x4 {
            before.nz_dc
        } else {
            0
        };
        self.mb_info[mb_x + 1] = MbInfo { nz: 0, nz_dc: above_dc };
        self.mb_info[0] = MbInfo { nz: 0, nz_dc: before_dc };
        let done = MbData { coeffs: [0i16; 384], non_zero_y: 0, non_zero_uv: 0, ..m };
        assert(done.coeffs@ =~= zeros(384));
        self.mb_data[mb_x] = done;
    }
}

/// The neighbour flags after a skipped macroblock; only a 16x16 macroblock clears
/// the second-order flag.
pub open spec fn skipped_info(info: MbInfo, is_i4x4: bool) -> MbInfo {
    MbInfo {
        nz: 0,
        nz_dc: if is_i4x4 {
            info.nz_dc
        } else {
            0
        },
    }
}

/// `4^k`.
spec fn code_bound(k: int) -> int
    decreases k,
{
    if k <= 0 {
        1
    } else {
        4 * code_bound(k - 1)
    }
}

proof fn lemma_code_bound(k: int)
    requires
        0 <= k <= 15,
    ensures
        1 <= code_bound(k) <= 0x4000_0000,
        code_bound(k + 1) == 4 * code_bound(k),
    decreases k,
{
    reveal_with_fuel(code_bound, 18);
}

} // verus!
