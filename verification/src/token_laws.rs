//! Reading tokens inverts writing them.
//!
//! Each law says: a decoder from which the written symbols can be read reads back the
//! written value and ends up right behind the symbols.

use vstd::arithmetic::power2::{lemma2_to64, lemma_pow2_unfold, pow2};
use vstd::prelude::*;

use crate::arith::abs_int;
use crate::coder::{dec_after, dec_step, decodes, lemma_decodes_concat, DecState, Sym};
use crate::constants::{CoeffProbas, Prob, BANDS, CAT_3456, CAT_BITS, ZIGZAG};
use crate::decode::QuantMatrix;
use crate::token::{
    chroma_read, coeffs_read, dequant, extra_read, large_read, level_read, luma_read, mb_read,
    run_read, y2_read, y2_spread, zeros,
};
use crate::tokens::{
    block_flags, block_nz, block_syms, cat_base, cat_of, chroma_ctx, chroma_syms, coeff_syms,
    extra_syms, large_syms, level_syms, luma_ctx, luma_first, luma_syms, luma_type, mb_chroma_flags,
    mb_luma_flags, mb_syms, next_ctx, run_syms, y2_syms, Block, MbTokens,
};

verus! {

/// Extra bits read back.
proof fn extra_read_inverts(d: DecState, cat: int, v: int, k: nat)
    requires
        0 <= v < pow2(k),
        decodes(d, extra_syms(cat, v, k)),
    ensures
        extra_read(d, cat, k) == (v, dec_after(d, extra_syms(cat, v, k))),
    decreases k,
{
    lemma2_to64();
    if k > 0 {
        let head = extra_syms(cat, v / 2, (k - 1) as nat);
        let tail: Seq<Sym> = seq![(CAT_3456[cat][k - 1], v % 2 == 1)];
        assert(extra_syms(cat, v, k) =~= head + tail);
        lemma_decodes_concat(d, head, tail);
        lemma_pow2_unfold(k);
        extra_read_inverts(d, cat, v / 2, (k - 1) as nat);
        assert(tail.drop_first() =~= Seq::<Sym>::empty());
        reveal_with_fuel(dec_after, 2);
        reveal_with_fuel(decodes, 2);
    }
}

/// Magnitudes of two or more read back.
pub proof fn large_read_inverts(d: DecState, p: [Prob; 11], v: int)
    requires
        2 <= v <= 2114,
        decodes(d, large_syms(p, v)),
    ensures
        large_read(d, p) == (v, dec_after(d, large_syms(p, v))),
{
    reveal(large_read);
    reveal(large_syms);
    let s = large_syms(p, v);
    if v <= 10 {
        reveal_with_fuel(decodes, 6);
        reveal_with_fuel(dec_after, 6);
        let s1 = s.drop_first();
        let s2 = s1.drop_first();
        let s3 = s2.drop_first();
        let s4 = s3.drop_first();
        assert(s1[0] == s[1]);
        if v > 2 {
            assert(s2[0] == s[2]);
        }
        if v > 4 {
            assert(s3[0] == s[3]);
        }
        if v > 6 {
            assert(s4[0] == s[4]);
        }
    } else {
        let cat = cat_of(v);
        let head: Seq<Sym> = seq![
            (p[3], true),
            (p[6], true),
            (p[8], cat >= 2),
            (p[9 + cat / 2], cat % 2 == 1),
        ];
        let k = CAT_BITS[cat] as nat;
        let tail = extra_syms(cat, v - cat_base(cat), k);
        lemma_decodes_concat(d, head, tail);
        reveal_with_fuel(decodes, 5);
        reveal_with_fuel(dec_after, 5);
        let h1 = head.drop_first();
        let h2 = h1.drop_first();
        let h3 = h2.drop_first();
        assert(h1[0] == head[1] && h2[0] == head[2] && h3[0] == head[3]);
        lemma2_to64();
        extra_read_inverts(dec_after(d, head), cat, v - cat_base(cat), k);
    }
}

/// Non-zero levels read back.
pub proof fn level_read_inverts(d: DecState, p: [Prob; 11], level: int)
    requires
        1 <= abs_int(level) <= 2114,
        decodes(d, level_syms(p, level)),
    ensures
        level_read(d, p) == (level, dec_after(d, level_syms(p, level))),
{
    reveal(level_read);
    reveal(level_syms);
    let v = abs_int(level);
    let sign: Seq<Sym> = seq![(128u8, level < 0)];
    let one: Seq<Sym> = seq![(p[2], v != 1)];
    assert(sign.drop_first() =~= Seq::<Sym>::empty());
    assert(one.drop_first() =~= Seq::<Sym>::empty());
    reveal_with_fuel(decodes, 2);
    reveal_with_fuel(dec_after, 2);
    if v == 1 {
        assert(level_syms(p, level) == one + sign);
        lemma_decodes_concat(d, one, sign);
    } else {
        let mag = one + large_syms(p, v);
        assert(level_syms(p, level) == mag + sign);
        lemma_decodes_concat(d, mag, sign);
        lemma_decodes_concat(d, one, large_syms(p, v));
        large_read_inverts(dec_after(d, one), p, v);
    }
}

/// Whether every level can be coded and nothing follows the last one.
pub open spec fn levels_ok(levels: Seq<i16>, last: int) -> bool {
    &&& levels.len() == 16
    &&& last < 16
    &&& forall|i: int| 0 <= i < 16 ==> -2114 <= #[trigger] levels[i] <= 2114
    &&& forall|i: int| last < i < 16 && 0 <= i ==> #[trigger] levels[i] == 0
    &&& (0 <= last ==> levels[last] != 0)
}

/// `out` with the levels from index `n` on dequantized into `out[off..off + 16]`;
/// zero levels leave their place unchanged.
pub open spec fn dequantized(levels: Seq<i16>, dq: [i32; 2], off: int, n: int, out: Seq<i16>) -> Seq<i16>
    decreases 16 - n,
{
    if n >= 16 {
        out
    } else if levels[n] == 0 {
        dequantized(levels, dq, off, n + 1, out)
    } else {
        dequantized(
            levels,
            dq,
            off,
            n + 1,
            out.update(off + ZIGZAG[n], dequant(levels[n] as int, dq, n)),
        )
    }
}

proof fn lemma_dequantized_done(levels: Seq<i16>, last: int, dq: [i32; 2], off: int, n: int, out: Seq<i16>)
    requires
        levels_ok(levels, last),
        n > last,
        0 <= n,
    ensures
        dequantized(levels, dq, off, n, out) == out,
    decreases 16 - n,
{
    if n < 16 {
        lemma_dequantized_done(levels, last, dq, off, n + 1, out);
    }
}

/// A block's tokens read back as its dequantized levels.
pub proof fn coeffs_read_inverts(
    d: DecState,
    pb: [[[Prob; 11]; 3]; 8],
    dq: [i32; 2],
    off: int,
    levels: Seq<i16>,
    last: int,
    n: int,
    ctx: int,
    out: Seq<i16>,
)
    requires
        levels_ok(levels, last),
        0 <= n <= 16,
        decodes(d, coeff_syms(pb, levels, last, n, ctx)),
    ensures
        coeffs_read(d, pb, dq, off, n, ctx, out) == (
            if last >= n {
                last + 1
            } else {
                n
            },
            dequantized(levels, dq, off, n, out),
            dec_after(d, coeff_syms(pb, levels, last, n, ctx)),
        ),
    decreases 16 - n, 1int,
{
    if n < 16 {
        let p0 = pb[BANDS[n] as int][ctx][0];
        if n > last {
            let s: Seq<Sym> = seq![(p0, false)];
            assert(s.drop_first() =~= Seq::<Sym>::empty());
            reveal_with_fuel(decodes, 2);
            reveal_with_fuel(dec_after, 2);
            lemma_dequantized_done(levels, last, dq, off, n, out);
        } else {
            let s: Seq<Sym> = seq![(p0, true)];
            let rest = run_syms(pb, levels, last, n, ctx);
            lemma_decodes_concat(d, s, rest);
            assert(s.drop_first() =~= Seq::<Sym>::empty());
            reveal_with_fuel(decodes, 2);
            reveal_with_fuel(dec_after, 2);
            run_read_inverts(dec_step(d, p0).1, pb, dq, off, levels, last, n, ctx, out);
        }
    }
}

proof fn run_read_inverts(
    d: DecState,
    pb: [[[Prob; 11]; 3]; 8],
    dq: [i32; 2],
    off: int,
    levels: Seq<i16>,
    last: int,
    n: int,
    ctx: int,
    out: Seq<i16>,
)
    requires
        levels_ok(levels, last),
        0 <= n <= last,
        decodes(d, run_syms(pb, levels, last, n, ctx)),
    ensures
        run_read(d, pb, dq, off, n, ctx, out) == (
            last + 1,
            dequantized(levels, dq, off, n, out),
            dec_after(d, run_syms(pb, levels, last, n, ctx)),
        ),
    decreases 16 - n, 0int,
{
    let p = pb[BANDS[n] as int][ctx];
    reveal_with_fuel(decodes, 2);
    reveal_with_fuel(dec_after, 2);
    if levels[n] == 0 {
        let s: Seq<Sym> = seq![(p[1], false)];
        assert(s.drop_first() =~= Seq::<Sym>::empty());
        lemma_decodes_concat(d, s, run_syms(pb, levels, last, n + 1, 0));
        run_read_inverts(dec_step(d, p[1]).1, pb, dq, off, levels, last, n + 1, 0, out);
    } else {
        let level = levels[n] as int;
        let s: Seq<Sym> = seq![(p[1], true)];
        assert(s.drop_first() =~= Seq::<Sym>::empty());
        let lv = level_syms(p, level);
        let rest = coeff_syms(pb, levels, last, n + 1, next_ctx(level));
        lemma_decodes_concat(d, s + lv, rest);
        lemma_decodes_concat(d, s, lv);
        let d1 = dec_step(d, p[1]).1;
        level_read_inverts(d1, p, level);
        coeffs_read_inverts(
            dec_after(d1, lv),
            pb,
            dq,
            off,
            levels,
            last,
            n + 1,
            next_ctx(level),
            out.update(off + ZIGZAG[n], dequant(level, dq, n)),
        );
    }
}

/// Whether a block's levels can be coded from index `first` and read back.
pub open spec fn block_ok(b: Block, first: int) -> bool {
    &&& -1 <= b.last < 16
    &&& forall|i: int| 0 <= i < 16 ==> -2114 <= #[trigger] b.levels@[i] <= 2114
    &&& forall|i: int| 0 <= i < 16 && b.last < i ==> #[trigger] b.levels@[i] == 0
    &&& (b.last >= first ==> b.levels@[b.last as int] != 0)
    &&& (b.last < first ==> forall|i: int| first <= i < 16 ==> #[trigger] b.levels@[i] == 0)
}

/// Whether every block of a macroblock can be coded and read back.
pub open spec fn mb_ok(mb: MbTokens) -> bool {
    &&& (!mb.is_i4x4 ==> block_ok(mb.y2, 0))
    &&& forall|i: int| 0 <= i < 16 ==> block_ok(#[trigger] mb.luma@[i], luma_first(mb.is_i4x4))
    &&& forall|i: int| 0 <= i < 8 ==> block_ok(#[trigger] mb.chroma@[i], 0)
}

/// The index after a block's last level, as a reader starting at `first` sees it.
pub open spec fn block_end(b: Block, first: int) -> int {
    if b.last >= first {
        b.last + 1
    } else {
        first
    }
}

/// A block's tokens read back, whatever the empty block's `last`.
pub proof fn block_read_inverts(
    d: DecState,
    bands: CoeffProbas,
    plane: int,
    dq: [i32; 2],
    off: int,
    b: Block,
    first: int,
    ctx: int,
    out: Seq<i16>,
)
    requires
        block_ok(b, first),
        0 <= first <= 1,
        decodes(d, block_syms(bands, plane, ctx, b, first)),
    ensures
        coeffs_read(d, bands[plane], dq, off, first, ctx, out) == (
            block_end(b, first),
            dequantized(b.levels@, dq, off, first, out),
            dec_after(d, block_syms(bands, plane, ctx, b, first)),
        ),
        block_end(b, first) > first <==> block_nz(b, first),
{
    if b.last >= first {
        coeffs_read_inverts(d, bands[plane], dq, off, b.levels@, b.last as int, first, ctx, out);
    } else {
        // An empty block is one symbol, whatever lies below `first`.
        let p0 = bands[plane][BANDS[first] as int][ctx][0];
        let s: Seq<Sym> = seq![(p0, false)];
        assert(block_syms(bands, plane, ctx, b, first) == s);
        assert(s.drop_first() =~= Seq::<Sym>::empty());
        reveal_with_fuel(decodes, 2);
        reveal_with_fuel(dec_after, 2);
        lemma_dequantized_zero(b.levels@, dq, off, first, out);
    }
}

proof fn lemma_dequantized_zero(levels: Seq<i16>, dq: [i32; 2], off: int, n: int, out: Seq<i16>)
    requires
        0 <= n,
        forall|i: int| n <= i < 16 ==> #[trigger] levels[i] == 0,
    ensures
        dequantized(levels, dq, off, n, out) == out,
    decreases 16 - n,
{
    if n < 16 {
        lemma_dequantized_zero(levels, dq, off, n + 1, out);
    }
}

/// The coefficients after the first `k` luma blocks.
pub open spec fn luma_coeffs(blocks: Seq<Block>, dq: [i32; 2], first: int, coeffs: Seq<i16>, k: int) -> Seq<i16>
    decreases k,
{
    if k <= 0 {
        coeffs
    } else {
        dequantized(
            blocks[k - 1].levels@,
            dq,
            16 * (k - 1),
            first,
            luma_coeffs(blocks, dq, first, coeffs, k - 1),
        )
    }
}

/// The coefficients after the first `k` chroma blocks.
pub open spec fn chroma_coeffs(blocks: Seq<Block>, dq: [i32; 2], coeffs: Seq<i16>, k: int) -> Seq<i16>
    decreases k,
{
    if k <= 0 {
        coeffs
    } else {
        dequantized(
            blocks[k - 1].levels@,
            dq,
            256 + 16 * (k - 1),
            0,
            chroma_coeffs(blocks, dq, coeffs, k - 1),
        )
    }
}

/// The first `k` luma blocks read back: their flags, their coefficients, and the
/// decoder right behind them.
pub proof fn luma_read_inverts(
    d: DecState,
    bands: CoeffProbas,
    dq: [i32; 2],
    is_i4x4: bool,
    blocks: Seq<Block>,
    top: Seq<bool>,
    left: Seq<bool>,
    coeffs: Seq<i16>,
    k: int,
)
    requires
        0 <= k <= 16,
        blocks.len() == 16,
        forall|i: int| 0 <= i < 16 ==> block_ok(#[trigger] blocks[i], luma_first(is_i4x4)),
        decodes(d, luma_syms(bands, luma_type(is_i4x4), blocks, luma_first(is_i4x4), top, left, k)),
    ensures
        ({
            let first = luma_first(is_i4x4);
            let r = luma_read(d, bands, dq, is_i4x4, top, left, coeffs, k);
            &&& r.flags == block_flags(blocks, first).take(k)
            &&& r.coeffs == luma_coeffs(blocks, dq, first, coeffs, k)
            &&& r.d == dec_after(
                d,
                luma_syms(bands, luma_type(is_i4x4), blocks, first, top, left, k),
            )
        }),
    decreases k,
{
    let first = luma_first(is_i4x4);
    let plane = luma_type(is_i4x4);
    let flags = block_flags(blocks, first);
    if k > 0 {
        let head = luma_syms(bands, plane, blocks, first, top, left, k - 1);
        let ctx = luma_ctx(flags, top, left, k - 1);
        let tail = block_syms(bands, plane, ctx, blocks[k - 1], first);
        lemma_decodes_concat(d, head, tail);
        luma_read_inverts(d, bands, dq, is_i4x4, blocks, top, left, coeffs, k - 1);
        let r = luma_read(d, bands, dq, is_i4x4, top, left, coeffs, k - 1);
        crate::tokens::lemma_luma_ctx_prefix(r.flags, flags, top, left, k - 1);
        block_read_inverts(
            r.d,
            bands,
            plane,
            dq,
            16 * (k - 1),
            blocks[k - 1],
            first,
            ctx,
            r.coeffs,
        );
        assert(flags.take(k) =~= flags.take(k - 1).push(flags[k - 1]));
    } else {
        assert(flags.take(k) =~= Seq::<bool>::empty());
    }
}

/// The first `k` chroma blocks read back.
pub proof fn chroma_read_inverts(
    d: DecState,
    bands: CoeffProbas,
    dq: [i32; 2],
    blocks: Seq<Block>,
    top: Seq<bool>,
    left: Seq<bool>,
    coeffs: Seq<i16>,
    k: int,
)
    requires
        0 <= k <= 8,
        blocks.len() == 8,
        forall|i: int| 0 <= i < 8 ==> block_ok(#[trigger] blocks[i], 0),
        decodes(d, chroma_syms(bands, blocks, top, left, k)),
    ensures
        ({
            let r = chroma_read(d, bands, dq, top, left, coeffs, k);
            &&& r.flags == block_flags(blocks, 0).take(k)
            &&& r.coeffs == chroma_coeffs(blocks, dq, coeffs, k)
            &&& r.d == dec_after(d, chroma_syms(bands, blocks, top, left, k))
        }),
    decreases k,
{
    let flags = block_flags(blocks, 0);
    if k > 0 {
        let head = chroma_syms(bands, blocks, top, left, k - 1);
        let ctx = chroma_ctx(flags, top, left, k - 1);
        let tail = block_syms(bands, 2, ctx, blocks[k - 1], 0);
        lemma_decodes_concat(d, head, tail);
        chroma_read_inverts(d, bands, dq, blocks, top, left, coeffs, k - 1);
        let r = chroma_read(d, bands, dq, top, left, coeffs, k - 1);
        crate::tokens::lemma_chroma_ctx_prefix(r.flags, flags, top, left, k - 1);
        block_read_inverts(
            r.d,
            bands,
            2,
            dq,
            256 + 16 * (k - 1),
            blocks[k - 1],
            0,
            ctx,
            r.coeffs,
        );
        assert(flags.take(k) =~= flags.take(k - 1).push(flags[k - 1]));
    } else {
        assert(flags.take(k) =~= Seq::<bool>::empty());
    }
}

/// The luma DC slots a macroblock's second-order block stands for.
pub open spec fn y2_coeffs(mb: MbTokens, dq: [i32; 2]) -> Seq<i16> {
    if mb.is_i4x4 {
        zeros(384)
    } else {
        y2_spread(block_end(mb.y2, 0), dequantized(mb.y2.levels@, dq, 0, 0, zeros(16)))
    }
}

/// The dequantized coefficients of a macroblock.
pub open spec fn mb_coeffs(mb: MbTokens, q: QuantMatrix) -> Seq<i16> {
    chroma_coeffs(
        mb.chroma@,
        q.uv,
        luma_coeffs(mb.luma@, q.y1, luma_first(mb.is_i4x4), y2_coeffs(mb, q.y2), 16),
        8,
    )
}

/// A macroblock's residual tokens read back: parsing them yields the macroblock's
/// flags and its dequantized coefficients, and stops right behind them.
pub proof fn mb_read_inverts(
    d: DecState,
    bands: CoeffProbas,
    q: QuantMatrix,
    mb: MbTokens,
    top: Seq<bool>,
    left: Seq<bool>,
    dc_ctx: int,
)
    requires
        mb_ok(mb),
        decodes(d, mb_syms(bands, mb, top, left, dc_ctx)),
    ensures
        ({
            let r = mb_read(d, bands, q, mb.is_i4x4, top, left, dc_ctx);
            &&& r.luma.flags == mb_luma_flags(mb)
            &&& r.chroma.flags == mb_chroma_flags(mb)
            &&& (!mb.is_i4x4 ==> r.dc_nz == block_nz(mb.y2, 0))
            &&& r.chroma.coeffs == mb_coeffs(mb, q)
            &&& r.chroma.d == dec_after(d, mb_syms(bands, mb, top, left, dc_ctx))
        }),
{
    let first = luma_first(mb.is_i4x4);
    let s1 = y2_syms(bands, mb, dc_ctx);
    let s2 = luma_syms(bands, luma_type(mb.is_i4x4), mb.luma@, first, top, left, 16);
    let s3 = chroma_syms(bands, mb.chroma@, top, left, 8);
    lemma_decodes_concat(d, s1 + s2, s3);
    lemma_decodes_concat(d, s1, s2);
    if !mb.is_i4x4 {
        block_read_inverts(d, bands, 1, q.y2, 0, mb.y2, 0, dc_ctx, zeros(16));
    }
    let (dc_nz, coeffs, d1) = y2_read(d, bands, q.y2, mb.is_i4x4, dc_ctx);
    assert(d1 == dec_after(d, s1));
    luma_read_inverts(d1, bands, q.y1, mb.is_i4x4, mb.luma@, top, left, coeffs, 16);
    let l = luma_read(d1, bands, q.y1, mb.is_i4x4, top, left, coeffs, 16);
    chroma_read_inverts(l.d, bands, q.uv, mb.chroma@, top, left, l.coeffs, 8);
    assert(block_flags(mb.luma@, first).take(16) =~= mb_luma_flags(mb));
    assert(block_flags(mb.chroma@, 0).take(8) =~= mb_chroma_flags(mb));
}

} // verus!
