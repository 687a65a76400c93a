//! Emission of coefficient tokens and intra modes.
//!
//! What a function writes is stated as the sequence of symbols it appends to the
//! encoder. A block's tokens are [`coeff_syms`]; a macroblock's are [`mb_syms`], with
//! the neighbour context of every block read off the grid of "this block has
//! coefficients" flags.

use vstd::prelude::*;

use crate::arith::{abs_i32, abs_int};
use crate::bool_enc::BoolEncoder;
use crate::coder::Sym;
use crate::constants::{
    CoeffProbas, CoeffStats, Prob, BANDS, B_DC_PRED, B_HD_PRED, B_HE_PRED, B_LD_PRED, B_RD_PRED,
    B_TM_PRED, B_VE_PRED, B_VL_PRED, B_VR_PRED, CAT_3456, CAT_BITS, H_PRED, TM_PRED, V_PRED,
};

verus! {

/// Quantized levels of one 4x4 block.
#[derive(Clone, Copy, PartialEq, Eq, Debug)]
pub struct Block {
    /// Signed levels in zig-zag order.
    pub levels: [i16; 16],
    /// Zig-zag index of the last non-zero level, or less than the first coded index
    /// if the block is empty.
    pub last: i32,
}

impl Default for Block {
    fn default() -> (r: Self)
        ensures
            r.last == -1,
            forall|i: int| 0 <= i < 16 ==> r.levels@[i] == 0,
    {
        Block { levels: [0i16; 16], last: -1 }
    }
}

/// The blocks of one macroblock.
#[derive(Clone, Copy, PartialEq, Eq, Debug)]
pub struct MbTokens {
    /// Whether luma is coded as sixteen independent 4x4 blocks.
    pub is_i4x4: bool,
    /// The second-order block; used unless `is_i4x4`.
    pub y2: Block,
    /// The sixteen luma blocks in raster order.
    pub luma: [Block; 16],
    /// The four U blocks, then the four V blocks.
    pub chroma: [Block; 8],
}

/// The "has coefficients" flags of the neighbouring blocks, rolled along the scan.
pub struct NzContext {
    /// Per column: four luma, two U and two V flags of the macroblock above.
    pub top: Vec<u32>,
    /// Per column: the second-order flag above.
    pub top_dc: Vec<u32>,
    /// The flags of the macroblock to the left.
    pub left: u32,
    /// The second-order flag to the left.
    pub left_dc: u32,
}

/// Zero or one.
pub open spec fn b2n(b: bool) -> int {
    if b {
        1
    } else {
        0
    }
}

/// The eight flags packed in a context word, least significant first.
pub open spec fn word_flags(w: u32) -> Seq<bool> {
    seq![
        w % 2 == 1,
        (w / 2) % 2 == 1,
        (w / 4) % 2 == 1,
        (w / 8) % 2 == 1,
        (w / 16) % 2 == 1,
        (w / 32) % 2 == 1,
        (w / 64) % 2 == 1,
        (w / 128) % 2 == 1,
    ]
}

/// Eight flags packed into a context word.
pub open spec fn flags_word(f: Seq<bool>) -> u32 {
    (b2n(f[0]) + 2 * b2n(f[1]) + 4 * b2n(f[2]) + 8 * b2n(f[3]) + 16 * b2n(f[4]) + 32 * b2n(f[5])
        + 64 * b2n(f[6]) + 128 * b2n(f[7])) as u32
}

/// Packing and unpacking a context word.
pub proof fn lemma_flags_word(f: Seq<bool>)
    requires
        f.len() == 8,
    ensures
        word_flags(flags_word(f)) == f,
        flags_word(f) < 256,
{
    assert(word_flags(flags_word(f)) =~= f);
}

/// Unpack a context word.
pub fn unpack_flags(w: u32) -> (r: [bool; 8])
    ensures
        r@ == word_flags(w),
{
    let r: [bool; 8] = [
        w % 2 == 1,
        (w / 2) % 2 == 1,
        (w / 4) % 2 == 1,
        (w / 8) % 2 == 1,
        (w / 16) % 2 == 1,
        (w / 32) % 2 == 1,
        (w / 64) % 2 == 1,
        (w / 128) % 2 == 1,
    ];
    assert(r@ =~= word_flags(w));
    r
}

/// Zero or one.
pub fn bit_u32(b: bool) -> (r: u32)
    ensures
        r == b2n(b),
{
    if b {
        1
    } else {
        0
    }
}

/// Pack a context word.
pub fn pack_flags(f: [bool; 8]) -> (r: u32)
    ensures
        r == flags_word(f@),
{
    bit_u32(f[0]) + 2 * bit_u32(f[1]) + 4 * bit_u32(f[2]) + 8 * bit_u32(f[3]) + 16 * bit_u32(f[4])
        + 32 * bit_u32(f[5]) + 64 * bit_u32(f[6]) + 128 * bit_u32(f[7])
}

/// The context of luma block `i`: how many of the blocks above and to the left have
/// coefficients. `flags` covers the blocks before `i`.
pub open spec fn luma_ctx(flags: Seq<bool>, top: Seq<bool>, left: Seq<bool>, i: int) -> int {
    b2n(
        if i < 4 {
            top[i]
        } else {
            flags[i - 4]
        },
    ) + b2n(
        if i % 4 == 0 {
            left[i / 4]
        } else {
            flags[i - 1]
        },
    )
}

/// The context of chroma block `i` (four U blocks, then four V blocks).
pub open spec fn chroma_ctx(flags: Seq<bool>, top: Seq<bool>, left: Seq<bool>, i: int) -> int {
    b2n(
        if i % 4 < 2 {
            top[4 + 2 * (i / 4) + i % 2]
        } else {
            flags[i - 2]
        },
    ) + b2n(
        if i % 2 == 0 {
            left[4 + 2 * (i / 4) + (i % 4) / 2]
        } else {
            flags[i - 1]
        },
    )
}

/// The flags the macroblock below sees: the bottom row of each plane.
pub open spec fn bottom_flags(luma: Seq<bool>, chroma: Seq<bool>) -> Seq<bool> {
    seq![luma[12], luma[13], luma[14], luma[15], chroma[2], chroma[3], chroma[6], chroma[7]]
}

/// The flags the macroblock to the right sees: the right column of each plane.
pub open spec fn right_flags(luma: Seq<bool>, chroma: Seq<bool>) -> Seq<bool> {
    seq![luma[3], luma[7], luma[11], luma[15], chroma[1], chroma[3], chroma[5], chroma[7]]
}

/// Whether a block has coefficients from index `first` on.
pub open spec fn block_nz(b: Block, first: int) -> bool {
    b.last + 1 > first
}

/// The flags of a list of blocks.
pub open spec fn block_flags(blocks: Seq<Block>, first: int) -> Seq<bool> {
    Seq::new(blocks.len(), |i: int| block_nz(blocks[i], first))
}

/// Whether a block can be coded from index `first`: its last level is not zero.
pub open spec fn block_wf(b: Block, first: int) -> bool {
    &&& -1 <= b.last < 16
    &&& (b.last >= first ==> b.levels@[b.last as int] != 0)
}

/// The first coded index of a macroblock's luma blocks.
pub open spec fn luma_first(is_i4x4: bool) -> int {
    if is_i4x4 {
        0
    } else {
        1
    }
}

/// The plane type of a macroblock's luma blocks.
pub open spec fn luma_type(is_i4x4: bool) -> int {
    if is_i4x4 {
        3
    } else {
        0
    }
}

/// Whether every block of a macroblock can be coded.
pub open spec fn mb_wf(mb: MbTokens) -> bool {
    &&& (!mb.is_i4x4 ==> block_wf(mb.y2, 0))
    &&& forall|i: int| 0 <= i < 16 ==> block_wf(#[trigger] mb.luma@[i], luma_first(mb.is_i4x4))
    &&& forall|i: int| 0 <= i < 8 ==> block_wf(#[trigger] mb.chroma@[i], 0)
}

/// The value category (of categories three to six) of a magnitude above ten.
pub open spec fn cat_of(v: int) -> int {
    if v <= 18 {
        0
    } else if v <= 34 {
        1
    } else if v <= 66 {
        2
    } else {
        3
    }
}

/// The smallest magnitude of a value category.
pub open spec fn cat_base(cat: int) -> int {
    if cat == 0 {
        11
    } else if cat == 1 {
        19
    } else if cat == 2 {
        35
    } else {
        67
    }
}

/// The `k` leading extra bits of a category: the low `k` bits of `v`, most
/// significant first.
pub open spec fn extra_syms(cat: int, v: int, k: nat) -> Seq<Sym>
    decreases k,
{
    if k == 0 {
        Seq::empty()
    } else {
        extra_syms(cat, v / 2, (k - 1) as nat).push((CAT_3456[cat][k - 1], v % 2 == 1))
    }
}

/// The symbols of a magnitude of two or more.
#[verifier::opaque]
pub open spec fn large_syms(p: [Prob; 11], v: int) -> Seq<Sym> {
    if v <= 4 {
        if v == 2 {
            seq![(p[3], false), (p[4], false)]
        } else {
            seq![(p[3], false), (p[4], true), (p[5], v == 4)]
        }
    } else if v <= 10 {
        if v <= 6 {
            seq![(p[3], true), (p[6], false), (p[7], false), (159u8, v == 6)]
        } else {
            seq![
                (p[3], true),
                (p[6], false),
                (p[7], true),
                (165u8, v >= 9),
                (145u8, v == 8 || v == 10),
            ]
        }
    } else {
        let cat = cat_of(v);
        seq![
            (p[3], true),
            (p[6], true),
            (p[8], cat >= 2),
            (p[9 + cat / 2], cat % 2 == 1),
        ] + extra_syms(cat, v - cat_base(cat), CAT_BITS[cat] as nat)
    }
}

/// The symbols of a non-zero level's magnitude and sign.
#[verifier::opaque]
pub open spec fn level_syms(p: [Prob; 11], level: int) -> Seq<Sym> {
    let v = abs_int(level);
    (if v == 1 {
        seq![(p[2], false)]
    } else {
        seq![(p[2], true)] + large_syms(p, v)
    }) + seq![(128u8, level < 0)]
}

/// The context that follows a non-zero level.
pub open spec fn next_ctx(level: int) -> int {
    if abs_int(level) == 1 {
        1
    } else {
        2
    }
}

/// The tokens of a block from index `n` on, starting with the decision whether any
/// level is left.
pub open spec fn coeff_syms(
    pb: [[[Prob; 11]; 3]; 8],
    levels: Seq<i16>,
    last: int,
    n: int,
    ctx: int,
) -> Seq<Sym>
    decreases 16 - n, 1int,
{
    if n >= 16 {
        Seq::empty()
    } else if n > last {
        seq![(pb[BANDS[n] as int][ctx][0], false)]
    } else {
        seq![(pb[BANDS[n] as int][ctx][0], true)] + run_syms(pb, levels, last, n, ctx)
    }
}

/// The tokens of a block from index `n` on when a level is known to be left: a run
/// of zeros, then a non-zero level, then the rest.
pub open spec fn run_syms(
    pb: [[[Prob; 11]; 3]; 8],
    levels: Seq<i16>,
    last: int,
    n: int,
    ctx: int,
) -> Seq<Sym>
    decreases 16 - n, 0int,
{
    if n >= 16 {
        Seq::empty()
    } else if levels[n] == 0 {
        seq![(pb[BANDS[n] as int][ctx][1], false)] + run_syms(pb, levels, last, n + 1, 0)
    } else {
        seq![(pb[BANDS[n] as int][ctx][1], true)] + level_syms(
            pb[BANDS[n] as int][ctx],
            levels[n] as int,
        ) + coeff_syms(pb, levels, last, n + 1, next_ctx(levels[n] as int))
    }
}

/// The tokens of a whole block.
pub open spec fn block_syms(bands: CoeffProbas, plane: int, ctx: int, b: Block, first: int) -> Seq<Sym> {
    coeff_syms(bands[plane], b.levels@, b.last as int, first, ctx)
}

/// The tokens of the first `k` luma blocks.
pub open spec fn luma_syms(
    bands: CoeffProbas,
    plane: int,
    blocks: Seq<Block>,
    first: int,
    top: Seq<bool>,
    left: Seq<bool>,
    k: int,
) -> Seq<Sym>
    decreases k,
{
    if k <= 0 {
        Seq::empty()
    } else {
        luma_syms(bands, plane, blocks, first, top, left, k - 1) + block_syms(
            bands,
            plane,
            luma_ctx(block_flags(blocks, first), top, left, k - 1),
            blocks[k - 1],
            first,
        )
    }
}

/// The tokens of the first `k` chroma blocks.
pub open spec fn chroma_syms(
    bands: CoeffProbas,
    blocks: Seq<Block>,
    top: Seq<bool>,
    left: Seq<bool>,
    k: int,
) -> Seq<Sym>
    decreases k,
{
    if k <= 0 {
        Seq::empty()
    } else {
        chroma_syms(bands, blocks, top, left, k - 1) + block_syms(
            bands,
            2,
            chroma_ctx(block_flags(blocks, 0), top, left, k - 1),
            blocks[k - 1],
            0,
        )
    }
}

/// The tokens of the second-order block, if the macroblock has one.
pub open spec fn y2_syms(bands: CoeffProbas, mb: MbTokens, ctx: int) -> Seq<Sym> {
    if mb.is_i4x4 {
        Seq::empty()
    } else {
        block_syms(bands, 1, ctx, mb.y2, 0)
    }
}

/// The tokens of a macroblock in the given neighbour context.
pub open spec fn mb_syms(
    bands: CoeffProbas,
    mb: MbTokens,
    top: Seq<bool>,
    left: Seq<bool>,
    dc_ctx: int,
) -> Seq<Sym> {
    y2_syms(bands, mb, dc_ctx) + luma_syms(
        bands,
        luma_type(mb.is_i4x4),
        mb.luma@,
        luma_first(mb.is_i4x4),
        top,
        left,
        16,
    ) + chroma_syms(bands, mb.chroma@, top, left, 8)
}

/// The flags of a macroblock's luma blocks.
pub open spec fn mb_luma_flags(mb: MbTokens) -> Seq<bool> {
    block_flags(mb.luma@, luma_first(mb.is_i4x4))
}

/// The flags of a macroblock's chroma blocks.
pub open spec fn mb_chroma_flags(mb: MbTokens) -> Seq<bool> {
    block_flags(mb.chroma@, 0)
}

impl NzContext {
    /// Every word holds eight flags and every second-order flag is zero or one.
    pub open spec fn wf(&self) -> bool {
        &&& self.top@.len() == self.top_dc@.len()
        &&& forall|i: int| 0 <= i < self.top@.len() ==> #[trigger] self.top@[i] < 256
        &&& forall|i: int| 0 <= i < self.top_dc@.len() ==> #[trigger] self.top_dc@[i] <= 1
        &&& self.left < 256
        &&& self.left_dc <= 1
    }

    /// The second-order context of column `mb_x`.
    pub open spec fn dc_ctx(&self, mb_x: int) -> int {
        self.top_dc@[mb_x] + self.left_dc
    }

    /// The context after coding macroblock `mb` in column `mb_x`.
    pub open spec fn after_mb(&self, next: &NzContext, mb: MbTokens, mb_x: int) -> bool {
        let bottom = flags_word(bottom_flags(mb_luma_flags(mb), mb_chroma_flags(mb)));
        let right = flags_word(right_flags(mb_luma_flags(mb), mb_chroma_flags(mb)));
        let dc = b2n(block_nz(mb.y2, 0)) as u32;
        &&& next.top@ == self.top@.update(mb_x, bottom)
        &&& next.left == right
        &&& next.top_dc@ == (if mb.is_i4x4 {
            self.top_dc@
        } else {
            self.top_dc@.update(mb_x, dc)
        })
        &&& next.left_dc == (if mb.is_i4x4 {
            self.left_dc
        } else {
            dc
        })
    }

    /// A cleared context for a frame `mb_w` macroblocks wide.
    pub fn new(mb_w: usize) -> (r: Self)
        ensures
            r.wf(),
            r.top@ == Seq::new(mb_w as nat, |i: int| 0u32),
            r.top_dc@ == Seq::new(mb_w as nat, |i: int| 0u32),
            r.left == 0,
            r.left_dc == 0,
    {
        let r = NzContext { top: vec![0u32; mb_w], top_dc: vec![0u32; mb_w], left: 0, left_dc: 0 };
        assert(r.top@ =~= Seq::new(mb_w as nat, |i: int| 0u32));
        assert(r.top_dc@ =~= Seq::new(mb_w as nat, |i: int| 0u32));
        r
    }

    /// Clear the left context at the start of a macroblock row.
    pub fn init_scanline(&mut self)
        ensures
            final(self).top@ == old(self).top@,
            final(self).top_dc@ == old(self).top_dc@,
            final(self).left == 0,
            final(self).left_dc == 0,
            old(self).wf() ==> final(self).wf(),
    {
        self.left = 0;
        self.left_dc = 0;
    }

    /// Clear the context around a skipped 16x16 macroblock.
    pub fn skip_mb(&mut self, mb_x: usize)
        requires
            mb_x < old(self).top@.len(),
            mb_x < old(self).top_dc@.len(),
        ensures
            final(self).top@ == old(self).top@.update(mb_x as int, 0),
            final(self).top_dc@ == old(self).top_dc@.update(mb_x as int, 0),
            final(self).left == 0,
            final(self).left_dc == 0,
            old(self).wf() ==> final(self).wf(),
    {
        self.top[mb_x] = 0;
        self.top_dc[mb_x] = 0;
        self.left = 0;
        self.left_dc = 0;
    }
}

/// The context index of luma block `i`.
pub fn luma_ctx_exec(flags: &[bool; 16], top: &[bool; 8], left: &[bool; 8], i: usize) -> (r: usize)
    requires
        i < 16,
    ensures
        r == luma_ctx(flags@, top@, left@, i as int),
        r <= 2,
{
    let above: bool = if i < 4 {
        top[i]
    } else {
        flags[i - 4]
    };
    let before: bool = if i % 4 == 0 {
        left[i / 4]
    } else {
        flags[i - 1]
    };
    (bit_u32(above) + bit_u32(before)) as usize
}

/// The context index of chroma block `i`.
pub fn chroma_ctx_exec(flags: &[bool; 8], top: &[bool; 8], left: &[bool; 8], i: usize) -> (r: usize)
    requires
        i < 8,
    ensures
        r == chroma_ctx(flags@, top@, left@, i as int),
        r <= 2,
{
    let above: bool = if i % 4 < 2 {
        top[4 + 2 * (i / 4) + i % 2]
    } else {
        flags[i - 2]
    };
    let before: bool = if i % 2 == 0 {
        left[4 + 2 * (i / 4) + (i % 4) / 2]
    } else {
        flags[i - 1]
    };
    (bit_u32(above) + bit_u32(before)) as usize
}

/// The context depends on the flags before block `i` only.
pub proof fn lemma_luma_ctx_prefix(a: Seq<bool>, b: Seq<bool>, top: Seq<bool>, left: Seq<bool>, i: int)
    requires
        0 <= i,
        forall|j: int| 0 <= j < i ==> a[j] == b[j],
    ensures
        luma_ctx(a, top, left, i) == luma_ctx(b, top, left, i),
{
}

/// The context depends on the flags before block `i` only.
pub proof fn lemma_chroma_ctx_prefix(a: Seq<bool>, b: Seq<bool>, top: Seq<bool>, left: Seq<bool>, i: int)
    requires
        0 <= i,
        forall|j: int| 0 <= j < i ==> a[j] == b[j],
    ensures
        chroma_ctx(a, top, left, i) == chroma_ctx(b, top, left, i),
{
}

/// Write one macroblock's residual tokens and roll the context.
#[verifier::rlimit(60)]
pub fn emit_mb_residuals(
    enc: &mut BoolEncoder,
    bands: &CoeffProbas,
    mb: &MbTokens,
    ctx: &mut NzContext,
    mb_x: usize,
)
    requires
        old(enc).wf(),
        old(ctx).wf(),
        mb_x < old(ctx).top@.len(),
        mb_wf(*mb),
    ensures
        final(enc).wf(),
        final(enc)@ == old(enc)@ + mb_syms(
            *bands,
            *mb,
            word_flags(old(ctx).top@[mb_x as int]),
            word_flags(old(ctx).left),
            old(ctx).dc_ctx(mb_x as int),
        ),
        old(ctx).after_mb(final(ctx), *mb, mb_x as int),
        final(ctx).wf(),
{
    let top: [bool; 8] = unpack_flags(ctx.top[mb_x]);
    let left: [bool; 8] = unpack_flags(ctx.left);
    let first: usize = if mb.is_i4x4 {
        0
    } else {
        1
    };
    let plane: usize = if mb.is_i4x4 {
        3
    } else {
        0
    };
    let ghost start = enc@;
    let ghost dc = ctx.dc_ctx(mb_x as int);
    if !mb.is_i4x4 {
        let c: usize = (ctx.top_dc[mb_x] + ctx.left_dc) as usize;
        let nz: i32 = put_coeffs(enc, bands, 1, c, mb.y2.levels, 0, mb.y2.last);
        let dc_nz: u32 = bit_u32(nz > 0);
        ctx.top_dc[mb_x] = dc_nz;
        ctx.left_dc = dc_nz;
    }
    let ghost after_y2 = enc@;
    assert(after_y2 =~= start + y2_syms(*bands, *mb, dc));
    let mut luma: [bool; 16] = [false; 16];
    let mut i: usize = 0;
    assert(enc@ =~= after_y2 + luma_syms(*bands, plane as int, mb.luma@, first as int, top@, left@, 0));
    while i < 16
        invariant
            i <= 16,
            enc.wf(),
            plane == luma_type(mb.is_i4x4),
            first == luma_first(mb.is_i4x4),
            mb_wf(*mb),
            enc@ == after_y2 + luma_syms(
                *bands,
                plane as int,
                mb.luma@,
                first as int,
                top@,
                left@,
                i as int,
            ),
            forall|j: int|
                0 <= j < i ==> #[trigger] luma@[j] == block_flags(mb.luma@, first as int)[j],
        decreases 16 - i,
    {
        let c: usize = luma_ctx_exec(&luma, &top, &left, i);
        proof {
            lemma_luma_ctx_prefix(
                luma@,
                block_flags(mb.luma@, first as int),
                top@,
                left@,
                i as int,
            );
            assert(block_wf(mb.luma@[i as int], first as int));
        }
        let ghost before = enc@;
        let b: Block = mb.luma[i];
        let nz: i32 = put_coeffs(enc, bands, plane, c, b.levels, first, b.last);
        luma[i] = nz > first as i32;
        assert(enc@ =~= after_y2 + luma_syms(
            *bands,
            plane as int,
            mb.luma@,
            first as int,
            top@,
            left@,
            i + 1,
        ));
        i = i + 1;
    }
    let ghost after_luma = enc@;
    let mut chroma: [bool; 8] = [false; 8];
    let mut k: usize = 0;
    assert(enc@ =~= after_luma + chroma_syms(*bands, mb.chroma@, top@, left@, 0));
    while k < 8
        invariant
            k <= 8,
            enc.wf(),
            mb_wf(*mb),
            enc@ == after_luma + chroma_syms(*bands, mb.chroma@, top@, left@, k as int),
            forall|j: int| 0 <= j < k ==> #[trigger] chroma@[j] == block_flags(mb.chroma@, 0)[j],
        decreases 8 - k,
    {
        let c: usize = chroma_ctx_exec(&chroma, &top, &left, k);
        proof {
            lemma_chroma_ctx_prefix(chroma@, block_flags(mb.chroma@, 0), top@, left@, k as int);
            assert(block_wf(mb.chroma@[k as int], 0));
        }
        let b: Block = mb.chroma[k];
        let nz: i32 = put_coeffs(enc, bands, 2, c, b.levels, 0, b.last);
        chroma[k] = nz > 0;
        assert(enc@ =~= after_luma + chroma_syms(*bands, mb.chroma@, top@, left@, k + 1));
        k = k + 1;
    }
    proof {
        assert(luma@ =~= mb_luma_flags(*mb));
        assert(chroma@ =~= mb_chroma_flags(*mb));
        lemma_flags_word(bottom_flags(luma@, chroma@));
        lemma_flags_word(right_flags(luma@, chroma@));
    }
    let bottom: [bool; 8] = [
        luma[12],
        luma[13],
        luma[14],
        luma[15],
        chroma[2],
        chroma[3],
        chroma[6],
        chroma[7],
    ];
    let right: [bool; 8] = [
        luma[3],
        luma[7],
        luma[11],
        luma[15],
        chroma[1],
        chroma[3],
        chroma[5],
        chroma[7],
    ];
    assert(bottom@ =~= bottom_flags(luma@, chroma@));
    assert(right@ =~= right_flags(luma@, chroma@));
    ctx.top[mb_x] = pack_flags(bottom);
    ctx.left = pack_flags(right);
    assert(enc@ =~= start + mb_syms(*bands, *mb, top@, left@, dc));
}

/// Write one block's tokens from index `first`, returning one more than the index of
/// its last non-zero level.
pub fn put_coeffs(
    enc: &mut BoolEncoder,
    bands: &CoeffProbas,
    plane: usize,
    ctx: usize,
    levels: [i16; 16],
    first: usize,
    last: i32,
) -> (nz: i32)
    requires
        old(enc).wf(),
        plane < 4,
        ctx < 3,
        first < 16,
        -1 <= last < 16,
        last >= first ==> levels@[last as int] != 0,
    ensures
        final(enc).wf(),
        final(enc)@ == old(enc)@ + coeff_syms(
            bands[plane as int],
            levels@,
            last as int,
            first as int,
            ctx as int,
        ),
        nz == last + 1,
{
    put_coeffs_from(enc, &bands[plane], &levels, last, first, ctx);
    last + 1
}

fn put_coeffs_from(
    enc: &mut BoolEncoder,
    pb: &[[[Prob; 11]; 3]; 8],
    levels: &[i16; 16],
    last: i32,
    n: usize,
    ctx: usize,
)
    requires
        old(enc).wf(),
        ctx < 3,
        n <= 16,
        -1 <= last < 16,
        last >= n ==> levels@[last as int] != 0,
    ensures
        final(enc).wf(),
        final(enc)@ == old(enc)@ + coeff_syms(*pb, levels@, last as int, n as int, ctx as int),
    decreases 16 - n, 1int,
{
    let ghost start = enc@;
    if n < 16 {
        let p0: Prob = pb[BANDS[n]][ctx][0];
        if n as i32 > last {
            enc.put_bool(p0, false);
        } else {
            enc.put_bool(p0, true);
            put_run_from(enc, pb, levels, last, n, ctx);
        }
    }
    assert(enc@ =~= start + coeff_syms(*pb, levels@, last as int, n as int, ctx as int));
}

fn put_run_from(
    enc: &mut BoolEncoder,
    pb: &[[[Prob; 11]; 3]; 8],
    levels: &[i16; 16],
    last: i32,
    n: usize,
    ctx: usize,
)
    requires
        old(enc).wf(),
        ctx < 3,
        n <= last < 16,
        levels@[last as int] != 0,
    ensures
        final(enc).wf(),
        final(enc)@ == old(enc)@ + run_syms(*pb, levels@, last as int, n as int, ctx as int),
    decreases 16 - n, 0int,
{
    let ghost start = enc@;
    let p: [Prob; 11] = pb[BANDS[n]][ctx];
    assert(p == pb[BANDS[n as int] as int][ctx as int]);
    let ghost rs = run_syms(*pb, levels@, last as int, n as int, ctx as int);
    if levels[n] == 0 {
        let ghost tail = run_syms(*pb, levels@, last as int, n + 1, 0);
        assert(rs == seq![(p[1], false)] + tail);
        enc.put_bool(p[1], false);
        put_run_from(enc, pb, levels, last, n + 1, 0);
        assert(enc@ == start.push((p[1], false)) + tail);
        assert(start.push((p[1], false)) + tail =~= start + (seq![(p[1], false)] + tail));
    } else {
        let ghost lv = level_syms(p, levels@[n as int] as int);
        let ghost tail = coeff_syms(*pb, levels@, last as int, n + 1, next_ctx(levels@[n as int] as int));
        assert(rs == seq![(p[1], true)] + lv + tail);
        enc.put_bool(p[1], true);
        let next: usize = put_level(enc, p, levels[n]);
        put_coeffs_from(enc, pb, levels, last, n + 1, next);
        assert(enc@ == start.push((p[1], true)) + lv + tail);
        assert(start.push((p[1], true)) + lv + tail =~= start + (seq![(p[1], true)] + lv + tail));
    }
}

/// Write a non-zero level's magnitude and sign, returning the context that follows.
fn put_level(enc: &mut BoolEncoder, p: [Prob; 11], level: i16) -> (next: usize)
    requires
        old(enc).wf(),
        level != 0,
    ensures
        final(enc).wf(),
        final(enc)@ == old(enc)@ + level_syms(p, level as int),
        next == next_ctx(level as int),
{
    let ghost start = enc@;
    let v: i32 = abs_i32(level as i32);
    if v == 1 {
        enc.put_bool(p[2], false);
    } else {
        enc.put_bool(p[2], true);
        put_large_value(enc, p, v);
    }
    enc.put_flag(level < 0);
    reveal(level_syms);
    assert(enc@ =~= start + level_syms(p, level as int));
    if v == 1 {
        1
    } else {
        2
    }
}

/// Write a magnitude of two or more.
pub fn put_large_value(enc: &mut BoolEncoder, p: [Prob; 11], v: i32)
    requires
        old(enc).wf(),
        2 <= v,
    ensures
        final(enc).wf(),
        final(enc)@ == old(enc)@ + large_syms(p, v as int),
{
    let ghost start = enc@;
    if v <= 4 {
        enc.put_bool(p[3], false);
        if v == 2 {
            enc.put_bool(p[4], false);
        } else {
            enc.put_bool(p[4], true);
            enc.put_bool(p[5], v == 4);
        }
    } else if v <= 10 {
        enc.put_bool(p[3], true);
        enc.put_bool(p[6], false);
        if v <= 6 {
            enc.put_bool(p[7], false);
            enc.put_bool(159, v == 6);
        } else {
            enc.put_bool(p[7], true);
            enc.put_bool(165, v >= 9);
            enc.put_bool(145, v == 8 || v == 10);
        }
    } else {
        enc.put_bool(p[3], true);
        enc.put_bool(p[6], true);
        let cat: usize = if v <= 18 {
            0
        } else if v <= 34 {
            1
        } else if v <= 66 {
            2
        } else {
            3
        };
        let base: i32 = if v <= 18 {
            11
        } else if v <= 34 {
            19
        } else if v <= 66 {
            35
        } else {
            67
        };
        enc.put_bool(p[8], cat >= 2);
        enc.put_bool(p[9 + cat / 2], cat % 2 == 1);
        put_extra_bits(enc, cat, (v - base) as u32, CAT_BITS[cat]);
    }
    reveal(large_syms);
    assert(enc@ =~= start + large_syms(p, v as int));
}

fn put_extra_bits(enc: &mut BoolEncoder, cat: usize, v: u32, k: usize)
    requires
        old(enc).wf(),
        cat < 4,
        k <= 11,
    ensures
        final(enc).wf(),
        final(enc)@ == old(enc)@ + extra_syms(cat as int, v as int, k as nat),
    decreases k,
{
    let ghost start = enc@;
    if k > 0 {
        put_extra_bits(enc, cat, v / 2, k - 1);
        enc.put_bool(CAT_3456[cat][k - 1], v % 2 == 1);
    }
    assert(enc@ =~= start + extra_syms(cat as int, v as int, k as nat));
}

/// The symbols of a segment id.
pub open spec fn segment_syms(probs: [Prob; 3], seg: u8) -> Seq<Sym> {
    if seg >= 2 {
        seq![(probs[0], true), (probs[2], seg == 3)]
    } else {
        seq![(probs[0], false), (probs[1], seg == 1)]
    }
}

/// Write a segment id.
pub fn put_segment_id(enc: &mut BoolEncoder, probs: [Prob; 3], seg: u8)
    requires
        old(enc).wf(),
    ensures
        final(enc).wf(),
        final(enc)@ == old(enc)@ + segment_syms(probs, seg),
{
    let ghost start = enc@;
    if seg >= 2 {
        enc.put_bool(probs[0], true);
        enc.put_bool(probs[2], seg == 3);
    } else {
        enc.put_bool(probs[0], false);
        enc.put_bool(probs[1], seg == 1);
    }
    assert(enc@ =~= start + segment_syms(probs, seg));
}

/// Write the luma-type selector.
pub fn put_is_i4x4(enc: &mut BoolEncoder, is_i4x4: bool)
    requires
        old(enc).wf(),
    ensures
        final(enc).wf(),
        final(enc)@ == old(enc)@.push((145u8, !is_i4x4)),
{
    enc.put_bool(145, !is_i4x4);
}

/// The symbols of a 16x16 luma mode; an unknown mode is coded as DC.
pub open spec fn ymode16_syms(mode: u8) -> Seq<Sym> {
    if mode == H_PRED {
        seq![(156u8, true), (128u8, false)]
    } else if mode == TM_PRED {
        seq![(156u8, true), (128u8, true)]
    } else if mode == V_PRED {
        seq![(156u8, false), (163u8, true)]
    } else {
        seq![(156u8, false), (163u8, false)]
    }
}

/// Write a 16x16 luma mode.
pub fn put_ymode16(enc: &mut BoolEncoder, mode: u8)
    requires
        old(enc).wf(),
    ensures
        final(enc).wf(),
        final(enc)@ == old(enc)@ + ymode16_syms(mode),
{
    let ghost start = enc@;
    if mode == H_PRED {
        enc.put_bool(156, true);
        enc.put_bool(128, false);
    } else if mode == TM_PRED {
        enc.put_bool(156, true);
        enc.put_bool(128, true);
    } else if mode == V_PRED {
        enc.put_bool(156, false);
        enc.put_bool(163, true);
    } else {
        enc.put_bool(156, false);
        enc.put_bool(163, false);
    }
    assert(enc@ =~= start + ymode16_syms(mode));
}

/// The symbols of a chroma mode; an unknown mode is coded as DC.
pub open spec fn uvmode_syms(mode: u8) -> Seq<Sym> {
    if mode == V_PRED {
        seq![(142u8, true), (114u8, false)]
    } else if mode == TM_PRED {
        seq![(142u8, true), (114u8, true), (183u8, true)]
    } else if mode == H_PRED {
        seq![(142u8, true), (114u8, true), (183u8, false)]
    } else {
        seq![(142u8, false)]
    }
}

/// Write a chroma mode.
pub fn put_uvmode(enc: &mut BoolEncoder, mode: u8)
    requires
        old(enc).wf(),
    ensures
        final(enc).wf(),
        final(enc)@ == old(enc)@ + uvmode_syms(mode),
{
    let ghost start = enc@;
    if mode == V_PRED {
        enc.put_bool(142, true);
        enc.put_bool(114, false);
    } else if mode == TM_PRED {
        enc.put_bool(142, true);
        enc.put_bool(114, true);
        enc.put_bool(183, true);
    } else if mode == H_PRED {
        enc.put_bool(142, true);
        enc.put_bool(114, true);
        enc.put_bool(183, false);
    } else {
        enc.put_bool(142, false);
    }
    assert(enc@ =~= start + uvmode_syms(mode));
}

/// The symbols of a 4x4 luma mode; an unknown mode is coded as horizontal-up.
pub open spec fn bmode_syms(prob: [Prob; 9], mode: u8) -> Seq<Sym> {
    if mode == B_DC_PRED {
        seq![(prob[0], false)]
    } else if mode == B_TM_PRED {
        seq![(prob[0], true), (prob[1], false)]
    } else if mode == B_VE_PRED {
        seq![(prob[0], true), (prob[1], true), (prob[2], false)]
    } else {
        seq![(prob[0], true), (prob[1], true), (prob[2], true)] + (if mode == B_HE_PRED {
            seq![(prob[3], false), (prob[4], false)]
        } else if mode == B_RD_PRED {
            seq![(prob[3], false), (prob[4], true), (prob[5], false)]
        } else if mode == B_VR_PRED {
            seq![(prob[3], false), (prob[4], true), (prob[5], true)]
        } else if mode == B_LD_PRED {
            seq![(prob[3], true), (prob[6], false)]
        } else if mode == B_VL_PRED {
            seq![(prob[3], true), (prob[6], true), (prob[7], false)]
        } else if mode == B_HD_PRED {
            seq![(prob[3], true), (prob[6], true), (prob[7], true), (prob[8], false)]
        } else {
            seq![(prob[3], true), (prob[6], true), (prob[7], true), (prob[8], true)]
        })
    }
}

/// Write a 4x4 luma mode with the node probabilities of its context.
pub fn put_bmode(enc: &mut BoolEncoder, prob: [Prob; 9], mode: u8)
    requires
        old(enc).wf(),
    ensures
        final(enc).wf(),
        final(enc)@ == old(enc)@ + bmode_syms(prob, mode),
{
    let ghost start = enc@;
    if mode == B_DC_PRED {
        enc.put_bool(prob[0], false);
        assert(enc@ =~= start + bmode_syms(prob, mode));
        return ;
    }
    enc.put_bool(prob[0], true);
    if mode == B_TM_PRED {
        enc.put_bool(prob[1], false);
        assert(enc@ =~= start + bmode_syms(prob, mode));
        return ;
    }
    enc.put_bool(prob[1], true);
    if mode == B_VE_PRED {
        enc.put_bool(prob[2], false);
        assert(enc@ =~= start + bmode_syms(prob, mode));
        return ;
    }
    enc.put_bool(prob[2], true);
    if mode == B_HE_PRED {
        enc.put_bool(prob[3], false);
        enc.put_bool(prob[4], false);
    } else if mode == B_RD_PRED {
        enc.put_bool(prob[3], false);
        enc.put_bool(prob[4], true);
        enc.put_bool(prob[5], false);
    } else if mode == B_VR_PRED {
        enc.put_bool(prob[3], false);
        enc.put_bool(prob[4], true);
        enc.put_bool(prob[5], true);
    } else if mode == B_LD_PRED {
        enc.put_bool(prob[3], true);
        enc.put_bool(prob[6], false);
    } else if mode == B_VL_PRED {
        enc.put_bool(prob[3], true);
        enc.put_bool(prob[6], true);
        enc.put_bool(prob[7], false);
    } else if mode == B_HD_PRED {
        enc.put_bool(prob[3], true);
        enc.put_bool(prob[6], true);
        enc.put_bool(prob[7], true);
        enc.put_bool(prob[8], false);
    } else {
        enc.put_bool(prob[3], true);
        enc.put_bool(prob[6], true);
        enc.put_bool(prob[7], true);
        enc.put_bool(prob[8], true);
    }
    assert(enc@ =~= start + bmode_syms(prob, mode));
}

/// A main-tree decision: plane type, band, context, node and the coded bit.
pub type NodeEvent = (int, int, int, int, int);

/// How often `key` occurs in `events`.
pub open spec fn occurrences(events: Seq<NodeEvent>, key: NodeEvent) -> int
    decreases events.len(),
{
    if events.len() == 0 {
        0
    } else {
        occurrences(events.drop_last(), key) + (if events.last() == key {
            1int
        } else {
            0int
        })
    }
}

/// The decisions at nodes 0 (more), 1 (non-zero) and 2 (above one) that the tokens
/// of a block make, in order.
pub open spec fn coeff_events(
    plane: int,
    levels: Seq<i16>,
    last: int,
    n: int,
    ctx: int,
    zero_run: bool,
) -> Seq<NodeEvent>
    decreases 16 - n,
{
    if n >= 16 {
        Seq::empty()
    } else {
        let band = BANDS[n] as int;
        if !zero_run && n > last {
            seq![(plane, band, ctx, 0int, 0int)]
        } else {
            (if zero_run {
                Seq::<NodeEvent>::empty()
            } else {
                seq![(plane, band, ctx, 0int, 1int)]
            }) + (if levels[n] == 0 {
                seq![(plane, band, ctx, 1int, 0int)] + coeff_events(plane, levels, last, n + 1, 0, true)
            } else {
                seq![
                    (plane, band, ctx, 1int, 1int),
                    (
                        plane,
                        band,
                        ctx,
                        2int,
                        if abs_int(levels[n] as int) == 1 {
                            0int
                        } else {
                            1int
                        },
                    ),
                ] + coeff_events(
                    plane,
                    levels,
                    last,
                    n + 1,
                    next_ctx(levels[n] as int),
                    false,
                )
            })
        }
    }
}

/// The decisions of the first `k` luma blocks.
pub open spec fn luma_events(
    plane: int,
    blocks: Seq<Block>,
    first: int,
    top: Seq<bool>,
    left: Seq<bool>,
    k: int,
) -> Seq<NodeEvent>
    decreases k,
{
    if k <= 0 {
        Seq::empty()
    } else {
        luma_events(plane, blocks, first, top, left, k - 1) + coeff_events(
            plane,
            blocks[k - 1].levels@,
            blocks[k - 1].last as int,
            first,
            luma_ctx(block_flags(blocks, first), top, left, k - 1),
            false,
        )
    }
}

/// The decisions of the first `k` chroma blocks.
pub open spec fn chroma_events(blocks: Seq<Block>, top: Seq<bool>, left: Seq<bool>, k: int) -> Seq<
    NodeEvent,
>
    decreases k,
{
    if k <= 0 {
        Seq::empty()
    } else {
        chroma_events(blocks, top, left, k - 1) + coeff_events(
            2,
            blocks[k - 1].levels@,
            blocks[k - 1].last as int,
            0,
            chroma_ctx(block_flags(blocks, 0), top, left, k - 1),
            false,
        )
    }
}

/// The decisions of a whole macroblock.
pub open spec fn mb_events(mb: MbTokens, top: Seq<bool>, left: Seq<bool>, dc_ctx: int) -> Seq<NodeEvent> {
    (if mb.is_i4x4 {
        Seq::<NodeEvent>::empty()
    } else {
        coeff_events(1, mb.y2.levels@, mb.y2.last as int, 0, dc_ctx, false)
    }) + luma_events(
        luma_type(mb.is_i4x4),
        mb.luma@,
        luma_first(mb.is_i4x4),
        top,
        left,
        16,
    ) + chroma_events(mb.chroma@, top, left, 8)
}

/// Whether every counter of `s` is at most `bound`.
pub open spec fn stats_bounded(s: CoeffStats, bound: int) -> bool {
    forall|t: int, b: int, c: int, p: int, k: int|
        0 <= t < 4 && 0 <= b < 8 && 0 <= c < 3 && 0 <= p < 11 && 0 <= k < 2
            ==> #[trigger] s[t][b][c][p][k] <= bound
}

/// Whether `s2` is `s1` with every event counted.
pub open spec fn stats_counted(s1: CoeffStats, s2: CoeffStats, events: Seq<NodeEvent>) -> bool {
    forall|t: int, b: int, c: int, p: int, k: int|
        0 <= t < 4 && 0 <= b < 8 && 0 <= c < 3 && 0 <= p < 11 && 0 <= k < 2
            ==> #[trigger] s2[t][b][c][p][k] == s1[t][b][c][p][k] + occurrences(
            events,
            (t, b, c, p, k),
        )
}

/// Counting a concatenation is counting its parts.
pub proof fn lemma_occurrences_concat(a: Seq<NodeEvent>, b: Seq<NodeEvent>, key: NodeEvent)
    ensures
        occurrences(a + b, key) == occurrences(a, key) + occurrences(b, key),
    decreases b.len(),
{
    if b.len() == 0 {
        assert(a + b =~= a);
    } else {
        assert((a + b).drop_last() =~= a + b.drop_last());
        assert((a + b).last() == b.last());
        lemma_occurrences_concat(a, b.drop_last(), key);
    }
}

/// Nothing occurs more often than the sequence is long.
pub proof fn lemma_occurrences_bound(a: Seq<NodeEvent>, key: NodeEvent)
    ensures
        0 <= occurrences(a, key) <= a.len(),
    decreases a.len(),
{
    if a.len() > 0 {
        lemma_occurrences_bound(a.drop_last(), key);
    }
}

proof fn lemma_stats_concat(
    s1: CoeffStats,
    s2: CoeffStats,
    s3: CoeffStats,
    a: Seq<NodeEvent>,
    b: Seq<NodeEvent>,
)
    requires
        stats_counted(s1, s2, a),
        stats_counted(s2, s3, b),
    ensures
        stats_counted(s1, s3, a + b),
{
    assert forall|t: int, b0: int, c: int, p: int, k: int|
        0 <= t < 4 && 0 <= b0 < 8 && 0 <= c < 3 && 0 <= p < 11 && 0 <= k
            < 2 implies #[trigger] s3[t][b0][c][p][k] == s1[t][b0][c][p][k] + occurrences(
        a + b,
        (t, b0, c, p, k),
    ) by {
        lemma_occurrences_concat(a, b, (t, b0, c, p, k));
        assert(s2[t][b0][c][p][k] == s1[t][b0][c][p][k] + occurrences(a, (t, b0, c, p, k)));
    }
}

proof fn lemma_stats_bounded(s1: CoeffStats, s2: CoeffStats, events: Seq<NodeEvent>, bound: int)
    requires
        stats_counted(s1, s2, events),
        stats_bounded(s1, bound),
    ensures
        stats_bounded(s2, bound + events.len()),
{
    assert forall|t: int, b: int, c: int, p: int, k: int|
        0 <= t < 4 && 0 <= b < 8 && 0 <= c < 3 && 0 <= p < 11 && 0 <= k
            < 2 implies #[trigger] s2[t][b][c][p][k] <= bound + events.len() by {
        lemma_occurrences_bound(events, (t, b, c, p, k));
        assert(s1[t][b][c][p][k] <= bound);
    }
}

proof fn lemma_stats_empty(s: CoeffStats)
    ensures
        stats_counted(s, s, Seq::empty()),
{
}

fn bump(stats: &mut CoeffStats, plane: usize, band: usize, ctx: usize, node: usize, bit: usize)
    requires
        plane < 4,
        band < 8,
        ctx < 3,
        node < 11,
        bit < 2,
        old(stats)[plane as int][band as int][ctx as int][node as int][bit as int] < u64::MAX,
    ensures
        stats_counted(
            *old(stats),
            *final(stats),
            seq![(plane as int, band as int, ctx as int, node as int, bit as int)],
        ),
{
    let v: u64 = stats[plane][band][ctx][node][bit];
    stats[plane][band][ctx][node][bit] = v + 1;
    proof {
        let key = (plane as int, band as int, ctx as int, node as int, bit as int);
        let one: Seq<NodeEvent> = seq![key];
        assert(one.drop_last() =~= Seq::<NodeEvent>::empty());
        reveal_with_fuel(occurrences, 2);
    }
}

/// The number of events of a block.
proof fn lemma_coeff_events_len(plane: int, levels: Seq<i16>, last: int, n: int, ctx: int, zero_run: bool)
    requires
        0 <= n <= 16,
    ensures
        coeff_events(plane, levels, last, n, ctx, zero_run).len() <= 3 * (16 - n),
    decreases 16 - n,
{
    if n < 16 {
        lemma_coeff_events_len(plane, levels, last, n + 1, 0, true);
        lemma_coeff_events_len(plane, levels, last, n + 1, next_ctx(levels[n] as int), false);
    }
}

fn count_coeffs_from(
    stats: &mut CoeffStats,
    plane: usize,
    levels: &[i16; 16],
    last: i32,
    n: usize,
    ctx: usize,
    zero_run: bool,
)
    requires
        plane < 4,
        ctx < 3,
        n <= 16,
        -1 <= last < 16,
        last >= n ==> levels@[last as int] != 0,
        zero_run ==> n <= last,
        stats_bounded(*old(stats), u64::MAX - 3 * (16 - n)),
    ensures
        stats_counted(
            *old(stats),
            *final(stats),
            coeff_events(plane as int, levels@, last as int, n as int, ctx as int, zero_run),
        ),
    decreases 16 - n,
{
    let ghost s0 = *stats;
    let ghost mut done: Seq<NodeEvent> = Seq::empty();
    proof {
        lemma_stats_empty(s0);
    }
    if n == 16 {
        return ;
    }
    let band: usize = BANDS[n];
    assert(stats[plane as int][band as int][ctx as int][0][0] < u64::MAX);
    if !zero_run {
        if n as i32 > last {
            bump(stats, plane, band, ctx, 0, 0);
            return ;
        }
        assert(stats[plane as int][band as int][ctx as int][0][1] < u64::MAX);
        bump(stats, plane, band, ctx, 0, 1);
        proof {
            done = seq![(plane as int, band as int, ctx as int, 0int, 1int)];
        }
    }
    let ghost s1 = *stats;
    proof {
        lemma_stats_bounded(s0, s1, done, u64::MAX - 3 * (16 - n));
    }
    if levels[n] == 0 {
        assert(stats[plane as int][band as int][ctx as int][1][0] < u64::MAX);
        bump(stats, plane, band, ctx, 1, 0);
        let ghost s2 = *stats;
        let ghost e2: Seq<NodeEvent> = seq![(plane as int, band as int, ctx as int, 1int, 0int)];
        proof {
            lemma_stats_concat(s0, s1, s2, done, e2);
            lemma_stats_bounded(s0, s2, done + e2, u64::MAX - 3 * (16 - n));
        }
        count_coeffs_from(stats, plane, levels, last, n + 1, 0, true);
        proof {
            let rest = coeff_events(plane as int, levels@, last as int, n + 1, 0, true);
            lemma_stats_concat(s0, s2, *stats, done + e2, rest);
            assert((done + e2) + rest =~= done + (e2 + rest));
        }
    } else {
        assert(stats[plane as int][band as int][ctx as int][1][1] < u64::MAX);
        bump(stats, plane, band, ctx, 1, 1);
        let ghost s2 = *stats;
        let ghost e2: Seq<NodeEvent> = seq![(plane as int, band as int, ctx as int, 1int, 1int)];
        proof {
            lemma_stats_concat(s0, s1, s2, done, e2);
            lemma_stats_bounded(s0, s2, done + e2, u64::MAX - 3 * (16 - n));
        }
        let one: bool = abs_i32(levels[n] as i32) == 1;
        let bit: usize = if one {
            0
        } else {
            1
        };
        assert(stats[plane as int][band as int][ctx as int][2][bit as int] < u64::MAX);
        bump(stats, plane, band, ctx, 2, bit);
        let ghost s3 = *stats;
        let ghost e3: Seq<NodeEvent> = seq![
            (plane as int, band as int, ctx as int, 2int, bit as int),
        ];
        proof {
            lemma_stats_concat(s0, s2, s3, done + e2, e3);
            lemma_stats_bounded(s0, s3, done + e2 + e3, u64::MAX - 3 * (16 - n));
        }
        let next: usize = if one {
            1
        } else {
            2
        };
        count_coeffs_from(stats, plane, levels, last, n + 1, next, false);
        proof {
            let rest = coeff_events(plane as int, levels@, last as int, n + 1, next as int, false);
            lemma_stats_concat(s0, s3, *stats, done + e2 + e3, rest);
            let pair: Seq<NodeEvent> = seq![
                (plane as int, band as int, ctx as int, 1int, 1int),
                (plane as int, band as int, ctx as int, 2int, bit as int),
            ];
            assert((done + e2 + e3) + rest =~= done + (pair + rest));
        }
    }
}

/// Count the main-tree decisions of one block, returning one more than the index of
/// its last non-zero level.
pub fn count_coeffs(
    stats: &mut CoeffStats,
    plane: usize,
    ctx0: usize,
    levels: [i16; 16],
    first: usize,
    last: i32,
) -> (nz: i32)
    requires
        plane < 4,
        ctx0 < 3,
        first < 16,
        -1 <= last < 16,
        last >= first ==> levels@[last as int] != 0,
        stats_bounded(*old(stats), u64::MAX - 48),
    ensures
        stats_counted(
            *old(stats),
            *final(stats),
            coeff_events(plane as int, levels@, last as int, first as int, ctx0 as int, false),
        ),
        coeff_events(plane as int, levels@, last as int, first as int, ctx0 as int, false).len() <= 48,
        nz == last + 1,
{
    proof {
        lemma_coeff_events_len(plane as int, levels@, last as int, first as int, ctx0 as int, false);
        assert(stats_bounded(*stats, u64::MAX - 3 * (16 - first)));
    }
    count_coeffs_from(stats, plane, &levels, last, first, ctx0, false);
    last + 1
}

/// Count the main-tree decisions of one macroblock and roll the context exactly as
/// [`emit_mb_residuals`] does.
#[verifier::rlimit(60)]
pub fn count_mb_residuals(stats: &mut CoeffStats, mb: &MbTokens, ctx: &mut NzContext, mb_x: usize)
    requires
        old(ctx).wf(),
        mb_x < old(ctx).top@.len(),
        mb_wf(*mb),
        stats_bounded(*old(stats), u64::MAX - 1200),
    ensures
        stats_counted(
            *old(stats),
            *final(stats),
            mb_events(
                *mb,
                word_flags(old(ctx).top@[mb_x as int]),
                word_flags(old(ctx).left),
                old(ctx).dc_ctx(mb_x as int),
            ),
        ),
        forall|bound: int|
            #[trigger] stats_bounded(*old(stats), bound) ==> stats_bounded(*final(stats), bound + 1200),
        old(ctx).after_mb(final(ctx), *mb, mb_x as int),
        final(ctx).wf(),
{
    let top: [bool; 8] = unpack_flags(ctx.top[mb_x]);
    let left: [bool; 8] = unpack_flags(ctx.left);
    let first: usize = if mb.is_i4x4 {
        0
    } else {
        1
    };
    let plane: usize = if mb.is_i4x4 {
        3
    } else {
        0
    };
    let ghost s0 = *stats;
    let ghost dc = ctx.dc_ctx(mb_x as int);
    let ghost mut done: Seq<NodeEvent> = Seq::empty();
    proof {
        lemma_stats_empty(s0);
    }
    if !mb.is_i4x4 {
        let c: usize = (ctx.top_dc[mb_x] + ctx.left_dc) as usize;
        let nz: i32 = count_coeffs(stats, 1, c, mb.y2.levels, 0, mb.y2.last);
        let dc_nz: u32 = bit_u32(nz > 0);
        ctx.top_dc[mb_x] = dc_nz;
        ctx.left_dc = dc_nz;
        proof {
            done = coeff_events(1, mb.y2.levels@, mb.y2.last as int, 0, dc, false);
        }
    }
    let ghost y2_events = done;
    let mut luma: [bool; 16] = [false; 16];
    let mut i: usize = 0;
    assert(done =~= y2_events + luma_events(plane as int, mb.luma@, first as int, top@, left@, 0));
    while i < 16
        invariant
            i <= 16,
            plane == luma_type(mb.is_i4x4),
            first == luma_first(mb.is_i4x4),
            mb_wf(*mb),
            done == y2_events + luma_events(
                plane as int,
                mb.luma@,
                first as int,
                top@,
                left@,
                i as int,
            ),
            done.len() <= 48 * (1 + i),
            stats_counted(s0, *stats, done),
            stats_bounded(s0, u64::MAX - 1200),
            forall|j: int|
                0 <= j < i ==> #[trigger] luma@[j] == block_flags(mb.luma@, first as int)[j],
        decreases 16 - i,
    {
        let c: usize = luma_ctx_exec(&luma, &top, &left, i);
        proof {
            lemma_luma_ctx_prefix(
                luma@,
                block_flags(mb.luma@, first as int),
                top@,
                left@,
                i as int,
            );
            assert(block_wf(mb.luma@[i as int], first as int));
            lemma_stats_bounded(s0, *stats, done, u64::MAX - 1200);
        }
        let ghost s1 = *stats;
        let b: Block = mb.luma[i];
        let nz: i32 = count_coeffs(stats, plane, c, b.levels, first, b.last);
        luma[i] = nz > first as i32;
        proof {
            let e = coeff_events(plane as int, b.levels@, b.last as int, first as int, c as int, false);
            lemma_stats_concat(s0, s1, *stats, done, e);
            done = done + e;
            assert(done =~= y2_events + luma_events(
                plane as int,
                mb.luma@,
                first as int,
                top@,
                left@,
                i + 1,
            ));
        }
        i = i + 1;
    }
    let ghost luma_done = done;
    let mut chroma: [bool; 8] = [false; 8];
    let mut k: usize = 0;
    assert(done =~= luma_done + chroma_events(mb.chroma@, top@, left@, 0));
    while k < 8
        invariant
            k <= 8,
            mb_wf(*mb),
            done == luma_done + chroma_events(mb.chroma@, top@, left@, k as int),
            done.len() <= 48 * (17 + k),
            stats_counted(s0, *stats, done),
            stats_bounded(s0, u64::MAX - 1200),
            forall|j: int| 0 <= j < k ==> #[trigger] chroma@[j] == block_flags(mb.chroma@, 0)[j],
        decreases 8 - k,
    {
        let c: usize = chroma_ctx_exec(&chroma, &top, &left, k);
        proof {
            lemma_chroma_ctx_prefix(chroma@, block_flags(mb.chroma@, 0), top@, left@, k as int);
            assert(block_wf(mb.chroma@[k as int], 0));
            lemma_stats_bounded(s0, *stats, done, u64::MAX - 1200);
        }
        let ghost s1 = *stats;
        let b: Block = mb.chroma[k];
        let nz: i32 = count_coeffs(stats, 2, c, b.levels, 0, b.last);
        chroma[k] = nz > 0;
        proof {
            let e = coeff_events(2, b.levels@, b.last as int, 0, c as int, false);
            lemma_stats_concat(s0, s1, *stats, done, e);
            done = done + e;
            assert(done =~= luma_done + chroma_events(mb.chroma@, top@, left@, k + 1));
        }
        k = k + 1;
    }
    proof {
        assert(luma@ =~= mb_luma_flags(*mb));
        assert(chroma@ =~= mb_chroma_flags(*mb));
        lemma_flags_word(bottom_flags(luma@, chroma@));
        lemma_flags_word(right_flags(luma@, chroma@));
        assert(done =~= mb_events(*mb, top@, left@, dc));
        assert forall|bound: int| #[trigger] stats_bounded(s0, bound) implies stats_bounded(
            *stats,
            bound + 1200,
        ) by {
            lemma_stats_bounded(s0, *stats, done, bound);
        }
    }
    let bottom: [bool; 8] = [
        luma[12],
        luma[13],
        luma[14],
        luma[15],
        chroma[2],
        chroma[3],
        chroma[6],
        chroma[7],
    ];
    let right: [bool; 8] = [
        luma[3],
        luma[7],
        luma[11],
        luma[15],
        chroma[1],
        chroma[3],
        chroma[5],
        chroma[7],
    ];
    assert(bottom@ =~= bottom_flags(luma@, chroma@));
    assert(right@ =~= right_flags(luma@, chroma@));
    ctx.top[mb_x] = pack_flags(bottom);
    ctx.left = pack_flags(right);
}

} // verus!
