//! Planning one macroblock: its modes, its levels and its reconstruction.
//!
//! A macroblock's plan is a function of its source samples, its quantizer and the
//! reconstructed samples around it. No entropy-coder state goes into it, so macroblocks
//! can be planned in any order in which their neighbours come first.

use vstd::prelude::*;

use crate::block::{blit, lemma_blit_blit, lemma_square_blit, square};
use crate::constants::{B_HU_PRED, DC_PRED, H_PRED};
use crate::decode::MbData;
use crate::i4_search::{
    i4_coeffs, i4_cost, i4_mode_at, i4_quant_at, i4_upto, i16_cost, try_i4x4_luma, I4x4Luma,
};
use crate::mode_search::{
    best_luma_mode, chroma8_blocks, chroma_mode, chroma_src_at, lemma_chroma_edge_blit,
    lemma_lane_blit, lemma_luma_edge_blit, luma16_blocks, luma16_coded, luma_mode, luma_src_at,
    predict_chroma_at, predict_luma_at, select_chroma8_mode_rd, select_luma16_mode_rd, src_mb,
    SrcMb, WHOLE_BLOCK_MODES,
};
use crate::recon_block::{
    add_residuals, chroma_edge, chroma_recon, coeff_block, lemma_add_residuals_ext, luma16_recon,
    luma4_recon, luma_edge, luma_fits, predicted, Edge,
};
use crate::reconstruct::{
    chroma_done, chroma_fits, chroma_offset, chroma_stride, in_lane, lane_filled, lemma_lane,
    lemma_mb_fits, luma_done, luma_offset, luma_recon, luma_stride, mb_off, reconstruct_mb_at,
    Planes, Samples,
};
use crate::residual::{
    block_of, chroma8_coeffs, codes_chroma8, codes_luma16, encode_chroma8_residual,
    encode_luma16_residual, luma16_coeffs, luma16_sound, sound_block, y2_quantized, Chroma8Encode,
    Luma16Encode, QuantPlan,
};
use crate::rgb_to_yuv::SourceYuv;
use crate::tokens::{Block, MbTokens};

verus! {

/// How deep the mode search goes.
#[derive(Clone, Copy)]
pub struct SearchGates {
    /// Whether whole-block modes are searched; DC prediction otherwise.
    pub search_modes: bool,
    /// Whether luma may also be coded as sixteen 4x4 sub-blocks.
    pub uses_i4x4: bool,
    /// Whether levels are chosen by rate and distortion.
    pub uses_trellis: bool,
    /// The shaping strength of the luma mode decision.
    pub sns_strength: u8,
}

/// The plan of one macroblock.
#[derive(Clone, Copy, PartialEq, Eq, Debug)]
pub struct MbPlan {
    /// The 16x16 luma mode.
    pub ymode: u8,
    /// The sixteen 4x4 modes; the 16x16 mode in entry zero otherwise.
    pub imodes: [u8; 16],
    /// The chroma mode.
    pub uvmode: u8,
    /// Whether luma is coded as sixteen 4x4 sub-blocks.
    pub is_i4x4: bool,
    /// Whether no block codes a coefficient, so that a skip flag can stand for all.
    pub skippable: bool,
    /// Whether any coefficient is not zero.
    pub has_residual: bool,
    /// The token blocks.
    pub tokens: MbTokens,
    /// The segment.
    pub segment: u8,
}

/// The edges of a macroblock's three blocks.
pub struct MbEdges {
    /// Luma.
    pub y: Edge,
    /// U chroma.
    pub u: Edge,
    /// V chroma.
    pub v: Edge,
}

/// The edges of the macroblock at the given offsets.
pub open spec fn edges_at(
    s: Samples,
    y_off: int,
    ys: int,
    uv_off: int,
    us: int,
    has_top: bool,
    is_rightmost: bool,
) -> MbEdges {
    MbEdges {
        y: luma_edge(s.y, y_off, ys, has_top, is_rightmost),
        u: chroma_edge(s.u, uv_off, us),
        v: chroma_edge(s.v, uv_off, us),
    }
}

/// Everything that a macroblock's plan depends on.
pub struct PlanInput<'a> {
    /// The reconstructed samples around it.
    pub edges: MbEdges,
    /// Its source samples.
    pub src: SrcMb,
    /// Whether there is a macroblock above.
    pub has_top: bool,
    /// Whether there is a macroblock to the left.
    pub has_left: bool,
    /// Its segment.
    pub segment: u8,
    /// How its coefficients are quantized.
    pub plan: QuantPlan<'a>,
    /// How deep the mode search goes.
    pub gates: SearchGates,
}

impl PlanInput<'_> {
    /// The 16x16 luma mode.
    pub open spec fn ymode(&self) -> u8 {
        if self.gates.search_modes {
            luma_mode(self.edges.y, self.src.y, self.has_top, self.has_left, self.plan)
        } else {
            DC_PRED
        }
    }

    /// The chroma mode.
    pub open spec fn uvmode(&self) -> u8 {
        if self.gates.search_modes {
            chroma_mode(
                self.edges.u,
                self.edges.v,
                self.src.u,
                self.src.v,
                self.has_top,
                self.has_left,
                self.plan,
            )
        } else {
            DC_PRED
        }
    }

    /// The 16x16 luma prediction.
    pub open spec fn luma_pred(&self) -> Seq<u8> {
        predicted(16, self.edges.y, self.ymode(), self.has_top, self.has_left)
    }

    /// The U prediction.
    pub open spec fn u_pred(&self) -> Seq<u8> {
        predicted(8, self.edges.u, self.uvmode(), self.has_top, self.has_left)
    }

    /// The V prediction.
    pub open spec fn v_pred(&self) -> Seq<u8> {
        predicted(8, self.edges.v, self.uvmode(), self.has_top, self.has_left)
    }

    /// Whether luma is coded as sixteen 4x4 sub-blocks.
    pub open spec fn is_i4x4(&self) -> bool {
        self.gates.uses_i4x4 && i4_cost(self.edges.y, self.src.y, self.plan) < i16_cost(
            self.src.y,
            luma16_coded(self.src.y, self.luma_pred(), self.plan),
            block_of(y2_quantized(self.src.y, self.luma_pred(), self.plan)),
            luma16_blocks(self.src.y, self.luma_pred(), self.plan),
            self.plan,
        )
    }

    /// The luma modes.
    pub open spec fn imodes(&self) -> Seq<u8> {
        if self.is_i4x4() {
            Seq::new(16, |k: int| i4_mode_at(self.edges.y, self.src.y, self.plan, k))
        } else {
            Seq::new(
                16,
                |k: int|
                    if k == 0 {
                        self.ymode()
                    } else {
                        0
                    },
            )
        }
    }

    /// The luma coefficients.
    pub open spec fn luma_coeffs(&self) -> Seq<i16> {
        if self.is_i4x4() {
            i4_coeffs(self.edges.y, self.src.y, self.plan)
        } else {
            luma16_coeffs(self.src.y, self.luma_pred(), self.plan)
        }
    }

    /// The macroblock's coefficients.
    pub open spec fn coeffs(&self) -> Seq<i16> {
        self.luma_coeffs() + (chroma8_coeffs(self.src.u, self.u_pred(), self.plan) + chroma8_coeffs(
            self.src.v,
            self.v_pred(),
            self.plan,
        ))
    }

    /// The luma token blocks.
    pub open spec fn luma_blocks(&self) -> Seq<Block> {
        if self.is_i4x4() {
            Seq::new(16, |k: int| block_of(i4_quant_at(self.edges.y, self.src.y, self.plan, k)))
        } else {
            luma16_blocks(self.src.y, self.luma_pred(), self.plan)
        }
    }

    /// The chroma token blocks.
    pub open spec fn chroma_blocks(&self) -> Seq<Block> {
        chroma8_blocks(self.src.u, self.u_pred(), self.src.v, self.v_pred(), self.plan)
    }

    /// What luma reconstructs to.
    pub open spec fn luma_rec(&self) -> Seq<u8> {
        if self.is_i4x4() {
            luma4_recon(self.edges.y, self.imodes(), self.coeffs())
        } else {
            luma16_recon(self.edges.y, self.ymode(), self.coeffs(), self.has_top, self.has_left)
        }
    }

    /// What U reconstructs to.
    pub open spec fn u_rec(&self) -> Seq<u8> {
        chroma_recon(
            self.edges.u,
            self.uvmode(),
            self.coeffs(),
            16,
            self.has_top,
            self.has_left,
        )
    }

    /// What V reconstructs to.
    pub open spec fn v_rec(&self) -> Seq<u8> {
        chroma_recon(
            self.edges.v,
            self.uvmode(),
            self.coeffs(),
            20,
            self.has_top,
            self.has_left,
        )
    }

    /// Whether `p` is the macroblock's plan.
    pub open spec fn is_plan(&self, p: MbPlan) -> bool {
        &&& p.ymode == self.ymode()
        &&& p.uvmode == self.uvmode()
        &&& p.is_i4x4 == self.is_i4x4()
        &&& p.imodes@ == self.imodes()
        &&& p.segment == self.segment
        &&& p.tokens.is_i4x4 == self.is_i4x4()
        &&& (if self.is_i4x4() {
            empty_block(p.tokens.y2)
        } else {
            p.tokens.y2 == block_of(y2_quantized(self.src.y, self.luma_pred(), self.plan))
        })
        &&& p.tokens.luma@ == self.luma_blocks()
        &&& p.tokens.chroma@ == self.chroma_blocks()
        &&& p.skippable == tokens_empty(p.tokens)
        &&& p.has_residual == has_nonzero(self.coeffs())
    }
}

/// A block without levels.
pub open spec fn empty_block(b: Block) -> bool {
    b.last == -1 && forall|i: int| 0 <= i < 16 ==> #[trigger] b.levels@[i] == 0
}

/// Whether any coefficient is not zero.
pub open spec fn has_nonzero(c: Seq<i16>) -> bool {
    exists|i: int| 0 <= i < c.len() && #[trigger] c[i] != 0
}

/// Whether a 16x16-predicted macroblock codes no coefficient.
pub open spec fn tokens_empty(t: MbTokens) -> bool {
    &&& !t.is_i4x4
    &&& t.y2.last < 0
    &&& forall|k: int| 0 <= k < 16 ==> (#[trigger] t.luma@[k]).last < 1
    &&& forall|k: int| 0 <= k < 8 ==> (#[trigger] t.chroma@[k]).last < 0
}

/// Whether a plan's modes and blocks can be emitted.
pub open spec fn plan_sound(p: MbPlan) -> bool {
    &&& p.ymode <= H_PRED
    &&& p.uvmode <= H_PRED
    &&& forall|k: int| 0 <= k < 16 ==> #[trigger] p.imodes@[k] <= B_HU_PRED
    &&& p.tokens.is_i4x4 == p.is_i4x4
    &&& sound_block(p.tokens.y2, 0)
    &&& forall|k: int|
        0 <= k < 16 ==> sound_block(
            #[trigger] p.tokens.luma@[k],
            if p.is_i4x4 {
                0
            } else {
                1
            },
        )
    &&& forall|k: int| 0 <= k < 8 ==> sound_block(#[trigger] p.tokens.chroma@[k], 0)
}

/// The plan of a macroblock is unique.
pub proof fn plan_is_unique(i: PlanInput<'_>, a: MbPlan, b: MbPlan)
    requires
        i.is_plan(a),
        i.is_plan(b),
    ensures
        a == b,
{
    assert(a.imodes =~= b.imodes);
    assert(a.tokens.luma =~= b.tokens.luma);
    assert(a.tokens.chroma =~= b.tokens.chroma);
    if i.is_i4x4() {
        assert(a.tokens.y2.levels@ =~= b.tokens.y2.levels@);
        assert(a.tokens.y2.levels =~= b.tokens.y2.levels);
    }
}

/// Whole-block luma modes do not depend on the samples above to the right.
pub proof fn lemma_luma_mode_edge(
    a: Edge,
    b: Edge,
    s: Seq<u8>,
    has_top: bool,
    has_left: bool,
    plan: QuantPlan<'_>,
    k: int,
)
    requires
        a.corner == b.corner,
        a.left == b.left,
        a.top.take(16) == b.top.take(16),
    ensures
        best_luma_mode(a, s, has_top, has_left, plan, k) == best_luma_mode(
            b,
            s,
            has_top,
            has_left,
            plan,
            k,
        ),
        forall|mode: u8| #[trigger]
            predicted(16, a, mode, has_top, has_left) == predicted(16, b, mode, has_top, has_left),
    decreases k,
{
    assert forall|mode: u8| #[trigger]
        predicted(16, a, mode, has_top, has_left) == predicted(16, b, mode, has_top, has_left) by {}
    if k > 0 {
        lemma_luma_mode_edge(a, b, s, has_top, has_left, plan, k - 1);
        let mode = WHOLE_BLOCK_MODES[k - 1];
        assert(predicted(16, a, mode, has_top, has_left) == predicted(
            16,
            b,
            mode,
            has_top,
            has_left,
        ));
        let best = best_luma_mode(a, s, has_top, has_left, plan, k - 1);
        if best is Some {
            assert(predicted(16, a, best->0, has_top, has_left) == predicted(
                16,
                b,
                best->0,
                has_top,
                has_left,
            ));
        }
    }
}

/// Setting up the samples above to the right does not change a macroblock's edge.
pub proof fn lemma_luma_edge_lane(
    p: Seq<u8>,
    off: int,
    stride: int,
    has_top: bool,
    is_rightmost: bool,
)
    requires
        luma_fits(p.len() as int, off, stride),
    ensures
        luma_edge(
            lane_filled(p, off, stride, has_top, is_rightmost),
            off,
            stride,
            has_top,
            is_rightmost,
        ) == luma_edge(p, off, stride, has_top, is_rightmost),
{
    lemma_lane(p, off, stride, has_top, is_rightmost);
    let q = lane_filled(p, off, stride, has_top, is_rightmost);
    let e = luma_edge(p, off, stride, has_top, is_rightmost);
    let f = luma_edge(q, off, stride, has_top, is_rightmost);
    assert forall|x: int| 0 <= x < 20 implies e.top[x] == f.top[x] by {
        assert(q[off - stride + x] == e.top[x]);
        assert(q[off - stride + 15] == e.top[15]);
    }
    assert(e.top =~= f.top);
    assert forall|y: int| 0 <= y < 16 implies e.left[y] == f.left[y] by {
        assert(q[off + y * stride - 1] == e.left[y]);
    }
    assert(e.left =~= f.left);
}

/// Setting up the samples above to the right twice is setting them up once.
pub proof fn lemma_lane_twice(p: Seq<u8>, off: int, stride: int, has_top: bool, is_rightmost: bool)
    requires
        luma_fits(p.len() as int, off, stride),
    ensures
        lane_filled(
            lane_filled(p, off, stride, has_top, is_rightmost),
            off,
            stride,
            has_top,
            is_rightmost,
        ) == lane_filled(p, off, stride, has_top, is_rightmost),
{
    let q = lane_filled(p, off, stride, has_top, is_rightmost);
    let r = lane_filled(q, off, stride, has_top, is_rightmost);
    lemma_lane(p, off, stride, has_top, is_rightmost);
    lemma_lane(q, off, stride, has_top, is_rightmost);
    lemma_luma_edge_lane(p, off, stride, has_top, is_rightmost);
    let e = luma_edge(p, off, stride, has_top, is_rightmost);
    assert forall|i: int| 0 <= i < p.len() implies q[i] == r[i] by {
        if in_lane(i, off, stride) {
            let x = if i < off {
                i - (off - stride)
            } else if i < off + 4 * stride {
                i - (off + 3 * stride)
            } else if i < off + 8 * stride {
                i - (off + 7 * stride)
            } else {
                i - (off + 11 * stride)
            };
            assert(16 <= x < 20);
            assert(q[off - stride + x] == e.top[x]);
            assert(r[off - stride + x] == e.top[x]);
            assert(q[off + 3 * stride + x] == e.top[x]);
            assert(r[off + 3 * stride + x] == e.top[x]);
        } else {
            assert(r[i] == q[i]);
        }
    }
    assert(q =~= r);
}

/// The coefficients of luma and chroma in one.
fn join_coeffs(luma: &[i16; 256], chroma: &[i16; 128]) -> (r: [i16; 384])
    ensures
        r@ == luma@ + chroma@,
{
    let mut r: [i16; 384] = [0i16; 384];
    let mut i: usize = 0;
    while i < 384
        invariant
            i <= 384,
            forall|j: int| 0 <= j < i ==> #[trigger] r@[j] == (luma@ + chroma@)[j],
        decreases 384 - i,
    {
        if i < 256 {
            r[i] = luma[i];
        } else {
            r[i] = chroma[i - 256];
        }
        i = i + 1;
    }
    assert(r@ =~= luma@ + chroma@);
    r
}

/// Whether any coefficient is not zero.
fn any_coeff(c: &[i16; 384]) -> (r: bool)
    ensures
        r == has_nonzero(c@),
{
    let mut i: usize = 0;
    while i < 384
        invariant
            i <= 384,
            forall|j: int| 0 <= j < i ==> #[trigger] c@[j] == 0,
        decreases 384 - i,
    {
        if c[i] != 0 {
            assert(c@[i as int] != 0);
            return true;
        }
        i = i + 1;
    }
    false
}

/// Whether a 16x16-predicted macroblock codes no coefficient.
pub fn is_skippable(t: &MbTokens) -> (r: bool)
    ensures
        r == tokens_empty(*t),
{
    if t.is_i4x4 || t.y2.last >= 0 {
        return false;
    }
    let mut k: usize = 0;
    while k < 16
        invariant
            k <= 16,
            forall|j: int| 0 <= j < k ==> (#[trigger] t.luma@[j]).last < 1,
        decreases 16 - k,
    {
        if t.luma[k].last >= 1 {
            assert(t.luma@[k as int].last >= 1);
            return false;
        }
        k = k + 1;
    }
    let mut k: usize = 0;
    while k < 8
        invariant
            k <= 8,
            forall|j: int| 0 <= j < k ==> (#[trigger] t.chroma@[j]).last < 0,
        decreases 8 - k,
    {
        if t.chroma[k].last >= 0 {
            assert(t.chroma@[k as int].last >= 0);
            return false;
        }
        k = k + 1;
    }
    true
}

/// The whole-block coding of a macroblock: its modes and its coded luma and chroma. The
/// predictions are left in the planes.
#[verifier::rlimit(60)]
fn code_whole_blocks(
    planes: &mut Planes,
    src: &SourceYuv,
    mb: (usize, usize),
    y_off: usize,
    uv_off: usize,
    has_top: bool,
    has_left: bool,
    plan: QuantPlan<'_>,
    search_modes: bool,
) -> (r: (u8, u8, Luma16Encode, Chroma8Encode))
    requires
        src.wf(),
        mb.0 < src.mb_w,
        mb.1 < src.mb_h,
        luma_fits(old(planes).y@.len() as int, y_off as int, old(planes).y_stride as int),
        chroma_fits(old(planes).u@.len() as int, uv_off as int, old(planes).uv_stride as int),
        chroma_fits(old(planes).v@.len() as int, uv_off as int, old(planes).uv_stride as int),
        old(planes).uv_stride >= 9,
        plan.quant.wf(),
    ensures
        ({
            let ys = old(planes).y_stride as int;
            let us = old(planes).uv_stride as int;
            let ye = luma_edge(old(planes).y@, y_off as int, ys, has_top, false);
            let ue = chroma_edge(old(planes).u@, uv_off as int, us);
            let ve = chroma_edge(old(planes).v@, uv_off as int, us);
            let s = src_mb(*src, mb.0 as int, mb.1 as int);
            let p = predicted(16, ye, r.0, has_top, has_left);
            let pu = predicted(8, ue, r.1, has_top, has_left);
            let pv = predicted(8, ve, r.1, has_top, has_left);
            &&& r.0 == (if search_modes {
                luma_mode(ye, s.y, has_top, has_left, plan)
            } else {
                DC_PRED
            })
            &&& r.1 == (if search_modes {
                chroma_mode(ue, ve, s.u, s.v, has_top, has_left, plan)
            } else {
                DC_PRED
            })
            &&& r.0 <= H_PRED
            &&& r.1 <= H_PRED
            &&& codes_luma16(r.2, s.y, p, plan)
            &&& codes_chroma8(r.3, s.u, pu, s.v, pv, plan)
            &&& p.len() == 256
            &&& final(planes).y@ == blit(old(planes).y@, y_off as int, ys, 16, p)
            &&& final(planes).u@ == blit(old(planes).u@, uv_off as int, us, 8, pu)
            &&& final(planes).v@ == blit(old(planes).v@, uv_off as int, us, 8, pv)
        }),
        luma16_sound(r.2, plan),
        forall|k: int| 0 <= k < 8 ==> sound_block(#[trigger] r.3.blocks@[k], 0),
        final(planes).y_stride == old(planes).y_stride,
        final(planes).uv_stride == old(planes).uv_stride,
{
    if search_modes {
        let (ymode, luma) = select_luma16_mode_rd(
            planes,
            y_off,
            src,
            mb,
            has_top,
            has_left,
            plan,
        );
        let (uvmode, chroma) = select_chroma8_mode_rd(
            planes,
            uv_off,
            src,
            mb,
            has_top,
            has_left,
            plan,
        );
        (ymode, uvmode, luma, chroma)
    } else {
        let y_stride: usize = planes.y_stride;
        let uv_stride: usize = planes.uv_stride;
        let ghost y0 = planes.y@;
        let ghost u0 = planes.u@;
        let ghost v0 = planes.v@;
        predict_luma_at(&mut planes.y, y_off, y_stride, DC_PRED, has_top, has_left);
        predict_chroma_at(&mut planes.u, uv_off, uv_stride, DC_PRED, has_top, has_left);
        predict_chroma_at(&mut planes.v, uv_off, uv_stride, DC_PRED, has_top, has_left);
        proof {
            assert(16 * 16 == 256 && 8 * 8 == 64);
            let ye = luma_edge(y0, y_off as int, y_stride as int, has_top, false);
            let ue = chroma_edge(u0, uv_off as int, uv_stride as int);
            let ve = chroma_edge(v0, uv_off as int, uv_stride as int);
            lemma_square_blit(
                y0,
                y_off as int,
                y_stride as int,
                16,
                predicted(16, ye, DC_PRED, has_top, has_left),
            );
            lemma_square_blit(
                u0,
                uv_off as int,
                uv_stride as int,
                8,
                predicted(8, ue, DC_PRED, has_top, has_left),
            );
            lemma_square_blit(
                v0,
                uv_off as int,
                uv_stride as int,
                8,
                predicted(8, ve, DC_PRED, has_top, has_left),
            );
        }
        let (luma, chroma) = encode_mb(src, planes, mb.0, mb.1, y_off, uv_off, plan);
        (DC_PRED, DC_PRED, luma, chroma)
    }
}

/// Transform and quantize a macroblock against the predictions that the planes hold.
pub fn encode_mb(
    src: &SourceYuv,
    planes: &Planes,
    mb_x: usize,
    mb_y: usize,
    y_off: usize,
    uv_off: usize,
    plan: QuantPlan<'_>,
) -> (r: (Luma16Encode, Chroma8Encode))
    requires
        src.wf(),
        mb_x < src.mb_w,
        mb_y < src.mb_h,
        luma_fits(planes.y@.len() as int, y_off as int, planes.y_stride as int),
        chroma_fits(planes.u@.len() as int, uv_off as int, planes.uv_stride as int),
        chroma_fits(planes.v@.len() as int, uv_off as int, planes.uv_stride as int),
        plan.quant.wf(),
    ensures
        ({
            let s = src_mb(*src, mb_x as int, mb_y as int);
            let ys = planes.y_stride as int;
            let us = planes.uv_stride as int;
            &&& codes_luma16(r.0, s.y, square(planes.y@, y_off as int, ys, 16), plan)
            &&& codes_chroma8(
                r.1,
                s.u,
                square(planes.u@, uv_off as int, us, 8),
                s.v,
                square(planes.v@, uv_off as int, us, 8),
                plan,
            )
        }),
        luma16_sound(r.0, plan),
        forall|k: int| 0 <= k < 8 ==> sound_block(#[trigger] r.1.blocks@[k], 0),
{
    let y_at: usize = luma_src_at(src, mb_x, mb_y);
    let uv_at: usize = chroma_src_at(src, mb_x, mb_y);
    let luma: Luma16Encode = encode_luma16_residual(
        &src.y,
        y_at,
        src.y_stride(),
        &planes.y,
        y_off,
        planes.y_stride,
        plan,
    );
    let chroma: Chroma8Encode = encode_chroma8_residual(
        &src.u,
        &src.v,
        uv_at,
        src.uv_stride(),
        &planes.u,
        &planes.v,
        uv_off,
        planes.uv_stride,
        plan,
    );
    (luma, chroma)
}

/// The input of the plan of macroblock (`mb_x`, `mb_y`), given the flags of its place.
pub open spec fn plan_input<'a>(
    planes: Samples,
    src: SourceYuv,
    mb_x: int,
    mb_y: int,
    has_top: bool,
    has_left: bool,
    is_rightmost: bool,
    segment: u8,
    plan: QuantPlan<'a>,
    gates: SearchGates,
) -> PlanInput<'a> {
    let ys = luma_stride(src.mb_w as int);
    let us = chroma_stride(src.mb_w as int);
    PlanInput {
        edges: edges_at(
            planes,
            mb_off(ys, 16, mb_x, mb_y),
            ys,
            mb_off(us, 8, mb_x, mb_y),
            us,
            has_top,
            is_rightmost,
        ),
        src: src_mb(src, mb_x, mb_y),
        has_top,
        has_left,
        segment,
        plan,
        gates,
    }
}

/// The planes after a macroblock is planned: its reconstruction, and for a 4x4 search
/// the samples above to the right set up.
pub open spec fn plan_done(
    planes: Samples,
    i: PlanInput<'_>,
    mb_w: int,
    mb_x: int,
    mb_y: int,
    is_rightmost: bool,
) -> Samples {
    let ys = luma_stride(mb_w);
    let us = chroma_stride(mb_w);
    let y_off = mb_off(ys, 16, mb_x, mb_y);
    let uv_off = mb_off(us, 8, mb_x, mb_y);
    Samples {
        y: blit(
            if i.gates.uses_i4x4 {
                lane_filled(planes.y, y_off, ys, i.has_top, is_rightmost)
            } else {
                planes.y
            },
            y_off,
            ys,
            16,
            i.luma_rec(),
        ),
        u: blit(planes.u, uv_off, us, 8, i.u_rec()),
        v: blit(planes.v, uv_off, us, 8, i.v_rec()),
    }
}

/// The luma residuals do not look at the chroma coefficients.
proof fn lemma_luma_part(pred: Seq<u8>, luma: Seq<i16>, chroma: Seq<i16>)
    requires
        luma.len() == 256,
    ensures
        add_residuals(16, pred, luma + chroma, 0, 16) == add_residuals(16, pred, luma, 0, 16),
{
    assert forall|j: int| 0 <= j < 16 implies coeff_block(luma + chroma, 0 + j)
        == #[trigger] coeff_block(luma, 0 + j) by {
        assert(coeff_block(luma + chroma, 0 + j) =~= coeff_block(luma, 0 + j));
    }
    lemma_add_residuals_ext(16, pred, luma + chroma, 0, luma, 0, 16);
}

/// The luma plane after the search and the final reconstruction.
proof fn lemma_luma_planned(
    y0: Seq<u8>,
    y1: Seq<u8>,
    off: int,
    stride: int,
    pred: Seq<u8>,
    searched: Seq<u8>,
    b: MbData,
    has_top: bool,
    has_left: bool,
    is_rightmost: bool,
    uses_i4x4: bool,
)
    requires
        luma_fits(y0.len() as int, off, stride),
        b.is_i4x4 ==> uses_i4x4,
        if uses_i4x4 {
            y1 == blit(
                lane_filled(
                    blit(y0, off, stride, 16, pred),
                    off,
                    stride,
                    has_top,
                    is_rightmost,
                ),
                off,
                stride,
                16,
                searched,
            )
        } else {
            y1 == blit(y0, off, stride, 16, pred)
        },
    ensures
        luma_fits(y1.len() as int, off, stride),
        luma_done(y1, off, stride, b, has_top, has_left, is_rightmost) == blit(
            if uses_i4x4 {
                lane_filled(y0, off, stride, has_top, is_rightmost)
            } else {
                y0
            },
            off,
            stride,
            16,
            luma_recon(luma_edge(y0, off, stride, has_top, is_rightmost), b, has_top, has_left),
        ),
{
    let e = luma_edge(y0, off, stride, has_top, is_rightmost);
    let rec = luma_recon(e, b, has_top, has_left);
    lemma_lane(y0, off, stride, has_top, is_rightmost);
    if uses_i4x4 {
        let base = lane_filled(y0, off, stride, has_top, is_rightmost);
        lemma_lane_blit(y0, off, stride, pred, searched, has_top, is_rightmost);
        assert(y1 == blit(base, off, stride, 16, searched));
        lemma_luma_edge_blit(base, off, stride, searched, has_top, is_rightmost);
        lemma_luma_edge_lane(y0, off, stride, has_top, is_rightmost);
        if b.is_i4x4 {
            lemma_lane_blit(base, off, stride, searched, rec, has_top, is_rightmost);
            lemma_lane_twice(y0, off, stride, has_top, is_rightmost);
        } else {
            lemma_blit_blit(base, off, stride, 16, searched, rec);
        }
    } else {
        lemma_luma_edge_blit(y0, off, stride, pred, has_top, is_rightmost);
        lemma_blit_blit(y0, off, stride, 16, pred, rec);
    }
}

/// A chroma plane after the search and the final reconstruction.
proof fn lemma_chroma_planned(
    p0: Seq<u8>,
    off: int,
    stride: int,
    pred: Seq<u8>,
    b: MbData,
    base: int,
    has_top: bool,
    has_left: bool,
)
    requires
        chroma_fits(p0.len() as int, off, stride),
        stride >= 9,
    ensures
        chroma_done(blit(p0, off, stride, 8, pred), off, stride, b, base, has_top, has_left)
            == chroma_done(p0, off, stride, b, base, has_top, has_left),
{
    lemma_chroma_edge_blit(p0, off, stride, pred);
    lemma_blit_blit(
        p0,
        off,
        stride,
        8,
        pred,
        chroma_recon(
            chroma_edge(p0, off, stride),
            b.uvmode,
            b.coeffs@,
            base,
            has_top,
            has_left,
        ),
    );
}

/// The sixteen luma modes of a 16x16-predicted macroblock.
fn whole_imodes(ymode: u8) -> (r: [u8; 16])
    ensures
        r@ == Seq::new(
            16,
            |k: int|
                if k == 0 {
                    ymode
                } else {
                    0
                },
        ),
{
    let mut r: [u8; 16] = [0u8; 16];
    r[0] = ymode;
    assert(r@ =~= Seq::new(
        16,
        |k: int|
            if k == 0 {
                ymode
            } else {
                0
            },
    ));
    r
}

/// How a macroblock is coded.
struct Coding {
    ymode: u8,
    uvmode: u8,
    is_i4x4: bool,
    imodes: [u8; 16],
    coeffs: [i16; 384],
    tokens: MbTokens,
}

/// Whether `c` is how the macroblock is coded.
spec fn is_coding(i: PlanInput<'_>, c: Coding) -> bool {
    &&& c.ymode == i.ymode()
    &&& c.uvmode == i.uvmode()
    &&& c.is_i4x4 == i.is_i4x4()
    &&& c.imodes@ == i.imodes()
    &&& c.coeffs@ == i.coeffs()
    &&& c.tokens.is_i4x4 == i.is_i4x4()
    &&& (if i.is_i4x4() {
        empty_block(c.tokens.y2)
    } else {
        c.tokens.y2 == block_of(y2_quantized(i.src.y, i.luma_pred(), i.plan))
    })
    &&& c.tokens.luma@ == i.luma_blocks()
    &&& c.tokens.chroma@ == i.chroma_blocks()
}

/// Whether a coding's modes and blocks can be emitted.
spec fn coding_sound(c: Coding) -> bool {
    &&& c.ymode <= H_PRED
    &&& c.uvmode <= H_PRED
    &&& forall|k: int| 0 <= k < 16 ==> #[trigger] c.imodes@[k] <= B_HU_PRED
    &&& (!c.is_i4x4 ==> c.imodes@[0] <= H_PRED)
    &&& c.tokens.is_i4x4 == c.is_i4x4
    &&& sound_block(c.tokens.y2, 0)
    &&& forall|k: int|
        0 <= k < 16 ==> sound_block(
            #[trigger] c.tokens.luma@[k],
            if c.is_i4x4 {
                0
            } else {
                1
            },
        )
    &&& forall|k: int| 0 <= k < 8 ==> sound_block(#[trigger] c.tokens.chroma@[k], 0)
}

/// The luma plane after the search.
spec fn luma_searched(
    y0: Seq<u8>,
    off: int,
    stride: int,
    i: PlanInput<'_>,
    is_rightmost: bool,
) -> Seq<u8> {
    let predicted = blit(y0, off, stride, 16, i.luma_pred());
    if i.gates.uses_i4x4 {
        blit(
            lane_filled(predicted, off, stride, i.has_top, is_rightmost),
            off,
            stride,
            16,
            i4_upto(i.edges.y, i.src.y, i.plan, 16),
        )
    } else {
        predicted
    }
}

/// Search the whole-block modes; facts are stated for the macroblock's own edge.
fn code_whole(
    planes: &mut Planes,
    src: &SourceYuv,
    mb: (usize, usize),
    y_off: usize,
    uv_off: usize,
    Ghost(i): Ghost<PlanInput<'_>>,
    Ghost(is_rightmost): Ghost<bool>,
    has_top: bool,
    has_left: bool,
    plan: QuantPlan<'_>,
    search_modes: bool,
) -> (r: (u8, u8, Luma16Encode, Chroma8Encode))
    requires
        src.wf(),
        mb.0 < src.mb_w,
        mb.1 < src.mb_h,
        luma_fits(old(planes).y@.len() as int, y_off as int, old(planes).y_stride as int),
        chroma_fits(old(planes).u@.len() as int, uv_off as int, old(planes).uv_stride as int),
        chroma_fits(old(planes).v@.len() as int, uv_off as int, old(planes).uv_stride as int),
        old(planes).uv_stride >= 9,
        plan.quant.wf(),
        i.edges == edges_at(
            old(planes)@,
            y_off as int,
            old(planes).y_stride as int,
            uv_off as int,
            old(planes).uv_stride as int,
            has_top,
            is_rightmost,
        ),
        i.src == src_mb(*src, mb.0 as int, mb.1 as int),
        i.has_top == has_top,
        i.has_left == has_left,
        i.plan == plan,
        i.gates.search_modes == search_modes,
    ensures
        r.0 == i.ymode(),
        r.1 == i.uvmode(),
        r.0 <= H_PRED,
        r.1 <= H_PRED,
        r.2.coeffs@ == luma16_coeffs(i.src.y, i.luma_pred(), plan),
        r.2.y2 == block_of(y2_quantized(i.src.y, i.luma_pred(), plan)),
        r.2.blocks@ == luma16_blocks(i.src.y, i.luma_pred(), plan),
        r.3.coeffs@ == chroma8_coeffs(i.src.u, i.u_pred(), plan) + chroma8_coeffs(
            i.src.v,
            i.v_pred(),
            plan,
        ),
        r.3.blocks@ == i.chroma_blocks(),
        i.luma_pred().len() == 256,
        final(planes).y@ == blit(
            old(planes).y@,
            y_off as int,
            old(planes).y_stride as int,
            16,
            i.luma_pred(),
        ),
        final(planes).u@ == blit(
            old(planes).u@,
            uv_off as int,
            old(planes).uv_stride as int,
            8,
            i.u_pred(),
        ),
        final(planes).v@ == blit(
            old(planes).v@,
            uv_off as int,
            old(planes).uv_stride as int,
            8,
            i.v_pred(),
        ),
        luma16_sound(r.2, plan),
        forall|k: int| 0 <= k < 8 ==> sound_block(#[trigger] r.3.blocks@[k], 0),
        final(planes).y_stride == old(planes).y_stride,
        final(planes).uv_stride == old(planes).uv_stride,
{
    let ghost y0 = planes.y@;
    let ghost ys = planes.y_stride as int;
    let (ymode, uvmode, luma, chroma) = code_whole_blocks(
        planes,
        src,
        mb,
        y_off,
        uv_off,
        has_top,
        has_left,
        plan,
        search_modes,
    );
    proof {
        let e0 = luma_edge(y0, y_off as int, ys, has_top, false);
        assert(e0.top.take(16) =~= i.edges.y.top.take(16));
        lemma_luma_mode_edge(e0, i.edges.y, i.src.y, has_top, has_left, plan, 4);
        assert(predicted(16, e0, ymode, has_top, has_left) == i.luma_pred());
        assert(luma.blocks@ =~= luma16_blocks(i.src.y, i.luma_pred(), plan));
        assert(chroma.blocks@ =~= i.chroma_blocks());
    }
    (ymode, uvmode, luma, chroma)
}

/// Search how a macroblock is coded.
#[verifier::rlimit(60)]
fn choose_coding(
    planes: &mut Planes,
    src: &SourceYuv,
    mb: (usize, usize),
    y_off: usize,
    uv_off: usize,
    Ghost(i): Ghost<PlanInput<'_>>,
    has_top: bool,
    has_left: bool,
    is_rightmost: bool,
    plan: QuantPlan<'_>,
    gates: SearchGates,
) -> (r: Coding)
    requires
        src.wf(),
        mb.0 < src.mb_w,
        mb.1 < src.mb_h,
        luma_fits(old(planes).y@.len() as int, y_off as int, old(planes).y_stride as int),
        chroma_fits(old(planes).u@.len() as int, uv_off as int, old(planes).uv_stride as int),
        chroma_fits(old(planes).v@.len() as int, uv_off as int, old(planes).uv_stride as int),
        old(planes).uv_stride >= 9,
        plan.quant.wf(),
        i.edges == edges_at(
            old(planes)@,
            y_off as int,
            old(planes).y_stride as int,
            uv_off as int,
            old(planes).uv_stride as int,
            has_top,
            is_rightmost,
        ),
        i.src == src_mb(*src, mb.0 as int, mb.1 as int),
        i.has_top == has_top,
        i.has_left == has_left,
        i.plan == plan,
        i.gates == gates,
    ensures
        is_coding(i, r),
        coding_sound(r),
        final(planes).y@ == luma_searched(
            old(planes).y@,
            y_off as int,
            old(planes).y_stride as int,
            i,
            is_rightmost,
        ),
        final(planes).u@ == blit(
            old(planes).u@,
            uv_off as int,
            old(planes).uv_stride as int,
            8,
            i.u_pred(),
        ),
        final(planes).v@ == blit(
            old(planes).v@,
            uv_off as int,
            old(planes).uv_stride as int,
            8,
            i.v_pred(),
        ),
        final(planes).y_stride == old(planes).y_stride,
        final(planes).uv_stride == old(planes).uv_stride,
{
    let ghost y0 = planes.y@;
    let ghost ys = planes.y_stride as int;
    let (ymode, uvmode, luma, chroma) = code_whole(
        planes,
        src,
        mb,
        y_off,
        uv_off,
        Ghost(i),
        Ghost(is_rightmost),
        has_top,
        has_left,
        plan,
        gates.search_modes,
    );
    let whole: [i16; 384] = join_coeffs(&luma.coeffs, &chroma.coeffs);
    let tokens = MbTokens {
        is_i4x4: false,
        y2: luma.y2,
        luma: luma.blocks,
        chroma: chroma.blocks,
    };
    let mut i4x4: Option<I4x4Luma> = None;
    if gates.uses_i4x4 {
        proof {
            assert(16 * 16 == 256);
            lemma_square_blit(y0, y_off as int, ys, 16, i.luma_pred());
            lemma_luma_edge_blit(y0, y_off as int, ys, i.luma_pred(), has_top, is_rightmost);
            lemma_luma_part(i.luma_pred(), luma.coeffs@, chroma.coeffs@);
        }
        i4x4 = try_i4x4_luma(
            planes,
            &whole,
            &tokens,
            y_off,
            src,
            mb,
            has_top,
            is_rightmost,
            plan,
        );
    }
    assert(i4x4 is Some <==> i.is_i4x4());
    let (is_i4x4, imodes, coeffs, tokens) = merge_luma(
        i4x4,
        ymode,
        whole,
        tokens,
        &chroma.coeffs,
    );
    proof {
        assert(imodes@ =~= i.imodes());
        assert(tokens.luma@ =~= i.luma_blocks());
        assert(coeffs@ =~= i.coeffs());
    }
    Coding { ymode, uvmode, is_i4x4, imodes, coeffs, tokens }
}

/// Plan one macroblock and reconstruct it into the planes.
#[verifier::rlimit(60)]
pub fn plan_one_mb(
    planes: &mut Planes,
    src: &SourceYuv,
    mb_x: usize,
    mb_y: usize,
    has_top: bool,
    has_left: bool,
    is_rightmost: bool,
    segment: u8,
    plan: QuantPlan<'_>,
    gates: SearchGates,
) -> (r: MbPlan)
    requires
        src.wf(),
        mb_x < src.mb_w,
        mb_y < src.mb_h,
        old(planes).wf(src.mb_w as int, src.mb_h as int),
        plan.quant.wf(),
    ensures
        ({
            let i = plan_input(
                old(planes)@,
                *src,
                mb_x as int,
                mb_y as int,
                has_top,
                has_left,
                is_rightmost,
                segment,
                plan,
                gates,
            );
            &&& i.is_plan(r)
            &&& final(planes)@ == plan_done(
                old(planes)@,
                i,
                src.mb_w as int,
                mb_x as int,
                mb_y as int,
                is_rightmost,
            )
        }),
        plan_sound(r),
        final(planes).wf(src.mb_w as int, src.mb_h as int),
{
    let ghost i = plan_input(
        planes@,
        *src,
        mb_x as int,
        mb_y as int,
        has_top,
        has_left,
        is_rightmost,
        segment,
        plan,
        gates,
    );
    let ghost y0 = planes.y@;
    let ghost u0 = planes.u@;
    let ghost v0 = planes.v@;
    let ghost ys = planes.y_stride as int;
    let ghost us = planes.uv_stride as int;
    proof {
        lemma_mb_fits(src.mb_w as int, src.mb_h as int, mb_x as int, mb_y as int);
    }
    let y_off: usize = luma_offset(planes, mb_x, mb_y, src.mb_w, Ghost(src.mb_h as int));
    let uv_off: usize = chroma_offset(planes, mb_x, mb_y, src.mb_w, Ghost(src.mb_h as int));
    let c: Coding = choose_coding(
        planes,
        src,
        (mb_x, mb_y),
        y_off,
        uv_off,
        Ghost(i),
        has_top,
        has_left,
        is_rightmost,
        plan,
        gates,
    );
    let skippable: bool = is_skippable(&c.tokens);
    let has_residual: bool = any_coeff(&c.coeffs);
    let mut mb_data = MbData::default();
    mb_data.coeffs = c.coeffs;
    mb_data.is_i4x4 = c.is_i4x4;
    mb_data.imodes = c.imodes;
    mb_data.uvmode = c.uvmode;
    proof {
        lemma_luma_planned(
            y0,
            planes.y@,
            y_off as int,
            ys,
            i.luma_pred(),
            i4_upto(i.edges.y, i.src.y, plan, 16),
            mb_data,
            has_top,
            has_left,
            is_rightmost,
            gates.uses_i4x4,
        );
        lemma_chroma_planned(u0, uv_off as int, us, i.u_pred(), mb_data, 16, has_top, has_left);
        lemma_chroma_planned(v0, uv_off as int, us, i.v_pred(), mb_data, 20, has_top, has_left);
        lemma_lane(y0, y_off as int, ys, has_top, is_rightmost);
    }
    reconstruct_mb_at(planes, &mb_data, y_off, uv_off, has_top, has_left, is_rightmost);
    MbPlan {
        ymode: c.ymode,
        imodes: c.imodes,
        uvmode: c.uvmode,
        is_i4x4: c.is_i4x4,
        skippable,
        has_residual,
        tokens: c.tokens,
        segment,
    }
}

/// The macroblock's luma modes, coefficients and tokens: those of the 4x4 coding if
/// there is one, those of the 16x16 coding otherwise.
fn merge_luma(
    i4x4: Option<I4x4Luma>,
    ymode: u8,
    whole: [i16; 384],
    tokens: MbTokens,
    chroma: &[i16; 128],
) -> (r: (bool, [u8; 16], [i16; 384], MbTokens))
    requires
        !tokens.is_i4x4,
    ensures
        match i4x4 {
            Some(i4) => {
                &&& r.0
                &&& r.1 == i4.imodes
                &&& r.2@ == i4.coeffs@ + chroma@
                &&& r.3.is_i4x4
                &&& empty_block(r.3.y2)
                &&& r.3.luma == i4.luma
                &&& r.3.chroma == tokens.chroma
            },
            None => {
                &&& !r.0
                &&& r.1@ == Seq::new(
                    16,
                    |k: int|
                        if k == 0 {
                            ymode
                        } else {
                            0
                        },
                )
                &&& r.2 == whole
                &&& r.3 == tokens
            },
        },
{
    match i4x4 {
        Some(i4) => {
            let coeffs: [i16; 384] = join_coeffs(&i4.coeffs, chroma);
            (
                true,
                i4.imodes,
                coeffs,
                MbTokens {
                    is_i4x4: true,
                    y2: Block::default(),
                    luma: i4.luma,
                    chroma: tokens.chroma,
                },
            )
        },
        None => (false, whole_imodes(ymode), whole, tokens),
    }
}

} // verus!
