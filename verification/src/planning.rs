//! The plans of a frame's macroblocks.
//!
//! A macroblock's plan depends on the tiles above and to the left of it; in raster order
//! those come first, and so the plans and tiles of a frame are a function of its input.

use vstd::prelude::*;

use crate::constants::CoeffProbas;
use crate::mode_search::src_mb;
use crate::plan::{
    plan_done, plan_input, plan_is_unique, plan_one_mb, plan_sound, MbPlan, PlanInput, SearchGates,
};
use crate::quant::Quantizer;
use crate::recon_block::{lemma_add_residuals_len, lemma_i4_len};
use crate::reconstruct::{lane_filled, luma_stride, Planes, Samples};
use crate::residual::QuantPlan;
use crate::rgb_to_yuv::SourceYuv;
use crate::scratch::{lemma_rows_done, lemma_scratch_step, scratch_follows};
use crate::tiles::{
    lemma_edges, lemma_grid, lemma_shows_blit, lemma_shows_lane, shows, tile_edges, tile_off,
    y_blocks, Tile,
};

verus! {

/// Everything that a frame's plans depend on.
pub struct FrameInput<'a> {
    /// The source planes.
    pub src: SourceYuv,
    /// The segment of each macroblock.
    pub seg_ids: Seq<u8>,
    /// The quantizer of each segment.
    pub quants: [Quantizer; 4],
    /// How deep the mode search goes.
    pub gates: SearchGates,
    /// The token probabilities that rates are measured against.
    pub probas: &'a CoeffProbas,
}

impl<'a> FrameInput<'a> {
    /// How the coefficients of macroblock `k` are quantized.
    pub open spec fn quant_plan(&self, k: int) -> QuantPlan<'a> {
        QuantPlan {
            quant: self.quants@[self.seg_ids[k] as int],
            uses_trellis: self.gates.uses_trellis,
            sns_strength: self.gates.sns_strength,
            probas: self.probas,
        }
    }

    /// The input of the plan of macroblock `k`, given the tiles before it.
    pub open spec fn input_at(&self, tiles: Seq<Tile>, k: int) -> PlanInput<'a> {
        let mb_w = self.src.mb_w as int;
        PlanInput {
            edges: tile_edges(mb_w, tiles, k),
            src: src_mb(self.src, k % mb_w, k / mb_w),
            has_top: k / mb_w > 0,
            has_left: k % mb_w > 0,
            segment: self.seg_ids[k],
            plan: self.quant_plan(k),
            gates: self.gates,
        }
    }

    /// The first `n` tiles.
    pub open spec fn tiles(&self, n: int) -> Seq<Tile>
        decreases n,
    {
        if n <= 0 {
            Seq::empty()
        } else {
            let before = self.tiles(n - 1);
            before.push(tile_of(self.input_at(before, n - 1)))
        }
    }

    /// The input of the plan of macroblock `k`.
    pub open spec fn input(&self, k: int) -> PlanInput<'a> {
        self.input_at(self.tiles(k), k)
    }

    /// How many macroblocks there are.
    pub open spec fn count(&self) -> int {
        self.src.mb_w * self.src.mb_h
    }

    /// Whether `plans` are the plans of the first `n` macroblocks.
    pub open spec fn are_plans(&self, plans: Seq<MbPlan>, n: int) -> bool {
        &&& plans.len() == n
        &&& forall|k: int| 0 <= k < n ==> self.input(k).is_plan(#[trigger] plans[k])
    }

    /// Which of the macroblock rows that planning the first `k` macroblocks in raster order
    /// finishes set up samples in the scratch columns.
    pub open spec fn lanes_after(&self, k: int) -> Seq<bool> {
        Seq::new((k / self.src.mb_w as int) as nat, |y: int| self.gates.uses_i4x4)
    }

    /// Whether the scratch columns of `p` are those of `old` after the first `k`
    /// macroblocks are planned in raster order.
    pub open spec fn scratch_after(&self, p: Seq<u8>, old: Seq<u8>, k: int) -> bool {
        scratch_follows(
            p,
            old,
            self.src.mb_w as int,
            self.src.mb_h as int,
            self.tiles(self.count()),
            self.lanes_after(k),
        )
    }

    /// The segments and quantizers are usable.
    pub open spec fn wf(&self) -> bool {
        &&& self.src.wf()
        &&& self.seg_ids.len() == self.count()
        &&& forall|k: int| 0 <= k < self.seg_ids.len() ==> #[trigger] self.seg_ids[k] < 4
        &&& forall|s: int| 0 <= s < 4 ==> (#[trigger] self.quants@[s]).wf()
    }
}

/// What a macroblock reconstructs to.
pub open spec fn tile_of(i: PlanInput<'_>) -> Tile {
    Tile { y: i.luma_rec(), u: i.u_rec(), v: i.v_rec() }
}

/// Whether every plan can be emitted.
pub open spec fn plans_sound(plans: Seq<MbPlan>) -> bool {
    forall|k: int| 0 <= k < plans.len() ==> plan_sound(#[trigger] plans[k])
}

/// The macroblocks before `k`.
pub open spec fn before(k: int) -> spec_fn(int) -> bool {
    |j: int| j < k
}

/// The plans of a frame are unique.
pub proof fn plans_are_unique(f: FrameInput<'_>, a: Seq<MbPlan>, b: Seq<MbPlan>, n: int)
    requires
        f.are_plans(a, n),
        f.are_plans(b, n),
    ensures
        a == b,
{
    assert forall|k: int| 0 <= k < n implies a[k] == b[k] by {
        plan_is_unique(f.input(k), a[k], b[k]);
    }
    assert(a =~= b);
}

/// The first tiles do not change when more follow.
pub proof fn lemma_tiles_prefix(f: FrameInput<'_>, n: int, k: int)
    requires
        0 <= k < n,
    ensures
        f.tiles(n).len() == n,
        f.tiles(n)[k] == tile_of(f.input(k)),
    decreases n,
{
    lemma_tiles_len(f, n);
    lemma_tiles_len(f, n - 1);
    if k < n - 1 {
        lemma_tiles_prefix(f, n - 1, k);
    }
}

proof fn lemma_tiles_len(f: FrameInput<'_>, n: int)
    requires
        0 <= n,
    ensures
        f.tiles(n).len() == n,
    decreases n,
{
    if n > 0 {
        lemma_tiles_len(f, n - 1);
    }
}

/// A macroblock's edges depend on earlier tiles only.
pub proof fn lemma_tile_edges_prefix(mb_w: int, mb_h: int, a: Seq<Tile>, b: Seq<Tile>, k: int)
    requires
        1 <= mb_w,
        0 <= k < mb_w * mb_h,
        forall|j: int| 0 <= j < k ==> #[trigger] a[j] == b[j],
    ensures
        tile_edges(mb_w, a, k) == tile_edges(mb_w, b, k),
{
    lemma_grid(mb_w, mb_h, k);
    let e = tile_edges(mb_w, a, k);
    let f = tile_edges(mb_w, b, k);
    if k >= mb_w {
        assert(a[k - mb_w] == b[k - mb_w]);
        if k % mb_w > 0 {
            assert(a[k - mb_w - 1] == b[k - mb_w - 1]);
        }
        if k % mb_w < mb_w - 1 {
            assert(a[k + 1 - mb_w] == b[k + 1 - mb_w]);
        }
    }
    if k % mb_w > 0 {
        assert(a[k - 1] == b[k - 1]);
    }
    assert(e.y.top =~= f.y.top);
    assert(e.y.left =~= f.y.left);
    assert(e.u.top =~= f.u.top);
    assert(e.u.left =~= f.u.left);
    assert(e.v.top =~= f.v.top);
    assert(e.v.left =~= f.v.left);
}

/// The input of macroblock `k`, from any tiles that hold the earlier ones.
pub proof fn lemma_input_at(f: FrameInput<'_>, n: int, k: int)
    requires
        f.src.wf(),
        0 <= k < n <= f.count(),
    ensures
        f.input_at(f.tiles(n), k) == f.input(k),
{
    let mb_w = f.src.mb_w as int;
    let mb_h = f.src.mb_h as int;
    assert forall|j: int| 0 <= j < k implies #[trigger] f.tiles(n)[j] == f.tiles(k)[j] by {
        lemma_tiles_prefix(f, n, j);
        lemma_tiles_prefix(f, k, j);
    }
    lemma_tile_edges_prefix(mb_w, mb_h, f.tiles(n), f.tiles(k), k);
}

/// A tile has the size of a macroblock.
pub proof fn lemma_tile_len(i: PlanInput<'_>)
    ensures
        tile_of(i).y.len() == 256,
        tile_of(i).u.len() == 64,
        tile_of(i).v.len() == 64,
{
    assert(16 * 16 == 256 && 8 * 8 == 64);
    if i.is_i4x4() {
        lemma_i4_len(
            i.edges.y,
            crate::recon_block::i4_decoded(i.imodes(), i.coeffs()),
            crate::recon_block::blank_block(),
            16,
        );
    } else {
        lemma_add_residuals_len(16, i.luma_pred(), i.coeffs(), 0, 16);
    }
    lemma_add_residuals_len(8, i.u_pred(), i.coeffs(), 16, 4);
    lemma_add_residuals_len(8, i.v_pred(), i.coeffs(), 20, 4);
}

/// The position of macroblock (`x`, `y`) in raster order.
pub proof fn lemma_raster(mb_w: int, mb_h: int, x: int, y: int)
    requires
        0 <= x < mb_w,
        0 <= y < mb_h,
    ensures
        0 <= y * mb_w + x < mb_w * mb_h,
        (y * mb_w + x) % mb_w == x,
        (y * mb_w + x) / mb_w == y,
{
    vstd::arithmetic::div_mod::lemma_fundamental_div_mod_converse(y * mb_w + x, mb_w, y, x);
    assert(0 <= y * mb_w + x < mb_w * mb_h) by (nonlinear_arith)
        requires
            0 <= x < mb_w,
            0 <= y < mb_h,
    ;
}

/// The quantization plan of a macroblock in segment `segment`.
pub(crate) fn quant_plan_of<'a>(
    quants: &[Quantizer; 4],
    segment: u8,
    gates: SearchGates,
    probas: &'a CoeffProbas,
) -> (r: QuantPlan<'a>)
    requires
        segment < 4,
    ensures
        r == (QuantPlan {
            quant: quants@[segment as int],
            uses_trellis: gates.uses_trellis,
            sns_strength: gates.sns_strength,
            probas,
        }),
{
    QuantPlan {
        quant: quants[segment as usize],
        uses_trellis: gates.uses_trellis,
        sns_strength: gates.sns_strength,
        probas,
    }
}

/// One step of the raster scan.
proof fn lemma_serial_step(f: FrameInput<'_>, s: Samples, k: int)
    requires
        f.wf(),
        0 <= k < f.count(),
        shows(s, f.src.mb_w as int, f.src.mb_h as int, f.tiles(f.count()), before(k)),
    ensures
        ({
            let mb_w = f.src.mb_w as int;
            let mb_h = f.src.mb_h as int;
            let i = plan_input(
                s,
                f.src,
                k % mb_w,
                k / mb_w,
                k / mb_w > 0,
                k % mb_w > 0,
                k % mb_w == mb_w - 1,
                f.seg_ids[k],
                f.quant_plan(k),
                f.gates,
            );
            &&& i == f.input(k)
            &&& shows(
                plan_done(s, i, mb_w, k % mb_w, k / mb_w, k % mb_w == mb_w - 1),
                mb_w,
                mb_h,
                f.tiles(f.count()),
                before(k + 1),
            )
        }),
{
    let mb_w = f.src.mb_w as int;
    let mb_h = f.src.mb_h as int;
    let n = f.count();
    let tiles = f.tiles(n);
    lemma_grid(mb_w, mb_h, k);
    lemma_edges(s, mb_w, mb_h, tiles, before(k), k);
    lemma_input_at(f, n, k);
    lemma_tiles_prefix(f, n, k);
    let i = f.input(k);
    lemma_tile_len(i);
    let ys = luma_stride(mb_w);
    if f.gates.uses_i4x4 {
        lemma_shows_lane(s.y, mb_w, mb_h, y_blocks(tiles), before(k), k);
        let laned = Samples {
            y: lane_filled(
                s.y,
                tile_off(ys, 16, mb_w, k),
                ys,
                k / mb_w > 0,
                k % mb_w == mb_w - 1,
            ),
            ..s
        };
        lemma_shows_blit(laned, mb_w, mb_h, tiles, before(k), before(k + 1), k);
    } else {
        lemma_shows_blit(s, mb_w, mb_h, tiles, before(k), before(k + 1), k);
    }
}

/// Plan every macroblock in raster order. With 4x4 prediction, the scratch columns are
/// left with what it set up there.
#[verifier::rlimit(60)]
pub fn plan_frame_serial(
    planes: &mut Planes,
    src: &SourceYuv,
    seg_ids: &[u8],
    quants: &[Quantizer; 4],
    gates: SearchGates,
    probas: &CoeffProbas,
) -> (r: Vec<MbPlan>)
    requires
        ({
            let f = FrameInput { src: *src, seg_ids: seg_ids@, quants: *quants, gates, probas };
            &&& f.wf()
            &&& old(planes).wf(src.mb_w as int, src.mb_h as int)
            &&& shows(
                old(planes)@,
                src.mb_w as int,
                src.mb_h as int,
                f.tiles(f.count()),
                before(0),
            )
        }),
    ensures
        ({
            let f = FrameInput { src: *src, seg_ids: seg_ids@, quants: *quants, gates, probas };
            &&& f.are_plans(r@, f.count())
            &&& shows(
                final(planes)@,
                src.mb_w as int,
                src.mb_h as int,
                f.tiles(f.count()),
                before(f.count()),
            )
            &&& scratch_follows(
                final(planes)@.y,
                old(planes)@.y,
                src.mb_w as int,
                src.mb_h as int,
                f.tiles(f.count()),
                f.lanes_after(f.count()),
            )
        }),
        plans_sound(r@),
        final(planes).wf(src.mb_w as int, src.mb_h as int),
{
    let ghost f = FrameInput { src: *src, seg_ids: seg_ids@, quants: *quants, gates, probas };
    let mb_w: usize = src.mb_w;
    let mb_h: usize = src.mb_h;
    let len: usize = seg_ids.len();
    let ghost y0 = planes@.y;
    let mut plans: Vec<MbPlan> = Vec::new();
    let mut k: usize = 0;
    let mut mb_y: usize = 0;
    while mb_y < mb_h
        invariant
            mb_y <= mb_h,
            mb_w == src.mb_w,
            mb_h == src.mb_h,
            f == (FrameInput { src: *src, seg_ids: seg_ids@, quants: *quants, gates, probas }),
            f.wf(),
            seg_ids@.len() == len,
            k == mb_y * mb_w,
            f.are_plans(plans@, k as int),
            plans_sound(plans@),
            planes.wf(mb_w as int, mb_h as int),
            shows(planes@, mb_w as int, mb_h as int, f.tiles(f.count()), before(k as int)),
            f.scratch_after(planes@.y, y0, k as int),
        decreases mb_h - mb_y,
    {
        let mut mb_x: usize = 0;
        while mb_x < mb_w
            invariant
                mb_x <= mb_w,
                mb_y < mb_h,
                mb_w == src.mb_w,
                mb_h == src.mb_h,
                f == (FrameInput { src: *src, seg_ids: seg_ids@, quants: *quants, gates, probas }),
                f.wf(),
                seg_ids@.len() == len,
                k == mb_y * mb_w + mb_x,
                f.are_plans(plans@, k as int),
                plans_sound(plans@),
                planes.wf(mb_w as int, mb_h as int),
                shows(planes@, mb_w as int, mb_h as int, f.tiles(f.count()), before(k as int)),
                f.scratch_after(planes@.y, y0, k as int),
            decreases mb_w - mb_x,
        {
            proof {
                lemma_raster(mb_w as int, mb_h as int, mb_x as int, mb_y as int);
                lemma_serial_step(f, planes@, k as int);
                lemma_rows_done(mb_w as int, mb_h as int, k as int);
                lemma_scratch_step(
                    planes@.y,
                    y0,
                    mb_w as int,
                    mb_h as int,
                    f.tiles(f.count()),
                    f.lanes_after(k as int),
                    k as int,
                    gates.uses_i4x4,
                    f.input(k as int).luma_rec(),
                );
                assert(f.lanes_after(k + 1) =~= if mb_x == mb_w - 1 {
                    f.lanes_after(k as int).push(gates.uses_i4x4)
                } else {
                    f.lanes_after(k as int)
                });
            }
            let segment: u8 = seg_ids[k];
            let plan: QuantPlan<'_> = quant_plan_of(quants, segment, gates, probas);
            let p: MbPlan = plan_one_mb(
                planes,
                src,
                mb_x,
                mb_y,
                mb_y > 0,
                mb_x > 0,
                mb_x == mb_w - 1,
                segment,
                plan,
                gates,
            );
            plans.push(p);
            k = k + 1;
            mb_x = mb_x + 1;
        }
        assert((mb_y + 1) * mb_w == mb_y * mb_w + mb_w) by (nonlinear_arith);
        mb_y = mb_y + 1;
    }
    assert(mb_h * mb_w == mb_w * mb_h) by (nonlinear_arith);
    plans
}

} // verus!
