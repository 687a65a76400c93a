//! The fastest effort ignores the knobs that steer the searches.

use vstd::prelude::*;

use crate::constants::coeffs_proba_0;
use crate::effort::Effort;
use crate::frame::{is_chain, is_encode, pass_count, smallest, Pass, PassCode, PassRequest};
use crate::plan::{plan_is_unique, MbPlan, PlanInput};
use crate::planning::tile_of;
use crate::quant::{quantizer_of, QPair};
use crate::reconstruct::{empty_plane, luma_stride, Samples};
use crate::residual::{
    ac_quantized, chroma8_coeffs, chroma_quantized, luma16_coeffs, luma_dcs, quantized_block,
    sub_dct, y2_quantized, QuantPlan,
};
use crate::scratch::same_tiles_same_planes;
use crate::unique::quantizer_is_unique;

verus! {

/// Whether requests ask for the same picture at the same quantizer and effort, and differ
/// at most in the strength of the shaping, the number of segments, the strength and the
/// sharpness of the loop filter, and the number of passes.
pub open spec fn same_but_knobs(a: PassRequest, b: PassRequest) -> bool {
    &&& a.rgba == b.rgba
    &&& a.width == b.width
    &&& a.height == b.height
    &&& a.base_q == b.base_q
    &&& a.effort == b.effort
    &&& a.tuning.sharp_yuv == b.tuning.sharp_yuv
}

/// Whether quantization plans quantize alike, to the nearest levels.
spec fn alike(a: QuantPlan<'_>, b: QuantPlan<'_>) -> bool {
    &&& a.quant == b.quant
    &&& !a.uses_trellis
    &&& !b.uses_trellis
}

/// Whether inputs differ only in the strength of the shaping, and nothing is searched.
spec fn twins(i: PlanInput<'_>, j: PlanInput<'_>) -> bool {
    &&& i.edges == j.edges
    &&& i.src == j.src
    &&& i.has_top == j.has_top
    &&& i.has_left == j.has_left
    &&& i.segment == j.segment
    &&& alike(i.plan, j.plan)
    &&& !i.gates.search_modes
    &&& !j.gates.search_modes
    &&& !i.gates.uses_i4x4
    &&& !j.gates.uses_i4x4
}

proof fn lemma_alike(
    coeffs: Seq<i16>,
    pair: QPair,
    first: int,
    plane: int,
    a: QuantPlan<'_>,
    b: QuantPlan<'_>,
)
    requires
        alike(a, b),
    ensures
        quantized_block(coeffs, pair, first, plane, a) == quantized_block(
            coeffs,
            pair,
            first,
            plane,
            b,
        ),
{
}

/// Twins have the same coefficients and blocks.
proof fn lemma_twin_coeffs(i: PlanInput<'_>, j: PlanInput<'_>)
    requires
        twins(i, j),
    ensures
        i.coeffs() == j.coeffs(),
        i.luma_blocks() == j.luma_blocks(),
        i.chroma_blocks() == j.chroma_blocks(),
        y2_quantized(i.src.y, i.luma_pred(), i.plan) == y2_quantized(
            j.src.y,
            j.luma_pred(),
            j.plan,
        ),
{
    let s = i.src.y;
    let p = i.luma_pred();
    assert(p == j.luma_pred());
    assert(i.u_pred() == j.u_pred());
    assert(i.v_pred() == j.v_pred());
    lemma_alike(
        crate::fdct::fwht_spec(luma_dcs(s, p)),
        i.plan.quant.y2,
        0,
        1,
        i.plan,
        j.plan,
    );
    assert forall|k: int| #[trigger] ac_quantized(s, p, i.plan, k) == ac_quantized(
        s,
        p,
        j.plan,
        k,
    ) by {
        lemma_alike(sub_dct(s, p, 16, k), i.plan.quant.y1, 1, 0, i.plan, j.plan);
    }
    assert forall|s: Seq<u8>, p: Seq<u8>, k: int| #[trigger]
        chroma_quantized(s, p, i.plan, k) == chroma_quantized(s, p, j.plan, k) by {
        lemma_alike(sub_dct(s, p, 8, k), i.plan.quant.uv, 0, 2, i.plan, j.plan);
    }
    assert(luma16_coeffs(s, p, i.plan) =~= luma16_coeffs(s, p, j.plan));
    assert(chroma8_coeffs(i.src.u, i.u_pred(), i.plan) =~= chroma8_coeffs(
        i.src.u,
        i.u_pred(),
        j.plan,
    ));
    assert(chroma8_coeffs(i.src.v, i.v_pred(), i.plan) =~= chroma8_coeffs(
        i.src.v,
        i.v_pred(),
        j.plan,
    ));
    assert(i.luma_blocks() =~= j.luma_blocks());
    assert(i.chroma_blocks() =~= j.chroma_blocks());
}

/// Twins have the same plan and tile.
proof fn lemma_twins(i: PlanInput<'_>, j: PlanInput<'_>, p: MbPlan, q: MbPlan)
    requires
        twins(i, j),
    ensures
        tile_of(i) == tile_of(j),
        i.is_plan(p) && j.is_plan(q) ==> p == q,
{
    lemma_twin_coeffs(i, j);
    assert(i.imodes() =~= j.imodes());
    if i.is_plan(p) && j.is_plan(q) {
        assert(j.is_plan(p));
        plan_is_unique(j, p, q);
    }
}

/// The inputs of both requests are twins.
proof fn lemma_inputs(a: PassRequest, b: PassRequest, c: PassCode<'_>, d: PassCode<'_>, n: int)
    requires
        same_but_knobs(a, b),
        a.effort == Effort::Fast,
        a.is_code(coeffs_proba_0(), c),
        b.is_code(coeffs_proba_0(), d),
        0 <= n <= c.input.count(),
    ensures
        c.input.tiles(n) == d.input.tiles(n),
        n < c.input.count() ==> twins(c.input.input(n), d.input.input(n)),
    decreases n,
{
    let f = c.input;
    let g = d.input;
    if n > 0 {
        lemma_inputs(a, b, c, d, n - 1);
        lemma_twins(f.input(n - 1), g.input(n - 1), c.plans[0], d.plans[0]);
    }
    if n < f.count() {
        assert(f.seg_ids[n] == 0 && g.seg_ids[n] == 0);
        assert(quantizer_of(f.quants@[0], c.seg.base_q@[0] as int));
        assert(quantizer_of(g.quants@[0], d.seg.base_q@[0] as int));
        assert(f.quants@[0].wf() && g.quants@[0].wf());
        quantizer_is_unique(f.quants@[0], g.quants@[0], a.base_q as int);
    }
}

/// At the fastest effort, the strength of the shaping, the number of segments, the
/// strength and the sharpness of the loop filter and the number of passes change neither
/// the bytes nor the reconstruction.
pub proof fn fast_ignores_the_knobs(
    a: PassRequest,
    b: PassRequest,
    payload: Seq<u8>,
    planes: Samples,
    payload2: Seq<u8>,
    planes2: Samples,
)
    requires
        same_but_knobs(a, b),
        a.effort == Effort::Fast,
        is_encode(a, payload, planes),
        is_encode(b, payload2, planes2),
    ensures
        payload == payload2,
        planes == planes2,
{
    let ca = choose|chain: Seq<Pass>|
        {
            &&& #[trigger] is_chain(a, chain)
            &&& chain.len() == pass_count(a.effort, a.tuning.passes)
            &&& payload == chain[smallest(chain, chain.len() as int)].payload
            &&& planes == chain[smallest(chain, chain.len() as int)].planes
        };
    let cb = choose|chain: Seq<Pass>|
        {
            &&& #[trigger] is_chain(b, chain)
            &&& chain.len() == pass_count(b.effort, b.tuning.passes)
            &&& payload2 == chain[smallest(chain, chain.len() as int)].payload
            &&& planes2 == chain[smallest(chain, chain.len() as int)].planes
        };
    reveal(PassRequest::is_pass);
    let cost = coeffs_proba_0();
    let c = choose|c: PassCode<'_>| #[trigger] a.is_code(cost, c) && ca[0] == a.result(c);
    let d = choose|d: PassCode<'_>| #[trigger] b.is_code(cost, d) && cb[0] == b.result(d);
    lemma_same_result(a, b, c, d);
}

proof fn lemma_same_result(a: PassRequest, b: PassRequest, c: PassCode<'_>, d: PassCode<'_>)
    requires
        same_but_knobs(a, b),
        a.effort == Effort::Fast,
        a.is_code(coeffs_proba_0(), c),
        b.is_code(coeffs_proba_0(), d),
    ensures
        a.result(c).payload == b.result(d).payload,
        a.result(c).planes == b.result(d).planes,
{
    let f = c.input;
    let n = f.count();
    assert forall|k: int| 0 <= k < n implies c.plans[k] == d.plans[k] by {
        lemma_inputs(a, b, c, d, k);
        assert(f.input(k).is_plan(c.plans[k]));
        assert(d.input.input(k).is_plan(d.plans[k]));
        lemma_twins(f.input(k), d.input.input(k), c.plans[k], d.plans[k]);
    }
    assert(c.plans =~= d.plans);
    assert(c.filter.ref_lf_delta =~= d.filter.ref_lf_delta);
    assert(c.filter.mode_lf_delta =~= d.filter.mode_lf_delta);
    assert(c.filter == d.filter);
    assert(c.segments is None && d.segments is None);
    assert(a.header(c) == b.header(d));
    assert(a.skip(c) == b.skip(d));
    assert(0 <= n) by (nonlinear_arith)
        requires
            n == f.src.mb_w * f.src.mb_h,
    ;
    lemma_inputs(a, b, c, d, n);
    let mb_w = f.src.mb_w as int;
    let mb_h = f.src.mb_h as int;
    same_tiles_same_planes(
        c.unfiltered,
        d.unfiltered,
        empty_plane(luma_stride(mb_w), 1 + mb_h * 16),
        mb_w,
        mb_h,
        f.tiles(n),
        f.lanes(),
    );
}

} // verus!
