//! Encoding and decoding are functions.
//!
//! The contracts of the encoder and the decoder say what their results are made of;
//! these laws say that there is only one such result, down to the scratch columns of the
//! planes.

use vstd::prelude::*;

use crate::coder::{dec_init, DecState};
use crate::constants::{coeffs_proba_0, CoeffProbas};
use crate::decode::Frame;
use crate::emit::lemma_probas_ext;
use crate::frame::{
    follows, is_chain, is_encode, pass_count, smallest, Pass, PassCode, PassRequest, PlanRequest,
};
use crate::frame_header::{header_fields, is_key_frame_header};
use crate::frame_read::{frame_read, is_decode, is_head, read_lanes};
use crate::header::{filter_state, proba_entry, segment_state};
use crate::plan::plan_is_unique;
use crate::planning::{before, FrameInput};
use crate::quant::{quantizer_of, Quantizer};
use crate::reconstruct::{empty_plane, frame_filtered, luma_stride, Samples};
use crate::rgb_to_yuv::blocks_of;
use crate::roundtrip::lemma_smallest_range;
use crate::scratch::same_tiles_same_planes;
use crate::segment::{activities, Segmentation};
use crate::tiles::shows;

verus! {

/// Quantizers for the same index are equal.
pub proof fn quantizer_is_unique(a: Quantizer, b: Quantizer, q: int)
    requires
        a.wf(),
        b.wf(),
        quantizer_of(a, q),
        quantizer_of(b, q),
    ensures
        a == b,
{
}

/// Segmentations for the same request are equal.
proof fn lemma_seg_unique(
    q: PlanRequest,
    f: FrameInput<'_>,
    s: Segmentation,
    g: FrameInput<'_>,
    t: Segmentation,
)
    requires
        q.asks(f, s),
        q.asks(g, t),
    ensures
        s.seg_ids@ == t.seg_ids@,
        s.base_q == t.base_q,
        s.params == t.params,
{
    let n = f.count();
    assert(activities(f.src, n) =~= activities(g.src, n));
    assert(s.seg_ids@ =~= t.seg_ids@);
    assert(s.base_q@ =~= t.base_q@);
    assert(s.base_q =~= t.base_q);
    if s.params is Some {
        let a = s.params->0;
        let b = t.params->0;
        assert(a.quantizer@ =~= b.quantizer@);
        assert(a.quantizer =~= b.quantizer);
        assert(a.filter_strength@ =~= b.filter_strength@);
        assert(a.filter_strength =~= b.filter_strength);
        assert(a.tree_probs@ =~= b.tree_probs@);
        assert(a.tree_probs =~= b.tree_probs);
    }
}

/// Inputs for the same request give every macroblock the same input.
proof fn lemma_input_unique(
    q: PlanRequest,
    f: FrameInput<'_>,
    s: Segmentation,
    g: FrameInput<'_>,
    t: Segmentation,
    n: int,
)
    requires
        q.asks(f, s),
        q.asks(g, t),
        0 <= n <= f.count(),
    ensures
        f.tiles(n) == g.tiles(n),
        n < f.count() ==> f.input(n) == g.input(n),
    decreases n,
{
    lemma_seg_unique(q, f, s, g, t);
    if n > 0 {
        lemma_input_unique(q, f, s, g, t, n - 1);
    }
    if n < f.count() {
        let k = f.seg_ids[n] as int;
        assert(f.seg_ids[n] < 4);
        assert(quantizer_of(f.quants@[k], s.base_q@[k] as int));
        assert(quantizer_of(g.quants@[k], t.base_q@[k] as int));
        assert(f.quants@[k].wf());
        assert(g.quants@[k].wf());
        quantizer_is_unique(f.quants@[k], g.quants@[k], s.base_q@[k] as int);
    }
}

/// The codes of the same pass have the same plans and headers, and reconstruct alike.
proof fn lemma_code_unique(req: PassRequest, cost: CoeffProbas, a: PassCode<'_>, b: PassCode<'_>)
    requires
        req.is_code(cost, a),
        req.is_code(cost, b),
    ensures
        a.plans == b.plans,
        a.filter == b.filter,
        a.segments == b.segments,
        a.input.src.mb_w == b.input.src.mb_w,
        a.input.src.mb_h == b.input.src.mb_h,
        a.unfiltered == b.unfiltered,
{
    let q = req.plan_request(cost);
    let f = a.input;
    let g = b.input;
    let n = f.count();
    lemma_seg_unique(q, f, a.seg, g, b.seg);
    assert forall|k: int| 0 <= k < n implies a.plans[k] == b.plans[k] by {
        lemma_input_unique(q, f, a.seg, g, b.seg, k);
        assert(f.input(k).is_plan(a.plans[k]));
        assert(g.input(k).is_plan(b.plans[k]));
        plan_is_unique(f.input(k), a.plans[k], b.plans[k]);
    }
    assert(a.plans =~= b.plans);
    assert(a.filter.ref_lf_delta =~= b.filter.ref_lf_delta);
    assert(a.filter.mode_lf_delta =~= b.filter.mode_lf_delta);
    if a.segments is Some {
        let x = a.segments->0;
        let y = b.segments->0;
        assert(x.filter_strength@ =~= y.filter_strength@);
        assert(x.filter_strength =~= y.filter_strength);
    }
    assert(0 <= n) by (nonlinear_arith)
        requires
            n == f.src.mb_w * f.src.mb_h,
    ;
    lemma_input_unique(q, f, a.seg, g, b.seg, n);
    same_tiles_same_planes(
        a.unfiltered,
        b.unfiltered,
        empty_plane(luma_stride(f.src.mb_w as int), 1 + f.src.mb_h * 16),
        f.src.mb_w as int,
        f.src.mb_h as int,
        f.tiles(n),
        f.lanes(),
    );
}

/// A pass has one payload, finds one table, and has one reconstruction.
pub proof fn pass_is_unique(req: PassRequest, cost: CoeffProbas, a: Pass, b: Pass)
    requires
        req.is_pass(cost, a),
        req.is_pass(cost, b),
    ensures
        a.payload == b.payload,
        a.next == b.next,
        a.planes == b.planes,
{
    reveal(PassRequest::is_pass);
    let c = choose|c: PassCode<'_>| #[trigger] req.is_code(cost, c) && a == req.result(c);
    let d = choose|d: PassCode<'_>| #[trigger] req.is_code(cost, d) && b == req.result(d);
    lemma_code_unique(req, cost, c, d);
    assert(req.header(c) == req.header(d));
    assert(req.skip(c) == req.skip(d));
}

/// Chains of the same request agree pass by pass.
proof fn lemma_chain_unique(req: PassRequest, a: Seq<Pass>, b: Seq<Pass>, i: int)
    requires
        is_chain(req, a),
        is_chain(req, b),
        a.len() == b.len(),
        0 <= i < a.len(),
    ensures
        a[i].payload == b[i].payload,
        a[i].next == b[i].next,
        a[i].planes == b[i].planes,
    decreases i,
{
    if i == 0 {
        pass_is_unique(req, coeffs_proba_0(), a[0], b[0]);
    } else {
        lemma_chain_unique(req, a, b, i - 1);
        assert(follows(req, a[i - 1], a[i]));
        assert(follows(req, b[i - 1], b[i]));
        pass_is_unique(req, a[i - 1].next->0, a[i], b[i]);
    }
}

proof fn lemma_smallest_unique(a: Seq<Pass>, b: Seq<Pass>, n: int)
    requires
        1 <= n <= a.len(),
        a.len() == b.len(),
        forall|i: int| 0 <= i < a.len() ==> (#[trigger] a[i]).payload == b[i].payload,
    ensures
        smallest(a, n) == smallest(b, n),
    decreases n,
{
    if n > 1 {
        lemma_smallest_unique(a, b, n - 1);
        lemma_smallest_range(a, n - 1);
        let best = smallest(a, n - 1);
        assert(a[best].payload == b[best].payload);
        assert(a[n - 1].payload == b[n - 1].payload);
    }
}

/// The same picture, quantizer, effort and knobs always encode to the same bytes and the
/// same reconstruction.
pub proof fn encode_is_unique(
    req: PassRequest,
    payload: Seq<u8>,
    planes: Samples,
    payload2: Seq<u8>,
    planes2: Samples,
)
    requires
        is_encode(req, payload, planes),
        is_encode(req, payload2, planes2),
    ensures
        payload == payload2,
        planes == planes2,
{
    let a = choose|chain: Seq<Pass>|
        {
            &&& #[trigger] is_chain(req, chain)
            &&& chain.len() == pass_count(req.effort, req.tuning.passes)
            &&& payload == chain[smallest(chain, chain.len() as int)].payload
            &&& planes == chain[smallest(chain, chain.len() as int)].planes
        };
    let b = choose|chain: Seq<Pass>|
        {
            &&& #[trigger] is_chain(req, chain)
            &&& chain.len() == pass_count(req.effort, req.tuning.passes)
            &&& payload2 == chain[smallest(chain, chain.len() as int)].payload
            &&& planes2 == chain[smallest(chain, chain.len() as int)].planes
        };
    let n = a.len() as int;
    assert forall|i: int| 0 <= i < n implies (#[trigger] a[i]).payload == b[i].payload by {
        lemma_chain_unique(req, a, b, i);
    }
    lemma_smallest_unique(a, b, n);
    lemma_smallest_range(a, n);
    lemma_chain_unique(req, a, b, smallest(a, n));
}

/// Frames that hold the same header agree on everything that decoding reads.
proof fn lemma_head_unique(f: Frame, g: Frame, d: DecState, x: DecState, y: DecState)
    requires
        is_head(f, d, x),
        is_head(g, d, y),
    ensures
        x == y,
        f.segment == g.segment,
        f.filter == g.filter,
        f.filter_type == g.filter_type,
        f.num_parts == g.num_parts,
        f.dqm@ == g.dqm@,
        f.proba.bands == g.proba.bands,
        f.proba.use_skip == g.proba.use_skip,
        f.proba.skip_p == g.proba.skip_p,
        f.proba.segments == g.proba.segments,
{
    let s = segment_state(f);
    let t = segment_state(g);
    assert(s == t);
    assert forall|i: int| 0 <= i < 4 implies f.segment.quantizer@[i] == g.segment.quantizer@[i]
        && f.segment.filter_strength@[i] == g.segment.filter_strength@[i] by {
        assert(s.quantizer[i] == t.quantizer[i]);
        assert(s.strength[i] == t.strength[i]);
    }
    assert(f.segment.quantizer =~= g.segment.quantizer);
    assert(f.segment.filter_strength =~= g.segment.filter_strength);
    assert forall|i: int| 0 <= i < 3 implies f.proba.segments@[i] == g.proba.segments@[i] by {
        assert(s.probs[i] == t.probs[i]);
    }
    assert(f.proba.segments =~= g.proba.segments);
    let u = filter_state(f);
    let v = filter_state(g);
    assert(u == v);
    assert forall|i: int| 0 <= i < 4 implies f.filter.ref_lf_delta@[i] == g.filter.ref_lf_delta@[i]
        && f.filter.mode_lf_delta@[i] == g.filter.mode_lf_delta@[i] by {
        assert(u.refs[i] == v.refs[i]);
        assert(u.modes[i] == v.modes[i]);
    }
    assert(f.filter.ref_lf_delta =~= g.filter.ref_lf_delta);
    assert(f.filter.mode_lf_delta =~= g.filter.mode_lf_delta);
    assert forall|i: int| 0 <= i < 4 implies f.dqm@[i] == g.dqm@[i] by {
        let a = f.dqm@[i];
        let b = g.dqm@[i];
        assert(a.y1@ =~= b.y1@ && a.y2@ =~= b.y2@ && a.uv@ =~= b.uv@);
        assert(a.y1 =~= b.y1 && a.y2 =~= b.y2 && a.uv =~= b.uv);
    }
    assert(f.dqm@ =~= g.dqm@);
    assert forall|k: int| 0 <= k < 1056 implies #[trigger] proba_entry(f.proba.bands, k)
        == proba_entry(g.proba.bands, k) by {}
    lemma_probas_ext(f.proba.bands, g.proba.bands);
}

/// The same bytes always decode to the same planes, and so to the same pixels.
pub proof fn decode_is_unique(payload: Seq<u8>, a: Samples, b: Samples)
    requires
        is_key_frame_header(payload),
        is_decode(payload, a),
        is_decode(payload, b),
    ensures
        a == b,
{
    let h = header_fields(payload);
    let start = 10 + h.first_partition_size as int;
    let control = payload.subrange(10, start);
    let after = payload.subrange(start, payload.len() as int);
    let mb_w = blocks_of(h.width as int);
    let mb_h = blocks_of(h.height as int);
    let (f, x, s) = choose|f: Frame, x: DecState, s: Samples|
        {
            &&& #[trigger] is_head(f, dec_init(control), x)
            &&& f.mb_w == mb_w
            &&& f.mb_h == mb_h
            &&& #[trigger] shows(
                s,
                f.mb_w as int,
                f.mb_h as int,
                frame_read(f, x, after).tiles(f.mb_w as int),
                before(f.mb_w * f.mb_h),
            )
            &&& frame_read(f, x, after).leaves_scratch(s.y, f.mb_w as int, f.mb_h as int)
            &&& a == frame_filtered(
                s,
                f.mb_w as int,
                frame_read(f, x, after).finfo(f),
                f.filter_type,
                f.mb_h as int,
            )
        };
    let (g, y, t) = choose|g: Frame, y: DecState, t: Samples|
        {
            &&& #[trigger] is_head(g, dec_init(control), y)
            &&& g.mb_w == mb_w
            &&& g.mb_h == mb_h
            &&& #[trigger] shows(
                t,
                g.mb_w as int,
                g.mb_h as int,
                frame_read(g, y, after).tiles(g.mb_w as int),
                before(g.mb_w * g.mb_h),
            )
            &&& frame_read(g, y, after).leaves_scratch(t.y, g.mb_w as int, g.mb_h as int)
            &&& b == frame_filtered(
                t,
                g.mb_w as int,
                frame_read(g, y, after).finfo(g),
                g.filter_type,
                g.mb_h as int,
            )
        };
    lemma_head_unique(f, g, dec_init(control), x, y);
    let r = frame_read(f, x, after);
    assert(r == frame_read(g, y, after));
    assert(r.finfo(f) =~= r.finfo(g));
    same_tiles_same_planes(
        s,
        t,
        empty_plane(luma_stride(mb_w), 1 + mb_h * 16),
        mb_w,
        mb_h,
        r.tiles(mb_w),
        read_lanes(r.infos, mb_w, mb_w * mb_h),
    );
}

} // verus!
