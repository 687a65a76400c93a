//! Encoding a frame.
//!
//! A pass plans the frame, chooses its skip coding and loop filter, writes the two
//! partitions behind the frame header, and deblocks the reconstruction as a decoder
//! will. Refinement passes plan again, against the probabilities that the pass before
//! found, and the smallest payload is kept.

use vstd::prelude::*;

use crate::constants::{coeffs_proba_0, default_probas, CoeffProbas, CoeffUpdateFlags};
use crate::decode::FilterHeader;
use crate::effort::{gates_of, Effort, FrameTuning};
use crate::emit::{
    clear_flags, default_tables, emit_best_partitions, emit_partitions, emittable, kept_tables,
    optimized_tables, partitions, Partitions, SkipCoding,
};
use crate::enc_header::{frame_header_bytes, frame_header_spec, HeaderParams, SegmentParams};
use crate::filter_choice::{
    apply_loop_filter, choose_filter, filter_level, is_filter, plans_finfo, resolve_skip,
    segment_filter_deltas, skip_of,
};
use crate::header::filter_type_spec;
use crate::plan::{MbPlan, SearchGates};
use crate::planning::{before, plans_sound, FrameInput};
use crate::quant::{quantizer_of, Quantizer};
use crate::reconstruct::{frame_filtered, luma_stride, Planes, Samples};
use crate::rgb_to_yuv::{
    blocks_of, chroma_plane, from_rgba, luma_plane, picture_fits, SourceYuv, U_COEFF, V_COEFF,
};
use crate::segment::{plan_segmentation, Segmentation};
use crate::sharp_yuv::{refine_chroma, sharp_plane};
use crate::tiles::{lemma_empty_shows, shows};
use crate::wavefront::run_mb_planning;

verus! {

/// Whether `src` holds the planes of a picture.
pub open spec fn is_source(
    src: SourceYuv,
    rgba: Seq<u8>,
    width: int,
    height: int,
    sharp: bool,
) -> bool {
    &&& src.wf()
    &&& src.mb_w == blocks_of(width)
    &&& src.mb_h == blocks_of(height)
    &&& src.y@ == luma_plane(rgba, width, height)
    &&& src.u@ == (if sharp {
        sharp_plane(rgba, width, height, U_COEFF)
    } else {
        chroma_plane(rgba, width, height, U_COEFF)
    })
    &&& src.v@ == (if sharp {
        sharp_plane(rgba, width, height, V_COEFF)
    } else {
        chroma_plane(rgba, width, height, V_COEFF)
    })
}

/// Whether a picture can be encoded: its planes fit, and its sides fit the header.
pub open spec fn encodable(rgba_len: int, width: int, height: int) -> bool {
    &&& picture_fits(rgba_len, width, height)
    &&& width <= 16383
    &&& height <= 16383
}

/// What a frame's plans are made from.
pub struct PlanRequest {
    /// The picture.
    pub rgba: Seq<u8>,
    /// Its width.
    pub width: int,
    /// Its height.
    pub height: int,
    /// The base quantizer index.
    pub base_q: int,
    /// How deep the mode search goes.
    pub gates: SearchGates,
    /// Whether segments may be used.
    pub uses_segments: bool,
    /// The knobs.
    pub tuning: FrameTuning,
    /// The token probabilities that rates are measured against.
    pub probas: CoeffProbas,
}

impl PlanRequest {
    /// Whether a frame input and a segmentation are what the request asks for.
    pub open spec fn asks(&self, f: FrameInput<'_>, seg: Segmentation) -> bool {
        &&& f.wf()
        &&& is_source(f.src, self.rgba, self.width, self.height, self.tuning.sharp_yuv)
        &&& seg.is_plan(f.src, self.base_q, self.uses_segments, self.tuning)
        &&& seg.wf(f.count(), self.base_q)
        &&& f.seg_ids == seg.seg_ids@
        &&& forall|s: int|
            0 <= s < 4 ==> quantizer_of(#[trigger] f.quants@[s], seg.base_q@[s] as int)
        &&& f.gates == self.gates
        &&& *f.probas == self.probas
    }
}

/// A planned frame.
pub struct FramePlan {
    /// The plans, row by row.
    pub plans: Vec<MbPlan>,
    /// What they reconstruct to, before the loop filter.
    pub planes: Planes,
    /// Width in macroblocks.
    pub mb_w: usize,
    /// Height in macroblocks.
    pub mb_h: usize,
    /// The segment header, or nothing for a single segment.
    pub seg_params: Option<SegmentParams>,
    /// The quantizer index of each segment.
    pub seg_base_q: [i32; 4],
}

impl FramePlan {
    /// Whether this is the plan of a frame input.
    pub open spec fn plans(&self, f: FrameInput<'_>, seg: Segmentation) -> bool {
        &&& self.mb_w == f.src.mb_w
        &&& self.mb_h == f.src.mb_h
        &&& f.are_plans(self.plans@, f.count())
        &&& plans_sound(self.plans@)
        &&& self.planes.wf(self.mb_w as int, self.mb_h as int)
        &&& shows(
            self.planes@,
            self.mb_w as int,
            self.mb_h as int,
            f.tiles(f.count()),
            before(f.count()),
        )
        &&& f.leaves_scratch(self.planes@.y)
        &&& self.seg_params == seg.params
        &&& self.seg_base_q == seg.base_q
    }
}

/// The grid of an encodable picture is small.
pub(crate) proof fn lemma_grid_small(width: int, height: int)
    requires
        1 <= width <= 16383,
        1 <= height <= 16383,
    ensures
        1 <= blocks_of(width) <= 1024,
        1 <= blocks_of(height) <= 1024,
        1 <= blocks_of(width) * blocks_of(height) <= 0x10_0000,
        luma_stride(blocks_of(width)) * (1 + blocks_of(height) * 16) <= 0x4000_0000,
{
    let w = blocks_of(width);
    let h = blocks_of(height);
    assert(1 <= w * h <= 0x10_0000) by (nonlinear_arith)
        requires
            1 <= w <= 1024,
            1 <= h <= 1024,
    ;
    let a = luma_stride(w);
    let b = 1 + h * 16;
    assert(a * b <= 0x4000_0000) by (nonlinear_arith)
        requires
            0 <= a <= 20000,
            0 <= b <= 20000,
    ;
}

/// Plan a frame: convert the picture, partition it into segments, and plan every
/// macroblock.
pub fn plan_frame(
    rgba: &[u8],
    width: usize,
    height: usize,
    base_q: i32,
    gates: SearchGates,
    uses_segments: bool,
    tuning: FrameTuning,
    probas: &CoeffProbas,
) -> (r: FramePlan)
    requires
        encodable(rgba@.len() as int, width as int, height as int),
        0 <= base_q <= 127,
    ensures
        r.mb_w == blocks_of(width as int),
        r.mb_h == blocks_of(height as int),
        exists|f: FrameInput<'_>, seg: Segmentation|
            (PlanRequest {
                rgba: rgba@,
                width: width as int,
                height: height as int,
                base_q: base_q as int,
                gates,
                uses_segments,
                tuning,
                probas: *probas,
            }).asks(f, seg) && #[trigger] r.plans(f, seg),
{
    proof {
        lemma_grid_small(width as int, height as int);
    }
    let mut src: SourceYuv = from_rgba(rgba, width, height);
    if tuning.sharp_yuv {
        refine_chroma(rgba, width, height, &mut src);
    }
    let mb_w: usize = src.mb_w;
    let mb_h: usize = src.mb_h;
    let seg: Segmentation = plan_segmentation(&src, base_q, uses_segments, tuning);
    let quants: [Quantizer; 4] = [
        Quantizer::new(seg.base_q[0]),
        Quantizer::new(seg.base_q[1]),
        Quantizer::new(seg.base_q[2]),
        Quantizer::new(seg.base_q[3]),
    ];
    let mut planes: Planes = Planes::new(mb_w, mb_h);
    let ghost f = FrameInput { src, seg_ids: seg.seg_ids@, quants, gates, probas };
    proof {
        assert forall|s: int| 0 <= s < 4 implies (#[trigger] f.quants@[s]).wf() && quantizer_of(
            f.quants@[s],
            seg.base_q@[s] as int,
        ) by {
            if s == 0 {
            } else if s == 1 {
            } else if s == 2 {
            } else {
                assert(s == 3);
            }
        }
        lemma_empty_shows(mb_w as int, mb_h as int, f.tiles(f.count()), before(0));
    }
    let plans: Vec<MbPlan> = run_mb_planning(
        &mut planes,
        &src,
        seg.seg_ids.as_slice(),
        &quants,
        gates,
        probas,
    );
    let r = FramePlan {
        plans,
        planes,
        mb_w,
        mb_h,
        seg_params: seg.params,
        seg_base_q: seg.base_q,
    };
    proof {
        let q = PlanRequest {
            rgba: rgba@,
            width: width as int,
            height: height as int,
            base_q: base_q as int,
            gates,
            uses_segments,
            tuning,
            probas: *probas,
        };
        assert(q.asks(f, seg));
        assert(r.plans(f, seg));
    }
    r
}

/// What one pass works on.
pub struct PassRequest {
    /// The picture.
    pub rgba: Seq<u8>,
    /// Its width.
    pub width: int,
    /// Its height.
    pub height: int,
    /// The base quantizer index.
    pub base_q: i32,
    /// The effort.
    pub effort: Effort,
    /// The knobs.
    pub tuning: FrameTuning,
}

/// How a pass codes the frame.
pub struct PassCode<'a> {
    /// What the plans are made from.
    pub input: FrameInput<'a>,
    /// The segments.
    pub seg: Segmentation,
    /// The plans.
    pub plans: Seq<MbPlan>,
    /// The loop filter.
    pub filter: FilterHeader,
    /// The segment header.
    pub segments: Option<SegmentParams>,
    /// The reconstruction before the loop filter.
    pub unfiltered: Samples,
}

/// What a pass yields.
#[verifier::ext_equal]
pub struct Pass {
    /// The frame's bytes.
    pub payload: Seq<u8>,
    /// The reconstruction.
    pub planes: Samples,
    /// The probabilities that the next pass plans against.
    pub next: Option<CoeffProbas>,
}

impl PassRequest {
    /// The plans' request of a pass against `cost`.
    pub open spec fn plan_request(&self, cost: CoeffProbas) -> PlanRequest {
        PlanRequest {
            rgba: self.rgba,
            width: self.width,
            height: self.height,
            base_q: self.base_q as int,
            gates: gates_of(self.effort, self.tuning.sns_strength),
            uses_segments: self.effort != Effort::Fast,
            tuning: self.tuning,
            probas: cost,
        }
    }

    /// Whether a pass against `cost` codes the frame like `c`.
    pub open spec fn is_code(&self, cost: CoeffProbas, c: PassCode<'_>) -> bool {
        let mb_w = c.input.src.mb_w as int;
        let mb_h = c.input.src.mb_h as int;
        let apply = self.effort != Effort::Fast;
        &&& self.plan_request(cost).asks(c.input, c.seg)
        &&& c.input.are_plans(c.plans, c.input.count())
        &&& plans_sound(c.plans)
        &&& shows(
            c.unfiltered,
            mb_w,
            mb_h,
            c.input.tiles(c.input.count()),
            before(c.input.count()),
        )
        &&& c.input.leaves_scratch(c.unfiltered.y)
        &&& is_filter(
            c.filter,
            self.base_q as int,
            apply,
            self.tuning.filter_strength as int,
            self.tuning.filter_sharpness as int,
        )
        &&& match c.seg.params {
            None => c.segments is None,
            Some(p) => c.segments matches Some(q) && q.quantizer == p.quantizer && q.tree_probs
                == p.tree_probs && forall|s: int|
                0 <= s < 4 ==> #[trigger] q.filter_strength@[s] == filter_level(
                    c.seg.base_q@[s] as int,
                    self.tuning.filter_strength as int,
                    apply,
                ) - c.filter.level,
        }
    }

    /// The header that `c` is written with.
    pub open spec fn header<'a>(&self, c: PassCode<'a>) -> HeaderParams<'a> {
        HeaderParams { base_q: self.base_q, filter: &c.filter, segments: c.segments }
    }

    /// The skip coding of `c`.
    pub open spec fn skip(&self, c: PassCode<'_>) -> SkipCoding {
        skip_of(c.plans, c.input.count(), self.effort != Effort::Fast)
    }

    /// The table that `c` is written with.
    pub open spec fn tables(&self, c: PassCode<'_>) -> (CoeffProbas, CoeffUpdateFlags) {
        if self.effort == Effort::Fast {
            default_tables()
        } else {
            kept_tables(c.plans, c.input.src.mb_w as int, self.header(c), self.skip(c))
        }
    }

    /// The partitions of `c`.
    pub open spec fn parts(&self, c: PassCode<'_>) -> Partitions {
        partitions(
            c.plans,
            c.input.src.mb_w as int,
            self.header(c),
            self.tables(c),
            self.skip(c),
        )
    }

    /// What a pass that codes the frame like `c` yields.
    pub open spec fn result(&self, c: PassCode<'_>) -> Pass {
        let mb_w = c.input.src.mb_w as int;
        let p = self.parts(c);
        Pass {
            payload: frame_bytes(p, self.width, self.height),
            planes: frame_filtered(
                c.unfiltered,
                mb_w,
                plans_finfo(c.filter, c.segments, c.plans, self.skip(c).use_skip),
                filter_type_spec(c.filter.level as int, c.filter.simple),
                c.input.src.mb_h as int,
            ),
            next: if self.effort == Effort::Fast {
                None
            } else {
                Some(optimized_tables(c.plans, mb_w, self.skip(c)).0)
            },
        }
    }

    /// Whether `p` is what a pass against `cost` yields.
    #[verifier::opaque]
    pub open spec fn is_pass(&self, cost: CoeffProbas, p: Pass) -> bool {
        exists|c: PassCode<'_>| #[trigger] self.is_code(cost, c) && p == self.result(c)
    }
}

/// The size that a frame header announces for a partition of `n` bytes.
pub open spec fn announced(n: int) -> int {
    if n > u32::MAX {
        0
    } else {
        n
    }
}

/// A frame's bytes: the header and both partitions.
pub open spec fn frame_bytes(p: Partitions, width: int, height: int) -> Seq<u8> {
    frame_header_spec(announced(p.control.len() as int), width, height) + p.control + p.tokens
}

/// Put a frame together.
fn assemble(part0: Vec<u8>, tokens: Vec<u8>, width: usize, height: usize) -> (r: Vec<u8>)
    requires
        width <= 16383,
        height <= 16383,
    ensures
        r@ == frame_bytes(
            Partitions { control: part0@, tokens: tokens@ },
            width as int,
            height as int,
        ),
{
    let len: usize = part0.len();
    let size: u32 = if len as u64 > u32::MAX as u64 {
        0
    } else {
        len as u32
    };
    let header: [u8; 10] = frame_header_bytes(size, width as u16, height as u16);
    let mut payload: Vec<u8> = Vec::new();
    let mut i: usize = 0;
    while i < 10
        invariant
            i <= 10,
            payload@ == header@.take(i as int),
        decreases 10 - i,
    {
        payload.push(header[i]);
        i = i + 1;
        assert(payload@ =~= header@.take(i as int));
    }
    assert(header@.take(10) =~= header@);
    let mut part0 = part0;
    let mut tokens = tokens;
    payload.append(&mut part0);
    payload.append(&mut tokens);
    payload
}

/// One pass against `cost`: the frame's bytes, its reconstruction, and the probabilities
/// that the next pass plans against (none without probability optimization).
#[verifier::rlimit(60)]
pub fn encode_one_pass(
    rgba: &[u8],
    width: usize,
    height: usize,
    base_q: i32,
    effort: Effort,
    tuning: FrameTuning,
    cost: &CoeffProbas,
) -> (r: (Vec<u8>, Planes, Option<CoeffProbas>))
    requires
        encodable(rgba@.len() as int, width as int, height as int),
        0 <= base_q <= 127,
    ensures
        r.1.wf(blocks_of(width as int), blocks_of(height as int)),
        (PassRequest {
            rgba: rgba@,
            width: width as int,
            height: height as int,
            base_q,
            effort,
            tuning,
        }).is_pass(*cost, Pass { payload: r.0@, planes: r.1@, next: r.2 }),
{
    let gates = SearchGates {
        search_modes: effort.search_modes(),
        uses_i4x4: effort.uses_i4x4(),
        uses_trellis: effort.uses_trellis(),
        sns_strength: tuning.sns_strength,
    };
    let plan: FramePlan = plan_frame(
        rgba,
        width,
        height,
        base_q,
        gates,
        effort.uses_segments(),
        tuning,
        cost,
    );
    let ghost req = PassRequest {
        rgba: rgba@,
        width: width as int,
        height: height as int,
        base_q,
        effort,
        tuning,
    };
    let ghost (f, seg) = choose|f: FrameInput<'_>, seg: Segmentation|
        req.plan_request(*cost).asks(f, seg) && #[trigger] plan.plans(f, seg);
    proof {
        lemma_grid_small(width as int, height as int);
        assert(req.plan_request(*cost).gates == gates);
        assert(req.plan_request(*cost).asks(f, seg) && plan.plans(f, seg));
    }
    let mb_w: usize = plan.mb_w;
    let mb_h: usize = plan.mb_h;
    let ghost before_filter = plan.planes@;
    let mb_plans: Vec<MbPlan> = plan.plans;
    let mut planes: Planes = plan.planes;
    let skip: SkipCoding = resolve_skip(mb_plans.as_slice(), mb_w * mb_h, effort.consider_skip());
    let filter: FilterHeader = choose_filter(
        base_q,
        effort.apply_filter(),
        tuning.filter_strength,
        tuning.filter_sharpness,
    );
    let mut seg_params: Option<SegmentParams> = plan.seg_params;
    if let Some(p) = seg_params {
        let mut q: SegmentParams = p;
        q.filter_strength = segment_filter_deltas(
            filter.level,
            plan.seg_base_q,
            effort.apply_filter(),
            tuning.filter_strength,
        );
        seg_params = Some(q);
    }
    let header = HeaderParams { base_q, filter: &filter, segments: seg_params };
    let ghost c = PassCode {
        input: f,
        seg,
        plans: mb_plans@,
        filter,
        segments: seg_params,
        unfiltered: before_filter,
    };
    proof {
        assert(req.is_code(*cost, c));
        assert(req.header(c) == header);
        assert(req.skip(c) == skip);
        assert forall|k: int| 0 <= k < mb_plans@.len() implies (#[trigger] mb_plans@[k]).segment
            < 4 by {
            assert(f.input(k).is_plan(mb_plans@[k]));
            assert(f.seg_ids[k] < 4);
        }
        assert(emittable(mb_plans@, header));
    }
    let (part0, tokens, next) = if effort.optimize_probas() {
        let (part0, tokens, _default_total, _optimized_total, opt) = emit_best_partitions(
            mb_plans.as_slice(),
            mb_w,
            mb_h,
            header,
            skip,
        );
        (part0, tokens, Some(opt))
    } else {
        let default: CoeffProbas = default_probas();
        let none: CoeffUpdateFlags = clear_flags();
        let (part0, tokens) = emit_partitions(
            mb_plans.as_slice(),
            mb_w,
            mb_h,
            header,
            &default,
            &none,
            skip,
        );
        (part0, tokens, None)
    };
    apply_loop_filter(
        &mut planes,
        mb_plans.as_slice(),
        mb_w,
        mb_h,
        &filter,
        skip.use_skip,
        seg_params,
    );
    let ghost parts = Partitions { control: part0@, tokens: tokens@ };
    let payload: Vec<u8> = assemble(part0, tokens, width, height);
    proof {
        assert(parts =~= req.parts(c));
        let p = Pass { payload: payload@, planes: planes@, next };
        assert(p =~= req.result(c));
        assert(req.is_code(*cost, c) && p == req.result(c));
        reveal(PassRequest::is_pass);
    }
    (payload, planes, next)
}

/// How many passes an encode makes.
pub open spec fn pass_count(effort: Effort, passes: u8) -> int {
    if effort == Effort::Fast || passes < 1 {
        1
    } else {
        passes as int
    }
}

/// Whether `chain` holds passes in order: the first plans against the default
/// probabilities, each further one against what the pass before found.
pub open spec fn is_chain(req: PassRequest, chain: Seq<Pass>) -> bool {
    &&& chain.len() >= 1
    &&& req.is_pass(coeffs_proba_0(), chain[0])
    &&& forall|i: int| 1 <= i < chain.len() ==> #[trigger] follows(req, chain[i - 1], chain[i])
}

/// Whether pass `b` plans against what pass `a` found.
pub open spec fn follows(req: PassRequest, a: Pass, b: Pass) -> bool {
    a.next matches Some(cost) && req.is_pass(cost, b)
}

/// The first of the smallest payloads among the first `n` passes.
pub open spec fn smallest(chain: Seq<Pass>, n: int) -> int
    decreases n,
{
    if n <= 1 {
        0
    } else {
        let best = smallest(chain, n - 1);
        if chain[n - 1].payload.len() < chain[best].payload.len() {
            n - 1
        } else {
            best
        }
    }
}

/// The payload that is kept is no larger than that of any pass; so more passes never
/// cost bytes.
pub proof fn smallest_is_no_larger(chain: Seq<Pass>, n: int, k: int)
    requires
        1 <= n <= chain.len(),
        0 <= k < n,
    ensures
        0 <= smallest(chain, n) < n,
        chain[smallest(chain, n)].payload.len() <= chain[k].payload.len(),
    decreases n,
{
    if n > 1 {
        if k < n - 1 {
            smallest_is_no_larger(chain, n - 1, k);
        } else {
            smallest_is_no_larger(chain, n - 1, 0);
        }
    }
}

/// Whether an encode with the given passes yields a payload and a reconstruction.
pub open spec fn is_encode(req: PassRequest, payload: Seq<u8>, planes: Samples) -> bool {
    exists|chain: Seq<Pass>|
        {
            &&& #[trigger] is_chain(req, chain)
            &&& chain.len() == pass_count(req.effort, req.tuning.passes)
            &&& payload == chain[smallest(chain, chain.len() as int)].payload
            &&& planes == chain[smallest(chain, chain.len() as int)].planes
        }
}

/// Encode a picture: the smallest payload of all passes (the earliest of equals), and
/// its reconstruction.
pub fn encode_frame_impl(
    rgba: &[u8],
    width: usize,
    height: usize,
    base_q: i32,
    effort: Effort,
    tuning: FrameTuning,
) -> (r: (Vec<u8>, Planes))
    requires
        encodable(rgba@.len() as int, width as int, height as int),
        0 <= base_q <= 127,
    ensures
        r.1.wf(blocks_of(width as int), blocks_of(height as int)),
        is_encode(
            PassRequest {
                rgba: rgba@,
                width: width as int,
                height: height as int,
                base_q,
                effort,
                tuning,
            },
            r.0@,
            r.1@,
        ),
{
    let ghost req = PassRequest {
        rgba: rgba@,
        width: width as int,
        height: height as int,
        base_q,
        effort,
        tuning,
    };
    let passes: usize = if !effort.optimize_probas() || tuning.passes < 1 {
        1
    } else {
        tuning.passes as usize
    };
    let default: CoeffProbas = default_probas();
    let (mut best_payload, mut best_planes, mut next) = encode_one_pass(
        rgba,
        width,
        height,
        base_q,
        effort,
        tuning,
        &default,
    );
    let ghost mut chain: Seq<Pass> = seq![
        Pass { payload: best_payload@, planes: best_planes@, next },
    ];
    let mut done: usize = 1;
    while done < passes
        invariant
            1 <= done <= passes,
            passes == pass_count(effort, tuning.passes),
            encodable(rgba@.len() as int, width as int, height as int),
            0 <= base_q <= 127,
            req == (PassRequest {
                rgba: rgba@,
                width: width as int,
                height: height as int,
                base_q,
                effort,
                tuning,
            }),
            is_chain(req, chain),
            chain.len() == done,
            0 <= smallest(chain, done as int) < done,
            chain[done - 1].next == next,
            best_payload@ == chain[smallest(chain, done as int)].payload,
            best_planes@ == chain[smallest(chain, done as int)].planes,
            best_planes.wf(blocks_of(width as int), blocks_of(height as int)),
        decreases passes - done,
    {
        let ghost old_chain = chain;
        match next {
            Some(cost) => {
                let (payload, planes, n) = encode_one_pass(
                    rgba,
                    width,
                    height,
                    base_q,
                    effort,
                    tuning,
                    &cost,
                );
                proof {
                    chain = chain.push(Pass { payload: payload@, planes: planes@, next: n });
                    lemma_chain_push(req, old_chain, chain[done as int], cost);
                }
                if payload.len() < best_payload.len() {
                    best_payload = payload;
                    best_planes = planes;
                }
                next = n;
            },
            None => {
                proof {
                    lemma_next(req, chain, done - 1);
                    assert(false);
                }
            },
        }
        done = done + 1;
    }
    (best_payload, best_planes)
}

/// A further pass.
proof fn lemma_chain_push(req: PassRequest, chain: Seq<Pass>, p: Pass, cost: CoeffProbas)
    requires
        is_chain(req, chain),
        chain.last().next == Some(cost),
        req.is_pass(cost, p),
    ensures
        is_chain(req, chain.push(p)),
        smallest(chain.push(p), chain.len() as int) == smallest(chain, chain.len() as int),
        0 <= smallest(chain.push(p), chain.len() as int + 1) < chain.len() + 1,
{
    let more = chain.push(p);
    let n = chain.len() as int;
    lemma_smallest_prefix(chain, more, n);
    smallest_is_no_larger(more, n + 1, 0);
    assert forall|i: int| 1 <= i < more.len() implies #[trigger] follows(
        req,
        more[i - 1],
        more[i],
    ) by {
        if i < n {
            assert(follows(req, chain[i - 1], chain[i]));
        }
    }
    assert(more[0] == chain[0]);
}

proof fn lemma_smallest_prefix(a: Seq<Pass>, b: Seq<Pass>, n: int)
    requires
        n <= a.len() <= b.len(),
        forall|i: int| 0 <= i < n ==> a[i] == b[i],
    ensures
        smallest(a, n) == smallest(b, n),
    decreases n,
{
    if n > 1 {
        lemma_smallest_prefix(a, b, n - 1);
        smallest_is_no_larger(a, n - 1, 0);
    }
}

/// Every pass with probability optimization finds a table.
proof fn lemma_next(req: PassRequest, chain: Seq<Pass>, i: int)
    requires
        is_chain(req, chain),
        0 <= i < chain.len(),
    ensures
        chain[i].next is None <==> req.effort == Effort::Fast,
{
    reveal(PassRequest::is_pass);
    if i == 0 {
        assert(req.is_pass(coeffs_proba_0(), chain[0]));
    } else {
        assert(follows(req, chain[i - 1], chain[i]));
    }
}

/// Encode a picture with explicit knobs.
pub fn encode_frame_tuned(
    rgba: &[u8],
    width: usize,
    height: usize,
    base_q: i32,
    effort: Effort,
    tuning: FrameTuning,
) -> (r: Vec<u8>)
    requires
        encodable(rgba@.len() as int, width as int, height as int),
        0 <= base_q <= 127,
    ensures
        exists|planes: Samples|
            #[trigger] is_encode(
                PassRequest {
                    rgba: rgba@,
                    width: width as int,
                    height: height as int,
                    base_q,
                    effort,
                    tuning,
                },
                r@,
                planes,
            ),
{
    let (payload, _planes) = encode_frame_impl(rgba, width, height, base_q, effort, tuning);
    payload
}

/// Encode a picture with the automatic knobs.
pub fn encode_frame(rgba: &[u8], width: usize, height: usize, base_q: i32, effort: Effort) -> (r: Vec<
    u8,
>)
    requires
        encodable(rgba@.len() as int, width as int, height as int),
        0 <= base_q <= 127,
    ensures
        exists|tuning: FrameTuning, planes: Samples|
            tuning.is_auto() && #[trigger] is_encode(
                PassRequest {
                    rgba: rgba@,
                    width: width as int,
                    height: height as int,
                    base_q,
                    effort,
                    tuning,
                },
                r@,
                planes,
            ),
{
    encode_frame_tuned(rgba, width, height, base_q, effort, FrameTuning::auto())
}

} // verus!
