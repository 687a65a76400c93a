//! Decoding inverts encoding.
//!
//! A decoder reads back the modes and coefficients that were written, reconstructs the
//! same tiles from them and deblocks them alike, so the decoded frame is the encoder's
//! own reconstruction.

use vstd::prelude::*;

use vstd::arithmetic::power2::lemma2_to64;

use crate::bool_dec::{read_literal_inverts_put_literal, read_literal_spec};
use crate::bool_enc::literal_syms;
use crate::coder::{
    coded_bytes_decode, dec_after, dec_init, dec_step, decodes, lemma_decodes_concat, DecState, Sym,
};
use crate::coeff_laws::{codes_tell_residual, plan_dequantizes, skippable_has_no_coefficients};
use crate::constants::{coeffs_proba_0, CoeffProbas, CoeffUpdateFlags};
use crate::decode::{FilterHeader, Frame};
use crate::emit::{
    coding_of, control_partition, info_of, infos_of, lemma_probas_ext, mode_context, modes_syms,
    nz_after, nz_context, residual_syms, skips, tables_cover, token_partition, tokens_syms, Nz,
    Partitions, SkipCoding,
};
use crate::enc_header::{
    control_syms, filter_header_read_inverts, filter_header_syms, frame_header_spec, lemma_one,
    parse_inverts_frame_header_bytes, proba_syms, probas_read_inverts, quant_read_inverts,
    quant_syms, segment_header_read_inverts, segment_header_syms, segments_ok, skip_read_inverts,
    skip_syms, written_segment_state, HeaderParams,
};
use crate::filter_choice::{level_in_segment, plan_finfo, plans_finfo};
use crate::frame::{
    follows, frame_bytes, is_chain, is_encode, lemma_grid_small, pass_count, smallest, Pass,
    PassCode, PassRequest,
};
use crate::frame_header::{header_fields, is_key_frame_header};
use crate::frame_read::{
    announced_parts, frame_read, fresh_filter, fresh_segment, is_decode, is_head, is_truncated,
    kept_info, modes_read, read_finfo, read_tiles, residual_coding, residual_read, residuals_read,
    tile_from, Residual, ResidualCoding,
};
use crate::header::{
    filter_header_read, filter_state, filter_type_spec, no_deltas, partition_bytes, proba_entry,
    segment_header_read, segment_q, segment_state, steps_of, FilterState,
};
use crate::margin::{
    filter_keeps_same_picture, same_picture, same_picture_same_pixels, same_tiles_same_picture,
};
use crate::mb::{
    column, mode_coding, mode_ok, mode_read_inverts, mode_syms, ModeCoding, ModeInfo,
};
use crate::plan::{plan_sound, MbPlan, PlanInput};
use crate::planning::{before, plans_sound, tile_of, FrameInput};
use crate::quant::{quantizer_matches_decoder, quantizer_of};
use crate::reconstruct::{base_level, frame_filtered, picture_of, Samples};
use crate::residual::sound_block;
use crate::rgb_to_yuv::blocks_of;
use crate::table_laws::kept_tables_are_readable;
use crate::tiles::shows;
use crate::token_laws::{block_ok, mb_ok, mb_read_inverts};
use crate::tokens::{luma_first, word_flags};
use crate::yuv::rgba_image;

verus! {

/// Whether `r` holds the modes of `m`: all that is transmitted.
pub open spec fn same_modes(r: ModeInfo, m: ModeInfo) -> bool {
    &&& r.segment == m.segment
    &&& r.skip == m.skip
    &&& r.is_i4x4 == m.is_i4x4
    &&& r.uvmode == m.uvmode
    &&& r.imodes.len() == 16
    &&& (if m.is_i4x4 {
        r.imodes == m.imodes
    } else {
        r.imodes[0] == m.imodes[0]
    })
}

/// Whether modes can be coded and read back under `c`.
pub open spec fn modes_codable(c: ModeCoding, infos: Seq<ModeInfo>) -> bool {
    forall|j: int|
        0 <= j < infos.len() ==> {
            &&& mode_ok(#[trigger] infos[j])
            &&& (c.segments is None ==> infos[j].segment == 0)
            &&& (c.skip is None ==> !infos[j].skip)
        }
}

/// The modes of the first `k` macroblocks read back.
pub proof fn modes_read_inverts(c: ModeCoding, d: DecState, infos: Seq<ModeInfo>, mb_w: int, k: int)
    requires
        1 <= mb_w,
        0 <= k <= infos.len(),
        modes_codable(c, infos),
        decodes(d, modes_syms(c, infos, mb_w, k)),
    ensures
        ({
            let r = modes_read(c, d, mb_w, k);
            let ctx = mode_context(infos, mb_w, k);
            &&& r.d == dec_after(d, modes_syms(c, infos, mb_w, k))
            &&& r.infos.len() == k
            &&& forall|j: int| 0 <= j < k ==> same_modes(#[trigger] r.infos[j], infos[j])
            &&& r.top == ctx.top
            &&& r.left == ctx.left
        }),
    decreases k,
{
    if k > 0 {
        let ctx = mode_context(infos, mb_w, k - 1);
        let x = (k - 1) % mb_w;
        let m = infos[k - 1];
        let head = modes_syms(c, infos, mb_w, k - 1);
        let tail = mode_syms(c, m, column(ctx.top, x), ctx.left);
        lemma_decodes_concat(d, head, tail);
        modes_read_inverts(c, d, infos, mb_w, k - 1);
        let r = modes_read(c, d, mb_w, k - 1);
        let prev = kept_info(r.infos, mb_w, k - 1);
        assert(prev.imodes.len() == 16 && (c.skip is None ==> !prev.skip)) by {
            if k - 1 >= mb_w {
                assert(same_modes(r.infos[k - 1 - mb_w], infos[k - 1 - mb_w]));
                assert(mode_ok(infos[k - 1 - mb_w]));
            }
        }
        assert(mode_ok(m));
        mode_read_inverts(r.d, c, m, prev, column(r.top, x), r.left);
        let next = modes_read(c, d, mb_w, k);
        assert forall|j: int| 0 <= j < k implies same_modes(#[trigger] next.infos[j], infos[j]) by {
            if j < k - 1 {
                assert(next.infos[j] == r.infos[j]);
            }
        }
        assert(same_modes(next.infos[k - 1], m));
    }
}

/// The tokens of a sound plan can be coded and read back.
pub proof fn lemma_sound_tokens(p: MbPlan)
    requires
        plan_sound(p),
    ensures
        mb_ok(p.tokens),
{
    let t = p.tokens;
    assert forall|i: int| 0 <= i < 16 implies block_ok(
        #[trigger] t.luma@[i],
        luma_first(t.is_i4x4),
    ) by {
        assert(sound_block(t.luma@[i], if p.is_i4x4 { 0 } else { 1 }));
    }
    assert forall|i: int| 0 <= i < 8 implies block_ok(#[trigger] t.chroma@[i], 0) by {
        assert(sound_block(t.chroma@[i], 0));
    }
}

/// Whether a residual that was read is that of plan `p` with input `i`.
pub open spec fn is_residual(b: Residual, i: PlanInput<'_>, p: MbPlan, use_skip: bool) -> bool {
    &&& b.coeffs == i.coeffs()
    &&& (!skips(p, use_skip) ==> ((b.code_y == 0 && b.code_uv == 0) <==> !p.has_residual))
}

/// Whether a flag context covers a row of `mb_w` columns.
pub open spec fn nz_sized(s: Nz, mb_w: int) -> bool {
    s.top.len() == mb_w && s.top_dc.len() == mb_w
}

/// One macroblock's residual read back: its coefficients, and the flags and the decoder
/// behind it.
pub proof fn residual_read_inverts(
    c: ResidualCoding,
    info: ModeInfo,
    s: Nz,
    x: int,
    d: DecState,
    i: PlanInput<'_>,
    p: MbPlan,
    use_skip: bool,
)
    requires
        0 <= x < c.mb_w,
        nz_sized(s, c.mb_w),
        same_modes(info, info_of(p, use_skip)),
        i.is_plan(p),
        plan_sound(p),
        i.plan.quant.wf(),
        i.plan.quant.matches(c.dqm[p.segment as int]),
        decodes(d, residual_syms(c.bands, p, use_skip, s, x)),
    ensures
        ({
            let (b, nz, d1) = residual_read(c, info, s, x, d);
            &&& is_residual(b, i, p, use_skip)
            &&& nz == nz_after(s, p, use_skip, x)
            &&& nz_sized(nz, c.mb_w)
            &&& d1 == dec_after(d, residual_syms(c.bands, p, use_skip, s, x))
        }),
{
    let (b, nz, d1) = residual_read(c, info, s, x, d);
    if skips(p, use_skip) {
        skippable_has_no_coefficients(i, p);
        assert(!p.is_i4x4);
        assert(nz =~= nz_after(s, p, use_skip, x));
    } else {
        let m = c.dqm[p.segment as int];
        let top = word_flags(s.top[x]);
        let left = word_flags(s.left);
        let dc_ctx = s.top_dc[x] + s.left_dc;
        lemma_sound_tokens(p);
        mb_read_inverts(d, c.bands, m, p.tokens, top, left, dc_ctx);
        plan_dequantizes(i, p, m);
        codes_tell_residual(d, c.bands, i, p, m, top, left, dc_ctx);
        assert(nz =~= nz_after(s, p, use_skip, x));
    }
}

/// The residuals of the first `k` macroblocks read back from one partition.
pub proof fn residuals_read_inverts(
    c: ResidualCoding,
    infos: Seq<ModeInfo>,
    d: DecState,
    f: FrameInput<'_>,
    plans: Seq<MbPlan>,
    use_skip: bool,
    k: int,
)
    requires
        f.wf(),
        f.are_plans(plans, f.count()),
        plans_sound(plans),
        c.mb_w == f.src.mb_w,
        c.count == 1,
        infos.len() == f.count(),
        forall|j: int|
            0 <= j < infos.len() ==> same_modes(#[trigger] infos[j], info_of(plans[j], use_skip)),
        forall|t: int| 0 <= t < 4 ==> (#[trigger] f.quants@[t]).matches(c.dqm[t]),
        0 <= k <= f.count(),
        decodes(d, tokens_syms(c.bands, plans, use_skip, c.mb_w, k)),
    ensures
        ({
            let r = residuals_read(c, infos, seq![d], k);
            &&& r.blocks.len() == k
            &&& forall|j: int|
                0 <= j < k ==> is_residual(#[trigger] r.blocks[j], f.input(j), plans[j], use_skip)
            &&& r.nz == nz_context(plans, use_skip, c.mb_w, k)
            &&& nz_sized(r.nz, c.mb_w)
            &&& r.parts == seq![dec_after(d, tokens_syms(c.bands, plans, use_skip, c.mb_w, k))]
        }),
    decreases k,
{
    if k > 0 {
        let t = k - 1;
        let x = t % c.mb_w;
        let s = nz_context(plans, use_skip, c.mb_w, t);
        let head = tokens_syms(c.bands, plans, use_skip, c.mb_w, t);
        let tail = residual_syms(c.bands, plans[t], use_skip, s, x);
        lemma_decodes_concat(d, head, tail);
        residuals_read_inverts(c, infos, d, f, plans, use_skip, t);
        let r = residuals_read(c, infos, seq![d], t);
        let i = f.input(t);
        assert(i.is_plan(plans[t]));
        assert(plan_sound(plans[t]));
        assert(f.seg_ids[t] < 4);
        assert(f.quants@[f.seg_ids[t] as int].wf());
        assert(f.quants@[f.seg_ids[t] as int].matches(c.dqm[f.seg_ids[t] as int]));
        assert(same_modes(infos[t], info_of(plans[t], use_skip)));
        assert((t / c.mb_w) % c.count == 0);
        assert(0 <= x < c.mb_w) by (nonlinear_arith)
            requires
                x == t % c.mb_w,
                1 <= c.mb_w,
        ;
        residual_read_inverts(c, infos[t], s, x, r.parts[0], i, plans[t], use_skip);
        let next = residuals_read(c, infos, seq![d], k);
        assert forall|j: int| 0 <= j < k implies is_residual(
            #[trigger] next.blocks[j],
            f.input(j),
            plans[j],
            use_skip,
        ) by {
            if j < t {
                assert(next.blocks[j] == r.blocks[j]);
            }
        }
        assert(next.parts =~= seq![
            dec_after(d, tokens_syms(c.bands, plans, use_skip, c.mb_w, k)),
        ]);
    }
}

/// A header that can be written and read back.
pub open spec fn header_ok(header: HeaderParams<'_>) -> bool {
    &&& segments_ok(header.segments)
    &&& 0 <= header.filter.level < 64
    &&& 0 <= header.filter.sharpness < 8
    &&& 0 <= header.base_q < 128
}

/// The symbols of a control header, up to the token partition count.
spec fn head_syms(header: HeaderParams<'_>) -> Seq<Sym> {
    seq![(128u8, false), (128u8, false)] + segment_header_syms(header.segments)
        + filter_header_syms(*header.filter) + literal_syms(0, 2)
}

/// The head of a control header read back.
proof fn lemma_head_start(d: DecState, header: HeaderParams<'_>)
    requires
        header_ok(header),
        decodes(d, head_syms(header)),
    ensures
        ({
            let d1 = dec_step(d, 128).1;
            let d2 = dec_step(d1, 128).1;
            let (seg, d3) = segment_header_read(d2, fresh_segment());
            let (filter, d4) = filter_header_read(d3, fresh_filter());
            let (code, d5) = read_literal_spec(d4, 2);
            &&& seg == written_segment_state(header.segments, fresh_segment())
            &&& filter == written_filter(*header.filter)
            &&& code == 0
            &&& d5 == dec_after(d, head_syms(header))
        }),
{
    let s1: Seq<Sym> = seq![(128u8, false), (128u8, false)];
    let s2 = segment_header_syms(header.segments);
    let s3 = filter_header_syms(*header.filter);
    let s4 = literal_syms(0, 2);
    lemma_decodes_concat(d, s1 + s2 + s3, s4);
    lemma_decodes_concat(d, s1 + s2, s3);
    lemma_decodes_concat(d, s1, s2);
    let one: Seq<Sym> = seq![(128u8, false)];
    assert(s1 =~= one + one);
    lemma_decodes_concat(d, one, one);
    lemma_one(d, (128u8, false));
    let d1 = dec_step(d, 128).1;
    lemma_one(d1, (128u8, false));
    let d2 = dec_step(d1, 128).1;
    assert(d2 == dec_after(d, s1));
    segment_header_read_inverts(d2, header.segments, fresh_segment());
    let d3 = dec_after(d, s1 + s2);
    filter_header_read_inverts(d3, *header.filter, fresh_filter());
    lemma2_to64();
    read_literal_inverts_put_literal(dec_after(d, s1 + s2 + s3), 0, 2);
}

/// The filter state that a written filter header stands for.
pub open spec fn written_filter(f: FilterHeader) -> FilterState {
    FilterState {
        simple: f.simple,
        level: f.level as int,
        sharpness: f.sharpness as int,
        use_lf_delta: false,
        refs: fresh_filter().refs,
        modes: fresh_filter().modes,
    }
}

/// A control header read back: a frame that holds what the header says holds what was
/// written, and the decoder is right behind it.
pub proof fn head_read_inverts(
    f: Frame,
    d: DecState,
    end: DecState,
    header: HeaderParams<'_>,
    tables: (CoeffProbas, CoeffUpdateFlags),
    skip: SkipCoding,
)
    requires
        is_head(f, d, end),
        header_ok(header),
        tables_cover(tables),
        decodes(d, control_syms(header, tables.0, tables.1, skip.use_skip, skip.skip_p)),
    ensures
        end == dec_after(d, control_syms(header, tables.0, tables.1, skip.use_skip, skip.skip_p)),
        segment_state(f) == written_segment_state(header.segments, fresh_segment()),
        filter_state(f) == written_filter(*header.filter),
        f.filter_type == filter_type_spec(header.filter.level as int, header.filter.simple),
        f.num_parts == 1,
        forall|i: int|
            0 <= i < 4 ==> steps_of(
                #[trigger] f.dqm@[i],
                segment_q(f, header.base_q as int, i),
                no_deltas(),
            ),
        f.proba.bands == tables.0,
        f.proba.use_skip == skip.use_skip,
        skip.use_skip ==> f.proba.skip_p == skip.skip_p,
{
    let s1 = head_syms(header);
    let s2 = quant_syms(header.base_q as int);
    let s3: Seq<Sym> = seq![(128u8, false)];
    let s4 = proba_syms(tables.0, tables.1, 1056);
    let s5 = skip_syms(skip.use_skip, skip.skip_p);
    assert(control_syms(header, tables.0, tables.1, skip.use_skip, skip.skip_p) == s1 + s2 + s3 + s4
        + s5);
    lemma_decodes_concat(d, s1 + s2 + s3 + s4, s5);
    lemma_decodes_concat(d, s1 + s2 + s3, s4);
    lemma_decodes_concat(d, s1 + s2, s3);
    lemma_decodes_concat(d, s1, s2);
    lemma_head_start(d, header);
    quant_read_inverts(dec_after(d, s1), header.base_q as int);
    lemma_one(dec_after(d, s1 + s2), (128u8, false));
    probas_read_inverts(dec_after(d, s1 + s2 + s3), tables.0, tables.1, 1056);
    skip_read_inverts(dec_after(d, s1 + s2 + s3 + s4), skip.use_skip, skip.skip_p, 0);
    assert forall|k: int| 0 <= k < 1056 implies #[trigger] proba_entry(f.proba.bands, k) == proba_entry(
        tables.0,
        k,
    ) by {}
    lemma_probas_ext(f.proba.bands, tables.0);
}

/// The tiles that are read back are the tiles that were planned.
pub proof fn tiles_read_back(
    infos: Seq<ModeInfo>,
    blocks: Seq<Residual>,
    f: FrameInput<'_>,
    plans: Seq<MbPlan>,
    use_skip: bool,
    k: int,
)
    requires
        f.are_plans(plans, f.count()),
        infos.len() == f.count(),
        blocks.len() == f.count(),
        forall|j: int|
            0 <= j < infos.len() ==> same_modes(#[trigger] infos[j], info_of(plans[j], use_skip)),
        forall|j: int|
            0 <= j < blocks.len() ==> is_residual(
                #[trigger] blocks[j],
                f.input(j),
                plans[j],
                use_skip,
            ),
        0 <= k <= f.count(),
    ensures
        read_tiles(infos, blocks, f.src.mb_w as int, k) == f.tiles(k),
    decreases k,
{
    if k > 0 {
        let t = k - 1;
        tiles_read_back(infos, blocks, f, plans, use_skip, t);
        let i = f.input(t);
        let p = plans[t];
        assert(i.is_plan(p));
        assert(same_modes(infos[t], info_of(p, use_skip)));
        assert(is_residual(blocks[t], i, p, use_skip));
        assert(p.imodes@.len() == 16);
        assert(tile_from(i.edges, infos[t], blocks[t].coeffs, i.has_top, i.has_left) == tile_of(i));
    }
}

/// Whether a frame's header stands for what a pass writes.
pub open spec fn frame_holds(
    f: Frame,
    header: HeaderParams<'_>,
    tables: (CoeffProbas, CoeffUpdateFlags),
    skip: SkipCoding,
) -> bool {
    &&& segment_state(f) == written_segment_state(header.segments, fresh_segment())
    &&& filter_state(f) == written_filter(*header.filter)
    &&& f.filter_type == filter_type_spec(header.filter.level as int, header.filter.simple)
    &&& f.num_parts == 1
    &&& forall|i: int|
        0 <= i < 4 ==> steps_of(
            #[trigger] f.dqm@[i],
            segment_q(f, header.base_q as int, i),
            no_deltas(),
        )
    &&& f.proba.bands == tables.0
    &&& f.proba.use_skip == skip.use_skip
    &&& (skip.use_skip ==> f.proba.skip_p == skip.skip_p)
}

/// The modes are read with the coding that they were written with.
proof fn lemma_mode_coding(
    f: Frame,
    header: HeaderParams<'_>,
    tables: (CoeffProbas, CoeffUpdateFlags),
    skip: SkipCoding,
)
    requires
        frame_holds(f, header, tables, skip),
    ensures
        mode_coding(f) == coding_of(header, skip),
{
    let st = segment_state(f);
    if let Some(s) = header.segments {
        assert forall|i: int| 0 <= i < 3 implies f.proba.segments@[i] == s.tree_probs@[i] by {
            assert(st.probs[i] == f.proba.segments@[i] as int);
            assert(st.probs[i] == s.tree_probs@[i] as int);
        }
        assert(f.proba.segments@ =~= s.tree_probs@);
        assert(f.proba.segments =~= s.tree_probs);
    }
}

/// A macroblock is deblocked with the parameters that it was planned with.
proof fn lemma_finfo(
    f: Frame,
    header: HeaderParams<'_>,
    tables: (CoeffProbas, CoeffUpdateFlags),
    skip: SkipCoding,
    info: ModeInfo,
    b: Residual,
    i: PlanInput<'_>,
    p: MbPlan,
)
    requires
        frame_holds(f, header, tables, skip),
        !header.filter.use_lf_delta,
        same_modes(info, info_of(p, skip.use_skip)),
        is_residual(b, i, p, skip.use_skip),
        p.segment < 4,
    ensures
        read_finfo(f.segment, f.filter, f.proba.use_skip, info, b) == plan_finfo(
            *header.filter,
            header.segments,
            p,
            skip.use_skip,
        ),
{
    let st = segment_state(f);
    let ft = filter_state(f);
    let s = p.segment as int;
    if let Some(q) = header.segments {
        assert(st.strength[s] == f.segment.filter_strength@[s] as int);
        assert(st.strength[s] == q.filter_strength@[s] as int);
    }
    assert(base_level(f.segment, f.filter, s) == level_in_segment(
        *header.filter,
        header.segments,
        s,
    ));
    assert(ft.sharpness == f.filter.sharpness as int);
    assert(ft.use_lf_delta == f.filter.use_lf_delta);
}

/// A pass's header can be written and read back.
proof fn lemma_pass_header(req: PassRequest, cost: CoeffProbas, c: PassCode<'_>)
    requires
        req.is_code(cost, c),
        0 <= req.base_q <= 127,
        req.tuning.filter_sharpness <= 7,
    ensures
        header_ok(req.header(c)),
        tables_cover(req.tables(c)),
{
    let h = req.header(c);
    if let Some(q) = c.segments {
        assert forall|i: int| 0 <= i < 4 implies -128 < #[trigger] q.quantizer@[i] < 128 by {
            assert(c.seg.params is Some);
            assert(0 <= c.seg.base_q@[i] <= 127);
        }
        assert forall|i: int| 0 <= i < 4 implies -64 < #[trigger] q.filter_strength@[i] < 64 by {}
    }
    kept_tables_are_readable(c.plans, c.input.src.mb_w as int, h, req.skip(c));
}

/// The quantizers of a pass are the decoder's.
proof fn lemma_pass_quants(req: PassRequest, cost: CoeffProbas, c: PassCode<'_>, f: Frame)
    requires
        req.is_code(cost, c),
        frame_holds(f, req.header(c), req.tables(c), req.skip(c)),
    ensures
        forall|t: int| 0 <= t < 4 ==> (#[trigger] c.input.quants@[t]).matches(f.dqm@[t]),
{
    let st = segment_state(f);
    assert forall|t: int| 0 <= t < 4 implies (#[trigger] c.input.quants@[t]).matches(f.dqm@[t]) by {
        let q = c.seg.base_q@[t] as int;
        assert(quantizer_of(c.input.quants@[t], q));
        assert(steps_of(f.dqm@[t], segment_q(f, req.base_q as int, t), no_deltas()));
        if let Some(s) = c.segments {
            assert(c.seg.params is Some);
            assert(st.quantizer[t] == f.segment.quantizer@[t] as int);
            assert(st.quantizer[t] == s.quantizer@[t] as int);
            assert(c.seg.params->0.quantizer@[t] == c.seg.base_q@[t] - req.base_q);
        } else {
            assert(c.seg.params is None);
            assert(c.seg.base_q@[t] == req.base_q);
        }
        quantizer_matches_decoder(c.input.quants@[t], f.dqm@[t], q);
    }
}

/// The modes of a pass can be written and read back.
proof fn lemma_pass_modes(req: PassRequest, cost: CoeffProbas, c: PassCode<'_>)
    requires
        req.is_code(cost, c),
    ensures
        modes_codable(
            coding_of(req.header(c), req.skip(c)),
            infos_of(c.plans, req.skip(c).use_skip),
        ),
        forall|k: int| 0 <= k < c.plans.len() ==> (#[trigger] c.plans[k]).segment < 4,
{
    let coding = coding_of(req.header(c), req.skip(c));
    let infos = infos_of(c.plans, req.skip(c).use_skip);
    assert forall|k: int| 0 <= k < c.plans.len() implies (#[trigger] c.plans[k]).segment < 4 by {
        assert(c.input.input(k).is_plan(c.plans[k]));
        assert(c.input.seg_ids[k] < 4);
    }
    assert forall|j: int| 0 <= j < infos.len() implies {
        &&& mode_ok(#[trigger] infos[j])
        &&& (coding.segments is None ==> infos[j].segment == 0)
        &&& (coding.skip is None ==> !infos[j].skip)
    } by {
        let p = c.plans[j];
        assert(plan_sound(p));
        assert(c.input.input(j).is_plan(p));
        assert(p.segment == c.input.seg_ids[j]);
        assert forall|i: int| 0 <= i < 16 implies #[trigger] p.imodes@[i] < 10 by {}
        if coding.segments is None {
            assert(c.seg.params is None);
            assert(c.seg.seg_ids@[j] == 0);
        }
    }
}

/// What the bytes of a pass say: the planned tiles and filter parameters.
pub proof fn pass_read_back(
    req: PassRequest,
    cost: CoeffProbas,
    c: PassCode<'_>,
    f: Frame,
    d: DecState,
)
    requires
        req.is_code(cost, c),
        0 <= req.base_q <= 127,
        req.tuning.filter_sharpness <= 7,
        is_head(f, dec_init(req.parts(c).control), d),
        f.mb_w == c.input.src.mb_w,
        f.mb_h == c.input.src.mb_h,
    ensures
        ({
            let r = frame_read(f, d, req.parts(c).tokens);
            &&& r.tiles(f.mb_w as int) == c.input.tiles(c.input.count())
            &&& r.finfo(f) == plans_finfo(
                c.filter,
                c.segments,
                c.plans,
                req.skip(c).use_skip,
            )
            &&& f.filter_type == filter_type_spec(c.filter.level as int, c.filter.simple)
        }),
{
    let header = req.header(c);
    let skip = req.skip(c);
    let tables = req.tables(c);
    let parts = req.parts(c);
    let mb_w = c.input.src.mb_w as int;
    let n = c.input.count();
    let infos = infos_of(c.plans, skip.use_skip);
    let coding = coding_of(header, skip);
    let d0 = dec_init(parts.control);
    lemma_pass_header(req, cost, c);
    lemma_pass_modes(req, cost, c);
    // The control partition.
    let s1 = control_syms(header, tables.0, tables.1, skip.use_skip, skip.skip_p);
    let s2 = modes_syms(coding, infos, mb_w, n);
    coded_bytes_decode(control_partition(c.plans, mb_w, header, tables.0, tables.1, skip));
    lemma_decodes_concat(d0, s1, s2);
    head_read_inverts(f, d0, d, header, tables, skip);
    lemma_mode_coding(f, header, tables, skip);
    modes_read_inverts(coding, d, infos, mb_w, n);
    let read = modes_read(coding, d, mb_w, n).infos;
    assert forall|j: int| 0 <= j < n implies same_modes(
        #[trigger] read[j],
        info_of(c.plans[j], skip.use_skip),
    ) by {
        assert(same_modes(read[j], infos[j]));
    }
    // The token partition.
    lemma_pass_quants(req, cost, c, f);
    coded_bytes_decode(token_partition(c.plans, mb_w, tables.0, skip));
    let after = parts.tokens;
    assert(partition_bytes(after, 1, 0) =~= after);
    let decs = Seq::new(
        f.num_parts as nat,
        |p: int| dec_init(partition_bytes(after, f.num_parts as int, p)),
    );
    assert(decs =~= seq![dec_init(after)]);
    let rc = residual_coding(f);
    residuals_read_inverts(rc, read, dec_init(after), c.input, c.plans, skip.use_skip, n);
    let r = frame_read(f, d, after);
    assert(r.infos == read);
    tiles_read_back(read, r.blocks, c.input, c.plans, skip.use_skip, n);
    let fi = plans_finfo(c.filter, c.segments, c.plans, skip.use_skip);
    assert forall|k: int| 0 <= k < n implies r.finfo(f)[k] == fi[k] by {
        assert(same_modes(read[k], info_of(c.plans[k], skip.use_skip)));
        assert(is_residual(r.blocks[k], c.input.input(k), c.plans[k], skip.use_skip));
        assert(c.plans[k].segment < 4);
        lemma_finfo(
            f,
            header,
            tables,
            skip,
            read[k],
            r.blocks[k],
            c.input.input(k),
            c.plans[k],
        );
    }
    assert(r.finfo(f) =~= fi);
}

/// How a payload is taken apart again.
proof fn lemma_frame_bytes(p: Partitions, width: int, height: int)
    requires
        1 <= width <= 16383,
        1 <= height <= 16383,
        p.control.len() < 0x80000,
    ensures
        ({
            let b = frame_bytes(p, width, height);
            let h = header_fields(b);
            let start = 10 + h.first_partition_size as int;
            &&& b.len() == 10 + p.control.len() + p.tokens.len()
            &&& is_key_frame_header(b)
            &&& h.width == width
            &&& h.height == height
            &&& start == 10 + p.control.len()
            &&& b.subrange(10, start) == p.control
            &&& b.subrange(start, b.len() as int) == p.tokens
        }),
{
    let size = p.control.len() as int;
    let b = frame_bytes(p, width, height);
    let head = frame_header_spec(size, width, height);
    let rest = p.control + p.tokens;
    assert(b =~= head + rest);
    parse_inverts_frame_header_bytes(size, width, height, rest);
    assert(b.subrange(10, 10 + size) =~= p.control);
    assert(b.subrange(10 + size, b.len() as int) =~= p.tokens);
}

/// Whether a payload is a frame of the given size whose decode is `planes`, up to the
/// scratch columns, pixel for pixel.
pub open spec fn reproduces(payload: Seq<u8>, planes: Samples, width: int, height: int) -> bool {
    let mb_w = blocks_of(width);
    &&& !is_truncated(payload)
    &&& is_key_frame_header(payload)
    &&& header_fields(payload).width == width
    &&& header_fields(payload).height == height
    &&& forall|dec: Samples| #[trigger]
        is_decode(payload, dec) ==> same_picture(planes, dec, mb_w) && rgba_image(
            picture_of(dec, mb_w),
            width,
            height,
        ) == rgba_image(picture_of(planes, mb_w), width, height)
}

/// Decoding what a pass wrote yields the pass's own reconstruction.
///
/// The frame header has nineteen bits for the size of the control partition; a larger
/// one is left out.
pub proof fn decode_inverts_pass(req: PassRequest, cost: CoeffProbas, c: PassCode<'_>)
    requires
        1 <= req.width <= 16383,
        1 <= req.height <= 16383,
        0 <= req.base_q <= 127,
        req.tuning.filter_sharpness <= 7,
        req.is_code(cost, c),
        req.parts(c).control.len() < 0x80000,
    ensures
        reproduces(req.result(c).payload, req.result(c).planes, req.width, req.height),
{
    let p = req.parts(c);
    let r = req.result(c);
    let mb_w = c.input.src.mb_w as int;
    let mb_h = c.input.src.mb_h as int;
    lemma_frame_bytes(p, req.width, req.height);
    lemma_grid_small(req.width, req.height);
    lemma_pass_parts(req, cost, c);
    assert forall|dec: Samples| #[trigger] is_decode(r.payload, dec) implies same_picture(
        r.planes,
        dec,
        mb_w,
    ) && rgba_image(picture_of(dec, mb_w), req.width, req.height) == rgba_image(
        picture_of(r.planes, mb_w),
        req.width,
        req.height,
    ) by {
        lemma_decoded(req, cost, c, dec);
    }
}

/// A pass announces one token partition.
proof fn lemma_pass_parts(req: PassRequest, cost: CoeffProbas, c: PassCode<'_>)
    requires
        0 <= req.base_q <= 127,
        req.tuning.filter_sharpness <= 7,
        req.is_code(cost, c),
    ensures
        announced_parts(req.parts(c).control) == 1,
{
    let header = req.header(c);
    let skip = req.skip(c);
    let t = req.tables(c);
    let mb_w = c.input.src.mb_w as int;
    let d = dec_init(req.parts(c).control);
    lemma_pass_header(req, cost, c);
    let s1 = head_syms(header);
    let s2 = quant_syms(header.base_q as int);
    let s3: Seq<Sym> = seq![(128u8, false)];
    let s4 = proba_syms(t.0, t.1, 1056);
    let s5 = skip_syms(skip.use_skip, skip.skip_p);
    let s6 = modes_syms(
        coding_of(header, skip),
        infos_of(c.plans, skip.use_skip),
        mb_w,
        c.plans.len() as int,
    );
    let all = control_partition(c.plans, mb_w, header, t.0, t.1, skip);
    assert(all == s1 + s2 + s3 + s4 + s5 + s6);
    coded_bytes_decode(all);
    lemma_decodes_concat(d, s1 + s2 + s3 + s4 + s5, s6);
    lemma_decodes_concat(d, s1 + s2 + s3 + s4, s5);
    lemma_decodes_concat(d, s1 + s2 + s3, s4);
    lemma_decodes_concat(d, s1 + s2, s3);
    lemma_decodes_concat(d, s1, s2);
    lemma_head_start(d, header);
}

proof fn lemma_decoded(req: PassRequest, cost: CoeffProbas, c: PassCode<'_>, dec: Samples)
    requires
        1 <= req.width <= 16383,
        1 <= req.height <= 16383,
        0 <= req.base_q <= 127,
        req.tuning.filter_sharpness <= 7,
        req.is_code(cost, c),
        req.parts(c).control.len() < 0x80000,
        is_decode(req.result(c).payload, dec),
    ensures
        ({
            let r = req.result(c);
            let mb_w = c.input.src.mb_w as int;
            &&& same_picture(r.planes, dec, mb_w)
            &&& rgba_image(picture_of(dec, mb_w), req.width, req.height) == rgba_image(
                picture_of(r.planes, mb_w),
                req.width,
                req.height,
            )
        }),
{
    let p = req.parts(c);
    let r = req.result(c);
    let mb_w = c.input.src.mb_w as int;
    let mb_h = c.input.src.mb_h as int;
    lemma_frame_bytes(p, req.width, req.height);
    lemma_grid_small(req.width, req.height);
    let (f, d, s) = choose|f: Frame, d: DecState, s: Samples|
        {
            &&& #[trigger] is_head(f, dec_init(p.control), d)
            &&& f.mb_w == mb_w
            &&& f.mb_h == mb_h
            &&& #[trigger] shows(
                s,
                f.mb_w as int,
                f.mb_h as int,
                frame_read(f, d, p.tokens).tiles(f.mb_w as int),
                before(f.mb_w * f.mb_h),
            )
            &&& dec == frame_filtered(
                s,
                f.mb_w as int,
                frame_read(f, d, p.tokens).finfo(f),
                f.filter_type,
                f.mb_h as int,
            )
        };
    pass_read_back(req, cost, c, f, d);
    let tiles = c.input.tiles(c.input.count());
    same_tiles_same_picture(c.unfiltered, s, mb_w, mb_h, tiles);
    let fi = plans_finfo(c.filter, c.segments, c.plans, req.skip(c).use_skip);
    filter_keeps_same_picture(c.unfiltered, s, mb_w, mb_h, fi, f.filter_type, mb_h);
    assert(req.width <= mb_w * 16 && req.height <= mb_h * 16);
    same_picture_same_pixels(r.planes, dec, mb_w, mb_h, req.width, req.height);
}

/// Whether `payload` is what a pass that codes the frame like `c` writes and `planes` what
/// it reconstructs, and the one decodes to the other wherever the frame header can hold
/// the size of that pass's control partition.
#[verifier::opaque]
pub open spec fn is_round_trip(
    req: PassRequest,
    cost: CoeffProbas,
    c: PassCode<'_>,
    payload: Seq<u8>,
    planes: Samples,
) -> bool {
    &&& req.is_code(cost, c)
    &&& payload == req.result(c).payload
    &&& planes == req.result(c).planes
    &&& (req.parts(c).control.len() < 0x80000 ==> reproduces(
        payload,
        planes,
        req.width,
        req.height,
    ))
}

/// A round trip reproduces its picture.
pub proof fn lemma_round_trip(
    req: PassRequest,
    cost: CoeffProbas,
    c: PassCode<'_>,
    payload: Seq<u8>,
    planes: Samples,
)
    requires
        is_round_trip(req, cost, c, payload, planes),
        req.parts(c).control.len() < 0x80000,
    ensures
        reproduces(payload, planes, req.width, req.height),
{
    reveal(is_round_trip);
}

/// Decoding what an encode wrote yields the encode's own reconstruction, and so the
/// pixels that the encoder saw: the payload is what one pass wrote, and where its header
/// can hold the size of that pass's control partition, the payload reproduces the pass's
/// reconstruction.
pub proof fn decode_inverts_encode(req: PassRequest, payload: Seq<u8>, planes: Samples)
    requires
        1 <= req.width <= 16383,
        1 <= req.height <= 16383,
        0 <= req.base_q <= 127,
        req.tuning.filter_sharpness <= 7,
        is_encode(req, payload, planes),
    ensures
        exists|cost: CoeffProbas, c: PassCode<'_>| #[trigger]
            is_round_trip(req, cost, c, payload, planes),
{
    let chain = choose|chain: Seq<Pass>|
        {
            &&& #[trigger] is_chain(req, chain)
            &&& chain.len() == pass_count(req.effort, req.tuning.passes)
            &&& payload == chain[smallest(chain, chain.len() as int)].payload
            &&& planes == chain[smallest(chain, chain.len() as int)].planes
        };
    let best = smallest(chain, chain.len() as int);
    lemma_smallest_range(chain, chain.len() as int);
    let cost = if best == 0 {
        coeffs_proba_0()
    } else {
        assert(follows(req, chain[best - 1], chain[best]));
        chain[best - 1].next->0
    };
    assert(req.is_pass(cost, chain[best]));
    reveal(PassRequest::is_pass);
    let c = choose|c: PassCode<'_>| #[trigger]
        req.is_code(cost, c) && chain[best] == req.result(c);
    if req.parts(c).control.len() < 0x80000 {
        decode_inverts_pass(req, cost, c);
    }
    reveal(is_round_trip);
    assert(is_round_trip(req, cost, c, payload, planes));
}

/// The chosen pass is one of the passes.
pub(crate) proof fn lemma_smallest_range(chain: Seq<Pass>, n: int)
    requires
        1 <= n,
    ensures
        0 <= smallest(chain, n) < n,
    decreases n,
{
    if n > 1 {
        lemma_smallest_range(chain, n - 1);
    }
}

} // verus!
