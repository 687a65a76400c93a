//! Writing a frame's two partitions from its plans.
//!
//! The control partition holds the header and every macroblock's modes; the token
//! partition holds the residual tokens. Both are stated as sequences of symbols: the
//! modes of a macroblock are coded in the context of the modes above and to the left of
//! it ([`mode_context`]), its tokens in the context of the blocks around it
//! ([`nz_context`]).

use vstd::prelude::*;

use crate::bool_enc::BoolEncoder;
use crate::coder::{coded_bytes, Sym};
use crate::constants::{
    bmode_probas, coeffs_proba_0, coeffs_update_proba, default_probas, CoeffProbas, CoeffStats,
    CoeffUpdateFlags, Prob,
};
use crate::enc_header::{
    control_syms, update_entry, updates_cover, write_control_header, HeaderParams,
};
use crate::header::{lemma_proba_coords, proba_entry};
use crate::mb::{
    bmode_prob, bmodes_ok, bmodes_syms, column, luma_modes_syms, mode_above, mode_before, mode_syms,
    modes_below, modes_right, set_column, ModeCoding, ModeInfo,
};
use crate::plan::{plan_sound, MbPlan};
use crate::planning::plans_sound;
use crate::prob_opt::{node_choice, optimize_probas};
use crate::tokens::{
    block_nz, bottom_flags, count_mb_residuals, emit_mb_residuals, flags_word,
    lemma_occurrences_concat, mb_chroma_flags, mb_events, mb_luma_flags, mb_syms, occurrences,
    put_bmode, put_is_i4x4, put_segment_id, put_uvmode, put_ymode16, right_flags, segment_syms,
    stats_bounded, uvmode_syms, word_flags, b2n, MbTokens, NodeEvent, NzContext,
};

verus! {

/// Whether and how skip flags are coded.
#[derive(Clone, Copy, PartialEq, Eq, Debug)]
pub struct SkipCoding {
    /// Whether every macroblock has a skip flag.
    pub use_skip: bool,
    /// The probability, out of 256, that a macroblock is not skipped.
    pub skip_p: u8,
}

/// Whether a macroblock's tokens are left out.
pub open spec fn skips(p: MbPlan, use_skip: bool) -> bool {
    use_skip && p.skippable
}

/// The modes that a plan asks for.
pub open spec fn info_of(p: MbPlan, use_skip: bool) -> ModeInfo {
    ModeInfo {
        segment: p.segment,
        skip: skips(p, use_skip),
        is_i4x4: p.is_i4x4,
        imodes: if p.is_i4x4 {
            p.imodes@
        } else {
            p.imodes@.update(0, p.ymode)
        },
        uvmode: p.uvmode,
    }
}

/// How modes are coded under a header.
pub open spec fn coding_of(header: HeaderParams<'_>, skip: SkipCoding) -> ModeCoding {
    ModeCoding {
        segments: match header.segments {
            Some(s) => Some(s.tree_probs),
            None => None,
        },
        skip: if skip.use_skip {
            Some(skip.skip_p)
        } else {
            None
        },
    }
}

/// The modes above a row and to the left of a macroblock.
#[verifier::ext_equal]
pub struct ModeContext {
    /// Four modes per column.
    pub top: Seq<u8>,
    /// Four modes.
    pub left: Seq<u8>,
}

/// The modes left of a row.
pub open spec fn no_left() -> Seq<u8> {
    seq![0u8, 0u8, 0u8, 0u8]
}

/// The modes around macroblock `k`.
pub open spec fn mode_context(infos: Seq<ModeInfo>, mb_w: int, k: int) -> ModeContext
    decreases k,
{
    if k <= 0 {
        ModeContext { top: Seq::new((4 * mb_w) as nat, |i: int| 0u8), left: no_left() }
    } else {
        let c = mode_context(infos, mb_w, k - 1);
        ModeContext {
            top: set_column(c.top, (k - 1) % mb_w, modes_below(infos[k - 1])),
            left: if k % mb_w == 0 {
                no_left()
            } else {
                modes_right(infos[k - 1])
            },
        }
    }
}

/// The symbols of the first `k` macroblocks' modes.
pub open spec fn modes_syms(c: ModeCoding, infos: Seq<ModeInfo>, mb_w: int, k: int) -> Seq<Sym>
    decreases k,
{
    if k <= 0 {
        Seq::empty()
    } else {
        let ctx = mode_context(infos, mb_w, k - 1);
        modes_syms(c, infos, mb_w, k - 1) + mode_syms(
            c,
            infos[k - 1],
            column(ctx.top, (k - 1) % mb_w),
            ctx.left,
        )
    }
}

/// The "has coefficients" flags around a macroblock.
#[verifier::ext_equal]
pub struct Nz {
    /// A word of flags per column.
    pub top: Seq<u32>,
    /// The second-order flag per column.
    pub top_dc: Seq<u32>,
    /// The flags to the left.
    pub left: u32,
    /// The second-order flag to the left.
    pub left_dc: u32,
}

/// The state of a context.
pub open spec fn nz_of(c: NzContext) -> Nz {
    Nz { top: c.top@, top_dc: c.top_dc@, left: c.left, left_dc: c.left_dc }
}

/// No coefficients around.
pub open spec fn nz_empty(mb_w: int) -> Nz {
    Nz {
        top: Seq::new(mb_w as nat, |i: int| 0u32),
        top_dc: Seq::new(mb_w as nat, |i: int| 0u32),
        left: 0,
        left_dc: 0,
    }
}

/// The flags after a macroblock's tokens.
pub open spec fn nz_coded(s: Nz, mb: MbTokens, x: int) -> Nz {
    let dc = b2n(block_nz(mb.y2, 0)) as u32;
    Nz {
        top: s.top.update(x, flags_word(bottom_flags(mb_luma_flags(mb), mb_chroma_flags(mb)))),
        top_dc: if mb.is_i4x4 {
            s.top_dc
        } else {
            s.top_dc.update(x, dc)
        },
        left: flags_word(right_flags(mb_luma_flags(mb), mb_chroma_flags(mb))),
        left_dc: if mb.is_i4x4 {
            s.left_dc
        } else {
            dc
        },
    }
}

/// The flags after a skipped 16x16 macroblock.
pub open spec fn nz_skipped(s: Nz, x: int) -> Nz {
    Nz { top: s.top.update(x, 0), top_dc: s.top_dc.update(x, 0), left: 0, left_dc: 0 }
}

/// The flags at the start of a row.
pub open spec fn nz_scanline(s: Nz) -> Nz {
    Nz { top: s.top, top_dc: s.top_dc, left: 0, left_dc: 0 }
}

/// The flags after macroblock `p`.
pub open spec fn nz_after(s: Nz, p: MbPlan, use_skip: bool, x: int) -> Nz {
    if skips(p, use_skip) {
        nz_skipped(s, x)
    } else {
        nz_coded(s, p.tokens, x)
    }
}

/// The flags around macroblock `k`.
pub open spec fn nz_context(plans: Seq<MbPlan>, use_skip: bool, mb_w: int, k: int) -> Nz
    decreases k,
{
    if k <= 0 {
        nz_empty(mb_w)
    } else {
        let next = nz_after(
            nz_context(plans, use_skip, mb_w, k - 1),
            plans[k - 1],
            use_skip,
            (k - 1) % mb_w,
        );
        if k % mb_w == 0 {
            nz_scanline(next)
        } else {
            next
        }
    }
}

/// The symbols of one macroblock's residual.
pub open spec fn residual_syms(
    bands: CoeffProbas,
    p: MbPlan,
    use_skip: bool,
    s: Nz,
    x: int,
) -> Seq<Sym> {
    if skips(p, use_skip) {
        Seq::empty()
    } else {
        mb_syms(
            bands,
            p.tokens,
            word_flags(s.top[x]),
            word_flags(s.left),
            s.top_dc[x] + s.left_dc,
        )
    }
}

/// The symbols of the first `k` macroblocks' residuals.
pub open spec fn tokens_syms(
    bands: CoeffProbas,
    plans: Seq<MbPlan>,
    use_skip: bool,
    mb_w: int,
    k: int,
) -> Seq<Sym>
    decreases k,
{
    if k <= 0 {
        Seq::empty()
    } else {
        tokens_syms(bands, plans, use_skip, mb_w, k - 1) + residual_syms(
            bands,
            plans[k - 1],
            use_skip,
            nz_context(plans, use_skip, mb_w, k - 1),
            (k - 1) % mb_w,
        )
    }
}

/// The main-tree decisions of one macroblock's residual.
pub open spec fn residual_events(p: MbPlan, use_skip: bool, s: Nz, x: int) -> Seq<NodeEvent> {
    if skips(p, use_skip) {
        Seq::empty()
    } else {
        mb_events(p.tokens, word_flags(s.top[x]), word_flags(s.left), s.top_dc[x] + s.left_dc)
    }
}

/// The main-tree decisions of the first `k` macroblocks' residuals.
pub open spec fn tokens_events(plans: Seq<MbPlan>, use_skip: bool, mb_w: int, k: int) -> Seq<
    NodeEvent,
>
    decreases k,
{
    if k <= 0 {
        Seq::empty()
    } else {
        tokens_events(plans, use_skip, mb_w, k - 1) + residual_events(
            plans[k - 1],
            use_skip,
            nz_context(plans, use_skip, mb_w, k - 1),
            (k - 1) % mb_w,
        )
    }
}

/// The modes of all plans.
pub open spec fn infos_of(plans: Seq<MbPlan>, use_skip: bool) -> Seq<ModeInfo> {
    Seq::new(plans.len(), |k: int| info_of(plans[k], use_skip))
}

/// The symbols of the control partition.
pub open spec fn control_partition(
    plans: Seq<MbPlan>,
    mb_w: int,
    header: HeaderParams<'_>,
    probas: CoeffProbas,
    updated: CoeffUpdateFlags,
    skip: SkipCoding,
) -> Seq<Sym> {
    control_syms(header, probas, updated, skip.use_skip, skip.skip_p) + modes_syms(
        coding_of(header, skip),
        infos_of(plans, skip.use_skip),
        mb_w,
        plans.len() as int,
    )
}

/// The symbols of the token partition.
pub open spec fn token_partition(
    plans: Seq<MbPlan>,
    mb_w: int,
    probas: CoeffProbas,
    skip: SkipCoding,
) -> Seq<Sym> {
    tokens_syms(probas, plans, skip.use_skip, mb_w, plans.len() as int)
}

/// Write one macroblock's luma modes and roll the mode context.
fn emit_intra_modes(
    part0: &mut BoolEncoder,
    plan: &MbPlan,
    mb_x: usize,
    intra_t: &mut Vec<u8>,
    intra_l: &mut [u8; 4],
)
    requires
        old(part0).wf(),
        plan_sound(*plan),
        4 * mb_x + 4 <= old(intra_t)@.len(),
        bmodes_ok(old(intra_t)@),
        bmodes_ok(old(intra_l)@),
    ensures
        final(part0).wf(),
        ({
            let m = info_of(*plan, false);
            &&& final(part0)@ == old(part0)@ + luma_modes_syms(
                m,
                column(old(intra_t)@, mb_x as int),
                old(intra_l)@,
            )
            &&& final(intra_t)@ == set_column(old(intra_t)@, mb_x as int, modes_below(m))
            &&& final(intra_l)@ == modes_right(m)
        }),
        bmodes_ok(final(intra_t)@),
        bmodes_ok(final(intra_l)@),
{
    let ghost start = part0@;
    let ghost m = info_of(*plan, false);
    let ghost top = column(intra_t@, mb_x as int);
    let ghost left = intra_l@;
    let len: usize = intra_t.len();
    let at: usize = 4 * mb_x;
    if plan.is_i4x4 {
        let t: [u8; 4] = [intra_t[at], intra_t[at + 1], intra_t[at + 2], intra_t[at + 3]];
        assert(t@ =~= top);
        let mut i: usize = 0;
        assert(part0@ =~= start + bmodes_syms(m.imodes, top, left, 0));
        while i < 16
            invariant
                i <= 16,
                part0.wf(),
                plan_sound(*plan),
                plan.is_i4x4,
                m == info_of(*plan, false),
                t@ == top,
                intra_l@ == left,
                bmodes_ok(t@),
                bmodes_ok(left),
                part0@ == start + bmodes_syms(m.imodes, top, left, i as int),
            decreases 16 - i,
        {
            let above: u8 = if i < 4 {
                t[i]
            } else {
                plan.imodes[i - 4]
            };
            let before: u8 = if i % 4 == 0 {
                intra_l[i / 4]
            } else {
                plan.imodes[i - 1]
            };
            let prob: [Prob; 9] = bmode_probas(above as usize, before as usize);
            proof {
                assert(mode_above(m.imodes, top, i as int) == above);
                assert(mode_before(m.imodes, left, i as int) == before);
                assert(prob == bmode_prob(m.imodes, top, left, i as int));
            }
            put_bmode(part0, prob, plan.imodes[i]);
            i = i + 1;
            assert(part0@ =~= start + bmodes_syms(m.imodes, top, left, i as int));
        }
        let modes: [u8; 16] = plan.imodes;
        intra_t[at] = modes[12];
        intra_t[at + 1] = modes[13];
        intra_t[at + 2] = modes[14];
        intra_t[at + 3] = modes[15];
        *intra_l = [modes[3], modes[7], modes[11], modes[15]];
    } else {
        put_ymode16(part0, plan.ymode);
        let mode: u8 = plan.ymode;
        intra_t[at] = mode;
        intra_t[at + 1] = mode;
        intra_t[at + 2] = mode;
        intra_t[at + 3] = mode;
        *intra_l = [mode, mode, mode, mode];
    }
    proof {
        assert(part0@ =~= start + luma_modes_syms(m, top, left));
        assert(intra_t@ =~= set_column(old(intra_t)@, mb_x as int, modes_below(m)));
        assert(intra_l@ =~= modes_right(m));
    }
}

/// Write one macroblock's modes and roll the mode context.
fn emit_modes(
    part0: &mut BoolEncoder,
    plan: &MbPlan,
    header: &HeaderParams<'_>,
    skip: SkipCoding,
    mb_x: usize,
    intra_t: &mut Vec<u8>,
    intra_l: &mut [u8; 4],
)
    requires
        old(part0).wf(),
        plan_sound(*plan),
        plan.segment < 4,
        4 * mb_x + 4 <= old(intra_t)@.len(),
        bmodes_ok(old(intra_t)@),
        bmodes_ok(old(intra_l)@),
    ensures
        final(part0).wf(),
        ({
            let m = info_of(*plan, skip.use_skip);
            &&& final(part0)@ == old(part0)@ + mode_syms(
                coding_of(*header, skip),
                m,
                column(old(intra_t)@, mb_x as int),
                old(intra_l)@,
            )
            &&& final(intra_t)@ == set_column(old(intra_t)@, mb_x as int, modes_below(m))
            &&& final(intra_l)@ == modes_right(m)
        }),
        bmodes_ok(final(intra_t)@),
        bmodes_ok(final(intra_l)@),
{
    let ghost start = part0@;
    let ghost m = info_of(*plan, skip.use_skip);
    let ghost c = coding_of(*header, skip);
    let ghost top = column(intra_t@, mb_x as int);
    let ghost left = intra_l@;
    if let Some(seg) = header.segments {
        put_segment_id(part0, seg.tree_probs, plan.segment);
    }
    let ghost s1 = match c.segments {
        Some(probs) => segment_syms(probs, m.segment),
        None => Seq::empty(),
    };
    assert(part0@ =~= start + s1);
    if skip.use_skip {
        part0.put_bool(skip.skip_p, plan.skippable);
    }
    let ghost s2 = s1 + (match c.skip {
        Some(p) => seq![(p, m.skip)],
        None => Seq::empty(),
    });
    assert(part0@ =~= start + s2);
    put_is_i4x4(part0, plan.is_i4x4);
    let ghost s3 = s2 + seq![(145u8, !m.is_i4x4)];
    assert(part0@ =~= start + s3);
    emit_intra_modes(part0, plan, mb_x, intra_t, intra_l);
    let ghost s4 = s3 + luma_modes_syms(info_of(*plan, false), top, left);
    assert(part0@ =~= start + s4);
    put_uvmode(part0, plan.uvmode);
    assert(part0@ =~= start + (s4 + uvmode_syms(plan.uvmode)));
    proof {
        let n = info_of(*plan, false);
        assert(luma_modes_syms(m, top, left) == luma_modes_syms(n, top, left));
        assert(modes_below(m) == modes_below(n));
        assert(modes_right(m) == modes_right(n));
        assert(s4 + uvmode_syms(plan.uvmode) == mode_syms(c, m, top, left));
    }
}

/// Write one macroblock's residual and roll the flags.
fn emit_residual(
    token_enc: &mut BoolEncoder,
    probas: &CoeffProbas,
    plan: &MbPlan,
    use_skip: bool,
    ctx: &mut NzContext,
    mb_x: usize,
)
    requires
        old(token_enc).wf(),
        old(ctx).wf(),
        mb_x < old(ctx).top@.len(),
        plan_sound(*plan),
    ensures
        final(token_enc).wf(),
        final(ctx).wf(),
        final(token_enc)@ == old(token_enc)@ + residual_syms(
            *probas,
            *plan,
            use_skip,
            nz_of(*old(ctx)),
            mb_x as int,
        ),
        nz_of(*final(ctx)) == nz_after(nz_of(*old(ctx)), *plan, use_skip, mb_x as int),
{
    let ghost start = token_enc@;
    if use_skip && plan.skippable {
        ctx.skip_mb(mb_x);
        assert(token_enc@ =~= start + Seq::<Sym>::empty());
    } else {
        emit_mb_residuals(token_enc, probas, &plan.tokens, ctx, mb_x);
    }
}

/// Write the control and the token partition of `mb_plans`, with the residuals coded
/// against `probas`, which `updated` transmits.
#[verifier::rlimit(60)]
pub fn emit_partitions(
    mb_plans: &[MbPlan],
    mb_w: usize,
    mb_h: usize,
    header: HeaderParams<'_>,
    probas: &CoeffProbas,
    updated: &CoeffUpdateFlags,
    skip: SkipCoding,
) -> (r: (Vec<u8>, Vec<u8>))
    requires
        1 <= mb_w,
        mb_w <= 0x1000_0000,
        mb_plans@.len() == mb_w * mb_h,
        emittable(mb_plans@, header),
    ensures
        r.0@ == coded_bytes(
            control_partition(mb_plans@, mb_w as int, header, *probas, *updated, skip),
        ),
        r.1@ == coded_bytes(token_partition(mb_plans@, mb_w as int, *probas, skip)),
{
    let mut part0 = BoolEncoder::new();
    write_control_header(&mut part0, header, probas, updated, skip.use_skip, skip.skip_p);
    let ghost head = control_syms(header, *probas, *updated, skip.use_skip, skip.skip_p);
    let ghost c = coding_of(header, skip);
    let ghost infos = infos_of(mb_plans@, skip.use_skip);
    let mut token_enc = BoolEncoder::new();
    let mut ctx = NzContext::new(mb_w);
    let mut intra_t: Vec<u8> = vec![0u8; 4 * mb_w];
    let mut intra_l: [u8; 4] = [0u8; 4];
    let n: usize = mb_plans.len();
    let mut mb_x: usize = 0;
    let mut k: usize = 0;
    proof {
        assert(part0@ =~= head + modes_syms(c, infos, mb_w as int, 0));
        assert(intra_t@ =~= mode_context(infos, mb_w as int, 0).top);
        assert(intra_l@ =~= mode_context(infos, mb_w as int, 0).left);
    }
    while k < n
        invariant
            k <= n,
            n == mb_plans@.len(),
            1 <= mb_w <= 0x1000_0000,
            mb_x == (k as int) % (mb_w as int),
            emittable(mb_plans@, header),
            c == coding_of(header, skip),
            infos == infos_of(mb_plans@, skip.use_skip),
            part0.wf(),
            token_enc.wf(),
            ctx.wf(),
            ctx.top@.len() == mb_w,
            part0@ == head + modes_syms(c, infos, mb_w as int, k as int),
            token_enc@ == tokens_syms(*probas, mb_plans@, skip.use_skip, mb_w as int, k as int),
            nz_of(ctx) == nz_context(mb_plans@, skip.use_skip, mb_w as int, k as int),
            intra_t@ == mode_context(infos, mb_w as int, k as int).top,
            intra_l@ == mode_context(infos, mb_w as int, k as int).left,
            intra_t@.len() == 4 * mb_w,
            bmodes_ok(intra_t@),
            bmodes_ok(intra_l@),
        decreases n - k,
    {
        let plan: &MbPlan = &mb_plans[k];
        proof {
            assert(plan_sound(mb_plans@[k as int]));
            assert(mb_plans@[k as int].segment < 4);
            assert(infos[k as int] == info_of(*plan, skip.use_skip));
            lemma_next_column(k as int, mb_w as int);
        }
        emit_modes(&mut part0, plan, &header, skip, mb_x, &mut intra_t, &mut intra_l);
        emit_residual(&mut token_enc, probas, plan, skip.use_skip, &mut ctx, mb_x);
        mb_x = mb_x + 1;
        if mb_x == mb_w {
            mb_x = 0;
            ctx.init_scanline();
            intra_l = [0u8; 4];
        }
        k = k + 1;
        proof {
            assert(part0@ =~= head + modes_syms(c, infos, mb_w as int, k as int));
            assert(token_enc@ =~= tokens_syms(
                *probas,
                mb_plans@,
                skip.use_skip,
                mb_w as int,
                k as int,
            ));
            assert(intra_l@ =~= mode_context(infos, mb_w as int, k as int).left);
            assert(nz_of(ctx) =~= nz_context(mb_plans@, skip.use_skip, mb_w as int, k as int));
        }
    }
    (part0.finish(), token_enc.finish())
}

/// The column after column `k % w`.
pub proof fn lemma_next_column(k: int, w: int)
    requires
        0 <= k,
        1 <= w,
    ensures
        0 <= k % w < w,
        (k + 1) % w == (if k % w + 1 == w {
            0
        } else {
            k % w + 1
        }),
        (k + 1) / w == (if k % w + 1 == w {
            k / w + 1
        } else {
            k / w
        }),
{
    vstd::arithmetic::div_mod::lemma_fundamental_div_mod(k, w);
    let q = k / w;
    let r = k % w;
    assert(0 <= r < w) by (nonlinear_arith)
        requires
            r == k % w,
            1 <= w,
    ;
    if r + 1 == w {
        assert(k + 1 == (q + 1) * w + 0) by (nonlinear_arith)
            requires
                k == w * q + r,
                r + 1 == w,
        ;
        vstd::arithmetic::div_mod::lemma_fundamental_div_mod_converse(k + 1, w, q + 1, 0);
    } else {
        assert(k + 1 == q * w + (r + 1)) by (nonlinear_arith)
            requires
                k == w * q + r,
        ;
        vstd::arithmetic::div_mod::lemma_fundamental_div_mod_converse(k + 1, w, q, r + 1);
    }
}

/// Whether plans and a header can be written.
pub open spec fn emittable(plans: Seq<MbPlan>, header: HeaderParams<'_>) -> bool {
    &&& plans_sound(plans)
    &&& forall|k: int| 0 <= k < plans.len() ==> (#[trigger] plans[k]).segment < 4
    &&& 0 <= header.base_q
    &&& 0 <= header.filter.level
    &&& 0 <= header.filter.sharpness
}

/// How often the main tree's node `k` decides `bit`.
pub open spec fn node_count(events: Seq<NodeEvent>, k: int, bit: int) -> int {
    occurrences(events, (k / 264, (k / 33) % 8, (k / 11) % 3, k % 11, bit))
}

/// Whether a table and its update flags are the best choice, node by node, for
/// `events`.
pub open spec fn fits_events(
    events: Seq<NodeEvent>,
    probas: CoeffProbas,
    updated: CoeffUpdateFlags,
) -> bool {
    forall|k: int|
        0 <= k < 1056 ==> (#[trigger] proba_entry(probas, k), update_entry(updated, k))
            == node_choice(
            node_count(events, k, 0),
            node_count(events, k, 1),
            proba_entry(coeffs_proba_0(), k),
            proba_entry(coeffs_update_proba(), k),
        )
}

/// The best table and update flags for `events`.
pub open spec fn tables_of(events: Seq<NodeEvent>) -> (CoeffProbas, CoeffUpdateFlags) {
    choose|t: (CoeffProbas, CoeffUpdateFlags)| #[trigger] fits_events(events, t.0, t.1)
}

/// The entry number of a table position.
proof fn lemma_entry_at(t: int, b: int, c: int, p: int) -> (k: int)
    requires
        0 <= t < 4,
        0 <= b < 8,
        0 <= c < 3,
        0 <= p < 11,
    ensures
        0 <= k < 1056,
        k / 264 == t,
        (k / 33) % 8 == b,
        (k / 11) % 3 == c,
        k % 11 == p,
{
    t * 264 + b * 33 + c * 11 + p
}

/// Tables with equal entries are equal.
pub(crate) proof fn lemma_probas_ext(a: CoeffProbas, b: CoeffProbas)
    requires
        forall|k: int| 0 <= k < 1056 ==> #[trigger] proba_entry(a, k) == proba_entry(b, k),
    ensures
        a == b,
{
    assert forall|t: int| 0 <= t < 4 implies #[trigger] a[t] == b[t] by {
        assert forall|x: int| 0 <= x < 8 implies #[trigger] a[t][x] == b[t][x] by {
            assert forall|c: int| 0 <= c < 3 implies #[trigger] a[t][x][c] == b[t][x][c] by {
                assert forall|p: int| 0 <= p < 11 implies #[trigger] a[t][x][c][p]
                    == b[t][x][c][p] by {
                    let k = lemma_entry_at(t, x, c, p);
                    assert(proba_entry(a, k) == proba_entry(b, k));
                }
                assert(a[t][x][c]@ =~= b[t][x][c]@);
                assert(a[t][x][c] =~= b[t][x][c]);
            }
            assert(a[t][x]@ =~= b[t][x]@);
            assert(a[t][x] =~= b[t][x]);
        }
        assert(a[t]@ =~= b[t]@);
        assert(a[t] =~= b[t]);
    }
    assert(a@ =~= b@);
    assert(a =~= b);
}

/// Flags with equal entries are equal.
proof fn lemma_flags_ext(a: CoeffUpdateFlags, b: CoeffUpdateFlags)
    requires
        forall|k: int| 0 <= k < 1056 ==> #[trigger] update_entry(a, k) == update_entry(b, k),
    ensures
        a == b,
{
    assert forall|t: int| 0 <= t < 4 implies #[trigger] a[t] == b[t] by {
        assert forall|x: int| 0 <= x < 8 implies #[trigger] a[t][x] == b[t][x] by {
            assert forall|c: int| 0 <= c < 3 implies #[trigger] a[t][x][c] == b[t][x][c] by {
                assert forall|p: int| 0 <= p < 11 implies #[trigger] a[t][x][c][p]
                    == b[t][x][c][p] by {
                    let k = lemma_entry_at(t, x, c, p);
                    assert(update_entry(a, k) == update_entry(b, k));
                }
                assert(a[t][x][c]@ =~= b[t][x][c]@);
                assert(a[t][x][c] =~= b[t][x][c]);
            }
            assert(a[t][x]@ =~= b[t][x]@);
            assert(a[t][x] =~= b[t][x]);
        }
        assert(a[t]@ =~= b[t]@);
        assert(a[t] =~= b[t]);
    }
    assert(a@ =~= b@);
    assert(a =~= b);
}

/// The tables found are the best tables.
proof fn lemma_tables(events: Seq<NodeEvent>, t: (CoeffProbas, CoeffUpdateFlags))
    requires
        fits_events(events, t.0, t.1),
    ensures
        t == tables_of(events),
{
    let u = tables_of(events);
    assert(fits_events(events, u.0, u.1));
    assert forall|k: int| 0 <= k < 1056 implies #[trigger] proba_entry(t.0, k) == proba_entry(
        u.0,
        k,
    ) by {
        assert(proba_entry(u.0, k) == proba_entry(u.0, k));
    }
    assert forall|k: int| 0 <= k < 1056 implies #[trigger] update_entry(t.1, k) == update_entry(
        u.1,
        k,
    ) by {
        assert(proba_entry(t.0, k) == proba_entry(u.0, k));
    }
    lemma_probas_ext(t.0, u.0);
    lemma_flags_ext(t.1, u.1);
}

/// Count one macroblock's decisions and roll the flags.
fn count_residual(
    stats: &mut CoeffStats,
    plan: &MbPlan,
    use_skip: bool,
    ctx: &mut NzContext,
    mb_x: usize,
    Ghost(before): Ghost<Seq<NodeEvent>>,
    Ghost(k): Ghost<int>,
)
    requires
        old(ctx).wf(),
        mb_x < old(ctx).top@.len(),
        plan_sound(*plan),
        0 <= k <= 0x4000_0000,
        stats_bounded(*old(stats), 1200 * k),
        stats_are(*old(stats), before),
    ensures
        final(ctx).wf(),
        nz_of(*final(ctx)) == nz_after(nz_of(*old(ctx)), *plan, use_skip, mb_x as int),
        stats_bounded(*final(stats), 1200 * (k + 1)),
        stats_are(
            *final(stats),
            before + residual_events(*plan, use_skip, nz_of(*old(ctx)), mb_x as int),
        ),
{
    let ghost more = residual_events(*plan, use_skip, nz_of(*ctx), mb_x as int);
    if use_skip && plan.skippable {
        ctx.skip_mb(mb_x);
        assert(before + more =~= before);
    } else {
        let ghost s0 = *stats;
        count_mb_residuals(stats, &plan.tokens, ctx, mb_x);
        proof {
            assert forall|t: int, b: int, c: int, p: int, bit: int|
                0 <= t < 4 && 0 <= b < 8 && 0 <= c < 3 && 0 <= p < 11 && 0 <= bit
                    < 2 implies #[trigger] stats[t][b][c][p][bit] == occurrences(
                before + more,
                (t, b, c, p, bit),
            ) by {
                lemma_occurrences_concat(before, more, (t, b, c, p, bit));
                assert(s0[t][b][c][p][bit] == occurrences(before, (t, b, c, p, bit)));
            }
        }
    }
}

/// Whether `s` counts `events`.
pub open spec fn stats_are(s: CoeffStats, events: Seq<NodeEvent>) -> bool {
    forall|t: int, b: int, c: int, p: int, bit: int|
        0 <= t < 4 && 0 <= b < 8 && 0 <= c < 3 && 0 <= p < 11 && 0 <= bit < 2
            ==> #[trigger] s[t][b][c][p][bit] == occurrences(events, (t, b, c, p, bit))
}

/// Count the decisions of all residuals, in the contexts in which they are emitted.
fn count_partition(mb_plans: &[MbPlan], mb_w: usize, use_skip: bool) -> (r: CoeffStats)
    requires
        1 <= mb_w,
        plans_sound(mb_plans@),
        mb_plans@.len() <= 0x4000_0000,
    ensures
        stats_are(r, tokens_events(mb_plans@, use_skip, mb_w as int, mb_plans@.len() as int)),
        stats_bounded(r, 0x8_0000_0000_0000),
{
    let mut stats: CoeffStats = [[[[[0u64; 2]; 11]; 3]; 8]; 4];
    let mut ctx = NzContext::new(mb_w);
    let n: usize = mb_plans.len();
    let mut mb_x: usize = 0;
    let mut k: usize = 0;
    while k < n
        invariant
            k <= n,
            n == mb_plans@.len(),
            n <= 0x4000_0000,
            1 <= mb_w,
            mb_x == (k as int) % (mb_w as int),
            plans_sound(mb_plans@),
            ctx.wf(),
            ctx.top@.len() == mb_w,
            nz_of(ctx) == nz_context(mb_plans@, use_skip, mb_w as int, k as int),
            stats_bounded(stats, 1200 * k),
            stats_are(stats, tokens_events(mb_plans@, use_skip, mb_w as int, k as int)),
        decreases n - k,
    {
        let plan: &MbPlan = &mb_plans[k];
        proof {
            assert(plan_sound(mb_plans@[k as int]));
            lemma_next_column(k as int, mb_w as int);
        }
        count_residual(
            &mut stats,
            plan,
            use_skip,
            &mut ctx,
            mb_x,
            Ghost(tokens_events(mb_plans@, use_skip, mb_w as int, k as int)),
            Ghost(k as int),
        );
        mb_x = mb_x + 1;
        if mb_x == mb_w {
            mb_x = 0;
            ctx.init_scanline();
        }
        k = k + 1;
        assert(nz_of(ctx) =~= nz_context(mb_plans@, use_skip, mb_w as int, k as int));
    }
    stats
}

/// Write the partitions twice, at the same time: with the default table, and with
/// `opt_probas`.
fn emit_partition_candidates(
    mb_plans: &[MbPlan],
    mb_w: usize,
    mb_h: usize,
    header: HeaderParams<'_>,
    skip: SkipCoding,
    opt_probas: &CoeffProbas,
    opt_updated: &CoeffUpdateFlags,
) -> (r: ((Vec<u8>, Vec<u8>), (Vec<u8>, Vec<u8>)))
    requires
        1 <= mb_w,
        mb_w <= 0x1000_0000,
        mb_plans@.len() == mb_w * mb_h,
        emittable(mb_plans@, header),
    ensures
        is_pair(r.0, mb_plans@, mb_w as int, header, coeffs_proba_0(), no_updates(), skip),
        is_pair(r.1, mb_plans@, mb_w as int, header, *opt_probas, *opt_updated, skip),
{
    let default: CoeffProbas = default_probas();
    let none: CoeffUpdateFlags = clear_flags();
    let a = || -> (x: (Vec<u8>, Vec<u8>))
        ensures
            is_pair(x, mb_plans@, mb_w as int, header, coeffs_proba_0(), no_updates(), skip),
        { emit_partitions(mb_plans, mb_w, mb_h, header, &default, &none, skip) };
    let b = || -> (x: (Vec<u8>, Vec<u8>))
        ensures
            is_pair(x, mb_plans@, mb_w as int, header, *opt_probas, *opt_updated, skip),
        { emit_partitions(mb_plans, mb_w, mb_h, header, opt_probas, opt_updated, skip) };
    rayon::join(a, b)
}

/// `rayon::join` calls both closures, possibly on two threads, and returns what each of
/// them returned, in the order of its arguments. Nothing is said of when they run.
pub assume_specification<A, B, RA, RB>[ rayon::join::<A, B, RA, RB> ](oper_a: A, oper_b: B) -> (r: (
    RA,
    RB,
)) where A: FnOnce() -> RA + Send, B: FnOnce() -> RB + Send, RA: Send, RB: Send
    requires
        oper_a.requires(()),
        oper_b.requires(()),
    ensures
        oper_a.ensures((), r.0),
        oper_b.ensures((), r.1),
;

/// No entry of the table is sent.
pub open spec fn no_updates() -> CoeffUpdateFlags {
    choose|u: CoeffUpdateFlags| #[trigger] sends_nothing(u)
}

/// Whether no flag is set.
pub open spec fn sends_nothing(u: CoeffUpdateFlags) -> bool {
    forall|k: int| 0 <= k < 1056 ==> !#[trigger] update_entry(u, k)
}

/// Flags that are all clear.
pub(crate) fn clear_flags() -> (r: CoeffUpdateFlags)
    ensures
        r == no_updates(),
        sends_nothing(r),
{
    let r: CoeffUpdateFlags = [[[[false; 11]; 3]; 8]; 4];
    proof {
        assert forall|k: int| 0 <= k < 1056 implies !#[trigger] update_entry(r, k) by {
            lemma_proba_coords(k);
        }
        let n = no_updates();
        assert(sends_nothing(r));
        assert(sends_nothing(n));
        lemma_flags_ext(r, n);
    }
    r
}

/// Whether `r` is the pair of partitions coded with a table.
pub open spec fn is_pair(
    r: (Vec<u8>, Vec<u8>),
    plans: Seq<MbPlan>,
    mb_w: int,
    header: HeaderParams<'_>,
    probas: CoeffProbas,
    updated: CoeffUpdateFlags,
    skip: SkipCoding,
) -> bool {
    &&& r.0@ == coded_bytes(control_partition(plans, mb_w, header, probas, updated, skip))
    &&& r.1@ == coded_bytes(token_partition(plans, mb_w, probas, skip))
}

/// A frame's two partitions.
#[verifier::ext_equal]
pub struct Partitions {
    /// Header and modes.
    pub control: Seq<u8>,
    /// Residual tokens.
    pub tokens: Seq<u8>,
}

impl Partitions {
    /// The bytes of both.
    pub open spec fn size(&self) -> int {
        (self.control.len() + self.tokens.len()) as int
    }
}

/// The partitions coded with a table.
pub open spec fn partitions(
    plans: Seq<MbPlan>,
    mb_w: int,
    header: HeaderParams<'_>,
    tables: (CoeffProbas, CoeffUpdateFlags),
    skip: SkipCoding,
) -> Partitions {
    Partitions {
        control: coded_bytes(control_partition(plans, mb_w, header, tables.0, tables.1, skip)),
        tokens: coded_bytes(token_partition(plans, mb_w, tables.0, skip)),
    }
}

/// The default table.
pub open spec fn default_tables() -> (CoeffProbas, CoeffUpdateFlags) {
    (coeffs_proba_0(), no_updates())
}

/// The table optimized for the plans' tokens.
pub open spec fn optimized_tables(plans: Seq<MbPlan>, mb_w: int, skip: SkipCoding) -> (
    CoeffProbas,
    CoeffUpdateFlags,
) {
    tables_of(tokens_events(plans, skip.use_skip, mb_w, plans.len() as int))
}

/// A count of bytes, as far as a `usize` can hold it.
pub open spec fn saturated(n: int) -> int {
    if n > usize::MAX {
        usize::MAX as int
    } else {
        n
    }
}

/// Whichever table is kept: the optimized one if it makes the partitions smaller.
pub open spec fn kept_tables(
    plans: Seq<MbPlan>,
    mb_w: int,
    header: HeaderParams<'_>,
    skip: SkipCoding,
) -> (CoeffProbas, CoeffUpdateFlags) {
    let opt = optimized_tables(plans, mb_w, skip);
    if saturated(partitions(plans, mb_w, header, opt, skip).size()) < saturated(
        partitions(plans, mb_w, header, default_tables(), skip).size(),
    ) {
        opt
    } else {
        default_tables()
    }
}

/// The kept partitions are the optimized ones where those are strictly smaller, else the
/// default ones, so their size is the smaller of the two. (Sizes that `usize` cannot hold
/// count as its largest value.)
pub proof fn kept_is_the_smaller(
    plans: Seq<MbPlan>,
    mb_w: int,
    header: HeaderParams<'_>,
    skip: SkipCoding,
)
    ensures
        ({
            let kept = kept_tables(plans, mb_w, header, skip);
            let opt = optimized_tables(plans, mb_w, skip);
            let size = partitions(plans, mb_w, header, kept, skip).size();
            let d = partitions(plans, mb_w, header, default_tables(), skip).size();
            let o = partitions(plans, mb_w, header, opt, skip).size();
            &&& size <= d
            &&& o < d <= usize::MAX ==> kept == opt && size == o
            &&& d <= o ==> kept == default_tables() && size == d
        }),
{
}

/// Write the partitions with the default table and with a table optimized for the
/// plans' tokens, and keep the smaller pair (the default one of equals). Also returns
/// both sizes and the optimized table.
pub fn emit_best_partitions(
    mb_plans: &[MbPlan],
    mb_w: usize,
    mb_h: usize,
    header: HeaderParams<'_>,
    skip: SkipCoding,
) -> (r: (Vec<u8>, Vec<u8>, usize, usize, CoeffProbas))
    requires
        1 <= mb_w,
        mb_w <= 0x1000_0000,
        mb_plans@.len() == mb_w * mb_h,
        mb_plans@.len() <= 0x4000_0000,
        emittable(mb_plans@, header),
    ensures
        ({
            let w = mb_w as int;
            let opt = optimized_tables(mb_plans@, w, skip);
            let kept = partitions(
                mb_plans@,
                w,
                header,
                kept_tables(mb_plans@, w, header, skip),
                skip,
            );
            &&& r.0@ == kept.control
            &&& r.1@ == kept.tokens
            &&& r.2 == saturated(partitions(mb_plans@, w, header, default_tables(), skip).size())
            &&& r.3 == saturated(partitions(mb_plans@, w, header, opt, skip).size())
            &&& r.4 == opt.0
        }),
        tables_cover(optimized_tables(mb_plans@, mb_w as int, skip)),
{
    let stats: CoeffStats = count_partition(mb_plans, mb_w, skip.use_skip);
    let ghost events = tokens_events(
        mb_plans@,
        skip.use_skip,
        mb_w as int,
        mb_plans@.len() as int,
    );
    let (opt_probas, opt_updated) = optimize_probas(&stats);
    proof {
        assert forall|k: int| 0 <= k < 1056 implies (
        #[trigger] proba_entry(opt_probas, k), update_entry(opt_updated, k)) == node_choice(
            node_count(events, k, 0),
            node_count(events, k, 1),
            proba_entry(coeffs_proba_0(), k),
            proba_entry(coeffs_update_proba(), k),
        ) by {
            lemma_proba_coords(k);
            let n = stats[k / 264][(k / 33) % 8][(k / 11) % 3][k % 11];
            assert(n[0] == node_count(events, k, 0));
            assert(n[1] == node_count(events, k, 1));
        }
        lemma_tables(events, (opt_probas, opt_updated));
    }
    let ((part0_d, token_d), (part0_o, token_o)) = emit_partition_candidates(
        mb_plans,
        mb_w,
        mb_h,
        header,
        skip,
        &opt_probas,
        &opt_updated,
    );
    let default_total: usize = part0_d.len().saturating_add(token_d.len());
    let optimized_total: usize = part0_o.len().saturating_add(token_o.len());
    if optimized_total < default_total {
        (part0_o, token_o, default_total, optimized_total, opt_probas)
    } else {
        (part0_d, token_d, default_total, optimized_total, opt_probas)
    }
}

/// Whether a reader of the flags arrives at the table.
pub open spec fn tables_cover(t: (CoeffProbas, CoeffUpdateFlags)) -> bool {
    updates_cover(t.0, t.1)
}

} // verus!
