//! Frame-level choices: skip coding and the loop filter.

use vstd::prelude::*;

use crate::arith::clamp_int;
use crate::constants::{ac_step, ac_table};
use crate::decode::{FilterHeader, MbData, SegmentHeader};
use crate::emit::{skips, SkipCoding};
use crate::enc_header::SegmentParams;
use crate::header::filter_type_spec;
use crate::loop_filter::FInfo;
use crate::plan::MbPlan;
use crate::reconstruct::{
    adjusted_level, base_level, compute_fstrengths, filter_frame, filter_off_changes_nothing,
    filter_small, frame_filtered, interior_limit, limits_small, resolve_finfo, strength_spec,
    Planes,
};

verus! {

/// How many of the first `n` plans can be skipped.
pub open spec fn skip_count(plans: Seq<MbPlan>, n: int) -> int
    decreases n,
{
    if n <= 0 {
        0
    } else {
        skip_count(plans, n - 1) + (if plans[n - 1].skippable {
            1int
        } else {
            0
        })
    }
}

/// The probability, out of 255, of a macroblock that is not skipped.
pub open spec fn skip_prob(skipped: int, total: int) -> int {
    if total == 0 {
        255
    } else {
        ((total - skipped) * 255) / total
    }
}

/// The skip coding of a frame.
pub open spec fn skip_of(plans: Seq<MbPlan>, total: int, consider_skip: bool) -> SkipCoding {
    let nb = skip_count(plans, plans.len() as int);
    let p = skip_prob(nb, total);
    SkipCoding { use_skip: consider_skip && nb > 0 && p < 250, skip_p: p as u8 }
}

/// Decide whether skip flags are coded: if they may be, if any macroblock can be skipped,
/// and if the skip probability clears the threshold.
pub fn resolve_skip(mb_plans: &[MbPlan], total: usize, consider_skip: bool) -> (r: SkipCoding)
    requires
        mb_plans@.len() <= total,
        total * 255 <= usize::MAX,
    ensures
        r == skip_of(mb_plans@, total as int, consider_skip),
        r.use_skip ==> consider_skip,
{
    let mut nb_skip: usize = 0;
    let mut i: usize = 0;
    while i < mb_plans.len()
        invariant
            i <= mb_plans@.len(),
            nb_skip == skip_count(mb_plans@, i as int),
            nb_skip <= i,
        decreases mb_plans@.len() - i,
    {
        if mb_plans[i].skippable {
            nb_skip = nb_skip + 1;
        }
        i = i + 1;
    }
    let skip_p: u8 = if total == 0 {
        255
    } else {
        let p: usize = ((total - nb_skip) * 255) / total;
        assert(0 <= p <= 255) by (nonlinear_arith)
            requires
                p == ((total - nb_skip) * 255) / (total as int),
                0 <= nb_skip <= total,
                0 < total,
        ;
        p as u8
    };
    let use_skip: bool = consider_skip && nb_skip > 0 && skip_p < 250;
    SkipCoding { use_skip, skip_p }
}

/// The filter level of quantizer index `q` at a strength.
pub open spec fn filter_level(q: int, strength: int, apply_filter: bool) -> int {
    let f = (5 * strength * (ac_table(clamp_int(q, 0, 127)) as int / 4)) / 256;
    if !apply_filter || strength == 0 || f < 2 {
        0
    } else if f > 63 {
        63
    } else {
        f
    }
}

/// The loop-filter level of a segment coded at quantizer index `q`: it grows with the
/// quantizer step and the strength, and a level below two turns the filter off.
pub fn segment_filter_level(q: i32, filter_strength: u8, apply_filter: bool) -> (r: i32)
    ensures
        r == filter_level(q as int, filter_strength as int, apply_filter),
        0 <= r <= 63,
{
    if !apply_filter || filter_strength == 0 {
        return 0;
    }
    let level0: i32 = 5 * filter_strength as i32;
    let idx: usize = if q < 0 {
        0
    } else if q > 127 {
        127
    } else {
        q as usize
    };
    let qstep: i32 = ac_step(idx) as i32 / 4;
    assert(0 <= level0 * qstep <= 1275 * 71) by (nonlinear_arith)
        requires
            0 <= level0 <= 1275,
            0 <= qstep <= 71,
    ;
    let f: i32 = (level0 * qstep) / 256;
    if f < 2 {
        0
    } else if f > 63 {
        63
    } else {
        f
    }
}

/// Whether a filter header is the one chosen for a frame.
pub open spec fn is_filter(
    f: FilterHeader,
    base_q: int,
    apply_filter: bool,
    strength: int,
    sharpness: int,
) -> bool {
    &&& !f.simple
    &&& f.level == filter_level(base_q, strength, apply_filter)
    &&& f.sharpness == (if apply_filter {
        sharpness
    } else {
        0
    })
    &&& !f.use_lf_delta
    &&& f.ref_lf_delta@ == seq![0i32, 0, 0, 0]
    &&& f.mode_lf_delta@ == seq![0i32, 0, 0, 0]
}

/// The loop filter of a frame: the normal filter at the level of the base quantizer. The
/// knobs are inert if the filter is not applied.
pub fn choose_filter(
    base_q: i32,
    apply_filter: bool,
    filter_strength: u8,
    filter_sharpness: u8,
) -> (r: FilterHeader)
    ensures
        is_filter(
            r,
            base_q as int,
            apply_filter,
            filter_strength as int,
            filter_sharpness as int,
        ),
        0 <= r.level <= 63,
        filter_small(r),
{
    let mut f: FilterHeader = FilterHeader::default();
    f.level = segment_filter_level(base_q, filter_strength, apply_filter);
    if apply_filter {
        f.sharpness = filter_sharpness as i32;
    }
    f
}

/// The segments' filter levels, relative to the frame's level.
pub fn segment_filter_deltas(
    base_level: i32,
    seg_base_q: [i32; 4],
    apply_filter: bool,
    filter_strength: u8,
) -> (r: [i32; 4])
    requires
        0 <= base_level <= 63,
    ensures
        forall|s: int|
            0 <= s < 4 ==> #[trigger] r@[s] == filter_level(
                seg_base_q@[s] as int,
                filter_strength as int,
                apply_filter,
            ) - base_level,
        forall|s: int| 0 <= s < 4 ==> -64 < #[trigger] r@[s] < 64,
{
    let mut deltas: [i32; 4] = [0i32; 4];
    let mut s: usize = 0;
    while s < 4
        invariant
            s <= 4,
            0 <= base_level <= 63,
            forall|t: int|
                0 <= t < s ==> #[trigger] deltas@[t] == filter_level(
                    seg_base_q@[t] as int,
                    filter_strength as int,
                    apply_filter,
                ) - base_level,
            forall|t: int| 0 <= t < s ==> -64 < #[trigger] deltas@[t] < 64,
        decreases 4 - s,
    {
        deltas[s] = segment_filter_level(seg_base_q[s], filter_strength, apply_filter)
            - base_level;
        s = s + 1;
    }
    deltas
}

/// The filter type of a header: 0 off, 1 simple, 2 normal.
pub fn filter_type_of(filter: &FilterHeader) -> (r: u8)
    ensures
        r == filter_type_spec(filter.level as int, filter.simple),
{
    if filter.level == 0 {
        0
    } else if filter.simple {
        1
    } else {
        2
    }
}

/// The filter level of segment `s`.
pub open spec fn level_in_segment(
    filter: FilterHeader,
    segments: Option<SegmentParams>,
    s: int,
) -> int {
    match segments {
        None => filter.level as int,
        Some(p) => p.filter_strength@[s] + filter.level,
    }
}

/// The filter parameters of a planned macroblock: the interior edges are filtered if it
/// is predicted per 4x4 block, or if it has coefficients and is not skipped.
pub open spec fn plan_finfo(
    filter: FilterHeader,
    segments: Option<SegmentParams>,
    p: MbPlan,
    use_skip: bool,
) -> FInfo {
    FInfo {
        f_inner: p.is_i4x4 || (!skips(p, use_skip) && p.has_residual),
        ..strength_spec(filter, level_in_segment(filter, segments, p.segment as int), p.is_i4x4)
    }
}

/// The filter parameters of all macroblocks.
pub open spec fn plans_finfo(
    filter: FilterHeader,
    segments: Option<SegmentParams>,
    plans: Seq<MbPlan>,
    use_skip: bool,
) -> Seq<FInfo> {
    Seq::new(plans.len(), |k: int| plan_finfo(filter, segments, plans[k], use_skip))
}

/// The header that segment parameters are sent as.
fn segment_header(seg_params: Option<SegmentParams>) -> (r: SegmentHeader)
    ensures
        r.use_segment == (seg_params is Some),
        !r.use_segment || !r.absolute_delta,
        seg_params matches Some(p) ==> r.filter_strength == p.filter_strength,
        seg_params is None ==> r.filter_strength@ == seq![0i32, 0, 0, 0],
{
    match seg_params {
        None => SegmentHeader::default(),
        Some(seg) => SegmentHeader {
            use_segment: true,
            update_map: true,
            absolute_delta: false,
            quantizer: seg.quantizer,
            filter_strength: seg.filter_strength,
        },
    }
}

/// Filter limits are small.
pub(crate) proof fn lemma_limit_small(filter: FilterHeader, base: int, i4x4: bool)
    ensures
        -900000 <= strength_spec(filter, base, i4x4).f_limit <= 900000,
{
    let level = adjusted_level(filter, base, i4x4);
    let inner = interior_limit(level, filter.sharpness as int);
}

/// Deblock reconstructed planes with the filter parameters that a decoder derives from
/// the written headers; nothing if the filter is off.
pub fn apply_loop_filter(
    planes: &mut Planes,
    mb_plans: &[MbPlan],
    mb_w: usize,
    mb_h: usize,
    filter: &FilterHeader,
    use_skip: bool,
    seg_params: Option<SegmentParams>,
)
    requires
        old(planes).wf(mb_w as int, mb_h as int),
        mb_plans@.len() == mb_w * mb_h,
        forall|k: int| 0 <= k < mb_plans@.len() ==> (#[trigger] mb_plans@[k]).segment < 4,
        filter_small(*filter),
        seg_params matches Some(p) ==> forall|s: int|
            0 <= s < 4 ==> -64 < #[trigger] p.filter_strength@[s] < 64,
    ensures
        final(planes).wf(mb_w as int, mb_h as int),
        final(planes)@ == frame_filtered(
            old(planes)@,
            mb_w as int,
            plans_finfo(*filter, seg_params, mb_plans@, use_skip),
            filter_type_spec(filter.level as int, filter.simple),
            mb_h as int,
        ),
{
    let filter_type: u8 = filter_type_of(filter);
    let ghost want = plans_finfo(*filter, seg_params, mb_plans@, use_skip);
    if filter_type == 0 {
        proof {
            filter_off_changes_nothing(planes@, mb_w as int, want, mb_h as int);
        }
        return ;
    }
    let segment: SegmentHeader = segment_header(seg_params);
    let table: [[FInfo; 2]; 4] = compute_fstrengths(&segment, filter);
    let mut finfo: Vec<FInfo> = Vec::new();
    let mut k: usize = 0;
    while k < mb_plans.len()
        invariant
            k <= mb_plans@.len(),
            forall|j: int| 0 <= j < mb_plans@.len() ==> (#[trigger] mb_plans@[j]).segment < 4,
            segment.use_segment == (seg_params is Some),
            !segment.use_segment || !segment.absolute_delta,
            seg_params matches Some(p) ==> segment.filter_strength == p.filter_strength,
            forall|s: int|
                0 <= s < 4 ==> (#[trigger] table@[s])@[0] == strength_spec(
                    *filter,
                    base_level(segment, *filter, s),
                    false,
                ) && table@[s]@[1] == strength_spec(*filter, base_level(segment, *filter, s), true),
            finfo@.len() == k,
            forall|j: int|
                0 <= j < k ==> #[trigger] finfo@[j] == plan_finfo(
                    *filter,
                    seg_params,
                    mb_plans@[j],
                    use_skip,
                ),
            limits_small(finfo@),
        decreases mb_plans@.len() - k,
    {
        let plan: &MbPlan = &mb_plans[k];
        let mut mb: MbData = MbData::default();
        mb.segment = plan.segment;
        mb.is_i4x4 = plan.is_i4x4;
        mb.skip = plan.skippable;
        mb.non_zero_y = if plan.has_residual {
            1
        } else {
            0
        };
        proof {
            let s = plan.segment as int;
            assert(0 <= s < 4);
            let row = table@[s];
            assert(base_level(segment, *filter, s) == level_in_segment(*filter, seg_params, s));
            lemma_limit_small(*filter, base_level(segment, *filter, s), plan.is_i4x4);
        }
        finfo.push(resolve_finfo(table, &mb, use_skip));
        k = k + 1;
    }
    assert(finfo@ =~= want);
    filter_frame(planes, finfo.as_slice(), mb_w, mb_h, filter_type);
}

} // verus!
