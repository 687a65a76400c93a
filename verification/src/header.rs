//! Parsing of the control-partition headers.

use vstd::prelude::*;

use crate::arith::{clamp_int, group_shr};
use crate::bool_dec::{read_literal_spec, read_signed_spec, BoolDecoder};
use crate::coder::{dec_step, DecState};
use crate::constants::{
    ac_step, ac_table, coeffs_proba_0, coeffs_update_proba, dc_step, dc_table, default_proba,
    update_proba, CoeffProbas,
};
use crate::decode::{Frame, QuantMatrix};
use crate::error::{Error, Result};

verus! {

broadcast use group_shr;

/// The DC step at quantizer index `idx`; a negative index reads entry zero.
pub open spec fn dc_quant_spec(idx: int) -> int {
    dc_table(
        if idx < 0 {
            0
        } else {
            idx
        },
    ) as int
}

/// The AC step at quantizer index `idx`; a negative index reads entry zero.
pub open spec fn ac_quant_spec(idx: int) -> int {
    ac_table(
        if idx < 0 {
            0
        } else {
            idx
        },
    ) as int
}

/// The DC step at quantizer index `idx`.
pub fn dc_quant(idx: i32) -> (r: i32)
    requires
        idx < 128,
    ensures
        r == dc_quant_spec(idx as int),
        4 <= r <= 157,
{
    let i: usize = if idx < 0 {
        0
    } else {
        idx as usize
    };
    dc_step(i) as i32
}

/// The AC step at quantizer index `idx`.
pub fn ac_quant(idx: i32) -> (r: i32)
    requires
        idx < 128,
    ensures
        r == ac_quant_spec(idx as int),
        4 <= r <= 284,
{
    let i: usize = if idx < 0 {
        0
    } else {
        idx as usize
    };
    ac_step(i) as i32
}

/// Clamp a quantizer index to the luma table range.
pub fn clip_q(v: i32) -> (r: i32)
    ensures
        r == clamp_int(v as int, 0, 127),
{
    if v < 0 {
        0
    } else if v > 127 {
        127
    } else {
        v
    }
}

/// Clamp a quantizer index to the chroma-DC table range.
pub fn clip_uv(v: i32) -> (r: i32)
    ensures
        r == clamp_int(v as int, 0, 117),
{
    if v < 0 {
        0
    } else if v > 117 {
        117
    } else {
        v
    }
}

/// The five quantizer deltas: luma DC, second-order DC and AC, chroma DC and AC.
pub struct QuantDeltas {
    /// Luma DC.
    pub y1_dc: int,
    /// Second-order DC.
    pub y2_dc: int,
    /// Second-order AC.
    pub y2_ac: int,
    /// Chroma DC.
    pub uv_dc: int,
    /// Chroma AC.
    pub uv_ac: int,
}

/// No deltas.
pub open spec fn no_deltas() -> QuantDeltas {
    QuantDeltas { y1_dc: 0, y2_dc: 0, y2_ac: 0, uv_dc: 0, uv_ac: 0 }
}

/// The second-order AC step for an AC step: 1.55 times it, at least eight.
pub open spec fn y2_ac_step(ac: int) -> int {
    let v = (ac * 101581) / 65536;
    if v < 8 {
        8
    } else {
        v
    }
}

/// Whether `m` holds the steps of quantizer index `q` with deltas `e`.
pub open spec fn steps_of(m: QuantMatrix, q: int, e: QuantDeltas) -> bool {
    &&& m.y1@[0] == dc_quant_spec(clamp_int(q + e.y1_dc, 0, 127))
    &&& m.y1@[1] == ac_quant_spec(clamp_int(q, 0, 127))
    &&& m.y2@[0] == 2 * dc_quant_spec(clamp_int(q + e.y2_dc, 0, 127))
    &&& m.y2@[1] == y2_ac_step(ac_quant_spec(clamp_int(q + e.y2_ac, 0, 127)))
    &&& m.uv@[0] == dc_quant_spec(clamp_int(q + e.uv_dc, 0, 117))
    &&& m.uv@[1] == ac_quant_spec(clamp_int(q + e.uv_ac, 0, 127))
}

/// Read an optional `n`-bit signed value, zero if absent.
pub open spec fn opt_signed_read(d: DecState, n: nat) -> (int, DecState) {
    let (present, d1) = dec_step(d, 128);
    if present {
        read_signed_spec(d1, n)
    } else {
        (0, d1)
    }
}

/// Read `k` optional signed values.
pub open spec fn opt_signed_list(d: DecState, n: nat, k: int) -> (Seq<int>, DecState)
    decreases k,
{
    if k <= 0 {
        (Seq::empty(), d)
    } else {
        let (l, d1) = opt_signed_list(d, n, k - 1);
        let (v, d2) = opt_signed_read(d1, n);
        (l.push(v), d2)
    }
}

/// Read `k` optional probabilities, 255 if absent.
pub open spec fn opt_prob_list(d: DecState, k: int) -> (Seq<int>, DecState)
    decreases k,
{
    if k <= 0 {
        (Seq::empty(), d)
    } else {
        let (l, d1) = opt_prob_list(d, k - 1);
        let (present, d2) = dec_step(d1, 128);
        if present {
            let (v, d3) = read_literal_spec(d2, 8);
            (l.push(v), d3)
        } else {
            (l.push(255), d2)
        }
    }
}

/// Read `k` optional 6-bit signed values, keeping `prev` where absent.
pub open spec fn delta_list(d: DecState, prev: Seq<int>, k: int) -> (Seq<int>, DecState)
    decreases k,
{
    if k <= 0 {
        (Seq::empty(), d)
    } else {
        let (l, d1) = delta_list(d, prev, k - 1);
        let (present, d2) = dec_step(d1, 128);
        if present {
            let (v, d3) = read_signed_spec(d2, 6);
            (l.push(v), d3)
        } else {
            (l.push(prev[k - 1]), d2)
        }
    }
}

/// What the segment header determines.
#[verifier::ext_equal]
pub struct SegmentState {
    /// Whether segments are used.
    pub use_segment: bool,
    /// Whether the segment map is coded.
    pub update_map: bool,
    /// Whether the values are absolute.
    pub absolute_delta: bool,
    /// Quantizer per segment.
    pub quantizer: Seq<int>,
    /// Filter level per segment.
    pub strength: Seq<int>,
    /// Tree probabilities.
    pub probs: Seq<int>,
}

/// The segment state of a frame.
pub open spec fn segment_state(f: Frame) -> SegmentState {
    SegmentState {
        use_segment: f.segment.use_segment,
        update_map: f.segment.update_map,
        absolute_delta: f.segment.absolute_delta,
        quantizer: Seq::new(4, |i: int| f.segment.quantizer@[i] as int),
        strength: Seq::new(4, |i: int| f.segment.filter_strength@[i] as int),
        probs: Seq::new(3, |i: int| f.proba.segments@[i] as int),
    }
}

/// Read the segment header.
pub open spec fn segment_header_read(d: DecState, prev: SegmentState) -> (SegmentState, DecState) {
    let (use_segment, d1) = dec_step(d, 128);
    if !use_segment {
        (SegmentState { use_segment: false, update_map: false, ..prev }, d1)
    } else {
        let (update_map, d2) = dec_step(d1, 128);
        let (update_data, d3) = dec_step(d2, 128);
        let (absolute_delta, d4) = if update_data {
            dec_step(d3, 128)
        } else {
            (prev.absolute_delta, d3)
        };
        let (quantizer, d5) = if update_data {
            opt_signed_list(d4, 7, 4)
        } else {
            (prev.quantizer, d4)
        };
        let (strength, d6) = if update_data {
            opt_signed_list(d5, 6, 4)
        } else {
            (prev.strength, d5)
        };
        let (probs, d7) = if update_map {
            opt_prob_list(d6, 3)
        } else {
            (prev.probs, d6)
        };
        (
            SegmentState { use_segment: true, update_map, absolute_delta, quantizer, strength, probs },
            d7,
        )
    }
}

/// What the filter header determines.
#[verifier::ext_equal]
pub struct FilterState {
    /// Whether the simple filter is used.
    pub simple: bool,
    /// Filter level.
    pub level: int,
    /// Sharpness.
    pub sharpness: int,
    /// Whether level deltas apply.
    pub use_lf_delta: bool,
    /// Delta per reference frame.
    pub refs: Seq<int>,
    /// Delta per mode.
    pub modes: Seq<int>,
}

/// The filter state of a frame.
pub open spec fn filter_state(f: Frame) -> FilterState {
    FilterState {
        simple: f.filter.simple,
        level: f.filter.level as int,
        sharpness: f.filter.sharpness as int,
        use_lf_delta: f.filter.use_lf_delta,
        refs: Seq::new(4, |i: int| f.filter.ref_lf_delta@[i] as int),
        modes: Seq::new(4, |i: int| f.filter.mode_lf_delta@[i] as int),
    }
}

/// Read the filter header.
pub open spec fn filter_header_read(d: DecState, prev: FilterState) -> (FilterState, DecState) {
    let (simple, d1) = dec_step(d, 128);
    let (level, d2) = read_literal_spec(d1, 6);
    let (sharpness, d3) = read_literal_spec(d2, 3);
    let (use_lf_delta, d4) = dec_step(d3, 128);
    let (update, d5) = if use_lf_delta {
        dec_step(d4, 128)
    } else {
        (false, d4)
    };
    if update {
        let (refs, d6) = delta_list(d5, prev.refs, 4);
        let (modes, d7) = delta_list(d6, prev.modes, 4);
        (FilterState { simple, level, sharpness, use_lf_delta, refs, modes }, d7)
    } else {
        (
            FilterState {
                simple,
                level,
                sharpness,
                use_lf_delta,
                refs: prev.refs,
                modes: prev.modes,
            },
            d5,
        )
    }
}

/// The filter type a filter header selects: 0 none, 1 simple, 2 normal.
pub open spec fn filter_type_spec(level: int, simple: bool) -> u8 {
    if level == 0 {
        0
    } else if simple {
        1
    } else {
        2
    }
}

/// Whether only the segment and filter state of a frame may have changed.
pub open spec fn same_but_headers(a: Frame, b: Frame) -> bool {
    &&& a.mb_w == b.mb_w
    &&& a.mb_h == b.mb_h
    &&& a.num_parts == b.num_parts
    &&& a.dqm == b.dqm
    &&& a.proba.bands == b.proba.bands
    &&& a.proba.use_skip == b.proba.use_skip
    &&& a.proba.skip_p == b.proba.skip_p
    &&& a.intra_t@ == b.intra_t@
    &&& a.intra_l == b.intra_l
    &&& a.mb_info@ == b.mb_info@
    &&& a.mb_data@ == b.mb_data@
}

fn read_opt_signed(br: &mut BoolDecoder<'_>, n: u32) -> (v: i32)
    requires
        old(br).wf(),
        n <= 7,
    ensures
        final(br).wf(),
        (v as int, final(br)@) == opt_signed_read(old(br)@, n as nat),
        -128 <= v <= 128,
{
    if br.read_flag() {
        let v: i32 = br.read_signed(n);
        proof {
            lemma_small_pow2(n as nat);
        }
        v
    } else {
        0
    }
}

proof fn lemma_small_pow2(n: nat)
    requires
        n <= 8,
    ensures
        vstd::arithmetic::power2::pow2(n) <= 256,
        n <= 7 ==> vstd::arithmetic::power2::pow2(n) <= 128,
{
    vstd::arithmetic::power2::lemma2_to64();
    if n < 8 {
        vstd::arithmetic::power2::lemma_pow2_strictly_increases(n, 8);
    }
    if n < 7 {
        vstd::arithmetic::power2::lemma_pow2_strictly_increases(n, 7);
    }
}

fn read_signed_list(br: &mut BoolDecoder<'_>, n: u32) -> (r: [i32; 4])
    requires
        old(br).wf(),
        n <= 7,
    ensures
        final(br).wf(),
        Seq::new(4, |i: int| r@[i] as int) == opt_signed_list(old(br)@, n as nat, 4).0,
        final(br)@ == opt_signed_list(old(br)@, n as nat, 4).1,
        forall|i: int| 0 <= i < 4 ==> -128 <= #[trigger] r@[i] <= 128,
{
    let ghost d0 = br@;
    let a: i32 = read_opt_signed(br, n);
    let b: i32 = read_opt_signed(br, n);
    let c: i32 = read_opt_signed(br, n);
    let e: i32 = read_opt_signed(br, n);
    let r: [i32; 4] = [a, b, c, e];
    proof {
        reveal_with_fuel(opt_signed_list, 5);
        assert(Seq::new(4, |i: int| r@[i] as int) =~= opt_signed_list(d0, n as nat, 4).0);
    }
    r
}

fn read_prob_list(br: &mut BoolDecoder<'_>) -> (r: [u8; 3])
    requires
        old(br).wf(),
    ensures
        final(br).wf(),
        Seq::new(3, |i: int| r@[i] as int) == opt_prob_list(old(br)@, 3).0,
        final(br)@ == opt_prob_list(old(br)@, 3).1,
{
    let ghost d0 = br@;
    let mut r: [u8; 3] = [255u8; 3];
    let mut i: usize = 0;
    while i < 3
        invariant
            i <= 3,
            br.wf(),
            br@ == opt_prob_list(d0, i as int).1,
            opt_prob_list(d0, i as int).0.len() == i,
            forall|j: int| 0 <= j < i ==> #[trigger] r@[j] == opt_prob_list(d0, i as int).0[j],
        decreases 3 - i,
    {
        if br.read_flag() {
            let v: u32 = br.read_literal(8);
            proof {
                lemma_small_pow2(8);
            }
            r[i] = v as u8;
        } else {
            r[i] = 255;
        }
        i = i + 1;
    }
    assert(Seq::new(3, |j: int| r@[j] as int) =~= opt_prob_list(d0, 3).0);
    r
}

fn read_delta_list(br: &mut BoolDecoder<'_>, prev: [i32; 4]) -> (r: [i32; 4])
    requires
        old(br).wf(),
    ensures
        final(br).wf(),
        Seq::new(4, |i: int| r@[i] as int) == delta_list(
            old(br)@,
            Seq::new(4, |i: int| prev@[i] as int),
            4,
        ).0,
        final(br)@ == delta_list(old(br)@, Seq::new(4, |i: int| prev@[i] as int), 4).1,
        forall|i: int|
            0 <= i < 4 ==> #[trigger] r@[i] == prev@[i] || -64 < r@[i] < 64,
{
    let ghost d0 = br@;
    let ghost p = Seq::new(4, |i: int| prev@[i] as int);
    let mut r: [i32; 4] = prev;
    let mut i: usize = 0;
    while i < 4
        invariant
            i <= 4,
            br.wf(),
            p == Seq::new(4, |i: int| prev@[i] as int),
            br@ == delta_list(d0, p, i as int).1,
            delta_list(d0, p, i as int).0.len() == i,
            forall|j: int| 0 <= j < i ==> #[trigger] r@[j] == delta_list(d0, p, i as int).0[j],
            forall|j: int| i <= j < 4 ==> #[trigger] r@[j] == prev@[j],
            forall|j: int| 0 <= j < 4 ==> #[trigger] r@[j] == prev@[j] || -64 < r@[j] < 64,
        decreases 4 - i,
    {
        if br.read_flag() {
            proof {
                vstd::arithmetic::power2::lemma2_to64();
            }
            r[i] = br.read_signed(6);
        }
        i = i + 1;
    }
    assert(Seq::new(4, |j: int| r@[j] as int) =~= delta_list(d0, p, 4).0);
    r
}

/// Read an optional signed 4-bit quantizer delta.
fn read_delta(br: &mut BoolDecoder<'_>) -> (v: i32)
    requires
        old(br).wf(),
    ensures
        final(br).wf(),
        (v as int, final(br)@) == opt_signed_read(old(br)@, 4),
        -128 <= v <= 128,
{
    read_opt_signed(br, 4)
}

/// Number of token partitions that a 2-bit literal announces.
pub open spec fn partition_count(code: int) -> int {
    if code == 0 {
        1
    } else if code == 1 {
        2
    } else if code == 2 {
        4
    } else {
        8
    }
}

/// The announced size of partition `p`.
pub open spec fn partition_size(after: Seq<u8>, p: int) -> int {
    after[3 * p] + 256 * after[3 * p + 1] + 65536 * after[3 * p + 2]
}

/// Where partition `p` of `count` starts.
pub open spec fn partition_start(after: Seq<u8>, count: int, p: int) -> int
    decreases p,
{
    if p <= 0 {
        3 * (count - 1)
    } else {
        let start = partition_start(after, count, p - 1);
        let size = partition_size(after, p - 1);
        if size < after.len() - start {
            start + size
        } else {
            after.len() as int
        }
    }
}

/// The bytes of partition `p`: its announced size limited to what is there, and all
/// that is left for the last one.
pub open spec fn partition_bytes(after: Seq<u8>, count: int, p: int) -> Seq<u8> {
    after.subrange(
        partition_start(after, count, p),
        if p < count - 1 {
            partition_start(after, count, p + 1)
        } else {
            after.len() as int
        },
    )
}

/// Read the base quantizer and the deltas.
pub open spec fn quant_read(d: DecState) -> (int, QuantDeltas, DecState) {
    let (base, d1) = read_literal_spec(d, 7);
    let (y1_dc, d2) = opt_signed_read(d1, 4);
    let (y2_dc, d3) = opt_signed_read(d2, 4);
    let (y2_ac, d4) = opt_signed_read(d3, 4);
    let (uv_dc, d5) = opt_signed_read(d4, 4);
    let (uv_ac, d6) = opt_signed_read(d5, 4);
    (base, QuantDeltas { y1_dc, y2_dc, y2_ac, uv_dc, uv_ac }, d6)
}

/// The quantizer index of segment `i`.
pub open spec fn segment_q(f: Frame, base: int, i: int) -> int {
    if !f.segment.use_segment {
        base
    } else if f.segment.absolute_delta {
        f.segment.quantizer@[i] as int
    } else {
        f.segment.quantizer@[i] + base
    }
}

/// Entry `k` of a probability table in transmission order.
pub open spec fn proba_entry(p: CoeffProbas, k: int) -> u8 {
    p[k / 264][(k / 33) % 8][(k / 11) % 3][k % 11]
}

/// Read the first `k` coefficient probabilities: a replacement or the default.
pub open spec fn probas_read(d: DecState, k: int) -> (Seq<int>, DecState)
    decreases k,
{
    if k <= 0 {
        (Seq::empty(), d)
    } else {
        let (l, d1) = probas_read(d, k - 1);
        let (update, d2) = dec_step(d1, proba_entry(coeffs_update_proba(), k - 1));
        if update {
            let (v, d3) = read_literal_spec(d2, 8);
            (l.push(v), d3)
        } else {
            (l.push(proba_entry(coeffs_proba_0(), k - 1) as int), d2)
        }
    }
}

/// Read the skip probability: whether it is used, its value and the decoder.
pub open spec fn skip_read(d: DecState, prev: u8) -> (bool, int, DecState) {
    let (use_skip, d1) = dec_step(d, 128);
    if use_skip {
        let (p, d2) = read_literal_spec(d1, 8);
        (true, p, d2)
    } else {
        (false, prev as int, d1)
    }
}

/// Distinct transmission positions are distinct table entries.
pub proof fn lemma_proba_coords(k: int)
    requires
        0 <= k < 1056,
    ensures
        0 <= k / 264 < 4,
        0 <= (k / 33) % 8 < 8,
        0 <= (k / 11) % 3 < 3,
        0 <= k % 11 < 11,
        k == 264 * (k / 264) + 33 * ((k / 33) % 8) + 11 * ((k / 11) % 3) + k % 11,
{
    let a = k / 11;
    let b = a / 3;
    vstd::arithmetic::div_mod::lemma_div_denominator(k, 11, 3);
    vstd::arithmetic::div_mod::lemma_div_denominator(k, 33, 8);
    assert(k / 33 == b);
    assert(k / 264 == b / 8);
    assert(k == 11 * a + k % 11);
    assert(a == 3 * b + a % 3);
    assert(b == 8 * (b / 8) + b % 8);
    assert(0 <= a < 96);
    assert(0 <= b < 32);
}

impl Frame {
    /// Parse the color space, the segment header and the filter header.
    pub fn parse_headers(&mut self, br: &mut BoolDecoder<'_>)
        requires
            old(br).wf(),
        ensures
            final(br).wf(),
            same_but_headers(*final(self), *old(self)),
            old(self).wf() ==> final(self).wf(),
            ({
                let d1 = dec_step(old(br)@, 128).1;
                let d2 = dec_step(d1, 128).1;
                let (seg, d3) = segment_header_read(d2, segment_state(*old(self)));
                let (filter, d4) = filter_header_read(d3, filter_state(*old(self)));
                &&& segment_state(*final(self)) == seg
                &&& filter_state(*final(self)) == filter
                &&& final(self).filter_type == filter_type_spec(filter.level, filter.simple)
                &&& final(br)@ == d4
            }),
            segment_bounded(*old(self)) ==> segment_bounded(*final(self)),
            filter_bounded(*old(self)) ==> filter_bounded(*final(self)),
    {
        let _color_space: bool = br.read_flag();
        let _clamp_type: bool = br.read_flag();
        self.parse_segment_header(br);
        self.parse_filter_header(br);
    }

    /// Parse the segment header: which segments there are, their quantizer and filter
    /// values, and the segment tree.
    pub fn parse_segment_header(&mut self, br: &mut BoolDecoder<'_>)
        requires
            old(br).wf(),
        ensures
            final(br).wf(),
            same_but_headers(*final(self), *old(self)),
            final(self).filter == old(self).filter,
            final(self).filter_type == old(self).filter_type,
            (segment_state(*final(self)), final(br)@) == segment_header_read(
                old(br)@,
                segment_state(*old(self)),
            ),
            segment_bounded(*old(self)) ==> segment_bounded(*final(self)),
    {
        let ghost prev = segment_state(*self);
        let ghost d0 = br@;
        self.segment.use_segment = br.read_flag();
        if !self.segment.use_segment {
            self.segment.update_map = false;
            proof {
                assert(segment_state(*self) =~= segment_header_read(d0, prev).0);
            }
            return ;
        }
        self.segment.update_map = br.read_flag();
        if br.read_flag() {
            self.segment.absolute_delta = br.read_flag();
            self.segment.quantizer = read_signed_list(br, 7);
            self.segment.filter_strength = read_signed_list(br, 6);
        }
        if self.segment.update_map {
            self.proba.segments = read_prob_list(br);
        }
        proof {
            let want = segment_header_read(d0, prev).0;
            assert(segment_state(*self).quantizer =~= want.quantizer);
            assert(segment_state(*self).strength =~= want.strength);
            assert(segment_state(*self).probs =~= want.probs);
        }
    }

    /// Parse the filter header.
    pub fn parse_filter_header(&mut self, br: &mut BoolDecoder<'_>)
        requires
            old(br).wf(),
        ensures
            final(br).wf(),
            same_but_headers(*final(self), *old(self)),
            final(self).segment == old(self).segment,
            final(self).proba == old(self).proba,
            (filter_state(*final(self)), final(br)@) == filter_header_read(
                old(br)@,
                filter_state(*old(self)),
            ),
            final(self).filter_type == filter_type_spec(
                final(self).filter.level as int,
                final(self).filter.simple,
            ),
            filter_bounded(*old(self)) ==> filter_bounded(*final(self)),
    {
        let ghost prev = filter_state(*self);
        let ghost d0 = br@;
        proof {
            vstd::arithmetic::power2::lemma2_to64();
        }
        self.filter.simple = br.read_flag();
        let level: u32 = br.read_literal(6);
        let sharpness: u32 = br.read_literal(3);
        self.filter.level = level as i32;
        self.filter.sharpness = sharpness as i32;
        self.filter.use_lf_delta = br.read_flag();
        let update: bool = if self.filter.use_lf_delta {
            br.read_flag()
        } else {
            false
        };
        if update {
            self.filter.ref_lf_delta = read_delta_list(br, self.filter.ref_lf_delta);
            self.filter.mode_lf_delta = read_delta_list(br, self.filter.mode_lf_delta);
        }
        self.filter_type = if self.filter.level == 0 {
            0
        } else if self.filter.simple {
            1
        } else {
            2
        };
        proof {
            let want = filter_header_read(d0, prev).0;
            assert(filter_state(*self).refs =~= want.refs);
            assert(filter_state(*self).modes =~= want.modes);
            if filter_bounded(*old(self)) {
                assert forall|i: int| 0 <= i < 4 implies -65536
                    <= #[trigger] self.filter.ref_lf_delta@[i] <= 65536 && -65536
                    <= self.filter.mode_lf_delta@[i] <= 65536 by {
                    let a = old(self).filter.ref_lf_delta@[i];
                    let b = self.filter.mode_lf_delta@[i];
                }
            }
        }
    }

    /// Read the token-partition count and carve the partitions out of `after`.
    ///
    /// # Errors
    ///
    /// [`Error::Truncated`] if `after` is too short for the size table.
    pub fn parse_partitions<'a>(&mut self, br: &mut BoolDecoder<'_>, after: &'a [u8]) -> (r: Result<
        Vec<&'a [u8]>,
    >)
        requires
            old(br).wf(),
        ensures
            final(br).wf(),
            ({
                let (code, d) = read_literal_spec(old(br)@, 2);
                let count = partition_count(code);
                &&& final(br)@ == d
                &&& final(self).num_parts == count
                &&& match r {
                    Ok(parts) => {
                        &&& after@.len() >= 3 * (count - 1)
                        &&& parts@.len() == count
                        &&& forall|p: int|
                            0 <= p < count ==> (#[trigger] parts@[p])@ == partition_bytes(
                                after@,
                                count,
                                p,
                            )
                    },
                    Err(e) => e == Error::Truncated && after@.len() < 3 * (count - 1),
                }
            }),
            *final(self) == (Frame { num_parts: final(self).num_parts, ..*old(self) }),
    {
        proof {
            vstd::arithmetic::power2::lemma2_to64();
        }
        let code: u32 = br.read_literal(2);
        let num_parts: usize = if code == 0 {
            1
        } else if code == 1 {
            2
        } else if code == 2 {
            4
        } else {
            8
        };
        self.num_parts = num_parts;
        let last: usize = num_parts - 1;
        if after.len() < 3 * last {
            return Err(Error::Truncated);
        }
        let mut parts: Vec<&'a [u8]> = Vec::with_capacity(num_parts);
        let mut start: usize = 3 * last;
        let mut p: usize = 0;
        while p < last
            invariant
                p <= last,
                last + 1 == num_parts,
                num_parts <= 8,
                3 * last <= start <= after@.len(),
                start == partition_start(after@, num_parts as int, p as int),
                parts@.len() == p,
                forall|j: int|
                    0 <= j < p ==> (#[trigger] parts@[j])@ == partition_bytes(
                        after@,
                        num_parts as int,
                        j,
                    ),
            decreases last - p,
        {
            let size: usize = after[3 * p] as usize + 256 * after[3 * p + 1] as usize + 65536
                * after[3 * p + 2] as usize;
            let left: usize = after.len() - start;
            let psize: usize = if size < left {
                size
            } else {
                left
            };
            let part: &'a [u8] = vstd::slice::slice_subrange(after, start, start + psize);
            parts.push(part);
            start = start + psize;
            p = p + 1;
        }
        let part: &'a [u8] = vstd::slice::slice_subrange(after, start, after.len());
        parts.push(part);
        Ok(parts)
    }

    /// Read the base quantizer and deltas and fill the per-segment steps.
    pub fn parse_quant(&mut self, br: &mut BoolDecoder<'_>)
        requires
            old(br).wf(),
            segment_bounded(*old(self)),
        ensures
            final(br).wf(),
            *final(self) == (Frame { dqm: final(self).dqm, ..*old(self) }),
            ({
                let (base, deltas, d) = quant_read(old(br)@);
                &&& final(br)@ == d
                &&& forall|i: int|
                    0 <= i < 4 ==> steps_of(
                        #[trigger] final(self).dqm@[i],
                        segment_q(*old(self), base, i),
                        deltas,
                    )
            }),
            forall|i: int| 0 <= i < 4 ==> (#[trigger] final(self).dqm@[i]).wf(),
    {
        proof {
            vstd::arithmetic::power2::lemma2_to64();
        }
        let base: i32 = br.read_literal(7) as i32;
        let y1_dc: i32 = read_delta(br);
        let y2_dc: i32 = read_delta(br);
        let y2_ac: i32 = read_delta(br);
        let uv_dc: i32 = read_delta(br);
        let uv_ac: i32 = read_delta(br);
        let ghost deltas = QuantDeltas {
            y1_dc: y1_dc as int,
            y2_dc: y2_dc as int,
            y2_ac: y2_ac as int,
            uv_dc: uv_dc as int,
            uv_ac: uv_ac as int,
        };
        let ghost f0 = *self;
        let mut i: usize = 0;
        while i < 4
            invariant
                i <= 4,
                segment_bounded(f0),
                *self == (Frame { dqm: self.dqm, ..f0 }),
                0 <= base < 128,
                -128 <= y1_dc <= 128,
                -128 <= y2_dc <= 128,
                -128 <= y2_ac <= 128,
                -128 <= uv_dc <= 128,
                -128 <= uv_ac <= 128,
                deltas == (QuantDeltas {
                    y1_dc: y1_dc as int,
                    y2_dc: y2_dc as int,
                    y2_ac: y2_ac as int,
                    uv_dc: uv_dc as int,
                    uv_ac: uv_ac as int,
                }),
                forall|j: int|
                    0 <= j < i ==> steps_of(
                        #[trigger] self.dqm@[j],
                        segment_q(f0, base as int, j),
                        deltas,
                    ) && self.dqm@[j].wf(),
            decreases 4 - i,
        {
            if !self.segment.use_segment && i > 0 {
                self.dqm[i] = self.dqm[0];
            } else {
                let q: i32 = if self.segment.use_segment {
                    if self.segment.absolute_delta {
                        self.segment.quantizer[i]
                    } else {
                        self.segment.quantizer[i] + base
                    }
                } else {
                    base
                };
                let y2: i32 = (ac_quant(clip_q(q + y2_ac)) * 101581) >> 16;
                let m = QuantMatrix {
                    y1: [dc_quant(clip_q(q + y1_dc)), ac_quant(clip_q(q))],
                    y2: [
                        dc_quant(clip_q(q + y2_dc)) * 2,
                        if y2 < 8 {
                            8
                        } else {
                            y2
                        },
                    ],
                    uv: [dc_quant(clip_uv(q + uv_dc)), ac_quant(clip_q(q + uv_ac))],
                };
                self.dqm[i] = m;
            }
            i = i + 1;
        }
    }

    /// Read the coefficient-probability updates and the skip probability.
    pub fn parse_proba(&mut self, br: &mut BoolDecoder<'_>)
        requires
            old(br).wf(),
        ensures
            final(br).wf(),
            *final(self) == (Frame { proba: final(self).proba, ..*old(self) }),
            final(self).proba.segments == old(self).proba.segments,
            ({
                let (l, d1) = probas_read(old(br)@, 1056);
                let (use_skip, skip_p, d2) = skip_read(d1, old(self).proba.skip_p);
                &&& forall|k: int|
                    0 <= k < 1056 ==> #[trigger] proba_entry(final(self).proba.bands, k) == l[k]
                &&& final(self).proba.use_skip == use_skip
                &&& final(self).proba.skip_p == skip_p
                &&& final(br)@ == d2
            }),
    {
        let ghost d0 = br@;
        let mut bands: CoeffProbas = self.proba.bands;
        let mut k: usize = 0;
        proof {
            vstd::arithmetic::power2::lemma2_to64();
        }
        while k < 1056
            invariant
                k <= 1056,
                br.wf(),
                br@ == probas_read(d0, k as int).1,
                probas_read(d0, k as int).0.len() == k,
                forall|j: int|
                    0 <= j < k ==> #[trigger] proba_entry(bands, j) == probas_read(d0, k as int).0[j],
            decreases 1056 - k,
        {
            let t: usize = k / 264;
            let b: usize = (k / 33) % 8;
            let c: usize = (k / 11) % 3;
            let p: usize = k % 11;
            let ghost before = bands;
            let v: u8 = if br.read_bool(update_proba(t, b, c, p)) {
                proof {
                    lemma_small_pow2(8);
                }
                br.read_literal(8) as u8
            } else {
                default_proba(t, b, c, p)
            };
            bands[t][b][c][p] = v;
            proof {
                assert forall|j: int| 0 <= j < k + 1 implies #[trigger] proba_entry(bands, j)
                    == probas_read(d0, k + 1).0[j] by {
                    lemma_proba_coords(j);
                    lemma_proba_coords(k as int);
                    if j < k {
                        assert(proba_entry(bands, j) == proba_entry(before, j));
                    }
                }
            }
            k = k + 1;
        }
        self.proba.bands = bands;
        self.proba.use_skip = br.read_flag();
        if self.proba.use_skip {
            proof {
                lemma_small_pow2(8);
            }
            self.proba.skip_p = br.read_literal(8) as u8;
        }
    }
}

/// Whether the per-segment values are small enough for the header arithmetic.
pub open spec fn segment_bounded(f: Frame) -> bool {
    forall|i: int|
        0 <= i < 4 ==> -65536 <= #[trigger] f.segment.quantizer@[i] <= 65536 && -65536
            <= f.segment.filter_strength@[i] <= 65536
}

/// Whether the filter parameters are small enough for the filter arithmetic.
pub open spec fn filter_bounded(f: Frame) -> bool {
    &&& 0 <= f.filter.level < 64
    &&& 0 <= f.filter.sharpness < 8
    &&& forall|i: int|
        0 <= i < 4 ==> -65536 <= #[trigger] f.filter.ref_lf_delta@[i] <= 65536 && -65536
            <= f.filter.mode_lf_delta@[i] <= 65536
}

} // verus!
