//! Emission of the frame header and the control-partition header, and the laws that
//! parsing reads them back.

use vstd::arithmetic::power2::{lemma2_to64, pow2};
use vstd::prelude::*;

use crate::bool_dec::{read_literal_inverts_put_literal, read_signed_inverts_put_signed};
use crate::bool_enc::{literal_syms, signed_syms, BoolEncoder};
use crate::coder::{dec_after, dec_step, decodes, lemma_decodes_concat, DecState, Sym};
use crate::constants::{
    coeffs_proba_0, coeffs_update_proba, update_proba, CoeffProbas, CoeffUpdateFlags, Prob,
};
use crate::decode::FilterHeader;
use crate::frame_header::{header_fields, is_key_frame_header, FrameHeader};
use crate::header::{
    filter_header_read, no_deltas, opt_prob_list, opt_signed_list, opt_signed_read, proba_entry,
    probas_read, quant_read, segment_header_read, skip_read, FilterState, SegmentState,
};

verus! {

/// The segment header to emit.
#[derive(Clone, Copy, PartialEq, Eq, Debug)]
pub struct SegmentParams {
    /// Quantizer delta per segment.
    pub quantizer: [i32; 4],
    /// Filter-level delta per segment.
    pub filter_strength: [i32; 4],
    /// Segment tree probabilities.
    pub tree_probs: [Prob; 3],
}

/// What the control header of a frame says.
#[derive(Clone, Copy)]
pub struct HeaderParams<'a> {
    /// Base quantizer index.
    pub base_q: i32,
    /// Loop filter.
    pub filter: &'a FilterHeader,
    /// Segments, if the frame has more than one.
    pub segments: Option<SegmentParams>,
}

/// The uncompressed header of a displayed version-zero key frame.
pub fn frame_header_bytes(first_partition_size: u32, width: u16, height: u16) -> (r: [u8; 10])
    ensures
        r@ == frame_header_spec(first_partition_size as int, width as int, height as int),
{
    let size: u32 = first_partition_size % 0x80000;
    let r: [u8; 10] = [
        ((size % 8) * 32 + 16) as u8,
        ((size / 8) % 256) as u8,
        (size / 2048) as u8,
        0x9d,
        0x01,
        0x2a,
        (width % 256) as u8,
        (width / 256) as u8,
        (height % 256) as u8,
        (height / 256) as u8,
    ];
    assert(r@ =~= frame_header_spec(first_partition_size as int, width as int, height as int));
    r
}

/// The ten header bytes; the partition size keeps its low nineteen bits.
pub open spec fn frame_header_spec(first_partition_size: int, width: int, height: int) -> Seq<u8> {
    let size = first_partition_size % 0x80000;
    seq![
        ((size % 8) * 32 + 16) as u8,
        ((size / 8) % 256) as u8,
        (size / 2048) as u8,
        0x9du8,
        0x01u8,
        0x2au8,
        (width % 256) as u8,
        (width / 256) as u8,
        (height % 256) as u8,
        (height / 256) as u8,
    ]
}

/// Parsing a written frame header returns what was written.
pub proof fn parse_inverts_frame_header_bytes(size: int, width: int, height: int, rest: Seq<u8>)
    requires
        0 <= size < 0x80000,
        1 <= width < 16384,
        1 <= height < 16384,
    ensures
        ({
            let b = frame_header_spec(size, width, height) + rest;
            &&& is_key_frame_header(b)
            &&& header_fields(b) == (FrameHeader {
                key_frame: true,
                version: 0,
                show_frame: true,
                first_partition_size: size as u32,
                width: width as u16,
                height: height as u16,
                x_scale: 0,
                y_scale: 0,
            })
        }),
{
    let b = frame_header_spec(size, width, height) + rest;
    assert(b[0] == (size % 8) * 32 + 16);
    assert(b[0] / 32 == size % 8);
    assert(b[1] == (size / 8) % 256);
    assert(size / 2048 == (size / 8) / 256) by {
        vstd::arithmetic::div_mod::lemma_div_denominator(size, 8, 256);
    }
    assert(b[2] == size / 2048);
    assert(b[0] as int / 32 + 8 * b[1] + 2048 * b[2] == size);
    assert(b[0] % 2 == 0);
    assert(b[0] / 2 == (size % 8) * 16 + 8);
    assert((b[0] / 2) % 8 == 0);
    assert(b[0] / 16 == (size % 8) * 2 + 1);
    assert((b[0] / 16) % 2 == 1);
    assert(b[6] + 256 * b[7] == width);
    assert(b[8] + 256 * b[9] == height);
    assert(b[7] / 64 == 0 && b[9] / 64 == 0);
}

/// The symbols of a value that is omitted when zero.
pub open spec fn opt_signed_syms(v: int, n: nat) -> Seq<Sym> {
    if v != 0 {
        seq![(128u8, true)] + signed_syms(v, n)
    } else {
        seq![(128u8, false)]
    }
}

/// The symbols of the first `k` such values.
pub open spec fn opt_signed_list_syms(v: Seq<i32>, n: nat, k: int) -> Seq<Sym>
    decreases k,
{
    if k <= 0 {
        Seq::empty()
    } else {
        opt_signed_list_syms(v, n, k - 1) + opt_signed_syms(v[k - 1] as int, n)
    }
}

/// The symbols of the first `k` tree probabilities, each with its flag set.
pub open spec fn prob_list_syms(v: Seq<u8>, k: int) -> Seq<Sym>
    decreases k,
{
    if k <= 0 {
        Seq::empty()
    } else {
        prob_list_syms(v, k - 1) + seq![(128u8, true)] + literal_syms(v[k - 1] as int, 8)
    }
}

/// The symbols of the segment header: values are deltas and the map is coded.
pub open spec fn segment_header_syms(segments: Option<SegmentParams>) -> Seq<Sym> {
    match segments {
        None => seq![(128u8, false)],
        Some(s) => seq![(128u8, true), (128u8, true), (128u8, true), (128u8, false)]
            + opt_signed_list_syms(s.quantizer@, 7, 4) + opt_signed_list_syms(
            s.filter_strength@,
            6,
            4,
        ) + prob_list_syms(s.tree_probs@, 3),
    }
}

/// The symbols of the filter header, without level deltas.
pub open spec fn filter_header_syms(f: FilterHeader) -> Seq<Sym> {
    seq![(128u8, f.simple)] + literal_syms(f.level as int, 6) + literal_syms(f.sharpness as int, 3)
        + seq![(128u8, false)]
}

/// The symbols of the quantizer header, without deltas.
pub open spec fn quant_syms(base_q: int) -> Seq<Sym> {
    literal_syms(base_q, 7) + seq![
        (128u8, false),
        (128u8, false),
        (128u8, false),
        (128u8, false),
        (128u8, false),
    ]
}

/// Entry `k` of the update flags in transmission order.
pub open spec fn update_entry(u: CoeffUpdateFlags, k: int) -> bool {
    u[k / 264][(k / 33) % 8][(k / 11) % 3][k % 11]
}

/// The symbols of the first `k` coefficient-probability updates.
pub open spec fn proba_syms(probas: CoeffProbas, updated: CoeffUpdateFlags, k: int) -> Seq<Sym>
    decreases k,
{
    if k <= 0 {
        Seq::empty()
    } else {
        proba_syms(probas, updated, k - 1) + seq![
            (proba_entry(coeffs_update_proba(), k - 1), update_entry(updated, k - 1)),
        ] + (if update_entry(updated, k - 1) {
            literal_syms(proba_entry(probas, k - 1) as int, 8)
        } else {
            Seq::empty()
        })
    }
}

/// The symbols of the skip probability.
pub open spec fn skip_syms(use_skip: bool, skip_p: u8) -> Seq<Sym> {
    if use_skip {
        seq![(128u8, true)] + literal_syms(skip_p as int, 8)
    } else {
        seq![(128u8, false)]
    }
}

/// The symbols of the whole control header.
pub open spec fn control_syms(
    header: HeaderParams<'_>,
    probas: CoeffProbas,
    updated: CoeffUpdateFlags,
    use_skip: bool,
    skip_p: u8,
) -> Seq<Sym> {
    seq![(128u8, false), (128u8, false)] + segment_header_syms(header.segments)
        + filter_header_syms(*header.filter) + literal_syms(0, 2) + quant_syms(header.base_q as int)
        + seq![(128u8, false)] + proba_syms(probas, updated, 1056) + skip_syms(use_skip, skip_p)
}

fn put_opt_signed(enc: &mut BoolEncoder, n: u32, v: i32)
    requires
        old(enc).wf(),
        n <= 32,
    ensures
        final(enc).wf(),
        final(enc)@ == old(enc)@ + opt_signed_syms(v as int, n as nat),
{
    let ghost start = enc@;
    enc.put_flag(v != 0);
    if v != 0 {
        enc.put_signed(n, v);
    }
    assert(enc@ =~= start + opt_signed_syms(v as int, n as nat));
}

fn put_opt_signed_list(enc: &mut BoolEncoder, n: u32, v: &[i32; 4])
    requires
        old(enc).wf(),
        n <= 32,
    ensures
        final(enc).wf(),
        final(enc)@ == old(enc)@ + opt_signed_list_syms(v@, n as nat, 4),
{
    let ghost start = enc@;
    let mut i: usize = 0;
    assert(enc@ =~= start + opt_signed_list_syms(v@, n as nat, 0));
    while i < 4
        invariant
            i <= 4,
            n <= 32,
            enc.wf(),
            enc@ == start + opt_signed_list_syms(v@, n as nat, i as int),
        decreases 4 - i,
    {
        put_opt_signed(enc, n, v[i]);
        assert(enc@ =~= start + opt_signed_list_syms(v@, n as nat, i + 1));
        i = i + 1;
    }
}

fn put_probs(enc: &mut BoolEncoder, v: &[Prob; 3])
    requires
        old(enc).wf(),
    ensures
        final(enc).wf(),
        final(enc)@ == old(enc)@ + prob_list_syms(v@, 3),
{
    let ghost start = enc@;
    let mut i: usize = 0;
    assert(enc@ =~= start + prob_list_syms(v@, 0));
    while i < 3
        invariant
            i <= 3,
            enc.wf(),
            enc@ == start + prob_list_syms(v@, i as int),
        decreases 3 - i,
    {
        enc.put_flag(true);
        enc.put_literal(8, v[i] as u32);
        assert(enc@ =~= start + prob_list_syms(v@, i + 1));
        i = i + 1;
    }
}

fn put_segment_header(enc: &mut BoolEncoder, segments: Option<SegmentParams>)
    requires
        old(enc).wf(),
    ensures
        final(enc).wf(),
        final(enc)@ == old(enc)@ + segment_header_syms(segments),
{
    let ghost start = enc@;
    match segments {
        None => {
            enc.put_flag(false);
        },
        Some(s) => {
            enc.put_flag(true);
            enc.put_flag(true);
            enc.put_flag(true);
            enc.put_flag(false);
            put_opt_signed_list(enc, 7, &s.quantizer);
            put_opt_signed_list(enc, 6, &s.filter_strength);
            put_probs(enc, &s.tree_probs);
        },
    }
    assert(enc@ =~= start + segment_header_syms(segments));
}

fn put_filter_header(enc: &mut BoolEncoder, f: &FilterHeader)
    requires
        old(enc).wf(),
        0 <= f.level,
        0 <= f.sharpness,
    ensures
        final(enc).wf(),
        final(enc)@ == old(enc)@ + filter_header_syms(*f),
{
    let ghost start = enc@;
    enc.put_flag(f.simple);
    enc.put_literal(6, f.level as u32);
    enc.put_literal(3, f.sharpness as u32);
    enc.put_flag(false);
    assert(enc@ =~= start + filter_header_syms(*f));
}

fn put_quant(enc: &mut BoolEncoder, base_q: i32)
    requires
        old(enc).wf(),
        0 <= base_q,
    ensures
        final(enc).wf(),
        final(enc)@ == old(enc)@ + quant_syms(base_q as int),
{
    let ghost start = enc@;
    enc.put_literal(7, base_q as u32);
    enc.put_flag(false);
    enc.put_flag(false);
    enc.put_flag(false);
    enc.put_flag(false);
    enc.put_flag(false);
    assert(enc@ =~= start + quant_syms(base_q as int));
}

fn put_probas(enc: &mut BoolEncoder, probas: &CoeffProbas, updated: &CoeffUpdateFlags)
    requires
        old(enc).wf(),
    ensures
        final(enc).wf(),
        final(enc)@ == old(enc)@ + proba_syms(*probas, *updated, 1056),
{
    let ghost start = enc@;
    let mut k: usize = 0;
    assert(enc@ =~= start + proba_syms(*probas, *updated, 0));
    while k < 1056
        invariant
            k <= 1056,
            enc.wf(),
            enc@ == start + proba_syms(*probas, *updated, k as int),
        decreases 1056 - k,
    {
        let t: usize = k / 264;
        let b: usize = (k / 33) % 8;
        let c: usize = (k / 11) % 3;
        let p: usize = k % 11;
        let u: bool = updated[t][b][c][p];
        enc.put_bool(update_proba(t, b, c, p), u);
        if u {
            enc.put_literal(8, probas[t][b][c][p] as u32);
        }
        assert(enc@ =~= start + proba_syms(*probas, *updated, k + 1));
        k = k + 1;
    }
}

/// Write the control header.
pub fn write_control_header(
    enc: &mut BoolEncoder,
    header: HeaderParams<'_>,
    probas: &CoeffProbas,
    updated: &CoeffUpdateFlags,
    use_skip: bool,
    skip_p: u8,
)
    requires
        old(enc).wf(),
        0 <= header.base_q,
        0 <= header.filter.level,
        0 <= header.filter.sharpness,
    ensures
        final(enc).wf(),
        final(enc)@ == old(enc)@ + control_syms(header, *probas, *updated, use_skip, skip_p),
{
    let ghost start = enc@;
    enc.put_flag(false);
    enc.put_flag(false);
    put_segment_header(enc, header.segments);
    put_filter_header(enc, header.filter);
    enc.put_literal(2, 0);
    put_quant(enc, header.base_q);
    enc.put_flag(false);
    put_probas(enc, probas, updated);
    enc.put_flag(use_skip);
    if use_skip {
        enc.put_literal(8, skip_p as u32);
    }
    assert(enc@ =~= start + control_syms(header, *probas, *updated, use_skip, skip_p));
}

/// A single symbol read back.
pub proof fn lemma_one(d: DecState, sym: Sym)
    requires
        decodes(d, seq![sym]),
    ensures
        dec_step(d, sym.0) == (sym.1, dec_after(d, seq![sym])),
{
    let s = seq![sym];
    assert(s.drop_first() =~= Seq::<Sym>::empty());
    reveal_with_fuel(decodes, 2);
    reveal_with_fuel(dec_after, 2);
}

proof fn opt_signed_read_inverts(d: DecState, v: int, n: nat)
    requires
        -pow2(n) < v < pow2(n),
        decodes(d, opt_signed_syms(v, n)),
    ensures
        opt_signed_read(d, n) == (v, dec_after(d, opt_signed_syms(v, n))),
{
    if v != 0 {
        lemma_decodes_concat(d, seq![(128u8, true)], signed_syms(v, n));
        lemma_one(d, (128u8, true));
        read_signed_inverts_put_signed(dec_step(d, 128).1, v, n);
    } else {
        lemma_one(d, (128u8, false));
    }
}

proof fn opt_signed_list_inverts(d: DecState, v: Seq<i32>, n: nat, k: int)
    requires
        0 <= k <= v.len(),
        forall|i: int| 0 <= i < v.len() ==> -pow2(n) < #[trigger] v[i] < pow2(n),
        decodes(d, opt_signed_list_syms(v, n, k)),
    ensures
        opt_signed_list(d, n, k).0 == Seq::new(k as nat, |i: int| v[i] as int),
        opt_signed_list(d, n, k).1 == dec_after(d, opt_signed_list_syms(v, n, k)),
    decreases k,
{
    if k > 0 {
        let head = opt_signed_list_syms(v, n, k - 1);
        let tail = opt_signed_syms(v[k - 1] as int, n);
        lemma_decodes_concat(d, head, tail);
        opt_signed_list_inverts(d, v, n, k - 1);
        opt_signed_read_inverts(dec_after(d, head), v[k - 1] as int, n);
    }
    assert(opt_signed_list(d, n, k).0 =~= Seq::new(k as nat, |i: int| v[i] as int));
}

proof fn prob_list_inverts(d: DecState, v: Seq<u8>, k: int)
    requires
        0 <= k <= v.len(),
        decodes(d, prob_list_syms(v, k)),
    ensures
        opt_prob_list(d, k).0 == Seq::new(k as nat, |i: int| v[i] as int),
        opt_prob_list(d, k).1 == dec_after(d, prob_list_syms(v, k)),
    decreases k,
{
    if k > 0 {
        let head = prob_list_syms(v, k - 1);
        let lit = literal_syms(v[k - 1] as int, 8);
        lemma_decodes_concat(d, head + seq![(128u8, true)], lit);
        lemma_decodes_concat(d, head, seq![(128u8, true)]);
        prob_list_inverts(d, v, k - 1);
        let d1 = dec_after(d, head);
        lemma2_to64();
        lemma_one(d1, (128u8, true));
        read_literal_inverts_put_literal(dec_step(d1, 128).1, v[k - 1] as int, 8);
    }
    assert(opt_prob_list(d, k).0 =~= Seq::new(k as nat, |i: int| v[i] as int));
}

/// Whether segment values fit their fields.
pub open spec fn segments_ok(segments: Option<SegmentParams>) -> bool {
    match segments {
        None => true,
        Some(s) => {
            &&& forall|i: int| 0 <= i < 4 ==> -128 < #[trigger] s.quantizer@[i] < 128
            &&& forall|i: int| 0 <= i < 4 ==> -64 < #[trigger] s.filter_strength@[i] < 64
        },
    }
}

/// The segment state a written segment header stands for.
pub open spec fn written_segment_state(segments: Option<SegmentParams>, prev: SegmentState) -> SegmentState {
    match segments {
        None => SegmentState { use_segment: false, update_map: false, ..prev },
        Some(s) => SegmentState {
            use_segment: true,
            update_map: true,
            absolute_delta: false,
            quantizer: Seq::new(4, |i: int| s.quantizer@[i] as int),
            strength: Seq::new(4, |i: int| s.filter_strength@[i] as int),
            probs: Seq::new(3, |i: int| s.tree_probs@[i] as int),
        },
    }
}

/// The flags of a segment header that sends everything, read back.
proof fn lemma_segment_flags(d: DecState)
    requires
        decodes(d, seq![(128u8, true), (128u8, true), (128u8, true), (128u8, false)]),
    ensures
        ({
            let (a, d1) = dec_step(d, 128);
            let (b, d2) = dec_step(d1, 128);
            let (c, d3) = dec_step(d2, 128);
            let (e, d4) = dec_step(d3, 128);
            &&& a && b && c && !e
            &&& d4 == dec_after(d, seq![(128u8, true), (128u8, true), (128u8, true), (128u8, false)])
        }),
{
    let flags: Seq<Sym> = seq![(128u8, true), (128u8, true), (128u8, true), (128u8, false)];
    let f1 = flags.drop_first();
    let f2 = f1.drop_first();
    let f3 = f2.drop_first();
    assert(f1[0] == flags[1] && f2[0] == flags[2] && f3[0] == flags[3]);
    reveal_with_fuel(decodes, 5);
    reveal_with_fuel(dec_after, 5);
}

/// The segment header read back.
pub proof fn segment_header_read_inverts(
    d: DecState,
    segments: Option<SegmentParams>,
    prev: SegmentState,
)
    requires
        segments_ok(segments),
        decodes(d, segment_header_syms(segments)),
    ensures
        segment_header_read(d, prev).0 == written_segment_state(segments, prev),
        segment_header_read(d, prev).1 == dec_after(d, segment_header_syms(segments)),
{
    match segments {
        None => {
            lemma_one(d, (128u8, false));
        },
        Some(s) => {
            let flags: Seq<Sym> = seq![
                (128u8, true),
                (128u8, true),
                (128u8, true),
                (128u8, false),
            ];
            let q = opt_signed_list_syms(s.quantizer@, 7, 4);
            let f = opt_signed_list_syms(s.filter_strength@, 6, 4);
            let p = prob_list_syms(s.tree_probs@, 3);
            lemma_decodes_concat(d, flags + q + f, p);
            lemma_decodes_concat(d, flags + q, f);
            lemma_decodes_concat(d, flags, q);
            lemma_segment_flags(d);
            lemma2_to64();
            let d4 = dec_after(d, flags);
            opt_signed_list_inverts(d4, s.quantizer@, 7, 4);
            opt_signed_list_inverts(dec_after(d4, q), s.filter_strength@, 6, 4);
            prob_list_inverts(dec_after(dec_after(d4, q), f), s.tree_probs@, 3);
        },
    }
}

/// The filter header read back.
pub proof fn filter_header_read_inverts(d: DecState, f: FilterHeader, prev: FilterState)
    requires
        0 <= f.level < 64,
        0 <= f.sharpness < 8,
        decodes(d, filter_header_syms(f)),
    ensures
        filter_header_read(d, prev).0 == (FilterState {
            simple: f.simple,
            level: f.level as int,
            sharpness: f.sharpness as int,
            use_lf_delta: false,
            refs: prev.refs,
            modes: prev.modes,
        }),
        filter_header_read(d, prev).1 == dec_after(d, filter_header_syms(f)),
{
    let a: Seq<Sym> = seq![(128u8, f.simple)];
    let l = literal_syms(f.level as int, 6);
    let s = literal_syms(f.sharpness as int, 3);
    let z: Seq<Sym> = seq![(128u8, false)];
    lemma_decodes_concat(d, a + l + s, z);
    lemma_decodes_concat(d, a + l, s);
    lemma_decodes_concat(d, a, l);
    lemma2_to64();
    lemma_one(d, (128u8, f.simple));
    read_literal_inverts_put_literal(dec_after(d, a), f.level as int, 6);
    read_literal_inverts_put_literal(dec_after(d, a + l), f.sharpness as int, 3);
    lemma_one(dec_after(d, a + l + s), (128u8, false));
}

/// The quantizer header read back.
pub proof fn quant_read_inverts(d: DecState, base_q: int)
    requires
        0 <= base_q < 128,
        decodes(d, quant_syms(base_q)),
    ensures
        quant_read(d) == (base_q, no_deltas(), dec_after(d, quant_syms(base_q))),
{
    let l = literal_syms(base_q, 7);
    let f: Seq<Sym> = seq![
        (128u8, false),
        (128u8, false),
        (128u8, false),
        (128u8, false),
        (128u8, false),
    ];
    lemma_decodes_concat(d, l, f);
    lemma2_to64();
    read_literal_inverts_put_literal(d, base_q, 7);
    reveal_with_fuel(decodes, 6);
    reveal_with_fuel(dec_after, 6);
    let f1 = f.drop_first();
    let f2 = f1.drop_first();
    let f3 = f2.drop_first();
    let f4 = f3.drop_first();
    assert(f1[0] == f[1] && f2[0] == f[2] && f3[0] == f[3] && f4[0] == f[4]);
}

/// Whether every probability that is not transmitted is the default.
pub open spec fn updates_cover(probas: CoeffProbas, updated: CoeffUpdateFlags) -> bool {
    forall|k: int|
        0 <= k < 1056 ==> #[trigger] update_entry(updated, k) || proba_entry(probas, k)
            == proba_entry(coeffs_proba_0(), k)
}

/// The first `k` coefficient probabilities read back.
pub proof fn probas_read_inverts(d: DecState, probas: CoeffProbas, updated: CoeffUpdateFlags, k: int)
    requires
        0 <= k <= 1056,
        updates_cover(probas, updated),
        decodes(d, proba_syms(probas, updated, k)),
    ensures
        probas_read(d, k).0 == Seq::new(k as nat, |i: int| proba_entry(probas, i) as int),
        probas_read(d, k).1 == dec_after(d, proba_syms(probas, updated, k)),
    decreases k,
{
    if k > 0 {
        let head = proba_syms(probas, updated, k - 1);
        let u = update_entry(updated, k - 1);
        let p = proba_entry(coeffs_update_proba(), k - 1);
        let flag: Seq<Sym> = seq![(p, u)];
        let lit = if u {
            literal_syms(proba_entry(probas, k - 1) as int, 8)
        } else {
            Seq::empty()
        };
        lemma_decodes_concat(d, head + flag, lit);
        lemma_decodes_concat(d, head, flag);
        probas_read_inverts(d, probas, updated, k - 1);
        lemma_one(dec_after(d, head), (p, u));
        lemma2_to64();
        if u {
            read_literal_inverts_put_literal(
                dec_after(d, head + flag),
                proba_entry(probas, k - 1) as int,
                8,
            );
        }
    }
    assert(probas_read(d, k).0 =~= Seq::new(k as nat, |i: int| proba_entry(probas, i) as int));
}

/// The skip probability read back.
pub proof fn skip_read_inverts(d: DecState, use_skip: bool, skip_p: u8, prev: u8)
    requires
        decodes(d, skip_syms(use_skip, skip_p)),
    ensures
        skip_read(d, prev) == (
            use_skip,
            if use_skip {
                skip_p as int
            } else {
                prev as int
            },
            dec_after(d, skip_syms(use_skip, skip_p)),
        ),
{
    if use_skip {
        let lit = literal_syms(skip_p as int, 8);
        lemma_decodes_concat(d, seq![(128u8, true)], lit);
        lemma_one(d, (128u8, true));
        lemma2_to64();
        read_literal_inverts_put_literal(dec_step(d, 128).1, skip_p as int, 8);
    } else {
        lemma_one(d, (128u8, false));
    }
}

} // verus!
