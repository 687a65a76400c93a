//! Reading back any header that can be written, whether this encoder writes it or not.

use vstd::arithmetic::power2::{lemma2_to64, pow2};
use vstd::prelude::*;

use crate::bool_dec::{read_literal_inverts_put_literal, read_signed_inverts_put_signed};
use crate::bool_enc::{literal_syms, signed_syms};
use crate::coder::{dec_after, decodes, lemma_decodes_concat, DecState, Sym};
use crate::enc_header::lemma_one;
use crate::header::{
    delta_list, filter_header_read, opt_prob_list, opt_signed_list, opt_signed_read, probas_read,
    quant_read, segment_header_read, skip_read, FilterState, QuantDeltas, SegmentState,
};
use crate::mb::segment_read;
use crate::proba_tables::{coeffs_proba_0, coeffs_update_proba};

verus! {

/// One flag, at even odds.
pub open spec fn flag(b: bool) -> Seq<Sym> {
    seq![(128u8, b)]
}

/// An optional signed value of `n` bits: a flag, and where it is set the value.
pub open spec fn maybe_signed(v: Option<int>, n: nat) -> Seq<Sym> {
    match v {
        None => flag(false),
        Some(x) => flag(true) + signed_syms(x, n),
    }
}

/// An optional byte: a flag, and where it is set the byte.
pub open spec fn maybe_byte(v: Option<int>) -> Seq<Sym> {
    match v {
        None => flag(false),
        Some(x) => flag(true) + literal_syms(x, 8),
    }
}

/// A value that is there, or else another.
pub open spec fn value_or(v: Option<int>, other: int) -> int {
    match v {
        None => other,
        Some(x) => x,
    }
}

/// Whether optional values fit `n` bits and a sign.
pub open spec fn fit(v: Seq<Option<int>>, n: nat) -> bool {
    forall|i: int| 0 <= i < v.len() ==> (#[trigger] v[i] matches Some(x) ==> -pow2(n) < x < pow2(n))
}

/// Four optional signed values.
pub open spec fn four_signed(v: Seq<Option<int>>, n: nat) -> Seq<Sym> {
    maybe_signed(v[0], n) + maybe_signed(v[1], n) + maybe_signed(v[2], n) + maybe_signed(v[3], n)
}

proof fn lemma_maybe_signed(d: DecState, v: Option<int>, n: nat)
    requires
        v matches Some(x) ==> -pow2(n) < x < pow2(n),
        decodes(d, maybe_signed(v, n)),
    ensures
        opt_signed_read(d, n) == (value_or(v, 0), dec_after(d, maybe_signed(v, n))),
{
    match v {
        None => {
            lemma_one(d, (128u8, false));
        },
        Some(x) => {
            lemma_decodes_concat(d, flag(true), signed_syms(x, n));
            lemma_one(d, (128u8, true));
            read_signed_inverts_put_signed(dec_after(d, flag(true)), x, n);
        },
    }
}

/// The splits of a sequence of four parts.
proof fn lemma_four(d: DecState, a: Seq<Sym>, b: Seq<Sym>, c: Seq<Sym>, e: Seq<Sym>)
    requires
        decodes(d, a + b + c + e),
    ensures
        ({
            let d1 = dec_after(d, a);
            let d2 = dec_after(d1, b);
            let d3 = dec_after(d2, c);
            &&& decodes(d, a) && decodes(d1, b) && decodes(d2, c) && decodes(d3, e)
            &&& dec_after(d, a + b + c + e) == dec_after(d3, e)
        }),
{
    lemma_decodes_concat(d, a + b + c, e);
    lemma_decodes_concat(d, a + b, c);
    lemma_decodes_concat(d, a, b);
}

proof fn lemma_four_signed(d: DecState, v: Seq<Option<int>>, n: nat)
    requires
        v.len() == 4,
        fit(v, n),
        decodes(d, four_signed(v, n)),
    ensures
        opt_signed_list(d, n, 4).0 =~= Seq::new(4, |i: int| value_or(v[i], 0)),
        opt_signed_list(d, n, 4).1 == dec_after(d, four_signed(v, n)),
{
    let (a, b, c, e) = (
        maybe_signed(v[0], n),
        maybe_signed(v[1], n),
        maybe_signed(v[2], n),
        maybe_signed(v[3], n),
    );
    lemma_four(d, a, b, c, e);
    let d1 = dec_after(d, a);
    let d2 = dec_after(d1, b);
    let d3 = dec_after(d2, c);
    lemma_maybe_signed(d, v[0], n);
    lemma_maybe_signed(d1, v[1], n);
    lemma_maybe_signed(d2, v[2], n);
    lemma_maybe_signed(d3, v[3], n);
    reveal_with_fuel(opt_signed_list, 5);
}

proof fn lemma_deltas(d: DecState, v: Seq<Option<int>>, prev: Seq<int>)
    requires
        v.len() == 4,
        fit(v, 6),
        decodes(d, four_signed(v, 6)),
    ensures
        delta_list(d, prev, 4).0 =~= Seq::new(4, |i: int| value_or(v[i], prev[i])),
        delta_list(d, prev, 4).1 == dec_after(d, four_signed(v, 6)),
{
    let (a, b, c, e) = (
        maybe_signed(v[0], 6),
        maybe_signed(v[1], 6),
        maybe_signed(v[2], 6),
        maybe_signed(v[3], 6),
    );
    lemma_four(d, a, b, c, e);
    let d1 = dec_after(d, a);
    let d2 = dec_after(d1, b);
    let d3 = dec_after(d2, c);
    lemma_flagged(d, v[0]);
    lemma_flagged(d1, v[1]);
    lemma_flagged(d2, v[2]);
    lemma_flagged(d3, v[3]);
    reveal_with_fuel(delta_list, 5);
}

/// A flag and the value it announces.
proof fn lemma_flagged(d: DecState, v: Option<int>)
    requires
        v matches Some(x) ==> -pow2(6) < x < pow2(6),
        decodes(d, maybe_signed(v, 6)),
    ensures
        crate::coder::dec_step(d, 128).0 == (v is Some),
        v is None ==> crate::coder::dec_step(d, 128).1 == dec_after(d, maybe_signed(v, 6)),
        v matches Some(x) ==> crate::bool_dec::read_signed_spec(crate::coder::dec_step(d, 128).1, 6)
            == (x, dec_after(d, maybe_signed(v, 6))),
{
    match v {
        None => {
            lemma_one(d, (128u8, false));
        },
        Some(x) => {
            lemma_decodes_concat(d, flag(true), signed_syms(x, 6));
            lemma_one(d, (128u8, true));
            read_signed_inverts_put_signed(dec_after(d, flag(true)), x, 6);
        },
    }
}

/// Three optional bytes.
pub open spec fn three_bytes(v: Seq<Option<int>>) -> Seq<Sym> {
    maybe_byte(v[0]) + maybe_byte(v[1]) + maybe_byte(v[2])
}

proof fn lemma_byte(d: DecState, v: Option<int>)
    requires
        v matches Some(x) ==> 0 <= x < 256,
        decodes(d, maybe_byte(v)),
    ensures
        crate::coder::dec_step(d, 128).0 == (v is Some),
        v is None ==> crate::coder::dec_step(d, 128).1 == dec_after(d, maybe_byte(v)),
        v matches Some(x) ==> crate::bool_dec::read_literal_spec(
            crate::coder::dec_step(d, 128).1,
            8,
        ) == (x, dec_after(d, maybe_byte(v))),
{
    lemma2_to64();
    match v {
        None => {
            lemma_one(d, (128u8, false));
        },
        Some(x) => {
            lemma_decodes_concat(d, flag(true), literal_syms(x, 8));
            lemma_one(d, (128u8, true));
            read_literal_inverts_put_literal(dec_after(d, flag(true)), x, 8);
        },
    }
}

proof fn lemma_three_bytes(d: DecState, v: Seq<Option<int>>)
    requires
        v.len() == 3,
        forall|i: int| 0 <= i < 3 ==> (#[trigger] v[i] matches Some(x) ==> 0 <= x < 256),
        decodes(d, three_bytes(v)),
    ensures
        opt_prob_list(d, 3).0 =~= Seq::new(3, |i: int| value_or(v[i], 255)),
        opt_prob_list(d, 3).1 == dec_after(d, three_bytes(v)),
{
    let (a, b, c) = (maybe_byte(v[0]), maybe_byte(v[1]), maybe_byte(v[2]));
    lemma_decodes_concat(d, a + b, c);
    lemma_decodes_concat(d, a, b);
    let d1 = dec_after(d, a);
    let d2 = dec_after(d1, b);
    lemma_byte(d, v[0]);
    lemma_byte(d1, v[1]);
    lemma_byte(d2, v[2]);
    reveal_with_fuel(opt_prob_list, 4);
}

/// The values that a segment header may send: how they count, four quantizers and four
/// filter levels.
pub struct SegmentValues {
    /// Whether the values stand alone; on top of the frame's otherwise.
    pub absolute: bool,
    /// Quantizers.
    pub quantizer: Seq<Option<int>>,
    /// Filter levels.
    pub strength: Seq<Option<int>>,
}

/// The symbols of a segment header: whether there are segments, whether a map and values
/// follow, then those values, then three tree probabilities for the map.
pub open spec fn segment_header(
    values: Option<SegmentValues>,
    probs: Option<Seq<Option<int>>>,
) -> Seq<Sym> {
    flag(true) + flag(probs is Some) + flag(values is Some) + (match values {
        None => Seq::empty(),
        Some(v) => flag(v.absolute) + four_signed(v.quantizer, 7) + four_signed(v.strength, 6),
    }) + (match probs {
        None => Seq::empty(),
        Some(p) => three_bytes(p),
    })
}

/// Any segment header is read as it was written: values that are left out are zero,
/// probabilities that are left out are 255, and what is not sent at all stays as it was.
pub proof fn any_segment_header_is_read(
    d: DecState,
    values: Option<SegmentValues>,
    probs: Option<Seq<Option<int>>>,
    prev: SegmentState,
)
    requires
        values matches Some(v) ==> v.quantizer.len() == 4 && v.strength.len() == 4 && fit(
            v.quantizer,
            7,
        ) && fit(v.strength, 6),
        probs matches Some(p) ==> p.len() == 3 && forall|i: int|
            0 <= i < 3 ==> (#[trigger] p[i] matches Some(x) ==> 0 <= x < 256),
        decodes(d, segment_header(values, probs)),
    ensures
        ({
            let (s, end) = segment_header_read(d, prev);
            &&& end == dec_after(d, segment_header(values, probs))
            &&& s.use_segment
            &&& s.update_map == (probs is Some)
            &&& match values {
                None => s.absolute_delta == prev.absolute_delta && s.quantizer == prev.quantizer
                    && s.strength == prev.strength,
                Some(v) => s.absolute_delta == v.absolute && s.quantizer =~= Seq::new(
                    4,
                    |i: int| value_or(v.quantizer[i], 0),
                ) && s.strength =~= Seq::new(4, |i: int| value_or(v.strength[i], 0)),
            }
            &&& match probs {
                None => s.probs == prev.probs,
                Some(p) => s.probs =~= Seq::new(3, |i: int| value_or(p[i], 255)),
            }
        }),
{
    let a = flag(true);
    let b = flag(probs is Some);
    let c = flag(values is Some);
    let v = match values {
        None => Seq::<Sym>::empty(),
        Some(v) => flag(v.absolute) + four_signed(v.quantizer, 7) + four_signed(v.strength, 6),
    };
    let p = match probs {
        None => Seq::<Sym>::empty(),
        Some(p) => three_bytes(p),
    };
    lemma_decodes_concat(d, a + b + c + v, p);
    lemma_four(d, a, b, c, v);
    let d1 = dec_after(d, a);
    let d2 = dec_after(d1, b);
    let d3 = dec_after(d2, c);
    let d6 = dec_after(d3, v);
    lemma_one(d, (128u8, true));
    lemma_one(d1, (128u8, probs is Some));
    lemma_one(d2, (128u8, values is Some));
    if let Some(w) = values {
        let x = flag(w.absolute);
        let y = four_signed(w.quantizer, 7);
        let z = four_signed(w.strength, 6);
        lemma_decodes_concat(d3, x + y, z);
        lemma_decodes_concat(d3, x, y);
        lemma_one(d3, (128u8, w.absolute));
        lemma_four_signed(dec_after(d3, x), w.quantizer, 7);
        lemma_four_signed(dec_after(dec_after(d3, x), y), w.strength, 6);
    }
    if let Some(q) = probs {
        lemma_three_bytes(d6, q);
    }
}

/// Without segments nothing else changes.
pub proof fn no_segment_header_is_read(d: DecState, prev: SegmentState)
    requires
        decodes(d, flag(false)),
    ensures
        segment_header_read(d, prev) == (
            SegmentState { use_segment: false, update_map: false, ..prev },
            dec_after(d, flag(false)),
        ),
{
    lemma_one(d, (128u8, false));
}

/// The symbols of a filter header: the kind of filter, its level and sharpness, whether
/// there are level deltas, and where they change the four of references and the four of
/// modes.
pub open spec fn filter_header(
    simple: bool,
    level: int,
    sharpness: int,
    deltas: Option<Option<(Seq<Option<int>>, Seq<Option<int>>)>>,
) -> Seq<Sym> {
    flag(simple) + literal_syms(level, 6) + literal_syms(sharpness, 3) + (match deltas {
        None => flag(false),
        Some(None) => flag(true) + flag(false),
        Some(Some(m)) => flag(true) + flag(true) + four_signed(m.0, 6) + four_signed(m.1, 6),
    })
}

/// Any filter header is read as it was written; deltas that are left out stay as they were.
pub proof fn any_filter_header_is_read(
    d: DecState,
    simple: bool,
    level: int,
    sharpness: int,
    deltas: Option<Option<(Seq<Option<int>>, Seq<Option<int>>)>>,
    prev: FilterState,
)
    requires
        0 <= level < 64,
        0 <= sharpness < 8,
        deltas matches Some(Some(m)) ==> m.0.len() == 4 && m.1.len() == 4 && fit(m.0, 6) && fit(
            m.1,
            6,
        ),
        decodes(d, filter_header(simple, level, sharpness, deltas)),
    ensures
        ({
            let (f, end) = filter_header_read(d, prev);
            &&& end == dec_after(d, filter_header(simple, level, sharpness, deltas))
            &&& f.simple == simple
            &&& f.level == level
            &&& f.sharpness == sharpness
            &&& f.use_lf_delta == (deltas is Some)
            &&& match deltas {
                Some(Some(m)) => f.refs =~= Seq::new(4, |i: int| value_or(m.0[i], prev.refs[i]))
                    && f.modes =~= Seq::new(4, |i: int| value_or(m.1[i], prev.modes[i])),
                _ => f.refs == prev.refs && f.modes == prev.modes,
            }
        }),
{
    lemma2_to64();
    let a = flag(simple);
    let b = literal_syms(level, 6);
    let c = literal_syms(sharpness, 3);
    let e = match deltas {
        None => flag(false),
        Some(None) => flag(true) + flag(false),
        Some(Some(m)) => flag(true) + flag(true) + four_signed(m.0, 6) + four_signed(m.1, 6),
    };
    lemma_four(d, a, b, c, e);
    let d1 = dec_after(d, a);
    let d2 = dec_after(d1, b);
    let d3 = dec_after(d2, c);
    lemma_one(d, (128u8, simple));
    read_literal_inverts_put_literal(d1, level, 6);
    read_literal_inverts_put_literal(d2, sharpness, 3);
    match deltas {
        None => {
            lemma_one(d3, (128u8, false));
        },
        Some(None) => {
            lemma_decodes_concat(d3, flag(true), flag(false));
            lemma_one(d3, (128u8, true));
            lemma_one(dec_after(d3, flag(true)), (128u8, false));
        },
        Some(Some(m)) => {
            let x = four_signed(m.0, 6);
            let y = four_signed(m.1, 6);
            lemma_four(d3, flag(true), flag(true), x, y);
            lemma_one(d3, (128u8, true));
            let d4 = dec_after(d3, flag(true));
            lemma_one(d4, (128u8, true));
            let d5 = dec_after(d4, flag(true));
            lemma_deltas(d5, m.0, prev.refs);
            lemma_deltas(dec_after(d5, x), m.1, prev.modes);
        },
    }
}

/// Any quantizer header is read as it was written: the index in seven bits, then the five
/// deltas of luma DC, second-order DC and AC, and chroma DC and AC; one that is left out is
/// zero.
pub proof fn any_quantizer_header_is_read(d: DecState, base: int, e: Seq<Option<int>>)
    requires
        0 <= base < 128,
        e.len() == 5,
        fit(e, 4),
        decodes(
            d,
            literal_syms(base, 7) + maybe_signed(e[0], 4) + maybe_signed(e[1], 4) + maybe_signed(
                e[2],
                4,
            ) + maybe_signed(e[3], 4) + maybe_signed(e[4], 4),
        ),
    ensures
        quant_read(d).0 == base,
        quant_read(d).1 == (QuantDeltas {
            y1_dc: value_or(e[0], 0),
            y2_dc: value_or(e[1], 0),
            y2_ac: value_or(e[2], 0),
            uv_dc: value_or(e[3], 0),
            uv_ac: value_or(e[4], 0),
        }),
{
    lemma2_to64();
    let l = literal_syms(base, 7);
    let s0 = maybe_signed(e[0], 4);
    let s1 = maybe_signed(e[1], 4);
    let s2 = maybe_signed(e[2], 4);
    let s3 = maybe_signed(e[3], 4);
    let s4 = maybe_signed(e[4], 4);
    lemma_decodes_concat(d, l + s0 + s1 + s2 + s3, s4);
    lemma_decodes_concat(d, l + s0 + s1 + s2, s3);
    lemma_four(d, l, s0, s1, s2);
    let d1 = dec_after(d, l);
    let d2 = dec_after(d1, s0);
    let d3 = dec_after(d2, s1);
    let d4 = dec_after(d3, s2);
    let d5 = dec_after(d4, s3);
    read_literal_inverts_put_literal(d, base, 7);
    lemma_maybe_signed(d1, e[0], 4);
    lemma_maybe_signed(d2, e[1], 4);
    lemma_maybe_signed(d3, e[2], 4);
    lemma_maybe_signed(d4, e[3], 4);
    lemma_maybe_signed(d5, e[4], 4);
}

/// Whether macroblocks can be skipped is one flag; where they can, the probability that one is
/// not follows as a byte.
pub proof fn any_skip_probability_is_read(d: DecState, prev: u8, v: Option<int>)
    requires
        v matches Some(x) ==> 0 <= x <= 255,
        decodes(d, maybe_byte(v)),
    ensures
        skip_read(d, prev) == (v is Some, value_or(v, prev as int), dec_after(d, maybe_byte(v))),
{
    lemma2_to64();
    match v {
        None => {
            lemma_one(d, (128u8, false));
        },
        Some(x) => {
            lemma_decodes_concat(d, flag(true), literal_syms(x, 8));
            lemma_one(d, (128u8, true));
            read_literal_inverts_put_literal(dec_after(d, flag(true)), x, 8);
        },
    }
}

/// The symbols of the first `k` coefficient probabilities: for each a flag at the odds of its
/// change, and where it is set the new probability.
pub open spec fn maybe_probabilities(v: Seq<Option<int>>, k: int) -> Seq<Sym>
    decreases k,
{
    if k <= 0 {
        Seq::empty()
    } else {
        let odds = coeffs_update_proba()[(k - 1) / 264][(k - 1) / 33 % 8][(k - 1) / 11 % 3][(k - 1)
            % 11];
        maybe_probabilities(v, k - 1) + (match v[k - 1] {
            None => seq![(odds, false)],
            Some(x) => seq![(odds, true)] + literal_syms(x, 8),
        })
    }
}

/// Coefficient probabilities are those that were sent, and the initial ones elsewhere.
pub proof fn any_probabilities_are_read(d: DecState, v: Seq<Option<int>>, k: int)
    requires
        0 <= k <= 1056,
        v.len() == 1056,
        forall|i: int| 0 <= i < 1056 ==> (#[trigger] v[i] matches Some(x) ==> 0 <= x <= 255),
        decodes(d, maybe_probabilities(v, k)),
    ensures
        probas_read(d, k).0.len() == k,
        forall|i: int|
            0 <= i < k ==> #[trigger] probas_read(d, k).0[i] == value_or(
                v[i],
                coeffs_proba_0()[i / 264][i / 33 % 8][i / 11 % 3][i % 11] as int,
            ),
        probas_read(d, k).1 == dec_after(d, maybe_probabilities(v, k)),
    decreases k,
{
    lemma2_to64();
    if k > 0 {
        let odds = coeffs_update_proba()[(k - 1) / 264][(k - 1) / 33 % 8][(k - 1) / 11 % 3][(k - 1)
            % 11];
        let head = maybe_probabilities(v, k - 1);
        let flagged = seq![(odds, v[k - 1] is Some)];
        let d1 = dec_after(d, head);
        match v[k - 1] {
            None => {
                lemma_decodes_concat(d, head, flagged);
                lemma_one(d1, (odds, false));
            },
            Some(x) => {
                lemma_decodes_concat(d, head, flagged + literal_syms(x, 8));
                lemma_decodes_concat(d1, flagged, literal_syms(x, 8));
                lemma_one(d1, (odds, true));
                read_literal_inverts_put_literal(dec_after(d1, flagged), x, 8);
            },
        }
        any_probabilities_are_read(d, v, k - 1);
    }
}

/// A segment is two bits, the high one first, each pair of segments with its own odds.
pub proof fn any_segment_is_read(d: DecState, probs: [u8; 3], s: u8)
    requires
        s < 4,
        decodes(
            d,
            seq![
                (probs[0], s >= 2),
                (
                    if s >= 2 {
                        probs[2]
                    } else {
                        probs[1]
                    },
                    s % 2 == 1,
                ),
            ],
        ),
    ensures
        segment_read(d, probs).0 == s,
{
    let low = if s >= 2 {
        probs[2]
    } else {
        probs[1]
    };
    let a = seq![(probs[0], s >= 2)];
    let b = seq![(low, s % 2 == 1)];
    assert(seq![(probs[0], s >= 2), (low, s % 2 == 1)] =~= a + b);
    lemma_decodes_concat(d, a, b);
    lemma_one(d, a[0]);
    lemma_one(dec_after(d, a), b[0]);
}

} // verus!
