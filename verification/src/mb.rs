//! Intra-mode syntax of a macroblock: parsing, the symbols an
//! encoder writes for the same modes, and the laws that relate the two.

use vstd::prelude::*;

use crate::bool_dec::BoolDecoder;
use crate::coder::{dec_after, dec_step, decodes, lemma_decodes_concat, DecState, Sym};
use crate::constants::{
    bmode_probas, bmodes_proba, Prob, B_DC_PRED, B_HD_PRED, B_HE_PRED, B_HU_PRED, B_LD_PRED, B_RD_PRED, B_TM_PRED,
    B_VE_PRED, B_VL_PRED, B_VR_PRED, DC_PRED, H_PRED, TM_PRED, V_PRED,
};
use crate::decode::{same_headers, Frame, MbData};
use crate::tokens::{bmode_syms, segment_syms, uvmode_syms, ymode16_syms};

verus! {

/// Read a segment id.
pub open spec fn segment_read(d: DecState, probs: [u8; 3]) -> (u8, DecState) {
    let (hi, d1) = dec_step(d, probs[0]);
    if hi {
        let (lo, d2) = dec_step(d1, probs[2]);
        (
            if lo {
                3u8
            } else {
                2u8
            },
            d2,
        )
    } else {
        let (lo, d2) = dec_step(d1, probs[1]);
        (
            if lo {
                1u8
            } else {
                0u8
            },
            d2,
        )
    }
}

/// Read a 16x16 luma mode.
pub open spec fn ymode16_read(d: DecState) -> (u8, DecState) {
    let (a, d1) = dec_step(d, 156);
    if a {
        let (b, d2) = dec_step(d1, 128);
        (
            if b {
                TM_PRED
            } else {
                H_PRED
            },
            d2,
        )
    } else {
        let (b, d2) = dec_step(d1, 163);
        (
            if b {
                V_PRED
            } else {
                DC_PRED
            },
            d2,
        )
    }
}

/// Read a chroma mode.
pub open spec fn uvmode_read(d: DecState) -> (u8, DecState) {
    let (a, d1) = dec_step(d, 142);
    if !a {
        (DC_PRED, d1)
    } else {
        let (b, d2) = dec_step(d1, 114);
        if !b {
            (V_PRED, d2)
        } else {
            let (c, d3) = dec_step(d2, 183);
            (
                if c {
                    TM_PRED
                } else {
                    H_PRED
                },
                d3,
            )
        }
    }
}

/// Read a 4x4 luma mode.
#[verifier::opaque]
pub open spec fn bmode_read(d: DecState, prob: [Prob; 9]) -> (u8, DecState) {
    let (b0, d0) = dec_step(d, prob[0]);
    let (b1, d1) = dec_step(d0, prob[1]);
    let (b2, d2) = dec_step(d1, prob[2]);
    let (b3, d3) = dec_step(d2, prob[3]);
    let (b4, d4) = dec_step(d3, prob[4]);
    let (b5, d5) = dec_step(d4, prob[5]);
    let (b6, d6) = dec_step(d3, prob[6]);
    let (b7, d7) = dec_step(d6, prob[7]);
    let (b8, d8) = dec_step(d7, prob[8]);
    if !b0 {
        (B_DC_PRED, d0)
    } else if !b1 {
        (B_TM_PRED, d1)
    } else if !b2 {
        (B_VE_PRED, d2)
    } else if !b3 {
        if !b4 {
            (B_HE_PRED, d4)
        } else if !b5 {
            (B_RD_PRED, d5)
        } else {
            (B_VR_PRED, d5)
        }
    } else if !b6 {
        (B_LD_PRED, d6)
    } else if !b7 {
        (B_VL_PRED, d7)
    } else if !b8 {
        (B_HD_PRED, d8)
    } else {
        (B_HU_PRED, d8)
    }
}

/// The mode above 4x4 block `i`, given the modes before it.
pub open spec fn mode_above(modes: Seq<u8>, top: Seq<u8>, i: int) -> u8 {
    if i < 4 {
        top[i]
    } else {
        modes[i - 4]
    }
}

/// The mode left of 4x4 block `i`, given the modes before it.
pub open spec fn mode_before(modes: Seq<u8>, left: Seq<u8>, i: int) -> u8 {
    if i % 4 == 0 {
        left[i / 4]
    } else {
        modes[i - 1]
    }
}

/// The node probabilities of 4x4 block `i`.
pub open spec fn bmode_prob(modes: Seq<u8>, top: Seq<u8>, left: Seq<u8>, i: int) -> [Prob; 9] {
    bmodes_proba()[mode_above(modes, top, i) as int][mode_before(modes, left, i) as int]
}

/// Read the first `k` 4x4 modes.
pub open spec fn bmodes_read(d: DecState, top: Seq<u8>, left: Seq<u8>, k: int) -> (Seq<u8>, DecState)
    decreases k,
{
    if k <= 0 {
        (Seq::empty(), d)
    } else {
        let (modes, d1) = bmodes_read(d, top, left, k - 1);
        let (mode, d2) = bmode_read(d1, bmode_prob(modes, top, left, k - 1));
        (modes.push(mode), d2)
    }
}

/// The symbols of the first `k` 4x4 modes.
pub open spec fn bmodes_syms(modes: Seq<u8>, top: Seq<u8>, left: Seq<u8>, k: int) -> Seq<Sym>
    decreases k,
{
    if k <= 0 {
        Seq::empty()
    } else {
        bmodes_syms(modes, top, left, k - 1) + bmode_syms(
            bmode_prob(modes, top, left, k - 1),
            modes[k - 1],
        )
    }
}

/// Whether every mode is a 4x4 mode.
pub open spec fn bmodes_ok(modes: Seq<u8>) -> bool {
    forall|i: int| 0 <= i < modes.len() ==> #[trigger] modes[i] < 10
}

/// The modes of one macroblock.
#[verifier::ext_equal]
pub struct ModeInfo {
    /// Segment id.
    pub segment: u8,
    /// Skip flag.
    pub skip: bool,
    /// Whether luma is predicted per 4x4 block.
    pub is_i4x4: bool,
    /// The sixteen 4x4 modes, or the 16x16 mode in entry zero.
    pub imodes: Seq<u8>,
    /// The chroma mode.
    pub uvmode: u8,
}

/// The modes of a parsed macroblock.
pub open spec fn mode_of(m: MbData) -> ModeInfo {
    ModeInfo {
        segment: m.segment,
        skip: m.skip,
        is_i4x4: m.is_i4x4,
        imodes: m.imodes@,
        uvmode: m.uvmode,
    }
}

/// What determines how modes are coded: the segment tree (if segments are coded) and
/// the skip probability (if skipping is coded).
pub struct ModeCoding {
    /// Segment tree probabilities.
    pub segments: Option<[u8; 3]>,
    /// Skip probability.
    pub skip: Option<u8>,
}

/// The mode coding a frame's headers ask for.
pub open spec fn mode_coding(f: Frame) -> ModeCoding {
    ModeCoding {
        segments: if f.segment.update_map {
            Some(f.proba.segments)
        } else {
            None
        },
        skip: if f.proba.use_skip {
            Some(f.proba.skip_p)
        } else {
            None
        },
    }
}

/// Read the luma modes: the modes array and the decoder.
pub open spec fn luma_modes_read(
    d: DecState,
    is_i4x4: bool,
    prev: Seq<u8>,
    top: Seq<u8>,
    left: Seq<u8>,
) -> (Seq<u8>, DecState) {
    if is_i4x4 {
        bmodes_read(d, top, left, 16)
    } else {
        let (mode, d1) = ymode16_read(d);
        (prev.update(0, mode), d1)
    }
}

/// Read one macroblock's modes. `prev` holds what is not transmitted.
pub open spec fn mode_read(
    d: DecState,
    c: ModeCoding,
    prev: ModeInfo,
    top: Seq<u8>,
    left: Seq<u8>,
) -> (ModeInfo, DecState) {
    let (segment, d1) = match c.segments {
        Some(probs) => segment_read(d, probs),
        None => (0u8, d),
    };
    let (skip, d2) = match c.skip {
        Some(p) => dec_step(d1, p),
        None => (prev.skip, d1),
    };
    let (whole, d3) = dec_step(d2, 145);
    let (imodes, d4) = luma_modes_read(d3, !whole, prev.imodes, top, left);
    let (uvmode, d5) = uvmode_read(d4);
    (ModeInfo { segment, skip, is_i4x4: !whole, imodes, uvmode }, d5)
}

/// The four modes the macroblock below sees.
pub open spec fn modes_below(m: ModeInfo) -> Seq<u8> {
    if m.is_i4x4 {
        m.imodes.subrange(12, 16)
    } else {
        seq![m.imodes[0], m.imodes[0], m.imodes[0], m.imodes[0]]
    }
}

/// The four modes the macroblock to the right sees.
pub open spec fn modes_right(m: ModeInfo) -> Seq<u8> {
    if m.is_i4x4 {
        seq![m.imodes[3], m.imodes[7], m.imodes[11], m.imodes[15]]
    } else {
        seq![m.imodes[0], m.imodes[0], m.imodes[0], m.imodes[0]]
    }
}

/// `s` with the four entries of column `x` replaced.
pub open spec fn set_column(s: Seq<u8>, x: int, four: Seq<u8>) -> Seq<u8> {
    s.update(4 * x, four[0]).update(4 * x + 1, four[1]).update(4 * x + 2, four[2]).update(
        4 * x + 3,
        four[3],
    )
}

/// The four entries of column `x`.
pub open spec fn column(s: Seq<u8>, x: int) -> Seq<u8> {
    seq![s[4 * x], s[4 * x + 1], s[4 * x + 2], s[4 * x + 3]]
}

/// What parsing the modes of a row yields.
#[verifier::ext_equal]
pub struct RowModes {
    /// The macroblocks' modes.
    pub infos: Seq<ModeInfo>,
    /// The modes above the next row.
    pub top: Seq<u8>,
    /// The modes left of the next macroblock.
    pub left: Seq<u8>,
    /// The decoder.
    pub d: DecState,
}

/// Read the modes of the first `k` macroblocks of a row.
pub open spec fn row_read(
    d: DecState,
    c: ModeCoding,
    prev: Seq<ModeInfo>,
    top: Seq<u8>,
    left: Seq<u8>,
    k: int,
) -> RowModes
    decreases k,
{
    if k <= 0 {
        RowModes { infos: Seq::empty(), top, left, d }
    } else {
        let r = row_read(d, c, prev, top, left, k - 1);
        let (info, d1) = mode_read(r.d, c, prev[k - 1], column(r.top, k - 1), r.left);
        RowModes {
            infos: r.infos.push(info),
            top: set_column(r.top, k - 1, modes_below(info)),
            left: modes_right(info),
            d: d1,
        }
    }
}

/// The symbols of the luma modes.
pub open spec fn luma_modes_syms(m: ModeInfo, top: Seq<u8>, left: Seq<u8>) -> Seq<Sym> {
    if m.is_i4x4 {
        bmodes_syms(m.imodes, top, left, 16)
    } else {
        ymode16_syms(m.imodes[0])
    }
}

/// The symbols of one macroblock's modes.
pub open spec fn mode_syms(c: ModeCoding, m: ModeInfo, top: Seq<u8>, left: Seq<u8>) -> Seq<Sym> {
    (match c.segments {
        Some(probs) => segment_syms(probs, m.segment),
        None => Seq::empty(),
    }) + (match c.skip {
        Some(p) => seq![(p, m.skip)],
        None => Seq::empty(),
    }) + seq![(145u8, !m.is_i4x4)] + luma_modes_syms(m, top, left) + uvmode_syms(m.uvmode)
}

/// Whether a macroblock's modes can be coded and read back.
pub open spec fn mode_ok(m: ModeInfo) -> bool {
    &&& m.segment < 4
    &&& m.uvmode < 4
    &&& m.imodes.len() == 16
    &&& (if m.is_i4x4 {
        bmodes_ok(m.imodes)
    } else {
        m.imodes[0] < 4
    })
}

/// Segment ids read back.
pub proof fn segment_read_inverts(d: DecState, probs: [u8; 3], seg: u8)
    requires
        seg < 4,
        decodes(d, segment_syms(probs, seg)),
    ensures
        segment_read(d, probs) == (seg, dec_after(d, segment_syms(probs, seg))),
{
    let s = segment_syms(probs, seg);
    reveal_with_fuel(decodes, 3);
    reveal_with_fuel(dec_after, 3);
    assert(s.drop_first()[0] == s[1]);
}

/// 16x16 luma modes read back.
pub proof fn ymode16_read_inverts(d: DecState, mode: u8)
    requires
        mode < 4,
        decodes(d, ymode16_syms(mode)),
    ensures
        ymode16_read(d) == (mode, dec_after(d, ymode16_syms(mode))),
{
    let s = ymode16_syms(mode);
    reveal_with_fuel(decodes, 3);
    reveal_with_fuel(dec_after, 3);
    assert(s.drop_first()[0] == s[1]);
}

/// Chroma modes read back.
pub proof fn uvmode_read_inverts(d: DecState, mode: u8)
    requires
        mode < 4,
        decodes(d, uvmode_syms(mode)),
    ensures
        uvmode_read(d) == (mode, dec_after(d, uvmode_syms(mode))),
{
    let s = uvmode_syms(mode);
    reveal_with_fuel(decodes, 4);
    reveal_with_fuel(dec_after, 4);
    if mode != DC_PRED {
        assert(s.drop_first()[0] == s[1]);
        if mode != V_PRED {
            assert(s.drop_first().drop_first()[0] == s[2]);
        }
    }
}

/// 4x4 luma modes read back.
pub proof fn bmode_read_inverts(d: DecState, prob: [Prob; 9], mode: u8)
    requires
        mode < 10,
        decodes(d, bmode_syms(prob, mode)),
    ensures
        bmode_read(d, prob) == (mode, dec_after(d, bmode_syms(prob, mode))),
{
    reveal(bmode_read);
    let s = bmode_syms(prob, mode);
    reveal_with_fuel(decodes, 8);
    reveal_with_fuel(dec_after, 8);
    let s1 = s.drop_first();
    let s2 = s1.drop_first();
    let s3 = s2.drop_first();
    let s4 = s3.drop_first();
    let s5 = s4.drop_first();
    let s6 = s5.drop_first();
    if mode > B_DC_PRED {
        assert(s1[0] == s[1]);
        if mode > B_TM_PRED {
            assert(s2[0] == s[2]);
            if mode > B_VE_PRED {
                assert(s3[0] == s[3]);
                assert(s4[0] == s[4]);
                if s.len() > 5 {
                    assert(s5[0] == s[5]);
                    if s.len() > 6 {
                        assert(s6[0] == s[6]);
                    }
                }
            }
        }
    }
}

/// The first `k` 4x4 modes read back.
pub proof fn bmodes_read_inverts(d: DecState, modes: Seq<u8>, top: Seq<u8>, left: Seq<u8>, k: int)
    requires
        0 <= k <= 16,
        modes.len() == 16,
        bmodes_ok(modes),
        decodes(d, bmodes_syms(modes, top, left, k)),
    ensures
        bmodes_read(d, top, left, k) == (
            modes.take(k),
            dec_after(d, bmodes_syms(modes, top, left, k)),
        ),
    decreases k,
{
    if k > 0 {
        let head = bmodes_syms(modes, top, left, k - 1);
        let prob = bmode_prob(modes, top, left, k - 1);
        let tail = bmode_syms(prob, modes[k - 1]);
        lemma_decodes_concat(d, head, tail);
        bmodes_read_inverts(d, modes, top, left, k - 1);
        assert(bmode_prob(modes.take(k - 1), top, left, k - 1) == prob);
        bmode_read_inverts(dec_after(d, head), prob, modes[k - 1]);
        assert(modes.take(k) =~= modes.take(k - 1).push(modes[k - 1]));
    } else {
        assert(modes.take(k) =~= Seq::<u8>::empty());
    }
}

/// A macroblock's modes read back. What is not transmitted (the skip flag without a
/// skip probability, the unused entries of a 16x16 mode array) comes from `prev`.
pub proof fn mode_read_inverts(
    d: DecState,
    c: ModeCoding,
    m: ModeInfo,
    prev: ModeInfo,
    top: Seq<u8>,
    left: Seq<u8>,
)
    requires
        mode_ok(m),
        prev.imodes.len() == 16,
        c.segments is None ==> m.segment == 0,
        c.skip is None ==> m.skip == prev.skip,
        decodes(d, mode_syms(c, m, top, left)),
    ensures
        ({
            let (r, d1) = mode_read(d, c, prev, top, left);
            &&& d1 == dec_after(d, mode_syms(c, m, top, left))
            &&& r.segment == m.segment
            &&& r.skip == m.skip
            &&& r.is_i4x4 == m.is_i4x4
            &&& r.uvmode == m.uvmode
            &&& r.imodes == (if m.is_i4x4 {
                m.imodes
            } else {
                prev.imodes.update(0, m.imodes[0])
            })
        }),
{
    let s1 = match c.segments {
        Some(probs) => segment_syms(probs, m.segment),
        None => Seq::empty(),
    };
    let s2 = match c.skip {
        Some(p) => seq![(p, m.skip)],
        None => Seq::empty(),
    };
    let s3: Seq<Sym> = seq![(145u8, !m.is_i4x4)];
    let s4 = luma_modes_syms(m, top, left);
    let s5 = uvmode_syms(m.uvmode);
    lemma_decodes_concat(d, s1 + s2 + s3 + s4, s5);
    lemma_decodes_concat(d, s1 + s2 + s3, s4);
    lemma_decodes_concat(d, s1 + s2, s3);
    lemma_decodes_concat(d, s1, s2);
    reveal_with_fuel(decodes, 2);
    reveal_with_fuel(dec_after, 2);
    if c.segments is Some {
        segment_read_inverts(d, c.segments->0, m.segment);
    }
    assert(s3.drop_first() =~= Seq::<Sym>::empty());
    if c.skip is Some {
        assert(s2.drop_first() =~= Seq::<Sym>::empty());
    }
    let d3 = dec_after(d, s1 + s2 + s3);
    if m.is_i4x4 {
        bmodes_read_inverts(d3, m.imodes, top, left, 16);
        assert(m.imodes.take(16) =~= m.imodes);
    } else {
        ymode16_read_inverts(d3, m.imodes[0]);
    }
    uvmode_read_inverts(dec_after(d3, s4), m.uvmode);
}

/// Read a 16x16 luma mode.
pub fn read_ymode16(br: &mut BoolDecoder<'_>) -> (mode: u8)
    requires
        old(br).wf(),
    ensures
        final(br).wf(),
        (mode, final(br)@) == ymode16_read(old(br)@),
        mode < 4,
{
    if br.read_bool(156) {
        if br.read_bool(128) {
            TM_PRED
        } else {
            H_PRED
        }
    } else if br.read_bool(163) {
        V_PRED
    } else {
        DC_PRED
    }
}

/// Read a chroma mode.
pub fn read_uvmode(br: &mut BoolDecoder<'_>) -> (mode: u8)
    requires
        old(br).wf(),
    ensures
        final(br).wf(),
        (mode, final(br)@) == uvmode_read(old(br)@),
        mode < 4,
{
    if !br.read_bool(142) {
        DC_PRED
    } else if !br.read_bool(114) {
        V_PRED
    } else if br.read_bool(183) {
        TM_PRED
    } else {
        H_PRED
    }
}

/// Read a 4x4 luma mode with the node probabilities of its context.
pub fn read_bmode(br: &mut BoolDecoder<'_>, prob: [Prob; 9]) -> (mode: u8)
    requires
        old(br).wf(),
    ensures
        final(br).wf(),
        (mode, final(br)@) == bmode_read(old(br)@, prob),
        mode < 10,
{
    reveal(bmode_read);
    if !br.read_bool(prob[0]) {
        return B_DC_PRED;
    }
    if !br.read_bool(prob[1]) {
        return B_TM_PRED;
    }
    if !br.read_bool(prob[2]) {
        return B_VE_PRED;
    }
    if !br.read_bool(prob[3]) {
        if !br.read_bool(prob[4]) {
            return B_HE_PRED;
        }
        if !br.read_bool(prob[5]) {
            return B_RD_PRED;
        }
        return B_VR_PRED;
    }
    if !br.read_bool(prob[6]) {
        return B_LD_PRED;
    }
    if !br.read_bool(prob[7]) {
        return B_VL_PRED;
    }
    if !br.read_bool(prob[8]) {
        return B_HD_PRED;
    }
    B_HU_PRED
}

impl Frame {
    /// Parse the modes of every macroblock of the current row.
    pub fn parse_intra_mode_row(&mut self, br: &mut BoolDecoder<'_>)
        requires
            old(self).wf(),
            old(br).wf(),
        ensures
            final(self).wf(),
            final(br).wf(),
            same_headers(*final(self), *old(self)),
            final(self).mb_info@ == old(self).mb_info@,
            ({
                let prev = Seq::new(
                    old(self).mb_w as nat,
                    |x: int| mode_of(old(self).mb_data@[x]),
                );
                let r = row_read(
                    old(br)@,
                    mode_coding(*old(self)),
                    prev,
                    old(self).intra_t@,
                    old(self).intra_l@,
                    old(self).mb_w as int,
                );
                &&& final(br)@ == r.d
                &&& final(self).intra_t@ == r.top
                &&& final(self).intra_l@ == r.left
                &&& forall|x: int|
                    0 <= x < old(self).mb_w ==> mode_of(#[trigger] final(self).mb_data@[x])
                        == r.infos[x]
                &&& forall|x: int|
                    0 <= x < old(self).mb_w ==> same_residual(
                        #[trigger] final(self).mb_data@[x],
                        old(self).mb_data@[x],
                    )
            }),
    {
        let ghost f0 = *self;
        let ghost d0 = br@;
        let ghost c = mode_coding(f0);
        let ghost prev = Seq::new(f0.mb_w as nat, |x: int| mode_of(f0.mb_data@[x]));
        let mut mb_x: usize = 0;
        while mb_x < self.mb_w
            invariant
                mb_x <= f0.mb_w,
                self.wf(),
                br.wf(),
                same_headers(*self, f0),
                self.mb_info@ == f0.mb_info@,
                f0.wf(),
                c == mode_coding(f0),
                prev == Seq::new(f0.mb_w as nat, |x: int| mode_of(f0.mb_data@[x])),
                ({
                    let r = row_read(d0, c, prev, f0.intra_t@, f0.intra_l@, mb_x as int);
                    &&& br@ == r.d
                    &&& self.intra_t@ == r.top
                    &&& self.intra_l@ == r.left
                    &&& r.infos.len() == mb_x
                    &&& forall|x: int|
                        0 <= x < mb_x ==> mode_of(#[trigger] self.mb_data@[x]) == r.infos[x]
                }),
                forall|x: int|
                    0 <= x < f0.mb_w ==> same_residual(
                        #[trigger] self.mb_data@[x],
                        f0.mb_data@[x],
                    ),
                forall|x: int|
                    mb_x <= x < f0.mb_w ==> #[trigger] self.mb_data@[x] == f0.mb_data@[x],
            decreases f0.mb_w - mb_x,
        {
            self.parse_intra_mode(br, mb_x);
            mb_x = mb_x + 1;
        }
    }

    /// Parse one macroblock's segment, skip flag and prediction modes.
    fn parse_intra_mode(&mut self, br: &mut BoolDecoder<'_>, mb_x: usize)
        requires
            old(self).wf(),
            old(br).wf(),
            mb_x < old(self).mb_w,
        ensures
            final(self).wf(),
            final(br).wf(),
            same_headers(*final(self), *old(self)),
            final(self).mb_info@ == old(self).mb_info@,
            ({
                let (info, d) = mode_read(
                    old(br)@,
                    mode_coding(*old(self)),
                    mode_of(old(self).mb_data@[mb_x as int]),
                    column(old(self).intra_t@, mb_x as int),
                    old(self).intra_l@,
                );
                &&& final(br)@ == d
                &&& mode_of(final(self).mb_data@[mb_x as int]) == info
                &&& final(self).intra_t@ == set_column(
                    old(self).intra_t@,
                    mb_x as int,
                    modes_below(info),
                )
                &&& final(self).intra_l@ == modes_right(info)
            }),
            final(self).mb_data@ == old(self).mb_data@.update(
                mb_x as int,
                final(self).mb_data@[mb_x as int],
            ),
            same_residual(final(self).mb_data@[mb_x as int], old(self).mb_data@[mb_x as int]),
    {
        let mut m: MbData = self.mb_data[mb_x];
        m.segment = if self.segment.update_map {
            if br.read_bool(self.proba.segments[0]) {
                if br.read_bool(self.proba.segments[2]) {
                    3
                } else {
                    2
                }
            } else if br.read_bool(self.proba.segments[1]) {
                1
            } else {
                0
            }
        } else {
            0
        };
        if self.proba.use_skip {
            m.skip = br.read_bool(self.proba.skip_p);
        }
        let whole: bool = br.read_bool(145);
        m.is_i4x4 = !whole;
        let ghost d3 = br@;
        let top: usize = 4 * mb_x;
        if m.is_i4x4 {
            let t: [u8; 4] = [
                self.intra_t[top],
                self.intra_t[top + 1],
                self.intra_t[top + 2],
                self.intra_t[top + 3],
            ];
            assert(t@ =~= column(self.intra_t@, mb_x as int));
            let modes: [u8; 16] = parse_i4x4_modes(br, t, self.intra_l);
            m.imodes = modes;
            self.intra_t[top] = modes[12];
            self.intra_t[top + 1] = modes[13];
            self.intra_t[top + 2] = modes[14];
            self.intra_t[top + 3] = modes[15];
            self.intra_l = [modes[3], modes[7], modes[11], modes[15]];
        } else {
            let ymode: u8 = read_ymode16(br);
            m.imodes[0] = ymode;
            self.intra_t[top] = ymode;
            self.intra_t[top + 1] = ymode;
            self.intra_t[top + 2] = ymode;
            self.intra_t[top + 3] = ymode;
            self.intra_l = [ymode, ymode, ymode, ymode];
        }
        m.uvmode = read_uvmode(br);
        self.mb_data[mb_x] = m;
        proof {
            let info = mode_of(m);
            assert(self.intra_l@ =~= modes_right(info));
            assert(self.intra_t@ =~= set_column(
                old(self).intra_t@,
                mb_x as int,
                modes_below(info),
            ));
        }
    }
}

/// Whether two macroblocks hold the same residual.
pub open spec fn same_residual(a: MbData, b: MbData) -> bool {
    &&& a.coeffs == b.coeffs
    &&& a.non_zero_y == b.non_zero_y
    &&& a.non_zero_uv == b.non_zero_uv
}

/// Parse the sixteen 4x4 modes of a macroblock.
fn parse_i4x4_modes(br: &mut BoolDecoder<'_>, top: [u8; 4], left: [u8; 4]) -> (modes: [u8; 16])
    requires
        old(br).wf(),
        bmodes_ok(top@),
        bmodes_ok(left@),
    ensures
        final(br).wf(),
        (modes@, final(br)@) == bmodes_read(old(br)@, top@, left@, 16),
        bmodes_ok(modes@),
{
    let ghost d0 = br@;
    let mut modes: [u8; 16] = [0u8; 16];
    let mut i: usize = 0;
    while i < 16
        invariant
            i <= 16,
            br.wf(),
            bmodes_ok(top@),
            bmodes_ok(left@),
            bmodes_ok(modes@),
            modes@.take(i as int) == bmodes_read(d0, top@, left@, i as int).0,
            br@ == bmodes_read(d0, top@, left@, i as int).1,
        decreases 16 - i,
    {
        let above: u8 = if i < 4 {
            top[i]
        } else {
            modes[i - 4]
        };
        let before: u8 = if i % 4 == 0 {
            left[i / 4]
        } else {
            modes[i - 1]
        };
        let prob: [Prob; 9] = bmode_probas(above as usize, before as usize);
        proof {
            let done = modes@.take(i as int);
            assert(mode_above(done, top@, i as int) == above);
            assert(mode_before(done, left@, i as int) == before);
            assert(prob == bmode_prob(done, top@, left@, i as int));
        }
        let ghost before_modes = modes@;
        let mode: u8 = read_bmode(br, prob);
        modes[i] = mode;
        assert(modes@.take(i + 1) =~= before_modes.take(i as int).push(mode));
        i = i + 1;
    }
    assert(modes@.take(16) =~= modes@);
    modes
}

} // verus!
