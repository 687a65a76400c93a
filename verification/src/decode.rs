//! The state of a key-frame decode.

use vstd::prelude::*;

use crate::constants::{coeffs_proba_0, default_probas, CoeffProbas};
use crate::error::{Codec, Error, Result};
use crate::frame_header::FrameHeader;
use crate::rgb_to_yuv::blocks_of;

pub use crate::frame_read::{decode_frame, reconstruct_to_planes};

verus! {

/// Segmentation parameters.
#[derive(Clone, Copy, PartialEq, Eq, Debug)]
pub struct SegmentHeader {
    /// Whether macroblocks are assigned to segments.
    pub use_segment: bool,
    /// Whether each macroblock codes its segment.
    pub update_map: bool,
    /// Whether the per-segment values replace the frame's values or add to them.
    pub absolute_delta: bool,
    /// Per-segment quantizer index.
    pub quantizer: [i32; 4],
    /// Per-segment filter level.
    pub filter_strength: [i32; 4],
}

impl Default for SegmentHeader {
    fn default() -> (r: Self)
        ensures
            !r.use_segment && !r.update_map && !r.absolute_delta,
            r.quantizer@ == seq![0i32, 0, 0, 0],
            r.filter_strength@ == seq![0i32, 0, 0, 0],
    {
        SegmentHeader {
            use_segment: false,
            update_map: false,
            absolute_delta: false,
            quantizer: [0i32; 4],
            filter_strength: [0i32; 4],
        }
    }
}

/// Loop-filter parameters.
#[derive(Clone, Copy, PartialEq, Eq, Debug)]
pub struct FilterHeader {
    /// Whether the simple filter is used.
    pub simple: bool,
    /// Filter level, `0..=63`.
    pub level: i32,
    /// Sharpness, `0..=7`.
    pub sharpness: i32,
    /// Whether the level deltas apply.
    pub use_lf_delta: bool,
    /// Level delta per reference frame.
    pub ref_lf_delta: [i32; 4],
    /// Level delta per prediction mode.
    pub mode_lf_delta: [i32; 4],
}

impl Default for FilterHeader {
    fn default() -> (r: Self)
        ensures
            !r.simple && r.level == 0 && r.sharpness == 0 && !r.use_lf_delta,
            r.ref_lf_delta@ == seq![0i32, 0, 0, 0],
            r.mode_lf_delta@ == seq![0i32, 0, 0, 0],
    {
        FilterHeader {
            simple: false,
            level: 0,
            sharpness: 0,
            use_lf_delta: false,
            ref_lf_delta: [0i32; 4],
            mode_lf_delta: [0i32; 4],
        }
    }
}

/// Dequantization steps of one segment, DC then AC.
#[derive(Clone, Copy, PartialEq, Eq, Debug)]
pub struct QuantMatrix {
    /// Luma.
    pub y1: [i32; 2],
    /// Second-order luma.
    pub y2: [i32; 2],
    /// Chroma.
    pub uv: [i32; 2],
}

impl Default for QuantMatrix {
    fn default() -> (r: Self)
        ensures
            r.y1@ == seq![0i32, 0] && r.y2@ == seq![0i32, 0] && r.uv@ == seq![0i32, 0],
    {
        QuantMatrix { y1: [0i32; 2], y2: [0i32; 2], uv: [0i32; 2] }
    }
}

/// A dequantization step small enough for the coefficient arithmetic.
pub open spec fn step_ok(q: [i32; 2]) -> bool {
    -65536 <= q[0] <= 65536 && -65536 <= q[1] <= 65536
}

impl QuantMatrix {
    /// Every step is small enough for the coefficient arithmetic.
    pub open spec fn wf(&self) -> bool {
        step_ok(self.y1) && step_ok(self.y2) && step_ok(self.uv)
    }
}

/// The probabilities of a frame.
#[derive(Clone, Copy, PartialEq, Eq, Debug)]
pub struct Proba {
    /// Segment-id tree.
    pub segments: [u8; 3],
    /// Coefficient tokens.
    pub bands: CoeffProbas,
    /// Whether macroblocks may be marked as skipped.
    pub use_skip: bool,
    /// Skip flag.
    pub skip_p: u8,
}

/// The neighbour flags of one macroblock column.
#[derive(Clone, Copy, PartialEq, Eq, Debug)]
pub struct MbInfo {
    /// Four luma, two U and two V "has coefficients" flags.
    pub nz: u32,
    /// The second-order flag.
    pub nz_dc: u32,
}

impl Default for MbInfo {
    fn default() -> (r: Self)
        ensures
            r.nz == 0 && r.nz_dc == 0,
    {
        MbInfo { nz: 0, nz_dc: 0 }
    }
}

/// One parsed macroblock.
#[derive(Clone, Copy, PartialEq, Eq, Debug)]
pub struct MbData {
    /// Segment id, `0..=3`.
    pub segment: u8,
    /// Whether the macroblock is marked as having no coefficients.
    pub skip: bool,
    /// Whether luma is predicted per 4x4 block.
    pub is_i4x4: bool,
    /// The sixteen 4x4 modes, or the 16x16 mode in entry zero.
    pub imodes: [u8; 16],
    /// The chroma mode.
    pub uvmode: u8,
    /// Dequantized coefficients of the sixteen luma, four U and four V blocks.
    pub coeffs: [i16; 384],
    /// Two bits per luma block that say how many coefficients it has.
    pub non_zero_y: u32,
    /// Two bits per chroma block that say how many coefficients it has.
    pub non_zero_uv: u32,
}

impl Default for MbData {
    fn default() -> (r: Self)
        ensures
            mb_data_blank(r),
    {
        let r = MbData {
            segment: 0,
            skip: false,
            is_i4x4: false,
            imodes: [0u8; 16],
            uvmode: 0,
            coeffs: [0i16; 384],
            non_zero_y: 0,
            non_zero_uv: 0,
        };
        assert(r.imodes@ =~= Seq::new(16, |i: int| 0u8));
        assert(r.coeffs@ =~= Seq::new(384, |i: int| 0i16));
        r
    }
}

/// A macroblock with nothing parsed yet.
pub open spec fn mb_data_blank(m: MbData) -> bool {
    &&& m.segment == 0
    &&& !m.skip
    &&& !m.is_i4x4
    &&& m.imodes@ == Seq::new(16, |i: int| 0u8)
    &&& m.uvmode == 0
    &&& m.coeffs@ == Seq::new(384, |i: int| 0i16)
    &&& m.non_zero_y == 0
    &&& m.non_zero_uv == 0
}

/// Everything that persists while a frame is parsed.
pub struct Frame {
    /// Width in macroblocks.
    pub mb_w: usize,
    /// Height in macroblocks.
    pub mb_h: usize,
    /// Segmentation.
    pub segment: SegmentHeader,
    /// Loop filter.
    pub filter: FilterHeader,
    /// 0 no filter, 1 simple, 2 normal.
    pub filter_type: u8,
    /// Number of token partitions.
    pub num_parts: usize,
    /// Dequantization steps per segment.
    pub dqm: [QuantMatrix; 4],
    /// Probabilities.
    pub proba: Proba,
    /// 4x4 modes above, four per macroblock.
    pub intra_t: Vec<u8>,
    /// 4x4 modes to the left.
    pub intra_l: [u8; 4],
    /// Neighbour flags: entry zero is the left neighbour, entry `x + 1` column `x`.
    pub mb_info: Vec<MbInfo>,
    /// The macroblocks of the current row.
    pub mb_data: Vec<MbData>,
}

/// Whether two frames agree on everything the headers determine.
pub open spec fn same_headers(a: Frame, b: Frame) -> bool {
    &&& a.mb_w == b.mb_w
    &&& a.mb_h == b.mb_h
    &&& a.segment == b.segment
    &&& a.filter == b.filter
    &&& a.filter_type == b.filter_type
    &&& a.num_parts == b.num_parts
    &&& a.dqm == b.dqm
    &&& a.proba == b.proba
}

impl Frame {
    /// The per-macroblock tables have the size of a row, modes are in range and
    /// neighbour flags are packed words.
    pub open spec fn wf(&self) -> bool {
        &&& self.mb_data@.len() == self.mb_w
        &&& self.mb_info@.len() == self.mb_w + 1
        &&& self.intra_t@.len() == 4 * self.mb_w
        &&& self.mb_w < 0x1000_0000
        &&& forall|i: int| 0 <= i < self.intra_t@.len() ==> #[trigger] self.intra_t@[i] < 10
        &&& forall|i: int| 0 <= i < 4 ==> #[trigger] self.intra_l@[i] < 10
        &&& forall|i: int|
            0 <= i < self.mb_info@.len() ==> (#[trigger] self.mb_info@[i]).nz < 256
                && self.mb_info@[i].nz_dc <= 1
        &&& forall|i: int| 0 <= i < self.mb_data@.len() ==> (#[trigger] self.mb_data@[i]).segment < 4
        &&& forall|i: int| 0 <= i < 4 ==> (#[trigger] self.dqm@[i]).wf()
    }

    /// Whether nothing has been parsed yet.
    pub open spec fn is_fresh(&self) -> bool {
        &&& self.wf()
        &&& self.filter_type == 0
        &&& self.num_parts == 1
        &&& self.proba.segments@ == seq![255u8, 255, 255]
        &&& self.proba.bands == coeffs_proba_0()
        &&& !self.proba.use_skip
        &&& self.proba.skip_p == 0
        &&& !self.segment.use_segment && !self.segment.update_map && !self.segment.absolute_delta
        &&& self.segment.quantizer@ == seq![0i32, 0, 0, 0]
        &&& self.segment.filter_strength@ == seq![0i32, 0, 0, 0]
        &&& !self.filter.simple && self.filter.level == 0 && self.filter.sharpness == 0
        &&& !self.filter.use_lf_delta
        &&& self.filter.ref_lf_delta@ == seq![0i32, 0, 0, 0]
        &&& self.filter.mode_lf_delta@ == seq![0i32, 0, 0, 0]
        &&& forall|i: int| 0 <= i < 4 * self.mb_w ==> #[trigger] self.intra_t@[i] == 0
        &&& self.intra_l@ == seq![0u8, 0, 0, 0]
        &&& forall|i: int|
            0 <= i <= self.mb_w ==> #[trigger] self.mb_info@[i] == (MbInfo { nz: 0, nz_dc: 0 })
        &&& forall|i: int| 0 <= i < self.mb_w ==> mb_data_blank(#[trigger] self.mb_data@[i])
    }

    /// A frame of the given size with default headers, at the start of a row.
    pub fn test_frame(mb_w: usize, mb_h: usize) -> (r: Self)
        requires
            mb_w < 0x1000_0000,
        ensures
            r.mb_w == mb_w,
            r.mb_h == mb_h,
            r.is_fresh(),
    {
        let r = Frame {
            mb_w,
            mb_h,
            segment: SegmentHeader::default(),
            filter: FilterHeader::default(),
            filter_type: 0,
            num_parts: 1,
            dqm: [QuantMatrix::default();4],
            proba: Proba {
                segments: [255u8; 3],
                bands: default_probas(),
                use_skip: false,
                skip_p: 0,
            },
            intra_t: vec![0u8; 4 * mb_w],
            intra_l: [0u8; 4],
            mb_info: vec![MbInfo::default(); mb_w + 1],
            mb_data: vec![MbData::default(); mb_w],
        };
        assert(r.proba.segments@ =~= seq![255u8, 255, 255]);
        assert(r.intra_l@ =~= seq![0u8, 0, 0, 0]);
        r
    }

    /// The frame of a key-frame header.
    ///
    /// # Errors
    ///
    /// [`Error::InvalidBitstream`] if a side is zero.
    pub fn new(header: FrameHeader) -> (r: Result<Self>)
        ensures
            match r {
                Ok(f) => {
                    &&& header.width != 0
                    &&& header.height != 0
                    &&& f.mb_w == blocks_of(header.width as int)
                    &&& f.mb_h == blocks_of(header.height as int)
                    &&& f.is_fresh()
                },
                Err(e) => {
                    &&& header.width == 0 || header.height == 0
                    &&& e == (Error::InvalidBitstream { codec: Codec::Lossy })
                },
            },
    {
        if header.width == 0 || header.height == 0 {
            return Err(Error::InvalidBitstream { codec: Codec::Lossy });
        }
        let mb_w: usize = (header.width as usize + 15) / 16;
        let mb_h: usize = (header.height as usize + 15) / 16;
        Ok(Frame::test_frame(mb_w, mb_h))
    }

    /// Clear the left neighbours at the start of a macroblock row.
    pub fn init_scanline(&mut self)
        requires
            old(self).wf(),
        ensures
            final(self).wf(),
            same_headers(*final(self), *old(self)),
            final(self).intra_t@ == old(self).intra_t@,
            final(self).intra_l@ == seq![0u8, 0, 0, 0],
            final(self).mb_info@ == old(self).mb_info@.update(0, MbInfo { nz: 0, nz_dc: 0 }),
            final(self).mb_data@ == old(self).mb_data@,
    {
        self.intra_l = [0u8; 4];
        self.mb_info[0] = MbInfo { nz: 0, nz_dc: 0 };
    }
}

} // verus!
