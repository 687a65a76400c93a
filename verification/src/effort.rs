//! Encoder effort and the knobs of one frame.

use vstd::prelude::*;

use crate::plan::SearchGates;

verus! {

/// How much a frame encode searches.
#[derive(Clone, Copy, PartialEq, Eq, Debug, Structural)]
pub enum Effort {
    /// Fixed DC prediction, default probabilities, no skip coding, no filter.
    Fast,
    /// Whole-block mode search, probability optimization, skip coding, segments, filter.
    Full,
    /// `Full`, and the search of 4x4 luma modes.
    Best,
}

impl Effort {
    /// Whether whole-block modes are searched.
    pub fn search_modes(self) -> (r: bool)
        ensures
            r == (self != Effort::Fast),
    {
        !matches!(self, Effort::Fast)
    }

    /// Whether a coefficient-probability table is optimized.
    pub fn optimize_probas(self) -> (r: bool)
        ensures
            r == (self != Effort::Fast),
    {
        !matches!(self, Effort::Fast)
    }

    /// Whether flat macroblocks may be coded with a skip flag.
    pub fn consider_skip(self) -> (r: bool)
        ensures
            r == (self != Effort::Fast),
    {
        !matches!(self, Effort::Fast)
    }

    /// Whether the loop filter is applied.
    pub fn apply_filter(self) -> (r: bool)
        ensures
            r == (self != Effort::Fast),
    {
        !matches!(self, Effort::Fast)
    }

    /// Whether luma may be coded as 4x4 sub-blocks: all that tells `Best` from `Full`.
    pub fn uses_i4x4(self) -> (r: bool)
        ensures
            r == (self == Effort::Best),
    {
        matches!(self, Effort::Best)
    }

    /// Whether levels are chosen by rate and distortion.
    pub fn uses_trellis(self) -> (r: bool)
        ensures
            r == (self != Effort::Fast),
    {
        !matches!(self, Effort::Fast)
    }

    /// Whether macroblocks are partitioned into quantizer segments.
    pub fn uses_segments(self) -> (r: bool)
        ensures
            r == (self != Effort::Fast),
    {
        !matches!(self, Effort::Fast)
    }
}

/// The knobs of one frame.
#[derive(Clone, Copy, PartialEq, Eq, Debug)]
pub struct FrameTuning {
    /// Spatial-noise-shaping strength, `0..=100`; zero disables shaping.
    pub sns_strength: u8,
    /// Number of quantizer segments, `1..=4`.
    pub segments: u8,
    /// Loop-filter strength, `0..=100`; zero disables the filter.
    pub filter_strength: u8,
    /// Loop-filter sharpness, `0..=7`.
    pub filter_sharpness: u8,
    /// Whether chroma is subsampled with luminance guidance.
    pub sharp_yuv: bool,
    /// Number of entropy-refinement passes, `1..=10`.
    pub passes: u8,
}

impl FrameTuning {
    /// The automatic, near-best baseline.
    pub fn auto() -> (r: FrameTuning)
        ensures
            r.is_auto(),
            r.wf(),
    {
        FrameTuning {
            sns_strength: 50,
            segments: 4,
            filter_strength: 60,
            filter_sharpness: 0,
            sharp_yuv: false,
            passes: 1,
        }
    }

    /// Whether these are the automatic knobs.
    pub open spec fn is_auto(&self) -> bool {
        &&& self.sns_strength == 50
        &&& self.segments == 4
        &&& self.filter_strength == 60
        &&& self.filter_sharpness == 0
        &&& !self.sharp_yuv
        &&& self.passes == 1
    }

    /// The sharpness is one that a header can hold.
    pub open spec fn wf(&self) -> bool {
        self.filter_sharpness <= 7
    }
}

/// The search depth of an effort.
pub open spec fn gates_of(effort: Effort, sns_strength: u8) -> SearchGates {
    SearchGates {
        search_modes: effort != Effort::Fast,
        uses_i4x4: effort == Effort::Best,
        uses_trellis: effort != Effort::Fast,
        sns_strength,
    }
}

} // verus!
