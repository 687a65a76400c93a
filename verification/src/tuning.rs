//! The psychovisual rate-distortion knobs of a lossy encode.
//!
//! Every knob is clamped by its setter into the range the encoder relies on; that range
//! is the type's invariant, so a frame encode never checks a knob again.
//! [`LossyTuning::default`] is the automatic, near-best baseline. A content [`Preset`] is
//! not a knob but a bundle of them: [`Preset::tuning`] expands it.

use vstd::prelude::*;

verus! {

/// The largest percentage knob.
const MAX_PERCENT: u8 = 100;

/// The fewest quantizer segments.
const MIN_SEGMENTS: u8 = 1;

/// The most quantizer segments.
const MAX_SEGMENTS: u8 = 4;

/// The largest filter sharpness.
const MAX_SHARPNESS: u8 = 7;

/// The fewest refinement passes.
const MIN_PASS: u8 = 1;

/// The most refinement passes.
const MAX_PASS: u8 = 10;

/// A content preset.
#[derive(Clone, Copy, PartialEq, Eq, Debug, Default)]
#[non_exhaustive]
pub enum Preset {
    /// No content-specific shaping.
    #[default]
    Default,
    /// Digital picture, like portrait or inner shot.
    Picture,
    /// Outdoor photograph with natural lighting.
    Photo,
    /// Hand or line drawing with high-contrast details.
    Drawing,
    /// Small-sized colorful image.
    Icon,
    /// Text-like content.
    Text,
}

/// How a lossy frame's alpha channel is compressed.
#[derive(Clone, Copy, PartialEq, Eq, Debug, Default)]
#[non_exhaustive]
pub enum AlphaMethod {
    /// Store the alpha plane uncompressed.
    Raw,
    /// Compress the alpha plane losslessly.
    #[default]
    Compressed,
}

/// The spatial-filter search for a lossy frame's alpha plane.
#[derive(Clone, Copy, PartialEq, Eq, Debug, Default)]
#[non_exhaustive]
pub enum AlphaFilterMode {
    /// Do not filter the plane.
    Unfiltered,
    /// Try a single predictor picked by a cheap residual estimate.
    Fast,
    /// Try every predictor and keep the smallest.
    #[default]
    Best,
}

/// The tuning knobs of a lossy encode.
#[derive(Clone, Copy, PartialEq, Eq, Debug)]
pub struct LossyTuning {
    sns_strength: u8,
    segments: u8,
    filter_strength: u8,
    filter_sharpness: u8,
    alpha_q: u8,
    alpha_method: AlphaMethod,
    alpha_filter: AlphaFilterMode,
    sharp_yuv: bool,
    smooth_segments: bool,
    freq_sharpen: bool,
    exact: bool,
    jpeg_like: bool,
    partition_limit: u8,
    pass: u8,
}

/// The knob values of a tuning.
pub struct Knobs {
    /// The spatial-noise-shaping strength (`0..=100`).
    pub sns_strength: int,
    /// The number of macroblock quantizer segments (`1..=4`).
    pub segments: int,
    /// The in-loop filter strength (`0..=100`).
    pub filter_strength: int,
    /// The in-loop filter sharpness (`0..=7`).
    pub filter_sharpness: int,
    /// The alpha-plane quality (`0..=100`); `100` keeps alpha lossless.
    pub alpha_q: int,
    /// The alpha compression method.
    pub alpha_method: AlphaMethod,
    /// The alpha spatial-filter search.
    pub alpha_filter: AlphaFilterMode,
    /// The sharp-YUV flag; `false` keeps box chroma.
    pub sharp_yuv: bool,
    /// The segment-map smoothing flag; `false` keeps the raw map.
    pub smooth_segments: bool,
    /// The per-frequency luma sharpening flag; `false` applies no bias.
    pub freq_sharpen: bool,
    /// The exact-transparency flag; `true` preserves the RGB under transparent pixels.
    pub exact: bool,
    /// The JPEG-like rate-distortion bias flag.
    pub jpeg_like: bool,
    /// The first-partition rate cap (`0..=100`); `0` is no limit.
    pub partition_limit: int,
    /// The number of entropy-refinement passes (`1..=10`).
    pub pass: int,
}

impl Knobs {
    /// Every knob is in its range.
    pub open spec fn in_range(&self) -> bool {
        &&& 0 <= self.sns_strength <= 100
        &&& 1 <= self.segments <= 4
        &&& 0 <= self.filter_strength <= 100
        &&& 0 <= self.filter_sharpness <= 7
        &&& 0 <= self.alpha_q <= 100
        &&& 0 <= self.partition_limit <= 100
        &&& 1 <= self.pass <= 10
    }
}

impl View for LossyTuning {
    type V = Knobs;

    closed spec fn view(&self) -> Knobs {
        Knobs {
            sns_strength: self.sns_strength as int,
            segments: self.segments as int,
            filter_strength: self.filter_strength as int,
            filter_sharpness: self.filter_sharpness as int,
            alpha_q: self.alpha_q as int,
            alpha_method: self.alpha_method,
            alpha_filter: self.alpha_filter,
            sharp_yuv: self.sharp_yuv,
            smooth_segments: self.smooth_segments,
            freq_sharpen: self.freq_sharpen,
            exact: self.exact,
            jpeg_like: self.jpeg_like,
            partition_limit: self.partition_limit as int,
            pass: self.pass as int,
        }
    }
}

/// The automatic, near-best knob values.
pub open spec fn default_knobs() -> Knobs {
    Knobs {
        sns_strength: 50,
        segments: 4,
        filter_strength: 60,
        filter_sharpness: 0,
        alpha_q: 100,
        alpha_method: AlphaMethod::Compressed,
        alpha_filter: AlphaFilterMode::Best,
        sharp_yuv: false,
        smooth_segments: false,
        freq_sharpen: false,
        exact: true,
        jpeg_like: false,
        partition_limit: 0,
        pass: 1,
    }
}

/// The knob values a preset bundles.
pub open spec fn preset_knobs(p: Preset) -> Knobs {
    let base = default_knobs();
    match p {
        Preset::Default => base,
        Preset::Picture => Knobs {
            sns_strength: 80,
            filter_strength: 35,
            filter_sharpness: 4,
            segments: 4,
            ..base
        },
        Preset::Photo => Knobs {
            sns_strength: 80,
            filter_strength: 30,
            filter_sharpness: 3,
            segments: 4,
            ..base
        },
        Preset::Drawing => Knobs {
            sns_strength: 25,
            filter_strength: 10,
            filter_sharpness: 6,
            segments: 4,
            ..base
        },
        Preset::Icon => Knobs {
            sns_strength: 25,
            filter_strength: 10,
            filter_sharpness: 0,
            segments: 4,
            ..base
        },
        Preset::Text => Knobs {
            sns_strength: 0,
            filter_strength: 0,
            filter_sharpness: 0,
            segments: 2,
            ..base
        },
    }
}

impl Preset {
    /// The base tuning this preset stands for; explicit knobs are set after it.
    #[must_use]
    pub fn tuning(self) -> (r: LossyTuning)
        ensures
            r@ == preset_knobs(self),
    {
        let base: LossyTuning = LossyTuning::new();
        match self {
            Preset::Default => base,
            Preset::Picture => base.shaped(80, 35, 4, 4),
            Preset::Photo => base.shaped(80, 30, 3, 4),
            Preset::Drawing => base.shaped(25, 10, 6, 4),
            Preset::Icon => base.shaped(25, 10, 0, 4),
            Preset::Text => base.shaped(0, 0, 0, 2),
        }
    }
}

impl Default for LossyTuning {
    /// The automatic, near-best baseline.
    fn default() -> (r: Self)
        ensures
            r@ == default_knobs(),
    {
        LossyTuning {
            sns_strength: 50,
            segments: MAX_SEGMENTS,
            filter_strength: 60,
            filter_sharpness: 0,
            alpha_q: MAX_PERCENT,
            alpha_method: AlphaMethod::Compressed,
            alpha_filter: AlphaFilterMode::Best,
            sharp_yuv: false,
            smooth_segments: false,
            freq_sharpen: false,
            exact: true,
            jpeg_like: false,
            partition_limit: 0,
            pass: MIN_PASS,
        }
    }
}

impl LossyTuning {
    #[verifier::type_invariant]
    spec fn inv(&self) -> bool {
        self@.in_range()
    }

    /// The automatic, near-best baseline.
    #[must_use]
    pub fn new() -> (r: Self)
        ensures
            r@ == default_knobs(),
    {
        Self::default()
    }

    /// This tuning with the four shaping knobs replaced.
    fn shaped(self, sns: u8, strength: u8, sharpness: u8, segments: u8) -> (r: Self)
        requires
            sns <= 100,
            strength <= 100,
            sharpness <= 7,
            1 <= segments <= 4,
        ensures
            r@ == (Knobs {
                sns_strength: sns as int,
                filter_strength: strength as int,
                filter_sharpness: sharpness as int,
                segments: segments as int,
                ..self@
            }),
    {
        proof {
            use_type_invariant(&self);
        }
        LossyTuning {
            sns_strength: sns,
            filter_strength: strength,
            filter_sharpness: sharpness,
            segments,
            ..self
        }
    }

    /// Set the spatial-noise-shaping strength, clamped to `0..=100`: higher values move more bits
    /// toward flat regions, `0` disables shaping.
    #[must_use]
    pub fn with_sns_strength(self, value: u8) -> (r: Self)
        ensures
            r@ == (Knobs { sns_strength: clamp_spec(value as int, 0, 100), ..self@ }),
    {
        proof {
            use_type_invariant(&self);
        }
        LossyTuning { sns_strength: clamp(value, 0, MAX_PERCENT), ..self }
    }

    /// Set the number of macroblock quantizer segments, clamped to `1..=4`; `1` codes no
    /// segmentation header.
    #[must_use]
    pub fn with_segments(self, value: u8) -> (r: Self)
        ensures
            r@ == (Knobs { segments: clamp_spec(value as int, 1, 4), ..self@ }),
    {
        proof {
            use_type_invariant(&self);
        }
        LossyTuning { segments: clamp(value, MIN_SEGMENTS, MAX_SEGMENTS), ..self }
    }

    /// Set the in-loop filter strength, clamped to `0..=100`; `0` disables the filter.
    #[must_use]
    pub fn with_filter_strength(self, value: u8) -> (r: Self)
        ensures
            r@ == (Knobs { filter_strength: clamp_spec(value as int, 0, 100), ..self@ }),
    {
        proof {
            use_type_invariant(&self);
        }
        LossyTuning { filter_strength: clamp(value, 0, MAX_PERCENT), ..self }
    }

    /// Set the in-loop filter sharpness, clamped to `0..=7`: higher values filter less near
    /// edges.
    #[must_use]
    pub fn with_filter_sharpness(self, value: u8) -> (r: Self)
        ensures
            r@ == (Knobs { filter_sharpness: clamp_spec(value as int, 0, 7), ..self@ }),
    {
        proof {
            use_type_invariant(&self);
        }
        LossyTuning { filter_sharpness: clamp(value, 0, MAX_SHARPNESS), ..self }
    }

    /// Set the alpha-plane quality, clamped to `0..=100`; `100` is lossless.
    ///
    /// The setting is recorded; encoding does not read it.
    #[must_use]
    pub fn with_alpha_q(self, value: u8) -> (r: Self)
        ensures
            r@ == (Knobs { alpha_q: clamp_spec(value as int, 0, 100), ..self@ }),
    {
        proof {
            use_type_invariant(&self);
        }
        LossyTuning { alpha_q: clamp(value, 0, MAX_PERCENT), ..self }
    }

    /// Set the alpha compression method.
    ///
    /// The setting is recorded; encoding does not read it.
    #[must_use]
    pub fn with_alpha_method(self, value: AlphaMethod) -> (r: Self)
        ensures
            r@ == (Knobs { alpha_method: value, ..self@ }),
    {
        proof {
            use_type_invariant(&self);
        }
        LossyTuning { alpha_method: value, ..self }
    }

    /// Set the alpha spatial-filter search.
    ///
    /// The setting is recorded; encoding does not read it.
    #[must_use]
    pub fn with_alpha_filter(self, value: AlphaFilterMode) -> (r: Self)
        ensures
            r@ == (Knobs { alpha_filter: value, ..self@ }),
    {
        proof {
            use_type_invariant(&self);
        }
        LossyTuning { alpha_filter: value, ..self }
    }

    /// Set the sharp-YUV flag: `true` refines the chroma planes with luminance guidance.
    #[must_use]
    pub fn with_sharp_yuv(self, value: bool) -> (r: Self)
        ensures
            r@ == (Knobs { sharp_yuv: value, ..self@ }),
    {
        proof {
            use_type_invariant(&self);
        }
        LossyTuning { sharp_yuv: value, ..self }
    }

    /// Set the segment-map smoothing flag: `true` applies a 3x3 majority vote to the map.
    ///
    /// The setting is recorded; encoding does not read it.
    #[must_use]
    pub fn with_smooth_segments(self, value: bool) -> (r: Self)
        ensures
            r@ == (Knobs { smooth_segments: value, ..self@ }),
    {
        proof {
            use_type_invariant(&self);
        }
        LossyTuning { smooth_segments: value, ..self }
    }

    /// Set the per-frequency luma sharpening flag: `true` biases luma AC coefficients before
    /// quantization.
    ///
    /// The setting is recorded; encoding does not read it.
    #[must_use]
    pub fn with_freq_sharpen(self, value: bool) -> (r: Self)
        ensures
            r@ == (Knobs { freq_sharpen: value, ..self@ }),
    {
        proof {
            use_type_invariant(&self);
        }
        LossyTuning { freq_sharpen: value, ..self }
    }

    /// Set the exact-transparency flag: `false` clears the RGB under transparent pixels.
    ///
    /// The setting is recorded; encoding does not read it.
    #[must_use]
    pub fn with_exact(self, value: bool) -> (r: Self)
        ensures
            r@ == (Knobs { exact: value, ..self@ }),
    {
        proof {
            use_type_invariant(&self);
        }
        LossyTuning { exact: value, ..self }
    }

    /// Set the JPEG-like flag: `true` coarsens the base quantizer.
    ///
    /// The setting is recorded; encoding does not read it.
    #[must_use]
    pub fn with_jpeg_like(self, value: bool) -> (r: Self)
        ensures
            r@ == (Knobs { jpeg_like: value, ..self@ }),
    {
        proof {
            use_type_invariant(&self);
        }
        LossyTuning { jpeg_like: value, ..self }
    }

    /// Set the first-partition rate cap, clamped to `0..=100`; `0` is no limit.
    ///
    /// The setting is recorded; encoding does not read it.
    #[must_use]
    pub fn with_partition_limit(self, value: u8) -> (r: Self)
        ensures
            r@ == (Knobs { partition_limit: clamp_spec(value as int, 0, 100), ..self@ }),
    {
        proof {
            use_type_invariant(&self);
        }
        LossyTuning { partition_limit: clamp(value, 0, MAX_PERCENT), ..self }
    }

    /// Set the number of entropy-refinement passes, clamped to `1..=10`.
    #[must_use]
    pub fn with_pass(self, value: u8) -> (r: Self)
        ensures
            r@ == (Knobs { pass: clamp_spec(value as int, 1, 10), ..self@ }),
    {
        proof {
            use_type_invariant(&self);
        }
        LossyTuning { pass: clamp(value, MIN_PASS, MAX_PASS), ..self }
    }

    /// The spatial-noise-shaping strength (`0..=100`).
    #[must_use]
    pub fn sns_strength(self) -> (r: u8)
        ensures
            r == self@.sns_strength,
            0 <= r <= 100,
    {
        proof {
            use_type_invariant(&self);
        }
        self.sns_strength
    }

    /// The number of macroblock quantizer segments (`1..=4`).
    #[must_use]
    pub fn segments(self) -> (r: u8)
        ensures
            r == self@.segments,
            1 <= r <= 4,
    {
        proof {
            use_type_invariant(&self);
        }
        self.segments
    }

    /// The in-loop filter strength (`0..=100`).
    #[must_use]
    pub fn filter_strength(self) -> (r: u8)
        ensures
            r == self@.filter_strength,
            0 <= r <= 100,
    {
        proof {
            use_type_invariant(&self);
        }
        self.filter_strength
    }

    /// The in-loop filter sharpness (`0..=7`).
    #[must_use]
    pub fn filter_sharpness(self) -> (r: u8)
        ensures
            r == self@.filter_sharpness,
            0 <= r <= 7,
    {
        proof {
            use_type_invariant(&self);
        }
        self.filter_sharpness
    }

    /// The alpha-plane quality (`0..=100`); `100` keeps alpha lossless.
    #[must_use]
    pub fn alpha_q(self) -> (r: u8)
        ensures
            r == self@.alpha_q,
            0 <= r <= 100,
    {
        proof {
            use_type_invariant(&self);
        }
        self.alpha_q
    }

    /// The alpha compression method.
    #[must_use]
    pub fn alpha_method(self) -> (r: AlphaMethod)
        ensures
            r == self@.alpha_method,
    {
        self.alpha_method
    }

    /// The alpha spatial-filter search.
    #[must_use]
    pub fn alpha_filter(self) -> (r: AlphaFilterMode)
        ensures
            r == self@.alpha_filter,
    {
        self.alpha_filter
    }

    /// The sharp-YUV flag; `false` keeps box chroma.
    #[must_use]
    pub fn sharp_yuv(self) -> (r: bool)
        ensures
            r == self@.sharp_yuv,
    {
        self.sharp_yuv
    }

    /// The segment-map smoothing flag; `false` keeps the raw map.
    #[must_use]
    pub fn smooth_segments(self) -> (r: bool)
        ensures
            r == self@.smooth_segments,
    {
        self.smooth_segments
    }

    /// The per-frequency luma sharpening flag; `false` applies no bias.
    #[must_use]
    pub fn freq_sharpen(self) -> (r: bool)
        ensures
            r == self@.freq_sharpen,
    {
        self.freq_sharpen
    }

    /// The exact-transparency flag; `true` preserves the RGB under transparent pixels.
    #[must_use]
    pub fn exact(self) -> (r: bool)
        ensures
            r == self@.exact,
    {
        self.exact
    }

    /// The JPEG-like rate-distortion bias flag.
    #[must_use]
    pub fn jpeg_like(self) -> (r: bool)
        ensures
            r == self@.jpeg_like,
    {
        self.jpeg_like
    }

    /// The first-partition rate cap (`0..=100`); `0` is no limit.
    #[must_use]
    pub fn partition_limit(self) -> (r: u8)
        ensures
            r == self@.partition_limit,
            0 <= r <= 100,
    {
        proof {
            use_type_invariant(&self);
        }
        self.partition_limit
    }

    /// The number of entropy-refinement passes (`1..=10`).
    #[must_use]
    pub fn pass(self) -> (r: u8)
        ensures
            r == self@.pass,
            1 <= r <= 10,
    {
        proof {
            use_type_invariant(&self);
        }
        self.pass
    }
}

/// `v` brought into `lo..=hi`.
pub open spec fn clamp_spec(v: int, lo: int, hi: int) -> int {
    if v < lo {
        lo
    } else if v > hi {
        hi
    } else {
        v
    }
}

/// `v` brought into `lo..=hi`.
fn clamp(v: u8, lo: u8, hi: u8) -> (r: u8)
    requires
        lo <= hi,
    ensures
        r == clamp_spec(v as int, lo as int, hi as int),
{
    if v < lo {
        lo
    } else if v > hi {
        hi
    } else {
        v
    }
}

} // verus!
