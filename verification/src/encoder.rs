//! Encoding and decoding of whole files.
//!
//! Only colour is coded: alpha is dropped, and decoded pictures are opaque.

use vstd::prelude::*;

use crate::arith::clamp_int;
use crate::constants::{lemma_quality_curve, quality_curve, CoeffProbas};
use crate::container::{unwrap_file, unwrap_inverts_wrap, unwrapped, wrap, wrapped};
use crate::effort::{Effort, FrameTuning};
use crate::error::{Codec, Error, Result};
use crate::frame::{encodable, encode_frame_tuned, is_encode, PassCode, PassRequest};
use crate::frame_header::{header_fields, is_key_frame_header};
use crate::frame_read::{decode_frame, is_decode, is_truncated};
use crate::image::{Image, PixelLayout};
use crate::quant::quality_to_base_q;
use crate::reconstruct::{picture_of, Samples};
use crate::rgb_to_yuv::blocks_of;
use crate::roundtrip::{decode_inverts_encode, is_round_trip, lemma_round_trip};
use crate::tuning::{Knobs, LossyTuning};
use crate::unique::{decode_is_unique, encode_is_unique};
use crate::yuv::rgba_image;

verus! {

/// How a picture is encoded.
#[derive(Clone, Copy, Debug)]
pub struct LossyConfig {
    quality: u8,
    effort: Effort,
    tuning: LossyTuning,
}

/// The settings of a configuration.
pub struct Settings {
    /// The quality, `0..=100`.
    pub quality: int,
    /// The effort.
    pub effort: Effort,
    /// The knobs.
    pub knobs: Knobs,
}

impl View for LossyConfig {
    type V = Settings;

    closed spec fn view(&self) -> Settings {
        Settings { quality: self.quality as int, effort: self.effort, knobs: self.tuning@ }
    }
}

/// The knobs of a frame.
pub open spec fn frame_knobs(k: Knobs) -> FrameTuning {
    FrameTuning {
        sns_strength: k.sns_strength as u8,
        segments: k.segments as u8,
        filter_strength: k.filter_strength as u8,
        filter_sharpness: k.filter_sharpness as u8,
        sharp_yuv: k.sharp_yuv,
        passes: k.pass as u8,
    }
}

impl Default for LossyConfig {
    fn default() -> (r: Self)
        ensures
            r@ == (Settings {
                quality: 75,
                effort: Effort::Full,
                knobs: crate::tuning::default_knobs(),
            }),
    {
        LossyConfig { quality: 75, effort: Effort::Full, tuning: LossyTuning::new() }
    }
}

impl LossyConfig {
    #[verifier::type_invariant]
    spec fn inv(&self) -> bool {
        self.quality <= 100
    }

    /// Quality 75 at full effort, with the automatic knobs.
    #[must_use]
    pub fn new() -> (r: Self)
        ensures
            r@ == (Settings {
                quality: 75,
                effort: Effort::Full,
                knobs: crate::tuning::default_knobs(),
            }),
    {
        Self::default()
    }

    /// Set the quality; larger values count as 100.
    #[must_use]
    pub fn with_quality(self, quality: u8) -> (r: Self)
        ensures
            r@ == (Settings { quality: clamp_int(quality as int, 0, 100), ..self@ }),
    {
        let q: u8 = if quality > 100 {
            100
        } else {
            quality
        };
        LossyConfig { quality: q, effort: self.effort, tuning: self.tuning }
    }

    /// Set the effort.
    #[must_use]
    pub fn with_effort(self, effort: Effort) -> (r: Self)
        ensures
            r@ == (Settings { effort, ..self@ }),
    {
        proof {
            use_type_invariant(&self);
        }
        LossyConfig { quality: self.quality, effort, tuning: self.tuning }
    }

    /// Set the knobs.
    #[must_use]
    pub fn with_tuning(self, tuning: LossyTuning) -> (r: Self)
        ensures
            r@ == (Settings { knobs: tuning@, ..self@ }),
    {
        proof {
            use_type_invariant(&self);
        }
        LossyConfig { quality: self.quality, effort: self.effort, tuning }
    }

    /// The quality.
    #[must_use]
    pub fn quality(self) -> (r: u8)
        ensures
            r == self@.quality,
            r <= 100,
    {
        proof {
            use_type_invariant(&self);
        }
        self.quality
    }

    /// The knobs of a frame.
    fn frame_tuning(self) -> (r: FrameTuning)
        ensures
            r == frame_knobs(self@.knobs),
            r.wf(),
    {
        FrameTuning {
            sns_strength: self.tuning.sns_strength(),
            segments: self.tuning.segments(),
            filter_strength: self.tuning.filter_strength(),
            filter_sharpness: self.tuning.filter_sharpness(),
            sharp_yuv: self.tuning.sharp_yuv(),
            passes: self.tuning.pass(),
        }
    }
}

/// The frame encode that a configuration asks for.
pub open spec fn request(image: Image, s: Settings) -> PassRequest {
    PassRequest {
        rgba: image.bytes@,
        width: image.dims.width as int,
        height: image.dims.height as int,
        base_q: quality_curve(clamp_int(s.quality, 0, 100)) as i32,
        effort: s.effort,
        tuning: frame_knobs(s.knobs),
    }
}

/// The bytes of a frame.
pub open spec fn encoded(req: PassRequest) -> Seq<u8> {
    choose|payload: Seq<u8>| #[trigger] is_payload(req, payload)
}

/// Whether a frame encodes to `payload`.
pub open spec fn is_payload(req: PassRequest, payload: Seq<u8>) -> bool {
    exists|planes: Samples| #[trigger] is_encode(req, payload, planes)
}

/// The file that a picture is encoded to.
pub open spec fn file_of(image: Image, s: Settings) -> Seq<u8> {
    wrapped(encoded(request(image, s)))
}

/// A frame has one encode.
pub proof fn lemma_encoded(req: PassRequest, payload: Seq<u8>, planes: Samples)
    requires
        is_encode(req, payload, planes),
    ensures
        payload == encoded(req),
        is_payload(req, payload),
{
    assert(is_payload(req, payload));
    let p = encoded(req);
    assert(is_payload(req, p));
    let planes2 = choose|planes: Samples| #[trigger] is_encode(req, p, planes);
    encode_is_unique(req, payload, planes, p, planes2);
}

/// Encode a picture into a file.
///
/// # Errors
///
/// None for a well-formed picture.
pub fn encode_image(image: &Image, config: &LossyConfig) -> (r: Result<Vec<u8>>)
    requires
        image.wf(),
    ensures
        r is Ok,
        r->Ok_0@ == file_of(*image, config@),
        is_payload(request(*image, config@), encoded(request(*image, config@))),
{
    let width: usize = image.dims.width as usize;
    let height: usize = image.dims.height as usize;
    proof {
        let w = blocks_of(width as int) * 16;
        let h = blocks_of(height as int) * 16;
        assert(w * h <= 16384 * 16384) by (nonlinear_arith)
            requires
                0 <= w <= 16384,
                0 <= h <= 16384,
        ;
        assert(encodable(image.bytes@.len() as int, width as int, height as int));
    }
    let quality: u8 = config.quality();
    let tuning: FrameTuning = config.frame_tuning();
    let payload: Vec<u8> = encode_frame_tuned(
        image.as_bytes(),
        width,
        height,
        quality_to_base_q(quality),
        config.effort,
        tuning,
    );
    proof {
        let req = request(*image, config@);
        let planes = choose|planes: Samples| #[trigger] is_encode(req, payload@, planes);
        lemma_encoded(req, payload@, planes);
    }
    Ok(wrap(payload.as_slice()))
}

/// The pixels of a frame.
pub open spec fn decoded(payload: Seq<u8>) -> Seq<u8> {
    let h = header_fields(payload);
    rgba_image(
        picture_of(
            choose|planes: Samples| #[trigger] is_decode(payload, planes),
            blocks_of(h.width as int),
        ),
        h.width as int,
        h.height as int,
    )
}

/// What decoding a file yields: its pixels, or why there are none.
pub open spec fn decoded_file(file: Seq<u8>) -> Result<Seq<u8>> {
    match unwrapped(file) {
        Err(e) => Err(e),
        Ok(payload) => if is_truncated(payload) {
            Err(Error::Truncated)
        } else if !is_key_frame_header(payload) {
            Err(Error::InvalidBitstream { codec: Codec::Lossy })
        } else {
            Ok(decoded(payload))
        },
    }
}

/// Decode a file.
///
/// # Errors
///
/// [`Error::Truncated`] if the file ends before the data it announces, or
/// [`Error::InvalidBitstream`] if it does not hold a key frame.
pub fn decode(file: &[u8]) -> (r: Result<Image>)
    ensures
        match r {
            Ok(image) => {
                &&& decoded_file(file@) == Ok::<Seq<u8>, Error>(image.bytes@)
                &&& image.wf()
                &&& image.dims.width == header_fields(unwrapped(file@)->Ok_0).width
                &&& image.dims.height == header_fields(unwrapped(file@)->Ok_0).height
                &&& image.layout == PixelLayout::Rgba8
            },
            Err(e) => decoded_file(file@) == Err::<Seq<u8>, Error>(e),
        },
{
    let payload: &[u8] = match unwrap_file(file) {
        Ok(p) => p,
        Err(e) => {
            return Err(e);
        },
    };
    let r: Result<Image> = decode_frame(payload);
    proof {
        if r is Ok {
            let image = r->Ok_0;
            let h = header_fields(payload@);
            let w = blocks_of(h.width as int);
            let a = choose|planes: Samples| #[trigger]
                is_decode(payload@, planes) && image.bytes@ == rgba_image(
                    picture_of(planes, w),
                    h.width as int,
                    h.height as int,
                );
            assert(is_decode(payload@, a));
            let b = choose|planes: Samples| #[trigger] is_decode(payload@, planes);
            decode_is_unique(payload@, a, b);
        }
    }
    r
}

/// Decoding an encoded picture's file yields the pixels of the encoder's own
/// reconstruction: the file holds what one pass wrote, and where the headers can hold the
/// sizes of that pass's control partition and of the frame, the file decodes to the
/// pixels that the pass reconstructed.
pub proof fn decode_inverts_encode_image(image: Image, s: Settings, dec: Samples)
    requires
        image.wf(),
        s.knobs.in_range(),
        is_payload(request(image, s), encoded(request(image, s))),
        is_decode(encoded(request(image, s)), dec),
    ensures
        ({
            let req = request(image, s);
            exists|cost: CoeffProbas, c: PassCode<'_>, planes: Samples|
                {
                    &&& #[trigger] is_round_trip(req, cost, c, encoded(req), planes)
                    &&& is_encode(req, encoded(req), planes)
                    &&& (req.parts(c).control.len() < 0x80000 && encoded(req).len() < 0x1_0000_0000
                        ==> decoded_file(file_of(image, s)) == Ok::<Seq<u8>, Error>(
                        rgba_image(
                            picture_of(planes, blocks_of(req.width)),
                            req.width,
                            req.height,
                        ),
                    ))
                }
        }),
{
    let req = request(image, s);
    let payload = encoded(req);
    let planes = choose|planes: Samples| #[trigger] is_encode(req, payload, planes);
    lemma_quality_curve(clamp_int(s.quality, 0, 100), clamp_int(s.quality, 0, 100));
    decode_inverts_encode(req, payload, planes);
    let (cost, c) = choose|cost: CoeffProbas, c: PassCode<'_>| #[trigger]
        is_round_trip(req, cost, c, payload, planes);
    if req.parts(c).control.len() < 0x80000 && payload.len() < 0x1_0000_0000 {
        lemma_round_trip(req, cost, c, payload, planes);
        unwrap_inverts_wrap(payload);
        let d = choose|d: Samples| #[trigger] is_decode(payload, d);
        assert(is_decode(payload, d));
    }
    assert(is_round_trip(req, cost, c, payload, planes) && is_encode(req, payload, planes));
}

} // verus!
