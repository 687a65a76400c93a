use webpkit::container::{unwrap_file, wrap};
use webpkit::effort::Effort;
use webpkit::encoder::{LossyConfig, decode, encode_image};
use webpkit::error::{Codec, Error};
use webpkit::frame::encode_frame_impl;
use webpkit::image::{Dimensions, Image, PixelLayout, unpack_pixels};
use webpkit::quant::quality_to_base_q;
use webpkit::rate::{Attempt, RateTarget, first_true, fixed_log2, last_true, psnr_centidb, search};
use webpkit::reconstruct::to_image;
use webpkit::tuning::LossyTuning;

/// A picture whose pixels come from a function of their place.
fn picture(w: u32, h: u32, f: impl Fn(u32, u32) -> [u8; 3]) -> Image {
    let mut bytes = Vec::new();
    for y in 0..h {
        for x in 0..w {
            bytes.extend_from_slice(&f(x, y));
            bytes.push(255);
        }
    }
    Image::from_parts(Dimensions::new(w, h).unwrap(), PixelLayout::Rgba8, bytes)
}

fn textured(w: u32, h: u32) -> Image {
    picture(w, h, |x, y| {
        let t = (x * 31 + y * 57 + (x * y) % 19 * 7) % 256;
        [t as u8, (x * 5 % 256) as u8, ((x + y) * 3 % 256) as u8]
    })
}

#[test]
fn a_file_is_the_frame_in_a_riff_container() {
    assert_eq!(
        wrap(&[1, 2]),
        vec![
            b'R', b'I', b'F', b'F', 14, 0, 0, 0, b'W', b'E', b'B', b'P', b'V', b'P', b'8', b' ',
            2, 0, 0, 0, 1, 2
        ]
    );
    // An odd frame is padded.
    let odd = wrap(&[7, 8, 9]);
    assert_eq!(odd.len(), 24);
    assert_eq!(&odd[4..8], &[16, 0, 0, 0]);
    assert_eq!(odd[23], 0);
    let long = wrap(&vec![0u8; 70_000]);
    assert_eq!(&long[16..20], &[0x70, 0x11, 0x01, 0x00]);
}

#[test]
fn unwrapping_inverts_wrapping() {
    for n in [0usize, 1, 2, 255, 256, 70_001] {
        let frame: Vec<u8> = (0..n).map(|i| (i * 7) as u8).collect();
        assert_eq!(unwrap_file(&wrap(&frame)), Ok(&frame[..]));
    }
}

#[test]
fn broken_files_are_rejected() {
    let bad = Error::InvalidBitstream { codec: Codec::Lossy };
    let file = wrap(&[1, 2, 3, 4]);
    assert_eq!(unwrap_file(&file[..19]), Err(Error::Truncated));
    assert_eq!(unwrap_file(&file[..23]), Err(Error::Truncated));
    let mut riff = file.clone();
    riff[0] = b'r';
    assert_eq!(unwrap_file(&riff), Err(bad));
    let mut chunk = file.clone();
    chunk[15] = b'L';
    assert_eq!(unwrap_file(&chunk), Err(bad));
    // The container is fine, but the frame is too short for its header.
    assert_eq!(decode(&file).err(), Some(Error::Truncated));
    // A frame that is no key frame.
    assert_eq!(decode(&wrap(&[1u8; 32])).err(), Some(bad));
    assert_eq!(decode(&[]).err(), Some(Error::Truncated));
    assert_eq!(Dimensions::new(0, 4).err(), Some(Error::InvalidDimensions));
    assert_eq!(Dimensions::new(4, 16_384).err(), Some(Error::InvalidDimensions));
    assert!(Dimensions::new(16_383, 1).is_ok());
}

#[test]
fn a_decoded_file_is_the_encoders_reconstruction() {
    for effort in [Effort::Fast, Effort::Full, Effort::Best] {
        for (w, h) in [(1u32, 1u32), (16, 16), (37, 21), (64, 48)] {
            for quality in [0u8, 40, 75, 100] {
                let image = textured(w, h);
                let config = LossyConfig::new().with_quality(quality).with_effort(effort);
                let file = encode_image(&image, &config).unwrap();
                let (payload, planes) = encode_frame_impl(
                    image.as_bytes(),
                    w as usize,
                    h as usize,
                    quality_to_base_q(quality),
                    effort,
                    webpkit::effort::FrameTuning::auto(),
                );
                assert_eq!(file, wrap(&payload));
                let mb_w = (w as usize).div_ceil(16);
                let mb_h = (h as usize).div_ceil(16);
                let own = to_image(&planes, w as usize, h as usize, mb_w, mb_h).unwrap();
                let decoded = decode(&file).unwrap();
                assert_eq!((decoded.width(), decoded.height()), (w, h));
                assert_eq!(decoded.as_bytes(), own.as_bytes());
            }
        }
    }
}

#[test]
fn every_pass_count_decodes_to_the_encoders_reconstruction() {
    let image = textured(80, 64);
    let mut sizes = Vec::new();
    for pass in [1u8, 3] {
        let config = LossyConfig::new()
            .with_quality(60)
            .with_tuning(LossyTuning::new().with_pass(pass).with_sharp_yuv(true));
        let file = encode_image(&image, &config).unwrap();
        assert_eq!(file, encode_image(&image, &config).unwrap());
        assert!(decode(&file).is_ok());
        sizes.push(file.len());
    }
    // More passes never grow the file.
    assert!(sizes[1] <= sizes[0]);
}

#[test]
fn qualities_above_the_scale_count_as_its_end() {
    let image = textured(24, 24);
    let top = encode_image(&image, &LossyConfig::new().with_quality(100)).unwrap();
    let over = encode_image(&image, &LossyConfig::new().with_quality(250)).unwrap();
    assert_eq!(top, over);
    assert_eq!(LossyConfig::new().with_quality(250).quality(), 100);
    assert_eq!(LossyConfig::default().quality(), 75);
}

#[test]
fn the_logarithm_of_a_power_of_two_is_exact() {
    assert_eq!(fixed_log2(0), 0);
    for k in 0..64u64 {
        assert_eq!(fixed_log2(1 << k), k * 65_536);
    }
    // log2(3) = 1.58496250072, log2(10) = 3.32192809489.
    assert_eq!(fixed_log2(3), 103_872);
    assert_eq!(fixed_log2(10), 217_705);
    // 64 - 2^-63, cut off.
    assert_eq!(fixed_log2(u64::MAX), 63 * 65_536 + 65_535);
}

#[test]
fn psnr_counts_the_pixels_that_both_pictures_have() {
    // Equal squared error and peak: log2 of three samples' worth is all that is left.
    let black = vec![0u32; 2];
    let white = vec![0x00ff_ffffu32; 2];
    assert_eq!(psnr_centidb(&black, &white), 0);
    // Alpha does not count.
    assert_eq!(psnr_centidb(&[0xff00_0000], &[0x0000_0000]), u32::MAX);
    // The longer picture's rest does not count.
    assert_eq!(psnr_centidb(&[1, 2], &[1]), u32::MAX);
    assert_eq!(psnr_centidb(&[], &[]), u32::MAX);
    // One sample of three off by one: 10 log10(3 * 65025) = 52.9019 dB.
    assert_eq!(psnr_centidb(&[0], &[0x0001_0000]), 5290);
}

#[test]
fn a_bisection_finds_every_edge() {
    for at in 0..=100u8 {
        assert_eq!(last_true(0, 100, |q| Ok(q <= at)), Ok(at));
        assert_eq!(first_true(0, 100, |q| Ok(q >= at)), Ok(at));
    }
    assert_eq!(last_true(3, 3, |_| Ok(true)), Ok(3));
    assert_eq!(first_true(0, 255, |q| Ok(q == 255)), Ok(255));
    // An empty range has nothing to probe.
    assert_eq!(last_true(9, 4, |_| Err(Error::Truncated)), Ok(9));
    assert_eq!(first_true(9, 4, |_| Err(Error::Truncated)), Ok(4));
}

#[test]
fn a_bisection_stops_at_an_error() {
    let fails = |q: u8| if q == 75 { Err(Error::Truncated) } else { Ok(q <= 60) };
    assert_eq!(last_true(0, 100, fails), Err(Error::Truncated));
    assert_eq!(first_true(0, 100, |q| if q == 49 { Err(Error::InvalidDimensions) } else { Ok(false) }), Ok(100));
}

#[test]
fn a_size_search_keeps_the_largest_quality_that_fits() {
    let image = textured(32, 32);
    let template = LossyConfig::new();
    let size = |q: u8| encode_image(&image, &template.with_quality(q)).unwrap().len();
    let budget = size(50);
    let found = search(&image, &template, RateTarget::size(budget)).unwrap();
    assert!(found.met());
    assert!(found.bytes().len() <= budget);
    assert_eq!(found.bytes().len(), size(found.quality()));
    // The probes of a bisection of 0..=100 start in the middle; each is made once.
    assert_eq!(found.attempts()[0], Attempt { quality: 50, bytes: budget });
    assert_eq!(found.attempts()[1].quality, 75);
    for (i, a) in found.attempts().iter().enumerate() {
        assert_eq!(a.bytes, size(a.quality));
        assert!(found.attempts()[..i].iter().all(|b| b.quality != a.quality));
    }
    let again = search(&image, &template, RateTarget::size(budget)).unwrap();
    assert_eq!(again.quality(), found.quality());
    assert_eq!(again.into_bytes(), found.bytes());
}

#[test]
fn a_budget_that_nothing_fits_is_reported_as_missed() {
    let image = textured(16, 16);
    let found = search(&image, &LossyConfig::new(), RateTarget::size(0)).unwrap();
    assert!(!found.met());
    assert_eq!(found.quality(), 0);
    let tried: Vec<u8> = found.attempts().iter().map(|a| a.quality).collect();
    assert_eq!(tried, vec![50, 24, 11, 5, 2, 0]);
}

#[test]
fn the_floor_wins_over_the_budget() {
    let image = textured(32, 32);
    let template = LossyConfig::new();
    let floor = search(&image, &template, RateTarget::psnr(3000)).unwrap();
    let both = search(&image, &template, RateTarget::size(1).with_psnr(3000)).unwrap();
    assert_eq!(both.quality(), floor.quality());
    assert!(!both.met());
    assert!(floor.attempts().len() <= 7 && both.attempts().len() <= 14);
    assert!(both.attempts().iter().any(|a| a.quality == both.quality()));
    for (i, a) in both.attempts().iter().enumerate() {
        assert!(both.attempts()[..i].iter().all(|b| b.quality != a.quality));
    }
    let easy = search(&image, &template, RateTarget::psnr(1).with_size(1_000_000)).unwrap();
    assert!(easy.met());
    assert_eq!(easy.quality(), 0);
    let source = unpack_pixels(PixelLayout::Rgba8, image.as_bytes());
    let decoded = decode(floor.bytes()).unwrap();
    let pixels = unpack_pixels(PixelLayout::Rgba8, decoded.as_bytes());
    assert_eq!(floor.met(), psnr_centidb(&source, &pixels) >= 3000);
}

#[test]
fn the_fastest_effort_ignores_the_search_knobs() {
    let image = textured(48, 40);
    let fast = LossyConfig::new().with_effort(Effort::Fast);
    let plain = encode_image(&image, &fast).unwrap();
    let tuned = LossyTuning::new()
        .with_sns_strength(100)
        .with_segments(1)
        .with_filter_strength(7)
        .with_filter_sharpness(7)
        .with_pass(5);
    assert_eq!(encode_image(&image, &fast.with_tuning(tuned)).unwrap(), plain);
    // The searching efforts do not.
    let full = LossyConfig::new();
    assert_ne!(
        encode_image(&image, &full.with_tuning(tuned)).unwrap(),
        encode_image(&image, &full).unwrap()
    );
}
