use webpkit::rate::{RateTarget, first_true, last_true, psnr_centidb, search};
use webpkit::image::{Dimensions, Image, PixelLayout};
use webpkit::encoder::LossyConfig;

/// A deterministic `w`×`h` RGBA noise field so the encoded size genuinely varies
/// with quality (a solid color compresses to nothing at every quality).
fn noise(w: u32, h: u32, seed: u64) -> Vec<u8> {
    let mut s = seed;
    let mut v = Vec::new();
    for _ in 0..w * h {
        for _ in 0..3 {
            s = s
                .wrapping_mul(6_364_136_223_846_793_005)
                .wrapping_add(1_442_695_040_888_963_407);
            v.push(u8::try_from((s >> 33) & 0xff).unwrap_or(0));
        }
        v.push(255);
    }
    v
}

#[test]
fn psnr_centidb_matches_the_float_formula_and_is_infinite_when_identical() {
    // Identical → infinite.
    let a = vec![0x00FF_8040u32; 8];
    assert_eq!(psnr_centidb(&a, &a), u32::MAX);
    // One channel off by 10 over 3 RGB channels, one pixel: SSE=100, n=3.
    // PSNR = 10·log10(255²·3/100) = 10·log10(1950.75) ≈ 32.90 dB → 3290 centidB.
    let src = vec![0x00_00_00_00u32];
    let cand = vec![0x00_00_00_0Au32]; // blue channel (shift 0) off by 10
    let got = psnr_centidb(&src, &cand);
    assert!((3285..=3295).contains(&got), "psnr centidB was {got}");
}

#[test]
fn last_true_and_first_true_bisect_a_monotone_step() {
    assert_eq!(last_true(0, 100, |q| Ok(q <= 50)).unwrap(), 50);
    assert_eq!(last_true(0, 100, |_| Ok(false)).unwrap(), 0);
    assert_eq!(first_true(0, 100, |q| Ok(q >= 30)).unwrap(), 30);
    assert_eq!(first_true(0, 100, |_| Ok(false)).unwrap(), 100);
}

#[test]
fn size_target_meets_the_budget_and_records_attempts() {
    let dims = Dimensions::new(48, 48).unwrap();
    let pixels = noise(48, 48, 3);
    let img = Image::from_parts(
        dims,
        PixelLayout::Rgba8,
        pixels,
    );
    // A budget between the smallest and largest encode: the search must land under
    // it, and must have probed more than one quality (a real bisection).
    let full = webpkit::encoder::encode_image(&img, &LossyConfig::new().with_quality(100)).unwrap();
    let budget = full.len() / 2;
    let result = search(&img, &LossyConfig::new(), RateTarget::size(budget)).unwrap();
    assert!(result.met(), "the chosen quality must fit the budget");
    assert!(
        result.bytes().len() <= budget,
        "encode must be within budget"
    );
    assert!(
        result.attempts().len() > 1,
        "a bisection probes several qualities"
    );
    assert!(webpkit::encoder::decode(result.bytes()).is_ok());
}

/// A smooth `w`×`h` RGBA gradient — compresses well and reconstructs at high PSNR,
/// so a PSNR floor is reachable within `0..=100`.
fn gradient(width: u32, height: u32) -> Vec<u8> {
    let mut buf = Vec::new();
    for y in 0..height {
        for x in 0..width {
            let red = u8::try_from((x * 255) / width).unwrap_or(0);
            let green = u8::try_from((y * 255) / height).unwrap_or(0);
            buf.extend_from_slice(&[red, green, 128, 255]);
        }
    }
    buf
}

#[test]
fn psnr_target_picks_a_quality_that_clears_the_floor() {
    let dims = Dimensions::new(48, 48).unwrap();
    let pixels = gradient(48, 48);
    let img = Image::from_parts(
        dims,
        PixelLayout::Rgba8,
        pixels,
    );
    // A 30 dB floor (3000 centidB) is reachable on a smooth gradient within 0..=100.
    let result = search(&img, &LossyConfig::new(), RateTarget::psnr(3000)).unwrap();
    assert!(result.met(), "the chosen quality must clear the PSNR floor");
    let decoded = webpkit::encoder::decode(result.bytes()).unwrap();
    let src = webpkit::image::unpack_pixels(PixelLayout::Rgba8, img.as_bytes());
    let cand = webpkit::image::unpack_pixels(PixelLayout::Rgba8, decoded.as_bytes());
    assert!(psnr_centidb(&src, &cand) >= 3000);
    // The smallest quality that clears the floor: a lower quality would miss it.
    assert!(result.quality() > 0, "a non-trivial quality was needed");
}

#[test]
fn an_unset_target_is_rejected() {
    let dims = Dimensions::new(8, 8).unwrap();
    let img = Image::from_parts(
        dims,
        PixelLayout::Rgba8,
        vec![0u8; 8 * 8 * 4],
    );
    assert!(search(&img, &LossyConfig::new(), RateTarget::default()).is_err());
}
