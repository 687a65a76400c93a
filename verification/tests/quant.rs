use webpkit::quant::{Quantizer, quality_to_base_q, quantize_block};
use webpkit::constants::ZIGZAG;
use webpkit::fdct::fdct4x4;
use webpkit::idct::transform_one;

#[test]
fn dequant_factors_match_the_decoder_derivation() {
    let q = Quantizer::new(40);
    assert_eq!((q.y1.dc.q, q.y1.ac.q), (37, 44));
    assert_eq!((q.y2.dc.q, q.y2.ac.q), (74, 68));
    assert_eq!((q.uv.dc.q, q.uv.ac.q), (37, 44));
}

#[test]
fn quantize_rounds_to_nearest_and_reconstructs_level_times_q() {
    let dc = webpkit::quant::QFactor::new(10);
    let ac = webpkit::quant::QFactor::new(20);
    let mut coeffs = [0i16; 16];
    coeffs[0] = 24;
    coeffs[1] = -35;
    coeffs[4] = 9;
    coeffs[8] = 30;
    let q = quantize_block(coeffs, dc, ac, 0);
    // levels are in zig-zag order: ZIGZAG = [0,1,4,8,...].
    assert_eq!(q.levels[0], 2, "DC level");
    assert_eq!(q.levels[1], -2, "AC level at natural 1");
    assert_eq!(q.levels[2], 0, "AC level at natural 4 rounds to 0");
    assert_eq!(q.levels[3], 2, "AC level at natural 8");
    // last non-zero zig-zag index is 3.
    assert_eq!(q.last, 3);
    // recon[j] == level * Q in NATURAL order — the decoder contract.
    assert_eq!(q.recon[0], 20);
    assert_eq!(q.recon[1], -40);
    assert_eq!(q.recon[4], 0);
    assert_eq!(q.recon[8], 40);
}

#[test]
fn empty_block_reports_last_below_first() {
    let dc = webpkit::quant::QFactor::new(200);
    let ac = webpkit::quant::QFactor::new(200);
    let coeffs = [1i16; 16]; // every |coeff| < 100 -> rounds to 0
    let q0 = quantize_block(coeffs, dc, ac, 0);
    assert_eq!(q0.last, -1, "first=0 empty -> last -1 (nz 0)");
    let q1 = quantize_block(coeffs, dc, ac, 1);
    assert_eq!(q1.last, 0, "first=1 empty -> last 0 (nz 1)");
}

#[test]
fn quality_to_base_q_is_monotonic_and_bounded() {
    assert_eq!(quality_to_base_q(100), 0, "finest at q100");
    assert_eq!(quality_to_base_q(0), 127, "coarsest at q0");
    // Monotonically non-increasing in quality.
    let mut prev = quality_to_base_q(0);
    for quality in 1..=100u8 {
        let cur = quality_to_base_q(quality);
        assert!(cur <= prev, "q{quality}: {cur} > {prev}");
        assert!((0..=127).contains(&cur));
        prev = cur;
    }
    // Values above 100 saturate.
    assert_eq!(quality_to_base_q(200), quality_to_base_q(100));
}

#[test]
fn full_pipeline_high_quality_is_near_lossless() {
    // fdct -> quantize (finest q, dequant step 4) -> dequant (recon) -> idct
    // must reconstruct the residual within the quantization error. At base_q 0
    // the luma steps are 4 (DC) / 4 (AC), so per-sample error stays tiny.
    let q = Quantizer::new(0);
    let residual: [i16; 16] = [
        -40, 12, -5, 33, 7, -18, 22, -3, 15, -27, 9, 41, -11, 6, -30, 19,
    ];
    let coeffs = fdct4x4(residual);
    let quantized = quantize_block(coeffs, q.y1.dc, q.y1.ac, 0);
    let mut plane = [128u8; 16];
    transform_one(&quantized.recon, &mut plane, 0, 4);
    for (i, (&r, &p)) in residual.iter().zip(&plane).enumerate() {
        let want = 128 + i32::from(r);
        let got = i32::from(p);
        assert!(
            (got - want).abs() <= 6,
            "sample {i}: got {got}, want ~{want}"
        );
    }
}

#[test]
fn zigzag_positions_map_levels_to_natural_recon() {
    // Sanity: a single AC coefficient at natural position ZIGZAG[5] produces a
    // level at zig-zag index 5 and a recon at that natural position only.
    let dc = webpkit::quant::QFactor::new(8);
    let ac = webpkit::quant::QFactor::new(8);
    let mut coeffs = [0i16; 16];
    let nat = ZIGZAG[5];
    coeffs[nat] = 40;
    let q = quantize_block(coeffs, dc, ac, 0);
    assert_eq!(q.levels[5], 5, "level at zig-zag index 5");
    assert_eq!(q.last, 5);
    assert_eq!(q.recon[nat], 40, "recon at natural ZIGZAG[5]");
    assert_eq!(q.recon[0], 0, "DC untouched");
}
