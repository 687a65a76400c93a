use webpkit::perceptual::{PlaneWindow, disto16, tlambda, ttransform};

#[test]
fn tlambda_scales_with_strength_and_step_and_zeroes_at_zero_strength() {
    // (sns * q_ac) >> 5, clamped strength at 100.
    assert_eq!(tlambda(0, 200), 0, "zero strength => zero lambda");
    assert_eq!(tlambda(50, 0), 0, "zero step => zero lambda");
    assert_eq!(tlambda(50, 64), (50 * 64) >> 5);
    assert_eq!(
        tlambda(200, 64),
        tlambda(100, 64),
        "strength saturates at 100"
    );
    assert!(tlambda(80, 128) > tlambda(40, 128), "monotone in strength");
    assert!(tlambda(50, 256) > tlambda(50, 32), "monotone in step");
}

#[test]
fn ttransform_of_a_flat_block_is_only_its_dc() {
    // A constant block has a single non-zero Hadamard coefficient (the DC, output
    // position 0), so the weighted sum is K_WEIGHT_Y[0] * |16 * value|.
    let flat = [7i32; 16];
    assert_eq!(ttransform(flat), 38 * (16 * 7));
    // The all-zero block transforms to zero.
    assert_eq!(ttransform([0i32; 16]), 0);
}

#[test]
fn ttransform_is_hand_verified_on_a_single_impulse() {
    // A unit impulse at the top-left sample spreads to every Hadamard output with
    // magnitude 1, so the weighted sum equals the full K_WEIGHT_Y total.
    let mut block = [0i32; 16];
    block[0] = 1;
    let total: i64 = webpkit::perceptual::K_WEIGHT_Y.iter().sum();
    assert_eq!(ttransform(block), total);
}

#[test]
fn disto16_is_pure_sse_when_lambda_is_zero() {
    // With tlambda == 0 the texture term is skipped entirely: disto16 returns the
    // SSE argument verbatim regardless of the pixel content, which is what keeps
    // the perceptual wiring byte-neutral until it is enabled.
    let src = vec![10u8; 20 * 20];
    let rec = vec![200u8; 20 * 20];
    let sw = PlaneWindow::new(&src, 21, 20);
    let rw = PlaneWindow::new(&rec, 21, 20);
    assert_eq!(
        disto16(12_345, 0, &sw, &rw),
        12_345,
        "lambda 0 must pass SSE through untouched"
    );
}

#[test]
fn disto16_adds_a_texture_penalty_when_enabled() {
    // A source with structure vs a flat reconstruction has a non-zero texture term,
    // so an enabled disto16 exceeds the bare SSE by MULT(tlambda, TDisto) > 0.
    let mut src = vec![0u8; 20 * 20];
    for (i, p) in src.iter_mut().enumerate() {
        *p = u8::try_from((i * 7) % 200).unwrap_or(0);
    }
    let rec = vec![100u8; 20 * 20];
    let sw = PlaneWindow::new(&src, 21, 20);
    let rw = PlaneWindow::new(&rec, 21, 20);
    let plain = disto16(1000, 0, &sw, &rw);
    let perceptual = disto16(1000, 4000, &sw, &rw);
    assert_eq!(plain, 1000);
    assert!(
        perceptual > plain,
        "an enabled texture term must raise the distortion ({perceptual} <= {plain})"
    );
}
