use webpkit::rgb_to_yuv::from_rgba;

/// Build a solid `width`×`height` RGBA buffer of one color.
fn solid(width: usize, height: usize, rgb: [u8; 3]) -> Vec<u8> {
    let mut buf = Vec::with_capacity(width * height * 4);
    for _ in 0..width * height {
        buf.extend_from_slice(&[rgb[0], rgb[1], rgb[2], 0xff]);
    }
    buf
}

#[test]
fn neutral_gray_maps_to_studio_swing() {
    // r=g=b=128: Y = (56318*128 + 32768 + (16<<16)) >> 16 = 126 (studio swing),
    // U = V = 128 (the luma-difference chroma of a gray is exactly centered).
    let src = from_rgba(&solid(16, 16, [128, 128, 128]), 16, 16);
    assert!(src.y.iter().all(|&p| p == 126), "gray luma is 126");
    assert!(src.u.iter().all(|&p| p == 128), "gray U centered");
    assert!(src.v.iter().all(|&p| p == 128), "gray V centered");
}

#[test]
fn black_and_white_hit_the_studio_pedestal_and_ceiling() {
    // Black -> Y 16 (the 16 pedestal), white -> Y 235 (the studio ceiling).
    let black = from_rgba(&solid(16, 16, [0, 0, 0]), 16, 16);
    assert!(black.y.iter().all(|&p| p == 16), "black luma is 16");
    let white = from_rgba(&solid(16, 16, [255, 255, 255]), 16, 16);
    assert!(white.y.iter().all(|&p| p == 235), "white luma is 235");
    // Both are neutral chroma.
    assert!(black.u.iter().all(|&p| p == 128) && white.u.iter().all(|&p| p == 128));
}

#[test]
fn pure_primaries_push_chroma_off_center() {
    // Pure blue lifts U well above 128 (blue-difference); pure red lifts V.
    let blue = from_rgba(&solid(16, 16, [0, 0, 255]), 16, 16);
    assert!(blue.u[0] > 200, "blue U high, got {}", blue.u[0]);
    let red = from_rgba(&solid(16, 16, [255, 0, 0]), 16, 16);
    assert!(red.v[0] > 200, "red V high, got {}", red.v[0]);
}

#[test]
fn chroma_rounding_bias_lands_on_the_nearest_level() {
    let src = from_rgba(&solid(16, 16, [0, 0, 2]), 16, 16);
    assert!(
        src.u.iter().all(|&p| p == 129),
        "dark-blue U rounds to 129, got {}",
        src.u[0]
    );
}

#[test]
fn planes_are_padded_to_whole_macroblocks() {
    // A 17×13 picture rounds up to 2×1 macroblocks: luma 32×16, chroma 16×8.
    let src = from_rgba(&solid(17, 13, [64, 200, 32]), 17, 13);
    assert_eq!((src.mb_w, src.mb_h), (2, 1));
    assert_eq!(src.y.len(), 32 * 16);
    assert_eq!(src.u.len(), 16 * 8);
    assert_eq!(src.y_stride(), 32);
    assert_eq!(src.uv_stride(), 16);
    // Edge replication: the padded columns/rows carry the same color, so the
    // whole (uniform) plane is constant.
    let first = src.y[0];
    assert!(src.y.iter().all(|&p| p == first), "edge-extended uniformly");
}
