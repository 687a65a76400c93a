use webpkit::yuv::emit_rows_serial;
use webpkit::yuv::{Yuv420Ref, yuv420_to_rgba};

/// Build constant single-value YUV planes for a `width`×`height` frame.
fn constant_frame(
    width: usize,
    height: usize,
    yv: u8,
    uv: u8,
    vv: u8,
) -> (Vec<u8>, Vec<u8>, Vec<u8>, usize, usize) {
    let uv_w = width.div_ceil(2);
    let uv_h = height.div_ceil(2);
    let y = vec![yv; width * height];
    let u = vec![uv; uv_w * uv_h];
    let v = vec![vv; uv_w * uv_h];
    (y, u, v, width, uv_w)
}

/// Assert every pixel of a constant-input frame equals `expected` RGBA.
fn assert_constant(width: usize, height: usize, yv: u8, uv: u8, vv: u8, expected: [u8; 4]) {
    let (y, u, v, w, uv_w) = constant_frame(width, height, yv, uv, vv);
    let out = yuv420_to_rgba(
        &Yuv420Ref {
            y: &y,
            y_stride: w,
            u: &u,
            v: &v,
            uv_stride: uv_w,
        },
        width,
        height,
    );
    assert_eq!(out.len(), width * height * 4);
    for (i, px) in out.chunks_exact(4).enumerate() {
        assert_eq!(px, expected, "pixel {i} of {width}x{height}");
    }
}

/// Fill `n` bytes with a cast-free wrapping pseudo-random ramp (distinct seed
/// and multiplier per plane) so a row/plane mix-up in the parallel emitter
/// changes the bytes.
fn ramp(n: usize, seed: u8, mul: u8) -> Vec<u8> {
    let mut s = seed;
    (0..n)
        .map(|_| {
            s = s.wrapping_mul(mul).wrapping_add(0x2b);
            s
        })
        .collect()
}

#[test]
fn rayon_row_parallel_matches_serial_byte_for_byte() {
    let (width, height) = (260usize, 258usize);
    let uv_w = width.div_ceil(2);
    let uv_h = height.div_ceil(2);
    let y = ramp(width * height, 1, 7);
    let u = ramp(uv_w * uv_h, 99, 5);
    let v = ramp(uv_w * uv_h, 200, 11);
    let src = Yuv420Ref {
        y: &y,
        y_stride: width,
        u: &u,
        v: &v,
        uv_stride: uv_w,
    };
    let parallel = yuv420_to_rgba(&src, width, height);
    let mut serial = vec![0u8; width * 4 * height];
    emit_rows_serial(&src, width, height, width * 4, &mut serial);
    assert_eq!(
        parallel, serial,
        "rayon emitter must match serial byte-for-byte"
    );
}

#[test]
fn zero_width_nonzero_height_returns_empty_without_panic() {
    let (y, u, v, w, uv_w) = constant_frame(0, 2, 0, 0, 0);
    let out = yuv420_to_rgba(
        &Yuv420Ref {
            y: &y,
            y_stride: w,
            u: &u,
            v: &v,
            uv_stride: uv_w,
        },
        0,
        2,
    );
    assert!(out.is_empty(), "zero-width frame must produce no bytes");
}

#[test]
fn all_zero_yuv_is_green() {
    // Y=U=V=0: R=clip8(-14234)=0, G=clip8(8708)=136, B=clip8(-17685)=0.
    for &(w, h) in &[(1, 1), (2, 2), (3, 3), (4, 4), (5, 5), (7, 3)] {
        assert_constant(w, h, 0, 0, 0, [0, 136, 0, 255]);
    }
}

#[test]
fn neutral_gray_is_130() {
    // Y=128, U=V=128 (neutral chroma) -> studio-swing gray 1.164*112 = 130.
    for &(w, h) in &[(1, 1), (2, 2), (3, 3), (4, 4), (5, 5), (6, 4), (3, 6)] {
        assert_constant(w, h, 128, 128, 128, [130, 130, 130, 255]);
    }
}

#[test]
fn full_luma_neutral_chroma_is_white() {
    // Y=255, U=V=128: every channel saturates to 255.
    assert_constant(4, 4, 255, 128, 128, [255, 255, 255, 255]);
}

#[test]
fn vertical_gradient_orients_near_far_correctly() {
    let width = 2;
    let height = 4;
    let y = vec![255u8; width * height];
    let u = vec![0u8, 100u8]; // uv_w=1, uv_h=2: row0=0, row1=100
    let v = vec![128u8, 128u8];
    let out = yuv420_to_rgba(
        &Yuv420Ref {
            y: &y,
            y_stride: width,
            u: &u,
            v: &v,
            uv_stride: 1,
        },
        width,
        height,
    );
    let expected_b = [20u8, 71u8, 171u8, 222u8];
    for (row, &b) in expected_b.iter().enumerate() {
        for col in 0..width {
            let px = &out[row * width * 4 + col * 4..row * width * 4 + col * 4 + 4];
            assert_eq!(px, [255, 255, b, 255], "row {row} col {col}");
        }
    }
}

#[test]
fn horizontal_gradient_blends_interior_pairs_and_mirrors_the_edge() {
    let width = 4;
    let height = 1;
    let y = vec![255u8; width * height];
    let u = vec![0u8, 100u8]; // uv_w = 2, uv_h = 1
    let v = vec![128u8, 128u8];
    let out = yuv420_to_rgba(
        &Yuv420Ref {
            y: &y,
            y_stride: width,
            u: &u,
            v: &v,
            uv_stride: 2,
        },
        width,
        height,
    );
    let expected_b = [20u8, 71u8, 171u8, 222u8];
    for (col, &b) in expected_b.iter().enumerate() {
        let px = &out[col * 4..col * 4 + 4];
        assert_eq!(px, [255, 255, b, 255], "even-width col {col}");
    }

    // Odd width (3) takes the no-mirror branch: the last column comes from the
    // interior pair, so U = [0, 25, 75] and B = [20, 71, 171].
    let y3 = vec![255u8; 3];
    let out3 = yuv420_to_rgba(
        &Yuv420Ref {
            y: &y3,
            y_stride: 3,
            u: &u,
            v: &v,
            uv_stride: 2,
        },
        3,
        1,
    );
    let expected_b3 = [20u8, 71u8, 171u8];
    for (col, &b) in expected_b3.iter().enumerate() {
        let px = &out3[col * 4..col * 4 + 4];
        assert_eq!(px, [255, 255, b, 255], "odd-width col {col}");
    }
}
