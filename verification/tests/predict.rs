use webpkit::predict::{predict_chroma8, predict_luma4, predict_luma16};
use webpkit::constants::{
    B_DC_PRED, B_HD_PRED, B_HE_PRED, B_HU_PRED, B_LD_PRED, B_RD_PRED, B_TM_PRED, B_VE_PRED,
    B_VL_PRED, B_VR_PRED, DC_PRED, H_PRED, TM_PRED, V_PRED,
};

// A plane wide/tall enough to hold one border row + column and a 16x16 block.
const STRIDE: usize = 24;
const ROWS: usize = 20;
// One top border row and one left border column precede the block origin.
const OFF: usize = STRIDE + 1;

const TL: i32 = 27;

/// `top(x) = 10 + 8*x` as a `u8` (independent of the predictor code).
fn top_val(x: usize) -> u8 {
    u8::try_from(10 + 8 * x).unwrap()
}

/// `left(y) = 200 - 9*y` as a `u8` (y <= 15 keeps it >= 65).
fn left_val(y: usize) -> u8 {
    u8::try_from(200 - 9 * y).unwrap()
}

fn top_i(x: usize) -> i32 {
    i32::from(top_val(x))
}

fn left_i(y: usize) -> i32 {
    i32::from(left_val(y))
}

/// `AVG2(a, b) = (a + b + 1) >> 1`.
fn r_avg2(a: i32, b: i32) -> u8 {
    u8::try_from((a + b + 1) >> 1).unwrap()
}

/// `AVG3(a, b, c) = (a + 2*b + c + 2) >> 2`.
fn r_avg3(a: i32, b: i32, c: i32) -> u8 {
    u8::try_from((a + 2 * b + c + 2) >> 2).unwrap()
}

/// `clip8(v) = clamp(v, 0, 255)` — the TrueMotion store clip.
fn r_clip(v: i32) -> u8 {
    u8::try_from(v.clamp(0, 255)).unwrap()
}

/// Build a plane whose borders carry the ramps above and whose interior is
/// left at 0 (so a correct predictor is observed to *write*).
fn ramp_plane() -> [u8; STRIDE * ROWS] {
    let mut p = [0u8; STRIDE * ROWS];
    // top-left corner: plane[off - stride - 1]
    p[OFF - STRIDE - 1] = u8::try_from(TL).unwrap();
    // top row (incl. the four top-right samples LD4/VL4 read): plane[off - stride + x]
    for x in 0..20 {
        p[OFF - STRIDE + x] = top_val(x);
    }
    // left column: plane[off + y*stride - 1]
    for y in 0..16 {
        p[OFF + y * STRIDE - 1] = left_val(y);
    }
    p
}

/// Zero the `size`x`size` interior so equality with a non-zero expected also
/// proves the predictor wrote every covered sample.
fn zero_block(plane: &mut [u8; STRIDE * ROWS], size: usize) {
    for y in 0..size {
        let base = OFF + y * STRIDE;
        plane[base..base + size].fill(0);
    }
}

/// Read block sample (x, y).
fn at(p: &[u8], x: usize, y: usize) -> u8 {
    p[OFF + x + y * STRIDE]
}

fn run16(mode: u8, has_top: bool, has_left: bool) -> [u8; STRIDE * ROWS] {
    let mut p = ramp_plane();
    zero_block(&mut p, 16);
    predict_luma16(&mut p, OFF, STRIDE, mode, has_top, has_left);
    p
}

fn run8(mode: u8, has_top: bool, has_left: bool) -> [u8; STRIDE * ROWS] {
    let mut p = ramp_plane();
    zero_block(&mut p, 8);
    predict_chroma8(&mut p, OFF, STRIDE, mode, has_top, has_left);
    p
}

fn run4(mode: u8) -> [u8; STRIDE * ROWS] {
    let mut p = ramp_plane();
    zero_block(&mut p, 4);
    predict_luma4(&mut p, OFF, STRIDE, mode);
    p
}

fn assert_uniform(p: &[u8], size: usize, expected: u8) {
    for y in 0..size {
        for x in 0..size {
            assert_eq!(at(p, x, y), expected, "({x},{y})");
        }
    }
}

fn assert_grid4(p: &[u8], expected: [[u8; 4]; 4], name: &str) {
    for y in 0..4 {
        for x in 0..4 {
            assert_eq!(at(p, x, y), expected[y][x], "{name} at ({x},{y})");
        }
    }
}

// =====================================================================
// 16x16 luma
// =====================================================================

#[test]
fn luma16_vertical_copies_top_ramp() {
    let p = run16(V_PRED, true, true);
    for y in 0..16 {
        for x in 0..16 {
            assert_eq!(at(&p, x, y), top_val(x), "({x},{y})");
        }
    }
}

#[test]
fn luma16_horizontal_fills_left_ramp() {
    let p = run16(H_PRED, true, true);
    for y in 0..16 {
        for x in 0..16 {
            assert_eq!(at(&p, x, y), left_val(y), "({x},{y})");
        }
    }
}

#[test]
fn luma16_dc_both_averages_all_32() {
    let p = run16(DC_PRED, true, true);
    let mut sum = 16i32;
    for k in 0..16 {
        sum += top_i(k) + left_i(k);
    }
    let dc = u8::try_from(sum >> 5).unwrap();
    assert_eq!(dc, 101);
    assert_uniform(&p, 16, dc);
}

#[test]
fn luma16_dc_top_only_averages_16_top() {
    let p = run16(DC_PRED, true, false);
    let mut sum = 8i32;
    for k in 0..16 {
        sum += top_i(k);
    }
    let dc = u8::try_from(sum >> 4).unwrap();
    assert_eq!(dc, 70);
    assert_uniform(&p, 16, dc);
}

#[test]
fn luma16_dc_left_only_averages_16_left() {
    let p = run16(DC_PRED, false, true);
    let mut sum = 8i32;
    for k in 0..16 {
        sum += left_i(k);
    }
    let dc = u8::try_from(sum >> 4).unwrap();
    assert_eq!(dc, 133);
    assert_uniform(&p, 16, dc);
}

#[test]
fn luma16_dc_no_top_no_left_is_128() {
    let p = run16(DC_PRED, false, false);
    assert_uniform(&p, 16, 0x80);
}

#[test]
fn luma16_true_motion_matches_clip_formula() {
    let p = run16(TM_PRED, true, true);
    for y in 0..16 {
        for x in 0..16 {
            let e = r_clip(top_i(x) + left_i(y) - TL);
            assert_eq!(at(&p, x, y), e, "({x},{y})");
        }
    }
    // Hand-computed corners (top(15)=130, left(15)=65):
    //   (0,0)=10+200-27=183; (15,0)=130+200-27=303 -> clip 255;
    //   (0,15)=10+65-27=48; (15,15)=130+65-27=168.
    assert_eq!(at(&p, 0, 0), 183);
    assert_eq!(at(&p, 15, 0), 255);
    assert_eq!(at(&p, 0, 15), 48);
    assert_eq!(at(&p, 15, 15), 168);
}

// =====================================================================
// 8x8 chroma
// =====================================================================

#[test]
fn chroma8_vertical_copies_top_ramp() {
    let p = run8(V_PRED, true, true);
    for y in 0..8 {
        for x in 0..8 {
            assert_eq!(at(&p, x, y), top_val(x), "({x},{y})");
        }
    }
}

#[test]
fn chroma8_horizontal_fills_left_ramp() {
    let p = run8(H_PRED, true, true);
    for y in 0..8 {
        for x in 0..8 {
            assert_eq!(at(&p, x, y), left_val(y), "({x},{y})");
        }
    }
}

#[test]
fn chroma8_dc_both_averages_all_16() {
    let p = run8(DC_PRED, true, true);
    let mut sum = 8i32;
    for k in 0..8 {
        sum += top_i(k) + left_i(k);
    }
    let dc = u8::try_from(sum >> 4).unwrap();
    assert_eq!(dc, 103);
    assert_uniform(&p, 8, dc);
}

#[test]
fn chroma8_dc_top_only_averages_8_top() {
    let p = run8(DC_PRED, true, false);
    let mut sum = 4i32;
    for k in 0..8 {
        sum += top_i(k);
    }
    let dc = u8::try_from(sum >> 3).unwrap();
    assert_eq!(dc, 38);
    assert_uniform(&p, 8, dc);
}

#[test]
fn chroma8_dc_left_only_averages_8_left() {
    let p = run8(DC_PRED, false, true);
    let mut sum = 4i32;
    for k in 0..8 {
        sum += left_i(k);
    }
    let dc = u8::try_from(sum >> 3).unwrap();
    assert_eq!(dc, 169);
    assert_uniform(&p, 8, dc);
}

#[test]
fn chroma8_dc_no_top_no_left_is_128() {
    let p = run8(DC_PRED, false, false);
    assert_uniform(&p, 8, 0x80);
}

#[test]
fn chroma8_true_motion_matches_clip_formula() {
    let p = run8(TM_PRED, true, true);
    for y in 0..8 {
        for x in 0..8 {
            let e = r_clip(top_i(x) + left_i(y) - TL);
            assert_eq!(at(&p, x, y), e, "({x},{y})");
        }
    }
    // Corners (top(7)=66, left(7)=137):
    //   (0,0)=183; (7,0)=66+200-27=239; (0,7)=10+137-27=120; (7,7)=66+137-27=176.
    assert_eq!(at(&p, 0, 0), 183);
    assert_eq!(at(&p, 7, 0), 239);
    assert_eq!(at(&p, 0, 7), 120);
    assert_eq!(at(&p, 7, 7), 176);
}

#[test]
fn luma4_dc_averages_4_top_4_left() {
    let p = run4(B_DC_PRED);
    let mut sum = 4i32;
    for k in 0..4 {
        sum += top_i(k) + left_i(k);
    }
    let dc = u8::try_from(sum >> 3).unwrap();
    assert_eq!(dc, 104);
    assert_uniform(&p, 4, dc);
}

#[test]
fn luma4_vertical_avg3_of_top_triples() {
    let p = run4(B_VE_PRED);
    let col = [
        r_avg3(TL, top_i(0), top_i(1)),
        r_avg3(top_i(0), top_i(1), top_i(2)),
        r_avg3(top_i(1), top_i(2), top_i(3)),
        r_avg3(top_i(2), top_i(3), top_i(4)),
    ];
    assert_eq!(col, [16, 18, 26, 34]);
    for y in 0..4 {
        for x in 0..4 {
            assert_eq!(at(&p, x, y), col[x], "({x},{y})");
        }
    }
}

#[test]
fn luma4_horizontal_avg3_of_left_triples() {
    let p = run4(B_HE_PRED);
    let row = [
        r_avg3(TL, left_i(0), left_i(1)),
        r_avg3(left_i(0), left_i(1), left_i(2)),
        r_avg3(left_i(1), left_i(2), left_i(3)),
        r_avg3(left_i(2), left_i(3), left_i(3)),
    ];
    assert_eq!(row, [155, 191, 182, 175]);
    for y in 0..4 {
        for x in 0..4 {
            assert_eq!(at(&p, x, y), row[y], "({x},{y})");
        }
    }
}

#[test]
fn luma4_true_motion_matches_clip_formula() {
    let p = run4(B_TM_PRED);
    for y in 0..4 {
        for x in 0..4 {
            let e = r_clip(top_i(x) + left_i(y) - TL);
            assert_eq!(at(&p, x, y), e, "({x},{y})");
        }
    }
    // Corners: (0,0)=10+200-27=183; (3,0)=34+200-27=207;
    //          (0,3)=10+173-27=156; (3,3)=34+173-27=180.
    assert_eq!(at(&p, 0, 0), 183);
    assert_eq!(at(&p, 3, 0), 207);
    assert_eq!(at(&p, 0, 3), 156);
    assert_eq!(at(&p, 3, 3), 180);
}

#[test]
fn luma4_down_right_diagonal() {
    let p = run4(B_RD_PRED);
    let x = TL;
    let a = top_i(0);
    let b = top_i(1);
    let c = top_i(2);
    let d = top_i(3);
    let i = left_i(0);
    let j = left_i(1);
    let k = left_i(2);
    let l = left_i(3);
    let expected = [
        [
            r_avg3(a, x, i),
            r_avg3(b, a, x),
            r_avg3(c, b, a),
            r_avg3(d, c, b),
        ],
        [
            r_avg3(x, i, j),
            r_avg3(a, x, i),
            r_avg3(b, a, x),
            r_avg3(c, b, a),
        ],
        [
            r_avg3(i, j, k),
            r_avg3(x, i, j),
            r_avg3(a, x, i),
            r_avg3(b, a, x),
        ],
        [
            r_avg3(j, k, l),
            r_avg3(i, j, k),
            r_avg3(x, i, j),
            r_avg3(a, x, i),
        ],
    ];
    assert_grid4(&p, expected, "RD4");
    // Spot literals: (0,0)=AVG3(A,X,I)=(10+54+200+2)>>2=66;
    //   (3,0)=AVG3(D,C,B)=106>>2=26; (0,2)=AVG3(I,J,K)=766>>2=191;
    //   (0,3)=AVG3(J,K,L)=730>>2=182.
    assert_eq!(at(&p, 0, 0), 66);
    assert_eq!(at(&p, 3, 0), 26);
    assert_eq!(at(&p, 0, 2), 191);
    assert_eq!(at(&p, 0, 3), 182);
}

#[test]
fn luma4_down_left_diagonal() {
    let p = run4(B_LD_PRED);
    let a = top_i(0);
    let b = top_i(1);
    let c = top_i(2);
    let d = top_i(3);
    let e = top_i(4);
    let f = top_i(5);
    let g = top_i(6);
    let h = top_i(7);
    let expected = [
        [
            r_avg3(a, b, c),
            r_avg3(b, c, d),
            r_avg3(c, d, e),
            r_avg3(d, e, f),
        ],
        [
            r_avg3(b, c, d),
            r_avg3(c, d, e),
            r_avg3(d, e, f),
            r_avg3(e, f, g),
        ],
        [
            r_avg3(c, d, e),
            r_avg3(d, e, f),
            r_avg3(e, f, g),
            r_avg3(f, g, h),
        ],
        [
            r_avg3(d, e, f),
            r_avg3(e, f, g),
            r_avg3(f, g, h),
            r_avg3(g, h, h),
        ],
    ];
    assert_grid4(&p, expected, "LD4");
    // Spot: (0,0)=AVG3(A,B,C)=74>>2=18; (3,0)=AVG3(D,E,F)=170>>2=42;
    //   (0,3)=AVG3(D,E,F)=42; (3,3)=AVG3(G,H,H)=258>>2=64.
    assert_eq!(at(&p, 0, 0), 18);
    assert_eq!(at(&p, 3, 0), 42);
    assert_eq!(at(&p, 0, 3), 42);
    assert_eq!(at(&p, 3, 3), 64);
}

#[test]
fn luma4_vertical_right_diagonal() {
    let p = run4(B_VR_PRED);
    let x = TL;
    let a = top_i(0);
    let b = top_i(1);
    let c = top_i(2);
    let d = top_i(3);
    let i = left_i(0);
    let j = left_i(1);
    let k = left_i(2);
    let expected = [
        [r_avg2(x, a), r_avg2(a, b), r_avg2(b, c), r_avg2(c, d)],
        [
            r_avg3(i, x, a),
            r_avg3(x, a, b),
            r_avg3(a, b, c),
            r_avg3(b, c, d),
        ],
        [r_avg3(j, i, x), r_avg2(x, a), r_avg2(a, b), r_avg2(b, c)],
        [
            r_avg3(k, j, i),
            r_avg3(i, x, a),
            r_avg3(x, a, b),
            r_avg3(a, b, c),
        ],
    ];
    assert_grid4(&p, expected, "VR4");
    // Spot: (0,0)=AVG2(X,A)=(27+10+1)>>1=19; (3,0)=AVG2(C,D)=61>>1=30;
    //   (0,2)=AVG3(J,I,X)=620>>2=155; (0,3)=AVG3(K,J,I)=766>>2=191;
    //   (1,1)=AVG3(X,A,B)=67>>2=16.
    assert_eq!(at(&p, 0, 0), 19);
    assert_eq!(at(&p, 3, 0), 30);
    assert_eq!(at(&p, 0, 2), 155);
    assert_eq!(at(&p, 0, 3), 191);
    assert_eq!(at(&p, 1, 1), 16);
}

#[test]
fn luma4_vertical_left_diagonal() {
    let p = run4(B_VL_PRED);
    let a = top_i(0);
    let b = top_i(1);
    let c = top_i(2);
    let d = top_i(3);
    let e = top_i(4);
    let f = top_i(5);
    let g = top_i(6);
    let h = top_i(7);
    let expected = [
        [r_avg2(a, b), r_avg2(b, c), r_avg2(c, d), r_avg2(d, e)],
        [
            r_avg3(a, b, c),
            r_avg3(b, c, d),
            r_avg3(c, d, e),
            r_avg3(d, e, f),
        ],
        [r_avg2(b, c), r_avg2(c, d), r_avg2(d, e), r_avg3(e, f, g)],
        [
            r_avg3(b, c, d),
            r_avg3(c, d, e),
            r_avg3(d, e, f),
            r_avg3(f, g, h),
        ],
    ];
    assert_grid4(&p, expected, "VL4");
    // Spot: (0,0)=AVG2(A,B)=29>>1=14; (3,0)=AVG2(D,E)=77>>1=38;
    //   (3,2)=AVG3(E,F,G)=202>>2=50; (3,3)=AVG3(F,G,H)=234>>2=58;
    //   (0,3)=AVG3(B,C,D)=106>>2=26.
    assert_eq!(at(&p, 0, 0), 14);
    assert_eq!(at(&p, 3, 0), 38);
    assert_eq!(at(&p, 3, 2), 50);
    assert_eq!(at(&p, 3, 3), 58);
    assert_eq!(at(&p, 0, 3), 26);
}

#[test]
fn luma4_horizontal_up_diagonal() {
    let p = run4(B_HU_PRED);
    let i = left_i(0);
    let j = left_i(1);
    let k = left_i(2);
    let l = left_i(3);
    let l8 = u8::try_from(l).unwrap();
    let expected = [
        [r_avg2(i, j), r_avg3(i, j, k), r_avg2(j, k), r_avg3(j, k, l)],
        [r_avg2(j, k), r_avg3(j, k, l), r_avg2(k, l), r_avg3(k, l, l)],
        [r_avg2(k, l), r_avg3(k, l, l), l8, l8],
        [l8, l8, l8, l8],
    ];
    assert_grid4(&p, expected, "HU4");
    // Spot: (0,0)=AVG2(I,J)=392>>1=196; (1,0)=AVG3(I,J,K)=766>>2=191;
    //   (3,0)=AVG3(J,K,L)=730>>2=182; (0,2)=AVG2(K,L)=356>>1=178; (2,2)=L=173.
    assert_eq!(at(&p, 0, 0), 196);
    assert_eq!(at(&p, 1, 0), 191);
    assert_eq!(at(&p, 3, 0), 182);
    assert_eq!(at(&p, 0, 2), 178);
    assert_eq!(at(&p, 2, 2), 173);
}

#[test]
fn luma4_horizontal_down_diagonal() {
    let p = run4(B_HD_PRED);
    let x = TL;
    let a = top_i(0);
    let b = top_i(1);
    let c = top_i(2);
    let i = left_i(0);
    let j = left_i(1);
    let k = left_i(2);
    let l = left_i(3);
    let expected = [
        [
            r_avg2(i, x),
            r_avg3(i, x, a),
            r_avg3(x, a, b),
            r_avg3(a, b, c),
        ],
        [r_avg2(j, i), r_avg3(j, i, x), r_avg2(i, x), r_avg3(i, x, a)],
        [r_avg2(k, j), r_avg3(k, j, i), r_avg2(j, i), r_avg3(j, i, x)],
        [r_avg2(l, k), r_avg3(l, k, j), r_avg2(k, j), r_avg3(k, j, i)],
    ];
    assert_grid4(&p, expected, "HD4");
    // Spot: (0,0)=AVG2(I,X)=228>>1=114; (2,0)=AVG3(X,A,B)=67>>2=16;
    //   (3,0)=AVG3(A,B,C)=74>>2=18; (0,1)=AVG2(J,I)=392>>1=196;
    //   (0,3)=AVG2(L,K)=356>>1=178.
    assert_eq!(at(&p, 0, 0), 114);
    assert_eq!(at(&p, 2, 0), 16);
    assert_eq!(at(&p, 3, 0), 18);
    assert_eq!(at(&p, 0, 1), 196);
    assert_eq!(at(&p, 0, 3), 178);
}

#[test]
fn true_motion_reference_tracks_true_motion_off_stride_geometry() {
    const STRIDE: usize = 24;
    const ROWS: usize = 20;
    const OFF: usize = 3 * STRIDE + 5; // 77: off/stride=3 != off-stride=53
    let base: Vec<u8> = (0..STRIDE * ROWS)
        .map(|i| u8::try_from((i * 97 + 13) % 251).unwrap())
        .collect();
    for size in [4usize, 8, 16] {
        let mut opt = base.clone();
        let mut reference = base.clone();
        webpkit::predict::true_motion(&mut opt, OFF, STRIDE, size);
        true_motion_direct(&mut reference, OFF, STRIDE, size);
        assert_eq!(opt, reference, "size {size}");
    }
}

#[test]
fn dc16_both_averages_the_true_top_row_off_stride_geometry() {
    const STRIDE: usize = 24;
    const ROWS: usize = 24;
    const OFF: usize = 3 * STRIDE + 1; // 73: off/stride=3 != off-stride=49
    let plane: Vec<u8> = (0..STRIDE * ROWS)
        .map(|i| u8::try_from((i * 53 + 7) % 241).unwrap())
        .collect();
    let mut sum = 16i32;
    for j in 0..16 {
        sum += i32::from(plane[OFF - STRIDE + j]) + i32::from(plane[OFF + j * STRIDE - 1]);
    }
    let expected = u8::try_from(sum >> 5).unwrap();
    assert_eq!(webpkit::predict::dc16_both(&plane, OFF, STRIDE), expected);
}

/// TrueMotion straight from its definition: each sample is the sample to its left plus
/// the one above minus the corner, clipped.
fn true_motion_direct(plane: &mut [u8], off: usize, stride: usize, size: usize) {
    let corner = i32::from(plane[off - stride - 1]);
    for y in 0..size {
        let left = i32::from(plane[off + y * stride - 1]);
        for x in 0..size {
            let top = i32::from(plane[off - stride + x]);
            plane[off + y * stride + x] = u8::try_from((left + top - corner).clamp(0, 255)).unwrap();
        }
    }
}

/// Pseudo-random bytes from a seed.
fn random_bytes(seed: u64, n: usize) -> Vec<u8> {
    let mut st = seed;
    (0..n)
        .map(|_| {
            st = st.wrapping_add(0x9E37_79B9_7F4A_7C15);
            let mut z = st;
            z = (z ^ (z >> 30)).wrapping_mul(0xBF58_476D_1CE4_E5B9);
            z = (z ^ (z >> 27)).wrapping_mul(0x94D0_49BB_1331_11EB);
            (z ^ (z >> 31)) as u8
        })
        .collect()
}

#[test]
fn true_motion_matches_reference() {
    for size in [4usize, 8, 16] {
        for seed in 0..256u64 {
            let base = random_bytes(seed.wrapping_mul(0x0123_4567_89AB_CDEF), STRIDE * 20);
            let mut opt = base.clone();
            let mut direct = base;
            webpkit::predict::true_motion(&mut opt, OFF, STRIDE, size);
            true_motion_direct(&mut direct, OFF, STRIDE, size);
            assert_eq!(opt, direct);
        }
    }
}
