use webpkit::idct::{mul1, mul2, transform_dc, transform_one, transform_wht};

#[test]
fn transform_dc_matches_full_transform_on_dc_only_blocks() {
    let stride = 6;
    for dc in [-2048i16, -600, -100, -8, -1, 0, 1, 7, 8, 100, 600, 2047] {
        for bg in [0u8, 1, 5, 100, 128, 250, 255] {
            let mut full = [bg; 4 * 6];
            let mut fast = [bg; 4 * 6];
            let mut coeffs = [0i16; 16];
            coeffs[0] = dc;
            transform_one(&coeffs, &mut full, 0, stride);
            transform_dc(dc, &mut fast, 0, stride);
            assert_eq!(fast, full, "dc={dc} bg={bg}");
        }
    }
}

#[test]
fn all_zero_input_is_all_zero_dc() {
    let mut out = [1i16; 384];
    transform_wht([0; 16], &mut out);
    // Every DC slot (stride 16) becomes (0 + 3) >> 3 = 0.
    for b in 0..16 {
        assert_eq!(out[b * 16], 0);
    }
}

#[test]
fn uniform_dc_propagates_to_every_block() {
    // A single non-zero DC coefficient produces a constant field: with only
    // in[0] set to 8, both passes sum it into every block's DC as 1.
    let mut input = [0i16; 16];
    input[0] = 8;
    let mut out = [0i16; 384];
    transform_wht(input, &mut out);
    for b in 0..16 {
        assert_eq!(out[b * 16], 1, "block {b} DC");
    }
}

#[test]
fn wht_horizontal_split_from_in0_and_in1() {
    const SENT: i16 = 999;
    let mut input = [0i16; 16];
    input[0] = 40;
    input[1] = 80;
    let mut out = [SENT; 384];
    transform_wht(input, &mut out);

    let expected: [i16; 16] = [
        15, 15, -5, -5, 15, 15, -5, -5, 15, 15, -5, -5, 15, 15, -5, -5,
    ];
    for (b, &want) in expected.iter().enumerate() {
        assert_eq!(out[b * 16], want, "block {b} DC");
    }
    // The WHT must write ONLY the DC slots (index % 16 == 0); every other
    // coefficient position must remain untouched at the sentinel.
    for (i, &v) in out.iter().enumerate() {
        if i % 16 != 0 {
            assert_eq!(v, SENT, "non-DC coeff slot {i} was clobbered");
        }
    }
}

#[test]
fn wht_vertical_split_from_in0_and_in4() {
    let mut input = [0i16; 16];
    input[0] = 40;
    input[4] = 80;
    let mut out = [0i16; 384];
    transform_wht(input, &mut out);

    let expected: [i16; 16] = [
        15, 15, 15, 15, 15, 15, 15, 15, -5, -5, -5, -5, -5, -5, -5, -5,
    ];
    for (b, &want) in expected.iter().enumerate() {
        assert_eq!(out[b * 16], want, "block {b} DC");
    }
}

#[test]
fn mul_constants_match_reference() {
    // Hand-computed with arithmetic (sign-extending) 16-bit right shifts.
    // mul1(a)=((a*20091)>>16)+a, mul2(a)=(a*35468)>>16.
    assert_eq!((mul1(0), mul2(0)), (0, 0));
    assert_eq!((mul1(100), mul2(100)), (130, 54));
    assert_eq!((mul1(-100), mul2(-100)), (-131, -55));
    assert_eq!((mul1(200), mul2(200)), (261, 108));
    assert_eq!((mul1(-160), mul2(-160)), (-210, -87));
}

#[test]
fn transform_one_dc_only_adds_uniform_offset() {
    // DC = 28 => every sample gains (28 + 4) >> 3 == 4, over the existing 100.
    let stride = 4;
    let mut plane = [100u8; 16];
    let mut coeffs = [0i16; 16];
    coeffs[0] = 28;
    transform_one(&coeffs, &mut plane, 0, stride);
    assert!(plane.iter().all(|&p| p == 104));
}

#[test]
fn transform_one_respects_stride_and_clips() {
    // Stride 6: columns 4,5 of each row are outside the 4x4 block; DC = -100
    // gives residual (-96) >> 3 == -12, so 5 + (-12) clips to 0 inside.
    let stride = 6;
    let mut plane = [5u8; 4 * 6];
    let mut coeffs = [0i16; 16];
    coeffs[0] = -100;
    transform_one(&coeffs, &mut plane, 0, stride);
    for y in 0..4 {
        for x in 0..6 {
            let expected = if x < 4 { 0 } else { 5 };
            assert_eq!(plane[x + y * stride], expected, "x={x} y={y}");
        }
    }
}

#[test]
fn transform_one_single_ac_coeff1_is_horizontal_ripple() {
    // Single AC coefficient coeffs[1]=200 (a pure horizontal frequency).
    // Vertical pass: only column 1 nonzero (in0=200, in4=in8=in12=0):
    //   a=200, b=200, c=mul2(0)-mul1(0)=0, d=0
    //   -> tmp[4]=tmp[5]=tmp[6]=tmp[7]=200; all other tmp=0.
    // Horizontal pass (every row i identical: tmp[i]=0, tmp[4+i]=200,
    // tmp[8+i]=0, tmp[12+i]=0): dc=0+4=4, t8=0, a=b=4,
    //   c=mul2(200)-mul1(0)=108, d=mul1(200)+mul2(0)=261.
    //   STORE v = [a+d, b+c, b-c, a-d] = [265, 112, -104, -257]
    //   residual = v>>3 = [33, 14, -13, -33]  (arith: -104>>3=-13, -257>>3=-33)
    // Over flat dst=128 => [161, 142, 115, 95] on every row.
    let stride = 4;
    let mut plane = [128u8; 16];
    let mut coeffs = [0i16; 16];
    coeffs[1] = 200;
    transform_one(&coeffs, &mut plane, 0, stride);

    let expected_row = [161u8, 142, 115, 95];
    for y in 0..4 {
        for (x, &want) in expected_row.iter().enumerate() {
            assert_eq!(plane[x + y * stride], want, "x={x} y={y}");
        }
    }
}

#[test]
fn transform_one_single_ac_coeff4_is_vertical_ripple() {
    // Single AC coefficient coeffs[4]=200 (a pure vertical frequency) — the
    // transpose of the coeffs[1] case; a vertical/horizontal-pass swap bug
    // would produce the coeffs[1] block instead of this one.
    // Vertical pass: only column 0 nonzero (in0=0, in4=200, in8=in12=0):
    //   a=0, b=0, c=mul2(200)-mul1(0)=108, d=mul1(200)+mul2(0)=261
    //   -> tmp[0]=261, tmp[1]=108, tmp[2]=-108, tmp[3]=-261; other tmp=0.
    // Horizontal pass: each row i reads tmp[i] with tmp[4+i]=tmp[8+i]=tmp[12+i]=0,
    //   so c=d=0 and all four stores equal dc=tmp[i]+4:
    //   row0: 261+4=265 -> 33 ; row1: 108+4=112 -> 14
    //   row2: -108+4=-104 -> -13 ; row3: -261+4=-257 -> -33
    // Over flat dst=128 => row0=161, row1=142, row2=115, row3=95 (constant
    // across each row).
    let stride = 4;
    let mut plane = [128u8; 16];
    let mut coeffs = [0i16; 16];
    coeffs[4] = 200;
    transform_one(&coeffs, &mut plane, 0, stride);

    let expected_rows = [161u8, 142, 115, 95];
    for (y, &want) in expected_rows.iter().enumerate() {
        for x in 0..4 {
            assert_eq!(plane[x + y * stride], want, "x={x} y={y}");
        }
    }
}

#[test]
fn transform_one_mixed_dc_and_two_ac_coeffs() {
    // Mixed {DC=coeffs[0]=100, coeffs[1]=200, coeffs[4]=-160} on a padded
    // plane (stride 6) so this also exercises AC + stride, and the +4 rounder
    // / >>3 flooring / clip interplay on a fully non-constant 4x4 pattern.
    //
    // Vertical pass:
    //   col 0 (in0=100, in4=-160): a=100, b=100,
    //     c=mul2(-160)-mul1(0)=-87, d=mul1(-160)+mul2(0)=-210
    //     -> tmp[0]=a+d=-110, tmp[1]=b+c=13, tmp[2]=b-c=187, tmp[3]=a-d=310
    //   col 1 (in0=200): a=b=200, c=d=0 -> tmp[4..8]=200
    //   cols 2,3 -> 0.
    // Horizontal pass, row i uses tmp[i] and tmp[4+i]=200 (tmp[8+i]=tmp[12+i]=0):
    //   dc=tmp[i]+4, c=mul2(200)=108, d=mul1(200)=261, t8=0
    //   STORE v = [dc+d, dc+c, dc-c, dc-d]
    //   row0 dc=-110+4=-106: v=[155, 2, -214, -367]  -> >>3 [19, 0, -27, -46]
    //   row1 dc= 13+4= 17 : v=[278, 125, -91, -244] -> >>3 [34, 15, -12, -31]
    //   row2 dc=187+4=191 : v=[452, 299, 83, -70]   -> >>3 [56, 37, 10, -9]
    //   row3 dc=310+4=314 : v=[575, 422, 206, 53]   -> >>3 [71, 52, 25, 6]
    // Over flat dst=100 (all in [0,255], no clip), padding cols 4,5 untouched.
    let stride = 6;
    let mut plane = [100u8; 4 * 6];
    let mut coeffs = [0i16; 16];
    coeffs[0] = 100;
    coeffs[1] = 200;
    coeffs[4] = -160;
    transform_one(&coeffs, &mut plane, 0, stride);

    let block: [[u8; 4]; 4] = [
        [119, 100, 73, 54],
        [134, 115, 88, 69],
        [156, 137, 110, 91],
        [171, 152, 125, 106],
    ];
    for (y, row) in block.iter().enumerate() {
        for x in 0..6 {
            let want = if x < 4 { row[x] } else { 100 };
            assert_eq!(plane[x + y * stride], want, "x={x} y={y}");
        }
    }
}
