use webpkit::loop_filter::{
    FInfo, filter_mb_normal, filter_mb_simple, filter2, filter4, filter6, hev, needs_filter,
    needs_filter2,
};

const S: usize = 48;
const N: usize = S * S;
const R: usize = 16;
const C: usize = 16;

fn fill_by_row(plane: &mut [u8], f: impl Fn(usize) -> u8) {
    for (r, row) in plane.chunks_exact_mut(S).enumerate() {
        row.fill(f(r));
    }
}

fn fill_by_col(plane: &mut [u8], f: impl Fn(usize) -> u8) {
    for row in plane.chunks_exact_mut(S) {
        for (c, px) in row.iter_mut().enumerate() {
            *px = f(c);
        }
    }
}

#[test]
fn filter6_matches_hand_computed_6tap_kernel() {
    //   p2=100 p1=104 p0=108  q0=120 q1=124 q2=128
    //   a  = sclip1(3*(120-108) + sclip1(104-124))
    //      = sclip1(36 + sclip1(-20)) = sclip1(36 - 20) = 16
    //   a1 = (27*16+63)>>7 = 495>>7 = 3   (495 = 3*128 + 111)
    //   a2 = (18*16+63)>>7 = 351>>7 = 2   (351 = 2*128 + 95)
    //   a3 = ( 9*16+63)>>7 = 207>>7 = 1   (207 = 1*128 + 79)
    //   p2'=100+1=101  p1'=104+2=106  p0'=108+3=111
    //   q0'=120-3=117  q1'=124-2=122  q2'=128-1=127
    assert_eq!(
        filter6(100, 104, 108, 120, 124, 128),
        (101, 106, 111, 117, 122, 127)
    );
}

#[test]
fn filter6_saturates_via_sclip1_and_clip8() {
    // Drive the outer sclip1 into saturation and both byte clips to the ends.
    //   p2=250 p1=100 p0=100  q0=200 q1=100 q2=8
    //   a  = sclip1(3*(200-100) + sclip1(100-100)) = sclip1(300) = 127
    //   a1 = (27*127+63)>>7 = 3492>>7 = 27  (3492 = 27*128 + 36)
    //   a2 = (18*127+63)>>7 = 2349>>7 = 18  (2349 = 18*128 + 45)
    //   a3 = ( 9*127+63)>>7 = 1206>>7 =  9  (1206 =  9*128 + 54)
    //   p2'=clip8(250+9)=clip8(259)=255   p1'=clip8(100+18)=118
    //   p0'=clip8(100+27)=127             q0'=clip8(200-27)=173
    //   q1'=clip8(100-18)=82              q2'=clip8(8-9)=clip8(-1)=0
    assert_eq!(
        filter6(250, 100, 100, 200, 100, 8),
        (255, 118, 127, 173, 82, 0)
    );
}

#[test]
fn filter4_matches_hand_computed_4tap_kernel() {
    assert_eq!(filter4(90, 100, 130, 145), (96, 111, 119, 139));
}

#[test]
fn filter2_matches_hand_computed_2tap_kernel_with_sclip2_saturation() {
    //   p1=60 p0=70 q0=150 q1=160
    //   a  = 3*(150-70) + sclip1(60-160) = 240 + (-100) = 140
    //   a1 = sclip2((140+4)>>3) = sclip2(18) = 15   (saturates)
    //   a2 = sclip2((140+3)>>3) = sclip2(17) = 15   (saturates)
    //   p0'=clip8(70+15)=85   q0'=clip8(150-15)=135
    assert_eq!(filter2(60, 70, 150, 160), (85, 135));
}

#[test]
fn hev_uses_strict_greater_than_on_both_pairs() {
    assert!(!hev(100, 105, 200, 203, 5), "5 !> 5 and 3 !> 5 → false");
    assert!(hev(100, 105, 200, 203, 4), "5 > 4 on the p-side → true");
    assert!(!hev(120, 120, 100, 112, 12), "12 !> 12 → false");
    assert!(hev(120, 120, 100, 112, 11), "12 > 11 on the q-side → true");
}

#[test]
fn needs_filter_uses_le_on_the_activation_sum() {
    // p1=100 p0=110 q0=120 q1=118 → 4*|p0-q0| + |p1-q1| = 4*10 + 18 = 58
    assert!(needs_filter(100, 110, 120, 118, 58), "58 <= 58 → true");
    assert!(!needs_filter(100, 110, 120, 118, 57), "58 > 57 → false");
}

#[test]
fn needs_filter2_checks_main_sum_then_every_interior_step() {
    //   p3=90 p2=100 p1=108 p0=110 q0=120 q1=118 q2=130 q3=132
    //   main = 4*|110-120| + |108-118| = 40 + 10 = 50
    //   interior |diffs|: |90-100|=10 |100-108|=8 |108-110|=2
    //                     |132-130|=2 |130-118|=12 |118-120|=2 → max 12
    assert!(
        needs_filter2(90, 100, 108, 110, 120, 118, 130, 132, 50, 12),
        "main 50<=50 and interior all <=12"
    );
    assert!(
        !needs_filter2(90, 100, 108, 110, 120, 118, 130, 132, 49, 12),
        "main 50 > 49 → reject"
    );
    assert!(
        !needs_filter2(90, 100, 108, 110, 120, 118, 130, 132, 50, 11),
        "interior 12 > 11 → reject"
    );
}

#[test]
fn normal_top_edge_applies_do_filter6_to_luma_and_both_chroma() {
    let mut y = [0u8; N];
    let mut u = [0u8; N];
    let mut v = [0u8; N];
    fill_by_row(&mut y, |r| match r {
        12 => 96,
        13 => 100,
        14 => 104,
        15 => 108,
        16 => 120,
        17 => 124,
        18 => 128,
        19 => 132,
        _ => 0,
    });
    fill_by_row(&mut u, |r| match r {
        12 => 96,
        13 => 100,
        14 => 104,
        15 => 108,
        16 => 120,
        17 => 124,
        18 => 128,
        19 => 132,
        _ => 0,
    });
    fill_by_row(&mut v, |r| match r {
        12 => 60,
        13 => 66,
        14 => 72,
        15 => 78,
        16 => 96,
        17 => 102,
        18 => 108,
        19 => 114,
        _ => 0,
    });
    let off = R * S + C;
    let info = FInfo {
        f_limit: 50,
        f_ilevel: 9,
        f_inner: false,
        hev_thresh: 6,
    };
    filter_mb_normal(&mut y, off, S, &mut u, &mut v, off, S, false, true, info);

    for c in [C, C + 8] {
        // luma columns 16 and 24 both lie in the filtered span 16..=31.
        assert_eq!(y[12 * S + c], 96, "luma p3 untouched, col {c}");
        assert_eq!(y[13 * S + c], 101, "luma p2, col {c}");
        assert_eq!(y[14 * S + c], 106, "luma p1, col {c}");
        assert_eq!(y[15 * S + c], 111, "luma p0, col {c}");
        assert_eq!(y[16 * S + c], 117, "luma q0, col {c}");
        assert_eq!(y[17 * S + c], 122, "luma q1, col {c}");
        assert_eq!(y[18 * S + c], 127, "luma q2, col {c}");
        assert_eq!(y[19 * S + c], 132, "luma q3 untouched, col {c}");
    }
    for c in [C, C + 4] {
        // chroma columns 16 and 20 both lie in the 8-wide span 16..=23.
        assert_eq!(u[13 * S + c], 101, "U p2, col {c}");
        assert_eq!(u[14 * S + c], 106, "U p1, col {c}");
        assert_eq!(u[15 * S + c], 111, "U p0, col {c}");
        assert_eq!(u[16 * S + c], 117, "U q0, col {c}");
        assert_eq!(u[17 * S + c], 122, "U q1, col {c}");
        assert_eq!(u[18 * S + c], 127, "U q2, col {c}");
        assert_eq!(v[13 * S + c], 68, "V p2, col {c}");
        assert_eq!(v[14 * S + c], 75, "V p1, col {c}");
        assert_eq!(v[15 * S + c], 83, "V p0, col {c}");
        assert_eq!(v[16 * S + c], 91, "V q0, col {c}");
        assert_eq!(v[17 * S + c], 99, "V q1, col {c}");
        assert_eq!(v[18 * S + c], 106, "V q2, col {c}");
    }
}

#[test]
fn normal_left_edge_applies_do_filter6() {
    let mut y = [0u8; N];
    let mut u = [128u8; N];
    let mut v = [128u8; N];
    fill_by_col(&mut y, |c| match c {
        12 => 96,
        13 => 100,
        14 => 104,
        15 => 108,
        16 => 120,
        17 => 124,
        18 => 128,
        19 => 132,
        _ => 0,
    });
    let off = R * S + C;
    let info = FInfo {
        f_limit: 50,
        f_ilevel: 9,
        f_inner: false,
        hev_thresh: 6,
    };
    filter_mb_normal(&mut y, off, S, &mut u, &mut v, off, S, true, false, info);

    for r in [R, R + 8] {
        // rows 16 and 24 both lie in the 16-tall filtered span 16..=31.
        assert_eq!(y[r * S + 12], 96, "p3 untouched, row {r}");
        assert_eq!(y[r * S + 13], 101, "p2, row {r}");
        assert_eq!(y[r * S + 14], 106, "p1, row {r}");
        assert_eq!(y[r * S + 15], 111, "p0, row {r}");
        assert_eq!(y[r * S + 16], 117, "q0, row {r}");
        assert_eq!(y[r * S + 17], 122, "q1, row {r}");
        assert_eq!(y[r * S + 18], 127, "q2, row {r}");
        assert_eq!(y[r * S + 19], 132, "q3 untouched, row {r}");
    }
    // Flat chroma has nothing to filter.
    assert!(u.iter().all(|&p| p == 128));
    assert!(v.iter().all(|&p| p == 128));
}

#[test]
fn normal_interior_hev_edge_applies_do_filter2() {
    let mut y = [0u8; N];
    let mut u = [128u8; N];
    let mut v = [128u8; N];
    fill_by_col(&mut y, |c| match c {
        0..=19 => 100,
        20 => 120,
        21 => 128,
        _ => 130,
    });
    let off = R * S + C;
    let info = FInfo {
        f_limit: 60,
        f_ilevel: 9,
        f_inner: true,
        hev_thresh: 1,
    };
    filter_mb_normal(&mut y, off, S, &mut u, &mut v, off, S, false, false, info);

    for r in [R, R + 8] {
        assert_eq!(y[r * S + 18], 100, "p1 untouched, row {r}");
        assert_eq!(y[r * S + 19], 104, "p0 → 104, row {r}");
        assert_eq!(y[r * S + 20], 116, "q0 → 116, row {r}");
        assert_eq!(y[r * S + 21], 128, "q1 untouched, row {r}");
        assert_eq!(y[r * S + 23], 130, "col24 edge region flat, row {r}");
        assert_eq!(y[r * S + 24], 130, "col24 edge no-op, row {r}");
    }
    // Flat chroma unchanged by the interior chroma edges.
    assert!(u.iter().all(|&p| p == 128));
    assert!(v.iter().all(|&p| p == 128));
}

#[test]
fn normal_interior_nonhev_edge_applies_do_filter4() {
    let mut y = [0u8; N];
    let mut u = [128u8; N];
    let mut v = [128u8; N];
    fill_by_col(&mut y, |c| if c < 20 { 100 } else { 112 });
    let off = R * S + C;
    let info = FInfo {
        f_limit: 40,
        f_ilevel: 9,
        f_inner: true,
        hev_thresh: 1,
    };
    filter_mb_normal(&mut y, off, S, &mut u, &mut v, off, S, false, false, info);

    for r in [R, R + 8] {
        assert_eq!(y[r * S + 17], 100, "p2 untouched, row {r}");
        assert_eq!(y[r * S + 18], 103, "p1 → 103, row {r}");
        assert_eq!(y[r * S + 19], 104, "p0 → 104, row {r}");
        assert_eq!(y[r * S + 20], 107, "q0 → 107, row {r}");
        assert_eq!(y[r * S + 21], 109, "q1 → 109, row {r}");
        assert_eq!(y[r * S + 22], 112, "q2 untouched, row {r}");
    }
}

#[test]
fn simple_left_edge_smooths_a_step() {
    let off_col = 16usize;
    let off_row = 16usize;
    let mut y = [0u8; N];
    for (idx, px) in y.iter_mut().enumerate() {
        *px = if idx % S < off_col { 128 } else { 134 };
    }
    let info = FInfo {
        f_limit: 20,
        f_ilevel: 9,
        f_inner: false,
        hev_thresh: 0,
    };
    filter_mb_simple(&mut y, off_row * S + off_col, S, true, false, info);
    for r in off_row..off_row + 16 {
        assert_eq!(y[r * S + (off_col - 2)], 128, "p1 row {r}");
        assert_eq!(y[r * S + (off_col - 1)], 129, "p0 row {r}");
        assert_eq!(y[r * S + off_col], 132, "q0 row {r}");
        assert_eq!(y[r * S + (off_col + 1)], 134, "q1 row {r}");
    }
}

#[test]
fn zero_f_limit_short_circuits_the_normal_filter() {
    let mut base = [0u8; N];
    fill_by_col(&mut base, |c| match c {
        12 => 96,
        13 => 100,
        14 => 104,
        15 => 108,
        16 => 120,
        17 => 124,
        18 => 128,
        19 => 132,
        _ => 140,
    });
    let mut u = [128u8; N];
    let mut v = [128u8; N];
    let off = R * S + C;

    let mut active = base;
    let info_on = FInfo {
        f_limit: 50,
        f_ilevel: 9,
        f_inner: false,
        hev_thresh: 6,
    };
    filter_mb_normal(
        &mut active,
        off,
        S,
        &mut u,
        &mut v,
        off,
        S,
        true,
        false,
        info_on,
    );
    assert_ne!(active, base, "sanity: this plane is actually filterable");

    let mut idle = base;
    let info_off = FInfo {
        f_limit: 0,
        f_ilevel: 9,
        f_inner: true,
        hev_thresh: 6,
    };
    filter_mb_normal(
        &mut idle, off, S, &mut u, &mut v, off, S, true, true, info_off,
    );
    assert_eq!(idle, base, "f_limit==0 must return before filtering");
}

#[test]
fn zero_f_limit_short_circuits_the_simple_filter() {
    let mut base = [0u8; N];
    fill_by_col(&mut base, |c| if c < C { 128 } else { 134 });
    let off = R * S + C;

    let mut active = base;
    filter_mb_simple(
        &mut active,
        off,
        S,
        true,
        false,
        FInfo {
            f_limit: 20,
            f_ilevel: 9,
            f_inner: false,
            hev_thresh: 0,
        },
    );
    assert_ne!(active, base, "sanity: this step is actually filterable");

    let mut idle = base;
    filter_mb_simple(
        &mut idle,
        off,
        S,
        true,
        false,
        FInfo {
            f_limit: 0,
            f_ilevel: 9,
            f_inner: false,
            hev_thresh: 0,
        },
    );
    assert_eq!(idle, base, "f_limit==0 must return before filtering");
}

#[test]
fn simple_top_edge_needs_filter_threshold_is_exactly_2t_plus_1() {
    let mut y = [0u8; N];
    fill_by_row(&mut y, |r| match r {
        14 => 103,
        15 => 100,
        16 => 102,
        17 => 100,
        _ => 0,
    });
    let info = FInfo {
        f_limit: 1,
        f_ilevel: 9,
        f_inner: false,
        hev_thresh: 0,
    };
    filter_mb_simple(&mut y, R * S + C, S, false, true, info);
    for c in [C, C + 15] {
        assert_eq!(y[14 * S + c], 103, "p1 untouched, col {c}");
        assert_eq!(y[15 * S + c], 101, "p0 → 101, col {c}");
        assert_eq!(y[16 * S + c], 101, "q0 → 101, col {c}");
        assert_eq!(y[17 * S + c], 100, "q1 untouched, col {c}");
    }
}

#[test]
fn simple_left_edge_needs_filter_threshold_is_exactly_2t_plus_1() {
    // Mirror of the top-edge boundary case along columns: do_left_edge →
    // simple_h_filter16 on the col-16 edge (identical arithmetic → col15→101,
    // col16→101). Kills the `2*thresh+1` in simple_h_filter16 and the
    // `limit+4` in filter_mb_simple's left-edge call.
    let mut y = [0u8; N];
    fill_by_col(&mut y, |c| match c {
        14 => 103,
        15 => 100,
        16 => 102,
        17 => 100,
        _ => 0,
    });
    let info = FInfo {
        f_limit: 1,
        f_ilevel: 9,
        f_inner: false,
        hev_thresh: 0,
    };
    filter_mb_simple(&mut y, R * S + C, S, true, false, info);
    for r in [R, R + 15] {
        assert_eq!(y[r * S + 14], 103, "p1 untouched, row {r}");
        assert_eq!(y[r * S + 15], 101, "p0 → 101, row {r}");
        assert_eq!(y[r * S + 16], 101, "q0 → 101, row {r}");
        assert_eq!(y[r * S + 17], 100, "q1 untouched, row {r}");
    }
}

#[test]
fn simple_interior_horizontal_edges_filter_rows_4_8_12() {
    let mut y = [0u8; N];
    fill_by_row(&mut y, |r| match r {
        20 | 21 | 24 | 25 | 28 | 29 => 120,
        18 | 19 | 22 | 23 | 26 | 27 => 100,
        _ => 0,
    });
    let info = FInfo {
        f_limit: 60,
        f_ilevel: 9,
        f_inner: true,
        hev_thresh: 0,
    };
    filter_mb_simple(&mut y, R * S + C, S, false, false, info);
    for c in [C, C + 15] {
        for (p0_row, q0_row) in [(19, 20), (23, 24), (27, 28)] {
            assert_eq!(y[p0_row * S + c], 105, "p0 row {p0_row}, col {c}");
            assert_eq!(y[q0_row * S + c], 115, "q0 row {q0_row}, col {c}");
        }
        // Rows outside the three interior edges stay put (a `4/stride`=0 step
        // would filter the row-16 edge instead, a `-=` step rows 4/8/12).
        assert_eq!(y[16 * S + c], 0, "top-edge row untouched, col {c}");
        assert_eq!(y[18 * S + c], 100, "row 18 untouched, col {c}");
    }
}

#[test]
fn simple_interior_vertical_edges_filter_cols_4_8_12() {
    // f_inner=true → simple_h_filter16i, interior vertical edges at cols
    // off+4/8/12 (= 20/24/28). Mirror of the horizontal case along columns.
    let mut y = [0u8; N];
    fill_by_col(&mut y, |c| match c {
        20 | 21 | 24 | 25 | 28 | 29 => 120,
        18 | 19 | 22 | 23 | 26 | 27 => 100,
        _ => 0,
    });
    let info = FInfo {
        f_limit: 60,
        f_ilevel: 9,
        f_inner: true,
        hev_thresh: 0,
    };
    filter_mb_simple(&mut y, R * S + C, S, false, false, info);
    for r in [R, R + 15] {
        for (p0_col, q0_col) in [(19, 20), (23, 24), (27, 28)] {
            assert_eq!(y[r * S + p0_col], 105, "p0 col {p0_col}, row {r}");
            assert_eq!(y[r * S + q0_col], 115, "q0 col {q0_col}, row {r}");
        }
        assert_eq!(y[r * S + 16], 0, "left-edge col untouched, row {r}");
        assert_eq!(y[r * S + 18], 100, "col 18 untouched, row {r}");
    }
}

#[test]
fn normal_interior_horizontal_nonhev_edge_applies_do_filter4() {
    let mut y = [0u8; N];
    let mut u = [128u8; N];
    let mut v = [128u8; N];
    fill_by_row(&mut y, |r| if r < 20 { 100 } else { 112 });
    let off = R * S + C;
    let info = FInfo {
        f_limit: 40,
        f_ilevel: 9,
        f_inner: true,
        hev_thresh: 1,
    };
    filter_mb_normal(&mut y, off, S, &mut u, &mut v, off, S, false, false, info);
    for c in [C, C + 15] {
        assert_eq!(y[17 * S + c], 100, "p2 untouched, col {c}");
        assert_eq!(y[18 * S + c], 103, "p1 → 103, col {c}");
        assert_eq!(y[19 * S + c], 104, "p0 → 104, col {c}");
        assert_eq!(y[20 * S + c], 107, "q0 → 107, col {c}");
        assert_eq!(y[21 * S + c], 109, "q1 → 109, col {c}");
        assert_eq!(y[22 * S + c], 112, "q2 untouched, col {c}");
    }
    assert!(u.iter().all(|&p| p == 128), "flat chroma untouched");
    assert!(v.iter().all(|&p| p == 128), "flat chroma untouched");
}

#[test]
fn normal_interior_chroma_v_edge_filters_column_4_of_the_v_plane() {
    let mut y = [100u8; N];
    let mut u = [100u8; N];
    let mut v = [0u8; N];
    fill_by_col(&mut v, |c| if c < 20 { 100 } else { 112 });
    let off = R * S + C;
    let info = FInfo {
        f_limit: 40,
        f_ilevel: 9,
        f_inner: true,
        hev_thresh: 1,
    };
    filter_mb_normal(&mut y, off, S, &mut u, &mut v, off, S, false, false, info);
    for r in [R, R + 7] {
        // the chroma edge spans 8 rows: 16..=23.
        assert_eq!(v[r * S + 17], 100, "V p2 untouched, row {r}");
        assert_eq!(v[r * S + 18], 103, "V p1 → 103, row {r}");
        assert_eq!(v[r * S + 19], 104, "V p0 → 104, row {r}");
        assert_eq!(v[r * S + 20], 107, "V q0 → 107, row {r}");
        assert_eq!(v[r * S + 21], 109, "V q1 → 109, row {r}");
        assert_eq!(v[r * S + 22], 112, "V q2 untouched, row {r}");
    }
}

#[test]
fn normal_filter_loop_threshold_is_exactly_2t_plus_1() {
    let mut y = [0u8; N];
    let mut u = [128u8; N];
    let mut v = [128u8; N];
    fill_by_row(&mut y, |r| match r {
        12..=15 => 100,
        16 => 125,
        17..=19 => 109,
        _ => 0,
    });
    let off = R * S + C;
    let info = FInfo {
        f_limit: 50,
        f_ilevel: 20,
        f_inner: false,
        hev_thresh: 6,
    };
    filter_mb_normal(&mut y, off, S, &mut u, &mut v, off, S, false, true, info);
    for c in [C, C + 15] {
        assert_eq!(y[14 * S + c], 100, "p1 untouched, col {c}");
        assert_eq!(y[15 * S + c], 108, "p0 → 108, col {c}");
        assert_eq!(y[16 * S + c], 117, "q0 → 117, col {c}");
        assert_eq!(y[17 * S + c], 109, "q1 untouched, col {c}");
    }
}
