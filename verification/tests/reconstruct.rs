use webpkit::reconstruct::{Planes, compute_fstrengths, fill_top_right_lane, filter_frame, resolve_finfo};
use webpkit::decode::{FilterHeader, MbData, SegmentHeader};
use webpkit::loop_filter::FInfo;

/// Build a `SegmentHeader` with only the fields `compute_fstrengths` reads.
fn segment(
    use_segment: bool,
    absolute_delta: bool,
    filter_strength: [i32; 4],
) -> SegmentHeader {
    SegmentHeader {
        use_segment,
        update_map: false,
        absolute_delta,
        quantizer: [0; 4],
        filter_strength,
    }
}

/// Build an `MbData` carrying only the fields `resolve_finfo` reads.
fn mb(segment: u8, is_i4x4: bool, skip: bool, non_zero_y: u32, non_zero_uv: u32) -> MbData {
    MbData {
        segment,
        is_i4x4,
        skip,
        non_zero_y,
        non_zero_uv,
        ..MbData::default()
    }
}

/// Compare an `FInfo` field-by-field (`FInfo` has no `PartialEq`).
fn assert_finfo(info: FInfo, f_limit: i32, f_ilevel: i32, f_inner: bool, hev_thresh: i32) {
    assert_eq!(info.f_limit, f_limit, "f_limit");
    assert_eq!(info.f_ilevel, f_ilevel, "f_ilevel");
    assert_eq!(info.f_inner, f_inner, "f_inner");
    assert_eq!(info.hev_thresh, hev_thresh, "hev_thresh");
}

#[test]
fn fstrengths_plain_level_no_sharpness_no_deltas() {
    // level=20, sharpness=0, no lf-delta, no segments.
    // ilevel = 20 (sharpness 0) => f_ilevel 20, f_limit = 2*20+20 = 60,
    // hev_thresh: 20>=15 (not >=40) => 1. f_inner = i4x4.
    let seg = segment(false, false, [0; 4]);
    let filter = FilterHeader {
        level: 20,
        ..Default::default()
    };
    let table = compute_fstrengths(&seg, &filter);
    for lane in &table {
        assert_finfo(lane[0], 60, 20, false, 1); // 16x16 lane: f_inner=i4x4=false
        assert_finfo(lane[1], 60, 20, true, 1); // B_PRED lane: f_inner=i4x4=true
    }
}

#[test]
fn fstrengths_segment_absolute_uses_filter_strength_directly() {
    // absolute_delta=true => base = filter_strength[s]; filter.level is IGNORED.
    // filter.level=10 must NOT be added. Distinct per-segment strengths verify
    // the [segment] index. sharpness=0 so f_ilevel == level.
    //   s0: level 7  -> f_limit 21,  f_ilevel 7,  hev 0  (7<15)
    //   s1: level 20 -> f_limit 60,  f_ilevel 20, hev 1  (20>=15)
    //   s2: level 40 -> f_limit 120, f_ilevel 40, hev 2  (40>=40)
    //   s3: level 3  -> f_limit 9,   f_ilevel 3,  hev 0
    let seg = segment(true, true, [7, 20, 40, 3]);
    let filter = FilterHeader {
        level: 10,
        ..Default::default()
    };
    let table = compute_fstrengths(&seg, &filter);
    let expect = [(21, 7, 0), (60, 20, 1), (120, 40, 2), (9, 3, 0)];
    for (s, &(fl, il, hev)) in expect.iter().enumerate() {
        assert_finfo(table[s][0], fl, il, false, hev);
        assert_finfo(table[s][1], fl, il, true, hev);
    }
}

#[test]
fn fstrengths_segment_delta_adds_base_level() {
    // absolute_delta=false => base = filter_strength[s] + filter.level(=10).
    //   s0: 7+10=17  -> f_limit 51,  f_ilevel 17, hev 1
    //   s1: 20+10=30 -> f_limit 90,  f_ilevel 30, hev 1
    //   s2: 40+10=50 -> f_limit 150, f_ilevel 50, hev 2
    //   s3: 3+10=13  -> f_limit 39,  f_ilevel 13, hev 0  (13<15)
    let seg = segment(true, false, [7, 20, 40, 3]);
    let filter = FilterHeader {
        level: 10,
        ..Default::default()
    };
    let table = compute_fstrengths(&seg, &filter);
    let expect = [(51, 17, 1), (90, 30, 1), (150, 50, 2), (39, 13, 0)];
    for (s, &(fl, il, hev)) in expect.iter().enumerate() {
        assert_finfo(table[s][0], fl, il, false, hev);
        assert_finfo(table[s][1], fl, il, true, hev);
    }
}

#[test]
fn fstrengths_lf_delta_adds_ref_then_mode_on_i4x4() {
    // use_lf_delta: +ref_lf_delta[0] always, +mode_lf_delta[0] only on the
    // i4x4 (B_PRED) lane. level=20, ref=5, mode=8, sharpness=0.
    //   16x16 lane: 20+5      = 25 -> f_limit 75, f_ilevel 25, hev 1
    //   B_PRED lane: 20+5+8   = 33 -> f_limit 99, f_ilevel 33, hev 1
    let seg = segment(false, false, [0; 4]);
    let filter = FilterHeader {
        level: 20,
        use_lf_delta: true,
        ref_lf_delta: [5, 0, 0, 0],
        mode_lf_delta: [8, 0, 0, 0],
        ..Default::default()
    };
    let table = compute_fstrengths(&seg, &filter);
    for lane in &table {
        assert_finfo(lane[0], 75, 25, false, 1);
        assert_finfo(lane[1], 99, 33, true, 1);
    }
}

#[test]
fn fstrengths_sharpness_shifts_and_caps_inner_level() {
    // With use_segment=false and no lf-delta, level == filter.level, so each
    // call probes one (level, sharpness) point via the 16x16 lane [0][0].
    let inner = |level: i32, sharpness: i32| {
        let seg = segment(false, false, [0; 4]);
        let filter = FilterHeader {
            level,
            sharpness,
            ..Default::default()
        };
        compute_fstrengths(&seg, &filter)[0][0]
    };
    // sharpness 1 (<=4 => >>1): ilevel = 40>>1 = 20, cap = 9-1 = 8 => 8.
    //   f_limit = 2*40+8 = 88, hev 2.
    assert_finfo(inner(40, 1), 88, 8, false, 2);
    // sharpness 5 (>4 => >>2): ilevel = 40>>2 = 10, cap = 9-5 = 4 => 4.
    //   f_limit = 2*40+4 = 84, hev 2.
    assert_finfo(inner(40, 5), 84, 4, false, 2);
    // sharpness 3 (>>1) NO cap: ilevel = 6>>1 = 3, cap = 9-3 = 6, 3<=6 keeps 3.
    //   f_limit = 2*6+3 = 15, hev 0 (6<15).
    assert_finfo(inner(6, 3), 15, 3, false, 0);
    // floor: ilevel = 1>>1 = 0, cap 8, then floored to 1.
    //   f_limit = 2*1+1 = 3, hev 0.
    assert_finfo(inner(1, 1), 3, 1, false, 0);
    // sharpness 7 (>>2) hits the tightest cap: ilevel = 63>>2 = 15, cap = 2 => 2.
    //   f_limit = 2*63+2 = 128, hev 2.
    assert_finfo(inner(63, 7), 128, 2, false, 2);
}

#[test]
fn fstrengths_level_clamped_to_zero_disables_filtering() {
    // ref_lf_delta[0] = -10 drives the 16x16 lane's level negative -> clamp 0
    // -> FInfo::default (f_limit 0). mode_lf_delta[0] = +20 lifts the B_PRED
    // lane back positive (3-10+20 = 13), proving the two lanes diverge and
    // that a zeroed level yields the all-zero disabled FInfo.
    let seg = segment(false, false, [0; 4]);
    let filter = FilterHeader {
        level: 3,
        use_lf_delta: true,
        ref_lf_delta: [-10, 0, 0, 0],
        mode_lf_delta: [20, 0, 0, 0],
        ..Default::default()
    };
    let table = compute_fstrengths(&seg, &filter);
    for lane in &table {
        // 16x16 lane: level 3-10 = -7 -> 0 -> disabled (all zero).
        assert_finfo(lane[0], 0, 0, false, 0);
        // B_PRED lane: level 3-10+20 = 13 -> f_limit 39, f_ilevel 13, hev 0.
        assert_finfo(lane[1], 39, 13, true, 0);
    }
}

/// Table whose `f_limit` encodes its indices as `100 + 10*segment + i4x4`, so
/// a swapped or wrong index is observable. `f_ilevel`/`hev_thresh` are fixed
/// witnesses that resolve_finfo passes them through untouched.
fn indexed_table() -> [[FInfo; 2]; 4] {
    let mut table = [[FInfo::default(); 2]; 4];
    for (s, lane) in table.iter_mut().enumerate() {
        for (i, cell) in lane.iter_mut().enumerate() {
            *cell = FInfo {
                f_limit: 100 + 10 * i32::try_from(s).unwrap() + i32::try_from(i).unwrap(),
                f_ilevel: 7,
                f_inner: false,
                hev_thresh: 1,
            };
        }
    }
    table
}

#[test]
fn resolve_finfo_residual_present_sets_inner_and_indexes_segment() {
    // segment 2, 16x16, use_skip on but block.skip=false, luma residual present
    // (non_zero_y != 0) => skip=false => f_inner = false || !false = true.
    // Picks table[2][0] => f_limit 120; f_ilevel/hev pass through.
    let table = indexed_table();
    let block = mb(2, false, false, 0x5, 0);
    let info = resolve_finfo(table, &block, true);
    assert_finfo(info, 120, 7, true, 1);
}

#[test]
fn resolve_finfo_explicit_skip_clears_inner() {
    // segment 1, 16x16, use_skip on, block.skip=true, no residual => skip=true
    // => f_inner = false || !true = false. Picks table[1][0] => f_limit 110.
    let table = indexed_table();
    let block = mb(1, false, true, 0, 0);
    let info = resolve_finfo(table, &block, true);
    assert_finfo(info, 110, 7, false, 1);
}

#[test]
fn resolve_finfo_i4x4_forces_inner_even_when_skipped() {
    // segment 3, i4x4, block.skip=true, no residual => skip=true, yet the
    // i4x4 disjunct keeps f_inner = true. Also proves the is_i4x4=1 lane is
    // selected: table[3][1] => f_limit 131 (not 130).
    let table = indexed_table();
    let block = mb(3, true, true, 0, 0);
    let info = resolve_finfo(table, &block, true);
    assert_finfo(info, 131, 7, true, 1);
}

#[test]
fn resolve_finfo_use_skip_false_ignores_block_skip_but_checks_residual() {
    // use_skip=false makes block.skip irrelevant: skip starts false, then the
    // residual test runs. With no residual (nz all zero) skip becomes true =>
    // f_inner = false. table[0][0] => f_limit 100.
    let table = indexed_table();
    let block = mb(0, false, true, 0, 0);
    let info = resolve_finfo(table, &block, false);
    assert_finfo(info, 100, 7, false, 1);
}

#[test]
fn resolve_finfo_chroma_residual_alone_sets_inner() {
    // use_skip=false, block.skip=true (ignored). Only chroma is non-zero
    // (non_zero_uv != 0) => the (nz_y | nz_uv)==0 test fails => skip=false =>
    // f_inner true. Confirms non_zero_uv participates in the OR. table[1][0].
    let table = indexed_table();
    let block = mb(1, false, true, 0, 0x2);
    let info = resolve_finfo(table, &block, false);
    assert_finfo(info, 110, 7, true, 1);
}

#[test]
fn resolve_finfo_i4x4_no_residual_indexes_i4x4_lane() {
    // segment 2, i4x4, use_skip on, block.skip=false, no residual => skip=true
    // but is_i4x4 keeps f_inner=true. Selects table[2][1] => f_limit 121,
    // distinguishing the i4x4 lane (121) from the 16x16 lane (120).
    let table = indexed_table();
    let block = mb(2, true, false, 0, 0);
    let info = resolve_finfo(table, &block, true);
    assert_finfo(info, 121, 7, true, 1);
}

// =========================================================================
// filter_frame — dispatch + per-MB geometry over Planes.
// filter_type 0 => no-op; 1 => simple luma filter; f_limit==0 => per-MB no-op.
// =========================================================================

/// Two macroblocks side by side (mb_w=2, mb_h=1). Interior rows carry a
/// vertical step 128|134 whose boundary sits exactly on mb_x=1's left edge
/// (plane column 17 = mb_x*16+1). y_stride = 1 + 2*16 + 4 = 37.
fn stepped_left_edge_planes() -> Planes {
    let mut planes = Planes::new(2, 1);
    let stride = planes.y_stride; // 37
    for row in 1..17 {
        for col in 1..stride {
            planes.y[row * stride + col] = if col < 17 { 128 } else { 134 };
        }
    }
    planes
}

#[test]
fn filter_frame_simple_smooths_left_mb_edge() {
    let mut planes = stepped_left_edge_planes();
    let stride = planes.y_stride;
    let info = FInfo {
        f_limit: 20,
        f_ilevel: 9,
        f_inner: false,
        hev_thresh: 0,
    };
    let finfo = vec![info; 2];
    filter_frame(&mut planes, &finfo, 2, 1, 1);
    for r in 1..17 {
        assert_eq!(planes.y[r * stride + 15], 128, "p1 untouched, row {r}");
        assert_eq!(planes.y[r * stride + 16], 129, "p0 filtered, row {r}");
        assert_eq!(planes.y[r * stride + 17], 132, "q0 filtered, row {r}");
        assert_eq!(planes.y[r * stride + 18], 134, "q1 untouched, row {r}");
        // Samples away from the single filtered edge are untouched.
        assert_eq!(planes.y[r * stride + 5], 128, "mb_x=0 interior, row {r}");
        assert_eq!(planes.y[r * stride + 30], 134, "mb_x=1 interior, row {r}");
    }
}

#[test]
fn filter_frame_simple_smooths_top_mb_edge() {
    let mut planes = Planes::new(1, 2);
    let stride = planes.y_stride; // 21
    for row in 1..33 {
        for col in 1..stride {
            planes.y[row * stride + col] = if row < 17 { 128 } else { 134 };
        }
    }
    let info = FInfo {
        f_limit: 20,
        f_ilevel: 9,
        f_inner: false,
        hev_thresh: 0,
    };
    let finfo = vec![info; 2];
    filter_frame(&mut planes, &finfo, 1, 2, 1);
    for c in 1..17 {
        assert_eq!(planes.y[15 * stride + c], 128, "p1 untouched, col {c}");
        assert_eq!(planes.y[16 * stride + c], 129, "p0 filtered, col {c}");
        assert_eq!(planes.y[17 * stride + c], 132, "q0 filtered, col {c}");
        assert_eq!(planes.y[18 * stride + c], 134, "q1 untouched, col {c}");
    }
}

#[test]
fn filter_frame_type0_leaves_plane_untouched() {
    // filter_type 0 returns immediately — the identical stepped plane is
    // byte-for-byte unchanged despite an edge that type 1 would smooth.
    let mut planes = stepped_left_edge_planes();
    let before = planes.y.clone();
    let info = FInfo {
        f_limit: 20,
        f_ilevel: 9,
        f_inner: false,
        hev_thresh: 0,
    };
    let finfo = vec![info; 2];
    filter_frame(&mut planes, &finfo, 2, 1, 0);
    assert_eq!(planes.y, before, "filter_type 0 must be a no-op");
}

#[test]
fn filter_frame_zero_flimit_is_a_per_mb_noop() {
    // filter_type 1 but every FInfo has f_limit 0: filter_mb_simple's guard
    // fires per macroblock, so the step across mb_x=1's edge survives intact.
    let mut planes = stepped_left_edge_planes();
    let before = planes.y.clone();
    let finfo = vec![FInfo::default(); 2]; // f_limit == 0
    filter_frame(&mut planes, &finfo, 2, 1, 1);
    assert_eq!(planes.y, before, "f_limit==0 must disable filtering");
}

// =========================================================================
// resolve_finfo — residual detection uses OR, not XOR.
// =========================================================================

#[test]
fn resolve_finfo_equal_nonzero_luma_and_chroma_uses_or_not_xor() {
    let table = indexed_table();
    let block = mb(0, false, false, 0x5, 0x5);
    let info = resolve_finfo(table, &block, true);
    assert_finfo(info, 100, 7, true, 1);
}

// =========================================================================
// strength_for — the inner-level shift selector branches on `>`, not `==`/`>=`.
// =========================================================================

#[test]
fn fstrengths_sharpness_shift_selector_branches_strictly_above_four() {
    let seg = segment(false, false, [0; 4]);
    let filter = FilterHeader {
        level: 12,
        sharpness: 4,
        ..Default::default()
    };
    let info = compute_fstrengths(&seg, &filter)[0][0];
    assert_finfo(info, 29, 5, false, 0);
}

#[test]
fn fill_top_right_lane_replicates_above_right_samples() {
    // has_top=true, is_rightmost=false: the above-right MB's bottom-left samples
    // already sit at tr..tr+4, so the lane is read verbatim and copied to rows
    // 3/7/11. Distinct values at tr-3..tr+3 make any index-arithmetic slip in the
    // `[y[tr], y[tr+1], y[tr+2], y[tr+3]]` reads observable. mb at (0,1) in a
    // 2x2-MB plane: y_stride 37, y_off 630, tr = 630-37+16 = 609.
    let mut planes = Planes::new(2, 2);
    let stride = planes.y_stride; // 37
    let y_off = 630usize;
    let tr = y_off - stride + 16; // 609
    for (i, v) in [90u8, 91, 92, 100, 101, 102, 103].into_iter().enumerate() {
        planes.y[tr - 3 + i] = v; // tr-3..=tr+3
    }
    fill_top_right_lane(&mut planes.y, y_off, stride, true, false);
    let lane = [100u8, 101, 102, 103]; // y[tr..tr+4]
    for r in [3usize, 7, 11] {
        let dst = y_off + r * stride + 16;
        assert_eq!(&planes.y[dst..dst + 4], &lane, "row {r} replica");
    }
}

#[test]
fn fill_top_right_lane_rightmost_fills_from_own_last_top_sample() {
    // has_top=true, is_rightmost=true: no above-right neighbor, so tr..tr+4 must
    // be filled with the MB's own last top sample at `y_off - stride + 15` before
    // replication. Seed that source (index 608) with 150 and tr..tr+4 with other
    // values; correct code overwrites the lane to [150;4] and replicates it.
    // Deleting the `!` on `if !has_top` skips the fill (lane stays seeded); a `+`
    // or `-` slip in the source index reads a 0/border byte instead of 150.
    let mut planes = Planes::new(2, 2);
    let stride = planes.y_stride; // 37
    let y_off = 630usize;
    let tr = y_off - stride + 16; // 609
    planes.y[y_off - stride + 15] = 150; // the unique last-top-sample source
    for (i, v) in [10u8, 11, 12, 13].into_iter().enumerate() {
        planes.y[tr + i] = v;
    }
    fill_top_right_lane(&mut planes.y, y_off, stride, true, true);
    assert_eq!(
        &planes.y[tr..tr + 4],
        &[150u8; 4],
        "lane filled from last top"
    );
    for r in [3usize, 7, 11] {
        let dst = y_off + r * stride + 16;
        assert_eq!(&planes.y[dst..dst + 4], &[150u8; 4], "row {r} replica");
    }
}

#[test]
fn crop_extracts_exact_top_left_region_from_each_plane() {
    // crop reads the real region starting at [stride + 1] (past the 1-px top/left
    // borders), row by row: row y at `(y+1)*stride + 1 .. +w`. Distinct per-cell
    // bytes make any index arithmetic (stride multiply/add, row/col offset, slice
    // end) or a stubbed body (vec![]/vec![0]/vec![1]) observable as a byte
    // mismatch. Different values per plane pin the y/u/v selection.
    let mut planes = Planes::new(1, 1);
    let ys = planes.y_stride; // 21
    let us = planes.uv_stride; // 9
    // Luma: w=3, h=2 => rows 1,2 at cols 1..4.
    for (r, base) in [10u8, 20].into_iter().enumerate() {
        let row = (r + 1) * ys;
        planes.y[row + 1] = base;
        planes.y[row + 2] = base + 1;
        planes.y[row + 3] = base + 2;
    }
    assert_eq!(planes.crop_y(3, 2), vec![10, 11, 12, 20, 21, 22]);
    // U and V share uv_stride; distinct values distinguish the two planes.
    for (r, base) in [30u8, 40].into_iter().enumerate() {
        let row = (r + 1) * us;
        planes.u[row + 1] = base;
        planes.u[row + 2] = base + 1;
    }
    assert_eq!(planes.crop_u(2, 2), vec![30, 31, 40, 41]);
    for (r, base) in [50u8, 60].into_iter().enumerate() {
        let row = (r + 1) * us;
        planes.v[row + 1] = base;
        planes.v[row + 2] = base + 1;
    }
    assert_eq!(planes.crop_v(2, 2), vec![50, 51, 60, 61]);
}
