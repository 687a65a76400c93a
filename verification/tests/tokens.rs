use webpkit::tokens::{
    Block, MbTokens, NzContext, count_mb_residuals, emit_mb_residuals, put_bmode, put_is_i4x4,
    put_segment_id, put_uvmode, put_ymode16,
};
use webpkit::bool_dec::BoolDecoder;
use webpkit::bool_enc::BoolEncoder;
use webpkit::constants::{
    B_DC_PRED, B_HD_PRED, B_HE_PRED, B_HU_PRED, B_LD_PRED, B_RD_PRED, B_TM_PRED, B_VE_PRED,
    B_VL_PRED, B_VR_PRED, BMODES_PROBA, COEFFS_PROBA_0, CoeffStats, DC_PRED, H_PRED, TM_PRED,
    V_PRED, ZIGZAG,
};
use webpkit::decode::Frame;
use webpkit::idct::transform_wht;
use webpkit::mb::read_bmode;

/// Build a block from levels given in NATURAL order (converted to zig-zag) and
/// compute `last`.
fn block_from_natural(natural: [i16; 16], first: usize) -> Block {
    let mut levels = [0i16; 16];
    let mut last = first as i32 - 1;
    for n in first..16 {
        let v = natural[ZIGZAG[n]];
        levels[n] = v;
        if v != 0 {
            last = n as i32;
        }
    }
    Block { levels, last }
}

/// A decode `Frame` primed with the given per-plane dequant steps and the
/// default coefficient probabilities, ready for `parse_residuals`.
fn primed_frame(y1: [i32; 2], y2: [i32; 2], uv: [i32; 2], is_i4x4: bool) -> Frame {
    let mut frame = Frame::test_frame(1, 1);
    frame.proba.bands = COEFFS_PROBA_0;
    frame.dqm[0].y1 = y1;
    frame.dqm[0].y2 = y2;
    frame.dqm[0].uv = uv;
    frame.mb_data[0].is_i4x4 = is_i4x4;
    frame
}

#[test]
fn i4x4_residuals_round_trip_through_the_decoder() {
    // The i4x4 path (no Y2): each luma/chroma block dequantizes directly to
    // level*dq in natural order, so the decoded coeffs equal our expected
    // reconstruction. Distinct levels across small/large/sign/zero-run cases
    // exercise put_coeffs, put_large_value and the non-zero context threading.
    let y1 = [7, 13];
    let uv = [5, 9];
    let mut luma = [Block::default(); 16];
    // Block 0: DC=-1, AC[1]=+2 (large), zero at 2, AC[3]=+1.
    luma[0] = block_from_natural([-1, 2, 0, 1, 0, 0, 0, 0, 0, 0, 0, 0, 0, 0, 0, 0], 0);
    // Block 5: a single large AC value 17 (category 3) at natural pos 1.
    luma[5] = block_from_natural([0, 17, 0, 0, 0, 0, 0, 0, 0, 0, 0, 0, 0, 0, 0, 0], 0);
    let mut chroma = [Block::default(); 8];
    // U block 0 (chroma idx 0): DC=3. V block 2 (chroma idx 6): DC=-2.
    chroma[0] = block_from_natural([3, 0, 0, 0, 0, 0, 0, 0, 0, 0, 0, 0, 0, 0, 0, 0], 0);
    chroma[6] = block_from_natural([-2, 0, 0, 0, 0, 0, 0, 0, 0, 0, 0, 0, 0, 0, 0, 0], 0);
    let mb = MbTokens {
        is_i4x4: true,
        y2: Block::default(),
        luma,
        chroma,
    };

    let mut enc = BoolEncoder::new();
    let mut ctx = NzContext::new(1);
    emit_mb_residuals(&mut enc, &COEFFS_PROBA_0, &mb, &mut ctx, 0);
    let bytes = enc.finish();

    let mut frame = primed_frame(y1, y1, uv, true);
    let mut br = BoolDecoder::new(&bytes);
    frame.parse_residuals(&mut br, 0);

    let coeffs = &frame.mb_data[0].coeffs;
    // Block 0 luma coeffs = level*dq: coeff[0]=-1*7=-7, coeff[1]=2*13=26,
    // coeff[3]=1*13=13.
    assert_eq!(coeffs[0], -7);
    assert_eq!(coeffs[1], 26);
    assert_eq!(coeffs[3], 13);
    // Block 5 luma (offset 5*16=80): coeff[1] = 17*13 = 221.
    assert_eq!(coeffs[80 + 1], 221);
    // Chroma U block 0 (offset 16*16=256): coeff[0] = 3*5 = 15.
    assert_eq!(coeffs[256], 15);
    // Chroma V block 2 (offset (20+2)*16=352): coeff[0] = -2*5 = -10.
    assert_eq!(coeffs[352], -10);
}

#[test]
fn y2_dc_only_round_trips_to_broadcast_dc() {
    // A 16×16 MB with a single Y2 DC and empty luma/chroma. The decoder takes
    // the nz==1 broadcast path: every luma DC slot = (dc[0] + 3) >> 3, where
    // dc[0] = level * y2_dc. level 1, y2_dc 50 -> (50 + 3) >> 3 = 6.
    let mut mb = MbTokens {
        is_i4x4: false,
        y2: block_from_natural([1, 0, 0, 0, 0, 0, 0, 0, 0, 0, 0, 0, 0, 0, 0, 0], 0),
        luma: [Block::default(); 16],
        chroma: [Block::default(); 8],
    };
    // Luma blocks start at first=1 (16×16 AC), and are empty here.
    for b in &mut mb.luma {
        b.last = 0; // empty AC block: last = first - 1 = 0
    }

    let mut enc = BoolEncoder::new();
    let mut ctx = NzContext::new(1);
    emit_mb_residuals(&mut enc, &COEFFS_PROBA_0, &mb, &mut ctx, 0);
    let bytes = enc.finish();

    let mut frame = primed_frame([10, 20], [50, 20], [10, 20], false);
    let mut br = BoolDecoder::new(&bytes);
    frame.parse_residuals(&mut br, 0);

    let coeffs = &frame.mb_data[0].coeffs;
    for (i, &c) in coeffs.iter().enumerate() {
        let want = if i < 256 && i % 16 == 0 { 6 } else { 0 };
        assert_eq!(c, want, "coeff[{i}]");
    }
}

#[test]
fn y2_wht_scatter_round_trips() {
    // A 16×16 MB with a multi-coefficient Y2 (nz > 1) so the decoder runs the
    // inverse WHT. The decoded luma DC slots must equal transform_wht of the
    // dequantized Y2 — computed here independently as the expected value.
    let y2_dq = [10, 4];
    let y2 = block_from_natural([1, 1, 0, 0, 0, 0, 0, 0, 0, 0, 0, 0, 0, 0, 0, 0], 0);
    let mut luma = [Block::default(); 16];
    for b in &mut luma {
        b.last = 0; // empty AC
    }
    let mb = MbTokens {
        is_i4x4: false,
        y2,
        luma,
        chroma: [Block::default(); 8],
    };

    let mut enc = BoolEncoder::new();
    let mut ctx = NzContext::new(1);
    emit_mb_residuals(&mut enc, &COEFFS_PROBA_0, &mb, &mut ctx, 0);
    let bytes = enc.finish();

    let mut frame = primed_frame([10, 20], y2_dq, [10, 20], false);
    let mut br = BoolDecoder::new(&bytes);
    frame.parse_residuals(&mut br, 0);

    // Expected: dequantized Y2 = [1*10, 1*4, 0, ...] then inverse WHT.
    let mut expected = [0i16; 384];
    let mut dc = [0i16; 16];
    dc[0] = 10;
    dc[1] = 4;
    transform_wht(dc, &mut expected);
    assert_eq!(frame.mb_data[0].coeffs, expected);
}

#[test]
fn intra_modes_round_trip_through_parse_intra_mode() {
    // Emit the 16×16 luma-type flag + a ymode + uvmode for each of the four
    // whole-block modes, and confirm the decoder's parse path recovers them.
    for &(ymode, uvmode) in &[
        (DC_PRED, DC_PRED),
        (V_PRED, H_PRED),
        (H_PRED, V_PRED),
        (TM_PRED, TM_PRED),
    ] {
        let mut enc = BoolEncoder::new();
        put_is_i4x4(&mut enc, false);
        put_ymode16(&mut enc, ymode);
        put_uvmode(&mut enc, uvmode);
        let bytes = enc.finish();

        let mut frame = Frame::test_frame(1, 1);
        let mut br = BoolDecoder::new(&bytes);
        frame.parse_intra_mode_row(&mut br);
        assert!(!frame.mb_data[0].is_i4x4, "16x16 luma-type");
        assert_eq!(frame.mb_data[0].imodes[0], ymode, "ymode");
        assert_eq!(frame.mb_data[0].uvmode, uvmode, "uvmode");
    }
}

#[test]
fn segment_ids_round_trip_through_the_decoder_tree() {
    // put_segment_id is the exact inverse of the 3-node segment-id tree
    // mb::parse_intra_mode reads: every id 0..=3, emitted against skewed tree
    // probs, must decode back to itself. A swapped branch or a wrong prob index
    // would misdecode one of the four ids.
    let probs = [200u8, 60, 140];
    for seg in 0..4u8 {
        let mut enc = BoolEncoder::new();
        put_segment_id(&mut enc, probs, seg);
        let bytes = enc.finish();
        let mut br = BoolDecoder::new(&bytes);
        let got = if br.read_bool(probs[0]) {
            2 + u8::from(br.read_bool(probs[2]))
        } else {
            u8::from(br.read_bool(probs[1]))
        };
        assert_eq!(got, seg, "segment id {seg}");
    }
}

#[test]
fn bmodes_round_trip_through_read_bmode() {
    // put_bmode is the exact inverse of mb::read_bmode: every one of the ten B
    // modes, emitted with put_bmode, must decode back to itself. Sweep a few
    // distinct kBModesProba rows so the round-trip is exercised against
    // non-trivial node probabilities (a wrong tree branch would misdecode).
    let modes = [
        B_DC_PRED, B_TM_PRED, B_VE_PRED, B_HE_PRED, B_RD_PRED, B_VR_PRED, B_LD_PRED, B_VL_PRED,
        B_HD_PRED, B_HU_PRED,
    ];
    for &(top, left) in &[(0usize, 0usize), (2, 3), (9, 5), (4, 8)] {
        let prob = BMODES_PROBA[top][left];
        for &mode in &modes {
            let mut enc = BoolEncoder::new();
            put_bmode(&mut enc, prob, mode);
            let bytes = enc.finish();
            let mut br = BoolDecoder::new(&bytes);
            let got = read_bmode(&mut br, prob);
            assert_eq!(got, mode, "mode {mode} at prob[{top}][{left}]");
        }
    }
}

fn node012_events(levels: [i16; 16], first: usize, last: i32) -> u64 {
    let mut n = first;
    let mut count = 0u64;
    loop {
        if n as i32 > last {
            count += 1; // node 0: EOB / empty
            break;
        }
        count += 1; // node 0: more
        while levels[n] == 0 {
            count += 1; // node 1: another zero
            n += 1;
        }
        count += 1; // node 1: non-zero
        count += 1; // node 2: one-vs-large
        n += 1;
        if n == 16 {
            break;
        }
    }
    count
}

#[test]
fn count_records_exactly_the_main_tree_events_emit_would_code() {
    // A 16×16-predicted MB (with a Y2 block) whose luma/chroma exercise empty
    // blocks, zero-runs, unit levels and large values. The total node-0/1/2
    // count recorded by count_mb_residuals must equal an independent per-block
    // event count summed over the identical block order.
    let y2 = block_from_natural([1, 2, 0, 3, 0, 0, 0, 0, 0, 0, 0, 0, 0, 0, 0, 0], 0);
    let mut luma = [Block::default(); 16];
    for b in &mut luma {
        b.last = 0; // empty AC (16×16 luma starts at first = 1)
    }
    luma[0] = block_from_natural([0, 5, 0, 0, 17, 0, 0, 0, 0, 0, 0, 0, 0, 0, 0, 1], 1);
    luma[7] = block_from_natural([0, 0, 0, 1, 0, 0, 0, 0, 0, 0, 0, 0, 0, 0, 0, 0], 1);
    let mut chroma = [Block::default(); 8];
    chroma[0] = block_from_natural([3, 0, 2, 0, 0, 0, 0, 0, 0, 0, 0, 0, 0, 0, 0, 0], 0);
    chroma[5] = block_from_natural([0, 0, 0, 0, 0, 0, 0, 0, 0, 0, 0, 0, 0, 0, 0, 40], 0);
    let mb = MbTokens {
        is_i4x4: false,
        y2,
        luma,
        chroma,
    };

    let mut stats = Box::<CoeffStats>::default();
    let mut ctx = NzContext::new(2);
    count_mb_residuals(&mut stats, &mb, &mut ctx, 0);

    let mut recorded = 0u64;
    for plane in stats.iter() {
        for band in plane {
            for c in band {
                for node in c {
                    recorded += node[0] + node[1];
                }
            }
        }
    }

    let mut expected = node012_events(mb.y2.levels, 0, mb.y2.last);
    for b in &mb.luma {
        expected += node012_events(b.levels, 1, b.last);
    }
    for b in &mb.chroma {
        expected += node012_events(b.levels, 0, b.last);
    }

    assert_eq!(
        recorded, expected,
        "count must record every main-tree event"
    );
    // Non-vacuity: 25 blocks means at least 25 EOB events, and the crafted
    // non-empty blocks push it well past that floor.
    assert!(
        expected > 25,
        "the crafted MB should code more than the EOB minimum"
    );
}

/// Three macroblocks with deliberately sparse, asymmetric non-zero patterns so
/// the threaded top/left context words carry many distinct bit positions: a
/// 16×16 MB with a non-empty Y2, a 16×16 MB with an EMPTY Y2 (to exercise the
/// Y2 dc-nz test), and an i4×4 MB.
fn sample_token_mbs() -> Vec<MbTokens> {
    let empty_ac = block_from_natural([0; 16], 1); // 16×16 luma: last = 0, nz = 1
    let nz_ac = block_from_natural([0, 0, 4, 0, 0, 0, 0, 0, 0, 0, 0, 0, 0, 0, 0, 0], 1);
    let dc_chroma = block_from_natural([1, 0, 0, 0, 0, 0, 0, 0, 0, 0, 0, 0, 0, 0, 0, 0], 0);

    // MB 0: 16×16, non-empty Y2, luma nz at raster {0,1,4,6,9,11,14}.
    let mut luma0 = [empty_ac; 16];
    for &i in &[0usize, 1, 4, 6, 9, 11, 14] {
        luma0[i] = nz_ac;
    }
    let mut chroma0 = [Block::default(); 8];
    for &i in &[0usize, 3, 5, 6] {
        chroma0[i] = dc_chroma;
    }
    let mb0 = MbTokens {
        is_i4x4: false,
        y2: block_from_natural([1, 2, 0, 3, 0, 0, 0, 0, 0, 0, 0, 0, 0, 0, 0, 0], 0),
        luma: luma0,
        chroma: chroma0,
    };

    // MB 1: 16×16 with an EMPTY Y2 (nz == 0) and a different nz pattern.
    let mut luma1 = [empty_ac; 16];
    for &i in &[2usize, 3, 5, 8, 12, 15] {
        luma1[i] = nz_ac;
    }
    let mut chroma1 = [Block::default(); 8];
    for &i in &[1usize, 2, 4, 7] {
        chroma1[i] = dc_chroma;
    }
    let mb1 = MbTokens {
        is_i4x4: false,
        y2: block_from_natural([0; 16], 0), // last = -1, nz = 0
        luma: luma1,
        chroma: chroma1,
    };

    // MB 2: i4×4 (no Y2, luma AC starts at 0) with yet another pattern.
    let dc_luma = block_from_natural([2, 0, 0, 0, 0, 0, 0, 0, 0, 0, 0, 0, 0, 0, 0, 0], 0);
    let mut luma2 = [Block::default(); 16];
    for &i in &[0usize, 5, 7, 10, 13] {
        luma2[i] = dc_luma;
    }
    let mut chroma2 = [Block::default(); 8];
    for &i in &[0usize, 2, 5] {
        chroma2[i] = dc_chroma;
    }
    let mb2 = MbTokens {
        is_i4x4: true,
        y2: Block::default(),
        luma: luma2,
        chroma: chroma2,
    };

    vec![mb0, mb1, mb2]
}

#[test]
fn count_threads_the_nz_context_exactly_like_emit() {
    let mbs = sample_token_mbs();

    let mut ctx_e = NzContext::new(1);
    let mut ctx_c = NzContext::new(1);
    let mut stats = Box::<CoeffStats>::default();
    let mut saw_dc_nz = false;
    for mb in &mbs {
        let mut enc = BoolEncoder::new();
        emit_mb_residuals(&mut enc, &COEFFS_PROBA_0, mb, &mut ctx_e, 0);
        count_mb_residuals(&mut stats, mb, &mut ctx_c, 0);
        assert_eq!(ctx_e.top, ctx_c.top, "top nz word");
        assert_eq!(ctx_e.top_dc, ctx_c.top_dc, "top dc-nz word");
        assert_eq!(ctx_e.left, ctx_c.left, "left nz word");
        assert_eq!(ctx_e.left_dc, ctx_c.left_dc, "left dc-nz flag");
        saw_dc_nz |= ctx_c.top_dc[0] != 0;
    }
    // Non-vacuity: the non-empty-Y2 MB must have set a Y2 dc-nz flag, and the
    // final threaded words must be non-zero (otherwise the compare is trivial).
    assert!(saw_dc_nz, "a Y2 dc-nz flag should have been set");
    assert!(
        ctx_c.top[0] != 0 && ctx_c.left != 0,
        "threaded context should carry non-zero bits"
    );
}

#[test]
fn count_attributes_node0_events_to_the_correct_nz_context_bins() {
    let dc1 = block_from_natural([1, 0, 0, 0, 0, 0, 0, 0, 0, 0, 0, 0, 0, 0, 0, 0], 0);
    let mb = MbTokens {
        is_i4x4: true,
        y2: Block::default(),
        luma: [dc1; 16],
        chroma: [dc1; 8],
    };

    // Rich, asymmetric input context: distinct bits at every offset the
    // derivation reads (luma low nibble, chroma bits 4/5 for U and 6/7 for V,
    // and — for the chroma left offset — bits 0..8 all in play).
    let mb_nz_in = 0xCAu32;
    let left_nz_in = 0x6Cu32;

    let mut stats = Box::<CoeffStats>::default();
    let mut ctx = NzContext::new(1);
    ctx.top[0] = mb_nz_in;
    ctx.left = left_nz_in;
    count_mb_residuals(&mut stats, &mb, &mut ctx, 0);

    let bit = |word: u32, i: u32| (word >> i) & 1 == 1;
    let mut expected = [[0u64; 3]; 4]; // [plane][c]
    // Luma (plane 3): 4×4 grid, top bits = mb_nz[0..4], left bits = left_nz[0..4].
    for r in 0..4u32 {
        for col in 0..4u32 {
            let top = if r == 0 { bit(mb_nz_in, col) } else { true };
            let left = if col == 0 { bit(left_nz_in, r) } else { true };
            expected[3][usize::from(top) + usize::from(left)] += 1;
        }
    }
    // Chroma (plane 2): U (ch = 0) then V (ch = 2), each a 2×2 grid. Top and
    // left bits come from mb_nz / left_nz at offset 4 + ch.
    for ch in [0u32, 2] {
        for r in 0..2u32 {
            for col in 0..2u32 {
                let top = if r == 0 {
                    bit(mb_nz_in, 4 + ch + col)
                } else {
                    true
                };
                let left = if col == 0 {
                    bit(left_nz_in, 4 + ch + r)
                } else {
                    true
                };
                expected[2][usize::from(top) + usize::from(left)] += 1;
            }
        }
    }

    for plane in [2usize, 3] {
        for c in 0..3usize {
            assert_eq!(
                stats[plane][0][c][0][1], expected[plane][c],
                "plane {plane} ctx {c} node-0 events"
            );
        }
    }
    // Non-vacuity: the interior blocks must populate the c == 2 bin in both
    // planes, so the `l + top` sum and the neighbour bits are actually exercised.
    assert!(
        expected[3][2] > 0 && expected[2][2] > 0,
        "interior blocks should reach context 2"
    );
}
