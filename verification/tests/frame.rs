use webpkit::effort::{Effort, FrameTuning};
use webpkit::emit::emit_best_partitions;
use webpkit::enc_header::HeaderParams;
use webpkit::filter_choice::{choose_filter, resolve_skip};
use webpkit::frame::{FramePlan, encode_frame, encode_frame_impl, plan_frame};
use webpkit::i4_search::{search_luma_i4x4, try_i4x4_luma};
use webpkit::mode_search::{I16X16_MODE_COST, chroma8_reconstruction_sse, chroma_lambda, i4x4_lambda, luma16_lambda, mode_available};
use webpkit::plan::{MbPlan, SearchGates};
use webpkit::planning::plan_frame_serial;
use webpkit::quant::Quantizer;
use webpkit::reconstruct::Planes;
use webpkit::residual::{QuantPlan, residual_block, sse_block};
use webpkit::segment::{assign_nearest, kmeans_segments, plan_segmentation, segment_base_qs, segment_tree_probs, tree_prob, update_centroids};
use webpkit::wavefront::{PARALLEL_MB_THRESHOLD, run_mb_planning};
use webpkit::rgb_to_yuv;
use webpkit::quant::quality_to_base_q;
use webpkit::tokens::{Block, MbTokens};
use webpkit::constants::TM_PRED;
use webpkit::rgb_to_yuv::SourceYuv;
use webpkit::bool_dec::BoolDecoder;
use webpkit::constants::{default_probas, DC_PRED, H_PRED, V_PRED};
use webpkit::decode::{decode_frame, reconstruct_to_planes, Frame};
use webpkit::frame_header::{FrameHeader, KEY_FRAME_HEADER_LEN};

const FULL_GATES: SearchGates = SearchGates {
    search_modes: true,
    uses_i4x4: false,
    uses_trellis: true,
    sns_strength: 50,
};

/// The full Balanced/Best effort: mode search, probability optimization, skip
/// coding and the in-loop filter all on.
const BALANCED: Effort = Effort::Full;

/// The Fast effort: every gate off (fixed DC prediction, default probabilities,
/// no skip coding, filter off).
const FAST: Effort = Effort::Fast;

/// Pseudo-random bytes from a seed.
fn random_bytes(seed: u64, n: usize) -> Vec<u8> {
    let mut st = seed;
    (0..n)
        .map(|_| {
            st = st.wrapping_add(0x9E37_79B9_7F4A_7C15);
            let mut z = st;
            z = (z ^ (z >> 30)).wrapping_mul(0xBF58_476D_1CE4_E5B9);
            z = (z ^ (z >> 27)).wrapping_mul(0x94D0_49BB_1331_11EB);
            (z ^ (z >> 31)) as u8
        })
        .collect()
}

/// The sum of squared differences, sample by sample.
fn sse_direct(src: &[u8], so: usize, ss: usize, pred: &[u8], po: usize, ps: usize, n: usize) -> i64 {
    let mut total = 0i64;
    for y in 0..n {
        for x in 0..n {
            let d = i64::from(src[so + y * ss + x]) - i64::from(pred[po + y * ps + x]);
            total += d * d;
        }
    }
    total
}

/// The differences of a 4x4 block, sample by sample.
fn residual_direct(src: &[u8], ss: usize, x0: usize, y0: usize, pred: &[u8], po: usize, ps: usize) -> [i16; 16] {
    let mut out = [0i16; 16];
    for y in 0..4 {
        for x in 0..4 {
            out[y * 4 + x] = i16::from(src[(y0 + y) * ss + x0 + x]) - i16::from(pred[po + y * ps + x]);
        }
    }
    out
}

#[test]
fn sse_block_matches_reference() {
    for seed in 0..256u64 {
        let r = random_bytes(seed ^ 0x5151_5151, 5);
        let size = 1 + usize::from(r[0]) % 16;
        let (src_stride, pred_stride) = (size + usize::from(r[1]) % 8, size + usize::from(r[2]) % 8);
        let (src_off, pred_off) = (usize::from(r[3]) % 32, usize::from(r[4]) % 32);
        let src = random_bytes(seed, src_off + (size - 1) * src_stride + size);
        let pred = random_bytes(!seed, pred_off + (size - 1) * pred_stride + size);
        assert_eq!(
            sse_block(&src, src_off, src_stride, &pred, pred_off, pred_stride, size),
            sse_direct(&src, src_off, src_stride, &pred, pred_off, pred_stride, size),
        );
    }
}

#[test]
fn residual_block_matches_reference() {
    for seed in 0..256u64 {
        let r = random_bytes(seed ^ 0x3131_3131, 5);
        let (src_x, src_y) = (usize::from(r[0]) % 8, usize::from(r[1]) % 8);
        let (src_stride, pred_stride) = (src_x + 4 + usize::from(r[2]) % 8, 4 + usize::from(r[3]) % 8);
        let pred_off = usize::from(r[4]) % 32;
        let src = random_bytes(seed, (src_y + 4) * src_stride);
        let pred = random_bytes(!seed, pred_off + 4 * pred_stride);
        assert_eq!(
            residual_block(&src, src_stride, src_x, src_y, &pred, pred_off, pred_stride),
            residual_direct(&src, src_stride, src_x, src_y, &pred, pred_off, pred_stride),
        );
    }
}

fn assert_wavefront_matches_serial(gates: SearchGates, w: usize, h: usize) {

    // Deterministic high-frequency source so many macroblocks pick i4x4.
    let mut rgba = vec![0u8; w * h * 4];
    let mut s: u8 = 0x11;
    for px in rgba.chunks_exact_mut(4) {
        s = s.wrapping_mul(37).wrapping_add(0x53);
        px[0] = s;
        px[1] = s.wrapping_add(40);
        px[2] = s.wrapping_add(80);
        px[3] = 255;
    }
    let src = rgb_to_yuv::from_rgba(&rgba, w, h);
    let (mb_w, mb_h) = (src.mb_w, src.mb_h);
    assert!(
        mb_w * mb_h >= PARALLEL_MB_THRESHOLD,
        "{w}x{h} must exercise the parallel path"
    );
    let seg = plan_segmentation(&src, 40, true, FrameTuning::auto());
    let quants = seg.base_q.map(Quantizer::new);

    let mut wave_planes = Planes::new(mb_w, mb_h);
    let par_result = run_mb_planning(
        &mut wave_planes,
        &src,
        &seg.seg_ids,
        &quants,
        gates,
        &default_probas(),
    );
    let mut serial_planes = Planes::new(mb_w, mb_h);
    let ser_result = plan_frame_serial(
        &mut serial_planes,
        &src,
        &seg.seg_ids,
        &quants,
        gates,
        &default_probas(),
    );

    let region = |plane: &[u8], stride: usize, rows: usize, cols: usize| -> Vec<u8> {
        let mut out = Vec::with_capacity(rows * cols);
        for r in 0..rows {
            let base = (r + 1) * stride + 1;
            out.extend_from_slice(&plane[base..base + cols]);
        }
        out
    };
    let ys = wave_planes.y_stride;
    let uvs = wave_planes.uv_stride;
    assert_eq!(
        region(&wave_planes.y, ys, mb_h * 16, mb_w * 16),
        region(&serial_planes.y, ys, mb_h * 16, mb_w * 16),
        "luma image {w}x{h}"
    );
    assert_eq!(
        region(&wave_planes.u, uvs, mb_h * 8, mb_w * 8),
        region(&serial_planes.u, uvs, mb_h * 8, mb_w * 8),
        "u image {w}x{h}"
    );
    assert_eq!(
        region(&wave_planes.v, uvs, mb_h * 8, mb_w * 8),
        region(&serial_planes.v, uvs, mb_h * 8, mb_w * 8),
        "v image {w}x{h}"
    );
    assert_eq!(par_result.len(), ser_result.len());
    for (i, (a, b)) in par_result.iter().zip(&ser_result).enumerate() {
        let key = |p: &MbPlan| {
            (
                p.ymode,
                p.uvmode,
                p.is_i4x4,
                p.skippable,
                p.has_residual,
                p.segment,
                p.imodes,
            )
        };
        assert_eq!(
            key(a),
            key(b),
            "MbPlan scalars diverge at MB {i} of {w}x{h}"
        );
    }
}

#[test]
fn wavefront_planner_matches_serial_byte_for_byte() {
    let best = SearchGates {
        search_modes: true,
        uses_i4x4: true,
        uses_trellis: true,
        sns_strength: 50,
    };
    let balanced = SearchGates {
        search_modes: true,
        uses_i4x4: false,
        uses_trellis: true,
        sns_strength: 50,
    };
    for &gates in &[best, balanced] {
        for &(w, h) in &[(256usize, 256usize), (272, 256), (256, 272), (512, 256)] {
            assert_wavefront_matches_serial(gates, w, h);
        }
    }
}

fn decoded_mb_modes(payload: &[u8]) -> (usize, usize, Vec<(u8, u8)>) {
    let fh = FrameHeader::parse_key_frame(payload).unwrap();
    let mut frame = Frame::new(fh).unwrap();
    let after_header = &payload[KEY_FRAME_HEADER_LEN..];
    let part0_len = usize::try_from(fh.first_partition_size).unwrap();
    let part0 = &after_header[..part0_len];
    let after_part0 = &after_header[part0_len..];

    let mut br = BoolDecoder::new(part0);
    frame.parse_headers(&mut br);
    frame.parse_partitions(&mut br, after_part0).unwrap();
    frame.parse_quant(&mut br);
    let _update_proba = br.read_flag();
    frame.parse_proba(&mut br);

    let (mb_w, mb_h) = (frame.mb_w, frame.mb_h);
    let mut modes = Vec::with_capacity(mb_w * mb_h);
    for _mb_y in 0..mb_h {
        frame.parse_intra_mode_row(&mut br);
        for mb_x in 0..mb_w {
            let d = &frame.mb_data[mb_x];
            modes.push((d.imodes[0], d.uvmode));
        }
        frame.init_scanline();
    }
    (mb_w, mb_h, modes)
}

/// The in-loop filter level the encoder emitted, recovered by parsing the
/// control-partition filter header (inverse of `header::parse_filter_header`).
fn decoded_filter_level(payload: &[u8]) -> i32 {
    let fh = FrameHeader::parse_key_frame(payload).unwrap();
    let mut frame = Frame::new(fh).unwrap();
    let part0_len = usize::try_from(fh.first_partition_size).unwrap();
    let part0 = &payload[KEY_FRAME_HEADER_LEN..KEY_FRAME_HEADER_LEN + part0_len];
    let mut br = BoolDecoder::new(part0);
    frame.parse_headers(&mut br);
    frame.filter.level
}

/// A `width`×`height` RGBA test image from a deterministic pattern.
fn image(width: usize, height: usize, f: impl Fn(usize, usize) -> [u8; 3]) -> Vec<u8> {
    let mut buf = Vec::with_capacity(width * height * 4);
    for y in 0..height {
        for x in 0..width {
            let [r, g, b] = f(x, y);
            buf.extend_from_slice(&[r, g, b, 0xff]);
        }
    }
    buf
}

fn assert_self_consistent(rgba: &[u8], w: usize, h: usize, base_q: i32) {
    let (payload, enc_planes) =
        encode_frame_impl(rgba, w, h, base_q, BALANCED, FrameTuning::auto());
    let (dec_planes, dw, dh) = reconstruct_to_planes(&payload).unwrap();
    assert_eq!((dw, dh), (w, h), "dimensions");
    assert_eq!(enc_planes.y, dec_planes.y, "luma plane mismatch");
    assert_eq!(enc_planes.u, dec_planes.u, "U plane mismatch");
    assert_eq!(enc_planes.v, dec_planes.v, "V plane mismatch");
}

/// Self-consistency under an explicit [`FrameTuning`] (the seam the public
/// psychovisual knobs thread through): the decoder re-derives every per-segment
/// quantizer and filter-strength delta from the emitted header, so
/// `decode(encode) == reconstruction` must hold for any knob setting.
fn assert_self_consistent_tuned(
    rgba: &[u8],
    w: usize,
    h: usize,
    base_q: i32,
    effort: Effort,
    tuning: FrameTuning,
) {
    let (payload, enc) = encode_frame_impl(rgba, w, h, base_q, effort, tuning);
    let (dec, dw, dh) = reconstruct_to_planes(&payload).unwrap();
    let ctx = format!(
        "q{base_q} {effort:?} sns{} seg{} f{} sharp{}",
        tuning.sns_strength, tuning.segments, tuning.filter_strength, tuning.filter_sharpness
    );
    assert_eq!((dw, dh), (w, h), "dimensions [{ctx}]");
    assert_eq!(enc.y_stride, dec.y_stride, "luma stride [{ctx}]");
    let stride = enc.y_stride;
    let real_cols = 1 + w.div_ceil(16) * 16;
    for (i, (&a, &b)) in enc.y.iter().zip(&dec.y).enumerate() {
        if i % stride < real_cols {
            assert_eq!(
                a,
                b,
                "luma mismatch at row {}, col {} [{ctx}]",
                i / stride,
                i % stride
            );
        }
    }
    assert_eq!(enc.u, dec.u, "U plane mismatch [{ctx}]");
    assert_eq!(enc.v, dec.v, "V plane mismatch [{ctx}]");
}

fn split_activity_image(w: usize, h: usize) -> Vec<u8> {
    image(w, h, |x, _| {
        if x < w / 2 {
            [96, 128, 160]
        } else if x % 2 == 0 {
            [20, 20, 20]
        } else {
            [235, 235, 235]
        }
    })
}

#[test]
fn every_knob_setting_stays_self_consistent() {
    // Sweep each active psychovisual knob across its full range (plus two combined
    // extremes) at both Full and Best on multi-activity content, asserting
    // decode-of-output equals the encoder's own reconstruction for all of them.
    // Segmentation and the per-segment filter only engage when the content and the
    // knobs allow, but self-consistency must hold either way.
    let (w, h) = (48usize, 48usize);
    let rgba = split_activity_image(w, h);
    let base = FrameTuning::auto();
    let mut tunings = Vec::new();
    for &sns_strength in &[0u8, 25, 50, 75, 100] {
        tunings.push(FrameTuning {
            sns_strength,
            ..base
        });
    }
    for &segments in &[1u8, 2, 3, 4] {
        tunings.push(FrameTuning { segments, ..base });
    }
    for &filter_strength in &[0u8, 20, 40, 60, 80, 100] {
        tunings.push(FrameTuning {
            filter_strength,
            ..base
        });
    }
    for &filter_sharpness in &[0u8, 1, 3, 5, 7] {
        tunings.push(FrameTuning {
            filter_sharpness,
            ..base
        });
    }
    tunings.push(FrameTuning {
        sharp_yuv: true,
        ..base
    });
    tunings.push(FrameTuning {
        sns_strength: 100,
        segments: 4,
        filter_strength: 100,
        filter_sharpness: 7,
        sharp_yuv: true,
        passes: 1,
    });
    tunings.push(FrameTuning {
        sns_strength: 80,
        segments: 3,
        filter_strength: 30,
        filter_sharpness: 2,
        sharp_yuv: false,
        passes: 1,
    });
    for tuning in tunings {
        for &effort in &[Effort::Full, Effort::Best] {
            for &q in &[20i32, 70] {
                assert_self_consistent_tuned(&rgba, w, h, q, effort, tuning);
            }
        }
    }
}

#[test]
fn filter_strength_knob_moves_the_emitted_filter_level() {
    // The filter-strength knob drives the emitted in-loop filter level: 0 disables
    // it, a non-zero knob emits a filter, and a stronger knob raises the level the
    // decoder re-derives — the knob is wired to the bitstream, not inert.
    let (w, h) = (48usize, 48usize);
    let rgba = split_activity_image(w, h);
    let level = |fs: u8| {
        let tuning = FrameTuning {
            filter_strength: fs,
            ..FrameTuning::auto()
        };
        decoded_filter_level(&encode_frame_impl(&rgba, w, h, 40, BALANCED, tuning).0)
    };
    assert_eq!(level(0), 0, "filter_strength 0 disables the loop filter");
    assert!(level(20) > 0, "a non-zero filter knob emits a filter");
    assert!(
        level(100) > level(20),
        "a stronger filter knob raises the level"
    );
}

#[test]
fn sns_strength_knob_changes_the_encoded_stream() {
    // On multi-activity content the SNS knob engages both segmentation and the
    // perceptual mode decision, so strength 0 (single segment, plain SSE) and a
    // high strength must yield different bytes, and both stay self-consistent.
    let (w, h) = (48usize, 48usize);
    let rgba = split_activity_image(w, h);
    let encode = |sns: u8| {
        let tuning = FrameTuning {
            sns_strength: sns,
            ..FrameTuning::auto()
        };
        encode_frame_impl(&rgba, w, h, 40, BALANCED, tuning).0
    };
    assert_ne!(
        encode(0),
        encode(100),
        "the SNS knob must change the stream"
    );
    assert_self_consistent_tuned(
        &rgba,
        w,
        h,
        40,
        BALANCED,
        FrameTuning {
            sns_strength: 100,
            ..FrameTuning::auto()
        },
    );
}

#[test]
fn solid_color_is_self_consistent() {
    // The de-risking spike: a solid 16×16 block (DC-only residual) must decode
    // back to the encoder's reconstruction.
    for &q in &[0, 32, 64, 100, 127] {
        let rgba = image(16, 16, |_, _| [80, 160, 40]);
        assert_self_consistent(&rgba, 16, 16, q);
    }
}

#[test]
fn flat_image_uses_skip_and_stays_self_consistent() {
    // A solid color: every interior macroblock predicts perfectly from its
    // reconstructed neighbors, so its residual quantizes to all-zero and the
    // block is skippable. Balanced must therefore code per-macroblock skip
    // (nb_skip > 0, use_skip true), and decoding that skip-using stream must
    // still equal the encoder's own reconstruction byte for byte — the exact
    // context evolution `skip_mb` writes has to match the decoder's
    // `skip_residuals` or the following macroblocks would desync.
    let (w, h) = (64usize, 64usize);
    let rgba = image(w, h, |_, _| [120, 90, 200]);
    let base_q = 40;

    let FramePlan {
        plans: mb_plans,
        mb_w,
        mb_h,
        ..
    } = plan_frame(
        &rgba,
        w,
        h,
        base_q,
        FULL_GATES,
        true,
        FrameTuning::auto(),
        &default_probas(),
    );
    let nb_skip = mb_plans.iter().filter(|p| p.skippable).count();
    assert!(
        nb_skip > 0,
        "a flat image should have skippable macroblocks"
    );
    let skip = resolve_skip(&mb_plans, mb_w * mb_h, true);
    assert!(
        skip.use_skip,
        "enough skippable macroblocks should enable use_skip"
    );

    assert_self_consistent(&rgba, w, h, base_q);
}

#[test]
fn gradient_is_self_consistent() {
    // A smooth gradient exercises real AC coefficients and the Y2 path.
    let rgba = image(48, 32, |x, y| {
        let r = (x * 5) as u8;
        let g = (y * 7) as u8;
        let b = ((x + y) * 3) as u8;
        [r, g, b]
    });
    for &q in &[8, 40, 96] {
        assert_self_consistent(&rgba, 48, 32, q);
    }
}

#[test]
fn odd_dimensions_are_self_consistent() {
    // A 17×13 picture (partial edge macroblocks, edge-replicated source).
    let rgba = image(17, 13, |x, y| [(x * 13) as u8, (y * 17) as u8, 128]);
    assert_self_consistent(&rgba, 17, 13, 40);
}

#[test]
fn high_contrast_is_self_consistent() {
    let rgba = image(32, 32, |x, y| {
        if (x / 4 + y / 4) % 2 == 0 {
            [255, 255, 255]
        } else {
            [0, 0, 0]
        }
    });
    assert_self_consistent(&rgba, 32, 32, 20);
}

#[test]
fn blocky_image_filters_and_stays_self_consistent() {
    let (w, h) = (48usize, 48usize);
    let rgba = image(w, h, |x, y| {
        if (x / 4 + y / 4) % 2 == 0 {
            [20, 20, 20]
        } else {
            [220, 220, 220]
        }
    });
    let base_q = 40; // level = 40 * 3 / 8 = 15 > 0
    let (payload, _enc) = encode_frame_impl(&rgba, w, h, base_q, BALANCED, FrameTuning::auto());
    assert!(
        decoded_filter_level(&payload) > 0,
        "Balanced must enable the loop filter on blocky content"
    );
    assert_self_consistent(&rgba, w, h, base_q);
}

#[test]
fn fast_emits_filter_level_zero() {
    let (w, h) = (48usize, 48usize);
    let rgba = image(w, h, |x, y| {
        if (x / 4 + y / 4) % 2 == 0 {
            [20, 20, 20]
        } else {
            [220, 220, 220]
        }
    });
    let payload = encode_frame(&rgba, w, h, 40, FAST);
    assert_eq!(
        decoded_filter_level(&payload),
        0,
        "Fast must emit filter level 0"
    );
}

#[test]
fn output_decodes_to_the_right_dimensions() {
    // The wrapped payload decodes through the public image path with correct
    // dimensions and full opacity.
    let rgba = image(24, 20, |x, y| [(x * 10) as u8, (y * 12) as u8, 64]);
    let payload = encode_frame(&rgba, 24, 20, 40, BALANCED);
    let image = decode_frame(&payload).unwrap();
    assert_eq!((image.width(), image.height()), (24, 20));
    assert_eq!(image.as_bytes().len(), 24 * 20 * 4);
}

#[test]
fn encoding_is_deterministic() {
    let rgba = image(32, 24, |x, y| [(x * 8) as u8, (y * 9) as u8, (x ^ y) as u8]);
    let a = encode_frame(&rgba, 32, 24, 50, BALANCED);
    let b = encode_frame(&rgba, 32, 24, 50, BALANCED);
    assert_eq!(a, b, "identical inputs must produce identical bytes");
}

#[test]
fn horizontal_source_selects_horizontal_prediction() {
    let rgba = image(48, 48, |_x, y| {
        [(y * 7) as u8, (y * 3 + 20) as u8, (y * 11) as u8]
    });
    let payload = encode_frame(&rgba, 48, 48, 16, BALANCED);
    let (mb_w, mb_h, modes) = decoded_mb_modes(&payload);
    assert!(mb_w >= 2 && mb_h >= 2, "test needs an interior macroblock");
    for mb_y in 0..mb_h {
        for mb_x in 0..mb_w {
            let (ymode, uvmode) = modes[mb_y * mb_w + mb_x];
            if mb_x == 0 {
                // No left neighbor → H unavailable, DC wins.
                assert_eq!(ymode, DC_PRED, "left-edge luma at ({mb_x},{mb_y})");
                assert_eq!(uvmode, DC_PRED, "left-edge chroma at ({mb_x},{mb_y})");
            } else {
                assert_eq!(ymode, H_PRED, "luma at ({mb_x},{mb_y})");
                assert_eq!(uvmode, H_PRED, "chroma at ({mb_x},{mb_y})");
            }
        }
    }
}

#[test]
fn vertical_source_selects_vertical_prediction() {
    let rgba = image(48, 48, |x, _y| {
        [(x * 7) as u8, (x * 3 + 20) as u8, (x * 11) as u8]
    });
    let payload = encode_frame(&rgba, 48, 48, 16, BALANCED);
    let (mb_w, mb_h, modes) = decoded_mb_modes(&payload);
    assert!(mb_w >= 2 && mb_h >= 2, "test needs an interior macroblock");
    for mb_y in 0..mb_h {
        for mb_x in 0..mb_w {
            let (ymode, uvmode) = modes[mb_y * mb_w + mb_x];
            if mb_y == 0 {
                // No top neighbor → V unavailable, DC wins.
                assert_eq!(ymode, DC_PRED, "top-edge luma at ({mb_x},{mb_y})");
                assert_eq!(uvmode, DC_PRED, "top-edge chroma at ({mb_x},{mb_y})");
            } else {
                assert_eq!(ymode, V_PRED, "luma at ({mb_x},{mb_y})");
                assert_eq!(uvmode, V_PRED, "chroma at ({mb_x},{mb_y})");
            }
        }
    }
}

#[test]
fn fast_skips_mode_search_and_is_self_consistent() {
    // The same directional content the horizontal test feeds the search: rows
    // differ, columns match, so Balanced would pick H_PRED for every interior
    // block. The fast path (search_modes = false) must instead fix DC_PRED
    // everywhere — proving it skipped the search — and its stream (also emitting
    // the default probability table, optimize_probas = false) must still decode
    // back to the encoder's own reconstruction, byte for byte. Fast also codes
    // the filter off (apply_filter = false), so the reconstruction is unfiltered.
    let rgba = image(48, 48, |_x, y| {
        [(y * 7) as u8, (y * 3 + 20) as u8, (y * 11) as u8]
    });
    let (payload, enc_planes) = encode_frame_impl(&rgba, 48, 48, 16, FAST, FrameTuning::auto());

    let (dec_planes, dw, dh) = reconstruct_to_planes(&payload).unwrap();
    assert_eq!((dw, dh), (48, 48), "dimensions");
    assert_eq!(enc_planes.y, dec_planes.y, "luma plane mismatch");
    assert_eq!(enc_planes.u, dec_planes.u, "U plane mismatch");
    assert_eq!(enc_planes.v, dec_planes.v, "V plane mismatch");

    let (mb_w, mb_h, modes) = decoded_mb_modes(&payload);
    assert!(mb_w >= 2 && mb_h >= 2, "test needs an interior macroblock");
    for mb_y in 0..mb_h {
        for mb_x in 0..mb_w {
            let (ymode, uvmode) = modes[mb_y * mb_w + mb_x];
            assert_eq!(ymode, DC_PRED, "fast luma at ({mb_x},{mb_y}) is not DC");
            assert_eq!(uvmode, DC_PRED, "fast chroma at ({mb_x},{mb_y}) is not DC");
        }
    }
}

/// Encode `rgba` at `base_q` and return `(default_total, optimized_total)`: the
/// full payload byte counts of the default-probability and optimized-probability
/// candidates. The encoder emits the smaller; exposing both lets a test prove the
/// optimizer never grows the frame.
fn frame_size_totals(rgba: &[u8], width: usize, height: usize, base_q: i32) -> (usize, usize) {
    let FramePlan {
        plans: mb_plans,
        mb_w,
        mb_h,
        seg_params: seg,
        ..
    } = plan_frame(
        rgba,
        width,
        height,
        base_q,
        FULL_GATES,
        true,
        FrameTuning::auto(),
        &default_probas(),
    );
    let skip = resolve_skip(&mb_plans, mb_w * mb_h, true);
    let filter = choose_filter(base_q, true, 60, 0);
    let header = HeaderParams {
        base_q,
        filter: &filter,
        segments: seg,
    };
    let (_part0, _token, default_total, optimized_total, _probas) =
        emit_best_partitions(&mb_plans, mb_w, mb_h, header, skip);
    (
        default_total + KEY_FRAME_HEADER_LEN,
        optimized_total + KEY_FRAME_HEADER_LEN,
    )
}

/// Deterministic integer pseudo-noise RGBA — high-AC content that produces many
/// non-zero coefficient tokens, the regime where an optimized probability table
/// pays for its transmission.
fn noisy_image(width: usize, height: usize) -> Vec<u8> {
    image(width, height, |x, y| {
        let mut s = (x as u32)
            .wrapping_mul(2_654_435_761)
            .wrapping_add((y as u32).wrapping_mul(40_503))
            .wrapping_add(0x9e37_79b9);
        s ^= s >> 13;
        s = s.wrapping_mul(0x85eb_ca6b);
        s ^= s >> 16;
        [
            (s & 0xff) as u8,
            ((s >> 8) & 0xff) as u8,
            ((s >> 16) & 0xff) as u8,
        ]
    })
}

fn decoded_i4x4_flags(payload: &[u8]) -> (usize, usize, Vec<bool>) {
    let fh = FrameHeader::parse_key_frame(payload).unwrap();
    let mut frame = Frame::new(fh).unwrap();
    let after_header = &payload[KEY_FRAME_HEADER_LEN..];
    let part0_len = usize::try_from(fh.first_partition_size).unwrap();
    let part0 = &after_header[..part0_len];
    let after_part0 = &after_header[part0_len..];
    let mut br = BoolDecoder::new(part0);
    frame.parse_headers(&mut br);
    frame.parse_partitions(&mut br, after_part0).unwrap();
    frame.parse_quant(&mut br);
    let _u = br.read_flag();
    frame.parse_proba(&mut br);
    let (mb_w, mb_h) = (frame.mb_w, frame.mb_h);
    let mut flags = Vec::with_capacity(mb_w * mb_h);
    for _ in 0..mb_h {
        frame.parse_intra_mode_row(&mut br);
        for mb_x in 0..mb_w {
            flags.push(frame.mb_data[mb_x].is_i4x4);
        }
        frame.init_scanline();
    }
    (mb_w, mb_h, flags)
}

/// Best-effort self-consistency: decode-of-output must equal the encoder's own
/// post-filter reconstruction, exercising the i4x4 luma path.
///
/// Every real luma sample (plus the left/top borders and all interior macroblock
/// boundaries) must match byte for byte; the four-column right scratch margin —
/// which lies *beyond* the frame width, is never part of the decoded image, and
/// is never read for prediction or filtering — is excluded, since the i4x4
/// top-right-lane setup may leave it in a different (harmless) state between a
/// losing candidate evaluation and the decoder's reconstruction. Chroma has no
/// such margin (`uv_stride = 1 + mb_w*8`), so both planes are compared in full.
fn assert_self_consistent_best(rgba: &[u8], w: usize, h: usize, base_q: i32) {
    let (payload, enc) = encode_frame_impl(rgba, w, h, base_q, Effort::Best, FrameTuning::auto());
    let (dec, dw, dh) = reconstruct_to_planes(&payload).unwrap();
    assert_eq!((dw, dh), (w, h), "dimensions");
    assert_eq!(enc.y_stride, dec.y_stride, "luma stride");
    let stride = enc.y_stride;
    let mb_w = w.div_ceil(16);
    let real_cols = 1 + mb_w * 16; // left border + luma width (excludes the +4 margin)
    for (i, (&a, &b)) in enc.y.iter().zip(&dec.y).enumerate() {
        if i % stride < real_cols {
            assert_eq!(
                a,
                b,
                "luma mismatch at row {}, col {}",
                i / stride,
                i % stride
            );
        }
    }
    assert_eq!(enc.u, dec.u, "U plane mismatch");
    assert_eq!(enc.v, dec.v, "V plane mismatch");
}

fn stripe_image(w: usize, h: usize) -> Vec<u8> {
    image(w, h, |x, _| {
        if (x / 2) % 2 == 0 {
            [220, 220, 220]
        } else {
            [20, 20, 20]
        }
    })
}

#[test]
fn best_uses_i4x4_on_detailed_content_and_stays_self_consistent() {
    // Best must code at least one i4x4 macroblock on detailed content (non-vacuity
    // for the whole feature), and decoding that i4x4-using stream must still equal
    // the encoder's own reconstruction byte for byte — pinning the intra_t/intra_l
    // context threading and the first=0 (no-Y2) token path end to end.
    let (w, h) = (64usize, 64usize);
    let rgba = stripe_image(w, h);
    let base_q = 40;
    let payload = encode_frame(&rgba, w, h, base_q, Effort::Best);
    let (_mw, _mh, flags) = decoded_i4x4_flags(&payload);
    assert!(
        flags.iter().any(|&f| f),
        "Best must code at least one i4x4 macroblock on detailed content"
    );
    assert_self_consistent_best(&rgba, w, h, base_q);
}

#[test]
fn best_mixed_i4x4_and_16x16_stays_self_consistent() {
    // A frame with a flat left half (stays 16×16) and detailed stripes on the right
    // (goes i4x4) mixes both macroblock kinds, exercising the mode-context threading
    // across the 16×16→i4x4 and i4x4→16×16 boundaries in one frame.
    let (w, h) = (64usize, 48usize);
    let rgba = image(w, h, |x, _| {
        if x < 32 {
            [100, 100, 100]
        } else if (x / 2) % 2 == 0 {
            [220, 220, 220]
        } else {
            [20, 20, 20]
        }
    });
    let base_q = 40;
    let payload = encode_frame(&rgba, w, h, base_q, Effort::Best);
    let (_mw, _mh, flags) = decoded_i4x4_flags(&payload);
    assert!(
        flags.iter().any(|&f| f),
        "the detailed half should use some i4x4"
    );
    assert!(
        flags.iter().any(|&f| !f),
        "the flat half should keep some 16×16"
    );
    assert_self_consistent_best(&rgba, w, h, base_q);
}

#[test]
fn best_i4x4_is_self_consistent_across_qualities_and_dimensions() {
    // The i4x4 path must stay self-consistent over a spread of quantizers and at
    // odd dimensions (partial edge macroblocks, edge-replicated source).
    for &q in &[8, 30, 64, 100] {
        assert_self_consistent_best(&stripe_image(48, 48), 48, 48, q);
    }
    assert_self_consistent_best(&stripe_image(17, 13), 17, 13, 40);
    assert_self_consistent_best(&stripe_image(16, 16), 16, 16, 40);
}

fn diagonal_image(w: usize, h: usize) -> Vec<u8> {
    image(w, h, |x, y| {
        let v = u8::try_from(120 + ((x + y) / 4) % 5 * 16).unwrap_or(120);
        [v, v, v]
    })
}

#[test]
fn best_i4x4_stays_self_consistent_with_the_loop_filter_on() {
    let (w, h) = (96usize, 96usize);
    let rgba = diagonal_image(w, h);
    let mut saw_i4x4 = false;
    for &q in &[80, 100, 110, 120, 127] {
        let payload = encode_frame(&rgba, w, h, q, Effort::Best);
        let (_mw, _mh, flags) = decoded_i4x4_flags(&payload);
        saw_i4x4 |= flags.iter().any(|&f| f);
        assert_self_consistent_best(&rgba, w, h, q);
    }
    assert!(
        saw_i4x4,
        "diagonal content should code some i4x4 macroblock"
    );
}

#[test]
fn rd_mode_decision_is_self_consistent_on_varied_content() {
    let photo = photo96(96, 96);
    let noisy = noisy96(96, 96);
    for &bq in &[8, 40, 96] {
        assert_self_consistent(&photo, 96, 96, bq);
        assert_self_consistent(&noisy, 96, 96, bq);
    }
}

#[test]
fn rd_mode_decision_selects_a_non_dc_mode_somewhere() {
    // Non-vacuity for the RD search: on directional/banded photo content some
    // interior macroblock must pick a non-DC 16×16 luma mode (the RD score beats
    // the availability-safe DC fallback). A search wired to always return DC — or
    // one whose distortion/rate were wrongly scaled so DC always won — would fail here.
    let rgba = photo96(96, 96);
    let payload = encode_frame(&rgba, 96, 96, 40, BALANCED);
    let (_mw, _mh, modes) = decoded_mb_modes(&payload);
    assert!(
        modes.iter().any(|&(ymode, _uv)| ymode != DC_PRED),
        "the RD mode search should pick a non-DC luma mode on banded photo content"
    );
}

#[test]
fn balanced_never_uses_i4x4_on_detailed_content() {
    let (w, h) = (64usize, 64usize);
    let rgba = stripe_image(w, h);
    let payload = encode_frame(&rgba, w, h, 40, Effort::Full);
    let (_mw, _mh, flags) = decoded_i4x4_flags(&payload);
    assert!(flags.iter().all(|&f| !f), "Balanced must never code i4x4");
}

#[test]
fn balanced_output_is_unchanged_by_the_i4x4_feature() {
    // A direct byte-for-byte guard that adding i4x4 (Best-only) did not perturb
    // Balanced: the Full-tier encode of detailed content is identical whether or
    // not the i4x4 gate exists, because Full never sets uses_i4x4. Encoding twice
    // must be deterministic AND contain no i4x4 macroblock.
    let (w, h) = (48usize, 48usize);
    let rgba = stripe_image(w, h);
    let a = encode_frame(&rgba, w, h, 40, Effort::Full);
    let b = encode_frame(&rgba, w, h, 40, Effort::Full);
    assert_eq!(a, b, "Balanced must be deterministic");
    let (_mw, _mh, flags) = decoded_i4x4_flags(&a);
    assert!(flags.iter().all(|&f| !f), "Balanced carries no i4x4");
}

#[test]
fn best_is_deterministic() {
    // The i4x4 search + RD decision must be fully deterministic per (quality).
    let rgba = stripe_image(48, 48);
    let a = encode_frame(&rgba, 48, 48, 50, Effort::Best);
    let b = encode_frame(&rgba, 48, 48, 50, Effort::Best);
    assert_eq!(
        a, b,
        "Best must produce identical bytes for identical input"
    );
}

fn chosen_total(rgba: &[u8], w: usize, h: usize, base_q: i32, uses_trellis: bool) -> usize {
    let gates = SearchGates {
        search_modes: true,
        uses_i4x4: false,
        uses_trellis,
        sns_strength: 50,
    };
    let FramePlan {
        plans: mb_plans,
        mb_w,
        mb_h,
        seg_params: seg,
        ..
    } = plan_frame(
        rgba,
        w,
        h,
        base_q,
        gates,
        true,
        FrameTuning::auto(),
        &default_probas(),
    );
    let skip = resolve_skip(&mb_plans, mb_w * mb_h, true);
    let filter = choose_filter(base_q, true, 60, 0);
    let header = HeaderParams {
        base_q,
        filter: &filter,
        segments: seg,
    };
    let (_p0, _t, d, o, _probas) = emit_best_partitions(&mb_plans, mb_w, mb_h, header, skip);
    KEY_FRAME_HEADER_LEN + d.min(o)
}

fn noisy96(w: usize, h: usize) -> Vec<u8> {
    image(w, h, |x, y| {
        let n = (x
            .wrapping_mul(2_654_435_761)
            .wrapping_add(y.wrapping_mul(40_503)))
            >> 8;
        [
            (n & 0xff) as u8,
            ((n >> 3) & 0xff) as u8,
            ((x ^ y) * 3) as u8,
        ]
    })
}

fn photo96(w: usize, h: usize) -> Vec<u8> {
    image(w, h, |x, y| {
        let band = i32::try_from(x / 8 % 3).unwrap_or(0);
        let r = u8::try_from(128 + 40 * band - 30).unwrap_or(0);
        [r, (x * 2 + y) as u8, (200 - y) as u8]
    })
}

#[test]
fn trellis_shrinks_ac_rich_and_photo_frames() {
    let photo = photo96(96, 96);
    let noisy = noisy96(96, 96);
    for &qual in &[50u8, 75, 90] {
        let bq = quality_to_base_q(qual);
        for (name, rgba) in [("photo", &photo), ("noisy", &noisy)] {
            let before = chosen_total(rgba, 96, 96, bq, false);
            let after = chosen_total(rgba, 96, 96, bq, true);
            assert!(
                after < before,
                "{name} q{qual}: trellis {after} did not shrink round-to-nearest {before}"
            );
        }
    }
}

#[test]
fn probability_optimization_never_grows_and_shrinks_ac_rich_frames() {
    // Keep-smaller guarantees optimized_total <= default_total for ANY image;
    // an AC-rich noisy frame (many coefficient tokens) must shrink STRICTLY.
    let grad = image(64, 64, |x, y| {
        [(x * 4) as u8, (y * 4) as u8, ((x + y) * 2) as u8]
    });
    let noisy = noisy_image(64, 64);
    let photo = image(96, 96, |x, y| {
        [(x * 2 + y) as u8, (128 + x + y) as u8, (x + y * 3) as u8]
    });
    let cases: [(&[u8], usize, usize); 3] =
        [(&grad, 64, 64), (&noisy, 64, 64), (&photo, 96, 96)];
    for &base_q in &[40i32, 75, 90] {
        for &(rgba, w, h) in &cases {
            let (default_total, optimized_total) = frame_size_totals(rgba, w, h, base_q);
            assert!(
                optimized_total <= default_total,
                "q{base_q} {w}x{h}: optimized {optimized_total} > default {default_total}"
            );
        }
    }

    // The AC-rich frame must be strictly smaller with the optimized table.
    let (default_total, optimized_total) = frame_size_totals(&noisy, 64, 64, 40);
    assert!(
        optimized_total < default_total,
        "AC-rich frame did not shrink: optimized {optimized_total} !< default {default_total}"
    );
}

/// A mixed-complexity image: a flat gray left half and a high-frequency
/// pseudo-noise right half — the two regions the encoder must split into
/// distinct quantizer segments (flat keeps fine quant, busy takes coarser).
fn mixed_image(w: usize, h: usize) -> Vec<u8> {
    image(w, h, |x, y| {
        if x < w / 2 {
            [96, 96, 96]
        } else {
            let mut s = (x as u32)
                .wrapping_mul(2_654_435_761)
                .wrapping_add((y as u32).wrapping_mul(40_503))
                .wrapping_add(0x9e37_79b9);
            s ^= s >> 13;
            s = s.wrapping_mul(0x85eb_ca6b);
            s ^= s >> 16;
            [
                (s & 0xff) as u8,
                ((s >> 8) & 0xff) as u8,
                ((s >> 16) & 0xff) as u8,
            ]
        }
    })
}

/// Parse `payload` far enough to recover whether the frame codes segmentation
/// and every macroblock's decoded segment id (raster order), mirroring the
/// control-partition parse in `reconstruct_to_planes` but collecting the
/// per-macroblock `segment` field the segment-id tree fills.
fn decoded_segments(payload: &[u8]) -> (bool, Vec<u8>) {
    let fh = FrameHeader::parse_key_frame(payload).unwrap();
    let mut frame = Frame::new(fh).unwrap();
    let after_header = &payload[KEY_FRAME_HEADER_LEN..];
    let part0_len = usize::try_from(fh.first_partition_size).unwrap();
    let part0 = &after_header[..part0_len];
    let after_part0 = &after_header[part0_len..];
    let mut br = BoolDecoder::new(part0);
    frame.parse_headers(&mut br);
    frame.parse_partitions(&mut br, after_part0).unwrap();
    frame.parse_quant(&mut br);
    let _update_proba = br.read_flag();
    frame.parse_proba(&mut br);
    let use_segment = frame.segment.use_segment;
    let (mb_w, mb_h) = (frame.mb_w, frame.mb_h);
    let mut segs = Vec::with_capacity(mb_w * mb_h);
    for _mb_y in 0..mb_h {
        frame.parse_intra_mode_row(&mut br);
        for mb_x in 0..mb_w {
            segs.push(frame.mb_data[mb_x].segment);
        }
        frame.init_scanline();
    }
    (use_segment, segs)
}

/// The number of distinct segment ids present in a decoded segment map.
fn distinct_segments(segs: &[u8]) -> usize {
    let mut seen = [false; 4];
    for &s in segs {
        seen[usize::from(s)] = true;
    }
    seen.iter().filter(|&&b| b).count()
}

#[test]
fn mixed_content_uses_multiple_segments_and_stays_self_consistent() {
    let (w, h) = (64usize, 64usize);
    let rgba = mixed_image(w, h);
    let base_q = 40;
    let payload = encode_frame(&rgba, w, h, base_q, BALANCED);
    let (use_segment, segs) = decoded_segments(&payload);
    assert!(use_segment, "mixed content should enable segmentation");
    assert!(
        distinct_segments(&segs) >= 2,
        "expected >= 2 segments, got {} in {segs:?}",
        distinct_segments(&segs)
    );
    assert_self_consistent(&rgba, w, h, base_q);
}

#[test]
fn uniform_image_falls_back_to_a_single_segment() {
    let (w, h) = (32usize, 32usize);
    let rgba = image(w, h, |_, _| [100, 100, 100]);
    let payload = encode_frame(&rgba, w, h, 40, BALANCED);
    let (use_segment, _segs) = decoded_segments(&payload);
    assert!(
        !use_segment,
        "uniform content should fall back to one segment"
    );
    assert_self_consistent(&rgba, w, h, 40);
}

#[test]
fn fast_uses_a_single_segment() {
    let (w, h) = (64usize, 64usize);
    let rgba = mixed_image(w, h);
    let payload = encode_frame(&rgba, w, h, 40, FAST);
    let (use_segment, _segs) = decoded_segments(&payload);
    assert!(!use_segment, "Fast must not use segmentation");
}

#[test]
fn segmentation_is_deterministic() {
    // The integer k-means (fixed init + fixed iterations) plus per-segment quant
    // must be fully deterministic per (quality) — identical bytes across encodes.
    let rgba = mixed_image(64, 48);
    let a = encode_frame(&rgba, 64, 48, 40, BALANCED);
    let b = encode_frame(&rgba, 64, 48, 40, BALANCED);
    assert_eq!(a, b, "segmentation must be deterministic");
}

#[test]
fn segmented_odd_and_uniform_dimensions_stay_self_consistent() {
    // Segmentation must hold self-consistency at odd dimensions (partial edge
    // macroblocks, edge-replicated source) on both mixed and uniform content.
    assert_self_consistent(&mixed_image(48, 48), 48, 48, 40);
    assert_self_consistent(&image(17, 13, |_, _| [70, 70, 70]), 17, 13, 40);
    assert_self_consistent(
        &image(19, 23, |x, y| [(x * 13) as u8, (y * 17) as u8, 90]),
        19,
        23,
        40,
    );
}

/// The chosen frame size (header + smaller partition candidate) for `rgba` with
/// segmentation on or off, everything else held at the Balanced settings — the
/// before/after size the segmentation RD win is measured against.
fn chosen_total_segmented(
    rgba: &[u8],
    w: usize,
    h: usize,
    base_q: i32,
    uses_segments: bool,
) -> usize {
    let FramePlan {
        plans: mb_plans,
        mb_w,
        mb_h,
        seg_params: seg,
        ..
    } = plan_frame(
        rgba,
        w,
        h,
        base_q,
        FULL_GATES,
        uses_segments,
        FrameTuning::auto(),
        &default_probas(),
    );
    let skip = resolve_skip(&mb_plans, mb_w * mb_h, true);
    let filter = choose_filter(base_q, true, 60, 0);
    let header = HeaderParams {
        base_q,
        filter: &filter,
        segments: seg,
    };
    let (_p0, _t, d, o, _probas) = emit_best_partitions(&mb_plans, mb_w, mb_h, header, skip);
    KEY_FRAME_HEADER_LEN + d.min(o)
}

#[test]
fn segmentation_improves_size_on_mixed_content() {
    // The rate-distortion payoff: on mixed flat-vs-busy content, coarsening the
    // busy segment (where distortion is masked) saves far more than the segment
    // map + slightly-finer flat segment cost, so the segmented frame codes
    // strictly smaller than the single-segment frame at the same base quantizer.
    let rgba = mixed_image(96, 96);
    for &base_q in &[24i32, 40, 64] {
        let segmented = chosen_total_segmented(&rgba, 96, 96, base_q, true);
        let single = chosen_total_segmented(&rgba, 96, 96, base_q, false);
        assert!(
            segmented < single,
            "q{base_q}: segmented {segmented} did not beat single-segment {single}"
        );
    }
}

fn digest(bytes: &[u8]) -> u64 {
    let mut h: u64 = 0xcbf2_9ce4_8422_2325;
    for &b in bytes {
        h ^= u64::from(b);
        h = h.wrapping_mul(0x0000_0100_0000_01b3);
    }
    h
}

/// Build a minimal [`MbPlan`] carrying only the `skippable` flag `resolve_skip`
/// reads; the other fields are inert defaults.
fn skip_plan(skippable: bool) -> MbPlan {
    MbPlan {
        ymode: 0,
        imodes: [0; 16],
        uvmode: 0,
        is_i4x4: false,
        skippable,
        has_residual: false,
        tokens: MbTokens {
            is_i4x4: false,
            y2: Block::default(),
            luma: [Block::default(); 16],
            chroma: [Block::default(); 8],
        },
        segment: 0,
    }
}

#[test]
fn resolve_skip_probability_and_gate_are_exact() {
    let plans = |n: usize, skip: usize| -> Vec<MbPlan> {
        (0..n).map(|i| skip_plan(i < skip)).collect()
    };
    let a = resolve_skip(&plans(4, 1), 4, true);
    assert!(a.use_skip, "A: enough skips should enable use_skip");
    assert_eq!(a.skip_p, 191, "A: skip_p = (3*255)/4");
    let b = resolve_skip(&plans(4, 1), 4, false);
    assert!(
        !b.use_skip,
        "B: consider_skip=false must force use_skip off"
    );
    let c = resolve_skip(&plans(100, 1), 100, true);
    assert_eq!(c.skip_p, 252, "C: skip_p = (99*255)/100");
    assert!(!c.use_skip, "C: skip_p 252 ≥ 250 must keep use_skip off");
    let d = resolve_skip(&plans(51, 1), 51, true);
    assert_eq!(d.skip_p, 250, "D: skip_p = (50*255)/51 = 250 exactly");
    assert!(
        !d.use_skip,
        "D: skip_p == 250 is not < 250, so use_skip off"
    );
}

#[test]
fn mode_decision_lambdas_are_exact() {
    assert_eq!(i4x4_lambda(64), 32, "i4x4: 64^2 >> 7");
    assert_eq!(i4x4_lambda(0), 1, "i4x4: clamp 0 -> 1");
    assert_eq!(luma16_lambda(16), 6, "luma16: 3*16^2 >> 7");
    assert_eq!(luma16_lambda(0), 1, "luma16: clamp 0 -> 1");
    assert_eq!(chroma_lambda(8), 3, "chroma: 3*8^2 >> 6");
    assert_eq!(chroma_lambda(0), 1, "chroma: clamp 0 -> 1");
}

#[test]
fn segment_tree_and_quant_derivation_is_exact() {
    assert_eq!(
        segment_tree_probs(&[0, 1, 2, 2, 3]),
        [102, 127, 170],
        "segment tree probabilities"
    );
    assert_eq!(tree_prob(1, 2), 127, "tree_prob(1,2)");
    assert_eq!(
        segment_base_qs(40, 2, [64, 192, 0, 0], 100),
        [28, 52, 40, 40],
        "per-segment SNS base quantizers"
    );
}

#[test]
fn kmeans_assign_and_update_are_exact() {
    // assign_nearest breaks equidistant ties to the LOWEST index (strict `<`):
    // 10 is 5 from both centroid 5 and centroid 15, so it must land in cluster 0.
    let mut assign = [9u8];
    assign_nearest(&[10], [5, 15, 0, 0], 2, &mut assign);
    assert_eq!(assign[0], 0, "equidistant tie -> lowest centroid index");
    // update_centroids moves each non-empty centroid to its cluster's integer mean
    // and returns the total displacement: cluster 0 = {10, 20} -> 15, moved from 0.
    let mut cent = [0i64; 4];
    let disp = update_centroids(&[10, 20], &[0, 0], &mut cent, 2);
    assert_eq!(cent[0], 15, "centroid 0 -> mean(10,20)");
    assert_eq!(disp, 15, "displacement = |15 - 0|");
}

/// `SplitMix64` byte generator seeded from `seed`, matching the deterministic
/// fills used by the exact-value kill tests below.
fn splitmix_bytes(seed: u64, n: usize) -> Vec<u8> {
    let mut st = seed.wrapping_add(1);
    (0..n)
        .map(|_| {
            st = st.wrapping_add(0x9E37_79B9_7F4A_7C15);
            let mut z = st;
            z = (z ^ (z >> 30)).wrapping_mul(0xBF58_476D_1CE4_E5B9);
            z = (z ^ (z >> 27)).wrapping_mul(0x94D0_49BB_1331_11EB);
            ((z ^ (z >> 31)) & 0xff) as u8
        })
        .collect()
}

#[test]
fn i16x16_mode_cost_is_exactly_two_coded_bits() {
    assert_eq!(I16X16_MODE_COST, 512);
}

#[test]
fn mode_available_requires_all_named_neighbors() {
    // DC is always available.
    assert!(mode_available(DC_PRED, false, false));
    // V needs the top row; H needs the left column.
    assert!(mode_available(V_PRED, true, false));
    assert!(!mode_available(V_PRED, false, false));
    assert!(mode_available(H_PRED, false, true));
    assert!(!mode_available(H_PRED, false, false));
    assert!(!mode_available(TM_PRED, true, false));
    assert!(!mode_available(TM_PRED, false, true));
    assert!(mode_available(TM_PRED, true, true));
}

#[test]
fn chroma8_reconstruction_transforms_every_dense_block() {
    let mut planes = Planes::new(1, 1);
    let uvs = planes.uv_stride;
    let uv_off = uvs + 1;
    for r in 0..8 {
        for c in 0..8 {
            planes.u[uv_off + r * uvs + c] = 100;
            planes.v[uv_off + r * uvs + c] = 110;
        }
    }
    let mut coeffs = [0i16; 128];
    for k in 0..16 {
        coeffs[k] = 50; // U sub-block 0: dense (no zero coefficient)
        coeffs[64 + k] = 50; // V sub-block 0: dense
    }
    let src = SourceYuv {
        y: vec![0u8; 256],
        u: vec![128u8; 64],
        v: vec![130u8; 64],
        mb_w: 1,
        mb_h: 1,
    };
    let sse = chroma8_reconstruction_sse(&mut planes, &coeffs, uv_off, &src, 0, 0);
    assert_eq!(
        sse, 85896,
        "dense U+V blocks must be reconstructed before scoring"
    );
}

#[test]
fn has_residual_is_false_for_zero_coefficient_blocks() {
    let rgba = image(64, 64, |_, _| [120, 90, 200]);
    let FramePlan {
        plans: mb_plans, ..
    } = plan_frame(
        &rgba,
        64,
        64,
        40,
        FULL_GATES,
        true,
        FrameTuning::auto(),
        &default_probas(),
    );
    assert!(
        mb_plans.iter().any(|p| !p.has_residual),
        "a flat frame must contain zero-residual macroblocks"
    );
}

#[test]
fn segmentation_spread_threshold_is_strict() {
    let amps = [6i32, 6, 8, 8]; // complexities 912, 912, 1216, 1216
    let mut y = vec![0u8; 4 * 16 * 16]; // stride 64, 16 rows, 4 macroblocks wide
    for (k, &amp) in amps.iter().enumerate() {
        for r in 0..16 {
            for lc in 0..16 {
                let v = (128 + amp * ((lc % 4) as i32)).clamp(0, 255) as u8;
                y[r * 64 + k * 16 + lc] = v;
            }
        }
    }
    let src = SourceYuv {
        y,
        u: vec![128; 4 * 8 * 8],
        v: vec![128; 4 * 8 * 8],
        mb_w: 4,
        mb_h: 1,
    };
    let seg = plan_segmentation(&src, 40, true, FrameTuning::auto());
    assert!(
        seg.params.is_some(),
        "two distinct activity levels must segment under the near-best tuning"
    );
}

#[test]
fn i4x4_search_transforms_dense_subblocks() {
    let mut planes = Planes::new(1, 1);
    let ys = planes.y_stride;
    let y_off = ys + 1;
    let src = SourceYuv {
        y: splitmix_bytes(0, 256),
        u: vec![128; 64],
        v: vec![128; 64],
        mb_w: 1,
        mb_h: 1,
    };
    let plan = QuantPlan {
        quant: Quantizer::new(0),
        uses_trellis: false,
        sns_strength: 0,
        probas: &default_probas(),
    };
    let (_cand, dist, _bits) =
        search_luma_i4x4(&mut planes, y_off, &src, 0, 0, false, true, plan);
    assert_eq!(
        dist, 115,
        "dense i4x4 sub-blocks must be reconstructed before scoring"
    );
}

#[test]
fn i4x4_vs_16x16_decision_is_strict_at_a_cost_tie() {

    fn isqrt(n: i64) -> i64 {
        let mut x = 0i64;
        while (x + 1) * (x + 1) <= n {
            x += 1;
        }
        x
    }

    let src = SourceYuv {
        y: splitmix_bytes(42, 256),
        u: vec![128; 64],
        v: vec![128; 64],
        mb_w: 1,
        mb_h: 1,
    };
    let mut planes = Planes::new(1, 1);
    let ys = planes.y_stride;
    let y_off = ys + 1;
    // Seed the interior equal to the source (zero distortion), then inject squared
    // per-pixel deltas that sum to EXACTLY 7280 (integer sums of squares only).
    for r in 0..16 {
        for c in 0..16 {
            planes.y[y_off + r * ys + c] = src.y[r * 16 + c];
        }
    }
    let mut remaining: i64 = 7280;
    let mut idx = 0usize;
    while remaining > 0 {
        let (row, col) = (idx / 16, idx % 16);
        idx += 1;
        let s = i32::from(src.y[row * 16 + col]);
        let room = (255 - s).max(s);
        let d = i32::try_from(isqrt(remaining)).unwrap_or(0).min(room);
        let v = if 255 - s >= s { s + d } else { s - d };
        planes.y[y_off + row * ys + col] = v as u8;
        remaining -= i64::from(d) * i64::from(d);
    }

    let coeffs = [0i16; 384];
    let tokens = MbTokens {
        is_i4x4: false,
        y2: Block::default(),
        luma: [Block::default(); 16],
        chroma: [Block::default(); 8],
    };
    let plan = QuantPlan {
        quant: Quantizer::new(12),
        uses_trellis: false,
        sns_strength: 0,
        probas: &default_probas(),
    };
    let result = try_i4x4_luma(
        &mut planes,
        &coeffs,
        &tokens,
        y_off,
        &src,
        (0, 0),
        false,
        true,
        plan,
    );
    assert!(
        result.is_none(),
        "at an exact i4x4/16x16 cost tie the encoder must keep 16x16 (strict <)"
    );
}

#[test]
fn kmeans_segments_partition_is_exact() {
    let a = [
        100i64, 105, 110, 1100, 1105, 1110, 2100, 2105, 2110, 3100, 3105, 3110,
    ];
    let (ids_a, cnt_a, seg_a) = kmeans_segments(&a, 4);
    assert_eq!(ids_a, vec![0, 0, 0, 1, 1, 1, 2, 2, 2, 3, 3, 3], "A ids");
    assert_eq!(cnt_a, 4, "A count");
    assert_eq!(seg_a, [105, 1105, 2105, 3105], "A segment means");

    let b = [
        1000i64, 1010, 1020, 1100, 1110, 1120, 1200, 1210, 1220, 1300, 1310, 1320,
    ];
    let (ids_b, cnt_b, seg_b) = kmeans_segments(&b, 4);
    assert_eq!(ids_b, vec![0, 0, 0, 1, 1, 1, 2, 2, 2, 3, 3, 3], "B ids");
    assert_eq!(cnt_b, 4, "B count");
    assert_eq!(seg_b, [1010, 1110, 1210, 1310], "B segment means");
}

const GOLDEN_EXPECTED: &str = "\
gradient fast 190 fdbe0b6ce4ec645c
gradient balanced 89 44cc4831e2b014b5
gradient best 113 f507b9cd3a89366e
noisy fast 7975 f970e253b081638d
noisy balanced 3552 0fe948c3ed2a8dc4
noisy best 3158 f86825f9ecc426ef
flat fast 40 66b6a4ee87e184a3
flat balanced 39 2f5a1f125c0a5180
flat best 39 2f5a1f125c0a5180
checker fast 65 a42deaf46567ecd9
checker balanced 56 6b05842252d1046e
checker best 56 6b05842252d1046e
stripe fast 1680 145aef26907ace38
stripe balanced 322 d0284fcbb5c77800
stripe best 118 00cc0a30e8a48b20
diagonal fast 415 46ac66199192122b
diagonal balanced 274 3f18f25e15a3bdcb
diagonal best 337 737aeebdcede7c37
mixed fast 4363 13644d2cc4723cd5
mixed balanced 1953 97d12de896339d85
mixed best 2044 d741e377a717f630
horizontal fast 667 81e58ac967acf023
horizontal balanced 278 4dcd2a5c0b4cb156
horizontal best 213 e58e54c32cc725bf";

#[test]
fn golden_exact_encode_bytes() {
    let cases: [(&str, Vec<u8>, usize, usize, i32); 8] = [
        (
            "gradient",
            image(48, 32, |x, y| {
                [(x * 5) as u8, (y * 7) as u8, ((x + y) * 3) as u8]
            }),
            48,
            32,
            40,
        ),
        ("noisy", noisy96(96, 96), 96, 96, 40),
        ("flat", image(64, 64, |_, _| [120, 90, 200]), 64, 64, 40),
        (
            "checker",
            image(48, 48, |x, y| {
                if (x / 4 + y / 4) % 2 == 0 {
                    [20, 20, 20]
                } else {
                    [220, 220, 220]
                }
            }),
            48,
            48,
            40,
        ),
        ("stripe", stripe_image(64, 64), 64, 64, 40),
        ("diagonal", diagonal_image(96, 96), 96, 96, 100),
        ("mixed", mixed_image(96, 96), 96, 96, 40),
        (
            "horizontal",
            image(48, 48, |_x, y| {
                [(y * 7) as u8, (y * 3 + 20) as u8, (y * 11) as u8]
            }),
            48,
            48,
            16,
        ),
    ];
    let efforts = [
        ("fast", FAST),
        ("balanced", BALANCED),
        ("best", Effort::Best),
    ];
    let mut lines = Vec::new();
    for (name, rgba, w, h, q) in &cases {
        for (ename, effort) in &efforts {
            let payload = encode_frame(rgba, *w, *h, *q, *effort);
            lines.push(format!(
                "{name} {ename} {} {:016x}",
                payload.len(),
                digest(&payload)
            ));
        }
    }
    let actual = lines.join("\n");
    println!("---GOLDEN ACTUAL---\n{actual}\n---END GOLDEN ACTUAL---");
    assert_eq!(actual, GOLDEN_EXPECTED, "golden encode output changed");
}

#[test]
fn default_partition_total_is_the_byte_length_sum() {
    let noisy = noisy96(96, 96);
    let FramePlan {
        plans: mb_plans,
        mb_w,
        mb_h,
        seg_params: seg,
        ..
    } = plan_frame(
        &noisy,
        96,
        96,
        40,
        FULL_GATES,
        true,
        FrameTuning::auto(),
        &default_probas(),
    );
    let skip = resolve_skip(&mb_plans, mb_w * mb_h, true);
    let filter = choose_filter(40, true, 60, 0);
    let header = HeaderParams {
        base_q: 40,
        filter: &filter,
        segments: seg,
    };
    let (_p0, _t, default_total, optimized_total, _probas) =
        emit_best_partitions(&mb_plans, mb_w, mb_h, header, skip);
    assert_eq!(default_total, 4979, "default candidate byte-length sum");
    assert_eq!(optimized_total, 3538, "optimized candidate byte-length sum");
}

#[test]
fn skippable_luma_last_index_boundary_is_strict() {
    let rgba = mixed_image(96, 96);
    let witness = (2..=127)
        .find_map(|q| {
            let FramePlan {
                plans: mb_plans, ..
            } = plan_frame(
                &rgba,
                96,
                96,
                q,
                FULL_GATES,
                true,
                FrameTuning::auto(),
                &default_probas(),
            );
            mb_plans.into_iter().find(|p| {
                p.tokens.y2.last < 0
                    && p.tokens.chroma.iter().all(|b| b.last < 0)
                    && p.tokens.luma.iter().all(|b| b.last <= 1)
                    && p.tokens.luma.iter().any(|b| b.last == 1)
            })
        })
        .expect("mixed content must contain a luma-last==1 boundary macroblock");
    assert!(
        !witness.skippable,
        "a luma last==1 block must not be skippable"
    );
}

#[test]
fn keep_smaller_partition_prefers_default_on_size_ties() {
    let rgba = image(16, 16, |x, y| {
        [(x * 5) as u8, (y * 7) as u8, ((x + y) * 3) as u8]
    });
    let payload = encode_frame(&rgba, 16, 16, 24, BALANCED);
    assert_eq!(
        digest(&payload),
        0x6e07_e15d_6c4e_0924,
        "at a size tie the encoder must keep the default probability table"
    );
}

fn rd_image(rx: i32, ry: i32, damp: i32) -> Vec<u8> {
    image(48, 48, |x, y| {
        let d = if (x * 7 + y * 13) % 2 == 0 { 0 } else { damp };
        let r = (60 + x as i32 * rx + d).clamp(0, 255) as u8;
        let g = (120 + y as i32 * ry - d).clamp(0, 255) as u8;
        let b = (100 + x as i32 * ry + y as i32 * rx + d).clamp(0, 255) as u8;
        [r, g, b]
    })
}

const RD_GOLDEN_EXPECTED: &str = "\
rd_rx0_ry5_d0_q48 ec3e1d9169c5d34a
rd_rx1_ry0_d0_q8 2dbc60b6031d7af4
rd_rx0_ry2_d0_q24 b6e5b4d5e6bc4ab2
rd_rx0_ry5_d60_q24 ab1c536dec055d08";

#[test]
fn rd_cost_arithmetic_golden() {
    let cases: [(&str, i32, i32, i32, i32); 4] = [
        ("rd_rx0_ry5_d0_q48", 0, 5, 0, 48),
        ("rd_rx1_ry0_d0_q8", 1, 0, 0, 8),
        ("rd_rx0_ry2_d0_q24", 0, 2, 0, 24),
        ("rd_rx0_ry5_d60_q24", 0, 5, 60, 24),
    ];
    let mut lines = Vec::new();
    for (name, rx, ry, damp, q) in &cases {
        let payload = encode_frame(&rd_image(*rx, *ry, *damp), 48, 48, *q, BALANCED);
        lines.push(format!("{name} {:016x}", digest(&payload)));
    }
    let actual = lines.join("\n");
    println!("---RD GOLDEN ACTUAL---\n{actual}\n---END RD GOLDEN ACTUAL---");
    assert_eq!(
        actual, RD_GOLDEN_EXPECTED,
        "RD cost-arithmetic golden changed"
    );
}
