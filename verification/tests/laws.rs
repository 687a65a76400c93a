use webpkit::bool_enc::BoolEncoder;
use webpkit::constants::{CoeffStats, ZIGZAG, default_probas};
use webpkit::effort::{Effort, FrameTuning};
use webpkit::frame::{encode_frame_impl, plan_frame};
use webpkit::plan::SearchGates;
use webpkit::quant::{Quantizer, quantize_block};
use webpkit::rate::psnr_centidb;
use webpkit::rgb_to_yuv::from_rgba;
use webpkit::segment::kmeans_segments;
use webpkit::sharp_yuv::refine_chroma;
use webpkit::tokens::{Block, MbTokens, NzContext, count_mb_residuals, emit_mb_residuals};
use webpkit::trellis::{block_token_cost, trellis_lambda, trellis_quantize_block, trellis_weight};
use webpkit::yuv::{Yuv420Ref, emit_rows_serial, yuv420_to_rgba};

/// Pseudo-random numbers from a seed.
fn numbers(seed: u64, n: usize) -> Vec<u64> {
    let mut st = seed;
    (0..n)
        .map(|_| {
            st = st.wrapping_add(0x9E37_79B9_7F4A_7C15);
            let mut z = st;
            z = (z ^ (z >> 30)).wrapping_mul(0xBF58_476D_1CE4_E5B9);
            z = (z ^ (z >> 27)).wrapping_mul(0x94D0_49BB_1331_11EB);
            z ^ (z >> 31)
        })
        .collect()
}

/// Weighted error and `lambda` times the bits.
fn cost(coeffs: &[i16; 16], levels: &[i16; 16], last: i32, first: usize, q: (i32, i32)) -> i64 {
    let mut error = 0i64;
    for n in first..16 {
        let j = ZIGZAG[n] as usize;
        let step = i64::from(if n == 0 { q.0 } else { q.1 });
        let d = i64::from(coeffs[j]).abs() - i64::from(levels[n]).abs() * step;
        error += trellis_weight(j) * d * d;
    }
    let plane = if first == 1 { 0 } else { 3 };
    let bits = block_token_cost(*levels, first, last, plane, 0, &default_probas());
    256 * error + trellis_lambda(q.1) * bits
}

#[test]
fn the_search_never_costs_more_than_other_levels() {
    for base_q in [4, 40, 100, 127] {
        let pair = Quantizer::new(base_q).y1;
        let q = (pair.dc.q, pair.ac.q);
        for first in [0usize, 1] {
            let plane = if first == 1 { 0 } else { 3 };
            for seed in 0..40u64 {
                let r = numbers(seed, 16);
                let mut coeffs = [0i16; 16];
                for (c, v) in coeffs.iter_mut().zip(&r) {
                    *c = (v % 1201) as i16 - 600;
                }
                let best = trellis_quantize_block(
                    coeffs,
                    pair,
                    first,
                    0,
                    plane,
                    &default_probas(),
                    trellis_lambda(pair.ac.q),
                );
                let near = quantize_block(coeffs, pair.dc, pair.ac, first);
                let chosen = cost(&coeffs, &best.levels, best.last, first, q);
                assert!(chosen <= cost(&coeffs, &near.levels, near.last, first, q));
                assert!(chosen <= cost(&coeffs, &[0; 16], first as i32 - 1, first, q));
                // Dropping the last level is a choice the search had.
                if best.last > first as i32 {
                    let mut fewer = best.levels;
                    fewer[best.last as usize] = 0;
                    let last = (first as i32..best.last)
                        .rev()
                        .find(|&n| fewer[n as usize] != 0)
                        .unwrap_or(first as i32 - 1);
                    assert!(chosen <= cost(&coeffs, &fewer, last, first, q));
                }
            }
        }
    }
}

#[test]
fn refined_chroma_follows_the_brighter_pixels() {
    // One colour everywhere: there is nothing to weigh.
    let flat: Vec<u8> = (0..256).flat_map(|_| [200u8, 40, 90, 255]).collect();
    let plain = from_rgba(&flat, 16, 16);
    let mut sharp = from_rgba(&flat, 16, 16);
    refine_chroma(&flat, 16, 16, &mut sharp);
    assert_eq!(sharp.u, plain.u);
    assert_eq!(sharp.v, plain.v);
    // White beside dark red: the grey of the white outweighs the red.
    let mixed: Vec<u8> = (0..256)
        .flat_map(|i| if i % 2 == 0 { [255u8, 255, 255, 255] } else { [100, 0, 0, 255] })
        .collect();
    let plain = from_rgba(&mixed, 16, 16);
    let mut sharp = from_rgba(&mixed, 16, 16);
    refine_chroma(&mixed, 16, 16, &mut sharp);
    assert_eq!(sharp.y, plain.y);
    assert!(sharp.v.iter().zip(&plain.v).all(|(s, p)| s < p && *s >= 128));
}

#[test]
fn large_pictures_are_converted_like_small_ones() {
    // Above the threshold for parallel rows, the rows are the same.
    let (width, height) = (640usize, 480usize);
    let y: Vec<u8> = numbers(1, width * height).iter().map(|v| *v as u8).collect();
    let u: Vec<u8> = numbers(2, width * height / 4).iter().map(|v| *v as u8).collect();
    let v: Vec<u8> = numbers(3, width * height / 4).iter().map(|v| *v as u8).collect();
    let src = Yuv420Ref { y: &y, y_stride: width, u: &u, v: &v, uv_stride: width / 2 };
    let mut rows = vec![0u8; width * height * 4];
    emit_rows_serial(&src, width, height, width * 4, &mut rows);
    assert_eq!(yuv420_to_rgba(&src, width, height), rows);
}

#[test]
fn clusters_follow_the_values_and_means_are_theirs() {
    for seed in 0..40u64 {
        let spread = [2, 3, 4, 9, 300, 100_000][seed as usize % 6];
        let values: Vec<i64> = numbers(seed, 30)
            .iter()
            .map(|v| (v % spread) as i64 - 1)
            .collect();
        for nb in 2..=4 {
            let (ids, count, means) = kmeans_segments(&values, nb);
            for (a, i) in values.iter().zip(&ids) {
                assert!(values.iter().zip(&ids).all(|(b, j)| b < a || i <= j));
            }
            for (k, mean) in means.iter().enumerate().take(count) {
                let of: Vec<i64> = (0..30)
                    .filter(|&i| usize::from(ids[i]) == k)
                    .map(|i| values[i])
                    .collect();
                assert_eq!(of.iter().sum::<i64>() / of.len() as i64, *mean);
            }
        }
    }
}

#[test]
fn counting_leaves_large_nodes_and_rolls_the_context_like_emitting() {
    let mut mb = MbTokens {
        is_i4x4: true,
        y2: Block::default(),
        luma: [Block::default(); 16],
        chroma: [Block::default(); 8],
    };
    for (i, v) in numbers(3, 16).iter().enumerate() {
        mb.luma[i].levels[i] = (v % 90) as i16 + 1;
        mb.luma[i].last = i as i32;
    }
    let mut stats: CoeffStats = [[[[[7; 2]; 11]; 3]; 8]; 4];
    let mut counted = NzContext::new(2);
    count_mb_residuals(&mut stats, &mb, &mut counted, 1);
    let mut raised = 0;
    for (node, n) in stats.iter().flatten().flatten().flat_map(|c| c.iter().enumerate()) {
        assert!(n.iter().all(|&k| k == 7 || (k > 7 && node < 3)));
        raised += n[0] + n[1] - 14;
    }
    assert!(raised > 16);
    let mut emitted = NzContext::new(2);
    emit_mb_residuals(&mut BoolEncoder::new(), &default_probas(), &mb, &mut emitted, 1);
    assert_eq!(counted.top, emitted.top);
    assert_eq!(counted.top_dc, emitted.top_dc);
    assert_eq!((counted.left, counted.left_dc), (emitted.left, emitted.left_dc));
}

#[test]
fn psnr_is_symmetric_and_largest_only_without_an_error() {
    let a: Vec<u32> = numbers(1, 50).iter().map(|v| *v as u32).collect();
    let b: Vec<u32> = numbers(2, 50).iter().map(|v| *v as u32).collect();
    assert_eq!(psnr_centidb(&a, &b), psnr_centidb(&b, &a));
    assert!(psnr_centidb(&a, &b) < u32::MAX);
    // Alpha does not count; one step of one colour does.
    let c: Vec<u32> = a.iter().map(|v| v ^ 0xff00_0000).collect();
    assert_eq!(psnr_centidb(&a, &c), u32::MAX);
    let mut d = a.clone();
    d[49] ^= 1;
    assert!(psnr_centidb(&a, &d) < u32::MAX);
}

/// A picture of pseudo-random colours.
fn noise(w: usize, h: usize) -> Vec<u8> {
    numbers(11, w * h * 4).iter().map(|v| *v as u8).collect()
}

#[test]
fn the_fastest_effort_reconstructs_alike_down_to_the_scratch_columns() {
    let auto = FrameTuning::auto();
    let other = FrameTuning {
        sns_strength: 100,
        segments: 1,
        filter_strength: 7,
        filter_sharpness: 7,
        passes: 5,
        ..auto
    };
    let rgba = noise(50, 40);
    let (a, p) = encode_frame_impl(&rgba, 50, 40, 30, Effort::Fast, auto);
    let (b, q) = encode_frame_impl(&rgba, 50, 40, 30, Effort::Fast, other);
    assert_eq!(a, b);
    assert_eq!((&p.y, &p.u, &p.v), (&q.y, &q.u, &q.v));
    // Nothing is set up right of the picture.
    let stride = 4 * 16 + 5;
    for row in p.y.chunks(stride).skip(1) {
        assert_eq!(row[65..], [0; 4]);
    }
}

#[test]
fn scratch_columns_repeat_what_is_above_to_the_right() {
    let gates = SearchGates {
        search_modes: true,
        uses_i4x4: true,
        uses_trellis: false,
        sns_strength: 0,
    };
    let rgba = noise(32, 48);
    let auto = FrameTuning::auto();
    let plan = plan_frame(&rgba, 32, 48, 30, gates, false, auto, &default_probas());
    let rows: Vec<&[u8]> = plan.planes.y.chunks(2 * 16 + 5).collect();
    assert_eq!(rows.len(), 49);
    for (r, row) in rows.iter().enumerate().skip(1) {
        let want = if r % 4 != 0 || r == 48 {
            0
        } else if r < 16 {
            127
        } else {
            rows[r / 16 * 16][32]
        };
        assert_eq!(row[33..], [want; 4], "row {r}");
    }
}
