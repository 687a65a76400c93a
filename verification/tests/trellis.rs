use webpkit::trellis::large_value_rate;
use webpkit::trellis::value_rate;
use webpkit::trellis::{block_token_cost, trellis_lambda, trellis_quantize_block};
use webpkit::constants::{BANDS, COEFFS_PROBA_0, NUM_PROBAS, Prob, ZIGZAG};
use webpkit::prob_opt::bit_cost;
use webpkit::quant::{Quantizer, quantize_block};

#[test]
fn block_token_cost_matches_the_hand_walked_token_tree() {
    // An empty block costs exactly one EOB bit at (plane, band[first], ctx0).
    let (plane, first, ctx0) = (0usize, 1usize, 0usize);
    let empty = [0i16; 16];
    let got = block_token_cost(empty, first, first as i32 - 1, plane, ctx0, &COEFFS_PROBA_0);
    let p = COEFFS_PROBA_0[plane][BANDS[first]][ctx0];
    assert_eq!(
        got,
        i64::from(bit_cost(false, p[0])),
        "empty block = one EOB bit"
    );

    // A single unit coefficient at `first`: node-0 "more", node-1 non-zero,
    // node-2 "one", a 256-unit sign, then the terminal EOB at the next band with
    // the outgoing context 1 (a |level|==1 carries context 1).
    let mut levels = [0i16; 16];
    levels[first] = 1;
    let got = block_token_cost(levels, first, first as i32, plane, ctx0, &COEFFS_PROBA_0);
    let p0 = COEFFS_PROBA_0[plane][BANDS[first]][ctx0];
    let eob = COEFFS_PROBA_0[plane][BANDS[first + 1]][1];
    let want = i64::from(bit_cost(true, p0[0]))
        + i64::from(bit_cost(true, p0[1]))
        + i64::from(bit_cost(false, p0[2]))
        + 256
        + i64::from(bit_cost(false, eob[0]));
    assert_eq!(got, want, "one-unit block = more+nonzero+one+sign+EOB");
}

#[test]
fn block_token_cost_charges_more_for_a_busier_block() {
    let mut sparse = [0i16; 16];
    sparse[0] = 1;
    let mut busy = [0i16; 16];
    busy[0] = 5;
    busy[1] = -3;
    busy[2] = 17;
    busy[5] = 2;
    let c_sparse = block_token_cost(sparse, 0, 0, 0, 0, &COEFFS_PROBA_0);
    let c_busy = block_token_cost(busy, 0, 5, 0, 0, &COEFFS_PROBA_0);
    assert!(
        c_busy > c_sparse,
        "busy {c_busy} should cost more than sparse {c_sparse}"
    );
}

/// The reconstruction contract every trellis result must satisfy: levels are
/// codable, `recon[j] == level * q` in natural order, and `last` is the last
/// non-zero zig-zag index (or `first - 1` when empty).
fn assert_valid(q: Quantizer, first: usize, quantized: &webpkit::quant::Quantized) {
    let (dc, ac) = (q.y1.dc, q.y1.ac);
    let mut want_last = first as i32 - 1;
    for (n, &j) in ZIGZAG.iter().enumerate().skip(first) {
        let level = i32::from(quantized.levels[n]);
        assert!(level.abs() <= 2047, "level {level} at {n} out of range");
        let step = if j == 0 { dc.q } else { ac.q };
        assert_eq!(
            i32::from(quantized.recon[j]),
            level * step,
            "recon[{j}] must equal level*q"
        );
        if level != 0 {
            want_last = n as i32;
        }
    }
    assert_eq!(
        quantized.last, want_last,
        "last must be the last non-zero index"
    );
}

#[test]
fn trellis_result_is_valid_and_self_consistent_in_shape() {
    let q = Quantizer::new(40);
    let mut coeffs = [0i16; 16];
    coeffs[0] = 90;
    coeffs[1] = -50;
    coeffs[4] = 12;
    coeffs[8] = 200;
    let lambda = trellis_lambda(q.y1.ac.q);
    let out = trellis_quantize_block(coeffs, q.y1, 0, 0, 0, &COEFFS_PROBA_0, lambda);
    assert_valid(q, 0, &out);
}

#[test]
fn tiny_coefficients_trellis_toward_zero() {
    // A block of coefficients all far below the quant step: round-to-nearest may
    // keep a stray level, but the rate-distortion trade drops them, so the block
    // trellises empty (last = first - 1).
    let q = Quantizer::new(80); // coarse steps.
    let mut coeffs = [0i16; 16];
    coeffs[1] = 3;
    coeffs[4] = -2;
    coeffs[5] = 4;
    let lambda = trellis_lambda(q.y1.ac.q);
    let out = trellis_quantize_block(coeffs, q.y1, 1, 0, 0, &COEFFS_PROBA_0, lambda);
    assert_valid(q, 1, &out);
    assert_eq!(
        out.last, 0,
        "tiny AC-only block should trellis to empty (last = first-1)"
    );
}

#[test]
fn trellis_never_scores_worse_than_round_to_nearest_and_is_deterministic() {
    let q = Quantizer::new(60);
    let mut coeffs = [0i16; 16];
    coeffs[0] = 140;
    coeffs[1] = 41;
    coeffs[2] = -39;
    coeffs[8] = 8;
    let rn = quantize_block(coeffs, q.y1.dc, q.y1.ac, 0);
    let lambda = trellis_lambda(q.y1.ac.q);
    let a = trellis_quantize_block(coeffs, q.y1, 0, 0, 0, &COEFFS_PROBA_0, lambda);
    let b = trellis_quantize_block(coeffs, q.y1, 0, 0, 0, &COEFFS_PROBA_0, lambda);
    assert_eq!(a.levels, b.levels, "trellis must be deterministic");
    assert_eq!(a.recon, b.recon);
    assert!(
        a.last <= rn.last,
        "trellis last {} > round-to-nearest {}",
        a.last,
        rn.last
    );
    assert_valid(q, 0, &a);
}

#[test]
fn lambda_grows_with_the_quantizer_step() {
    assert_eq!(trellis_lambda(4).max(1), trellis_lambda(4));
    assert!(trellis_lambda(200) > trellis_lambda(20));
    assert!(trellis_lambda(1) >= 1, "lambda is clamped to at least 1");
}

/// `lambda = max(1, (7 * q^2) >> LAMBDA_SHIFT)`, asserted to the exact integer.
/// Pins the `7 * q * q` product and the shift/clamp so any arithmetic drift in
/// [`trellis_lambda`] flips a value (`(7 + q) * q` and `7 * q + q`, say, both
/// diverge from `7 * q * q`), while the `q0/q4` clamp cases anchor the floor.
#[test]
fn trellis_lambda_is_exact() {
    assert_eq!(trellis_lambda(1), 1);
    assert_eq!(trellis_lambda(4), 14);
    assert_eq!(trellis_lambda(20), 350);
    assert_eq!(trellis_lambda(100), 8750);
    assert_eq!(trellis_lambda(200), 35000);
}

/// The large-value probability array used by the exact-rate tests: every entry in
/// the `p[3..=10]` range distinct and `!= 128`, so a `false`/`true` bit cost never
/// coincides and a mistaken probability index (e.g. `p[9 + (cat >> 1)]`) shows up
/// as a changed total.
const RATE_P: [Prob; NUM_PROBAS] = [128, 128, 128, 40, 50, 60, 70, 80, 90, 100, 110];

#[test]
fn large_value_rate_is_exact_across_every_category() {
    let want = [
        (2, 1289),
        (3, 1302),
        (4, 865),
        (5, 1148),
        (6, 1330),
        (7, 1052),
        (8, 1151),
        (9, 1272),
        (10, 1371),
        (11, 1484),
        (12, 1553),
        (18, 1941),
        (19, 1532),
        (25, 1759),
        (34, 2092),
        (35, 1673),
        (50, 1966),
        (66, 2285),
        (67, 2006),
        (100, 2310),
        (300, 3621),
        (700, 4751),
        (2047, 8013),
    ];
    for (m, w) in want {
        assert_eq!(large_value_rate(m, RATE_P), w, "large_value_rate({m})");
    }
}

/// [`value_rate`] equals the hand-verified cost for a zero, a `|level| == 1`, and a
/// spread of large magnitudes: the zero-run bit alone for `m == 0`, and
/// `non-zero + sign(256) + one-vs-large + large_value_rate` otherwise. Pins the
/// `+ 256` sign term and both node-2 branches.
#[test]
fn value_rate_is_exact() {
    let want = [
        (0, 256),
        (1, 768),
        (2, 2057),
        (3, 2070),
        (5, 1916),
        (8, 1919),
        (20, 2341),
        (100, 3078),
        (2047, 8781),
    ];
    for (m, w) in want {
        assert_eq!(value_rate(m, RATE_P), w, "value_rate({m})");
    }
}

#[test]
fn block_token_cost_exact_for_zero_run_and_large_value() {
    // Two leading zeros then a `3` (large): node0 + two zero-run bits + node1 +
    // node2-large + large_value_rate(3) + sign + EOB.
    let mut zero_run = [0i16; 16];
    zero_run[2] = 3;
    assert_eq!(
        block_token_cost(zero_run, 0, 2, 0, 0, &COEFFS_PROBA_0),
        3893
    );
    // A unit at 0 then a zero then a `-2` (large) at 3.
    let mut mixed = [0i16; 16];
    mixed[0] = 1;
    mixed[3] = -2;
    assert_eq!(block_token_cost(mixed, 0, 3, 0, 0, &COEFFS_PROBA_0), 4636);
    // A single large `4` starting at `first == 1`.
    let mut large = [0i16; 16];
    large[1] = 4;
    assert_eq!(block_token_cost(large, 1, 1, 0, 0, &COEFFS_PROBA_0), 5941);
}

/// Build a natural-order coefficient block from `(index, value)` pairs.
fn block(pairs: &[(usize, i16)]) -> [i16; 16] {
    let mut c = [0i16; 16];
    for &(i, v) in pairs {
        c[i] = v;
    }
    c
}

/// Run the trellis with the plane-0 default probabilities and the lambda derived
/// from the block's own AC step.
fn trellis(base_q: i32, coeffs: [i16; 16], first: usize, ctx0: usize) -> webpkit::quant::Quantized {
    let q = Quantizer::new(base_q);
    let lambda = trellis_lambda(q.y1.ac.q);
    trellis_quantize_block(coeffs, q.y1, first, ctx0, 0, &COEFFS_PROBA_0, lambda)
}

#[test]
fn trellis_quantize_block_exact_goldens() {
    // (base_q, coeffs, first, ctx0, expected levels, expected recon, expected last)
    struct Case {
        q: i32,
        coeffs: [i16; 16],
        first: usize,
        ctx0: usize,
        levels: [i16; 16],
        recon: [i16; 16],
        last: i32,
    }
    let cases = [
        Case {
            q: 40,
            coeffs: block(&[(0, 90), (1, -50), (4, 12), (8, 200)]),
            first: 0,
            ctx0: 0,
            levels: block(&[(0, 2), (1, -1), (3, 5)]),
            recon: block(&[(0, 74), (1, -44), (8, 220)]),
            last: 3,
        },
        // A non-zero surviving all the way to position 15 (exercises `n == 15`).
        Case {
            q: 20,
            coeffs: block(&[(0, 100), (5, 60), (15, 400)]),
            first: 0,
            ctx0: 0,
            levels: block(&[(0, 5), (4, 2), (15, 17)]),
            recon: block(&[(0, 105), (5, 48), (15, 408)]),
            last: 15,
        },
        Case {
            q: 30,
            coeffs: block(&[(0, 200), (8, 150)]),
            first: 0,
            ctx0: 0,
            levels: block(&[(0, 7), (3, 4)]),
            recon: block(&[(0, 189), (8, 136)]),
            last: 3,
        },
        // first > 0 and a non-zero entry context.
        Case {
            q: 40,
            coeffs: block(&[(1, 90), (4, -50), (8, 30)]),
            first: 1,
            ctx0: 2,
            levels: block(&[(1, 2), (2, -1), (3, 1)]),
            recon: block(&[(1, 88), (4, -44), (8, 44)]),
            last: 3,
        },
        Case {
            q: 40,
            coeffs: block(&[(0, 60), (1, 30), (2, -45), (5, 12)]),
            first: 0,
            ctx0: 1,
            levels: block(&[(0, 2), (1, 1), (5, -1)]),
            recon: block(&[(0, 74), (1, 44), (2, -44)]),
            last: 5,
        },
        Case {
            q: 64,
            coeffs: block(&[(0, 130), (1, 41), (2, -39), (8, 8)]),
            first: 0,
            ctx0: 0,
            levels: block(&[(0, 2)]),
            recon: block(&[(0, 118)]),
            last: 0,
        },
        // Tiny AC-only coefficients trellis to the all-zero fallback.
        Case {
            q: 100,
            coeffs: block(&[(1, 3), (4, -2), (5, 4)]),
            first: 1,
            ctx0: 0,
            levels: [0; 16],
            recon: [0; 16],
            last: 0,
        },
        Case {
            q: 52,
            coeffs: block(&[(0, 200), (1, 55), (3, 48), (7, 40), (12, 35)]),
            first: 0,
            ctx0: 0,
            levels: block(&[(0, 4), (1, 1), (6, 1)]),
            recon: block(&[(0, 188), (1, 56), (3, 56)]),
            last: 6,
        },
    ];
    for (i, c) in cases.iter().enumerate() {
        let out = trellis(c.q, c.coeffs, c.first, c.ctx0);
        assert_eq!(out.levels, c.levels, "case {i} levels");
        assert_eq!(out.recon, c.recon, "case {i} recon");
        assert_eq!(out.last, c.last, "case {i} last");
    }
}

#[test]
fn trellis_low_frequency_ac_survives_the_weighted_objective() {
    let coeffs = block(&[(0, 33), (3, 20)]);
    let out = trellis(17, coeffs, 0, 0);
    assert_eq!(
        out.levels,
        block(&[(0, 2), (6, 1)]),
        "DC level 2 and the low-frequency AC (zig-zag 6) as level 1"
    );
    assert_eq!(
        out.recon,
        block(&[(0, 38), (3, 21)]),
        "recon: DC 2*19 and AC 1*21 at natural position 3"
    );
    assert_eq!(
        out.last, 6,
        "the surviving AC lands the last non-zero at zig-zag 6"
    );
}

fn brute_force(
    coeffs: [i16; 16],
    pair: webpkit::quant::QPair,
    first: usize,
    ctx0: usize,
    lambda: i64,
) -> webpkit::quant::Quantized {
    let npos = 16 - first;
    let mut cand = [[0i32; 3]; 16];
    let mut ncand = [0usize; 16];
    for k in 0..npos {
        let n = first + k;
        let j = ZIGZAG[n];
        let factor = if j == 0 { pair.dc } else { pair.ac };
        let l0 = factor.quantize(i32::from(coeffs[j])).abs();
        let mut list = [l0, 0, 0];
        let mut c = 1usize;
        if l0 >= 1 {
            list[c] = l0 - 1;
            c += 1;
        }
        if l0 >= 2 {
            list[c] = 0;
            c += 1;
        }
        cand[k] = list;
        ncand[k] = c;
    }
    let mut idx = [0usize; 16];
    let mut best_total = i64::MAX;
    let mut best = webpkit::quant::Quantized {
        levels: [0; 16],
        recon: [0; 16],
        last: first as i32 - 1,
    };
    loop {
        let mut levels = [0i16; 16];
        let mut recon = [0i16; 16];
        let mut last = first as i32 - 1;
        let mut dist = 0i64;
        for k in 0..npos {
            let n = first + k;
            let j = ZIGZAG[n];
            let factor = if j == 0 { pair.dc } else { pair.ac };
            let q = factor.q;
            let mag = cand[k][idx[k]];
            let abs_c = i32::from(coeffs[j]).abs();
            let err = i64::from(abs_c - mag * q);
            dist += webpkit::trellis::trellis_weight(j) * err * err;
            let signed = if coeffs[j] < 0 { -mag } else { mag };
            levels[n] = signed as i16;
            recon[j] = (signed * q) as i16;
            if mag != 0 {
                last = n as i32;
            }
        }
        let rate = block_token_cost(levels, first, last, 0, ctx0, &COEFFS_PROBA_0);
        let total = webpkit::trellis::RD_DISTO_MULT * dist + lambda * rate;
        if total < best_total {
            best_total = total;
            best = webpkit::quant::Quantized {
                levels,
                recon,
                last,
            };
        }
        // Odometer: position `first` (k = 0) varies fastest, matching the trellis's
        // `l0 -> l0-1 -> 0` candidate order so the strict-`<` tie-break agrees.
        let mut k = 0;
        loop {
            if k == npos {
                return best;
            }
            idx[k] += 1;
            if idx[k] < ncand[k] {
                break;
            }
            idx[k] = 0;
            k += 1;
        }
    }
}

#[test]
fn trellis_matches_the_brute_force_optimum() {
    // A small deterministic LCG drives the battery — no `rand`, fully reproducible.
    let mut s: u32 = 0x1234_5678;
    let mut next = || {
        s = s.wrapping_mul(1_664_525).wrapping_add(1_013_904_223);
        s
    };
    for trial in 0..400u32 {
        let base_q = 8 + (next() % 100) as i32;
        let first = (next() % 2) as usize; // 0 or 1
        let ctx0 = (next() % 3) as usize;
        // Confine non-zeros to the first few positions so the product stays tiny,
        // but let one block reach position 15.
        let span = first + 5 + (next() % 3) as usize; // up to ~7 active positions
        let mut coeffs = [0i16; 16];
        for n in first..16 {
            let active = n < span || (n == 15 && (next() % 4 == 0));
            if active {
                // Signed magnitudes clustered near quant boundaries.
                let mag = (next() % 260) as i32 - 130;
                coeffs[ZIGZAG[n]] = mag as i16;
            }
        }
        let q = Quantizer::new(base_q);
        let lambda = trellis_lambda(q.y1.ac.q);
        let got = trellis_quantize_block(coeffs, q.y1, first, ctx0, 0, &COEFFS_PROBA_0, lambda);
        let want = brute_force(coeffs, q.y1, first, ctx0, lambda);
        assert_eq!(
            got.last, want.last,
            "trial {trial}: last mismatch (q={base_q}, first={first}, ctx0={ctx0})"
        );
        assert_eq!(got.levels, want.levels, "trial {trial}: levels mismatch");
        assert_eq!(got.recon, want.recon, "trial {trial}: recon mismatch");
    }
}
