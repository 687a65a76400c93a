//! What quantization loses, and what a configuration asks for.

use vstd::prelude::*;

use crate::constants::quality_curve;
use crate::encoder::{request, Settings};
use crate::effort::Effort;
use crate::frame::pass_count;
use crate::image::Image;
use crate::quant::{consistent, level_mag, level_of, QPair, Quantized};
use crate::residual::nearest_levels;
use crate::scale_laws::quality_steps;

verus! {

/// The reciprocal of a step, as a 2^17th part, to the nearest.
proof fn lemma_reciprocal(q: int) -> (iq: int)
    requires
        1 <= q <= 2048,
    ensures
        iq == (131072 + q / 2) / q,
        2 * (iq * q) <= 2 * 131072 + q,
        2 * 131072 - q <= 2 * (iq * q),
        0 <= iq,
{
    let iq = (131072 + q / 2) / q;
    assert(iq * q <= 131072 + q / 2 < iq * q + q) by (nonlinear_arith)
        requires
            iq == (131072 + q / 2) / q,
            1 <= q,
    ;
    assert(0 <= iq) by (nonlinear_arith)
        requires
            iq == (131072 + q / 2) / q,
            1 <= q,
    ;
    iq
}

/// Quantizing to the nearest level loses at most five eighths of a step, as long as the
/// level is in the codable range; larger coefficients take its largest level.
pub proof fn nearest_levels_are_near(q: int, c: int)
    requires
        1 <= q <= 2048,
        -32768 <= c <= 32768,
    ensures
        -2047 <= level_of(q, c) <= 2047,
        -2047 < level_of(q, c) < 2047 ==> -5 * q <= 8 * (c - level_of(q, c) * q) <= 5 * q,
        level_of(q, -c) == -level_of(q, c),
{
    let m = if c < 0 {
        -c
    } else {
        c
    };
    let iq = lemma_reciprocal(q);
    let l = (m * iq + 65536) / 131072;
    assert(0 <= m * iq) by (nonlinear_arith)
        requires
            0 <= m,
            0 <= iq,
    ;
    assert(l * 131072 <= m * iq + 65536 < l * 131072 + 131072);
    let p = iq * q;
    assert((m * iq) * q == m * p) by (nonlinear_arith)
        requires
            p == iq * q,
    ;
    assert(2 * (m * p) <= 2 * 131072 * m + m * q && 2 * 131072 * m - m * q <= 2 * (m * p))
        by (nonlinear_arith)
        requires
            2 * p <= 2 * 131072 + q,
            2 * 131072 - q <= 2 * p,
            0 <= m,
    ;
    assert(0 <= m * q <= 32768 * q) by (nonlinear_arith)
        requires
            0 <= m <= 32768,
            1 <= q,
    ;
    let t = l * q;
    assert(t * 131072 <= m * p + 65536 * q && m * p + 65536 * q < t * 131072 + 131072 * q)
        by (nonlinear_arith)
        requires
            t == l * q,
            l * 131072 <= m * iq + 65536 < l * 131072 + 131072,
            (m * iq) * q == m * p,
            1 <= q,
    ;
    assert(-5 * q <= 8 * (m - t) <= 5 * q);
    assert(level_mag(q, m) == (if l > 2047 {
        2047
    } else {
        l
    }));
    assert((-l) * q == -t) by (nonlinear_arith)
        requires
            t == l * q,
    ;
    if c == 0 {
        assert(m * iq == 0) by (nonlinear_arith)
            requires
                m == 0,
        ;
        assert(level_mag(q, 0) == 0);
    }
}

/// A whole number of steps quantizes to that number.
pub proof fn whole_steps_are_kept(q: int, k: int)
    requires
        1 <= q <= 2048,
        0 <= k <= 2047,
        k * q <= 131071,
    ensures
        level_of(q, k * q) == k,
        level_of(q, -(k * q)) == -k,
{
    let iq = lemma_reciprocal(q);
    let c = k * q;
    let p = iq * q;
    assert(0 <= c) by (nonlinear_arith)
        requires
            c == k * q,
            0 <= k,
            1 <= q,
    ;
    assert(c * iq == k * p) by (nonlinear_arith)
        requires
            c == k * q,
            p == iq * q,
    ;
    assert(2 * (k * p) <= 2 * 131072 * k + c && 2 * 131072 * k - c <= 2 * (k * p)) by (nonlinear_arith)
        requires
            2 * p <= 2 * 131072 + q,
            2 * 131072 - q <= 2 * p,
            0 <= k,
            c == k * q,
    ;
    assert((c * iq + 65536) / 131072 == k);
    if c == 0 {
        assert(k == 0) by (nonlinear_arith)
            requires
                k * q == 0,
                1 <= q,
        ;
    }
}

/// The natural place of each zig-zag coefficient.
pub open spec fn place(n: int) -> int {
    seq![0int, 1, 4, 8, 5, 2, 3, 6, 9, 12, 13, 10, 7, 11, 14, 15][n]
}

/// A quantized block reconstructs each coefficient to its level times its step, the first
/// coefficient's step for the first one and the other step for the rest.
pub proof fn blocks_reconstruct_to_levels_times_steps(r: Quantized, pair: QPair, first: int, n: int)
    requires
        consistent(r, pair, first),
        0 <= n < 16,
        1 <= pair.dc.q <= 16,
        1 <= pair.ac.q <= 16,
    ensures
        r.recon@[place(n)] == r.levels@[n] * (if n == 0 {
            pair.dc.q
        } else {
            pair.ac.q
        }),
        n < first ==> r.levels@[n] == 0,
        n > r.last ==> r.levels@[n] == 0,
{
    crate::syntax_laws::coefficient_order(n);
    let l = r.levels@[n] as int;
    let s = pair.step(n);
    assert(-32752 <= l * s <= 32752) by (nonlinear_arith)
        requires
            -2047 <= l <= 2047,
            1 <= s <= 16,
    ;
    assert(r.recon@[crate::constants::ZIGZAG[n] as int] == (r.levels@[n] * pair.step(n)) as i16);
}

/// The nearest levels of a block are those of its coefficients, from the first on.
pub proof fn nearest_levels_by_coefficient(c: Seq<i16>, pair: QPair, first: int, n: int)
    requires
        0 <= n < 16,
        1 <= pair.dc.q <= 2048,
        1 <= pair.ac.q <= 2048,
    ensures
        n < first ==> nearest_levels(c, pair, first)[n] == 0,
        n >= first ==> nearest_levels(c, pair, first)[n] == level_of(
            if n == 0 {
                pair.dc.q as int
            } else {
                pair.ac.q as int
            },
            c[place(n)] as int,
        ),
{
    crate::syntax_laws::coefficient_order(n);
    nearest_levels_are_near(pair.step(n), c[place(n)] as int);
}

/// What a configuration asks of a frame: the picture itself, the quantizer index of the
/// quality, the effort, and the knobs as they are set.
pub proof fn configuration_is_passed_on(image: Image, s: Settings)
    requires
        0 <= s.quality <= 100,
        0 <= s.knobs.sns_strength <= 255,
        0 <= s.knobs.segments <= 255,
        0 <= s.knobs.filter_strength <= 255,
        0 <= s.knobs.filter_sharpness <= 255,
        0 <= s.knobs.pass <= 255,
    ensures
        ({
            let r = request(image, s);
            &&& r.rgba == image.bytes@
            &&& r.width == image.dims.width
            &&& r.height == image.dims.height
            &&& r.base_q == quality_curve(s.quality)
            &&& 80 <= s.quality <= 99 ==> r.base_q == 99 - s.quality
            &&& r.effort == s.effort
            &&& r.tuning.sns_strength == s.knobs.sns_strength
            &&& r.tuning.segments == s.knobs.segments
            &&& r.tuning.filter_strength == s.knobs.filter_strength
            &&& r.tuning.filter_sharpness == s.knobs.filter_sharpness
            &&& r.tuning.sharp_yuv == s.knobs.sharp_yuv
            &&& r.tuning.passes == s.knobs.pass
        }),
{
    quality_steps(s.quality, s.quality);
}

/// The number of passes is the knob's, at least one; the fastest effort makes one.
pub proof fn passes_are_made(effort: Effort, passes: u8)
    ensures
        pass_count(Effort::Fast, passes) == 1,
        effort != Effort::Fast ==> pass_count(effort, passes) == (if passes == 0 {
            1int
        } else {
            passes as int
        }),
{
}

} // verus!
