//! Luminance-guided chroma subsampling.
//!
//! The box filter of [`crate::rgb_to_yuv`] gives the four pixels of a chroma site equal
//! say, so a dark pixel beside a bright one tints it. Here each pixel counts in
//! proportion to its luma: one weighted average per site, with no iterative refinement
//! against the luma that a reader will see.

use vstd::prelude::*;

use crate::rgb_to_yuv::{
    blocks_of, chroma_of_sum, clip_uv_sum, lemma_at, lemma_stride_fits, luma_at, picture_fits, pixel,
    read_pixel, rgb_to_y, weigh, SourceYuv, U_COEFF, V_COEFF,
};

verus! {

/// The chroma of pixel (`x`, `y`), times its luma.
pub open spec fn weighted(
    rgba: Seq<u8>,
    width: int,
    height: int,
    coeff: [i32; 3],
    x: int,
    y: int,
) -> int {
    luma_at(rgba, width, height, x, y) * weigh(
        coeff,
        pixel(rgba, width, height, x, y, 0),
        pixel(rgba, width, height, x, y, 1),
        pixel(rgba, width, height, x, y, 2),
    )
}

/// The weighted chroma summed over chroma site (`x`, `y`).
pub open spec fn weighted_sum(
    rgba: Seq<u8>,
    width: int,
    height: int,
    coeff: [i32; 3],
    x: int,
    y: int,
) -> int {
    weighted(rgba, width, height, coeff, 2 * x, 2 * y) + weighted(
        rgba,
        width,
        height,
        coeff,
        2 * x + 1,
        2 * y,
    ) + weighted(rgba, width, height, coeff, 2 * x, 2 * y + 1) + weighted(
        rgba,
        width,
        height,
        coeff,
        2 * x + 1,
        2 * y + 1,
    )
}

/// The luma summed over chroma site (`x`, `y`).
pub open spec fn luma_sum(rgba: Seq<u8>, width: int, height: int, x: int, y: int) -> int {
    luma_at(rgba, width, height, 2 * x, 2 * y) + luma_at(rgba, width, height, 2 * x + 1, 2 * y)
        + luma_at(rgba, width, height, 2 * x, 2 * y + 1) + luma_at(
        rgba,
        width,
        height,
        2 * x + 1,
        2 * y + 1,
    )
}

/// The luma-weighted chroma sample of site (`x`, `y`).
pub open spec fn sharp_at(
    rgba: Seq<u8>,
    width: int,
    height: int,
    coeff: [i32; 3],
    x: int,
    y: int,
) -> u8 {
    chroma_of_sum(
        (4 * weighted_sum(rgba, width, height, coeff, x, y)) / luma_sum(rgba, width, height, x, y),
    )
}

/// A luma-weighted chroma plane of a picture.
pub open spec fn sharp_plane(rgba: Seq<u8>, width: int, height: int, coeff: [i32; 3]) -> Seq<u8> {
    let stride = blocks_of(width) * 8;
    Seq::new(
        (stride * (blocks_of(height) * 8)) as nat,
        |i: int| sharp_at(rgba, width, height, coeff, i % stride, i / stride),
    )
}

/// The quotient rounded down.
fn floor_div(a: i64, b: i64) -> (r: i64)
    requires
        0 < b <= 1000,
        -0x1000_0000_0000 <= a <= 0x1000_0000_0000,
    ensures
        r == (a as int) / (b as int),
{
    if a >= 0 {
        a / b
    } else {
        let q: i64 = (-a - 1) / b;
        proof {
            vstd::arithmetic::div_mod::lemma_fundamental_div_mod(-a - 1, b as int);
            let m = (-a - 1) % (b as int);
            assert(0 <= m < b) by (nonlinear_arith)
                requires
                    m == (-a - 1) % (b as int),
                    0 < b,
            ;
            assert(0 <= q <= -a - 1) by (nonlinear_arith)
                requires
                    q == (-a - 1) / (b as int),
                    0 < b,
                    -a - 1 >= 0,
            ;
            assert(a == (-q - 1) * b + (b - 1 - m)) by (nonlinear_arith)
                requires
                    -a - 1 == b * q + m,
            ;
            vstd::arithmetic::div_mod::lemma_fundamental_div_mod_converse(
                a as int,
                b as int,
                -q - 1,
                b - 1 - m,
            );
        }
        -q - 1
    }
}

/// One pixel's luma and its two luma-weighted chroma values.
fn weigh_pixel(rgba: &[u8], width: usize, height: usize, x: usize, y: usize) -> (r: (i64, i64, i64))
    requires
        1 <= width,
        1 <= height,
        width * height * 4 <= rgba@.len(),
    ensures
        r.0 == luma_at(rgba@, width as int, height as int, x as int, y as int),
        r.1 == weighted(rgba@, width as int, height as int, U_COEFF, x as int, y as int),
        r.2 == weighted(rgba@, width as int, height as int, V_COEFF, x as int, y as int),
        16 <= r.0 <= 235,
        -7344000 * r.0 <= r.1 <= 7344000 * r.0,
        -7344000 * r.0 <= r.2 <= 7344000 * r.0,
{
    let (r, g, b) = read_pixel(rgba, width, height, x, y);
    let luma: i64 = rgb_to_y(r, g, b) as i64;
    let u: i64 = (U_COEFF[0] * r + U_COEFF[1] * g + U_COEFF[2] * b) as i64;
    let v: i64 = (V_COEFF[0] * r + V_COEFF[1] * g + V_COEFF[2] * b) as i64;
    proof {
        assert(-7344000 * luma <= luma * u <= 7344000 * luma) by (nonlinear_arith)
            requires
                16 <= luma <= 235,
                -7344000 <= u <= 7344000,
        ;
        assert(-7344000 * luma <= luma * v <= 7344000 * luma) by (nonlinear_arith)
            requires
                16 <= luma <= 235,
                -7344000 <= v <= 7344000,
        ;
    }
    (luma, luma * u, luma * v)
}

/// The two luma-weighted chroma samples of a site.
fn sharp_site(rgba: &[u8], width: usize, height: usize, x: usize, y: usize) -> (r: (u8, u8))
    requires
        1 <= width,
        1 <= height,
        width * height * 4 <= rgba@.len(),
        2 * x + 1 <= usize::MAX,
        2 * y + 1 <= usize::MAX,
    ensures
        r.0 == sharp_at(rgba@, width as int, height as int, U_COEFF, x as int, y as int),
        r.1 == sharp_at(rgba@, width as int, height as int, V_COEFF, x as int, y as int),
{
    let a: (i64, i64, i64) = weigh_pixel(rgba, width, height, 2 * x, 2 * y);
    let b: (i64, i64, i64) = weigh_pixel(rgba, width, height, 2 * x + 1, 2 * y);
    let c: (i64, i64, i64) = weigh_pixel(rgba, width, height, 2 * x, 2 * y + 1);
    let d: (i64, i64, i64) = weigh_pixel(rgba, width, height, 2 * x + 1, 2 * y + 1);
    let luma: i64 = a.0 + b.0 + c.0 + d.0;
    let u: i64 = a.1 + b.1 + c.1 + d.1;
    let v: i64 = a.2 + b.2 + c.2 + d.2;
    let mean_u: i64 = floor_div(4 * u, luma);
    let mean_v: i64 = floor_div(4 * v, luma);
    proof {
        lemma_mean(u as int, luma as int);
        lemma_mean(v as int, luma as int);
    }
    (clip_uv_sum(mean_u as i32), clip_uv_sum(mean_v as i32))
}

proof fn lemma_mean(s: int, w: int)
    requires
        0 < w,
        -7344000 * w <= s <= 7344000 * w,
    ensures
        -29376000 <= (4 * s) / w <= 29376000,
{
    let q = (4 * s) / w;
    assert(-29376000 <= q <= 29376000) by (nonlinear_arith)
        requires
            q == (4 * s) / w,
            0 < w,
            -7344000 * w <= s <= 7344000 * w,
    ;
}

/// Replace the chroma planes of `src` by luma-weighted ones. Luma stays.
pub fn refine_chroma(rgba: &[u8], width: usize, height: usize, src: &mut SourceYuv)
    requires
        picture_fits(rgba@.len() as int, width as int, height as int),
        old(src).wf(),
        old(src).mb_w == blocks_of(width as int),
        old(src).mb_h == blocks_of(height as int),
    ensures
        final(src).wf(),
        final(src).mb_w == old(src).mb_w,
        final(src).mb_h == old(src).mb_h,
        final(src).y@ == old(src).y@,
        final(src).u@ == sharp_plane(rgba@, width as int, height as int, U_COEFF),
        final(src).v@ == sharp_plane(rgba@, width as int, height as int, V_COEFF),
{
    proof {
        lemma_stride_fits(src.mb_w as int, src.mb_h as int);
    }
    let stride: usize = src.mb_w * 8;
    let rows: usize = src.mb_h * 8;
    let mut u: Vec<u8> = Vec::new();
    let mut v: Vec<u8> = Vec::new();
    let mut y: usize = 0;
    while y < rows
        invariant
            y <= rows,
            1 <= width,
            1 <= height,
            2 * stride <= usize::MAX,
            2 * rows <= usize::MAX,
            width * height * 4 <= rgba@.len(),
            u@.len() == y * stride,
            v@.len() == y * stride,
            forall|i: int|
                0 <= i < u@.len() ==> #[trigger] u@[i] == sharp_at(
                    rgba@,
                    width as int,
                    height as int,
                    U_COEFF,
                    i % stride as int,
                    i / stride as int,
                ),
            forall|i: int|
                0 <= i < v@.len() ==> #[trigger] v@[i] == sharp_at(
                    rgba@,
                    width as int,
                    height as int,
                    V_COEFF,
                    i % stride as int,
                    i / stride as int,
                ),
        decreases rows - y,
    {
        let mut x: usize = 0;
        while x < stride
            invariant
                x <= stride,
                y < rows,
                1 <= width,
                1 <= height,
                2 * stride <= usize::MAX,
                2 * rows <= usize::MAX,
                width * height * 4 <= rgba@.len(),
                u@.len() == y * stride + x,
                v@.len() == y * stride + x,
                forall|i: int|
                    0 <= i < u@.len() ==> #[trigger] u@[i] == sharp_at(
                        rgba@,
                        width as int,
                        height as int,
                        U_COEFF,
                        i % stride as int,
                        i / stride as int,
                    ),
                forall|i: int|
                    0 <= i < v@.len() ==> #[trigger] v@[i] == sharp_at(
                        rgba@,
                        width as int,
                        height as int,
                        V_COEFF,
                        i % stride as int,
                        i / stride as int,
                    ),
            decreases stride - x,
        {
            let (su, sv) = sharp_site(rgba, width, height, x, y);
            proof {
                lemma_at(stride as int, x as int, y as int, rows as int);
            }
            u.push(su);
            v.push(sv);
            x = x + 1;
        }
        y = y + 1;
        assert((y - 1) * stride + stride == y * stride) by (nonlinear_arith);
    }
    assert(rows * stride == stride * rows) by (nonlinear_arith);
    assert(u@ =~= sharp_plane(rgba@, width as int, height as int, U_COEFF));
    assert(v@ =~= sharp_plane(rgba@, width as int, height as int, V_COEFF));
    src.u = u;
    src.v = v;
}

} // verus!
