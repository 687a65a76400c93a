//! Inverse transforms, in fixed-point integers.
//!
//! The inverse DCT adds a 4x4 residual onto predicted samples; the inverse
//! Walsh-Hadamard transform spreads a second-order block over the DC slots of the
//! sixteen luma blocks.

use vstd::prelude::*;

use crate::arith::{clip8, clip8_spec, group_shr};
use crate::block::{blit, get_square4, put_square, square4, square_fits};

verus! {

broadcast use group_shr;

/// `a * (sqrt(2) * cos(pi / 8))` in 16-bit fixed point.
pub open spec fn mul1_spec(a: int) -> int {
    (a * 20091) / 65536 + a
}

/// `a * (sqrt(2) * sin(pi / 8))` in 16-bit fixed point.
pub open spec fn mul2_spec(a: int) -> int {
    (a * 35468) / 65536
}

/// Multiply by `sqrt(2) * cos(pi / 8)`, rounding down.
pub fn mul1(a: i32) -> (r: i32)
    requires
        -1000000000 <= a <= 1000000000,
    ensures
        r == mul1_spec(a as int),
{
    ((a as i64 * 20091) >> 16) as i32 + a
}

/// Multiply by `sqrt(2) * sin(pi / 8)`, rounding down.
pub fn mul2(a: i32) -> (r: i32)
    ensures
        r == mul2_spec(a as int),
{
    ((a as i64 * 35468) >> 16) as i32
}

/// One four-point inverse DCT: output `k` of inputs `i0`, `i1`, `i2`, `i3`.
#[verifier::opaque]
pub open spec fn idct4(i0: int, i1: int, i2: int, i3: int, k: int) -> int {
    let a = i0 + i2;
    let b = i0 - i2;
    let c = mul2_spec(i1) - mul1_spec(i3);
    let d = mul1_spec(i1) + mul2_spec(i3);
    if k == 0 {
        a + d
    } else if k == 1 {
        b + c
    } else if k == 2 {
        b - c
    } else {
        a - d
    }
}

/// Vertical pass: output `k` of column `j` of the coefficients.
pub open spec fn idct_col(c: Seq<i16>, j: int, k: int) -> int {
    idct4(c[j] as int, c[4 + j] as int, c[8 + j] as int, c[12 + j] as int, k)
}

/// The residual at column `x`, row `y`: the horizontal pass, rounded.
pub open spec fn idct_residual(c: Seq<i16>, x: int, y: int) -> int {
    idct4(idct_col(c, 0, y) + 4, idct_col(c, 1, y), idct_col(c, 2, y), idct_col(c, 3, y), x) / 8
}

/// Predicted samples with the residual of `c` added and clipped.
pub open spec fn idct_add(c: Seq<i16>, pred: Seq<u8>) -> Seq<u8> {
    Seq::new(16, |i: int| clip8_spec(pred[i] + idct_residual(c, i % 4, i / 4)))
}

/// Predicted samples with the constant residual of a DC coefficient added.
pub open spec fn idct_dc_add(dc: int, pred: Seq<u8>) -> Seq<u8> {
    Seq::new(16, |i: int| clip8_spec(pred[i] + (dc + 4) / 8))
}

fn idct4_exec(i0: i32, i1: i32, i2: i32, i3: i32) -> (r: [i32; 4])
    requires
        -200000 <= i0 <= 200000,
        -200000 <= i1 <= 200000,
        -200000 <= i2 <= 200000,
        -200000 <= i3 <= 200000,
    ensures
        forall|k: int| 0 <= k < 4 ==> #[trigger] r@[k] == idct4(i0 as int, i1 as int, i2 as int, i3 as int, k),
        forall|k: int| 0 <= k < 4 ==> -1000000 <= #[trigger] r@[k] <= 1000000,
        (-32768 <= i0 <= 32767 && -32768 <= i1 <= 32767 && -32768 <= i2 <= 32767 && -32768 <= i3 <= 32767)
            ==> forall|k: int| 0 <= k < 4 ==> -190000 <= #[trigger] r@[k] <= 190000,
{
    reveal(idct4);
    let a: i32 = i0 + i2;
    let b: i32 = i0 - i2;
    let c: i32 = mul2(i1) - mul1(i3);
    let d: i32 = mul1(i1) + mul2(i3);
    [a + d, b + c, b - c, a - d]
}

fn idct_col_exec(c: &[i16], j: usize) -> (r: [i32; 4])
    requires
        c@.len() >= 16,
        j < 4,
    ensures
        forall|k: int| 0 <= k < 4 ==> #[trigger] r@[k] == idct_col(c@, j as int, k),
        forall|k: int| 0 <= k < 4 ==> -190000 <= #[trigger] r@[k] <= 190000,
{
    idct4_exec(c[j] as i32, c[4 + j] as i32, c[8 + j] as i32, c[12 + j] as i32)
}

/// Inverse DCT of `coeffs`, added onto the 4x4 block at `off` and clipped.
pub fn transform_one(coeffs: &[i16], plane: &mut [u8], off: usize, stride: usize)
    requires
        coeffs@.len() >= 16,
        square_fits(old(plane)@.len() as int, off as int, stride as int, 4),
    ensures
        final(plane)@ == blit(
            old(plane)@,
            off as int,
            stride as int,
            4,
            idct_add(coeffs@, square4(old(plane)@, off as int, stride as int)),
        ),
{
    let t0: [i32; 4] = idct_col_exec(coeffs, 0);
    let t1: [i32; 4] = idct_col_exec(coeffs, 1);
    let t2: [i32; 4] = idct_col_exec(coeffs, 2);
    let t3: [i32; 4] = idct_col_exec(coeffs, 3);
    let pred: [u8; 16] = get_square4(plane, off, stride);
    let mut b: [u8; 16] = [0u8; 16];
    let mut y: usize = 0;
    while y < 4
        invariant
            y <= 4,
            forall|k: int| 0 <= k < 4 ==> #[trigger] t0@[k] == idct_col(coeffs@, 0, k),
            forall|k: int| 0 <= k < 4 ==> #[trigger] t1@[k] == idct_col(coeffs@, 1, k),
            forall|k: int| 0 <= k < 4 ==> #[trigger] t2@[k] == idct_col(coeffs@, 2, k),
            forall|k: int| 0 <= k < 4 ==> #[trigger] t3@[k] == idct_col(coeffs@, 3, k),
            forall|k: int| 0 <= k < 4 ==> -190000 <= #[trigger] t0@[k] <= 190000,
            forall|k: int| 0 <= k < 4 ==> -190000 <= #[trigger] t1@[k] <= 190000,
            forall|k: int| 0 <= k < 4 ==> -190000 <= #[trigger] t2@[k] <= 190000,
            forall|k: int| 0 <= k < 4 ==> -190000 <= #[trigger] t3@[k] <= 190000,
            forall|i: int|
                0 <= i < 4 * y ==> #[trigger] b@[i] == clip8_spec(
                    pred@[i] + idct_residual(coeffs@, i % 4, i / 4),
                ),
        decreases 4 - y,
    {
        let r: [i32; 4] = idct4_exec(t0[y] + 4, t1[y], t2[y], t3[y]);
        let k: usize = 4 * y;
        assert(forall|x: int| 0 <= x < 4 ==> #[trigger] r@[x] / 8 == idct_residual(coeffs@, x, y as int));
        b[k] = clip8(pred[k] as i32 + (r[0] >> 3));
        b[k + 1] = clip8(pred[k + 1] as i32 + (r[1] >> 3));
        b[k + 2] = clip8(pred[k + 2] as i32 + (r[2] >> 3));
        b[k + 3] = clip8(pred[k + 3] as i32 + (r[3] >> 3));
        y = y + 1;
    }
    assert(b@ =~= idct_add(coeffs@, square4(plane@, off as int, stride as int)));
    put_square(plane, off, stride, 4, &b);
}

/// Add the residual of a block whose only coefficient is its DC term.
pub fn transform_dc(dc: i16, plane: &mut [u8], off: usize, stride: usize)
    requires
        square_fits(old(plane)@.len() as int, off as int, stride as int, 4),
    ensures
        final(plane)@ == blit(
            old(plane)@,
            off as int,
            stride as int,
            4,
            idct_dc_add(dc as int, square4(old(plane)@, off as int, stride as int)),
        ),
{
    let d: i32 = (dc as i32 + 4) >> 3;
    let pred: [u8; 16] = get_square4(plane, off, stride);
    let mut b: [u8; 16] = [0u8; 16];
    let mut i: usize = 0;
    while i < 16
        invariant
            i <= 16,
            -5000 <= d <= 5000,
            d == (dc + 4) / 8,
            forall|j: int| 0 <= j < i ==> #[trigger] b@[j] == clip8_spec(pred@[j] + (dc + 4) / 8),
        decreases 16 - i,
    {
        b[i] = clip8(pred[i] as i32 + d);
        i = i + 1;
    }
    assert(b@ =~= idct_dc_add(dc as int, square4(plane@, off as int, stride as int)));
    put_square(plane, off, stride, 4, &b);
}

/// On a block with no AC coefficients the DC-only transform and the full inverse
/// DCT add the same residual.
pub proof fn dc_only_transform_is_full_transform(c: Seq<i16>, pred: Seq<u8>)
    requires
        c.len() >= 16,
        forall|i: int| 1 <= i < 16 ==> c[i] == 0,
    ensures
        idct_dc_add(c[0] as int, pred) == idct_add(c, pred),
{
    assert forall|i: int| 0 <= i < 16 implies #[trigger] idct_add(c, pred)[i] == idct_dc_add(
        c[0] as int,
        pred,
    )[i] by {
        reveal(idct4);
        let y = i / 4;
        assert(idct_col(c, 0, y) == c[0]);
        assert(idct_col(c, 1, y) == 0);
        assert(idct_col(c, 2, y) == 0);
        assert(idct_col(c, 3, y) == 0);
    }
    assert(idct_dc_add(c[0] as int, pred) =~= idct_add(c, pred));
}

/// One four-point inverse Walsh-Hadamard butterfly.
pub open spec fn wht4(i0: int, i1: int, i2: int, i3: int, k: int) -> int {
    let a0 = i0 + i3;
    let a1 = i1 + i2;
    let a2 = i1 - i2;
    let a3 = i0 - i3;
    if k == 0 {
        a0 + a1
    } else if k == 1 {
        a3 + a2
    } else if k == 2 {
        a0 - a1
    } else {
        a3 - a2
    }
}

/// Vertical pass of the inverse Walsh-Hadamard transform.
pub open spec fn wht_col(c: Seq<i16>, j: int, k: int) -> int {
    wht4(c[j] as int, c[4 + j] as int, c[8 + j] as int, c[12 + j] as int, k)
}

/// The DC coefficient of luma block `n`.
pub open spec fn wht_dc(c: Seq<i16>, n: int) -> i16 {
    (wht4(
        wht_col(c, 0, n / 4) + 3,
        wht_col(c, 1, n / 4),
        wht_col(c, 2, n / 4),
        wht_col(c, 3, n / 4),
        n % 4,
    ) / 8) as i16
}

/// `out` with the DC slot of each luma block replaced.
pub open spec fn wht_scatter(c: Seq<i16>, out: Seq<i16>) -> Seq<i16> {
    Seq::new(
        out.len(),
        |i: int|
            if i < 256 && i % 16 == 0 {
                wht_dc(c, i / 16)
            } else {
                out[i]
            },
    )
}

fn wht4_exec(i0: i32, i1: i32, i2: i32, i3: i32) -> (r: [i32; 4])
    requires
        -200000 <= i0 <= 200000,
        -200000 <= i1 <= 200000,
        -200000 <= i2 <= 200000,
        -200000 <= i3 <= 200000,
    ensures
        forall|k: int| 0 <= k < 4 ==> #[trigger] r@[k] == wht4(i0 as int, i1 as int, i2 as int, i3 as int, k),
{
    let a0: i32 = i0 + i3;
    let a1: i32 = i1 + i2;
    let a2: i32 = i1 - i2;
    let a3: i32 = i0 - i3;
    [a0 + a1, a3 + a2, a0 - a1, a3 - a2]
}

fn wht_col_exec(c: &[i16; 16], j: usize) -> (r: [i32; 4])
    requires
        j < 4,
    ensures
        forall|k: int| 0 <= k < 4 ==> #[trigger] r@[k] == wht_col(c@, j as int, k),
        forall|k: int| 0 <= k < 4 ==> -131072 <= #[trigger] r@[k] <= 131072,
{
    wht4_exec(c[j] as i32, c[4 + j] as i32, c[8 + j] as i32, c[12 + j] as i32)
}

/// Inverse Walsh-Hadamard transform of the second-order block `input`, scattered
/// into the DC slot of each luma block of `out`.
pub fn transform_wht(input: [i16; 16], out: &mut [i16; 384])
    ensures
        final(out)@ == wht_scatter(input@, old(out)@),
{
    let t0: [i32; 4] = wht_col_exec(&input, 0);
    let t1: [i32; 4] = wht_col_exec(&input, 1);
    let t2: [i32; 4] = wht_col_exec(&input, 2);
    let t3: [i32; 4] = wht_col_exec(&input, 3);
    let mut y: usize = 0;
    while y < 4
        invariant
            y <= 4,
            forall|k: int| 0 <= k < 4 ==> #[trigger] t0@[k] == wht_col(input@, 0, k),
            forall|k: int| 0 <= k < 4 ==> #[trigger] t1@[k] == wht_col(input@, 1, k),
            forall|k: int| 0 <= k < 4 ==> #[trigger] t2@[k] == wht_col(input@, 2, k),
            forall|k: int| 0 <= k < 4 ==> #[trigger] t3@[k] == wht_col(input@, 3, k),
            forall|k: int| 0 <= k < 4 ==> -131072 <= #[trigger] t0@[k] <= 131072,
            forall|k: int| 0 <= k < 4 ==> -131072 <= #[trigger] t1@[k] <= 131072,
            forall|k: int| 0 <= k < 4 ==> -131072 <= #[trigger] t2@[k] <= 131072,
            forall|k: int| 0 <= k < 4 ==> -131072 <= #[trigger] t3@[k] <= 131072,
            forall|i: int|
                0 <= i < 384 ==> #[trigger] out@[i] == (if i < 64 * y && i % 16 == 0 {
                    wht_dc(input@, i / 16)
                } else {
                    old(out)@[i]
                }),
        decreases 4 - y,
    {
        let r: [i32; 4] = wht4_exec(t0[y] + 3, t1[y], t2[y], t3[y]);
        let base: usize = 64 * y;
        proof {
            let b = 4 * y as int;
            assert(b / 4 == y && b % 4 == 0);
            assert((b + 1) / 4 == y && (b + 1) % 4 == 1);
            assert((b + 2) / 4 == y && (b + 2) % 4 == 2);
            assert((b + 3) / 4 == y && (b + 3) % 4 == 3);
            assert((r@[0] / 8) as i16 == wht_dc(input@, b));
            assert((r@[1] / 8) as i16 == wht_dc(input@, b + 1));
            assert((r@[2] / 8) as i16 == wht_dc(input@, b + 2));
            assert((r@[3] / 8) as i16 == wht_dc(input@, b + 3));
        }
        out[base] = (r[0] >> 3) as i16;
        out[base + 16] = (r[1] >> 3) as i16;
        out[base + 32] = (r[2] >> 3) as i16;
        out[base + 48] = (r[3] >> 3) as i16;
        y = y + 1;
    }
    assert(out@ =~= wht_scatter(input@, old(out)@));
}

} // verus!
