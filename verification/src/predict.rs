//! Intra prediction.
//!
//! Planes are row-major; the sample at column `x`, row `y` of the block at `off` is
//! `plane[off + x + y * stride]`. Every predictor reads only the samples above and
//! to the left of its block and replaces the block.

use vstd::prelude::*;

use crate::arith::{clip8, clip8_spec, group_shr};
use crate::block::{blit, in_square, put_square, square_fits};
use crate::constants::{
    B_DC_PRED, B_HD_PRED, B_HE_PRED, B_HU_PRED, B_LD_PRED, B_RD_PRED, B_TM_PRED, B_VE_PRED,
    B_VL_PRED, B_VR_PRED, DC_PRED, H_PRED, TM_PRED, V_PRED,
};

verus! {

broadcast use group_shr;

/// Rounded average of three samples, the middle one counted twice.
pub open spec fn avg3_spec(a: int, b: int, c: int) -> u8 {
    ((a + 2 * b + c + 2) / 4) as u8
}

/// Rounded average of two samples.
pub open spec fn avg2_spec(a: int, b: int) -> u8 {
    ((a + b + 1) / 2) as u8
}

/// Rounded average of three samples, the middle one counted twice.
pub fn avg3(a: i32, b: i32, c: i32) -> (r: u8)
    requires
        -0x1000_0000 <= a <= 0x1000_0000,
        -0x1000_0000 <= b <= 0x1000_0000,
        -0x1000_0000 <= c <= 0x1000_0000,
    ensures
        r == avg3_spec(a as int, b as int, c as int),
{
    ((a + 2 * b + c + 2) >> 2) as u8
}

/// Rounded average of two samples.
pub fn avg2(a: i32, b: i32) -> (r: u8)
    requires
        -0x1000_0000 <= a <= 0x1000_0000,
        -0x1000_0000 <= b <= 0x1000_0000,
    ensures
        r == avg2_spec(a as int, b as int),
{
    ((a + b + 1) >> 1) as u8
}

/// Whether the `n`-by-`n` block at `off` and the row above and column left of it fit
/// in a plane of `len` samples.
pub open spec fn has_edge(len: int, off: int, stride: int, n: int) -> bool {
    &&& square_fits(len, off, stride, n)
    &&& off >= stride + 1
}

/// The `n` samples above the block.
pub open spec fn top_row(plane: Seq<u8>, off: int, stride: int, n: int) -> Seq<u8> {
    Seq::new(n as nat, |i: int| plane[off - stride + i])
}

/// The `n` samples left of the block.
pub open spec fn left_col(plane: Seq<u8>, off: int, stride: int, n: int) -> Seq<u8> {
    Seq::new(n as nat, |j: int| plane[off + j * stride - 1])
}

/// The sum of the first `n` samples.
pub open spec fn sum_first(s: Seq<u8>, n: int) -> int
    decreases n,
{
    if n <= 0 {
        0
    } else {
        sum_first(s, n - 1) + s[n - 1]
    }
}

/// The sum of fewer than 17 samples.
pub proof fn lemma_sum_first_range(s: Seq<u8>, n: int)
    requires
        0 <= n,
    ensures
        0 <= sum_first(s, n) <= 255 * n,
    decreases n,
{
    if n > 0 {
        lemma_sum_first_range(s, n - 1);
    }
}

/// A sum depends on its terms only.
pub proof fn lemma_sum_first_ext(s: Seq<u8>, t: Seq<u8>, n: int)
    requires
        forall|i: int| 0 <= i < n ==> s[i] == t[i],
    ensures
        sum_first(s, n) == sum_first(t, n),
    decreases n,
{
    if n > 0 {
        lemma_sum_first_ext(s, t, n - 1);
    }
}

/// A constant block.
pub open spec fn flat_block(n: int, v: u8) -> Seq<u8> {
    Seq::new((n * n) as nat, |i: int| v)
}

/// Every row is the row above the block.
pub open spec fn vertical_block(n: int, top: Seq<u8>) -> Seq<u8> {
    Seq::new((n * n) as nat, |i: int| top[i % n])
}

/// Every column is the column left of the block.
pub open spec fn horizontal_block(n: int, left: Seq<u8>) -> Seq<u8> {
    Seq::new((n * n) as nat, |i: int| left[i / n])
}

/// Above plus left minus corner, clipped.
pub open spec fn true_motion_block(n: int, top: Seq<u8>, left: Seq<u8>, corner: u8) -> Seq<u8> {
    Seq::new((n * n) as nat, |i: int| clip8_spec(top[i % n] + left[i / n] - corner))
}

/// Average of the available neighbours, 128 if there are none.
pub open spec fn dc_value(n: int, top: Seq<u8>, left: Seq<u8>, has_top: bool, has_left: bool) -> u8 {
    if has_top && has_left {
        ((sum_first(top, n) + sum_first(left, n) + n) / (2 * n)) as u8
    } else if has_top {
        ((sum_first(top, n) + n / 2) / n) as u8
    } else if has_left {
        ((sum_first(left, n) + n / 2) / n) as u8
    } else {
        128
    }
}

/// The whole-block prediction of `mode`; other modes predict nothing.
pub open spec fn whole_block(
    n: int,
    mode: u8,
    top: Seq<u8>,
    left: Seq<u8>,
    corner: u8,
    has_top: bool,
    has_left: bool,
) -> Seq<u8> {
    if mode == DC_PRED {
        flat_block(n, dc_value(n, top, left, has_top, has_left))
    } else if mode == TM_PRED {
        true_motion_block(n, top, left, corner)
    } else if mode == V_PRED {
        vertical_block(n, top)
    } else {
        horizontal_block(n, left)
    }
}

/// `plane` after predicting the `n`-by-`n` block at `off` in `mode`.
pub open spec fn predict_whole(
    plane: Seq<u8>,
    off: int,
    stride: int,
    n: int,
    mode: u8,
    has_top: bool,
    has_left: bool,
) -> Seq<u8> {
    if mode <= H_PRED {
        blit(
            plane,
            off,
            stride,
            n,
            whole_block(
                n,
                mode,
                top_row(plane, off, stride, n),
                left_col(plane, off, stride, n),
                plane[off - stride - 1],
                has_top,
                has_left,
            ),
        )
    } else {
        plane
    }
}

/// Blocks that agree on their samples blit alike.
pub proof fn lemma_blit_ext(plane: Seq<u8>, off: int, stride: int, n: int, a: Seq<u8>, b: Seq<u8>)
    requires
        1 <= n <= stride,
        forall|i: int| 0 <= i < n * n ==> a[i] == b[i],
    ensures
        blit(plane, off, stride, n, a) == blit(plane, off, stride, n, b),
{
    assert forall|i: int| 0 <= i < plane.len() && in_square(i, off, stride, n) implies a[((i - off)
        / stride) * n + (i - off) % stride] == b[((i - off) / stride) * n + (i - off) % stride] by {
        let y = (i - off) / stride;
        let x = (i - off) % stride;
        assert(y >= 0) by (nonlinear_arith)
            requires
                y == (i - off) / stride,
                i >= off,
                stride >= 1,
        ;
        assert(0 <= y * n + x < n * n) by (nonlinear_arith)
            requires
                0 <= y < n,
                0 <= x < n,
        ;
    }
    assert(blit(plane, off, stride, n, a) =~= blit(plane, off, stride, n, b));
}

/// Copy the row above the block into a buffer.
fn read_top(plane: &[u8], off: usize, stride: usize, n: usize) -> (r: [u8; 16])
    requires
        has_edge(plane@.len() as int, off as int, stride as int, n as int),
        n <= 16,
    ensures
        forall|i: int| 0 <= i < n ==> #[trigger] r@[i] == top_row(plane@, off as int, stride as int, n as int)[i],
{
    let len: usize = plane.len();
    let mut r: [u8; 16] = [0u8; 16];
    let mut i: usize = 0;
    let base: usize = off - stride;
    proof {
        crate::block::lemma_square_index(len as int, off as int, stride as int, n as int, n - 1, 0);
    }
    while i < n
        invariant
            i <= n <= 16,
            base == off - stride,
            off + n <= plane@.len(),
            plane@.len() == len,
            stride <= off,
            forall|j: int| 0 <= j < i ==> #[trigger] r@[j] == plane@[off - stride + j],
        decreases n - i,
    {
        r[i] = plane[base + i];
        i = i + 1;
    }
    r
}

/// Copy the column left of the block into a buffer.
fn read_left(plane: &[u8], off: usize, stride: usize, n: usize) -> (r: [u8; 16])
    requires
        has_edge(plane@.len() as int, off as int, stride as int, n as int),
        n <= 16,
    ensures
        forall|i: int| 0 <= i < n ==> #[trigger] r@[i] == left_col(plane@, off as int, stride as int, n as int)[i],
{
    let len: usize = plane.len();
    let mut r: [u8; 16] = [0u8; 16];
    let mut i: usize = 0;
    let mut at: usize = off - 1;
    while i < n
        invariant
            i <= n <= 16,
            square_fits(len as int, off as int, stride as int, n as int),
            off >= 1,
            plane@.len() == len,
            i < n ==> at == off + i * stride - 1,
            forall|j: int| 0 <= j < i ==> #[trigger] r@[j] == plane@[off + j * stride - 1],
        decreases n - i,
    {
        proof {
            crate::block::lemma_square_index(len as int, off as int, stride as int, n as int, 0, i as int);
        }
        r[i] = plane[at];
        i = i + 1;
        if i < n {
            proof {
                crate::block::lemma_square_index(len as int, off as int, stride as int, n as int, 0, i as int);
                assert((i - 1) * stride + stride == i * stride) by (nonlinear_arith);
            }
            at = at + stride;
        }
    }
    r
}

/// Store one sample at column `x`, row `y` of the block at `off`.
pub fn put(plane: &mut [u8], off: usize, stride: usize, x: usize, y: usize, v: u8)
    requires
        off + x + y * stride < old(plane)@.len(),
    ensures
        final(plane)@ == old(plane)@.update(off + x + y * stride, v),
{
    let len: usize = plane.len();
    assert(y * stride >= 0) by (nonlinear_arith);
    plane[off + x + y * stride] = v;
}

/// Fill the `size`-by-`size` block at `off` with `v`.
pub fn fill_square(plane: &mut [u8], off: usize, stride: usize, size: usize, v: u8)
    requires
        square_fits(old(plane)@.len() as int, off as int, stride as int, size as int),
        size <= 16,
    ensures
        final(plane)@ == blit(
            old(plane)@,
            off as int,
            stride as int,
            size as int,
            flat_block(size as int, v),
        ),
{
    let b: [u8; 256] = [v;256];
    assert(size * size <= 256) by (nonlinear_arith)
        requires
            size <= 16,
    ;
    proof {
        assert(forall|i: int| 0 <= i < 256 ==> b@[i] == v);
        lemma_blit_ext(plane@, off as int, stride as int, size as int, b@, flat_block(size as int, v));
    }
    put_square(plane, off, stride, size, &b);
}

/// Coordinates of the `k`-th sample of a row-major block.
proof fn lemma_raster(n: int, x: int, y: int)
    requires
        0 <= x < n,
        0 <= y < n,
    ensures
        (y * n + x) / n == y,
        (y * n + x) % n == x,
        0 <= y * n + x < n * n,
{
    assert(y * n + x == n * y + x) by (nonlinear_arith);
    vstd::arithmetic::div_mod::lemma_fundamental_div_mod_converse(y * n + x, n, y, x);
    assert(0 <= y * n + x < n * n) by (nonlinear_arith)
        requires
            0 <= x < n,
            0 <= y < n,
    ;
}

/// TrueMotion prediction of a `size`-by-`size` block.
pub fn true_motion(plane: &mut [u8], off: usize, stride: usize, size: usize)
    requires
        has_edge(old(plane)@.len() as int, off as int, stride as int, size as int),
        size <= 16,
    ensures
        final(plane)@ == blit(
            old(plane)@,
            off as int,
            stride as int,
            size as int,
            true_motion_block(
                size as int,
                top_row(old(plane)@, off as int, stride as int, size as int),
                left_col(old(plane)@, off as int, stride as int, size as int),
                old(plane)@[off - stride - 1],
            ),
        ),
{
    let len: usize = plane.len();
    let top: [u8; 16] = read_top(plane, off, stride, size);
    let left: [u8; 16] = read_left(plane, off, stride, size);
    let corner: u8 = plane[off - stride - 1];
    let ghost want = true_motion_block(
        size as int,
        top_row(plane@, off as int, stride as int, size as int),
        left_col(plane@, off as int, stride as int, size as int),
        corner,
    );
    let mut b: [u8; 256] = [0u8; 256];
    let mut y: usize = 0;
    let mut k: usize = 0;
    assert(size * size <= 256) by (nonlinear_arith)
        requires
            size <= 16,
    ;
    let ghost t = top_row(plane@, off as int, stride as int, size as int);
    let ghost l = left_col(plane@, off as int, stride as int, size as int);
    while y < size
        invariant
            y <= size <= 16,
            k == y * size,
            want == true_motion_block(size as int, t, l, corner),
            forall|i: int| 0 <= i < size ==> #[trigger] top@[i] == t[i],
            forall|i: int| 0 <= i < size ==> #[trigger] left@[i] == l[i],
            forall|i: int| 0 <= i < k ==> #[trigger] b@[i] == want[i],
        decreases size - y,
    {
        let mut x: usize = 0;
        while x < size
            invariant
                y < size <= 16,
                x <= size,
                k == y * size + x,
                want == true_motion_block(size as int, t, l, corner),
                forall|i: int| 0 <= i < size ==> #[trigger] top@[i] == t[i],
                forall|i: int| 0 <= i < size ==> #[trigger] left@[i] == l[i],
                forall|i: int| 0 <= i < k ==> #[trigger] b@[i] == want[i],
            decreases size - x,
        {
            proof {
                lemma_raster(size as int, x as int, y as int);
                assert(size * size <= 256) by (nonlinear_arith)
                    requires
                        size <= 16,
                ;
            }
            b[k] = clip8(top[x] as i32 + left[y] as i32 - corner as i32);
            x = x + 1;
            k = k + 1;
        }
        y = y + 1;
        assert((y - 1) * size + size == y * size) by (nonlinear_arith);
    }
    proof {
        assert forall|i: int| 0 <= i < size * size implies b@[i] == want[i] by {
            assert(size * size == y * size);
        }
        lemma_blit_ext(plane@, off as int, stride as int, size as int, b@, want);
    }
    put_square(plane, off, stride, size, &b);
}

/// Copy the row above into every row of a `size`-by-`size` block.
fn vertical(plane: &mut [u8], off: usize, stride: usize, size: usize)
    requires
        has_edge(old(plane)@.len() as int, off as int, stride as int, size as int),
        size <= 16,
    ensures
        final(plane)@ == blit(
            old(plane)@,
            off as int,
            stride as int,
            size as int,
            vertical_block(size as int, top_row(old(plane)@, off as int, stride as int, size as int)),
        ),
{
    let top: [u8; 16] = read_top(plane, off, stride, size);
    let ghost t = top_row(plane@, off as int, stride as int, size as int);
    let mut b: [u8; 256] = [0u8; 256];
    let mut k: usize = 0;
    let mut x: usize = 0;
    assert(size * size <= 256) by (nonlinear_arith)
        requires
            size <= 16,
    ;
    let total: usize = size * size;
    while k < total
        invariant
            k <= total <= 256,
            total == size * size,
            1 <= size <= 16,
            x < size,
            x as int == k as int % size as int,
            forall|i: int| 0 <= i < size ==> #[trigger] top@[i] == t[i],
            forall|i: int| 0 <= i < k ==> #[trigger] b@[i] == t[i % size as int],
        decreases total - k,
    {
        b[k] = top[x];
        proof {
            let n = size as int;
            vstd::arithmetic::div_mod::lemma_fundamental_div_mod(k as int, n);
            let q = k as int / n;
            assert(n * q == q * n) by (nonlinear_arith);
            assert(k as int == q * n + x as int);
            if x + 1 < size {
                vstd::arithmetic::div_mod::lemma_fundamental_div_mod_converse(k + 1, n, q, x + 1);
            } else {
                assert(q * n + n == (q + 1) * n) by (nonlinear_arith);
                vstd::arithmetic::div_mod::lemma_fundamental_div_mod_converse(k + 1, n, q + 1, 0);
            }
        }
        k = k + 1;
        x = if x + 1 < size {
            x + 1
        } else {
            0
        };
    }
    proof {
        lemma_blit_ext(
            plane@,
            off as int,
            stride as int,
            size as int,
            b@,
            vertical_block(size as int, t),
        );
    }
    put_square(plane, off, stride, size, &b);
}

/// Copy the column left into every column of a `size`-by-`size` block.
fn horizontal(plane: &mut [u8], off: usize, stride: usize, size: usize)
    requires
        has_edge(old(plane)@.len() as int, off as int, stride as int, size as int),
        size <= 16,
    ensures
        final(plane)@ == blit(
            old(plane)@,
            off as int,
            stride as int,
            size as int,
            horizontal_block(size as int, left_col(old(plane)@, off as int, stride as int, size as int)),
        ),
{
    let left: [u8; 16] = read_left(plane, off, stride, size);
    let ghost l = left_col(plane@, off as int, stride as int, size as int);
    let mut b: [u8; 256] = [0u8; 256];
    let mut k: usize = 0;
    let mut y: usize = 0;
    let mut x: usize = 0;
    assert(size * size <= 256) by (nonlinear_arith)
        requires
            size <= 16,
    ;
    let total: usize = size * size;
    while k < total
        invariant
            k <= total <= 256,
            total == size * size,
            1 <= size <= 16,
            x < size,
            x as int == k as int % size as int,
            y as int == k as int / size as int,
            y <= size,
            forall|i: int| 0 <= i < size ==> #[trigger] left@[i] == l[i],
            forall|i: int| 0 <= i < k ==> #[trigger] b@[i] == l[i / size as int],
        decreases total - k,
    {
        proof {
            let n = size as int;
            vstd::arithmetic::div_mod::lemma_fundamental_div_mod(k as int, n);
            let q = k as int / n;
            assert(q < n) by (nonlinear_arith)
                requires
                    k == n * q + x,
                    k < n * n,
                    n > 0,
                    0 <= x,
            ;
            if x + 1 < size {
                vstd::arithmetic::div_mod::lemma_fundamental_div_mod_converse(k + 1, n, q, x + 1);
            } else {
                assert(q * n + n == (q + 1) * n) by (nonlinear_arith);
                vstd::arithmetic::div_mod::lemma_fundamental_div_mod_converse(k + 1, n, q + 1, 0);
            }
        }
        b[k] = left[y];
        k = k + 1;
        if x + 1 < size {
            x = x + 1;
        } else {
            x = 0;
            y = y + 1;
        }
    }
    proof {
        lemma_blit_ext(
            plane@,
            off as int,
            stride as int,
            size as int,
            b@,
            horizontal_block(size as int, l),
        );
    }
    put_square(plane, off, stride, size, &b);
}

/// Sum of the row above the block.
fn sum_top(plane: &[u8], off: usize, stride: usize, n: usize) -> (r: i32)
    requires
        has_edge(plane@.len() as int, off as int, stride as int, n as int),
        n <= 16,
    ensures
        r == sum_first(top_row(plane@, off as int, stride as int, n as int), n as int),
        0 <= r <= 255 * n,
{
    let top: [u8; 16] = read_top(plane, off, stride, n);
    let ghost t = top_row(plane@, off as int, stride as int, n as int);
    let mut i: usize = 0;
    let mut s: i32 = 0;
    while i < n
        invariant
            i <= n <= 16,
            s == sum_first(t, i as int),
            0 <= s <= 255 * i,
            forall|j: int| 0 <= j < n ==> #[trigger] top@[j] == t[j],
        decreases n - i,
    {
        s = s + top[i] as i32;
        i = i + 1;
    }
    s
}

/// Sum of the column left of the block.
fn sum_left(plane: &[u8], off: usize, stride: usize, n: usize) -> (r: i32)
    requires
        has_edge(plane@.len() as int, off as int, stride as int, n as int),
        n <= 16,
    ensures
        r == sum_first(left_col(plane@, off as int, stride as int, n as int), n as int),
        0 <= r <= 255 * n,
{
    let left: [u8; 16] = read_left(plane, off, stride, n);
    let ghost l = left_col(plane@, off as int, stride as int, n as int);
    let mut i: usize = 0;
    let mut s: i32 = 0;
    while i < n
        invariant
            i <= n <= 16,
            s == sum_first(l, i as int),
            0 <= s <= 255 * i,
            forall|j: int| 0 <= j < n ==> #[trigger] left@[j] == l[j],
        decreases n - i,
    {
        s = s + left[i] as i32;
        i = i + 1;
    }
    s
}

/// Vertical 16x16 luma prediction.
pub fn ve16(plane: &mut [u8], off: usize, stride: usize)
    requires
        has_edge(old(plane)@.len() as int, off as int, stride as int, 16),
    ensures
        final(plane)@ == blit(old(plane)@, off as int, stride as int, 16, vertical_block(16, top_row(old(plane)@, off as int, stride as int, 16))),
{
    vertical(plane, off, stride, 16);
}

/// Horizontal 16x16 luma prediction.
pub fn he16(plane: &mut [u8], off: usize, stride: usize)
    requires
        has_edge(old(plane)@.len() as int, off as int, stride as int, 16),
    ensures
        final(plane)@ == blit(old(plane)@, off as int, stride as int, 16, horizontal_block(16, left_col(old(plane)@, off as int, stride as int, 16))),
{
    horizontal(plane, off, stride, 16);
}

/// Average of the row above and the column left of the 16x16 block.
pub fn dc16_both(plane: &[u8], off: usize, stride: usize) -> (r: u8)
    requires
        has_edge(plane@.len() as int, off as int, stride as int, 16),
    ensures
        r == dc_value(
            16,
            top_row(plane@, off as int, stride as int, 16),
            left_col(plane@, off as int, stride as int, 16),
            true,
            true,
        ),
{
    ((sum_top(plane, off, stride, 16) + sum_left(plane, off, stride, 16) + 16) >> 5) as u8
}

/// Average of the row above the 16x16 block.
pub fn dc16_top(plane: &[u8], off: usize, stride: usize) -> (r: u8)
    requires
        has_edge(plane@.len() as int, off as int, stride as int, 16),
    ensures
        r == dc_value(
            16,
            top_row(plane@, off as int, stride as int, 16),
            left_col(plane@, off as int, stride as int, 16),
            true,
            false,
        ),
{
    ((sum_top(plane, off, stride, 16) + 8) >> 4) as u8
}

/// Average of the column left of the 16x16 block.
pub fn dc16_left(plane: &[u8], off: usize, stride: usize) -> (r: u8)
    requires
        has_edge(plane@.len() as int, off as int, stride as int, 16),
    ensures
        r == dc_value(
            16,
            top_row(plane@, off as int, stride as int, 16),
            left_col(plane@, off as int, stride as int, 16),
            false,
            true,
        ),
{
    ((sum_left(plane, off, stride, 16) + 8) >> 4) as u8
}

/// DC 16x16 luma prediction from the available neighbours.
pub fn dc16(plane: &mut [u8], off: usize, stride: usize, has_top: bool, has_left: bool)
    requires
        has_edge(old(plane)@.len() as int, off as int, stride as int, 16),
    ensures
        final(plane)@ == blit(
            old(plane)@,
            off as int,
            stride as int,
            16,
            flat_block(
                16,
                dc_value(
                    16,
                    top_row(old(plane)@, off as int, stride as int, 16),
                    left_col(old(plane)@, off as int, stride as int, 16),
                    has_top,
                    has_left,
                ),
            ),
        ),
{
    let v: u8 = if has_top && has_left {
        dc16_both(plane, off, stride)
    } else if has_top {
        dc16_top(plane, off, stride)
    } else if has_left {
        dc16_left(plane, off, stride)
    } else {
        0x80
    };
    fill_square(plane, off, stride, 16, v);
}

/// Vertical 8x8 chroma prediction.
pub fn ve8(plane: &mut [u8], off: usize, stride: usize)
    requires
        has_edge(old(plane)@.len() as int, off as int, stride as int, 8),
    ensures
        final(plane)@ == blit(old(plane)@, off as int, stride as int, 8, vertical_block(8, top_row(old(plane)@, off as int, stride as int, 8))),
{
    vertical(plane, off, stride, 8);
}

/// Horizontal 8x8 chroma prediction.
pub fn he8(plane: &mut [u8], off: usize, stride: usize)
    requires
        has_edge(old(plane)@.len() as int, off as int, stride as int, 8),
    ensures
        final(plane)@ == blit(old(plane)@, off as int, stride as int, 8, horizontal_block(8, left_col(old(plane)@, off as int, stride as int, 8))),
{
    horizontal(plane, off, stride, 8);
}

/// Average of the row above and the column left of the 8x8 block.
pub fn dc8_both(plane: &[u8], off: usize, stride: usize) -> (r: u8)
    requires
        has_edge(plane@.len() as int, off as int, stride as int, 8),
    ensures
        r == dc_value(
            8,
            top_row(plane@, off as int, stride as int, 8),
            left_col(plane@, off as int, stride as int, 8),
            true,
            true,
        ),
{
    ((sum_top(plane, off, stride, 8) + sum_left(plane, off, stride, 8) + 8) >> 4) as u8
}

/// Average of the row above the 8x8 block.
pub fn dc8_top(plane: &[u8], off: usize, stride: usize) -> (r: u8)
    requires
        has_edge(plane@.len() as int, off as int, stride as int, 8),
    ensures
        r == dc_value(
            8,
            top_row(plane@, off as int, stride as int, 8),
            left_col(plane@, off as int, stride as int, 8),
            true,
            false,
        ),
{
    ((sum_top(plane, off, stride, 8) + 4) >> 3) as u8
}

/// Average of the column left of the 8x8 block.
pub fn dc8_left(plane: &[u8], off: usize, stride: usize) -> (r: u8)
    requires
        has_edge(plane@.len() as int, off as int, stride as int, 8),
    ensures
        r == dc_value(
            8,
            top_row(plane@, off as int, stride as int, 8),
            left_col(plane@, off as int, stride as int, 8),
            false,
            true,
        ),
{
    ((sum_left(plane, off, stride, 8) + 4) >> 3) as u8
}

/// DC 8x8 chroma prediction from the available neighbours.
pub fn dc8(plane: &mut [u8], off: usize, stride: usize, has_top: bool, has_left: bool)
    requires
        has_edge(old(plane)@.len() as int, off as int, stride as int, 8),
    ensures
        final(plane)@ == blit(
            old(plane)@,
            off as int,
            stride as int,
            8,
            flat_block(
                8,
                dc_value(
                    8,
                    top_row(old(plane)@, off as int, stride as int, 8),
                    left_col(old(plane)@, off as int, stride as int, 8),
                    has_top,
                    has_left,
                ),
            ),
        ),
{
    let v: u8 = if has_top && has_left {
        dc8_both(plane, off, stride)
    } else if has_top {
        dc8_top(plane, off, stride)
    } else if has_left {
        dc8_left(plane, off, stride)
    } else {
        0x80
    };
    fill_square(plane, off, stride, 8, v);
}

/// The edge of a 4x4 block: four left samples, the corner, eight above samples.
pub open spec fn edge4(plane: Seq<u8>, off: int, stride: int) -> Seq<u8> {
    seq![
        plane[off - 1],
        plane[off + stride - 1],
        plane[off + 2 * stride - 1],
        plane[off + 3 * stride - 1],
        plane[off - stride - 1],
        plane[off - stride],
        plane[off - stride + 1],
        plane[off - stride + 2],
        plane[off - stride + 3],
        plane[off - stride + 4],
        plane[off - stride + 5],
        plane[off - stride + 6],
        plane[off - stride + 7],
    ]
}

/// Read the edge of a 4x4 block.
fn read_edge4(plane: &[u8], off: usize, stride: usize) -> (r: [u8; 13])
    requires
        has_edge(plane@.len() as int, off as int, stride as int, 4),
    ensures
        r@ == edge4(plane@, off as int, stride as int),
{
    let len: usize = plane.len();
    assert(off + 3 * stride + 4 <= len);
    let a: usize = off - stride;
    let r: [u8; 13] = [
        plane[off - 1],
        plane[off + stride - 1],
        plane[off + 2 * stride - 1],
        plane[off + 3 * stride - 1],
        plane[a - 1],
        plane[a],
        plane[a + 1],
        plane[a + 2],
        plane[a + 3],
        plane[a + 4],
        plane[a + 5],
        plane[a + 6],
        plane[a + 7],
    ];
    assert(r@ =~= edge4(plane@, off as int, stride as int));
    r
}

/// Vertical prediction of a 4x4 block from its edge.
pub open spec fn ve4_block(e: Seq<u8>) -> Seq<u8> {
    seq![
        avg3_spec(e[4] as int, e[5] as int, e[6] as int),
        avg3_spec(e[5] as int, e[6] as int, e[7] as int),
        avg3_spec(e[6] as int, e[7] as int, e[8] as int),
        avg3_spec(e[7] as int, e[8] as int, e[9] as int),
        avg3_spec(e[4] as int, e[5] as int, e[6] as int),
        avg3_spec(e[5] as int, e[6] as int, e[7] as int),
        avg3_spec(e[6] as int, e[7] as int, e[8] as int),
        avg3_spec(e[7] as int, e[8] as int, e[9] as int),
        avg3_spec(e[4] as int, e[5] as int, e[6] as int),
        avg3_spec(e[5] as int, e[6] as int, e[7] as int),
        avg3_spec(e[6] as int, e[7] as int, e[8] as int),
        avg3_spec(e[7] as int, e[8] as int, e[9] as int),
        avg3_spec(e[4] as int, e[5] as int, e[6] as int),
        avg3_spec(e[5] as int, e[6] as int, e[7] as int),
        avg3_spec(e[6] as int, e[7] as int, e[8] as int),
        avg3_spec(e[7] as int, e[8] as int, e[9] as int),
    ]
}

/// Vertical 4x4 prediction.
pub fn ve4(plane: &mut [u8], off: usize, stride: usize)
    requires
        has_edge(old(plane)@.len() as int, off as int, stride as int, 4),
    ensures
        final(plane)@ == blit(
            old(plane)@,
            off as int,
            stride as int,
            4,
            ve4_block(edge4(old(plane)@, off as int, stride as int)),
        ),
{
    let e: [u8; 13] = read_edge4(plane, off, stride);
    let b: [u8; 16] = [
        avg3(e[4] as i32, e[5] as i32, e[6] as i32),
        avg3(e[5] as i32, e[6] as i32, e[7] as i32),
        avg3(e[6] as i32, e[7] as i32, e[8] as i32),
        avg3(e[7] as i32, e[8] as i32, e[9] as i32),
        avg3(e[4] as i32, e[5] as i32, e[6] as i32),
        avg3(e[5] as i32, e[6] as i32, e[7] as i32),
        avg3(e[6] as i32, e[7] as i32, e[8] as i32),
        avg3(e[7] as i32, e[8] as i32, e[9] as i32),
        avg3(e[4] as i32, e[5] as i32, e[6] as i32),
        avg3(e[5] as i32, e[6] as i32, e[7] as i32),
        avg3(e[6] as i32, e[7] as i32, e[8] as i32),
        avg3(e[7] as i32, e[8] as i32, e[9] as i32),
        avg3(e[4] as i32, e[5] as i32, e[6] as i32),
        avg3(e[5] as i32, e[6] as i32, e[7] as i32),
        avg3(e[6] as i32, e[7] as i32, e[8] as i32),
        avg3(e[7] as i32, e[8] as i32, e[9] as i32),
    ];
    assert(b@ =~= ve4_block(e@));
    put_square(plane, off, stride, 4, &b);
}

/// Horizontal prediction of a 4x4 block from its edge.
pub open spec fn he4_block(e: Seq<u8>) -> Seq<u8> {
    seq![
        avg3_spec(e[4] as int, e[0] as int, e[1] as int),
        avg3_spec(e[4] as int, e[0] as int, e[1] as int),
        avg3_spec(e[4] as int, e[0] as int, e[1] as int),
        avg3_spec(e[4] as int, e[0] as int, e[1] as int),
        avg3_spec(e[0] as int, e[1] as int, e[2] as int),
        avg3_spec(e[0] as int, e[1] as int, e[2] as int),
        avg3_spec(e[0] as int, e[1] as int, e[2] as int),
        avg3_spec(e[0] as int, e[1] as int, e[2] as int),
        avg3_spec(e[1] as int, e[2] as int, e[3] as int),
        avg3_spec(e[1] as int, e[2] as int, e[3] as int),
        avg3_spec(e[1] as int, e[2] as int, e[3] as int),
        avg3_spec(e[1] as int, e[2] as int, e[3] as int),
        avg3_spec(e[2] as int, e[3] as int, e[3] as int),
        avg3_spec(e[2] as int, e[3] as int, e[3] as int),
        avg3_spec(e[2] as int, e[3] as int, e[3] as int),
        avg3_spec(e[2] as int, e[3] as int, e[3] as int),
    ]
}

/// Horizontal 4x4 prediction.
pub fn he4(plane: &mut [u8], off: usize, stride: usize)
    requires
        has_edge(old(plane)@.len() as int, off as int, stride as int, 4),
    ensures
        final(plane)@ == blit(
            old(plane)@,
            off as int,
            stride as int,
            4,
            he4_block(edge4(old(plane)@, off as int, stride as int)),
        ),
{
    let e: [u8; 13] = read_edge4(plane, off, stride);
    let b: [u8; 16] = [
        avg3(e[4] as i32, e[0] as i32, e[1] as i32),
        avg3(e[4] as i32, e[0] as i32, e[1] as i32),
        avg3(e[4] as i32, e[0] as i32, e[1] as i32),
        avg3(e[4] as i32, e[0] as i32, e[1] as i32),
        avg3(e[0] as i32, e[1] as i32, e[2] as i32),
        avg3(e[0] as i32, e[1] as i32, e[2] as i32),
        avg3(e[0] as i32, e[1] as i32, e[2] as i32),
        avg3(e[0] as i32, e[1] as i32, e[2] as i32),
        avg3(e[1] as i32, e[2] as i32, e[3] as i32),
        avg3(e[1] as i32, e[2] as i32, e[3] as i32),
        avg3(e[1] as i32, e[2] as i32, e[3] as i32),
        avg3(e[1] as i32, e[2] as i32, e[3] as i32),
        avg3(e[2] as i32, e[3] as i32, e[3] as i32),
        avg3(e[2] as i32, e[3] as i32, e[3] as i32),
        avg3(e[2] as i32, e[3] as i32, e[3] as i32),
        avg3(e[2] as i32, e[3] as i32, e[3] as i32),
    ];
    assert(b@ =~= he4_block(e@));
    put_square(plane, off, stride, 4, &b);
}

/// DC prediction of a 4x4 block from its edge.
pub open spec fn dc4_block(e: Seq<u8>) -> Seq<u8> {
    flat_block(
        4,
        ((e[0] + e[1] + e[2] + e[3] + e[5] + e[6] + e[7] + e[8] + 4) / 8) as u8,
    )
}

/// DC 4x4 prediction from the four samples above and the four left.
pub fn dc4(plane: &mut [u8], off: usize, stride: usize)
    requires
        has_edge(old(plane)@.len() as int, off as int, stride as int, 4),
    ensures
        final(plane)@ == blit(
            old(plane)@,
            off as int,
            stride as int,
            4,
            dc4_block(edge4(old(plane)@, off as int, stride as int)),
        ),
{
    let e: [u8; 13] = read_edge4(plane, off, stride);
    let sum: i32 = e[0] as i32 + e[1] as i32 + e[2] as i32 + e[3] as i32 + e[5] as i32 + e[6] as i32
        + e[7] as i32 + e[8] as i32 + 4;
    fill_square(plane, off, stride, 4, (sum >> 3) as u8);
}

/// TrueMotion prediction of a 4x4 block from its edge.
pub open spec fn tm4_block(e: Seq<u8>) -> Seq<u8> {
    true_motion_block(4, e.subrange(5, 9), e.subrange(0, 4), e[4])
}

/// Right-down diagonal prediction of a 4x4 block from its edge.
pub open spec fn rd4_block(e: Seq<u8>) -> Seq<u8> {
    seq![
        avg3_spec(e[5] as int, e[4] as int, e[0] as int),
        avg3_spec(e[6] as int, e[5] as int, e[4] as int),
        avg3_spec(e[7] as int, e[6] as int, e[5] as int),
        avg3_spec(e[8] as int, e[7] as int, e[6] as int),
        avg3_spec(e[4] as int, e[0] as int, e[1] as int),
        avg3_spec(e[5] as int, e[4] as int, e[0] as int),
        avg3_spec(e[6] as int, e[5] as int, e[4] as int),
        avg3_spec(e[7] as int, e[6] as int, e[5] as int),
        avg3_spec(e[0] as int, e[1] as int, e[2] as int),
        avg3_spec(e[4] as int, e[0] as int, e[1] as int),
        avg3_spec(e[5] as int, e[4] as int, e[0] as int),
        avg3_spec(e[6] as int, e[5] as int, e[4] as int),
        avg3_spec(e[1] as int, e[2] as int, e[3] as int),
        avg3_spec(e[0] as int, e[1] as int, e[2] as int),
        avg3_spec(e[4] as int, e[0] as int, e[1] as int),
        avg3_spec(e[5] as int, e[4] as int, e[0] as int),
    ]
}

/// Right-down diagonal 4x4 prediction.
pub fn rd4(plane: &mut [u8], off: usize, stride: usize)
    requires
        has_edge(old(plane)@.len() as int, off as int, stride as int, 4),
    ensures
        final(plane)@ == blit(
            old(plane)@,
            off as int,
            stride as int,
            4,
            rd4_block(edge4(old(plane)@, off as int, stride as int)),
        ),
{
    let e: [u8; 13] = read_edge4(plane, off, stride);
    let b: [u8; 16] = [
        avg3(e[5] as i32, e[4] as i32, e[0] as i32),
        avg3(e[6] as i32, e[5] as i32, e[4] as i32),
        avg3(e[7] as i32, e[6] as i32, e[5] as i32),
        avg3(e[8] as i32, e[7] as i32, e[6] as i32),
        avg3(e[4] as i32, e[0] as i32, e[1] as i32),
        avg3(e[5] as i32, e[4] as i32, e[0] as i32),
        avg3(e[6] as i32, e[5] as i32, e[4] as i32),
        avg3(e[7] as i32, e[6] as i32, e[5] as i32),
        avg3(e[0] as i32, e[1] as i32, e[2] as i32),
        avg3(e[4] as i32, e[0] as i32, e[1] as i32),
        avg3(e[5] as i32, e[4] as i32, e[0] as i32),
        avg3(e[6] as i32, e[5] as i32, e[4] as i32),
        avg3(e[1] as i32, e[2] as i32, e[3] as i32),
        avg3(e[0] as i32, e[1] as i32, e[2] as i32),
        avg3(e[4] as i32, e[0] as i32, e[1] as i32),
        avg3(e[5] as i32, e[4] as i32, e[0] as i32),
    ];
    assert(b@ =~= rd4_block(e@));
    put_square(plane, off, stride, 4, &b);
}

/// Left-down diagonal prediction of a 4x4 block from its edge.
pub open spec fn ld4_block(e: Seq<u8>) -> Seq<u8> {
    seq![
        avg3_spec(e[5] as int, e[6] as int, e[7] as int),
        avg3_spec(e[6] as int, e[7] as int, e[8] as int),
        avg3_spec(e[7] as int, e[8] as int, e[9] as int),
        avg3_spec(e[8] as int, e[9] as int, e[10] as int),
        avg3_spec(e[6] as int, e[7] as int, e[8] as int),
        avg3_spec(e[7] as int, e[8] as int, e[9] as int),
        avg3_spec(e[8] as int, e[9] as int, e[10] as int),
        avg3_spec(e[9] as int, e[10] as int, e[11] as int),
        avg3_spec(e[7] as int, e[8] as int, e[9] as int),
        avg3_spec(e[8] as int, e[9] as int, e[10] as int),
        avg3_spec(e[9] as int, e[10] as int, e[11] as int),
        avg3_spec(e[10] as int, e[11] as int, e[12] as int),
        avg3_spec(e[8] as int, e[9] as int, e[10] as int),
        avg3_spec(e[9] as int, e[10] as int, e[11] as int),
        avg3_spec(e[10] as int, e[11] as int, e[12] as int),
        avg3_spec(e[11] as int, e[12] as int, e[12] as int),
    ]
}

/// Left-down diagonal 4x4 prediction.
pub fn ld4(plane: &mut [u8], off: usize, stride: usize)
    requires
        has_edge(old(plane)@.len() as int, off as int, stride as int, 4),
    ensures
        final(plane)@ == blit(
            old(plane)@,
            off as int,
            stride as int,
            4,
            ld4_block(edge4(old(plane)@, off as int, stride as int)),
        ),
{
    let e: [u8; 13] = read_edge4(plane, off, stride);
    let b: [u8; 16] = [
        avg3(e[5] as i32, e[6] as i32, e[7] as i32),
        avg3(e[6] as i32, e[7] as i32, e[8] as i32),
        avg3(e[7] as i32, e[8] as i32, e[9] as i32),
        avg3(e[8] as i32, e[9] as i32, e[10] as i32),
        avg3(e[6] as i32, e[7] as i32, e[8] as i32),
        avg3(e[7] as i32, e[8] as i32, e[9] as i32),
        avg3(e[8] as i32, e[9] as i32, e[10] as i32),
        avg3(e[9] as i32, e[10] as i32, e[11] as i32),
        avg3(e[7] as i32, e[8] as i32, e[9] as i32),
        avg3(e[8] as i32, e[9] as i32, e[10] as i32),
        avg3(e[9] as i32, e[10] as i32, e[11] as i32),
        avg3(e[10] as i32, e[11] as i32, e[12] as i32),
        avg3(e[8] as i32, e[9] as i32, e[10] as i32),
        avg3(e[9] as i32, e[10] as i32, e[11] as i32),
        avg3(e[10] as i32, e[11] as i32, e[12] as i32),
        avg3(e[11] as i32, e[12] as i32, e[12] as i32),
    ];
    assert(b@ =~= ld4_block(e@));
    put_square(plane, off, stride, 4, &b);
}

/// Vertical-right prediction of a 4x4 block from its edge.
pub open spec fn vr4_block(e: Seq<u8>) -> Seq<u8> {
    seq![
        avg2_spec(e[4] as int, e[5] as int),
        avg2_spec(e[5] as int, e[6] as int),
        avg2_spec(e[6] as int, e[7] as int),
        avg2_spec(e[7] as int, e[8] as int),
        avg3_spec(e[0] as int, e[4] as int, e[5] as int),
        avg3_spec(e[4] as int, e[5] as int, e[6] as int),
        avg3_spec(e[5] as int, e[6] as int, e[7] as int),
        avg3_spec(e[6] as int, e[7] as int, e[8] as int),
        avg3_spec(e[1] as int, e[0] as int, e[4] as int),
        avg2_spec(e[4] as int, e[5] as int),
        avg2_spec(e[5] as int, e[6] as int),
        avg2_spec(e[6] as int, e[7] as int),
        avg3_spec(e[2] as int, e[1] as int, e[0] as int),
        avg3_spec(e[0] as int, e[4] as int, e[5] as int),
        avg3_spec(e[4] as int, e[5] as int, e[6] as int),
        avg3_spec(e[5] as int, e[6] as int, e[7] as int),
    ]
}

/// Vertical-right 4x4 prediction.
pub fn vr4(plane: &mut [u8], off: usize, stride: usize)
    requires
        has_edge(old(plane)@.len() as int, off as int, stride as int, 4),
    ensures
        final(plane)@ == blit(
            old(plane)@,
            off as int,
            stride as int,
            4,
            vr4_block(edge4(old(plane)@, off as int, stride as int)),
        ),
{
    let e: [u8; 13] = read_edge4(plane, off, stride);
    let b: [u8; 16] = [
        avg2(e[4] as i32, e[5] as i32),
        avg2(e[5] as i32, e[6] as i32),
        avg2(e[6] as i32, e[7] as i32),
        avg2(e[7] as i32, e[8] as i32),
        avg3(e[0] as i32, e[4] as i32, e[5] as i32),
        avg3(e[4] as i32, e[5] as i32, e[6] as i32),
        avg3(e[5] as i32, e[6] as i32, e[7] as i32),
        avg3(e[6] as i32, e[7] as i32, e[8] as i32),
        avg3(e[1] as i32, e[0] as i32, e[4] as i32),
        avg2(e[4] as i32, e[5] as i32),
        avg2(e[5] as i32, e[6] as i32),
        avg2(e[6] as i32, e[7] as i32),
        avg3(e[2] as i32, e[1] as i32, e[0] as i32),
        avg3(e[0] as i32, e[4] as i32, e[5] as i32),
        avg3(e[4] as i32, e[5] as i32, e[6] as i32),
        avg3(e[5] as i32, e[6] as i32, e[7] as i32),
    ];
    assert(b@ =~= vr4_block(e@));
    put_square(plane, off, stride, 4, &b);
}

/// Vertical-left prediction of a 4x4 block from its edge.
pub open spec fn vl4_block(e: Seq<u8>) -> Seq<u8> {
    seq![
        avg2_spec(e[5] as int, e[6] as int),
        avg2_spec(e[6] as int, e[7] as int),
        avg2_spec(e[7] as int, e[8] as int),
        avg2_spec(e[8] as int, e[9] as int),
        avg3_spec(e[5] as int, e[6] as int, e[7] as int),
        avg3_spec(e[6] as int, e[7] as int, e[8] as int),
        avg3_spec(e[7] as int, e[8] as int, e[9] as int),
        avg3_spec(e[8] as int, e[9] as int, e[10] as int),
        avg2_spec(e[6] as int, e[7] as int),
        avg2_spec(e[7] as int, e[8] as int),
        avg2_spec(e[8] as int, e[9] as int),
        avg3_spec(e[9] as int, e[10] as int, e[11] as int),
        avg3_spec(e[6] as int, e[7] as int, e[8] as int),
        avg3_spec(e[7] as int, e[8] as int, e[9] as int),
        avg3_spec(e[8] as int, e[9] as int, e[10] as int),
        avg3_spec(e[10] as int, e[11] as int, e[12] as int),
    ]
}

/// Vertical-left 4x4 prediction.
pub fn vl4(plane: &mut [u8], off: usize, stride: usize)
    requires
        has_edge(old(plane)@.len() as int, off as int, stride as int, 4),
    ensures
        final(plane)@ == blit(
            old(plane)@,
            off as int,
            stride as int,
            4,
            vl4_block(edge4(old(plane)@, off as int, stride as int)),
        ),
{
    let e: [u8; 13] = read_edge4(plane, off, stride);
    let b: [u8; 16] = [
        avg2(e[5] as i32, e[6] as i32),
        avg2(e[6] as i32, e[7] as i32),
        avg2(e[7] as i32, e[8] as i32),
        avg2(e[8] as i32, e[9] as i32),
        avg3(e[5] as i32, e[6] as i32, e[7] as i32),
        avg3(e[6] as i32, e[7] as i32, e[8] as i32),
        avg3(e[7] as i32, e[8] as i32, e[9] as i32),
        avg3(e[8] as i32, e[9] as i32, e[10] as i32),
        avg2(e[6] as i32, e[7] as i32),
        avg2(e[7] as i32, e[8] as i32),
        avg2(e[8] as i32, e[9] as i32),
        avg3(e[9] as i32, e[10] as i32, e[11] as i32),
        avg3(e[6] as i32, e[7] as i32, e[8] as i32),
        avg3(e[7] as i32, e[8] as i32, e[9] as i32),
        avg3(e[8] as i32, e[9] as i32, e[10] as i32),
        avg3(e[10] as i32, e[11] as i32, e[12] as i32),
    ];
    assert(b@ =~= vl4_block(e@));
    put_square(plane, off, stride, 4, &b);
}

/// Horizontal-up prediction of a 4x4 block from its edge.
pub open spec fn hu4_block(e: Seq<u8>) -> Seq<u8> {
    seq![
        avg2_spec(e[0] as int, e[1] as int),
        avg3_spec(e[0] as int, e[1] as int, e[2] as int),
        avg2_spec(e[1] as int, e[2] as int),
        avg3_spec(e[1] as int, e[2] as int, e[3] as int),
        avg2_spec(e[1] as int, e[2] as int),
        avg3_spec(e[1] as int, e[2] as int, e[3] as int),
        avg2_spec(e[2] as int, e[3] as int),
        avg3_spec(e[2] as int, e[3] as int, e[3] as int),
        avg2_spec(e[2] as int, e[3] as int),
        avg3_spec(e[2] as int, e[3] as int, e[3] as int),
        e[3],
        e[3],
        e[3],
        e[3],
        e[3],
        e[3],
    ]
}

/// Horizontal-up 4x4 prediction.
pub fn hu4(plane: &mut [u8], off: usize, stride: usize)
    requires
        has_edge(old(plane)@.len() as int, off as int, stride as int, 4),
    ensures
        final(plane)@ == blit(
            old(plane)@,
            off as int,
            stride as int,
            4,
            hu4_block(edge4(old(plane)@, off as int, stride as int)),
        ),
{
    let e: [u8; 13] = read_edge4(plane, off, stride);
    let b: [u8; 16] = [
        avg2(e[0] as i32, e[1] as i32),
        avg3(e[0] as i32, e[1] as i32, e[2] as i32),
        avg2(e[1] as i32, e[2] as i32),
        avg3(e[1] as i32, e[2] as i32, e[3] as i32),
        avg2(e[1] as i32, e[2] as i32),
        avg3(e[1] as i32, e[2] as i32, e[3] as i32),
        avg2(e[2] as i32, e[3] as i32),
        avg3(e[2] as i32, e[3] as i32, e[3] as i32),
        avg2(e[2] as i32, e[3] as i32),
        avg3(e[2] as i32, e[3] as i32, e[3] as i32),
        e[3],
        e[3],
        e[3],
        e[3],
        e[3],
        e[3],
    ];
    assert(b@ =~= hu4_block(e@));
    put_square(plane, off, stride, 4, &b);
}

/// Horizontal-down prediction of a 4x4 block from its edge.
pub open spec fn hd4_block(e: Seq<u8>) -> Seq<u8> {
    seq![
        avg2_spec(e[0] as int, e[4] as int),
        avg3_spec(e[0] as int, e[4] as int, e[5] as int),
        avg3_spec(e[4] as int, e[5] as int, e[6] as int),
        avg3_spec(e[5] as int, e[6] as int, e[7] as int),
        avg2_spec(e[1] as int, e[0] as int),
        avg3_spec(e[1] as int, e[0] as int, e[4] as int),
        avg2_spec(e[0] as int, e[4] as int),
        avg3_spec(e[0] as int, e[4] as int, e[5] as int),
        avg2_spec(e[2] as int, e[1] as int),
        avg3_spec(e[2] as int, e[1] as int, e[0] as int),
        avg2_spec(e[1] as int, e[0] as int),
        avg3_spec(e[1] as int, e[0] as int, e[4] as int),
        avg2_spec(e[3] as int, e[2] as int),
        avg3_spec(e[3] as int, e[2] as int, e[1] as int),
        avg2_spec(e[2] as int, e[1] as int),
        avg3_spec(e[2] as int, e[1] as int, e[0] as int),
    ]
}

/// Horizontal-down 4x4 prediction.
pub fn hd4(plane: &mut [u8], off: usize, stride: usize)
    requires
        has_edge(old(plane)@.len() as int, off as int, stride as int, 4),
    ensures
        final(plane)@ == blit(
            old(plane)@,
            off as int,
            stride as int,
            4,
            hd4_block(edge4(old(plane)@, off as int, stride as int)),
        ),
{
    let e: [u8; 13] = read_edge4(plane, off, stride);
    let b: [u8; 16] = [
        avg2(e[0] as i32, e[4] as i32),
        avg3(e[0] as i32, e[4] as i32, e[5] as i32),
        avg3(e[4] as i32, e[5] as i32, e[6] as i32),
        avg3(e[5] as i32, e[6] as i32, e[7] as i32),
        avg2(e[1] as i32, e[0] as i32),
        avg3(e[1] as i32, e[0] as i32, e[4] as i32),
        avg2(e[0] as i32, e[4] as i32),
        avg3(e[0] as i32, e[4] as i32, e[5] as i32),
        avg2(e[2] as i32, e[1] as i32),
        avg3(e[2] as i32, e[1] as i32, e[0] as i32),
        avg2(e[1] as i32, e[0] as i32),
        avg3(e[1] as i32, e[0] as i32, e[4] as i32),
        avg2(e[3] as i32, e[2] as i32),
        avg3(e[3] as i32, e[2] as i32, e[1] as i32),
        avg2(e[2] as i32, e[1] as i32),
        avg3(e[2] as i32, e[1] as i32, e[0] as i32),
    ];
    assert(b@ =~= hd4_block(e@));
    put_square(plane, off, stride, 4, &b);
}

/// The 4x4 prediction of `mode` from the block's edge.
pub open spec fn block4(mode: u8, e: Seq<u8>) -> Seq<u8> {
    if mode == B_DC_PRED {
        dc4_block(e)
    } else if mode == B_TM_PRED {
        tm4_block(e)
    } else if mode == B_VE_PRED {
        ve4_block(e)
    } else if mode == B_HE_PRED {
        he4_block(e)
    } else if mode == B_RD_PRED {
        rd4_block(e)
    } else if mode == B_VR_PRED {
        vr4_block(e)
    } else if mode == B_LD_PRED {
        ld4_block(e)
    } else if mode == B_VL_PRED {
        vl4_block(e)
    } else if mode == B_HD_PRED {
        hd4_block(e)
    } else {
        hu4_block(e)
    }
}

/// A predicted 4x4 block has sixteen samples.
pub proof fn lemma_block4_len(mode: u8, e: Seq<u8>)
    ensures
        block4(mode, e).len() == 16,
{
}

/// `plane` after predicting the 4x4 block at `off` in `mode`.
pub open spec fn predict4(plane: Seq<u8>, off: int, stride: int, mode: u8) -> Seq<u8> {
    if mode <= B_HU_PRED {
        blit(plane, off, stride, 4, block4(mode, edge4(plane, off, stride)))
    } else {
        plane
    }
}

/// Predict a 16x16 luma block; an unknown mode leaves the plane unchanged.
pub fn predict_luma16(
    plane: &mut [u8],
    off: usize,
    stride: usize,
    mode: u8,
    has_top: bool,
    has_left: bool,
)
    requires
        has_edge(old(plane)@.len() as int, off as int, stride as int, 16),
    ensures
        final(plane)@ == predict_whole(
            old(plane)@,
            off as int,
            stride as int,
            16,
            mode,
            has_top,
            has_left,
        ),
{
    if mode == DC_PRED {
        dc16(plane, off, stride, has_top, has_left);
    } else if mode == TM_PRED {
        true_motion(plane, off, stride, 16);
    } else if mode == V_PRED {
        ve16(plane, off, stride);
    } else if mode == H_PRED {
        he16(plane, off, stride);
    }
}

/// Predict an 8x8 chroma block; an unknown mode leaves the plane unchanged.
pub fn predict_chroma8(
    plane: &mut [u8],
    off: usize,
    stride: usize,
    mode: u8,
    has_top: bool,
    has_left: bool,
)
    requires
        has_edge(old(plane)@.len() as int, off as int, stride as int, 8),
    ensures
        final(plane)@ == predict_whole(
            old(plane)@,
            off as int,
            stride as int,
            8,
            mode,
            has_top,
            has_left,
        ),
{
    if mode == DC_PRED {
        dc8(plane, off, stride, has_top, has_left);
    } else if mode == TM_PRED {
        true_motion(plane, off, stride, 8);
    } else if mode == V_PRED {
        ve8(plane, off, stride);
    } else if mode == H_PRED {
        he8(plane, off, stride);
    }
}

/// Predict a 4x4 luma block; an unknown mode leaves the plane unchanged.
pub fn predict_luma4(plane: &mut [u8], off: usize, stride: usize, mode: u8)
    requires
        has_edge(old(plane)@.len() as int, off as int, stride as int, 4),
    ensures
        final(plane)@ == predict4(old(plane)@, off as int, stride as int, mode),
{
    if mode == B_DC_PRED {
        dc4(plane, off, stride);
    } else if mode == B_TM_PRED {
        proof {
            let e = edge4(plane@, off as int, stride as int);
            assert(e.subrange(5, 9) =~= top_row(plane@, off as int, stride as int, 4));
            let l = left_col(plane@, off as int, stride as int, 4);
            assert(l[0] == e[0] && l[1] == e[1] && l[2] == e[2] && l[3] == e[3]);
            assert(e.subrange(0, 4) =~= l);
        }
        true_motion(plane, off, stride, 4);
    } else if mode == B_VE_PRED {
        ve4(plane, off, stride);
    } else if mode == B_HE_PRED {
        he4(plane, off, stride);
    } else if mode == B_RD_PRED {
        rd4(plane, off, stride);
    } else if mode == B_VR_PRED {
        vr4(plane, off, stride);
    } else if mode == B_LD_PRED {
        ld4(plane, off, stride);
    } else if mode == B_VL_PRED {
        vl4(plane, off, stride);
    } else if mode == B_HD_PRED {
        hd4(plane, off, stride);
    } else if mode == B_HU_PRED {
        hu4(plane, off, stride);
    }
}

} // verus!
