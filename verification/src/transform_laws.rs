//! What the transforms compute.

use vstd::prelude::*;

use crate::fdct::{fdct_at, fwht_at};
use crate::idct::{idct4, idct_add, idct_residual, wht_dc};

verus! {

/// `v` times the entry of row `k`, column `i` of the four-point Walsh-Hadamard matrix, which
/// is one or minus one.
pub open spec fn signed(k: int, i: int, v: int) -> int {
    if (k == 1 && i >= 2) || (k == 2 && (i == 1 || i == 2)) || (k == 3 && (i == 1 || i == 3)) {
        -v
    } else {
        v
    }
}

/// Entry `x` of the transform of row `r` of a block.
pub open spec fn hadamard_row(c: Seq<i16>, r: int, x: int) -> int {
    c[4 * r] + signed(x, 1, c[4 * r + 1] as int) + signed(x, 2, c[4 * r + 2] as int) + signed(
        x,
        3,
        c[4 * r + 3] as int,
    )
}

/// Entry (`x`, `y`) of the two-dimensional Walsh-Hadamard transform of a block.
#[verifier::opaque]
pub open spec fn hadamard_sum(c: Seq<i16>, x: int, y: int) -> int {
    hadamard_row(c, 0, x) + signed(y, 1, hadamard_row(c, 1, x)) + signed(y, 2, hadamard_row(c, 2, x))
        + signed(y, 3, hadamard_row(c, 3, x))
}

/// The second-order transforms are the Walsh-Hadamard transform, the forward one halved, the
/// inverse one divided by eight and rounded.
pub proof fn second_order_is_walsh_hadamard(c: Seq<i16>, x: int, y: int)
    requires
        0 <= x < 4,
        0 <= y < 4,
    ensures
        wht_dc(c, 4 * y + x) == ((hadamard_sum(c, x, y) + 3) / 8) as i16,
        fwht_at(c, x, y) == hadamard_sum(c, x, y) / 2,
{
    reveal(fwht_at);
    reveal(hadamard_sum);
    assert((4 * y + x) / 4 == y && (4 * y + x) % 4 == x);
    if x == 0 {
        assert(y == 0 || y == 1 || y == 2 || y == 3);
    } else if x == 1 {
        assert(y == 0 || y == 1 || y == 2 || y == 3);
    } else if x == 2 {
        assert(y == 0 || y == 1 || y == 2 || y == 3);
    } else {
        assert(y == 0 || y == 1 || y == 2 || y == 3);
    }
}

/// The inverse second-order transform undoes the forward one, to within one.
pub proof fn second_order_round_trip(d: Seq<i16>, c: Seq<i16>, x: int, y: int)
    requires
        0 <= x < 4,
        0 <= y < 4,
        forall|i: int| 0 <= i < 16 ==> -2040 <= #[trigger] d[i] <= 2040,
        forall|i: int, j: int|
            0 <= i < 4 && 0 <= j < 4 ==> #[trigger] c[4 * j + i] == fwht_at(d, i, j),
    ensures
        -1 <= wht_dc(c, 4 * y + x) - d[4 * y + x] <= 1,
{
    lemma_inverse(c, x, y);
    assert forall|i: int, j: int| 0 <= i < 4 && 0 <= j < 4 implies 2 * #[trigger] c[4 * j + i]
        <= hadamard_sum(d, i, j) <= 2 * c[4 * j + i] + 1 by {
        lemma_forward(d, i, j);
    }
    lemma_back(d, c, x, y);
    assert(-2040 <= d[4 * y + x] <= 2040);
}

proof fn lemma_inverse(c: Seq<i16>, x: int, y: int)
    requires
        0 <= x < 4,
        0 <= y < 4,
    ensures
        wht_dc(c, 4 * y + x) == ((hadamard_sum(c, x, y) + 3) / 8) as i16,
{
    second_order_is_walsh_hadamard(c, x, y);
}

proof fn lemma_forward(d: Seq<i16>, x: int, y: int)
    requires
        0 <= x < 4,
        0 <= y < 4,
    ensures
        fwht_at(d, x, y) == hadamard_sum(d, x, y) / 2,
{
    second_order_is_walsh_hadamard(d, x, y);
}

/// Transforming twice gives sixteen times the block.
proof fn lemma_back(d: Seq<i16>, c: Seq<i16>, x: int, y: int)
    requires
        0 <= x < 4,
        0 <= y < 4,
        forall|i: int, j: int|
            0 <= i < 4 && 0 <= j < 4 ==> 2 * #[trigger] c[4 * j + i] <= hadamard_sum(d, i, j) <= 2
                * c[4 * j + i] + 1,
    ensures
        8 * d[4 * y + x] - 8 <= hadamard_sum(c, x, y) <= 8 * d[4 * y + x] + 8,
{
    reveal(hadamard_sum);
    lemma_back_row(d, c, x, 0);
    lemma_back_row(d, c, x, 1);
    lemma_back_row(d, c, x, 2);
    lemma_back_row(d, c, x, 3);
    assert(y == 0 || y == 1 || y == 2 || y == 3);
}

/// Transforming a row of sums back.
proof fn lemma_back_row(d: Seq<i16>, c: Seq<i16>, x: int, j: int)
    requires
        0 <= x < 4,
        0 <= j < 4,
        forall|i: int, j: int|
            0 <= i < 4 && 0 <= j < 4 ==> 2 * #[trigger] c[4 * j + i] <= hadamard_sum(d, i, j) <= 2
                * c[4 * j + i] + 1,
    ensures
        ({
            let column = 4 * (d[x] + signed(j, 1, d[4 + x] as int) + signed(j, 2, d[8 + x] as int)
                + signed(j, 3, d[12 + x] as int));
            column - 4 <= 2 * hadamard_row(c, j, x) <= column + 4
        }),
{
    reveal(hadamard_sum);
    assert(2 * c[4 * j + 0] <= hadamard_sum(d, 0, j) <= 2 * c[4 * j + 0] + 1);
    assert(2 * c[4 * j + 1] <= hadamard_sum(d, 1, j) <= 2 * c[4 * j + 1] + 1);
    assert(2 * c[4 * j + 2] <= hadamard_sum(d, 2, j) <= 2 * c[4 * j + 2] + 1);
    assert(2 * c[4 * j + 3] <= hadamard_sum(d, 3, j) <= 2 * c[4 * j + 3] + 1);
    assert(x == 0 || x == 1 || x == 2 || x == 3);
    assert(j == 0 || j == 1 || j == 2 || j == 3);
}

/// Output `k` of the four-point inverse cosine transform, in fixed point: the even inputs
/// add and subtract, the odd ones are rotated by `sqrt(2) cos(pi/8)` and `sqrt(2) sin(pi/8)`.
pub open spec fn rotated(a: int, b: int, c: int, d: int, k: int) -> int {
    let big = b + (b * 20091) / 65536 + (d * 35468) / 65536;
    let small = (b * 35468) / 65536 - d - (d * 20091) / 65536;
    if k == 0 {
        a + c + big
    } else if k == 1 {
        a - c + small
    } else if k == 2 {
        a - c - small
    } else {
        a + c - big
    }
}

/// The inverse cosine transform goes down the columns, then along the rows, and divides by
/// eight, rounding to the nearest.
pub proof fn residual_is_the_inverse_transform(c: Seq<i16>, x: int, y: int)
    requires
        0 <= x < 4,
        0 <= y < 4,
    ensures
        idct_residual(c, x, y) == (rotated(
            rotated(c[0] as int, c[4] as int, c[8] as int, c[12] as int, y) + 4,
            rotated(c[1] as int, c[5] as int, c[9] as int, c[13] as int, y),
            rotated(c[2] as int, c[6] as int, c[10] as int, c[14] as int, y),
            rotated(c[3] as int, c[7] as int, c[11] as int, c[15] as int, y),
            x,
        )) / 8,
{
    reveal(idct4);
}

/// The inverse transform adds its residual to the predicted sample, and the sum is kept in
/// `0..=255`.
pub proof fn residual_adds_to_the_prediction(c: Seq<i16>, pred: Seq<u8>, x: int, y: int)
    requires
        0 <= x < 4,
        0 <= y < 4,
        pred.len() == 16,
    ensures
        ({
            let v = pred[4 * y + x] + idct_residual(c, x, y);
            idct_add(c, pred)[4 * y + x] == (if v < 0 {
                0
            } else if v > 255 {
                255
            } else {
                v
            })
        }),
{
    assert((4 * y + x) / 4 == y && (4 * y + x) % 4 == x);
}

/// Output `k` of the four-point forward cosine transform along a row.
pub open spec fn row_rotated(a: int, b: int, c: int, d: int, k: int) -> int {
    if k == 0 {
        8 * (a + b + c + d)
    } else if k == 1 {
        (2217 * (b - c) + 5352 * (a - d) + 1812) / 512
    } else if k == 2 {
        8 * (a - b - c + d)
    } else {
        (2217 * (a - d) - 5352 * (b - c) + 937) / 512
    }
}

/// Output `k` of the four-point forward cosine transform down a column.
pub open spec fn column_rotated(a: int, b: int, c: int, d: int, k: int) -> int {
    if k == 0 {
        (a + b + c + d + 7) / 16
    } else if k == 1 {
        (2217 * (b - c) + 5352 * (a - d) + 12000) / 65536 + (if a == d {
            0int
        } else {
            1
        })
    } else if k == 2 {
        (a - b - c + d + 7) / 16
    } else {
        (2217 * (a - d) - 5352 * (b - c) + 51000) / 65536
    }
}

/// The forward cosine transform goes along the rows, then down the columns.
pub proof fn coefficient_is_the_forward_transform(d: Seq<i16>, x: int, y: int)
    requires
        0 <= x < 4,
        0 <= y < 4,
    ensures
        fdct_at(d, x, y) == column_rotated(
            row_rotated(d[0] as int, d[1] as int, d[2] as int, d[3] as int, x),
            row_rotated(d[4] as int, d[5] as int, d[6] as int, d[7] as int, x),
            row_rotated(d[8] as int, d[9] as int, d[10] as int, d[11] as int, x),
            row_rotated(d[12] as int, d[13] as int, d[14] as int, d[15] as int, x),
            y,
        ),
{
    reveal(fdct_at);
}

/// A flat residual of `v` has the first coefficient `8 v` and next to nothing in the
/// others; the inverse transform turns `8 v` back into `v` everywhere.
pub proof fn flat_blocks_survive_the_transforms(d: Seq<i16>, c: Seq<i16>, v: int, x: int, y: int)
    requires
        0 <= x < 4,
        0 <= y < 4,
        -255 <= v <= 255,
        forall|i: int| 0 <= i < 16 ==> #[trigger] d[i] == v,
        forall|i: int| 0 <= i < 16 ==> #[trigger] c[i] == (if i == 0 {
            8 * v
        } else {
            0
        }),
    ensures
        x == 0 && y == 0 ==> fdct_at(d, x, y) == 8 * v,
        x != 0 || y != 0 ==> 0 <= fdct_at(d, x, y) <= 1,
        idct_residual(c, x, y) == v,
{
    coefficient_is_the_forward_transform(d, x, y);
    residual_is_the_inverse_transform(c, x, y);
    assert(d[0] == v && d[1] == v && d[2] == v && d[3] == v && d[4] == v && d[5] == v && d[6] == v
        && d[7] == v && d[8] == v && d[9] == v && d[10] == v && d[11] == v && d[12] == v && d[13]
        == v && d[14] == v && d[15] == v);
    assert(c[0] == 8 * v && c[1] == 0 && c[2] == 0 && c[3] == 0 && c[4] == 0 && c[5] == 0 && c[6]
        == 0 && c[7] == 0 && c[8] == 0 && c[9] == 0 && c[10] == 0 && c[11] == 0 && c[12] == 0
        && c[13] == 0 && c[14] == 0 && c[15] == 0);
    assert(x == 0 || x == 1 || x == 2 || x == 3);
    assert(y == 0 || y == 1 || y == 2 || y == 3);
}

} // verus!
