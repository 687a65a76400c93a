//! Reconstruction of a macroblock's blocks as functions of their edges.
//!
//! A block is predicted from the samples above and to the left of it, and the inverse
//! transform of its coefficients is added. An [`Edge`] holds those samples, so what a
//! macroblock reconstructs to is stated here without any plane or position.

use vstd::prelude::*;

use crate::block::{
    blit, lemma_blit_at, lemma_in_square_at, lemma_sub_off, lemma_sub_read, lemma_with_sub,
    sub_block, sub_index, sub_off, with_sub,
};
use crate::idct::idct_add;
use crate::predict::{block4, edge4, left_col, whole_block};

verus! {

/// The samples around a block: the corner, the row above (for luma with the four
/// samples above to the right), and the column to the left.
pub struct Edge {
    /// The sample above and to the left.
    pub corner: u8,
    /// The row above.
    pub top: Seq<u8>,
    /// The column to the left.
    pub left: Seq<u8>,
}

/// The edge of the luma macroblock at `off`. In the rightmost column the samples above
/// to the right repeat the last sample above, unless there is no row above.
pub open spec fn luma_edge(
    plane: Seq<u8>,
    off: int,
    stride: int,
    has_top: bool,
    is_rightmost: bool,
) -> Edge {
    Edge {
        corner: plane[off - stride - 1],
        top: Seq::new(
            20,
            |x: int|
                plane[off - stride + if x >= 16 && has_top && is_rightmost {
                    15
                } else {
                    x
                }],
        ),
        left: left_col(plane, off, stride, 16),
    }
}

/// The edge of the chroma block at `off`.
pub open spec fn chroma_edge(plane: Seq<u8>, off: int, stride: int) -> Edge {
    Edge {
        corner: plane[off - stride - 1],
        top: Seq::new(8, |x: int| plane[off - stride + x]),
        left: left_col(plane, off, stride, 8),
    }
}

/// The sixteen coefficients of block `k`.
pub open spec fn coeff_block(coeffs: Seq<i16>, k: int) -> Seq<i16> {
    coeffs.subrange(16 * k, 16 * k + 16)
}

/// `pred` with the residuals of its first `k` sub-blocks added; their coefficients
/// start at block `base`.
pub open spec fn add_residuals(n: int, pred: Seq<u8>, coeffs: Seq<i16>, base: int, k: int) -> Seq<u8>
    decreases k,
{
    if k <= 0 {
        pred
    } else {
        let b = add_residuals(n, pred, coeffs, base, k - 1);
        with_sub(b, n, k - 1, idct_add(coeff_block(coeffs, base + k - 1), sub_block(b, n, k - 1)))
    }
}

/// The prediction of a whole block from its edge.
pub open spec fn predicted(n: int, e: Edge, mode: u8, has_top: bool, has_left: bool) -> Seq<u8> {
    whole_block(n, mode, e.top.take(n), e.left, e.corner, has_top, has_left)
}

/// A 16x16-predicted luma macroblock.
pub open spec fn luma16_recon(
    e: Edge,
    mode: u8,
    coeffs: Seq<i16>,
    has_top: bool,
    has_left: bool,
) -> Seq<u8> {
    add_residuals(16, predicted(16, e, mode, has_top, has_left), coeffs, 0, 16)
}

/// A chroma block whose coefficients start at block `base`.
pub open spec fn chroma_recon(
    e: Edge,
    mode: u8,
    coeffs: Seq<i16>,
    base: int,
    has_top: bool,
    has_left: bool,
) -> Seq<u8> {
    add_residuals(8, predicted(8, e, mode, has_top, has_left), coeffs, base, 4)
}

/// The sample at column `x`, row `y` of a macroblock with edge `e` and samples `b`. The
/// columns right of the macroblock hold the samples above to the right in every row.
pub open spec fn i4_sample(e: Edge, b: Seq<u8>, x: int, y: int) -> u8 {
    if y < 0 {
        if x < 0 {
            e.corner
        } else {
            e.top[x]
        }
    } else if x < 0 {
        e.left[y]
    } else if x >= 16 {
        e.top[x]
    } else {
        b[y * 16 + x]
    }
}

/// The edge of 4x4 sub-block `k`: four samples left, the corner, eight above.
pub open spec fn i4_edge(e: Edge, b: Seq<u8>, k: int) -> Seq<u8> {
    let x = (k % 4) * 4;
    let y = (k / 4) * 4;
    seq![
        i4_sample(e, b, x - 1, y),
        i4_sample(e, b, x - 1, y + 1),
        i4_sample(e, b, x - 1, y + 2),
        i4_sample(e, b, x - 1, y + 3),
        i4_sample(e, b, x - 1, y - 1),
        i4_sample(e, b, x, y - 1),
        i4_sample(e, b, x + 1, y - 1),
        i4_sample(e, b, x + 2, y - 1),
        i4_sample(e, b, x + 3, y - 1),
        i4_sample(e, b, x + 4, y - 1),
        i4_sample(e, b, x + 5, y - 1),
        i4_sample(e, b, x + 6, y - 1),
        i4_sample(e, b, x + 7, y - 1),
    ]
}

/// A luma macroblock whose first `k` sub-blocks are each made by `f` from the edge they
/// see, in raster order, starting from `b0`.
pub open spec fn i4_blocks(
    e: Edge,
    f: spec_fn(int, Seq<u8>) -> Seq<u8>,
    b0: Seq<u8>,
    k: int,
) -> Seq<u8>
    decreases k,
{
    if k <= 0 {
        b0
    } else {
        let b = i4_blocks(e, f, b0, k - 1);
        with_sub(b, 16, k - 1, f(k - 1, i4_edge(e, b, k - 1)))
    }
}

/// Predict sub-block `k` in its mode and add its residual.
pub open spec fn i4_decoded(modes: Seq<u8>, coeffs: Seq<i16>) -> spec_fn(int, Seq<u8>) -> Seq<u8> {
    |k: int, edge: Seq<u8>| idct_add(coeff_block(coeffs, k), block4(modes[k], edge))
}

/// A macroblock of zeros.
pub open spec fn blank_block() -> Seq<u8> {
    Seq::new(256, |i: int| 0u8)
}

/// A luma macroblock predicted per 4x4 sub-block.
pub open spec fn luma4_recon(e: Edge, modes: Seq<u8>, coeffs: Seq<i16>) -> Seq<u8> {
    i4_blocks(e, i4_decoded(modes, coeffs), blank_block(), 16)
}

/// Residuals keep the size of a block.
pub proof fn lemma_add_residuals_len(n: int, pred: Seq<u8>, coeffs: Seq<i16>, base: int, k: int)
    requires
        pred.len() == n * n,
    ensures
        add_residuals(n, pred, coeffs, base, k).len() == n * n,
    decreases k,
{
    if k > 0 {
        lemma_add_residuals_len(n, pred, coeffs, base, k - 1);
        assert(n * n >= 0) by (nonlinear_arith);
    }
}

/// Residuals depend on the coefficients they use only.
pub proof fn lemma_add_residuals_ext(
    n: int,
    pred: Seq<u8>,
    a: Seq<i16>,
    abase: int,
    b: Seq<i16>,
    bbase: int,
    k: int,
)
    requires
        forall|j: int|
            0 <= j < k ==> coeff_block(a, abase + j) == #[trigger] coeff_block(b, bbase + j),
    ensures
        add_residuals(n, pred, a, abase, k) == add_residuals(n, pred, b, bbase, k),
    decreases k,
{
    if k > 0 {
        lemma_add_residuals_ext(n, pred, a, abase, b, bbase, k - 1);
        assert(coeff_block(a, abase + (k - 1)) == coeff_block(b, bbase + (k - 1)));
    }
}

/// Sub-blocks keep the size of the macroblock.
pub proof fn lemma_i4_len(e: Edge, f: spec_fn(int, Seq<u8>) -> Seq<u8>, b0: Seq<u8>, k: int)
    requires
        b0.len() == 256,
    ensures
        i4_blocks(e, f, b0, k).len() == 256,
    decreases k,
{
    if k > 0 {
        lemma_i4_len(e, f, b0, k - 1);
    }
}

/// A sample of an earlier sub-block.
proof fn lemma_earlier(a: Seq<u8>, b: Seq<u8>, k: int, x: int, y: int)
    requires
        0 <= k <= 16,
        0 <= x < 16,
        0 <= y < 16,
        (y / 4) * 4 + x / 4 < k,
        forall|j: int| 0 <= j < k ==> #[trigger] sub_block(a, 16, j) == sub_block(b, 16, j),
    ensures
        a[y * 16 + x] == b[y * 16 + x],
{
    let i = y * 16 + x;
    assert(i / 16 == y && i % 16 == x);
    assert(16 * 16 == 256);
    lemma_sub_read(a, 16, i);
    lemma_sub_read(b, 16, i);
    assert(sub_index(16, i) == (y / 4) * 4 + x / 4);
    assert(sub_block(a, 16, sub_index(16, i)) == sub_block(b, 16, sub_index(16, i)));
}

/// The edge of a sub-block depends on earlier sub-blocks only.
pub proof fn lemma_i4_edge_local(e: Edge, a: Seq<u8>, b: Seq<u8>, k: int)
    requires
        0 <= k < 16,
        forall|j: int| 0 <= j < k ==> #[trigger] sub_block(a, 16, j) == sub_block(b, 16, j),
    ensures
        i4_edge(e, a, k) == i4_edge(e, b, k),
{
    let x0 = (k % 4) * 4;
    let y0 = (k / 4) * 4;
    assert forall|x: int, y: int|
        (x0 - 1 <= x < x0 + 8 && y == y0 - 1) || (x == x0 - 1 && y0 <= y < y0
            + 4) implies #[trigger] i4_sample(e, a, x, y) == i4_sample(e, b, x, y) by {
        if 0 <= x < 16 && 0 <= y {
            lemma_earlier(a, b, k, x, y);
        }
    }
    assert(i4_edge(e, a, k) =~= i4_edge(e, b, k));
}

/// What the first sub-blocks become does not depend on what the macroblock held, and
/// functions that agree on the edges they see make the same sub-blocks.
pub proof fn lemma_i4_blocks_local(
    e: Edge,
    f: spec_fn(int, Seq<u8>) -> Seq<u8>,
    g: spec_fn(int, Seq<u8>) -> Seq<u8>,
    a0: Seq<u8>,
    b0: Seq<u8>,
    k: int,
    j: int,
)
    requires
        0 <= j < k <= 16,
        forall|i: int, edge: Seq<u8>| (#[trigger] f(i, edge)).len() == 16,
        forall|i: int|
            0 <= i < k ==> f(i, i4_edge(e, i4_blocks(e, f, a0, i), i)) == #[trigger] g(
                i,
                i4_edge(e, i4_blocks(e, f, a0, i), i),
            ),
    ensures
        sub_block(i4_blocks(e, f, a0, k), 16, j) == sub_block(i4_blocks(e, g, b0, k), 16, j),
    decreases k, j,
{
    let a = i4_blocks(e, f, a0, k - 1);
    let b = i4_blocks(e, g, b0, k - 1);
    assert forall|i: int| 0 <= i < k - 1 implies #[trigger] sub_block(a, 16, i) == sub_block(
        b,
        16,
        i,
    ) by {
        assert forall|m: int| 0 <= m < k - 1 implies f(m, i4_edge(e, i4_blocks(e, f, a0, m), m))
            == #[trigger] g(m, i4_edge(e, i4_blocks(e, f, a0, m), m)) by {}
        lemma_i4_blocks_local(e, f, g, a0, b0, k - 1, i);
    }
    lemma_i4_edge_local(e, a, b, k - 1);
    let da = f(k - 1, i4_edge(e, a, k - 1));
    let db = g(k - 1, i4_edge(e, b, k - 1));
    assert(da == db) by {
        assert(f(k - 1, i4_edge(e, i4_blocks(e, f, a0, k - 1), k - 1)) == g(
            k - 1,
            i4_edge(e, i4_blocks(e, f, a0, k - 1), k - 1),
        ));
    }
    assert((16int / 4) * (16int / 4) == 16);
    lemma_with_sub(a, 16, k - 1, da, j);
    lemma_with_sub(b, 16, k - 1, db, j);
}

/// Macroblocks with equal sub-blocks are equal.
pub proof fn lemma_sub_blocks_ext(a: Seq<u8>, b: Seq<u8>)
    requires
        a.len() == 256,
        b.len() == 256,
        forall|j: int| 0 <= j < 16 ==> #[trigger] sub_block(a, 16, j) == sub_block(b, 16, j),
    ensures
        a == b,
{
    assert forall|i: int| 0 <= i < 256 implies a[i] == b[i] by {
        assert(i == (i / 16) * 16 + i % 16);
        lemma_earlier(a, b, 16, i % 16, i / 16);
    }
    assert(a =~= b);
}

/// The sixteen sub-blocks do not depend on what the macroblock held.
pub proof fn lemma_i4_blocks_ext(
    e: Edge,
    f: spec_fn(int, Seq<u8>) -> Seq<u8>,
    g: spec_fn(int, Seq<u8>) -> Seq<u8>,
    a0: Seq<u8>,
    b0: Seq<u8>,
)
    requires
        a0.len() == 256,
        b0.len() == 256,
        forall|i: int, edge: Seq<u8>| (#[trigger] f(i, edge)).len() == 16,
        forall|i: int|
            0 <= i < 16 ==> f(i, i4_edge(e, i4_blocks(e, f, a0, i), i)) == #[trigger] g(
                i,
                i4_edge(e, i4_blocks(e, f, a0, i), i),
            ),
    ensures
        i4_blocks(e, f, a0, 16) == i4_blocks(e, g, b0, 16),
{
    let a = i4_blocks(e, f, a0, 16);
    let b = i4_blocks(e, g, b0, 16);
    lemma_i4_len(e, f, a0, 16);
    lemma_i4_len(e, g, b0, 16);
    assert forall|j: int| 0 <= j < 16 implies #[trigger] sub_block(a, 16, j) == sub_block(b, 16, j) by {
        lemma_i4_blocks_local(e, f, g, a0, b0, 16, j);
    }
    lemma_sub_blocks_ext(a, b);
}

/// Whether the macroblock at `off` has the edge `e`, with the samples above to the
/// right repeated beside rows 3, 7 and 11.
pub open spec fn has_lane(p: Seq<u8>, off: int, stride: int, e: Edge) -> bool {
    &&& p[off - stride - 1] == e.corner
    &&& forall|x: int| 0 <= x < 20 ==> p[off - stride + x] == #[trigger] e.top[x]
    &&& forall|y: int| 0 <= y < 16 ==> p[off + y * stride - 1] == #[trigger] e.left[y]
    &&& forall|x: int|
        16 <= x < 20 ==> p[off + 3 * stride + x] == #[trigger] e.top[x] && p[off + 7 * stride + x]
            == e.top[x] && p[off + 11 * stride + x] == e.top[x]
}

/// Whether a luma macroblock, its edge and the columns right of it lie in a plane.
pub open spec fn luma_fits(len: int, off: int, stride: int) -> bool {
    &&& stride >= 21
    &&& off >= stride + 1
    &&& off + 15 * stride + 16 <= len
}

/// A plane sample near a blitted macroblock.
proof fn lemma_sample(p: Seq<u8>, off: int, stride: int, e: Edge, b: Seq<u8>, x: int, y: int)
    requires
        luma_fits(p.len() as int, off, stride),
        has_lane(p, off, stride, e),
        (y == -1 && -1 <= x < 20) || (0 <= y < 16 && -1 <= x < 16) || ((y == 3 || y == 7 || y == 11)
            && 16 <= x < 20),
    ensures
        blit(p, off, stride, 16, b)[off + y * stride + x] == i4_sample(e, b, x, y),
{
    let i = off + y * stride + x;
    assert(0 <= i < p.len()) by {
        assert(y * stride <= 15 * stride) by (nonlinear_arith)
            requires
                y <= 15,
                stride >= 21,
        ;
        assert(-stride <= y * stride) by (nonlinear_arith)
            requires
                y >= -1,
                stride >= 21,
        ;
        if y == 11 {
            assert(11 * stride + 20 <= 15 * stride + 16);
        }
        if y < 0 || x < 0 {
            if y >= 0 {
                assert(y * stride >= 0) by (nonlinear_arith)
                    requires
                        y >= 0,
                        stride >= 21,
                ;
            } else {
                assert(y * stride == -stride) by (nonlinear_arith)
                    requires
                        y == -1,
                ;
            }
        } else {
            assert(y * stride >= 0) by (nonlinear_arith)
                requires
                    y >= 0,
                    stride >= 21,
            ;
            if x >= 16 {
                assert(y * stride <= 11 * stride) by (nonlinear_arith)
                    requires
                        y <= 11,
                        stride >= 21,
                ;
            }
        }
    }
    if 0 <= y && 0 <= x < 16 {
        lemma_blit_at(p, off, stride, 16, b, x, y);
    } else if x < 0 {
        assert(y * stride + x == (y - 1) * stride + (stride - 1)) by (nonlinear_arith)
            requires
                x == -1,
        ;
        lemma_in_square_at(off, stride, 0, 0, 16, stride - 1, y - 1);
        assert(off + 0 * stride + 0 == off);
        if y == -1 {
            assert(y * stride == -stride) by (nonlinear_arith)
                requires
                    y == -1,
            ;
        } else {
            assert(p[off + y * stride - 1] == e.left[y]);
        }
    } else {
        lemma_in_square_at(off, stride, 0, 0, 16, x, y);
        assert(off + 0 * stride + 0 == off);
        if y == -1 {
            assert(y * stride == -stride) by (nonlinear_arith)
                requires
                    y == -1,
            ;
            assert(p[off - stride + x] == e.top[x]);
        } else {
            assert(p[off + 3 * stride + x] == e.top[x]);
        }
    }
}

/// The edge of a sub-block, read from the plane or from the macroblock's edge.
pub proof fn lemma_i4_edge_plane(p: Seq<u8>, off: int, stride: int, e: Edge, b: Seq<u8>, k: int)
    requires
        luma_fits(p.len() as int, off, stride),
        has_lane(p, off, stride, e),
        0 <= k < 16,
    ensures
        edge4(blit(p, off, stride, 16, b), sub_off(off, stride, 16, k), stride) == i4_edge(e, b, k),
{
    assert((16int / 4) * (16int / 4) == 16);
    lemma_sub_off(off, stride, 16, k);
    let x0 = (k % 4) * 4;
    let y0 = (k / 4) * 4;
    let so = sub_off(off, stride, 16, k);
    let q = blit(p, off, stride, 16, b);
    assert(so == off + y0 * stride + x0);
    assert forall|d: int| -1 <= d < 8 implies #[trigger] q[so - stride + d] == i4_sample(
        e,
        b,
        x0 + d,
        y0 - 1,
    ) by {
        lemma_sample(p, off, stride, e, b, x0 + d, y0 - 1);
        assert((y0 - 1) * stride == y0 * stride - stride) by (nonlinear_arith);
    }
    assert forall|d: int| 0 <= d < 4 implies #[trigger] q[so + d * stride - 1] == i4_sample(
        e,
        b,
        x0 - 1,
        y0 + d,
    ) by {
        lemma_sample(p, off, stride, e, b, x0 - 1, y0 + d);
        assert((y0 + d) * stride == y0 * stride + d * stride) by (nonlinear_arith);
    }
    assert(q[so + 0 * stride - 1] == i4_sample(e, b, x0 - 1, y0 + 0));
    assert(q[so + 1 * stride - 1] == i4_sample(e, b, x0 - 1, y0 + 1));
    assert(q[so + 2 * stride - 1] == i4_sample(e, b, x0 - 1, y0 + 2));
    assert(q[so + 3 * stride - 1] == i4_sample(e, b, x0 - 1, y0 + 3));
    assert(q[so - stride + (-1)] == i4_sample(e, b, x0 + (-1), y0 - 1));
    assert(q[so - stride + 0] == i4_sample(e, b, x0 + 0, y0 - 1));
    assert(q[so - stride + 1] == i4_sample(e, b, x0 + 1, y0 - 1));
    assert(q[so - stride + 2] == i4_sample(e, b, x0 + 2, y0 - 1));
    assert(q[so - stride + 3] == i4_sample(e, b, x0 + 3, y0 - 1));
    assert(q[so - stride + 4] == i4_sample(e, b, x0 + 4, y0 - 1));
    assert(q[so - stride + 5] == i4_sample(e, b, x0 + 5, y0 - 1));
    assert(q[so - stride + 6] == i4_sample(e, b, x0 + 6, y0 - 1));
    assert(q[so - stride + 7] == i4_sample(e, b, x0 + 7, y0 - 1));
    assert(edge4(q, so, stride) =~= i4_edge(e, b, k));
}

} // verus!
