//! A frame as a grid of reconstructed macroblocks.
//!
//! The padded planes are how a frame is stored; what they show is a grid of tiles inside
//! a border of 127 above and 129 to the left. A macroblock's edge is read off the tiles
//! around it.

use vstd::arithmetic::div_mod::{lemma_fundamental_div_mod, lemma_fundamental_div_mod_converse};
use vstd::prelude::*;

use crate::block::{
    blit, in_square, lemma_in_square_at, lemma_square_at, lemma_square_blit, square, square_fits,
};
use crate::plan::{edges_at, MbEdges};
use crate::recon_block::{chroma_edge, luma_edge, luma_fits, Edge};
use crate::reconstruct::{
    chroma_stride, empty_plane, in_lane, lane_filled, lemma_lane, lemma_mb_fits, luma_stride,
    mb_off, Samples,
};

verus! {

/// The samples of one reconstructed macroblock.
pub struct Tile {
    /// Luma, 16x16.
    pub y: Seq<u8>,
    /// U chroma, 8x8.
    pub u: Seq<u8>,
    /// V chroma, 8x8.
    pub v: Seq<u8>,
}

/// The luma blocks of tiles.
pub open spec fn y_blocks(tiles: Seq<Tile>) -> spec_fn(int) -> Seq<u8> {
    |k: int| tiles[k].y
}

/// The U blocks of tiles.
pub open spec fn u_blocks(tiles: Seq<Tile>) -> spec_fn(int) -> Seq<u8> {
    |k: int| tiles[k].u
}

/// The V blocks of tiles.
pub open spec fn v_blocks(tiles: Seq<Tile>) -> spec_fn(int) -> Seq<u8> {
    |k: int| tiles[k].v
}

/// Where the block of macroblock `k` starts in a plane.
pub open spec fn tile_off(stride: int, n: int, mb_w: int, k: int) -> int {
    mb_off(stride, n, k % mb_w, k / mb_w)
}

/// Whether a plane shows the border and the blocks that are done.
pub open spec fn plane_shows(
    p: Seq<u8>,
    stride: int,
    n: int,
    mb_w: int,
    mb_h: int,
    blocks: spec_fn(int) -> Seq<u8>,
    done: spec_fn(int) -> bool,
) -> bool {
    &&& p.len() == stride * (1 + mb_h * n)
    &&& forall|c: int| 0 <= c < stride ==> #[trigger] p[c] == 127
    &&& forall|r: int| 1 <= r < 1 + mb_h * n ==> #[trigger] p[r * stride] == 129
    &&& forall|k: int|
        0 <= k < mb_w * mb_h && #[trigger] done(k) ==> blocks(k).len() == n * n && square(
            p,
            tile_off(stride, n, mb_w, k),
            stride,
            n,
        ) == blocks(k)
}

/// Whether planes show the border and the tiles that are done.
pub open spec fn shows(
    s: Samples,
    mb_w: int,
    mb_h: int,
    tiles: Seq<Tile>,
    done: spec_fn(int) -> bool,
) -> bool {
    let ys = luma_stride(mb_w);
    let us = chroma_stride(mb_w);
    &&& plane_shows(s.y, ys, 16, mb_w, mb_h, y_blocks(tiles), done)
    &&& plane_shows(s.u, us, 8, mb_w, mb_h, u_blocks(tiles), done)
    &&& plane_shows(s.v, us, 8, mb_w, mb_h, v_blocks(tiles), done)
}

/// Sample `i` of the row above block `k`.
pub open spec fn above(n: int, mb_w: int, blocks: spec_fn(int) -> Seq<u8>, k: int, i: int) -> u8 {
    if k < mb_w {
        127
    } else {
        blocks(k - mb_w)[(n - 1) * n + i]
    }
}

/// Sample `j` of the column left of block `k`.
pub open spec fn beside(n: int, mb_w: int, blocks: spec_fn(int) -> Seq<u8>, k: int, j: int) -> u8 {
    if k % mb_w == 0 {
        129
    } else {
        blocks(k - 1)[j * n + (n - 1)]
    }
}

/// The sample above and to the left of block `k`.
pub open spec fn corner(n: int, mb_w: int, blocks: spec_fn(int) -> Seq<u8>, k: int) -> u8 {
    if k < mb_w {
        127
    } else if k % mb_w == 0 {
        129
    } else {
        blocks(k - mb_w - 1)[(n - 1) * n + (n - 1)]
    }
}

/// The luma edge of macroblock `k`.
pub open spec fn luma_tile_edge(mb_w: int, blocks: spec_fn(int) -> Seq<u8>, k: int) -> Edge {
    Edge {
        corner: corner(16, mb_w, blocks, k),
        top: Seq::new(
            20,
            |i: int|
                if i < 16 {
                    above(16, mb_w, blocks, k, i)
                } else if k < mb_w {
                    127
                } else if k % mb_w == mb_w - 1 {
                    above(16, mb_w, blocks, k, 15)
                } else {
                    above(16, mb_w, blocks, k + 1, i - 16)
                },
        ),
        left: Seq::new(16, |j: int| beside(16, mb_w, blocks, k, j)),
    }
}

/// The edge of chroma block `k`.
pub open spec fn chroma_tile_edge(mb_w: int, blocks: spec_fn(int) -> Seq<u8>, k: int) -> Edge {
    Edge {
        corner: corner(8, mb_w, blocks, k),
        top: Seq::new(8, |i: int| above(8, mb_w, blocks, k, i)),
        left: Seq::new(8, |j: int| beside(8, mb_w, blocks, k, j)),
    }
}

/// The edges of macroblock `k`.
pub open spec fn tile_edges(mb_w: int, tiles: Seq<Tile>, k: int) -> MbEdges {
    MbEdges {
        y: luma_tile_edge(mb_w, y_blocks(tiles), k),
        u: chroma_tile_edge(mb_w, u_blocks(tiles), k),
        v: chroma_tile_edge(mb_w, v_blocks(tiles), k),
    }
}

/// The column and row of macroblock `k`.
pub proof fn lemma_grid(mb_w: int, mb_h: int, k: int)
    requires
        1 <= mb_w,
        0 <= k < mb_w * mb_h,
    ensures
        0 <= k % mb_w < mb_w,
        0 <= k / mb_w < mb_h,
        k == (k / mb_w) * mb_w + k % mb_w,
        k < mb_w <==> k / mb_w == 0,
        k >= mb_w ==> (k - mb_w) / mb_w == k / mb_w - 1 && (k - mb_w) % mb_w == k % mb_w,
        k % mb_w > 0 ==> k >= 1 && (k - 1) / mb_w == k / mb_w && (k - 1) % mb_w == k % mb_w - 1,
        k % mb_w < mb_w - 1 ==> (k + 1) / mb_w == k / mb_w && (k + 1) % mb_w == k % mb_w + 1,
{
    lemma_fundamental_div_mod(k, mb_w);
    let y = k / mb_w;
    let x = k % mb_w;
    assert(mb_w * y == y * mb_w) by (nonlinear_arith);
    assert(0 <= y < mb_h) by (nonlinear_arith)
        requires
            0 <= k < mb_w * mb_h,
            k == y * mb_w + x,
            0 <= x < mb_w,
    ;
    if k < mb_w {
        if y >= 1 {
            assert(y * mb_w >= mb_w) by (nonlinear_arith)
                requires
                    y >= 1,
                    mb_w >= 1,
            ;
        }
    } else {
        assert(y >= 1) by (nonlinear_arith)
            requires
                0 <= y,
                k == y * mb_w + x,
                k >= mb_w,
                x < mb_w,
        ;
        assert((y - 1) * mb_w == y * mb_w - mb_w) by (nonlinear_arith);
        lemma_fundamental_div_mod_converse(k - mb_w, mb_w, y - 1, x);
    }
    if x > 0 {
        assert(0 <= y * mb_w) by (nonlinear_arith)
            requires
                0 <= y,
                1 <= mb_w,
        ;
        lemma_fundamental_div_mod_converse(k - 1, mb_w, y, x - 1);
    }
    if x < mb_w - 1 {
        lemma_fundamental_div_mod_converse(k + 1, mb_w, y, x + 1);
    }
}

/// Where a macroblock's samples lie: sample (`x`, `y`) of block `k` is in row
/// `n * (k / mb_w) + 1 + y` and column `n * (k % mb_w) + 1 + x`.
pub(crate) proof fn lemma_tile_row(stride: int, n: int, mb_w: int, k: int, x: int, y: int)
    ensures
        tile_off(stride, n, mb_w, k) + y * stride + x == ((k / mb_w) * n + 1 + y) * stride + ((k
            % mb_w) * n + 1 + x),
{
    let r = (k / mb_w) * n + 1;
    assert((r + y) * stride == r * stride + y * stride) by (nonlinear_arith);
}

/// Reading sample (`x`, `y`) of a block that is done.
pub(crate) proof fn lemma_tile_sample(
    p: Seq<u8>,
    stride: int,
    n: int,
    mb_w: int,
    mb_h: int,
    blocks: spec_fn(int) -> Seq<u8>,
    done: spec_fn(int) -> bool,
    k: int,
    x: int,
    y: int,
)
    requires
        plane_shows(p, stride, n, mb_w, mb_h, blocks, done),
        0 <= k < mb_w * mb_h,
        done(k),
        0 <= x < n,
        0 <= y < n,
    ensures
        p[tile_off(stride, n, mb_w, k) + y * stride + x] == blocks(k)[y * n + x],
{
    lemma_square_at(p, tile_off(stride, n, mb_w, k), stride, n, x, y);
}

/// The samples around block `k`, if its neighbours are done.
proof fn lemma_plane_edge(
    p: Seq<u8>,
    stride: int,
    n: int,
    mb_w: int,
    mb_h: int,
    blocks: spec_fn(int) -> Seq<u8>,
    done: spec_fn(int) -> bool,
    k: int,
)
    requires
        plane_shows(p, stride, n, mb_w, mb_h, blocks, done),
        1 <= mb_w,
        n >= 1,
        stride >= mb_w * n + 1,
        0 <= k < mb_w * mb_h,
        k >= mb_w ==> done(k - mb_w),
        k % mb_w > 0 ==> done(k - 1),
        k >= mb_w && k % mb_w > 0 ==> done(k - mb_w - 1),
    ensures
        ({
            let off = tile_off(stride, n, mb_w, k);
            &&& p[off - stride - 1] == corner(n, mb_w, blocks, k)
            &&& forall|i: int| 0 <= i < n ==> #[trigger] p[off - stride + i] == above(n, mb_w, blocks, k, i)
            &&& forall|j: int|
                0 <= j < n ==> #[trigger] p[off + j * stride - 1] == beside(n, mb_w, blocks, k, j)
        }),
{
    lemma_grid(mb_w, mb_h, k);
    let bx = k % mb_w;
    let by = k / mb_w;
    let off = tile_off(stride, n, mb_w, k);
    let r0 = by * n + 1;
    let c0 = bx * n + 1;
    assert(off == r0 * stride + c0);
    assert(0 <= bx * n && bx * n + n <= mb_w * n) by (nonlinear_arith)
        requires
            0 <= bx,
            bx + 1 <= mb_w,
            n >= 1,
    ;
    assert(0 <= by * n && by * n + n <= mb_h * n) by (nonlinear_arith)
        requires
            0 <= by,
            by + 1 <= mb_h,
            n >= 1,
    ;
    assert((r0 - 1) * stride == r0 * stride - stride) by (nonlinear_arith);
    if by == 0 {
        assert((r0 - 1) * stride == 0) by (nonlinear_arith)
            requires
                r0 == 1,
        ;
        assert(p[c0 - 1] == 127);
        assert forall|i: int| 0 <= i < n implies #[trigger] p[off - stride + i] == above(
            n,
            mb_w,
            blocks,
            k,
            i,
        ) by {
            assert(p[c0 + i] == 127);
        }
    } else {
        let up = k - mb_w;
        assert((by - 1) * n == by * n - n) by (nonlinear_arith);
        assert forall|i: int| 0 <= i < n implies #[trigger] p[off - stride + i] == above(
            n,
            mb_w,
            blocks,
            k,
            i,
        ) by {
            lemma_tile_sample(p, stride, n, mb_w, mb_h, blocks, done, up, i, n - 1);
            lemma_tile_row(stride, n, mb_w, up, i, n - 1);
        }
        if bx == 0 {
            assert(p[(r0 - 1) * stride] == 129);
        } else {
            lemma_grid(mb_w, mb_h, up);
            let ul = k - mb_w - 1;
            assert((bx - 1) * n == bx * n - n) by (nonlinear_arith);
            lemma_tile_sample(p, stride, n, mb_w, mb_h, blocks, done, ul, n - 1, n - 1);
            lemma_tile_row(stride, n, mb_w, ul, n - 1, n - 1);
        }
    }
    assert forall|j: int| 0 <= j < n implies #[trigger] p[off + j * stride - 1] == beside(
        n,
        mb_w,
        blocks,
        k,
        j,
    ) by {
        assert((r0 + j) * stride == r0 * stride + j * stride) by (nonlinear_arith);
        if bx == 0 {
            assert(p[(r0 + j) * stride] == 129);
        } else {
            let left = k - 1;
            assert((bx - 1) * n == bx * n - n) by (nonlinear_arith);
            lemma_tile_sample(p, stride, n, mb_w, mb_h, blocks, done, left, n - 1, j);
            lemma_tile_row(stride, n, mb_w, left, n - 1, j);
        }
    }
}

/// The luma edge of macroblock `k`, read from a plane that shows its neighbours. The
/// samples above to the right are those of the tile there only if it is done.
pub proof fn lemma_luma_edge(
    p: Seq<u8>,
    mb_w: int,
    mb_h: int,
    blocks: spec_fn(int) -> Seq<u8>,
    done: spec_fn(int) -> bool,
    k: int,
)
    requires
        plane_shows(p, luma_stride(mb_w), 16, mb_w, mb_h, blocks, done),
        1 <= mb_w,
        0 <= k < mb_w * mb_h,
        k >= mb_w ==> done(k - mb_w),
        k % mb_w > 0 ==> done(k - 1),
        k >= mb_w && k % mb_w > 0 ==> done(k - mb_w - 1),
    ensures
        ({
            let ys = luma_stride(mb_w);
            let e = luma_edge(
                p,
                tile_off(ys, 16, mb_w, k),
                ys,
                k / mb_w > 0,
                k % mb_w == mb_w - 1,
            );
            let f = luma_tile_edge(mb_w, blocks, k);
            &&& e.corner == f.corner
            &&& e.left == f.left
            &&& e.top.take(16) == f.top.take(16)
            &&& (k >= mb_w && k % mb_w < mb_w - 1 ==> done(k - mb_w + 1)) ==> e == f
        }),
{
    let ys = luma_stride(mb_w);
    let off = tile_off(ys, 16, mb_w, k);
    lemma_plane_edge(p, ys, 16, mb_w, mb_h, blocks, done, k);
    lemma_grid(mb_w, mb_h, k);
    let e = luma_edge(p, off, ys, k / mb_w > 0, k % mb_w == mb_w - 1);
    let f = luma_tile_edge(mb_w, blocks, k);
    assert forall|j: int| 0 <= j < 16 implies e.left[j] == f.left[j] by {
        assert(p[off + j * ys - 1] == beside(16, mb_w, blocks, k, j));
    }
    assert(e.left =~= f.left);
    assert forall|i: int| 0 <= i < 16 implies e.top[i] == f.top[i] by {
        assert(p[off - ys + i] == above(16, mb_w, blocks, k, i));
    }
    assert(e.top.take(16) =~= f.top.take(16));
    if k >= mb_w && k % mb_w < mb_w - 1 ==> done(k - mb_w + 1) {
        assert forall|i: int| 0 <= i < 20 implies e.top[i] == f.top[i] by {
            if i >= 16 {
                let by = k / mb_w;
                let bx = k % mb_w;
                let r0 = by * 16 + 1;
                assert((r0 - 1) * ys == r0 * ys - ys) by (nonlinear_arith);
                if by == 0 {
                    assert((r0 - 1) * ys == 0) by (nonlinear_arith)
                        requires
                            r0 == 1,
                    ;
                    assert(p[bx * 16 + 1 + i] == 127);
                } else if bx == mb_w - 1 {
                    assert(p[off - ys + 15] == above(16, mb_w, blocks, k, 15));
                } else {
                    let ur = k - mb_w + 1;
                    lemma_grid(mb_w, mb_h, k - mb_w);
                    lemma_tile_sample(p, ys, 16, mb_w, mb_h, blocks, done, ur, i - 16, 15);
                    lemma_tile_row(ys, 16, mb_w, ur, i - 16, 15);
                    assert(15 * 16 + (i - 16) == (16 - 1) * 16 + (i - 16));
                }
            }
        }
        assert(e.top =~= f.top);
    }
}

/// The edge of chroma block `k`, read from a plane that shows its neighbours.
proof fn lemma_chroma_edge(
    p: Seq<u8>,
    mb_w: int,
    mb_h: int,
    blocks: spec_fn(int) -> Seq<u8>,
    done: spec_fn(int) -> bool,
    k: int,
)
    requires
        plane_shows(p, chroma_stride(mb_w), 8, mb_w, mb_h, blocks, done),
        1 <= mb_w,
        0 <= k < mb_w * mb_h,
        k >= mb_w ==> done(k - mb_w),
        k % mb_w > 0 ==> done(k - 1),
        k >= mb_w && k % mb_w > 0 ==> done(k - mb_w - 1),
    ensures
        chroma_edge(p, tile_off(chroma_stride(mb_w), 8, mb_w, k), chroma_stride(mb_w))
            == chroma_tile_edge(mb_w, blocks, k),
{
    let us = chroma_stride(mb_w);
    let off = tile_off(us, 8, mb_w, k);
    lemma_plane_edge(p, us, 8, mb_w, mb_h, blocks, done, k);
    let e = chroma_edge(p, off, us);
    let f = chroma_tile_edge(mb_w, blocks, k);
    assert forall|j: int| 0 <= j < 8 implies e.left[j] == f.left[j] by {
        assert(p[off + j * us - 1] == beside(8, mb_w, blocks, k, j));
    }
    assert(e.left =~= f.left);
    assert forall|i: int| 0 <= i < 8 implies e.top[i] == f.top[i] by {
        assert(p[off - us + i] == above(8, mb_w, blocks, k, i));
    }
    assert(e.top =~= f.top);
}

/// The edges of macroblock `k` in planes that show its neighbours.
pub proof fn lemma_edges(
    s: Samples,
    mb_w: int,
    mb_h: int,
    tiles: Seq<Tile>,
    done: spec_fn(int) -> bool,
    k: int,
)
    requires
        shows(s, mb_w, mb_h, tiles, done),
        1 <= mb_w,
        0 <= k < mb_w * mb_h,
        k >= mb_w ==> done(k - mb_w),
        k % mb_w > 0 ==> done(k - 1),
        k >= mb_w && k % mb_w > 0 ==> done(k - mb_w - 1),
    ensures
        ({
            let ys = luma_stride(mb_w);
            let us = chroma_stride(mb_w);
            let e = edges_at(
                s,
                tile_off(ys, 16, mb_w, k),
                ys,
                tile_off(us, 8, mb_w, k),
                us,
                k / mb_w > 0,
                k % mb_w == mb_w - 1,
            );
            let f = tile_edges(mb_w, tiles, k);
            &&& e.u == f.u
            &&& e.v == f.v
            &&& e.y.corner == f.y.corner
            &&& e.y.left == f.y.left
            &&& e.y.top.take(16) == f.y.top.take(16)
            &&& (k >= mb_w && k % mb_w < mb_w - 1 ==> done(k - mb_w + 1)) ==> e == f
        }),
{
    lemma_luma_edge(s.y, mb_w, mb_h, y_blocks(tiles), done, k);
    lemma_chroma_edge(s.u, mb_w, mb_h, u_blocks(tiles), done, k);
    lemma_chroma_edge(s.v, mb_w, mb_h, v_blocks(tiles), done, k);
}

/// The border and the other blocks are not in block `k`.
proof fn lemma_outside(stride: int, n: int, mb_w: int, mb_h: int, k: int, j: int, x: int, y: int)
    requires
        1 <= mb_w,
        n >= 1,
        stride >= mb_w * n + 1,
        0 <= k < mb_w * mb_h,
        0 <= j < mb_w * mb_h,
        j != k,
        0 <= x < n,
        0 <= y < n,
    ensures
        !in_square(
            tile_off(stride, n, mb_w, j) + y * stride + x,
            tile_off(stride, n, mb_w, k),
            stride,
            n,
        ),
{
    lemma_grid(mb_w, mb_h, k);
    lemma_grid(mb_w, mb_h, j);
    lemma_tile_row(stride, n, mb_w, j, x, y);
    let kx = k % mb_w;
    let ky = k / mb_w;
    let jx = j % mb_w;
    let jy = j / mb_w;
    assert(0 <= kx * n && kx * n + n <= mb_w * n) by (nonlinear_arith)
        requires
            0 <= kx,
            kx + 1 <= mb_w,
            n >= 1,
    ;
    assert(0 <= jx * n && jx * n + n <= mb_w * n) by (nonlinear_arith)
        requires
            0 <= jx,
            jx + 1 <= mb_w,
            n >= 1,
    ;
    lemma_in_square_at(0, stride, kx * n + 1, ky * n + 1, n, jx * n + 1 + x, jy * n + 1 + y);
    assert(0 + (ky * n + 1) * stride + (kx * n + 1) == tile_off(stride, n, mb_w, k));
    if ky != jy {
        if jy < ky {
            assert(jy * n + n <= ky * n) by (nonlinear_arith)
                requires
                    jy + 1 <= ky,
                    n >= 1,
            ;
        } else {
            assert(ky * n + n <= jy * n) by (nonlinear_arith)
                requires
                    ky + 1 <= jy,
                    n >= 1,
            ;
        }
    } else {
        assert(kx != jx);
        if jx < kx {
            assert(jx * n + n <= kx * n) by (nonlinear_arith)
                requires
                    jx + 1 <= kx,
                    n >= 1,
            ;
        } else {
            assert(kx * n + n <= jx * n) by (nonlinear_arith)
                requires
                    kx + 1 <= jx,
                    n >= 1,
            ;
        }
    }
}

/// Writing block `k` shows it besides what was shown.
proof fn lemma_plane_shows_blit(
    p: Seq<u8>,
    stride: int,
    n: int,
    mb_w: int,
    mb_h: int,
    blocks: spec_fn(int) -> Seq<u8>,
    done: spec_fn(int) -> bool,
    next: spec_fn(int) -> bool,
    k: int,
)
    requires
        plane_shows(p, stride, n, mb_w, mb_h, blocks, done),
        1 <= mb_w,
        n >= 1,
        stride >= mb_w * n + 1,
        0 <= k < mb_w * mb_h,
        blocks(k).len() == n * n,
        forall|j: int| 0 <= j < mb_w * mb_h && j != k && #[trigger] next(j) ==> done(j),
    ensures
        plane_shows(
            blit(p, tile_off(stride, n, mb_w, k), stride, n, blocks(k)),
            stride,
            n,
            mb_w,
            mb_h,
            blocks,
            next,
        ),
{
    let off = tile_off(stride, n, mb_w, k);
    let b = blocks(k);
    let q = blit(p, off, stride, n, b);
    lemma_grid(mb_w, mb_h, k);
    let kx = k % mb_w;
    let ky = k / mb_w;
    assert(0 <= kx * n && kx * n + n <= mb_w * n) by (nonlinear_arith)
        requires
            0 <= kx,
            kx + 1 <= mb_w,
            n >= 1,
    ;
    assert(0 <= ky * n && ky * n + n <= mb_h * n) by (nonlinear_arith)
        requires
            0 <= ky,
            ky + 1 <= mb_h,
            n >= 1,
    ;
    let r0 = ky * n + 1;
    let c0 = kx * n + 1;
    assert(off == 0 + r0 * stride + c0);
    assert(stride <= r0 * stride) by (nonlinear_arith)
        requires
            1 <= r0,
            1 <= stride,
    ;
    assert forall|c: int| 0 <= c < stride implies #[trigger] q[c] == 127 by {
        assert(p[c] == 127);
        assert(stride <= stride * (1 + mb_h * n)) by (nonlinear_arith)
            requires
                0 <= mb_h * n,
                1 <= stride,
        ;
    }
    assert forall|r: int| 1 <= r < 1 + mb_h * n implies #[trigger] q[r * stride] == 129 by {
        assert(p[r * stride] == 129);
        lemma_in_square_at(0, stride, c0, r0, n, 0, r);
        assert(0 <= r * stride < stride * (1 + mb_h * n)) by (nonlinear_arith)
            requires
                1 <= r < 1 + mb_h * n,
                1 <= stride,
        ;
    }
    assert(square_fits(p.len() as int, off, stride, n)) by {
        assert(r0 * stride + (n - 1) * stride + stride <= stride * (1 + mb_h * n))
            by (nonlinear_arith)
            requires
                r0 + n <= 1 + mb_h * n,
                1 <= stride,
        ;
    }
    assert forall|j: int| 0 <= j < mb_w * mb_h && #[trigger] next(j) implies blocks(j).len() == n * n
        && square(q, tile_off(stride, n, mb_w, j), stride, n) == blocks(j) by {
        if j == k {
            lemma_square_blit(p, off, stride, n, b);
        } else {
            assert(done(j));
            let jo = tile_off(stride, n, mb_w, j);
            let a = square(q, jo, stride, n);
            assert forall|i: int| 0 <= i < n * n implies a[i] == blocks(j)[i] by {
                crate::block::lemma_block_index(n, i);
                lemma_outside(stride, n, mb_w, mb_h, k, j, i % n, i / n);
                lemma_tile_sample(p, stride, n, mb_w, mb_h, blocks, done, j, i % n, i / n);
                lemma_tile_inside(stride, n, mb_w, mb_h, j, i % n, i / n);
            }
            assert(a =~= blocks(j));
        }
    }
}

/// A block's samples lie in the plane.
pub proof fn lemma_tile_inside(stride: int, n: int, mb_w: int, mb_h: int, k: int, x: int, y: int)
    requires
        1 <= mb_w,
        n >= 1,
        stride >= mb_w * n + 1,
        0 <= k < mb_w * mb_h,
        0 <= x < n,
        0 <= y < n,
    ensures
        0 <= tile_off(stride, n, mb_w, k) + y * stride + x < stride * (1 + mb_h * n),
{
    lemma_grid(mb_w, mb_h, k);
    lemma_tile_row(stride, n, mb_w, k, x, y);
    let kx = k % mb_w;
    let ky = k / mb_w;
    assert(0 <= kx * n && kx * n + n <= mb_w * n) by (nonlinear_arith)
        requires
            0 <= kx,
            kx + 1 <= mb_w,
            n >= 1,
    ;
    assert(0 <= ky * n && ky * n + n <= mb_h * n) by (nonlinear_arith)
        requires
            0 <= ky,
            ky + 1 <= mb_h,
            n >= 1,
    ;
    let r = ky * n + 1 + y;
    assert(0 <= r * stride && r * stride + stride <= stride * (1 + mb_h * n)) by (nonlinear_arith)
        requires
            0 <= r,
            r + 1 <= 1 + mb_h * n,
            1 <= stride,
    ;
}

/// Writing tile `k` shows it besides what was shown.
pub proof fn lemma_shows_blit(
    s: Samples,
    mb_w: int,
    mb_h: int,
    tiles: Seq<Tile>,
    done: spec_fn(int) -> bool,
    next: spec_fn(int) -> bool,
    k: int,
)
    requires
        shows(s, mb_w, mb_h, tiles, done),
        1 <= mb_w,
        0 <= k < mb_w * mb_h,
        tiles[k].y.len() == 256,
        tiles[k].u.len() == 64,
        tiles[k].v.len() == 64,
        forall|j: int| 0 <= j < mb_w * mb_h && j != k && #[trigger] next(j) ==> done(j),
    ensures
        ({
            let ys = luma_stride(mb_w);
            let us = chroma_stride(mb_w);
            shows(
                Samples {
                    y: blit(s.y, tile_off(ys, 16, mb_w, k), ys, 16, tiles[k].y),
                    u: blit(s.u, tile_off(us, 8, mb_w, k), us, 8, tiles[k].u),
                    v: blit(s.v, tile_off(us, 8, mb_w, k), us, 8, tiles[k].v),
                },
                mb_w,
                mb_h,
                tiles,
                next,
            )
        }),
{
    let ys = luma_stride(mb_w);
    let us = chroma_stride(mb_w);
    assert(16 * 16 == 256 && 8 * 8 == 64);
    lemma_plane_shows_blit(s.y, ys, 16, mb_w, mb_h, y_blocks(tiles), done, next, k);
    lemma_plane_shows_blit(s.u, us, 8, mb_w, mb_h, u_blocks(tiles), done, next, k);
    lemma_plane_shows_blit(s.v, us, 8, mb_w, mb_h, v_blocks(tiles), done, next, k);
}

/// A sample that setting up changes lies right of the macroblock, beside it or, in the
/// rightmost column below the first row, in the row above.
proof fn lemma_lane_changed(p: Seq<u8>, mb_w: int, mb_h: int, k: int, r: int, c: int)
    requires
        p.len() == luma_stride(mb_w) * (1 + mb_h * 16),
        1 <= mb_w,
        0 <= k < mb_w * mb_h,
        0 <= r,
        0 <= c < luma_stride(mb_w),
        r * luma_stride(mb_w) + c < p.len(),
        lane_filled(
            p,
            tile_off(luma_stride(mb_w), 16, mb_w, k),
            luma_stride(mb_w),
            k / mb_w > 0,
            k % mb_w == mb_w - 1,
        )[r * luma_stride(mb_w) + c] != p[r * luma_stride(mb_w) + c],
    ensures
        ({
            let r0 = (k / mb_w) * 16 + 1;
            let c0 = (k % mb_w) * 16 + 1;
            &&& c0 + 16 <= c < c0 + 20
            &&& (r == r0 - 1 && k / mb_w > 0 && k % mb_w == mb_w - 1) || r0 <= r < r0 + 16
        }),
{
    let ys = luma_stride(mb_w);
    let off = tile_off(ys, 16, mb_w, k);
    let has_top = k / mb_w > 0;
    let right = k % mb_w == mb_w - 1;
    lemma_grid(mb_w, mb_h, k);
    lemma_mb_fits(mb_w, mb_h, k % mb_w, k / mb_w);
    lemma_lane(p, off, ys, has_top, right);
    let r0 = (k / mb_w) * 16 + 1;
    let c0 = (k % mb_w) * 16 + 1;
    let i = r * ys + c;
    assert(0 <= i) by (nonlinear_arith)
        requires
            i == r * ys + c,
            0 <= r,
            0 <= c,
            0 <= ys,
    ;
    assert(in_lane(i, off, ys));
    lemma_lane_rc(r0, c0, ys, r, c);
    if r == r0 - 1 && !(has_top && right) {
        lemma_lane_top_kept(p, off, ys, has_top, right, c - c0);
        assert((r0 - 1) * ys == r0 * ys - ys) by (nonlinear_arith);
    }
}

/// Setting up the samples above to the right of macroblock `k` keeps what is shown, if
/// the macroblock to its right is not done.
pub proof fn lemma_shows_lane(
    p: Seq<u8>,
    mb_w: int,
    mb_h: int,
    blocks: spec_fn(int) -> Seq<u8>,
    done: spec_fn(int) -> bool,
    k: int,
)
    requires
        plane_shows(p, luma_stride(mb_w), 16, mb_w, mb_h, blocks, done),
        1 <= mb_w,
        0 <= k < mb_w * mb_h,
        k % mb_w < mb_w - 1 ==> !done(k + 1),
    ensures
        plane_shows(
            lane_filled(
                p,
                tile_off(luma_stride(mb_w), 16, mb_w, k),
                luma_stride(mb_w),
                k / mb_w > 0,
                k % mb_w == mb_w - 1,
            ),
            luma_stride(mb_w),
            16,
            mb_w,
            mb_h,
            blocks,
            done,
        ),
{
    let ys = luma_stride(mb_w);
    let off = tile_off(ys, 16, mb_w, k);
    let has_top = k / mb_w > 0;
    let right = k % mb_w == mb_w - 1;
    lemma_grid(mb_w, mb_h, k);
    lemma_mb_fits(mb_w, mb_h, k % mb_w, k / mb_w);
    lemma_lane(p, off, ys, has_top, right);
    let q = lane_filled(p, off, ys, has_top, right);
    let kx = k % mb_w;
    let ky = k / mb_w;
    let r0 = ky * 16 + 1;
    let c0 = kx * 16 + 1;
    assert(off == r0 * ys + c0);
    assert forall|c: int| 0 <= c < ys implies #[trigger] q[c] == 127 by {
        assert(p[c] == 127);
        assert(0 * ys + c == c);
        assert(ys <= ys * (1 + mb_h * 16)) by (nonlinear_arith)
            requires
                0 <= mb_h,
                1 <= ys,
        ;
        if q[c] != p[c] {
            lemma_lane_changed(p, mb_w, mb_h, k, 0, c);
        }
    }
    assert forall|r: int| 1 <= r < 1 + mb_h * 16 implies #[trigger] q[r * ys] == 129 by {
        assert(p[r * ys] == 129);
        assert(r * ys < ys * (1 + mb_h * 16)) by (nonlinear_arith)
            requires
                r < 1 + mb_h * 16,
                1 <= ys,
        ;
        if q[r * ys] != p[r * ys] {
            lemma_lane_changed(p, mb_w, mb_h, k, r, 0);
        }
    }
    assert forall|j: int| 0 <= j < mb_w * mb_h && #[trigger] done(j) implies blocks(j).len() == 16 * 16
        && square(q, tile_off(ys, 16, mb_w, j), ys, 16) == blocks(j) by {
        lemma_grid(mb_w, mb_h, j);
        let a = square(q, tile_off(ys, 16, mb_w, j), ys, 16);
        assert(16 * 16 == 256);
        assert forall|i: int| 0 <= i < 256 implies a[i] == blocks(j)[i] by {
            let x = i % 16;
            let y = i / 16;
            lemma_tile_sample(p, ys, 16, mb_w, mb_h, blocks, done, j, x, y);
            lemma_tile_inside(ys, 16, mb_w, mb_h, j, x, y);
            lemma_tile_row(ys, 16, mb_w, j, x, y);
            let r = (j / mb_w) * 16 + 1 + y;
            let c = (j % mb_w) * 16 + 1 + x;
            if q[r * ys + c] != p[r * ys + c] {
                lemma_lane_changed(p, mb_w, mb_h, k, r, c);
                assert(c0 + 16 <= c < c0 + 20);
                assert(j % mb_w == kx + 1);
                assert(!right);
                assert(r0 <= r < r0 + 16);
                assert(j / mb_w == ky);
                assert(j == k + 1);
            }
        }
        assert(a =~= blocks(j));
    }
}

/// The row and column of a sample right of a macroblock.
pub proof fn lemma_lane_rc(r0: int, c0: int, ys: int, r: int, c: int)
    requires
        ys >= 21,
        1 <= r0,
        1 <= c0,
        c0 + 20 <= ys,
        0 <= c < ys,
        in_lane(r * ys + c, r0 * ys + c0, ys),
    ensures
        c0 + 16 <= c < c0 + 20,
        r == r0 - 1 || r == r0 + 3 || r == r0 + 7 || r == r0 + 11,
{
    let i = r * ys + c;
    let off = r0 * ys + c0;
    let d: int = if i < off {
        -1
    } else if i < off + 4 * ys {
        3
    } else if i < off + 8 * ys {
        7
    } else {
        11
    };
    assert(off + d * ys + 16 <= i < off + d * ys + 20);
    let rr = r0 + d;
    assert(rr * ys == r0 * ys + d * ys) by (nonlinear_arith)
        requires
            rr == r0 + d,
    ;
    let cc = i - rr * ys;
    assert(c0 + 16 <= cc < c0 + 20);
    lemma_fundamental_div_mod_converse(i, ys, rr, cc);
    lemma_fundamental_div_mod_converse(i, ys, r, c);
}

/// Unless the macroblock is in the rightmost column below the first row, the samples
/// above to the right are kept.
proof fn lemma_lane_top_kept(
    p: Seq<u8>,
    off: int,
    stride: int,
    has_top: bool,
    is_rightmost: bool,
    x: int,
)
    requires
        luma_fits(p.len() as int, off, stride),
        !(has_top && is_rightmost),
        16 <= x < 20,
    ensures
        lane_filled(p, off, stride, has_top, is_rightmost)[off - stride + x] == p[off - stride + x],
{
}

/// Empty planes show the border and nothing else.
pub proof fn lemma_empty_shows(mb_w: int, mb_h: int, tiles: Seq<Tile>, done: spec_fn(int) -> bool)
    requires
        1 <= mb_w,
        0 <= mb_h,
        forall|j: int| 0 <= j < mb_w * mb_h ==> !#[trigger] done(j),
    ensures
        shows(
            Samples {
                y: empty_plane(luma_stride(mb_w), 1 + mb_h * 16),
                u: empty_plane(chroma_stride(mb_w), 1 + mb_h * 8),
                v: empty_plane(chroma_stride(mb_w), 1 + mb_h * 8),
            },
            mb_w,
            mb_h,
            tiles,
            done,
        ),
{
    lemma_empty_plane_shows(luma_stride(mb_w), 16, mb_w, mb_h, y_blocks(tiles), done);
    lemma_empty_plane_shows(chroma_stride(mb_w), 8, mb_w, mb_h, u_blocks(tiles), done);
    lemma_empty_plane_shows(chroma_stride(mb_w), 8, mb_w, mb_h, v_blocks(tiles), done);
}

proof fn lemma_empty_plane_shows(
    stride: int,
    n: int,
    mb_w: int,
    mb_h: int,
    blocks: spec_fn(int) -> Seq<u8>,
    done: spec_fn(int) -> bool,
)
    requires
        1 <= stride,
        0 <= mb_h,
        n >= 1,
        forall|j: int| 0 <= j < mb_w * mb_h ==> !#[trigger] done(j),
    ensures
        plane_shows(empty_plane(stride, 1 + mb_h * n), stride, n, mb_w, mb_h, blocks, done),
{
    let rows = 1 + mb_h * n;
    let p = empty_plane(stride, rows);
    assert(mb_h * n >= 0) by (nonlinear_arith)
        requires
            mb_h >= 0,
            n >= 1,
    ;
    assert(stride <= stride * rows) by (nonlinear_arith)
        requires
            1 <= rows,
            1 <= stride,
    ;
    assert forall|r: int| 1 <= r < rows implies #[trigger] p[r * stride] == 129 by {
        assert(stride <= r * stride < stride * rows) by (nonlinear_arith)
            requires
                1 <= r < rows,
                1 <= stride,
        ;
        lemma_fundamental_div_mod_converse(r * stride, stride, r, 0);
    }
}

} // verus!
