//! What a frame's samples are made of.

use vstd::prelude::*;

use crate::block::{lemma_sub_read, lemma_with_sub, sub_block, sub_index, sub_pos};
use crate::frame_read::{lemma_read_tiles, read_tiles, Residual};
use crate::idct::{idct_add, idct_residual};
use crate::mb::ModeInfo;
use crate::planning::before;
use crate::predict::block4;
use crate::recon_block::{
    add_residuals, blank_block, chroma_recon, coeff_block, i4_blocks, i4_decoded, i4_edge,
    lemma_add_residuals_len, lemma_i4_edge_local, luma16_recon, luma4_recon, predicted, Edge,
};
use crate::reconstruct::Samples;
use crate::tiles::{
    lemma_tile_row, lemma_tile_sample, shows, tile_edges, u_blocks, v_blocks, y_blocks, Tile,
};

verus! {

/// Kept in `0..=255`.
pub open spec fn byte(v: int) -> int {
    if v < 0 {
        0
    } else if v > 255 {
        255
    } else {
        v
    }
}

/// Each residual goes to its own 4x4 block, and what is not yet done stays.
proof fn lemma_sub_residuals(n: int, pred: Seq<u8>, coeffs: Seq<i16>, base: int, k: int, j: int)
    requires
        n == 8 || n == 16,
        pred.len() == n * n,
        0 <= k <= (n / 4) * (n / 4),
        0 <= j < (n / 4) * (n / 4),
    ensures
        sub_block(add_residuals(n, pred, coeffs, base, k), n, j) == (if j < k {
            idct_add(coeff_block(coeffs, base + j), sub_block(pred, n, j))
        } else {
            sub_block(pred, n, j)
        }),
    decreases k,
{
    if k > 0 {
        lemma_sub_residuals(n, pred, coeffs, base, k - 1, j);
        lemma_sub_residuals(n, pred, coeffs, base, k - 1, k - 1);
        let b = add_residuals(n, pred, coeffs, base, k - 1);
        lemma_with_sub(
            b,
            n,
            k - 1,
            idct_add(coeff_block(coeffs, base + k - 1), sub_block(b, n, k - 1)),
            j,
        );
    }
}

/// The grid of 4x4 blocks in numbers.
proof fn lemma_small_grid(n: int, x: int, y: int)
    requires
        n == 8 || n == 16,
        0 <= x < n,
        0 <= y < n,
    ensures
        (n / 4) * (n / 4) == (if n == 8 {
            4int
        } else {
            16
        }),
        n * n == (if n == 8 {
            64int
        } else {
            256
        }),
        sub_index(n, y * n + x) == (y / 4) * (n / 4) + x / 4,
        sub_pos(n, y * n + x) == 4 * (y % 4) + x % 4,
        0 <= y * n + x < n * n,
        0 <= (y / 4) * (n / 4) + x / 4 < (n / 4) * (n / 4),
{
    if n == 8 {
        assert((y * 8 + x) / 8 == y && (y * 8 + x) % 8 == x);
        assert(2 * 2 == 4 && 8 * 8 == 64);
        assert(8int / 4 == 2);
    } else {
        assert((y * 16 + x) / 16 == y && (y * 16 + x) % 16 == x);
        assert(4 * 4 == 16 && 16 * 16 == 256);
        assert(16int / 4 == 4);
    }
}

/// A reconstructed sample is its prediction plus the residual of its own 4x4 block of
/// coefficients, kept in `0..=255`.
pub proof fn samples_are_prediction_plus_residual(
    n: int,
    pred: Seq<u8>,
    coeffs: Seq<i16>,
    base: int,
    x: int,
    y: int,
)
    requires
        n == 8 || n == 16,
        pred.len() == n * n,
        0 <= x < n,
        0 <= y < n,
    ensures
        ({
            let k = base + (y / 4) * (n / 4) + x / 4;
            add_residuals(n, pred, coeffs, base, (n / 4) * (n / 4))[y * n + x] == byte(
                pred[y * n + x] + idct_residual(
                    coeffs.subrange(16 * k, 16 * k + 16),
                    x % 4,
                    y % 4,
                ),
            )
        }),
{
    lemma_small_grid(n, x, y);
    let i = y * n + x;
    let j = (y / 4) * (n / 4) + x / 4;
    let m = (n / 4) * (n / 4);
    let out = add_residuals(n, pred, coeffs, base, m);
    lemma_add_residuals_len(n, pred, coeffs, base, m);
    lemma_sub_residuals(n, pred, coeffs, base, m, j);
    lemma_sub_read(out, n, i);
    lemma_sub_read(pred, n, i);
    let p = 4 * (y % 4) + x % 4;
    assert(p / 4 == y % 4 && p % 4 == x % 4);
    assert(out[i] == idct_add(coeff_block(coeffs, base + j), sub_block(pred, n, j))[p]);
    assert(base + (y / 4) * (n / 4) + x / 4 == base + j);
}

/// Whole-block luma: sample (`x`, `y`) is the mode's prediction plus its residual. Chroma
/// likewise, with the coefficients from block `base` on.
pub proof fn whole_blocks_are_prediction_plus_residual(
    e: Edge,
    mode: u8,
    coeffs: Seq<i16>,
    base: int,
    has_top: bool,
    has_left: bool,
    x: int,
    y: int,
)
    requires
        0 <= x < 16,
        0 <= y < 16,
    ensures
        ({
            let k = (y / 4) * 4 + x / 4;
            luma16_recon(e, mode, coeffs, has_top, has_left)[16 * y + x] == byte(
                predicted(16, e, mode, has_top, has_left)[16 * y + x] + idct_residual(
                    coeffs.subrange(16 * k, 16 * k + 16),
                    x % 4,
                    y % 4,
                ),
            )
        }),
        x < 8 && y < 8 ==> ({
            let k = base + (y / 4) * 2 + x / 4;
            chroma_recon(e, mode, coeffs, base, has_top, has_left)[8 * y + x] == byte(
                predicted(8, e, mode, has_top, has_left)[8 * y + x] + idct_residual(
                    coeffs.subrange(16 * k, 16 * k + 16),
                    x % 4,
                    y % 4,
                ),
            )
        }),
{
    assert(16int / 4 == 4 && 8int / 4 == 2 && 4 * 4 == 16 && 2 * 2 == 4 && 16 * 16 == 256 && 8 * 8
        == 64);
    samples_are_prediction_plus_residual(
        16,
        predicted(16, e, mode, has_top, has_left),
        coeffs,
        0,
        x,
        y,
    );
    if x < 8 && y < 8 {
        samples_are_prediction_plus_residual(
            8,
            predicted(8, e, mode, has_top, has_left),
            coeffs,
            base,
            x,
            y,
        );
    }
}

/// The 4x4 blocks of a macroblock each add their residual to the prediction from the samples
/// around them, as they stand in the finished macroblock.
pub proof fn small_blocks_are_prediction_plus_residual(
    e: Edge,
    modes: Seq<u8>,
    coeffs: Seq<i16>,
    k: int,
)
    requires
        0 <= k < 16,
    ensures
        ({
            let b = luma4_recon(e, modes, coeffs);
            sub_block(b, 16, k) == idct_add(
                coeffs.subrange(16 * k, 16 * k + 16),
                block4(modes[k], i4_edge(e, b, k)),
            )
        }),
{
    let f = i4_decoded(modes, coeffs);
    lemma_small(e, f, k, 16);
}

/// A 4x4 block stays once it is done, and sees the finished ones before it.
proof fn lemma_small(e: Edge, f: spec_fn(int, Seq<u8>) -> Seq<u8>, k: int, n: int)
    requires
        0 <= k < n <= 16,
        forall|i: int, edge: Seq<u8>| (#[trigger] f(i, edge)).len() == 16,
    ensures
        ({
            let b = i4_blocks(e, f, blank_block(), n);
            sub_block(b, 16, k) == f(k, i4_edge(e, b, k))
        }),
    decreases n,
{
    assert((16int / 4) * (16int / 4) == 16);
    let a = i4_blocks(e, f, blank_block(), n - 1);
    let b = i4_blocks(e, f, blank_block(), n);
    let d = f(n - 1, i4_edge(e, a, n - 1));
    lemma_with_sub(a, 16, n - 1, d, k);
    assert forall|j: int| 0 <= j < k implies #[trigger] sub_block(a, 16, j) == sub_block(b, 16, j) by {
        lemma_with_sub(a, 16, n - 1, d, j);
    }
    lemma_i4_edge_local(e, a, b, k);
    if k < n - 1 {
        lemma_small(e, f, k, n - 1);
    }
}

/// The tiles of a frame lie side by side: sample (`i`, `j`) of tile `k` is in column
/// `16 (k % w) + i` and row `16 (k / w) + j` of the luma picture, and half that in either
/// chroma picture.
pub proof fn tiles_lie_side_by_side(
    s: Samples,
    mb_w: int,
    mb_h: int,
    tiles: Seq<Tile>,
    k: int,
    i: int,
    j: int,
)
    requires
        1 <= mb_w,
        shows(s, mb_w, mb_h, tiles, before(mb_w * mb_h)),
        0 <= k < mb_w * mb_h,
        0 <= i < 16,
        0 <= j < 16,
    ensures
        s.y[(16 * (k / mb_w) + j + 1) * (16 * mb_w + 5) + (16 * (k % mb_w) + i + 1)]
            == tiles[k].y[16 * j + i],
        i < 8 && j < 8 ==> s.u[(8 * (k / mb_w) + j + 1) * (8 * mb_w + 1) + (8 * (k % mb_w) + i + 1)]
            == tiles[k].u[8 * j + i],
        i < 8 && j < 8 ==> s.v[(8 * (k / mb_w) + j + 1) * (8 * mb_w + 1) + (8 * (k % mb_w) + i + 1)]
            == tiles[k].v[8 * j + i],
{
    let ys = 16 * mb_w + 5;
    let us = 8 * mb_w + 1;
    let done = before(mb_w * mb_h);
    assert(done(k));
    lemma_tile_sample(s.y, ys, 16, mb_w, mb_h, y_blocks(tiles), done, k, i, j);
    lemma_tile_row(ys, 16, mb_w, k, i, j);
    if i < 8 && j < 8 {
        lemma_tile_sample(s.u, us, 8, mb_w, mb_h, u_blocks(tiles), done, k, i, j);
        lemma_tile_sample(s.v, us, 8, mb_w, mb_h, v_blocks(tiles), done, k, i, j);
        lemma_tile_row(us, 8, mb_w, k, i, j);
    }
}

/// A macroblock is predicted from the last row of the tile above, the last column of the
/// tile to the left, the last sample of the tile above that, and the first four samples of
/// the last row of the tile above to the right; outside the frame from 127 above and 129 to
/// the left, and in the last column from the last sample above.
pub proof fn edges_are_those_of_the_neighbours(mb_w: int, tiles: Seq<Tile>, k: int, i: int)
    requires
        1 <= mb_w,
        0 <= k,
        0 <= i < 16,
    ensures
        ({
            let e = tile_edges(mb_w, tiles, k);
            &&& e.y.top[i] == (if k < mb_w {
                127u8
            } else {
                tiles[k - mb_w].y[240 + i]
            })
            &&& i < 4 ==> e.y.top[16 + i] == (if k < mb_w {
                127u8
            } else if k % mb_w == mb_w - 1 {
                tiles[k - mb_w].y[255]
            } else {
                tiles[k - mb_w + 1].y[240 + i]
            })
            &&& e.y.left[i] == (if k % mb_w == 0 {
                129u8
            } else {
                tiles[k - 1].y[16 * i + 15]
            })
            &&& e.y.corner == (if k < mb_w {
                127u8
            } else if k % mb_w == 0 {
                129u8
            } else {
                tiles[k - mb_w - 1].y[255]
            })
            &&& i < 8 ==> e.u.top[i] == (if k < mb_w {
                127u8
            } else {
                tiles[k - mb_w].u[56 + i]
            })
            &&& i < 8 ==> e.v.top[i] == (if k < mb_w {
                127u8
            } else {
                tiles[k - mb_w].v[56 + i]
            })
            &&& i < 8 ==> e.u.left[i] == (if k % mb_w == 0 {
                129u8
            } else {
                tiles[k - 1].u[8 * i + 7]
            })
            &&& i < 8 ==> e.v.left[i] == (if k % mb_w == 0 {
                129u8
            } else {
                tiles[k - 1].v[8 * i + 7]
            })
            &&& e.u.corner == (if k < mb_w {
                127u8
            } else if k % mb_w == 0 {
                129u8
            } else {
                tiles[k - mb_w - 1].u[63]
            })
            &&& e.v.corner == (if k < mb_w {
                127u8
            } else if k % mb_w == 0 {
                129u8
            } else {
                tiles[k - mb_w - 1].v[63]
            })
        }),
{
}

/// Every tile of a decoded frame is reconstructed from its modes and coefficients and from
/// the tiles around it.
pub proof fn tiles_are_reconstructed(
    infos: Seq<ModeInfo>,
    blocks: Seq<Residual>,
    mb_w: int,
    mb_h: int,
    k: int,
)
    requires
        1 <= mb_w,
        0 <= k < mb_w * mb_h,
    ensures
        ({
            let tiles = read_tiles(infos, blocks, mb_w, mb_w * mb_h);
            let e = tile_edges(mb_w, tiles, k);
            let m = infos[k];
            let c = blocks[k].coeffs;
            let top = k >= mb_w;
            let left = k % mb_w != 0;
            &&& tiles.len() == mb_w * mb_h
            &&& tiles[k].y == (if m.is_i4x4 {
                luma4_recon(e.y, m.imodes, c)
            } else {
                luma16_recon(e.y, m.imodes[0], c, top, left)
            })
            &&& tiles[k].u == chroma_recon(e.u, m.uvmode, c, 16, top, left)
            &&& tiles[k].v == chroma_recon(e.v, m.uvmode, c, 20, top, left)
        }),
{
    lemma_read_tiles(infos, blocks, mb_w, mb_h, mb_w * mb_h, k);
    crate::tiles::lemma_grid(mb_w, mb_h, k);
}

} // verus!
