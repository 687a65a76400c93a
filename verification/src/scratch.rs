//! The scratch columns of the luma plane.
//!
//! Four columns right of the picture hold what prediction sets up above to the right of
//! the rightmost macroblocks. They are not part of the picture, but they are part of the
//! planes, and what they hold is as fixed as the rest: reconstruction in raster order
//! leaves its set-ups there, and planning along the diagonals leaves them alone.

use vstd::arithmetic::div_mod::{lemma_fundamental_div_mod, lemma_fundamental_div_mod_converse};
use vstd::prelude::*;

use crate::block::{blit, lemma_in_square_at};
use crate::margin::{counts, same_tiles_same_picture};
use crate::planning::before;
use crate::recon_block::{has_lane, luma_edge};
use crate::reconstruct::{
    in_lane, lane_filled, lemma_lane, lemma_mb_fits, luma_stride, Samples,
};
use crate::tiles::{
    lemma_grid, lemma_lane_rc, lemma_luma_edge, luma_tile_edge, plane_shows, shows, tile_off,
    y_blocks, Tile,
};

verus! {

/// Sample `x` of the scratch columns in row `r`.
pub open spec fn scratch_at(p: Seq<u8>, mb_w: int, r: int, x: int) -> u8 {
    p[r * luma_stride(mb_w) + (mb_w * 16 + 1 + x)]
}

/// What is above to the right of the rightmost macroblock of row `y`: the border in the
/// first row, the last sample of the tile above in any other.
pub open spec fn rightmost_lane(mb_w: int, tiles: Seq<Tile>, y: int) -> u8 {
    if y == 0 {
        127
    } else {
        tiles[y * mb_w - 1].y[255]
    }
}

/// Whether the scratch columns of `p` hold what reconstruction leaves of those of `old`:
/// beside each of the macroblock rows that `lanes` marks, every fourth row repeats what is
/// above to the right of its rightmost macroblock, and all else is as in `old`.
pub open spec fn scratch_follows(
    p: Seq<u8>,
    old: Seq<u8>,
    mb_w: int,
    mb_h: int,
    tiles: Seq<Tile>,
    lanes: Seq<bool>,
) -> bool {
    forall|r: int, x: int|
        1 <= r < 1 + mb_h * 16 && 0 <= x < 4 ==> #[trigger] scratch_at(p, mb_w, r, x) == (if r % 4
            == 0 && r / 16 < lanes.len() && lanes[r / 16] {
            rightmost_lane(mb_w, tiles, r / 16)
        } else {
            scratch_at(old, mb_w, r, x)
        })
}

/// A scratch sample lies in the plane.
proof fn lemma_scratch_inside(mb_w: int, mb_h: int, r: int, x: int)
    requires
        1 <= mb_w,
        0 <= r < 1 + mb_h * 16,
        0 <= x < 4,
    ensures
        0 <= r * luma_stride(mb_w) + (mb_w * 16 + 1 + x) < luma_stride(mb_w) * (1 + mb_h * 16),
{
    let ys = luma_stride(mb_w);
    assert(0 <= r * ys && r * ys + ys <= ys * (1 + mb_h * 16)) by (nonlinear_arith)
        requires
            0 <= r,
            r + 1 <= 1 + mb_h * 16,
            1 <= ys,
    ;
}

/// Writing a macroblock leaves the scratch columns alone.
pub proof fn lemma_scratch_blit(p: Seq<u8>, mb_w: int, mb_h: int, k: int, b: Seq<u8>)
    requires
        p.len() == luma_stride(mb_w) * (1 + mb_h * 16),
        1 <= mb_w,
        0 <= k < mb_w * mb_h,
    ensures
        forall|r: int, x: int|
            1 <= r < 1 + mb_h * 16 && 0 <= x < 4 ==> #[trigger] scratch_at(
                blit(p, tile_off(luma_stride(mb_w), 16, mb_w, k), luma_stride(mb_w), 16, b),
                mb_w,
                r,
                x,
            ) == scratch_at(p, mb_w, r, x),
{
    let ys = luma_stride(mb_w);
    let off = tile_off(ys, 16, mb_w, k);
    let q = blit(p, off, ys, 16, b);
    lemma_grid(mb_w, mb_h, k);
    let r0 = (k / mb_w) * 16 + 1;
    let c0 = (k % mb_w) * 16 + 1;
    assert(off == 0 + r0 * ys + c0);
    assert forall|r: int, x: int| 1 <= r < 1 + mb_h * 16 && 0 <= x < 4 implies #[trigger] scratch_at(
        q,
        mb_w,
        r,
        x,
    ) == scratch_at(p, mb_w, r, x) by {
        lemma_scratch_inside(mb_w, mb_h, r, x);
        lemma_in_square_at(0, ys, c0, r0, 16, mb_w * 16 + 1 + x, r);
    }
}

/// Setting up the samples above to the right of macroblock `k` changes the scratch
/// columns in the rightmost column only, and there in every fourth row.
proof fn lemma_scratch_lane(
    p: Seq<u8>,
    mb_w: int,
    mb_h: int,
    tiles: Seq<Tile>,
    done: spec_fn(int) -> bool,
    k: int,
)
    requires
        plane_shows(p, luma_stride(mb_w), 16, mb_w, mb_h, y_blocks(tiles), done),
        1 <= mb_w,
        0 <= k < mb_w * mb_h,
        k >= mb_w ==> done(k - mb_w),
        k % mb_w > 0 ==> done(k - 1),
        k >= mb_w && k % mb_w > 0 ==> done(k - mb_w - 1),
    ensures
        ({
            let ys = luma_stride(mb_w);
            let right = k % mb_w == mb_w - 1;
            let y = k / mb_w;
            let q = lane_filled(p, tile_off(ys, 16, mb_w, k), ys, y > 0, right);
            &&& q.len() == p.len()
            &&& forall|r: int, x: int|
                1 <= r < 1 + mb_h * 16 && 0 <= x < 4 ==> #[trigger] scratch_at(q, mb_w, r, x) == (
                if right && r % 4 == 0 && 16 * y <= r < 16 * y + 16 {
                    rightmost_lane(mb_w, tiles, y)
                } else {
                    scratch_at(p, mb_w, r, x)
                })
        }),
{
    let ys = luma_stride(mb_w);
    let off = tile_off(ys, 16, mb_w, k);
    let right = k % mb_w == mb_w - 1;
    let ky = k / mb_w;
    let q = lane_filled(p, off, ys, ky > 0, right);
    lemma_grid(mb_w, mb_h, k);
    lemma_mb_fits(mb_w, mb_h, k % mb_w, ky);
    lemma_lane(p, off, ys, ky > 0, right);
    let r0 = ky * 16 + 1;
    let c0 = (k % mb_w) * 16 + 1;
    assert(off == r0 * ys + c0);
    let e = luma_edge(p, off, ys, ky > 0, right);
    assert forall|r: int, x: int| 1 <= r < 1 + mb_h * 16 && 0 <= x < 4 implies #[trigger] scratch_at(
        q,
        mb_w,
        r,
        x,
    ) == (if right && r % 4 == 0 && 16 * ky <= r < 16 * ky + 16 {
        rightmost_lane(mb_w, tiles, ky)
    } else {
        scratch_at(p, mb_w, r, x)
    }) by {
        let c = mb_w * 16 + 1 + x;
        let i = r * ys + c;
        lemma_scratch_inside(mb_w, mb_h, r, x);
        if in_lane(i, off, ys) {
            lemma_lane_rc(r0, c0, ys, r, c);
        }
        if right && r % 4 == 0 && 16 * ky <= r < 16 * ky + 16 {
            lemma_luma_edge(p, mb_w, mb_h, y_blocks(tiles), done, k);
            assert(e == luma_tile_edge(mb_w, y_blocks(tiles), k));
            assert(k - mb_w == ky * mb_w - 1);
            assert(e.top[16 + x] == rightmost_lane(mb_w, tiles, ky));
            assert(has_lane(q, off, ys, e));
            let d = r - r0;
            assert(d == -1 || d == 3 || d == 7 || d == 11);
            assert(r * ys == r0 * ys + d * ys) by (nonlinear_arith)
                requires
                    r == r0 + d,
            ;
            let v = e.top[16 + x];
            assert(q[off - ys + (16 + x)] == v);
            assert(q[off + 3 * ys + (16 + x)] == v);
            assert(q[off + 7 * ys + (16 + x)] == v);
            assert(q[off + 11 * ys + (16 + x)] == v);
            if d == -1 {
                assert(i == off - ys + (16 + x));
            } else if d == 3 {
                assert(i == off + 3 * ys + (16 + x));
            } else if d == 7 {
                assert(i == off + 7 * ys + (16 + x));
            } else {
                assert(i == off + 11 * ys + (16 + x));
            }
            assert(q[i] == v);
        } else {
            assert(!in_lane(i, off, ys));
        }
    }
}

/// A macroblock row is done with its rightmost macroblock.
pub proof fn lemma_rows_done(mb_w: int, mb_h: int, k: int)
    requires
        1 <= mb_w,
        0 <= k < mb_w * mb_h,
    ensures
        (k + 1) / mb_w == k / mb_w + (if k % mb_w == mb_w - 1 {
            1int
        } else {
            0
        }),
{
    lemma_grid(mb_w, mb_h, k);
    let y = k / mb_w;
    if k % mb_w == mb_w - 1 {
        assert((y + 1) * mb_w == y * mb_w + mb_w) by (nonlinear_arith);
        lemma_fundamental_div_mod_converse(k + 1, mb_w, y + 1, 0);
    }
}

/// What reconstructing macroblock `k`, the next in raster order, to the samples `b` leaves
/// in the scratch columns; `lane` tells whether it sets up what is above to the right.
pub proof fn lemma_scratch_step(
    p: Seq<u8>,
    old: Seq<u8>,
    mb_w: int,
    mb_h: int,
    tiles: Seq<Tile>,
    lanes: Seq<bool>,
    k: int,
    lane: bool,
    b: Seq<u8>,
)
    requires
        plane_shows(p, luma_stride(mb_w), 16, mb_w, mb_h, y_blocks(tiles), before(k)),
        1 <= mb_w,
        0 <= k < mb_w * mb_h,
        lanes.len() == k / mb_w,
        scratch_follows(p, old, mb_w, mb_h, tiles, lanes),
    ensures
        ({
            let ys = luma_stride(mb_w);
            let off = tile_off(ys, 16, mb_w, k);
            let right = k % mb_w == mb_w - 1;
            let q = if lane {
                lane_filled(p, off, ys, k / mb_w > 0, right)
            } else {
                p
            };
            scratch_follows(
                blit(q, off, ys, 16, b),
                old,
                mb_w,
                mb_h,
                tiles,
                if right {
                    lanes.push(lane)
                } else {
                    lanes
                },
            )
        }),
{
    let ys = luma_stride(mb_w);
    let off = tile_off(ys, 16, mb_w, k);
    lemma_grid(mb_w, mb_h, k);
    if lane {
        let q = lane_filled(p, off, ys, k / mb_w > 0, k % mb_w == mb_w - 1);
        lemma_scratch_lane(p, mb_w, mb_h, tiles, before(k), k);
        lemma_scratch_blit(q, mb_w, mb_h, k, b);
    } else {
        lemma_scratch_blit(p, mb_w, mb_h, k, b);
    }
}

/// Planes that show the same tiles and whose scratch columns follow alike are equal.
pub proof fn same_tiles_same_planes(
    s: Samples,
    t: Samples,
    old: Seq<u8>,
    mb_w: int,
    mb_h: int,
    tiles: Seq<Tile>,
    lanes: Seq<bool>,
)
    requires
        1 <= mb_w,
        0 <= mb_h,
        shows(s, mb_w, mb_h, tiles, before(mb_w * mb_h)),
        shows(t, mb_w, mb_h, tiles, before(mb_w * mb_h)),
        scratch_follows(s.y, old, mb_w, mb_h, tiles, lanes),
        scratch_follows(t.y, old, mb_w, mb_h, tiles, lanes),
    ensures
        s == t,
{
    let ys = luma_stride(mb_w);
    same_tiles_same_picture(s, t, mb_w, mb_h, tiles);
    assert forall|i: int| 0 <= i < s.y.len() implies s.y[i] == t.y[i] by {
        lemma_fundamental_div_mod(i, ys);
        let r = i / ys;
        let c = i % ys;
        assert(ys * r == r * ys) by (nonlinear_arith);
        if c <= mb_w * 16 {
            assert(counts(i, s.y.len() as int, ys, mb_w * 16));
        } else {
            let x = c - (mb_w * 16 + 1);
            assert(0 <= r < 1 + mb_h * 16) by (nonlinear_arith)
                requires
                    0 <= i < ys * (1 + mb_h * 16),
                    i == r * ys + c,
                    0 <= c < ys,
            ;
            if r == 0 {
                assert(0 * ys == 0);
                assert(s.y[c] == 127 && t.y[c] == 127);
            } else {
                assert(scratch_at(s.y, mb_w, r, x) == s.y[i]);
                assert(scratch_at(t.y, mb_w, r, x) == t.y[i]);
            }
        }
    }
    assert(s.y =~= t.y);
}

} // verus!
