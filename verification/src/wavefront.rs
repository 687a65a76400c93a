//! Planning a frame's macroblocks along anti-diagonals, in parallel.
//!
//! The neighbours that a macroblock reads lie on earlier diagonals, so the macroblocks
//! of one diagonal are planned independently, each against a copy of the samples around
//! it. The plans and the tiles are those of the raster scan.

use rayon::iter::{IndexedParallelIterator, IntoParallelRefIterator, ParallelIterator};
use vstd::prelude::*;

use crate::block::{blit, lemma_square_at, put_square, square, square_fits};
use crate::constants::CoeffProbas;
use crate::mode_search::{chroma_src_at, luma_src_at, src_mb};
use crate::plan::{
    edges_at, lemma_luma_mode_edge, plan_input, plan_one_mb, plan_sound, MbPlan, PlanInput,
    SearchGates,
};
use crate::planning::{
    before, lemma_input_at, lemma_raster, lemma_tile_len, lemma_tiles_prefix, plan_frame_serial,
    plans_sound, quant_plan_of, tile_of, FrameInput,
};
use crate::quant::Quantizer;
use crate::recon_block::predicted;
use crate::reconstruct::{
    chroma_offset, chroma_stride, empty_plane, lemma_mb_fits, luma_offset, luma_stride, mb_off,
    Planes, Samples,
};
use crate::residual::{src_off, QuantPlan};
use crate::rgb_to_yuv::SourceYuv;
use crate::scratch::{lemma_scratch_blit, scratch_follows};
use crate::tiles::{lemma_edges, lemma_grid, lemma_shows_blit, shows, tile_off, Tile};

verus! {

/// Grids of fewer macroblocks are planned in raster order.
pub const PARALLEL_MB_THRESHOLD: usize = 256;

/// `rayon`'s `par_iter().with_max_len(1).map(f).collect()` on a slice: `f` is called once
/// on each item, and the results come in the order of the items. The length limit only
/// says how finely the work is split.
#[verifier::external_body]
fn map_in_parallel<T: Sync, R: Send, F: Fn(&T) -> R + Sync + Send>(items: &[T], f: F) -> (r: Vec<R>)
    requires
        forall|i: int| 0 <= i < items@.len() ==> call_requires(f, (&#[trigger] items@[i],)),
    ensures
        r@.len() == items@.len(),
        forall|i: int|
            0 <= i < items@.len() ==> call_ensures(f, (&items@[i],), #[trigger] r@[i]),
{
    items.par_iter().with_max_len(1).map(f).collect()
}

/// The reconstructed samples of one macroblock.
pub struct ReconBlocks {
    /// Luma.
    pub y: [u8; 256],
    /// U chroma.
    pub u: [u8; 64],
    /// V chroma.
    pub v: [u8; 64],
}

/// A macroblock planned apart from the frame.
pub struct Planned {
    /// Its position in raster order.
    pub idx: usize,
    /// Its plan.
    pub plan: MbPlan,
    /// What it reconstructs to.
    pub blocks: ReconBlocks,
}

/// Planes of one macroblock with the samples around macroblock (`mb_x`, `mb_y`).
fn mini_planes(planes: &Planes, mb_x: usize, mb_y: usize, mb_w: usize, mb_h: usize) -> (r: Planes)
    requires
        planes.wf(mb_w as int, mb_h as int),
        mb_x < mb_w,
        mb_y < mb_h,
    ensures
        r.wf(1, 1),
        forall|has_top: bool, right: bool| #[trigger]
            edges_at(
                r@,
                mb_off(luma_stride(1), 16, 0, 0),
                luma_stride(1),
                mb_off(chroma_stride(1), 8, 0, 0),
                chroma_stride(1),
                has_top,
                right,
            ) == edges_at(
                planes@,
                mb_off(luma_stride(mb_w as int), 16, mb_x as int, mb_y as int),
                luma_stride(mb_w as int),
                mb_off(chroma_stride(mb_w as int), 8, mb_x as int, mb_y as int),
                chroma_stride(mb_w as int),
                has_top,
                right,
            ),
{
    proof {
        lemma_mb_fits(mb_w as int, mb_h as int, mb_x as int, mb_y as int);
        assert(luma_stride(1) == 21 && chroma_stride(1) == 9);
        assert(21 * (1 + 1 * 16) == 357);
    }
    let y_off: usize = luma_offset(planes, mb_x, mb_y, mb_w, Ghost(mb_h as int));
    let uv_off: usize = chroma_offset(planes, mb_x, mb_y, mb_w, Ghost(mb_h as int));
    let mut mini: Planes = Planes::new(1, 1);
    let ys: usize = planes.y_stride;
    let us: usize = planes.uv_stride;
    assert(mini.y@.len() == 357);
    assert(mini.u@.len() == 81) by {
        assert(9 * (1 + 1 * 8) == 81);
    }
    copy_edge(&mut mini.y, 21, &planes.y, y_off, ys, 16, 20);
    copy_edge(&mut mini.u, 9, &planes.u, uv_off, us, 8, 8);
    copy_edge(&mut mini.v, 9, &planes.v, uv_off, us, 8, 8);
    proof {
        let mo = mb_off(luma_stride(1), 16, 0, 0);
        let co = mb_off(chroma_stride(1), 8, 0, 0);
        assert(mo == 22 && co == 10);
        assert forall|has_top: bool, right: bool| #[trigger]
            edges_at(
                mini@,
                mb_off(luma_stride(1), 16, 0, 0),
                luma_stride(1),
                mb_off(chroma_stride(1), 8, 0, 0),
                chroma_stride(1),
                has_top,
                right,
            ) == edges_at(
                planes@,
                mb_off(luma_stride(mb_w as int), 16, mb_x as int, mb_y as int),
                luma_stride(mb_w as int),
                mb_off(chroma_stride(mb_w as int), 8, mb_x as int, mb_y as int),
                chroma_stride(mb_w as int),
                has_top,
                right,
            ) by {
            let a = edges_at(mini@, 22, 21, 10, 9, has_top, right);
            let b = edges_at(
                planes@,
                y_off as int,
                ys as int,
                uv_off as int,
                us as int,
                has_top,
                right,
            );
            lemma_same_edge(mini.y@, 21, planes.y@, y_off as int, ys as int, 16, 20);
            lemma_same_edge(mini.u@, 9, planes.u@, uv_off as int, us as int, 8, 8);
            lemma_same_edge(mini.v@, 9, planes.v@, uv_off as int, us as int, 8, 8);
            assert(a.y.top =~= b.y.top);
            assert(a.y.left =~= b.y.left);
            assert(a.u.top =~= b.u.top);
            assert(a.u.left =~= b.u.left);
            assert(a.v.top =~= b.v.top);
            assert(a.v.left =~= b.v.left);
        }
    }
    mini
}

/// Whether a plane of one block has the edge of the block at `off`: `w` samples above.
spec fn same_edge(
    mini: Seq<u8>,
    ms: int,
    p: Seq<u8>,
    off: int,
    stride: int,
    n: int,
    w: int,
) -> bool {
    &&& forall|i: int| 0 <= i <= w ==> #[trigger] mini[i] == p[off - stride - 1 + i]
    &&& forall|j: int| 0 <= j < n ==> #[trigger] mini[(j + 1) * ms] == p[off + j * stride - 1]
}

/// The edge of a plane of one block, sample by sample.
proof fn lemma_same_edge(
    mini: Seq<u8>,
    ms: int,
    p: Seq<u8>,
    off: int,
    stride: int,
    n: int,
    w: int,
)
    requires
        same_edge(mini, ms, p, off, stride, n, w),
        0 <= w,
    ensures
        mini[0] == p[off - stride - 1],
        forall|i: int| 0 <= i < w ==> #[trigger] mini[(ms + 1) - ms + i] == p[off - stride + i],
        forall|j: int|
            0 <= j < n ==> #[trigger] mini[(ms + 1) + j * ms - 1] == p[off + j * stride - 1],
{
    assert forall|i: int| 0 <= i < w implies #[trigger] mini[(ms + 1) - ms + i] == p[off - stride
        + i] by {
        assert(mini[i + 1] == p[off - stride - 1 + (i + 1)]);
    }
    assert forall|j: int| 0 <= j < n implies #[trigger] mini[(ms + 1) + j * ms - 1] == p[off + j
        * stride - 1] by {
        assert((j + 1) * ms == j * ms + ms) by (nonlinear_arith);
        assert(mini[(j + 1) * ms] == p[off + j * stride - 1]);
    }
}

/// Copy the samples around the `n` by `n` block at `off` to the border of a plane that
/// holds one block: the corner and `w` samples above, and `n` samples to the left.
fn copy_edge(
    mini: &mut [u8],
    ms: usize,
    p: &[u8],
    off: usize,
    stride: usize,
    n: usize,
    w: usize,
)
    requires
        n <= w < ms <= 21,
        1 <= n <= 16,
        old(mini)@.len() == ms * (n + 1),
        w < stride,
        off >= stride + 1,
        off + (n - 1) * stride + n <= p@.len(),
        off - stride + w <= p@.len(),
    ensures
        same_edge(final(mini)@, ms as int, p@, off as int, stride as int, n as int, w as int),
        final(mini)@.len() == old(mini)@.len(),
{
    let mlen: usize = mini.len();
    let plen: usize = p.len();
    proof {
        assert(ms * (n + 1) == ms * n + ms) by (nonlinear_arith);
        assert(ms * n >= ms) by (nonlinear_arith)
            requires
                n >= 1,
                ms >= 1,
        ;
    }
    let base: usize = off - stride - 1;
    let mut i: usize = 0;
    while i <= w
        invariant
            i <= w + 1,
            w < ms <= 21,
            ms <= mlen,
            mini@.len() == mlen,
            p@.len() == plen,
            base == off - stride - 1,
            off >= stride + 1,
            off - stride + w <= p@.len(),
            forall|k: int| 0 <= k < i ==> #[trigger] mini@[k] == p@[off - stride - 1 + k],
        decreases w + 1 - i,
    {
        mini[i] = p[base + i];
        i = i + 1;
    }
    let mut j: usize = 0;
    let mut at: usize = ms;
    let mut from: usize = off - 1;
    while j < n
        invariant
            j <= n,
            1 <= n <= 16,
            w < ms <= 21,
            mlen == ms * (n + 1),
            mini@.len() == mlen,
            p@.len() == plen,
            off >= 1,
            off + (n - 1) * stride + n <= plen,
            j < n ==> at == (j + 1) * ms,
            j < n ==> from == off + j * stride - 1,
            forall|k: int| 0 <= k <= w ==> #[trigger] mini@[k] == p@[off - stride - 1 + k],
            forall|k: int|
                0 <= k < j ==> #[trigger] mini@[(k + 1) * ms] == p@[off + k * stride - 1],
        decreases n - j,
    {
        let ghost before_step = mini@;
        proof {
            assert((j + 1) * ms < ms * (n + 1)) by (nonlinear_arith)
                requires
                    j + 1 <= n,
                    ms >= 1,
            ;
            assert(j * stride <= (n - 1) * stride) by (nonlinear_arith)
                requires
                    j <= n - 1,
            ;
            assert(ms <= (j + 1) * ms) by (nonlinear_arith)
                requires
                    ms >= 1,
            ;
        }
        mini[at] = p[from];
        proof {
            assert forall|k: int| 0 <= k < j + 1 implies #[trigger] mini@[(k + 1) * ms] == p@[off + k
                * stride - 1] by {
                if k < j {
                    assert((k + 1) * ms < (j + 1) * ms) by (nonlinear_arith)
                        requires
                            k < j,
                            ms >= 1,
                    ;
                    assert(0 <= (k + 1) * ms) by (nonlinear_arith)
                        requires
                            0 <= k,
                    ;
                    assert(before_step[(k + 1) * ms] == p@[off + k * stride - 1]);
                }
            }
        }
        j = j + 1;
        if j < n {
            proof {
                assert((j + 1) * ms == j * ms + ms) by (nonlinear_arith);
                assert(j * stride == (j - 1) * stride + stride) by (nonlinear_arith);
                assert(j * stride <= (n - 1) * stride) by (nonlinear_arith)
                    requires
                        j <= n - 1,
                ;
                assert((j + 1) * ms < ms * (n + 1)) by (nonlinear_arith)
                    requires
                        j + 1 <= n,
                        ms >= 1,
                ;
            }
            at = at + ms;
            from = from + stride;
        }
    }
}

/// Copy the `n` by `n` block at `off` out of a plane.
fn copy_block(p: &[u8], off: usize, stride: usize, n: usize) -> (r: Vec<u8>)
    requires
        square_fits(p@.len() as int, off as int, stride as int, n as int),
        n <= 16,
    ensures
        r@ == square(p@, off as int, stride as int, n as int),
{
    let len: usize = p.len();
    let mut out: Vec<u8> = Vec::new();
    let mut y: usize = 0;
    let mut row: usize = off;
    while y < n
        invariant
            y <= n <= 16,
            square_fits(p@.len() as int, off as int, stride as int, n as int),
            p@.len() == len,
            y < n ==> row == off + y * stride,
            out@.len() == y * n,
            forall|i: int|
                0 <= i < out@.len() ==> #[trigger] out@[i] == square(
                    p@,
                    off as int,
                    stride as int,
                    n as int,
                )[i],
        decreases n - y,
    {
        proof {
            crate::block::lemma_square_index(
                len as int,
                off as int,
                stride as int,
                n as int,
                n - 1,
                y as int,
            );
        }
        let mut x: usize = 0;
        while x < n
            invariant
                x <= n <= 16,
                y < n,
                p@.len() == len,
                row == off + y * stride,
                row + n <= len,
                out@.len() == y * n + x,
                forall|i: int|
                    0 <= i < out@.len() ==> #[trigger] out@[i] == square(
                        p@,
                        off as int,
                        stride as int,
                        n as int,
                    )[i],
            decreases n - x,
        {
            proof {
                lemma_square_at(p@, off as int, stride as int, n as int, x as int, y as int);
            }
            out.push(p[row + x]);
            x = x + 1;
        }
        assert((y + 1) * n == y * n + n) by (nonlinear_arith);
        y = y + 1;
        if y < n {
            proof {
                crate::block::lemma_square_index(
                    len as int,
                    off as int,
                    stride as int,
                    n as int,
                    0,
                    y as int,
                );
                assert(y * stride == (y - 1) * stride + stride) by (nonlinear_arith);
            }
            row = row + stride;
        }
    }
    assert(out@ =~= square(p@, off as int, stride as int, n as int));
    out
}

/// The source of macroblock (`mb_x`, `mb_y`) alone.
fn mini_src(src: &SourceYuv, mb_x: usize, mb_y: usize) -> (r: SourceYuv)
    requires
        src.wf(),
        mb_x < src.mb_w,
        mb_y < src.mb_h,
    ensures
        r.wf(),
        r.mb_w == 1,
        r.mb_h == 1,
        src_mb(r, 0, 0) == src_mb(*src, mb_x as int, mb_y as int),
{
    let y_at: usize = luma_src_at(src, mb_x, mb_y);
    let uv_at: usize = chroma_src_at(src, mb_x, mb_y);
    let r = SourceYuv {
        y: copy_block(&src.y, y_at, src.y_stride(), 16),
        u: copy_block(&src.u, uv_at, src.uv_stride(), 8),
        v: copy_block(&src.v, uv_at, src.uv_stride(), 8),
        mb_w: 1,
        mb_h: 1,
    };
    proof {
        assert((1 * 16) * (1 * 16) == 256 && (1 * 8) * (1 * 8) == 64);
        assert(16 * 16 == 256 && 8 * 8 == 64);
        let a = src_mb(r, 0, 0);
        let b = src_mb(*src, mb_x as int, mb_y as int);
        lemma_whole_block(r.y@, 16);
        lemma_whole_block(r.u@, 8);
        lemma_whole_block(r.v@, 8);
        assert(src_off(16, 16, 0, 0) == 0 && src_off(8, 8, 0, 0) == 0);
    }
    r
}

/// A plane that is one block.
proof fn lemma_whole_block(p: Seq<u8>, n: int)
    requires
        n >= 1,
        p.len() == n * n,
    ensures
        square(p, 0, n, n) == p,
{
    let a = square(p, 0, n, n);
    assert forall|i: int| 0 <= i < n * n implies a[i] == p[i] by {
        crate::block::lemma_block_index(n, i);
    }
    assert(a =~= p);
}

/// Read the reconstructed macroblock out of planes of one macroblock.
fn extract_blocks(mini: &Planes) -> (r: ReconBlocks)
    requires
        mini.wf(1, 1),
    ensures
        r.y@ == square(mini.y@, 22, 21, 16),
        r.u@ == square(mini.u@, 10, 9, 8),
        r.v@ == square(mini.v@, 10, 9, 8),
{
    proof {
        assert(luma_stride(1) == 21 && chroma_stride(1) == 9);
        assert(21 * (1 + 1 * 16) == 357 && 9 * (1 + 1 * 8) == 81);
        assert(16 * 16 == 256 && 8 * 8 == 64);
    }
    let y: Vec<u8> = copy_block(&mini.y, 22, 21, 16);
    let u: Vec<u8> = copy_block(&mini.u, 10, 9, 8);
    let v: Vec<u8> = copy_block(&mini.v, 10, 9, 8);
    let mut r = ReconBlocks { y: [0u8; 256], u: [0u8; 64], v: [0u8; 64] };
    let mut i: usize = 0;
    while i < 256
        invariant
            i <= 256,
            y@.len() == 256,
            forall|j: int| 0 <= j < i ==> #[trigger] r.y@[j] == y@[j],
        decreases 256 - i,
    {
        r.y[i] = y[i];
        i = i + 1;
    }
    let mut i: usize = 0;
    while i < 64
        invariant
            i <= 64,
            u@.len() == 64,
            v@.len() == 64,
            r.y@ =~= y@,
            forall|j: int| 0 <= j < i ==> #[trigger] r.u@[j] == u@[j],
            forall|j: int| 0 <= j < i ==> #[trigger] r.v@[j] == v@[j],
        decreases 64 - i,
    {
        r.u[i] = u[i];
        r.v[i] = v[i];
        i = i + 1;
    }
    assert(r.u@ =~= u@);
    assert(r.v@ =~= v@);
    r
}

/// Write a reconstructed macroblock into the frame's planes.
fn commit_blocks(planes: &mut Planes, idx: usize, mb_w: usize, mb_h: usize, b: &ReconBlocks)
    requires
        old(planes).wf(mb_w as int, mb_h as int),
        1 <= mb_w,
        idx < mb_w * mb_h,
    ensures
        final(planes).wf(mb_w as int, mb_h as int),
        final(planes).y@ == blit(
            old(planes).y@,
            tile_off(luma_stride(mb_w as int), 16, mb_w as int, idx as int),
            luma_stride(mb_w as int),
            16,
            b.y@,
        ),
        final(planes).u@ == blit(
            old(planes).u@,
            tile_off(chroma_stride(mb_w as int), 8, mb_w as int, idx as int),
            chroma_stride(mb_w as int),
            8,
            b.u@,
        ),
        final(planes).v@ == blit(
            old(planes).v@,
            tile_off(chroma_stride(mb_w as int), 8, mb_w as int, idx as int),
            chroma_stride(mb_w as int),
            8,
            b.v@,
        ),
{
    proof {
        lemma_grid(mb_w as int, mb_h as int, idx as int);
        lemma_mb_fits(mb_w as int, mb_h as int, idx as int % mb_w as int, idx as int / mb_w as int);
        assert(16 * 16 == 256 && 8 * 8 == 64);
    }
    let mb_x: usize = idx % mb_w;
    let mb_y: usize = idx / mb_w;
    let y_off: usize = luma_offset(planes, mb_x, mb_y, mb_w, Ghost(mb_h as int));
    let uv_off: usize = chroma_offset(planes, mb_x, mb_y, mb_w, Ghost(mb_h as int));
    let ys: usize = planes.y_stride;
    let us: usize = planes.uv_stride;
    put_square(&mut planes.y, y_off, ys, 16, &b.y);
    put_square(&mut planes.u, uv_off, us, 8, &b.u);
    put_square(&mut planes.v, uv_off, us, 8, &b.v);
}

/// Whether `r` is macroblock (`x`, `y`) planned with the given planes around it.
pub open spec fn is_planned(
    r: Planned,
    planes: Samples,
    src: SourceYuv,
    seg_ids: Seq<u8>,
    quants: [Quantizer; 4],
    gates: SearchGates,
    probas: &CoeffProbas,
    x: int,
    y: int,
) -> bool {
    let mb_w = src.mb_w as int;
    let k = y * mb_w + x;
    let i = plan_input(
        planes,
        src,
        x,
        y,
        y > 0,
        x > 0,
        x == mb_w - 1,
        seg_ids[k],
        QuantPlan {
            quant: quants@[seg_ids[k] as int],
            uses_trellis: gates.uses_trellis,
            sns_strength: gates.sns_strength,
            probas,
        },
        gates,
    );
    &&& r.idx == k
    &&& i.is_plan(r.plan)
    &&& plan_sound(r.plan)
    &&& r.blocks.y@ == i.luma_rec()
    &&& r.blocks.u@ == i.u_rec()
    &&& r.blocks.v@ == i.v_rec()
}

/// Plan macroblock (`mb_x`, `mb_y`) against a copy of the samples around it.
fn plan_apart(
    planes: &Planes,
    src: &SourceYuv,
    seg_ids: &[u8],
    quants: &[Quantizer; 4],
    gates: SearchGates,
    probas: &CoeffProbas,
    mb_x: usize,
    mb_y: usize,
) -> (r: Planned)
    requires
        planes.wf(src.mb_w as int, src.mb_h as int),
        src.wf(),
        seg_ids@.len() == src.mb_w * src.mb_h,
        forall|k: int| 0 <= k < seg_ids@.len() ==> #[trigger] seg_ids@[k] < 4,
        forall|s: int| 0 <= s < 4 ==> (#[trigger] quants@[s]).wf(),
        mb_x < src.mb_w,
        mb_y < src.mb_h,
    ensures
        is_planned(
            r,
            planes@,
            *src,
            seg_ids@,
            *quants,
            gates,
            probas,
            mb_x as int,
            mb_y as int,
        ),
{
    let mb_w: usize = src.mb_w;
    let len: usize = seg_ids.len();
    proof {
        lemma_raster(mb_w as int, src.mb_h as int, mb_x as int, mb_y as int);
        assert(0 <= mb_y * mb_w) by (nonlinear_arith);
    }
    let idx: usize = mb_y * mb_w + mb_x;
    let segment: u8 = seg_ids[idx];
    let plan: QuantPlan<'_> = quant_plan_of(quants, segment, gates, probas);
    let mut mini: Planes = mini_planes(planes, mb_x, mb_y, mb_w, src.mb_h);
    let msrc: SourceYuv = mini_src(src, mb_x, mb_y);
    let has_top: bool = mb_y > 0;
    let has_left: bool = mb_x > 0;
    let right: bool = mb_x == mb_w - 1;
    let ghost m0 = mini@;
    let ghost i = plan_input(
        planes@,
        *src,
        mb_x as int,
        mb_y as int,
        has_top,
        has_left,
        right,
        segment,
        plan,
        gates,
    );
    proof {
        assert(edges_at(
            m0,
            mb_off(luma_stride(1), 16, 0, 0),
            luma_stride(1),
            mb_off(chroma_stride(1), 8, 0, 0),
            chroma_stride(1),
            has_top,
            right,
        ) == i.edges);
        assert(plan_input(m0, msrc, 0, 0, has_top, has_left, right, segment, plan, gates) == i);
        lemma_tile_len(i);
        assert(mb_off(luma_stride(1), 16, 0, 0) == 22 && mb_off(chroma_stride(1), 8, 0, 0) == 10);
        assert(luma_stride(1) == 21 && chroma_stride(1) == 9);
        assert(21 * (1 + 1 * 16) == 357 && 9 * (1 + 1 * 8) == 81);
        assert(16 * 16 == 256 && 8 * 8 == 64);
        crate::reconstruct::lemma_lane(m0.y, 22, 21, has_top, right);
        crate::block::lemma_square_blit(
            if gates.uses_i4x4 {
                crate::reconstruct::lane_filled(m0.y, 22, 21, has_top, right)
            } else {
                m0.y
            },
            22,
            21,
            16,
            i.luma_rec(),
        );
        crate::block::lemma_square_blit(m0.u, 10, 9, 8, i.u_rec());
        crate::block::lemma_square_blit(m0.v, 10, 9, 8, i.v_rec());
    }
    let p: MbPlan = plan_one_mb(
        &mut mini,
        &msrc,
        0,
        0,
        has_top,
        has_left,
        right,
        segment,
        plan,
        gates,
    );
    let blocks: ReconBlocks = extract_blocks(&mini);
    Planned { idx, plan: p, blocks }
}

/// The diagonal of macroblock (`x`, `y`).
pub open spec fn diagonal(skew: int, x: int, y: int) -> int {
    skew * y + x
}

/// The macroblocks of diagonal `d`, from the top down.
pub fn diagonal_members(d: usize, mb_w: usize, mb_h: usize, skew: usize) -> (r: Vec<(usize, usize)>)
    requires
        1 <= mb_w,
        1 <= mb_h,
        1 <= skew <= 2,
        skew * mb_h <= usize::MAX,
    ensures
        forall|i: int|
            0 <= i < r@.len() ==> (#[trigger] r@[i]).0 < mb_w && r@[i].1 < mb_h && diagonal(
                skew as int,
                r@[i].0 as int,
                r@[i].1 as int,
            ) == d,
        forall|x: int, y: int|
            0 <= x < mb_w && 0 <= y < mb_h && #[trigger] diagonal(skew as int, x, y) == d
                ==> exists|i: int| 0 <= i < r@.len() && #[trigger] r@[i] == (x as usize, y as usize),
        forall|i: int, j: int| 0 <= i < j < r@.len() ==> (#[trigger] r@[i]).1 < (#[trigger] r@[j]).1,
{
    let mut members: Vec<(usize, usize)> = Vec::new();
    let mut mb_y: usize = 0;
    while mb_y < mb_h && skew * mb_y <= d
        invariant
            mb_y <= mb_h,
            1 <= skew <= 2,
            skew * mb_h <= usize::MAX,
            skew * mb_y <= skew * mb_h,
            forall|i: int|
                0 <= i < members@.len() ==> (#[trigger] members@[i]).0 < mb_w && members@[i].1 < mb_y
                    && diagonal(skew as int, members@[i].0 as int, members@[i].1 as int) == d,
            forall|x: int, y: int|
                0 <= x < mb_w && 0 <= y < mb_y && #[trigger] diagonal(skew as int, x, y) == d
                    ==> exists|i: int|
                    0 <= i < members@.len() && #[trigger] members@[i] == (x as usize, y as usize),
            forall|i: int, j: int|
                0 <= i < j < members@.len() ==> (#[trigger] members@[i]).1 < (
                #[trigger] members@[j]).1,
        decreases mb_h - mb_y,
    {
        let mb_x: usize = d - skew * mb_y;
        let ghost old_members = members@;
        if mb_x < mb_w {
            members.push((mb_x, mb_y));
        }
        proof {
            assert forall|x: int, y: int|
                0 <= x < mb_w && 0 <= y < mb_y + 1 && #[trigger] diagonal(skew as int, x, y)
                    == d implies exists|i: int|
                0 <= i < members@.len() && #[trigger] members@[i] == (x as usize, y as usize) by {
                if y == mb_y {
                    assert(x == mb_x);
                    assert(members@[old_members.len() as int] == (x as usize, y as usize));
                } else {
                    let i = choose|i: int|
                        0 <= i < old_members.len() && #[trigger] old_members[i] == (
                            x as usize,
                            y as usize,
                        );
                    assert(members@[i] == old_members[i]);
                }
            }
            assert(skew * (mb_y + 1) <= skew * mb_h) by (nonlinear_arith)
                requires
                    mb_y + 1 <= mb_h,
                    1 <= skew,
            ;
        }
        mb_y = mb_y + 1;
    }
    proof {
        assert forall|x: int, y: int|
            0 <= x < mb_w && 0 <= y < mb_h && #[trigger] diagonal(skew as int, x, y)
                == d implies exists|i: int|
            0 <= i < members@.len() && #[trigger] members@[i] == (x as usize, y as usize) by {
            if y >= mb_y {
                assert(skew * y >= skew * mb_y) by (nonlinear_arith)
                    requires
                        y >= mb_y,
                        1 <= skew,
                ;
            }
        }
    }
    members
}

/// Without a 4x4 search, plans do not depend on the samples above to the right.
proof fn lemma_no_look_right(a: PlanInput<'_>, b: PlanInput<'_>)
    requires
        !a.gates.uses_i4x4,
        a.gates == b.gates,
        a.src == b.src,
        a.has_top == b.has_top,
        a.has_left == b.has_left,
        a.segment == b.segment,
        a.plan == b.plan,
        a.edges.u == b.edges.u,
        a.edges.v == b.edges.v,
        a.edges.y.corner == b.edges.y.corner,
        a.edges.y.left == b.edges.y.left,
        a.edges.y.top.take(16) == b.edges.y.top.take(16),
    ensures
        forall|p: MbPlan| a.is_plan(p) == #[trigger] b.is_plan(p),
        tile_of(a) == tile_of(b),
{
    lemma_luma_mode_edge(a.edges.y, b.edges.y, a.src.y, a.has_top, a.has_left, a.plan, 4);
    assert(a.ymode() == b.ymode());
    assert(predicted(16, a.edges.y, a.ymode(), a.has_top, a.has_left) == predicted(
        16,
        b.edges.y,
        a.ymode(),
        a.has_top,
        a.has_left,
    ));
    assert(a.luma_pred() == b.luma_pred());
    assert(a.uvmode() == b.uvmode());
    assert(!a.is_i4x4() && !b.is_i4x4());
    assert(a.imodes() =~= b.imodes());
    assert(a.coeffs() == b.coeffs());
}

/// The macroblocks before diagonal `d`, and the first `i` members of it.
spec fn upto_diagonal(
    mb_w: int,
    skew: int,
    d: int,
    members: Seq<(usize, usize)>,
    i: int,
) -> spec_fn(int) -> bool {
    |j: int|
        diagonal(skew, j % mb_w, j / mb_w) < d || exists|m: int|
            0 <= m < i && (#[trigger] members[m]).1 * mb_w + members[m].0 == j
}

/// The macroblocks before diagonal `d`.
spec fn before_diagonal(mb_w: int, skew: int, d: int) -> spec_fn(int) -> bool {
    |j: int| diagonal(skew, j % mb_w, j / mb_w) < d
}

/// A macroblock planned apart, when the diagonals before its own are done, has the plan
/// and the tile of the raster scan.
proof fn lemma_planned_is_serial(
    f: FrameInput<'_>,
    s: Samples,
    skew: int,
    d: int,
    x: int,
    y: int,
    r: Planned,
)
    requires
        f.wf(),
        1 <= skew <= 2,
        f.gates.uses_i4x4 ==> skew == 2,
        0 <= x < f.src.mb_w,
        0 <= y < f.src.mb_h,
        diagonal(skew, x, y) == d,
        shows(
            s,
            f.src.mb_w as int,
            f.src.mb_h as int,
            f.tiles(f.count()),
            before_diagonal(f.src.mb_w as int, skew, d),
        ),
        is_planned(r, s, f.src, f.seg_ids, f.quants, f.gates, f.probas, x, y),
    ensures
        ({
            let k = y * f.src.mb_w + x;
            &&& r.idx == k
            &&& 0 <= k < f.count()
            &&& f.input(k).is_plan(r.plan)
            &&& f.tiles(f.count())[k].y == r.blocks.y@
            &&& f.tiles(f.count())[k].u == r.blocks.u@
            &&& f.tiles(f.count())[k].v == r.blocks.v@
        }),
{
    let mb_w = f.src.mb_w as int;
    let mb_h = f.src.mb_h as int;
    let k = y * mb_w + x;
    let n = f.count();
    let done = before_diagonal(mb_w, skew, d);
    lemma_raster(mb_w, mb_h, x, y);
    lemma_grid(mb_w, mb_h, k);
    assert(skew * (y - 1) == skew * y - skew) by (nonlinear_arith);
    if k >= mb_w {
        lemma_grid(mb_w, mb_h, k - mb_w);
    }
    lemma_edges(s, mb_w, mb_h, f.tiles(n), done, k);
    lemma_input_at(f, n, k);
    lemma_tiles_prefix(f, n, k);
    let i = plan_input(
        s,
        f.src,
        x,
        y,
        y > 0,
        x > 0,
        x == mb_w - 1,
        f.seg_ids[k],
        f.quant_plan(k),
        f.gates,
    );
    let j = f.input(k);
    if f.gates.uses_i4x4 {
        assert(i == j);
    } else {
        lemma_no_look_right(i, j);
        assert(i.is_plan(r.plan) == j.is_plan(r.plan));
    }
}

/// What shows more shows less.
proof fn lemma_shows_weaken(
    s: Samples,
    mb_w: int,
    mb_h: int,
    tiles: Seq<Tile>,
    done: spec_fn(int) -> bool,
    less: spec_fn(int) -> bool,
)
    requires
        shows(s, mb_w, mb_h, tiles, done),
        forall|j: int| 0 <= j < mb_w * mb_h && #[trigger] less(j) ==> done(j),
    ensures
        shows(s, mb_w, mb_h, tiles, less),
{
}

/// Plan the macroblocks of one diagonal in parallel.
fn plan_diagonal(
    members: &[(usize, usize)],
    planes: &Planes,
    src: &SourceYuv,
    seg_ids: &[u8],
    quants: &[Quantizer; 4],
    gates: SearchGates,
    probas: &CoeffProbas,
) -> (r: Vec<Planned>)
    requires
        planes.wf(src.mb_w as int, src.mb_h as int),
        src.wf(),
        seg_ids@.len() == src.mb_w * src.mb_h,
        forall|k: int| 0 <= k < seg_ids@.len() ==> #[trigger] seg_ids@[k] < 4,
        forall|s: int| 0 <= s < 4 ==> (#[trigger] quants@[s]).wf(),
        forall|i: int|
            0 <= i < members@.len() ==> (#[trigger] members@[i]).0 < src.mb_w && members@[i].1
                < src.mb_h,
    ensures
        r@.len() == members@.len(),
        forall|i: int|
            0 <= i < members@.len() ==> is_planned(
                #[trigger] r@[i],
                planes@,
                *src,
                seg_ids@,
                *quants,
                gates,
                probas,
                members@[i].0 as int,
                members@[i].1 as int,
            ),
{
    let task = |m: &(usize, usize)| -> (r: Planned)
        requires
            m.0 < src.mb_w,
            m.1 < src.mb_h,
        ensures
            is_planned(
                r,
                planes@,
                *src,
                seg_ids@,
                *quants,
                gates,
                probas,
                m.0 as int,
                m.1 as int,
            ),
        { plan_apart(planes, src, seg_ids, quants, gates, probas, m.0, m.1) };
    map_in_parallel(members, task)
}

/// The plan of a macroblock in a slot.
spec fn slot_filled(f: FrameInput<'_>, slots: Seq<Option<MbPlan>>, j: int) -> bool {
    slots[j] is Some && f.input(j).is_plan(slots[j]->0) && plan_sound(slots[j]->0)
}

/// Write the planned macroblocks of a diagonal into the planes and the slots.
#[verifier::rlimit(60)]
fn commit_diagonal(
    planes: &mut Planes,
    slots: &mut Vec<Option<MbPlan>>,
    results: &Vec<Planned>,
    members: &Vec<(usize, usize)>,
    mb_w: usize,
    mb_h: usize,
    Ghost(f): Ghost<FrameInput<'_>>,
    Ghost(skew): Ghost<int>,
    Ghost(d): Ghost<int>,
)
    requires
        f.wf(),
        mb_w == f.src.mb_w,
        mb_h == f.src.mb_h,
        1 <= skew <= 2,
        f.gates.uses_i4x4 ==> skew == 2,
        old(planes).wf(mb_w as int, mb_h as int),
        shows(
            old(planes)@,
            mb_w as int,
            mb_h as int,
            f.tiles(f.count()),
            before_diagonal(mb_w as int, skew, d),
        ),
        results@.len() == members@.len(),
        forall|i: int|
            0 <= i < members@.len() ==> (#[trigger] members@[i]).0 < mb_w && members@[i].1 < mb_h
                && diagonal(skew, members@[i].0 as int, members@[i].1 as int) == d,
        forall|i: int|
            0 <= i < members@.len() ==> is_planned(
                #[trigger] results@[i],
                old(planes)@,
                f.src,
                f.seg_ids,
                f.quants,
                f.gates,
                f.probas,
                members@[i].0 as int,
                members@[i].1 as int,
            ),
        old(slots)@.len() == f.count(),
        forall|j: int|
            0 <= j < f.count() && #[trigger] before_diagonal(mb_w as int, skew, d)(j)
                ==> slot_filled(f, old(slots)@, j),
    ensures
        final(planes).wf(mb_w as int, mb_h as int),
        final(slots)@.len() == f.count(),
        shows(
            final(planes)@,
            mb_w as int,
            mb_h as int,
            f.tiles(f.count()),
            upto_diagonal(mb_w as int, skew, d, members@, members@.len() as int),
        ),
        scratch_follows(
            final(planes)@.y,
            old(planes)@.y,
            mb_w as int,
            mb_h as int,
            f.tiles(f.count()),
            Seq::empty(),
        ),
        forall|j: int|
            0 <= j < f.count() && #[trigger] upto_diagonal(
                mb_w as int,
                skew,
                d,
                members@,
                members@.len() as int,
            )(j) ==> slot_filled(f, final(slots)@, j),
{
    let ghost s0 = planes@;
    let ghost tiles = f.tiles(f.count());
    let ghost w = mb_w as int;
    let ghost h = mb_h as int;
    proof {
        lemma_shows_weaken(
            s0,
            w,
            h,
            tiles,
            before_diagonal(w, skew, d),
            upto_diagonal(w, skew, d, members@, 0),
        );
        assert forall|j: int|
            0 <= j < f.count() && #[trigger] upto_diagonal(w, skew, d, members@, 0)(
                j,
            ) implies slot_filled(f, slots@, j) by {
            assert(before_diagonal(w, skew, d)(j));
        }
    }
    let mut i: usize = 0;
    while i < results.len()
        invariant
            i <= results@.len(),
            f.wf(),
            w == mb_w,
            h == mb_h,
            mb_w == f.src.mb_w,
            mb_h == f.src.mb_h,
            1 <= skew <= 2,
            f.gates.uses_i4x4 ==> skew == 2,
            tiles == f.tiles(f.count()),
            planes.wf(w, h),
            scratch_follows(planes@.y, s0.y, w, h, tiles, Seq::empty()),
            shows(s0, w, h, tiles, before_diagonal(w, skew, d)),
            shows(planes@, w, h, tiles, upto_diagonal(w, skew, d, members@, i as int)),
            results@.len() == members@.len(),
            forall|i: int|
                0 <= i < members@.len() ==> (#[trigger] members@[i]).0 < mb_w && members@[i].1 < mb_h
                    && diagonal(skew, members@[i].0 as int, members@[i].1 as int) == d,
            forall|i: int|
                0 <= i < members@.len() ==> is_planned(
                    #[trigger] results@[i],
                    s0,
                    f.src,
                    f.seg_ids,
                    f.quants,
                    f.gates,
                    f.probas,
                    members@[i].0 as int,
                    members@[i].1 as int,
                ),
            slots@.len() == f.count(),
            forall|j: int|
                0 <= j < f.count() && #[trigger] upto_diagonal(w, skew, d, members@, i as int)(j)
                    ==> slot_filled(f, slots@, j),
        decreases results@.len() - i,
    {
        let ghost x = members@[i as int].0 as int;
        let ghost y = members@[i as int].1 as int;
        let ghost k = y * w + x;
        let ghost slots0 = slots@;
        proof {
            lemma_planned_is_serial(f, s0, skew, d, x, y, results@[i as int]);
            lemma_tiles_prefix(f, f.count(), k);
            lemma_tile_len(f.input(k));
            assert forall|j: int|
                0 <= j < w * h && j != k && #[trigger] upto_diagonal(w, skew, d, members@, i + 1)(
                    j,
                ) implies upto_diagonal(w, skew, d, members@, i as int)(j) by {
                if !(diagonal(skew, j % w, j / w) < d) {
                    let m = choose|m: int|
                        0 <= m < i + 1 && (#[trigger] members@[m]).1 * w + members@[m].0 == j;
                    assert(m != i);
                    assert(members@[m].1 * w + members@[m].0 == j);
                }
            }
            lemma_shows_blit(
                planes@,
                w,
                h,
                tiles,
                upto_diagonal(w, skew, d, members@, i as int),
                upto_diagonal(w, skew, d, members@, i + 1),
                k,
            );
            lemma_scratch_blit(planes@.y, w, h, k, tiles[k].y);
        }
        let idx: usize = results[i].idx;
        commit_blocks(planes, idx, mb_w, mb_h, &results[i].blocks);
        slots.set(idx, Some(results[i].plan));
        proof {
            assert forall|j: int|
                0 <= j < f.count() && #[trigger] upto_diagonal(w, skew, d, members@, i + 1)(
                    j,
                ) implies slot_filled(f, slots@, j) by {
                if j != k {
                    assert(upto_diagonal(w, skew, d, members@, i as int)(j));
                    assert(slot_filled(f, slots0, j));
                }
            }
        }
        i = i + 1;
    }
}

/// Plan every macroblock along the diagonals.
#[verifier::rlimit(60)]
fn plan_frame_wavefront(
    planes: &mut Planes,
    src: &SourceYuv,
    seg_ids: &[u8],
    quants: &[Quantizer; 4],
    gates: SearchGates,
    probas: &CoeffProbas,
) -> (r: Vec<MbPlan>)
    requires
        ({
            let f = FrameInput { src: *src, seg_ids: seg_ids@, quants: *quants, gates, probas };
            &&& f.wf()
            &&& old(planes).wf(src.mb_w as int, src.mb_h as int)
            &&& shows(
                old(planes)@,
                src.mb_w as int,
                src.mb_h as int,
                f.tiles(f.count()),
                before(0),
            )
        }),
    ensures
        ({
            let f = FrameInput { src: *src, seg_ids: seg_ids@, quants: *quants, gates, probas };
            &&& f.are_plans(r@, f.count())
            &&& shows(
                final(planes)@,
                src.mb_w as int,
                src.mb_h as int,
                f.tiles(f.count()),
                before(f.count()),
            )
            &&& scratch_follows(
                final(planes)@.y,
                old(planes)@.y,
                src.mb_w as int,
                src.mb_h as int,
                f.tiles(f.count()),
                Seq::empty(),
            )
        }),
        plans_sound(r@),
        final(planes).wf(src.mb_w as int, src.mb_h as int),
{
    let ghost f = FrameInput { src: *src, seg_ids: seg_ids@, quants: *quants, gates, probas };
    let ghost tiles = f.tiles(f.count());
    let ghost y0 = planes@.y;
    let mb_w: usize = src.mb_w;
    let mb_h: usize = src.mb_h;
    let ghost w = mb_w as int;
    let ghost h = mb_h as int;
    let n: usize = seg_ids.len();
    let ylen: usize = planes.y.len();
    proof {
        crate::reconstruct::lemma_frame_sizes(w, h);
    }
    let skew: usize = if gates.uses_i4x4 {
        2
    } else {
        1
    };
    let mut slots: Vec<Option<MbPlan>> = Vec::new();
    let mut i: usize = 0;
    while i < n
        invariant
            i <= n,
            slots@.len() == i,
        decreases n - i,
    {
        slots.push(None);
        i = i + 1;
    }
    let num: usize = skew * (mb_h - 1) + (mb_w - 1) + 1;
    proof {
        assert forall|j: int| 0 <= j < w * h && #[trigger] before_diagonal(w, skew as int, 0)(
            j,
        ) implies before(0)(j) by {
            lemma_grid(w, h, j);
        }
        lemma_shows_weaken(planes@, w, h, tiles, before(0), before_diagonal(w, skew as int, 0));
    }
    let mut d: usize = 0;
    while d < num
        invariant
            d <= num,
            f == (FrameInput { src: *src, seg_ids: seg_ids@, quants: *quants, gates, probas }),
            f.wf(),
            tiles == f.tiles(f.count()),
            w == mb_w,
            h == mb_h,
            mb_w == src.mb_w,
            mb_h == src.mb_h,
            1 <= skew <= 2,
            skew * mb_h <= usize::MAX,
            gates.uses_i4x4 ==> skew == 2,
            planes.wf(w, h),
            shows(planes@, w, h, tiles, before_diagonal(w, skew as int, d as int)),
            scratch_follows(planes@.y, y0, w, h, tiles, Seq::empty()),
            slots@.len() == f.count(),
            forall|j: int|
                0 <= j < f.count() && #[trigger] before_diagonal(w, skew as int, d as int)(j)
                    ==> slot_filled(f, slots@, j),
        decreases num - d,
    {
        let members: Vec<(usize, usize)> = diagonal_members(d, mb_w, mb_h, skew);
        let results: Vec<Planned> = plan_diagonal(
            members.as_slice(),
            planes,
            src,
            seg_ids,
            quants,
            gates,
            probas,
        );
        commit_diagonal(
            planes,
            &mut slots,
            &results,
            &members,
            mb_w,
            mb_h,
            Ghost(f),
            Ghost(skew as int),
            Ghost(d as int),
        );
        proof {
            let all = upto_diagonal(w, skew as int, d as int, members@, members@.len() as int);
            let next = before_diagonal(w, skew as int, d + 1);
            assert forall|j: int| 0 <= j < w * h && #[trigger] next(j) implies all(j) by {
                lemma_grid(w, h, j);
                let x = j % w;
                let y = j / w;
                if !(diagonal(skew as int, x, y) < d) {
                    assert(diagonal(skew as int, x, y) == d);
                    let m = choose|m: int|
                        0 <= m < members@.len() && #[trigger] members@[m] == (
                            x as usize,
                            y as usize,
                        );
                    assert(members@[m].1 * w + members@[m].0 == j);
                }
            }
            lemma_shows_weaken(planes@, w, h, tiles, all, next);
        }
        d = d + 1;
    }
    proof {
        let last = before_diagonal(w, skew as int, num as int);
        assert forall|j: int| 0 <= j < w * h implies #[trigger] last(j) by {
            lemma_grid(w, h, j);
            let y = j / w;
            assert(skew * y <= skew * (h - 1)) by (nonlinear_arith)
                requires
                    0 <= y <= h - 1,
                    1 <= skew,
            ;
        }
        lemma_shows_weaken(planes@, w, h, tiles, last, before(f.count()));
        assert forall|j: int| 0 <= j < f.count() implies slot_filled(f, slots@, j) by {
            assert(last(j));
        }
    }
    let mut plans: Vec<MbPlan> = Vec::new();
    let mut k: usize = 0;
    while k < n
        invariant
            k <= n,
            n == f.count(),
            slots@.len() == n,
            f.are_plans(plans@, k as int),
            plans_sound(plans@),
            forall|j: int| 0 <= j < f.count() ==> slot_filled(f, slots@, j),
        decreases n - k,
    {
        assert(slot_filled(f, slots@, k as int));
        if let Some(p) = slots[k] {
            plans.push(p);
        }
        k = k + 1;
    }
    plans
}

impl<'a> FrameInput<'a> {
    /// Whether the frame is planned along its diagonals.
    pub open spec fn in_parallel(&self) -> bool {
        self.count() >= PARALLEL_MB_THRESHOLD && self.gates.search_modes
    }

    /// Which macroblock rows set up samples in the scratch columns.
    pub open spec fn lanes(&self) -> Seq<bool> {
        if self.in_parallel() {
            Seq::empty()
        } else {
            self.lanes_after(self.count())
        }
    }

    /// Whether the scratch columns of `p` are what planning leaves of an empty plane's.
    pub open spec fn leaves_scratch(&self, p: Seq<u8>) -> bool {
        let mb_w = self.src.mb_w as int;
        let mb_h = self.src.mb_h as int;
        scratch_follows(
            p,
            empty_plane(luma_stride(mb_w), 1 + mb_h * 16),
            mb_w,
            mb_h,
            self.tiles(self.count()),
            self.lanes(),
        )
    }
}

/// The planner: along the diagonals in parallel where the grid is large enough and modes
/// are searched, in raster order otherwise. Either way the plans are the frame's plans
/// and the planes show its tiles; the scratch columns right of the tiles are written in
/// raster order only.
pub fn run_mb_planning(
    planes: &mut Planes,
    src: &SourceYuv,
    seg_ids: &[u8],
    quants: &[Quantizer; 4],
    gates: SearchGates,
    probas: &CoeffProbas,
) -> (r: Vec<MbPlan>)
    requires
        ({
            let f = FrameInput { src: *src, seg_ids: seg_ids@, quants: *quants, gates, probas };
            &&& f.wf()
            &&& old(planes).wf(src.mb_w as int, src.mb_h as int)
            &&& shows(
                old(planes)@,
                src.mb_w as int,
                src.mb_h as int,
                f.tiles(f.count()),
                before(0),
            )
        }),
    ensures
        ({
            let f = FrameInput { src: *src, seg_ids: seg_ids@, quants: *quants, gates, probas };
            &&& f.are_plans(r@, f.count())
            &&& shows(
                final(planes)@,
                src.mb_w as int,
                src.mb_h as int,
                f.tiles(f.count()),
                before(f.count()),
            )
            &&& scratch_follows(
                final(planes)@.y,
                old(planes)@.y,
                src.mb_w as int,
                src.mb_h as int,
                f.tiles(f.count()),
                f.lanes(),
            )
        }),
        plans_sound(r@),
        final(planes).wf(src.mb_w as int, src.mb_h as int),
{
    let n: usize = seg_ids.len();
    if n < PARALLEL_MB_THRESHOLD || !gates.search_modes {
        return plan_frame_serial(planes, src, seg_ids, quants, gates, probas);
    }
    plan_frame_wavefront(planes, src, seg_ids, quants, gates, probas)
}

} // verus!
