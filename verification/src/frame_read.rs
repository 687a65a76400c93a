//! Decoding a key frame.
//!
//! A frame is its header, the modes of its macroblocks (read from the control
//! partition), and their residuals (read from the token partitions, macroblock row by
//! macroblock row). Each macroblock reconstructs from the tiles around it, and the
//! finished frame is deblocked.

use vstd::prelude::*;

use crate::bool_dec::{read_literal_spec, BoolDecoder};
use crate::coder::{dec_init, dec_step, DecState};
use crate::constants::CoeffProbas;
use crate::decode::{
    same_headers, FilterHeader, Frame, MbData, MbInfo, QuantMatrix, SegmentHeader,
};
use crate::emit::{lemma_next_column, no_left, nz_empty, nz_scanline, Nz};
use crate::error::{Error, Result};
use crate::frame_header::{header_fields, is_key_frame_header, FrameHeader};
use crate::header::{
    filter_bounded, filter_header_read, filter_state, filter_type_spec, partition_bytes,
    partition_count, probas_read, proba_entry, quant_read, segment_bounded, segment_header_read,
    segment_q, segment_state, skip_read, steps_of, FilterState, SegmentState,
};
use crate::image::{Image, PixelLayout};
use crate::yuv::rgba_image;
use crate::loop_filter::FInfo;
use crate::mb::{
    bmode_read, bmodes_read, column, mode_coding, mode_of, mode_read, modes_below, modes_right,
    row_read, set_column, ModeCoding, ModeInfo,
};
use crate::planning::{before, lemma_raster, lemma_tile_edges_prefix};
use crate::recon_block::{
    chroma_recon, lemma_add_residuals_len, lemma_i4_len, luma16_recon, luma4_recon, luma_edge,
};
use crate::reconstruct::{
    base_level, compute_fstrengths, empty_plane, filter_frame, filter_small, frame_filtered, limits_small,
    luma_recon, luma_stride, mb_done, modes_ok, picture_of, reconstruct_mb, resolve_finfo,
    segment_small, strength_spec, to_image, Planes, Samples,
};
use crate::rgb_to_yuv::blocks_of;
use crate::scratch::{lemma_rows_done, lemma_scratch_step, scratch_follows};
use crate::tiles::{
    lemma_edges, lemma_empty_shows, lemma_grid, lemma_shows_blit, lemma_shows_lane, shows,
    tile_edges, tile_off, y_blocks, Tile,
};
use crate::token::{info_after, mb_read, uv_code, zeros};
use crate::tokens::{bottom_flags, right_flags, word_flags};

verus! {

/// The segment state before a key frame's header.
pub open spec fn fresh_segment() -> SegmentState {
    SegmentState {
        use_segment: false,
        update_map: false,
        absolute_delta: false,
        quantizer: Seq::new(4, |i: int| 0int),
        strength: Seq::new(4, |i: int| 0int),
        probs: Seq::new(3, |i: int| 255int),
    }
}

/// The filter state before a key frame's header.
pub open spec fn fresh_filter() -> FilterState {
    FilterState {
        simple: false,
        level: 0,
        sharpness: 0,
        use_lf_delta: false,
        refs: Seq::new(4, |i: int| 0int),
        modes: Seq::new(4, |i: int| 0int),
    }
}

/// Whether `f` holds what the control header that starts at `d` says, and `end` is the
/// decoder behind it.
pub open spec fn is_head(f: Frame, d: DecState, end: DecState) -> bool {
    let d1 = dec_step(d, 128).1;
    let d2 = dec_step(d1, 128).1;
    let (seg, d3) = segment_header_read(d2, fresh_segment());
    let (filter, d4) = filter_header_read(d3, fresh_filter());
    let (code, d5) = read_literal_spec(d4, 2);
    let (base, deltas, d6) = quant_read(d5);
    let d7 = dec_step(d6, 128).1;
    let (l, d8) = probas_read(d7, 1056);
    let (use_skip, skip_p, d9) = skip_read(d8, 0);
    &&& segment_state(f) == seg
    &&& filter_state(f) == filter
    &&& f.filter_type == filter_type_spec(filter.level, filter.simple)
    &&& f.num_parts == partition_count(code)
    &&& forall|i: int| 0 <= i < 4 ==> steps_of(#[trigger] f.dqm@[i], segment_q(f, base, i), deltas)
    &&& forall|k: int| 0 <= k < 1056 ==> #[trigger] proba_entry(f.proba.bands, k) == l[k]
    &&& f.proba.use_skip == use_skip
    &&& f.proba.skip_p == skip_p
    &&& end == d9
}

/// The modes of a macroblock before any are read.
pub open spec fn blank_info() -> ModeInfo {
    ModeInfo {
        segment: 0,
        skip: false,
        is_i4x4: false,
        imodes: Seq::new(16, |i: int| 0u8),
        uvmode: 0,
    }
}

/// What reading modes in raster order yields.
#[verifier::ext_equal]
pub struct ModesRead {
    /// The modes so far.
    pub infos: Seq<ModeInfo>,
    /// The modes above.
    pub top: Seq<u8>,
    /// The modes to the left.
    pub left: Seq<u8>,
    /// The decoder.
    pub d: DecState,
}

/// What macroblock `k` keeps of what is not transmitted: the modes above it.
pub open spec fn kept_info(infos: Seq<ModeInfo>, mb_w: int, k: int) -> ModeInfo {
    if k < mb_w {
        blank_info()
    } else {
        infos[k - mb_w]
    }
}

/// Read the modes of the first `k` macroblocks.
pub open spec fn modes_read(c: ModeCoding, d: DecState, mb_w: int, k: int) -> ModesRead
    decreases k,
{
    if k <= 0 {
        ModesRead {
            infos: Seq::empty(),
            top: Seq::new((4 * mb_w) as nat, |i: int| 0u8),
            left: no_left(),
            d,
        }
    } else {
        let r = modes_read(c, d, mb_w, k - 1);
        let x = (k - 1) % mb_w;
        let (info, d1) = mode_read(
            r.d,
            c,
            kept_info(r.infos, mb_w, k - 1),
            column(r.top, x),
            r.left,
        );
        ModesRead {
            infos: r.infos.push(info),
            top: set_column(r.top, x, modes_below(info)),
            left: if k % mb_w == 0 {
                no_left()
            } else {
                modes_right(info)
            },
            d: d1,
        }
    }
}

/// One macroblock's residual.
#[verifier::ext_equal]
pub struct Residual {
    /// The dequantized coefficients.
    pub coeffs: Seq<i16>,
    /// Two bits per luma block.
    pub code_y: int,
    /// Two bits per chroma block.
    pub code_uv: int,
}

/// What reading residuals in raster order yields.
#[verifier::ext_equal]
pub struct ResidualsRead {
    /// The residuals so far.
    pub blocks: Seq<Residual>,
    /// The flags around the next macroblock.
    pub nz: Nz,
    /// The token decoders.
    pub parts: Seq<DecState>,
}

/// What residuals depend on besides their bits.
pub struct ResidualCoding {
    /// The token probabilities.
    pub bands: CoeffProbas,
    /// The dequantization steps of each segment.
    pub dqm: Seq<QuantMatrix>,
    /// The width in macroblocks.
    pub mb_w: int,
    /// The number of token partitions.
    pub count: int,
}

/// The residual coding of a frame.
pub open spec fn residual_coding(f: Frame) -> ResidualCoding {
    ResidualCoding {
        bands: f.proba.bands,
        dqm: f.dqm@,
        mb_w: f.mb_w as int,
        count: f.num_parts as int,
    }
}

/// The flags after a skipped macroblock; only a 16x16 one clears the second-order flag.
pub open spec fn nz_skip(s: Nz, x: int, is_i4x4: bool) -> Nz {
    Nz {
        top: s.top.update(x, 0),
        top_dc: if is_i4x4 {
            s.top_dc
        } else {
            s.top_dc.update(x, 0)
        },
        left: 0,
        left_dc: if is_i4x4 {
            s.left_dc
        } else {
            0
        },
    }
}

/// Read the residual of one macroblock from `d`: the residual, the flags after it, and
/// the decoder.
pub open spec fn residual_read(
    c: ResidualCoding,
    info: ModeInfo,
    s: Nz,
    x: int,
    d: DecState,
) -> (Residual, Nz, DecState) {
    if info.skip {
        (
            Residual { coeffs: zeros(384), code_y: 0, code_uv: 0 },
            nz_skip(s, x, info.is_i4x4),
            d,
        )
    } else {
        let above = MbInfo { nz: s.top[x], nz_dc: s.top_dc[x] };
        let beside = MbInfo { nz: s.left, nz_dc: s.left_dc };
        let r = mb_read(
            d,
            c.bands,
            c.dqm[info.segment as int],
            info.is_i4x4,
            word_flags(above.nz),
            word_flags(beside.nz),
            above.nz_dc + beside.nz_dc,
        );
        let up = info_after(
            above,
            info.is_i4x4,
            r.dc_nz,
            bottom_flags(r.luma.flags, r.chroma.flags),
        );
        let on = info_after(
            beside,
            info.is_i4x4,
            r.dc_nz,
            right_flags(r.luma.flags, r.chroma.flags),
        );
        (
            Residual {
                coeffs: r.chroma.coeffs,
                code_y: r.luma.code,
                code_uv: uv_code(r.chroma.code),
            },
            Nz {
                top: s.top.update(x, up.nz),
                top_dc: s.top_dc.update(x, up.nz_dc),
                left: on.nz,
                left_dc: on.nz_dc,
            },
            r.chroma.d,
        )
    }
}

/// Read the residuals of the first `k` macroblocks; row `y` is in partition
/// `y % count`.
pub open spec fn residuals_read(
    c: ResidualCoding,
    infos: Seq<ModeInfo>,
    parts: Seq<DecState>,
    k: int,
) -> ResidualsRead
    decreases k,
{
    if k <= 0 {
        ResidualsRead { blocks: Seq::empty(), nz: nz_empty(c.mb_w), parts }
    } else {
        let r = residuals_read(c, infos, parts, k - 1);
        let x = (k - 1) % c.mb_w;
        let p = ((k - 1) / c.mb_w) % c.count;
        let (block, nz, d) = residual_read(c, infos[k - 1], r.nz, x, r.parts[p]);
        ResidualsRead {
            blocks: r.blocks.push(block),
            nz: if k % c.mb_w == 0 {
                nz_scanline(nz)
            } else {
                nz
            },
            parts: r.parts.update(p, d),
        }
    }
}

/// What a macroblock with the given modes and coefficients reconstructs to.
pub open spec fn tile_from(
    edges: crate::plan::MbEdges,
    m: ModeInfo,
    coeffs: Seq<i16>,
    has_top: bool,
    has_left: bool,
) -> Tile {
    Tile {
        y: if m.is_i4x4 {
            luma4_recon(edges.y, m.imodes, coeffs)
        } else {
            luma16_recon(edges.y, m.imodes[0], coeffs, has_top, has_left)
        },
        u: chroma_recon(edges.u, m.uvmode, coeffs, 16, has_top, has_left),
        v: chroma_recon(edges.v, m.uvmode, coeffs, 20, has_top, has_left),
    }
}

/// The first `n` tiles.
pub open spec fn read_tiles(
    infos: Seq<ModeInfo>,
    blocks: Seq<Residual>,
    mb_w: int,
    n: int,
) -> Seq<Tile>
    decreases n,
{
    if n <= 0 {
        Seq::empty()
    } else {
        let done = read_tiles(infos, blocks, mb_w, n - 1);
        let k = n - 1;
        done.push(
            tile_from(
                tile_edges(mb_w, done, k),
                infos[k],
                blocks[k].coeffs,
                k / mb_w > 0,
                k % mb_w > 0,
            ),
        )
    }
}

/// The filter parameters of a macroblock.
pub open spec fn read_finfo(
    segment: SegmentHeader,
    filter: FilterHeader,
    use_skip: bool,
    m: ModeInfo,
    b: Residual,
) -> FInfo {
    FInfo {
        f_inner: m.is_i4x4 || !((use_skip && m.skip) || (b.code_y == 0 && b.code_uv == 0)),
        ..strength_spec(filter, base_level(segment, filter, m.segment as int), m.is_i4x4)
    }
}

/// Which of the macroblock rows that the first `k` macroblocks finish set up samples in the
/// scratch columns: those whose rightmost macroblock is predicted in 4x4 blocks.
pub open spec fn read_lanes(infos: Seq<ModeInfo>, mb_w: int, k: int) -> Seq<bool> {
    Seq::new((k / mb_w) as nat, |y: int| infos[y * mb_w + mb_w - 1].is_i4x4)
}

/// What a frame's bytes say.
pub struct FrameRead {
    /// The modes.
    pub infos: Seq<ModeInfo>,
    /// The residuals.
    pub blocks: Seq<Residual>,
}

impl FrameRead {
    /// The tiles.
    pub open spec fn tiles(&self, mb_w: int) -> Seq<Tile> {
        read_tiles(self.infos, self.blocks, mb_w, self.infos.len() as int)
    }

    /// Whether the scratch columns of `p` are what reconstruction leaves of an empty
    /// plane's.
    pub open spec fn leaves_scratch(&self, p: Seq<u8>, mb_w: int, mb_h: int) -> bool {
        scratch_follows(
            p,
            empty_plane(luma_stride(mb_w), 1 + mb_h * 16),
            mb_w,
            mb_h,
            self.tiles(mb_w),
            read_lanes(self.infos, mb_w, mb_w * mb_h),
        )
    }

    /// The filter parameters.
    pub open spec fn finfo(&self, f: Frame) -> Seq<FInfo> {
        Seq::new(
            self.infos.len(),
            |k: int|
                read_finfo(
                    f.segment,
                    f.filter,
                    f.proba.use_skip,
                    self.infos[k],
                    self.blocks[k],
                ),
        )
    }
}

/// The macroblocks of a frame with header `f`: modes from `d`, residuals from the
/// partitions of `after`.
pub open spec fn frame_read(f: Frame, d: DecState, after: Seq<u8>) -> FrameRead {
    let n = f.mb_w * f.mb_h;
    let infos = modes_read(mode_coding(f), d, f.mb_w as int, n).infos;
    let parts = Seq::new(
        f.num_parts as nat,
        |p: int| dec_init(partition_bytes(after, f.num_parts as int, p)),
    );
    FrameRead { infos, blocks: residuals_read(residual_coding(f), infos, parts, n).blocks }
}

/// Reading more modes does not change the first ones.
pub proof fn lemma_modes_prefix(c: ModeCoding, d: DecState, mb_w: int, k: int, n: int)
    requires
        0 <= k <= n,
    ensures
        modes_read(c, d, mb_w, n).infos.len() == n,
        modes_read(c, d, mb_w, k).infos == modes_read(c, d, mb_w, n).infos.take(k),
    decreases n,
{
    if n > k {
        lemma_modes_prefix(c, d, mb_w, k, n - 1);
    } else if n > 0 {
        lemma_modes_prefix(c, d, mb_w, n - 1, n - 1);
    }
    let all = modes_read(c, d, mb_w, n).infos;
    assert(modes_read(c, d, mb_w, k).infos =~= all.take(k));
}

/// Reading more residuals does not change the first ones.
pub proof fn lemma_residuals_prefix(
    c: ResidualCoding,
    infos: Seq<ModeInfo>,
    parts: Seq<DecState>,
    k: int,
    n: int,
)
    requires
        0 <= k <= n,
    ensures
        residuals_read(c, infos, parts, n).blocks.len() == n,
        residuals_read(c, infos, parts, k).blocks == residuals_read(c, infos, parts, n).blocks.take(k),
    decreases n,
{
    if n > k {
        lemma_residuals_prefix(c, infos, parts, k, n - 1);
    } else if n > 0 {
        lemma_residuals_prefix(c, infos, parts, n - 1, n - 1);
    }
    let all = residuals_read(c, infos, parts, n).blocks;
    assert(residuals_read(c, infos, parts, k).blocks =~= all.take(k));
}

/// A row's modes, read in one go, are the next modes in raster order.
proof fn lemma_row_modes(c: ModeCoding, d: DecState, mb_w: int, y: int, x: int, prev: Seq<ModeInfo>)
    requires
        1 <= mb_w,
        0 <= y,
        0 <= x <= mb_w,
        forall|j: int|
            0 <= j < mb_w ==> #[trigger] prev[j] == kept_info(
                modes_read(c, d, mb_w, y * mb_w).infos,
                mb_w,
                y * mb_w + j,
            ),
    ensures
        ({
            let m = modes_read(c, d, mb_w, y * mb_w);
            let r = row_read(m.d, c, prev, m.top, no_left(), x);
            let q = modes_read(c, d, mb_w, y * mb_w + x);
            &&& m.left == no_left()
            &&& r.d == q.d
            &&& r.top == q.top
            &&& q.infos == m.infos + r.infos
            &&& r.infos.len() == x
            &&& (x < mb_w ==> r.left == q.left)
        }),
    decreases x,
{
    let k = y * mb_w;
    let m = modes_read(c, d, mb_w, k);
    assert(k >= 0) by (nonlinear_arith)
        requires
            k == y * mb_w,
            0 <= y,
            1 <= mb_w,
    ;
    vstd::arithmetic::div_mod::lemma_fundamental_div_mod_converse(k, mb_w, y, 0);
    lemma_modes_prefix(c, d, mb_w, k, k);
    if x == 0 {
        assert(m.infos + Seq::<ModeInfo>::empty() =~= m.infos);
    } else {
        lemma_row_modes(c, d, mb_w, y, x - 1, prev);
        let r = row_read(m.d, c, prev, m.top, no_left(), x - 1);
        let q = modes_read(c, d, mb_w, k + x - 1);
        vstd::arithmetic::div_mod::lemma_fundamental_div_mod_converse(k + x - 1, mb_w, y, x - 1);
        assert(kept_info(q.infos, mb_w, k + x - 1) == prev[x - 1]) by {
            if k + x - 1 >= mb_w {
                assert(q.infos[k + x - 1 - mb_w] == m.infos[k + x - 1 - mb_w]);
            }
        }
        if x == mb_w {
            assert(k + x == (y + 1) * mb_w) by (nonlinear_arith)
                requires
                    k == y * mb_w,
                    x == mb_w,
            ;
            vstd::arithmetic::div_mod::lemma_fundamental_div_mod_converse(k + x, mb_w, y + 1, 0);
        } else {
            vstd::arithmetic::div_mod::lemma_fundamental_div_mod_converse(k + x, mb_w, y, x);
        }
        let r1 = row_read(m.d, c, prev, m.top, no_left(), x);
        let q1 = modes_read(c, d, mb_w, k + x);
        assert(q1.infos =~= m.infos + r1.infos);
    }
}

/// Modes that are read are modes that there are.
proof fn lemma_mode_range(
    d: DecState,
    c: ModeCoding,
    prev: ModeInfo,
    top: Seq<u8>,
    left: Seq<u8>,
)
    ensures
        ({
            let m = mode_read(d, c, prev, top, left).0;
            &&& m.uvmode < 4
            &&& m.segment < 4
            &&& m.is_i4x4 ==> forall|i: int| 0 <= i < 16 ==> #[trigger] m.imodes[i] < 10
            &&& !m.is_i4x4 && prev.imodes.len() == 16 ==> m.imodes[0] < 4
            &&& prev.imodes.len() == 16 ==> m.imodes.len() == 16
        }),
{
    let (segment, d1) = match c.segments {
        Some(probs) => crate::mb::segment_read(d, probs),
        None => (0u8, d),
    };
    let (skip, d2) = match c.skip {
        Some(p) => dec_step(d1, p),
        None => (prev.skip, d1),
    };
    let (whole, d3) = dec_step(d2, 145);
    lemma_bmodes_range(d3, top, left, 16);
}

proof fn lemma_bmodes_range(d: DecState, top: Seq<u8>, left: Seq<u8>, k: int)
    requires
        0 <= k,
    ensures
        bmodes_read(d, top, left, k).0.len() == k,
        forall|i: int| 0 <= i < k ==> #[trigger] bmodes_read(d, top, left, k).0[i] < 10,
    decreases k,
{
    if k > 0 {
        lemma_bmodes_range(d, top, left, k - 1);
        let (modes, d1) = bmodes_read(d, top, left, k - 1);
        reveal(bmode_read);
    }
}

/// The modes of macroblock `k` of a frame are modes that there are.
pub proof fn lemma_info_range(c: ModeCoding, d: DecState, mb_w: int, n: int, k: int)
    requires
        1 <= mb_w,
        0 <= k < n,
    ensures
        ({
            let m = modes_read(c, d, mb_w, n).infos[k];
            &&& m.uvmode < 4
            &&& m.segment < 4
            &&& m.imodes.len() == 16
            &&& m.is_i4x4 ==> forall|i: int| 0 <= i < 16 ==> #[trigger] m.imodes[i] < 10
            &&& !m.is_i4x4 ==> m.imodes[0] < 4
        }),
    decreases n,
{
    lemma_modes_prefix(c, d, mb_w, n - 1, n);
    if k < n - 1 {
        lemma_info_range(c, d, mb_w, n - 1, k);
        assert(modes_read(c, d, mb_w, n - 1).infos[k] == modes_read(c, d, mb_w, n).infos[k]);
    } else {
        let r = modes_read(c, d, mb_w, n - 1);
        if k >= mb_w {
            lemma_info_range(c, d, mb_w, n - 1, k - mb_w);
        }
        lemma_mode_range(
            r.d,
            c,
            kept_info(r.infos, mb_w, k),
            column(r.top, k % mb_w),
            r.left,
        );
    }
}

/// A tile has the size of a macroblock.
proof fn lemma_tile_from_len(
    edges: crate::plan::MbEdges,
    m: ModeInfo,
    coeffs: Seq<i16>,
    has_top: bool,
    has_left: bool,
)
    ensures
        ({
            let t = tile_from(edges, m, coeffs, has_top, has_left);
            t.y.len() == 256 && t.u.len() == 64 && t.v.len() == 64
        }),
{
    assert(16 * 16 == 256 && 8 * 8 == 64);
    if m.is_i4x4 {
        lemma_i4_len(
            edges.y,
            crate::recon_block::i4_decoded(m.imodes, coeffs),
            crate::recon_block::blank_block(),
            16,
        );
    } else {
        lemma_add_residuals_len(
            16,
            crate::recon_block::predicted(16, edges.y, m.imodes[0], has_top, has_left),
            coeffs,
            0,
            16,
        );
    }
    lemma_add_residuals_len(
        8,
        crate::recon_block::predicted(8, edges.u, m.uvmode, has_top, has_left),
        coeffs,
        16,
        4,
    );
    lemma_add_residuals_len(
        8,
        crate::recon_block::predicted(8, edges.v, m.uvmode, has_top, has_left),
        coeffs,
        20,
        4,
    );
}

/// More tiles do not change the first ones; each comes from the tiles before it.
pub proof fn lemma_read_tiles(
    infos: Seq<ModeInfo>,
    blocks: Seq<Residual>,
    mb_w: int,
    mb_h: int,
    n: int,
    k: int,
)
    requires
        1 <= mb_w,
        0 <= k < n <= mb_w * mb_h,
    ensures
        ({
            let all = read_tiles(infos, blocks, mb_w, n);
            &&& all.len() == n
            &&& all[k] == tile_from(
                tile_edges(mb_w, all, k),
                infos[k],
                blocks[k].coeffs,
                k / mb_w > 0,
                k % mb_w > 0,
            )
            &&& all[k].y.len() == 256
            &&& all[k].u.len() == 64
            &&& all[k].v.len() == 64
        }),
    decreases n,
{
    let all = read_tiles(infos, blocks, mb_w, n);
    let head = read_tiles(infos, blocks, mb_w, n - 1);
    lemma_read_len(infos, blocks, mb_w, n);
    lemma_read_len(infos, blocks, mb_w, n - 1);
    if k < n - 1 {
        lemma_read_tiles(infos, blocks, mb_w, mb_h, n - 1, k);
        assert(all[k] == head[k]);
    }
    assert forall|j: int| 0 <= j < k implies #[trigger] head[j] == all[j] by {}
    lemma_tile_edges_prefix(mb_w, mb_h, head, all, k);
    lemma_tile_from_len(
        tile_edges(mb_w, all, k),
        infos[k],
        blocks[k].coeffs,
        k / mb_w > 0,
        k % mb_w > 0,
    );
}

proof fn lemma_read_len(infos: Seq<ModeInfo>, blocks: Seq<Residual>, mb_w: int, n: int)
    requires
        0 <= n,
    ensures
        read_tiles(infos, blocks, mb_w, n).len() == n,
    decreases n,
{
    if n > 0 {
        lemma_read_len(infos, blocks, mb_w, n - 1);
    }
}

/// Whether a parsed macroblock has the given modes and coefficients.
pub open spec fn holds(b: MbData, m: ModeInfo, r: Residual) -> bool {
    &&& mode_of(b) == m
    &&& b.coeffs@ == r.coeffs
    &&& b.non_zero_y == r.code_y
    &&& b.non_zero_uv == r.code_uv
}

/// Reconstructing macroblock `k` adds tile `k`.
proof fn lemma_read_step(
    s: Samples,
    infos: Seq<ModeInfo>,
    blocks: Seq<Residual>,
    mb_w: int,
    mb_h: int,
    k: int,
    b: MbData,
)
    requires
        1 <= mb_w,
        0 <= k < mb_w * mb_h,
        shows(s, mb_w, mb_h, read_tiles(infos, blocks, mb_w, mb_w * mb_h), before(k)),
        holds(b, infos[k], blocks[k]),
    ensures
        shows(
            mb_done(s, mb_w, k % mb_w, k / mb_w, b),
            mb_w,
            mb_h,
            read_tiles(infos, blocks, mb_w, mb_w * mb_h),
            before(k + 1),
        ),
{
    let n = mb_w * mb_h;
    let tiles = read_tiles(infos, blocks, mb_w, n);
    lemma_grid(mb_w, mb_h, k);
    lemma_edges(s, mb_w, mb_h, tiles, before(k), k);
    lemma_read_tiles(infos, blocks, mb_w, mb_h, n, k);
    let ys = luma_stride(mb_w);
    if b.is_i4x4 {
        lemma_shows_lane(s.y, mb_w, mb_h, y_blocks(tiles), before(k), k);
        let laned = Samples {
            y: crate::reconstruct::lane_filled(
                s.y,
                tile_off(ys, 16, mb_w, k),
                ys,
                k / mb_w > 0,
                k % mb_w == mb_w - 1,
            ),
            ..s
        };
        lemma_shows_blit(laned, mb_w, mb_h, tiles, before(k), before(k + 1), k);
    } else {
        lemma_shows_blit(s, mb_w, mb_h, tiles, before(k), before(k + 1), k);
    }
}

/// What reconstructing macroblock `k` leaves in the scratch columns.
proof fn lemma_read_scratch(
    s: Samples,
    old: Seq<u8>,
    infos: Seq<ModeInfo>,
    blocks: Seq<Residual>,
    mb_w: int,
    mb_h: int,
    k: int,
    b: MbData,
)
    requires
        1 <= mb_w,
        0 <= k < mb_w * mb_h,
        shows(s, mb_w, mb_h, read_tiles(infos, blocks, mb_w, mb_w * mb_h), before(k)),
        mode_of(b) == infos[k],
        scratch_follows(
            s.y,
            old,
            mb_w,
            mb_h,
            read_tiles(infos, blocks, mb_w, mb_w * mb_h),
            read_lanes(infos, mb_w, k),
        ),
    ensures
        scratch_follows(
            mb_done(s, mb_w, k % mb_w, k / mb_w, b).y,
            old,
            mb_w,
            mb_h,
            read_tiles(infos, blocks, mb_w, mb_w * mb_h),
            read_lanes(infos, mb_w, k + 1),
        ),
{
    let tiles = read_tiles(infos, blocks, mb_w, mb_w * mb_h);
    let has_top = k / mb_w > 0;
    let has_left = k % mb_w > 0;
    let right = k % mb_w == mb_w - 1;
    let off = tile_off(luma_stride(mb_w), 16, mb_w, k);
    let edge = luma_edge(s.y, off, luma_stride(mb_w), has_top, right);
    let rec = luma_recon(edge, b, has_top, has_left);
    let lanes = read_lanes(infos, mb_w, k);
    lemma_grid(mb_w, mb_h, k);
    lemma_rows_done(mb_w, mb_h, k);
    lemma_scratch_step(s.y, old, mb_w, mb_h, tiles, lanes, k, b.is_i4x4, rec);
    assert(read_lanes(infos, mb_w, k + 1) =~= if right {
        lanes.push(b.is_i4x4)
    } else {
        lanes
    });
}

/// Whether a frame's neighbour flags are `s`.
pub open spec fn nz_is(info: Seq<MbInfo>, s: Nz) -> bool {
    &&& s.top.len() + 1 == info.len()
    &&& s.top_dc.len() + 1 == info.len()
    &&& info[0] == (MbInfo { nz: s.left, nz_dc: s.left_dc })
    &&& forall|x: int|
        1 <= x < info.len() ==> #[trigger] info[x] == (MbInfo {
            nz: s.top[x - 1],
            nz_dc: s.top_dc[x - 1],
        })
}

/// Read one macroblock's residual.
fn read_residual(frame: &mut Frame, dec: &mut BoolDecoder<'_>, mb_x: usize, Ghost(s): Ghost<Nz>)
    requires
        old(frame).wf(),
        old(dec).wf(),
        mb_x < old(frame).mb_w,
        nz_is(old(frame).mb_info@, s),
    ensures
        final(frame).wf(),
        final(dec).wf(),
        same_headers(*final(frame), *old(frame)),
        final(frame).intra_t@ == old(frame).intra_t@,
        final(frame).intra_l == old(frame).intra_l,
        ({
            let info = mode_of(old(frame).mb_data@[mb_x as int]);
            let (b, nz, d) = residual_read(
                residual_coding(*old(frame)),
                info,
                s,
                mb_x as int,
                old(dec)@,
            );
            let now = final(frame).mb_data@[mb_x as int];
            &&& final(dec)@ == d
            &&& nz_is(final(frame).mb_info@, nz)
            &&& holds(now, info, b)
            &&& final(frame).mb_data@ == old(frame).mb_data@.update(mb_x as int, now)
        }),
{
    if frame.mb_data[mb_x].skip {
        frame.skip_residuals(mb_x);
    } else {
        frame.parse_residuals(dec, mb_x);
    }
}

/// What a decode reads from: the frame header's values, the control decoder behind the
/// header, and the token decoders.
struct Source {
    head: Frame,
    d: DecState,
    parts: Seq<DecState>,
}

impl Source {
    spec fn mb_w(&self) -> int {
        self.head.mb_w as int
    }

    spec fn n(&self) -> int {
        self.head.mb_w * self.head.mb_h
    }

    spec fn modes(&self, k: int) -> ModesRead {
        modes_read(mode_coding(self.head), self.d, self.mb_w(), k)
    }

    spec fn infos(&self) -> Seq<ModeInfo> {
        self.modes(self.n()).infos
    }

    spec fn residuals(&self, k: int) -> ResidualsRead {
        residuals_read(residual_coding(self.head), self.infos(), self.parts, k)
    }

    spec fn blocks(&self) -> Seq<Residual> {
        self.residuals(self.n()).blocks
    }

    spec fn tiles(&self) -> Seq<Tile> {
        read_tiles(self.infos(), self.blocks(), self.mb_w(), self.n())
    }

    /// Whether the scratch columns of `p` are what the first `k` macroblocks leave.
    #[verifier::opaque]
    spec fn leaves(&self, p: Seq<u8>, k: int) -> bool {
        let mb_h = self.head.mb_h as int;
        scratch_follows(
            p,
            empty_plane(luma_stride(self.mb_w()), 1 + mb_h * 16),
            self.mb_w(),
            mb_h,
            self.tiles(),
            read_lanes(self.infos(), self.mb_w(), k),
        )
    }

    spec fn wf(&self) -> bool {
        &&& 1 <= self.mb_w() < 0x1000_0000
        &&& 1 <= self.head.mb_h
        &&& 1 <= self.head.num_parts
        &&& self.parts.len() == self.head.num_parts
        &&& segment_bounded(self.head)
        &&& filter_bounded(self.head)
    }

    /// Whether a frame stands at the start of row `y`.
    spec fn at_row(&self, frame: Frame, y: int) -> bool {
        let k = y * self.mb_w();
        let m = self.modes(k);
        &&& frame.wf()
        &&& same_headers(frame, self.head)
        &&& frame.intra_t@ == m.top
        &&& frame.intra_l@ == no_left()
        &&& nz_is(frame.mb_info@, self.residuals(k).nz)
        &&& forall|x: int|
            0 <= x < self.mb_w() ==> mode_of(#[trigger] frame.mb_data@[x]) == kept_info(
                m.infos,
                self.mb_w(),
                k + x,
            )
    }

    /// Whether a frame stands before macroblock `x` of row `y`, with the row's modes
    /// read.
    spec fn in_row(&self, frame: Frame, y: int, x: int) -> bool {
        let k = y * self.mb_w();
        &&& frame.wf()
        &&& same_headers(frame, self.head)
        &&& frame.intra_t@ == self.modes(k + self.mb_w()).top
        &&& nz_is(frame.mb_info@, self.pending(k, x))
        &&& forall|j: int|
            0 <= j < self.mb_w() ==> mode_of(#[trigger] frame.mb_data@[j]) == self.infos()[k + j]
    }

    /// The flags before macroblock `x` of the row that starts at `k`; behind the last
    /// one, those that the next row does not see yet.
    spec fn pending(&self, k: int, x: int) -> Nz {
        if x < self.mb_w() {
            self.residuals(k + x).nz
        } else {
            self.step(k + x - 1).1
        }
    }

    /// What reading macroblock `k` yields.
    spec fn step(&self, k: int) -> (Residual, Nz, DecState) {
        let r = self.residuals(k);
        residual_read(
            residual_coding(self.head),
            self.infos()[k],
            r.nz,
            k % self.mb_w(),
            r.parts[self.part(k)],
        )
    }

    spec fn part(&self, k: int) -> int {
        (k / self.mb_w()) % (self.head.num_parts as int)
    }
}

/// The decoders of token partitions stand where `parts` says.
spec fn decoders_are(decs: Seq<BoolDecoder<'_>>, parts: Seq<DecState>) -> bool {
    &&& decs.len() == parts.len()
    &&& forall|p: int| 0 <= p < parts.len() ==> (#[trigger] decs[p]).wf() && decs[p]@ == parts[p]
}

/// Read the modes of row `y`.
fn read_modes(frame: &mut Frame, br: &mut BoolDecoder<'_>, Ghost(src): Ghost<Source>, Ghost(y): Ghost<int>)
    requires
        src.wf(),
        0 <= y < src.head.mb_h,
        old(br).wf(),
        old(br)@ == src.modes(y * src.mb_w()).d,
        src.at_row(*old(frame), y),
    ensures
        final(br).wf(),
        final(br)@ == src.modes((y + 1) * src.mb_w()).d,
        src.in_row(*final(frame), y, 0),
{
    let ghost mb_w = src.mb_w();
    let ghost k = y * mb_w;
    let ghost c = mode_coding(src.head);
    let ghost m = src.modes(k);
    let ghost prev = Seq::new(mb_w as nat, |x: int| mode_of(frame.mb_data@[x]));
    proof {
        assert(mode_coding(*frame) == c);
        assert forall|j: int| 0 <= j < mb_w implies #[trigger] prev[j] == kept_info(
            m.infos,
            mb_w,
            k + j,
        ) by {
            assert(mode_of(frame.mb_data@[j]) == kept_info(m.infos, mb_w, k + j));
        }
        lemma_row_modes(c, src.d, mb_w, y, mb_w, prev);
        assert((y + 1) * mb_w == k + mb_w) by (nonlinear_arith)
            requires
                k == y * mb_w,
        ;
    }
    frame.parse_intra_mode_row(br);
    proof {
        let r = row_read(m.d, c, prev, m.top, no_left(), mb_w);
        let q = src.modes(k + mb_w);
        lemma_row_end(y, mb_w, src.head.mb_h as int);
        lemma_modes_prefix(c, src.d, mb_w, k + mb_w, src.n());
        lemma_modes_prefix(c, src.d, mb_w, k, k);
        assert forall|j: int| 0 <= j < mb_w implies mode_of(#[trigger] frame.mb_data@[j])
            == src.infos()[k + j] by {
            assert(r.infos[j] == q.infos[k + j]);
        }
    }
}

proof fn lemma_row_end(y: int, mb_w: int, mb_h: int)
    requires
        1 <= mb_w,
        0 <= y < mb_h,
    ensures
        0 <= y * mb_w,
        y * mb_w + mb_w <= mb_w * mb_h,
        (y + 1) * mb_w == y * mb_w + mb_w,
{
    assert(0 <= y * mb_w) by (nonlinear_arith)
        requires
            0 <= y,
            1 <= mb_w,
    ;
    assert(y * mb_w + mb_w <= mb_w * mb_h) by (nonlinear_arith)
        requires
            y + 1 <= mb_h,
            1 <= mb_w,
    ;
    assert((y + 1) * mb_w == y * mb_w + mb_w) by (nonlinear_arith);
}

/// What reading a macroblock's residual leads to.
#[verifier::rlimit(60)]
proof fn lemma_mb_step(src: Source, x: int, y: int, s: Samples, block: MbData)
    requires
        src.wf(),
        0 <= x < src.mb_w(),
        0 <= y < src.head.mb_h,
        shows(s, src.mb_w(), src.head.mb_h as int, src.tiles(), before(y * src.mb_w() + x)),
        holds(block, src.infos()[y * src.mb_w() + x], src.step(y * src.mb_w() + x).0),
    ensures
        holds(block, src.infos()[y * src.mb_w() + x], src.blocks()[y * src.mb_w() + x]),
        modes_ok(block),
        shows(
            mb_done(s, src.mb_w(), x, y, block),
            src.mb_w(),
            src.head.mb_h as int,
            src.tiles(),
            before(y * src.mb_w() + x + 1),
        ),
{
    let mb_w = src.mb_w();
    let mb_h = src.head.mb_h as int;
    let k = y * mb_w + x;
    let c = residual_coding(src.head);
    lemma_raster(mb_w, mb_h, x, y);
    lemma_residuals_prefix(c, src.infos(), src.parts, k + 1, src.n());
    lemma_residuals_prefix(c, src.infos(), src.parts, k, k);
    assert(src.residuals(k + 1).blocks[k] == src.step(k).0);
    assert(src.blocks()[k] == src.step(k).0);
    lemma_info_range(mode_coding(src.head), src.d, mb_w, src.n(), k);
    let m = src.infos()[k];
    assert(block.imodes@ == m.imodes);
    lemma_read_step(s, src.infos(), src.blocks(), mb_w, mb_h, k, block);
}

/// What reconstructing a macroblock leaves in the scratch columns.
proof fn lemma_mb_scratch(src: Source, x: int, y: int, s: Samples, block: MbData)
    requires
        src.wf(),
        0 <= x < src.mb_w(),
        0 <= y < src.head.mb_h,
        shows(s, src.mb_w(), src.head.mb_h as int, src.tiles(), before(y * src.mb_w() + x)),
        src.leaves(s.y, y * src.mb_w() + x),
        mode_of(block) == src.infos()[y * src.mb_w() + x],
    ensures
        src.leaves(mb_done(s, src.mb_w(), x, y, block).y, y * src.mb_w() + x + 1),
{
    let mb_w = src.mb_w();
    let mb_h = src.head.mb_h as int;
    let k = y * mb_w + x;
    lemma_raster(mb_w, mb_h, x, y);
    reveal(Source::leaves);
    lemma_read_scratch(
        s,
        empty_plane(luma_stride(mb_w), 1 + mb_h * 16),
        src.infos(),
        src.blocks(),
        mb_w,
        mb_h,
        k,
        block,
    );
}

/// Where reading a macroblock starts from.
proof fn lemma_mb_start(src: Source, x: int, y: int)
    requires
        src.wf(),
        0 <= x < src.mb_w(),
        0 <= y < src.head.mb_h,
    ensures
        ({
            let k = y * src.mb_w() + x;
            let p = y % (src.head.num_parts as int);
            &&& 0 <= k < src.n()
            &&& src.part(k) == p
            &&& 0 <= p < src.head.num_parts
            &&& src.residuals(k).parts.len() == src.head.num_parts
            &&& k % src.mb_w() == x
            &&& src.pending(y * src.mb_w(), x) == src.residuals(k).nz
            &&& src.pending(y * src.mb_w(), x + 1) == src.step(k).1
            &&& src.residuals(k + 1).parts == src.residuals(k).parts.update(p, src.step(k).2)
        }),
{
    let mb_w = src.mb_w();
    let mb_h = src.head.mb_h as int;
    let k = y * mb_w + x;
    lemma_raster(mb_w, mb_h, x, y);
    lemma_next_column(k, mb_w);
    lemma_parts_len(residual_coding(src.head), src.infos(), src.parts, k);
    let p = y % (src.head.num_parts as int);
    assert(0 <= p < src.head.num_parts) by (nonlinear_arith)
        requires
            p == y % (src.head.num_parts as int),
            1 <= src.head.num_parts,
    ;
}

/// Read and reconstruct one macroblock.
#[verifier::rlimit(60)]
fn read_mb(
    frame: &mut Frame,
    decs: &mut Vec<BoolDecoder<'_>>,
    planes: &mut Planes,
    part: usize,
    mb_x: usize,
    mb_y: usize,
    Ghost(src): Ghost<Source>,
)
    requires
        src.wf(),
        mb_x < src.mb_w(),
        mb_y < src.head.mb_h,
        part == (mb_y as int) % (src.head.num_parts as int),
        src.in_row(*old(frame), mb_y as int, mb_x as int),
        decoders_are(old(decs)@, src.residuals(mb_y * src.mb_w() + mb_x).parts),
        old(planes).wf(src.mb_w(), src.head.mb_h as int),
        shows(
            old(planes)@,
            src.mb_w(),
            src.head.mb_h as int,
            src.tiles(),
            before(mb_y * src.mb_w() + mb_x),
        ),
        src.leaves(old(planes)@.y, mb_y * src.mb_w() + mb_x),
    ensures
        src.in_row(*final(frame), mb_y as int, mb_x + 1),
        decoders_are(final(decs)@, src.residuals(mb_y * src.mb_w() + mb_x + 1).parts),
        final(planes).wf(src.mb_w(), src.head.mb_h as int),
        shows(
            final(planes)@,
            src.mb_w(),
            src.head.mb_h as int,
            src.tiles(),
            before(mb_y * src.mb_w() + mb_x + 1),
        ),
        src.leaves(final(planes)@.y, mb_y * src.mb_w() + mb_x + 1),
        holds(
            final(frame).mb_data@[mb_x as int],
            src.infos()[mb_y * src.mb_w() + mb_x],
            src.blocks()[mb_y * src.mb_w() + mb_x],
        ),
{
    let ghost mb_w = src.mb_w();
    let ghost k = mb_y * mb_w + mb_x;
    let ghost r = src.residuals(k);
    proof {
        lemma_mb_start(src, mb_x as int, mb_y as int);
        assert(residual_coding(*frame) == residual_coding(src.head));
        assert(mode_of(frame.mb_data@[mb_x as int]) == src.infos()[mb_y * mb_w + mb_x]);
        assert(decs@[part as int].wf() && decs@[part as int]@ == r.parts[part as int]);
    }
    read_residual(frame, &mut decs[part], mb_x, Ghost(r.nz));
    let block: MbData = frame.mb_data[mb_x];
    proof {
        lemma_mb_step(src, mb_x as int, mb_y as int, planes@, block);
        lemma_mb_scratch(src, mb_x as int, mb_y as int, planes@, block);
    }
    reconstruct_mb(planes, &block, mb_x, mb_y, frame.mb_w, frame.mb_h);
}

/// Reading keeps the number of partitions.
pub proof fn lemma_parts_len(c: ResidualCoding, infos: Seq<ModeInfo>, parts: Seq<DecState>, k: int)
    requires
        1 <= c.count,
        c.count == parts.len(),
    ensures
        residuals_read(c, infos, parts, k).parts.len() == parts.len(),
    decreases k,
{
    if k > 0 {
        lemma_parts_len(c, infos, parts, k - 1);
        let row = (k - 1) / c.mb_w;
        assert(0 <= row % c.count < c.count) by (nonlinear_arith)
            requires
                1 <= c.count,
        ;
    }
}

/// The strengths of a frame's filter, as [`compute_fstrengths`] tabulates them.
spec fn is_table(table: [[FInfo; 2]; 4], segment: SegmentHeader, filter: FilterHeader) -> bool {
    forall|s: int|
        0 <= s < 4 ==> (#[trigger] table@[s])@[0] == strength_spec(
            filter,
            base_level(segment, filter, s),
            false,
        ) && table@[s]@[1] == strength_spec(filter, base_level(segment, filter, s), true)
}

/// The filter parameters of the first `n` macroblocks.
spec fn finfo_are(src: Source, finfo: Seq<FInfo>, n: int) -> bool {
    &&& finfo.len() == n
    &&& limits_small(finfo)
    &&& forall|k: int|
        0 <= k < n ==> #[trigger] finfo[k] == read_finfo(
            src.head.segment,
            src.head.filter,
            src.head.proba.use_skip,
            src.infos()[k],
            src.blocks()[k],
        )
}

/// Read and reconstruct row `mb_y`, and collect its filter parameters.
#[verifier::rlimit(60)]
fn read_row(
    frame: &mut Frame,
    br: &mut BoolDecoder<'_>,
    decs: &mut Vec<BoolDecoder<'_>>,
    planes: &mut Planes,
    table: &[[FInfo; 2]; 4],
    finfo: &mut Vec<FInfo>,
    mb_y: usize,
    Ghost(src): Ghost<Source>,
)
    requires
        src.wf(),
        mb_y < src.head.mb_h,
        old(br).wf(),
        old(br)@ == src.modes(mb_y * src.mb_w()).d,
        src.at_row(*old(frame), mb_y as int),
        decoders_are(old(decs)@, src.residuals(mb_y * src.mb_w()).parts),
        is_table(*table, src.head.segment, src.head.filter),
        finfo_are(src, old(finfo)@, mb_y * src.mb_w()),
        old(planes).wf(src.mb_w(), src.head.mb_h as int),
        shows(
            old(planes)@,
            src.mb_w(),
            src.head.mb_h as int,
            src.tiles(),
            before(mb_y * src.mb_w()),
        ),
        src.leaves(old(planes)@.y, mb_y * src.mb_w()),
    ensures
        final(br).wf(),
        final(br)@ == src.modes((mb_y + 1) * src.mb_w()).d,
        src.at_row(*final(frame), mb_y + 1),
        decoders_are(final(decs)@, src.residuals((mb_y + 1) * src.mb_w()).parts),
        finfo_are(src, final(finfo)@, (mb_y + 1) * src.mb_w()),
        final(planes).wf(src.mb_w(), src.head.mb_h as int),
        shows(
            final(planes)@,
            src.mb_w(),
            src.head.mb_h as int,
            src.tiles(),
            before((mb_y + 1) * src.mb_w()),
        ),
        src.leaves(final(planes)@.y, (mb_y + 1) * src.mb_w()),
{
    let ghost mb_w = src.mb_w();
    let ghost mb_h = src.head.mb_h as int;
    let ghost k0 = mb_y * mb_w;
    read_modes(frame, br, Ghost(src), Ghost(mb_y as int));
    let part: usize = mb_y % frame.num_parts;
    let width: usize = frame.mb_w;
    let mut mb_x: usize = 0;
    proof {
        lemma_row_end(mb_y as int, mb_w, mb_h);
    }
    while mb_x < width
        invariant
            src.wf(),
            mb_x <= width,
            width == mb_w,
            mb_w == src.mb_w(),
            mb_h == src.head.mb_h,
            mb_y < mb_h,
            k0 == mb_y * mb_w,
            0 <= k0,
            k0 + mb_w <= src.n(),
            part == (mb_y as int) % (src.head.num_parts as int),
            src.in_row(*frame, mb_y as int, mb_x as int),
            decoders_are(decs@, src.residuals(k0 + mb_x).parts),
            is_table(*table, src.head.segment, src.head.filter),
            finfo_are(src, finfo@, k0 + mb_x),
            planes.wf(mb_w, mb_h),
            shows(planes@, mb_w, mb_h, src.tiles(), before(k0 + mb_x)),
            src.leaves(planes@.y, k0 + mb_x),
        decreases width - mb_x,
    {
        read_mb(frame, decs, planes, part, mb_x, mb_y, Ghost(src));
        let block: MbData = frame.mb_data[mb_x];
        let info: FInfo = resolve_finfo(*table, &block, frame.proba.use_skip);
        proof {
            let s = block.segment as int;
            assert(0 <= s < 4) by {
                assert(frame.mb_data@[mb_x as int].segment < 4);
            }
            let row = table@[s];
            let m = src.infos()[k0 + mb_x];
            let b = src.blocks()[k0 + mb_x];
            assert(info == read_finfo(
                src.head.segment,
                src.head.filter,
                src.head.proba.use_skip,
                m,
                b,
            ));
            crate::filter_choice::lemma_limit_small(
                src.head.filter,
                base_level(src.head.segment, src.head.filter, s),
                block.is_i4x4,
            );
        }
        finfo.push(info);
        mb_x = mb_x + 1;
    }
    frame.init_scanline();
    proof {
        lemma_row_at(src, *frame, mb_y as int);
    }
}

/// Clearing the left neighbours leads to the next row.
proof fn lemma_row_at(src: Source, frame: Frame, y: int)
    requires
        src.wf(),
        0 <= y < src.head.mb_h,
        frame.wf(),
        same_headers(frame, src.head),
        frame.intra_t@ == src.modes(y * src.mb_w() + src.mb_w()).top,
        frame.intra_l@ == no_left(),
        nz_is(
            frame.mb_info@,
            nz_scanline(src.pending(y * src.mb_w(), src.mb_w())),
        ),
        forall|j: int|
            0 <= j < src.mb_w() ==> mode_of(#[trigger] frame.mb_data@[j]) == src.infos()[y
                * src.mb_w() + j],
    ensures
        src.at_row(frame, y + 1),
{
    let mb_w = src.mb_w();
    let mb_h = src.head.mb_h as int;
    let k = y * mb_w;
    lemma_row_end(y, mb_w, mb_h);
    lemma_raster(mb_w, mb_h, mb_w - 1, y);
    lemma_next_column(k + mb_w - 1, mb_w);
    lemma_modes_prefix(mode_coding(src.head), src.d, mb_w, k + mb_w, src.n());
    let m = src.modes(k + mb_w);
    assert forall|x: int| 0 <= x < mb_w implies mode_of(#[trigger] frame.mb_data@[x]) == kept_info(
        m.infos,
        mb_w,
        k + mb_w + x,
    ) by {
        assert(m.infos[k + x] == src.infos()[k + x]);
    }
    assert(src.residuals(k + mb_w).nz == nz_scanline(src.step(k + mb_w - 1).1));
}

/// Whether `planes` hold the decode of a payload.
pub open spec fn is_decode(payload: Seq<u8>, planes: Samples) -> bool {
    let h = header_fields(payload);
    let start = 10 + h.first_partition_size as int;
    let control = payload.subrange(10, start);
    let after = payload.subrange(start, payload.len() as int);
    exists|f: Frame, d: DecState, s: Samples|
        {
            &&& #[trigger] is_head(f, dec_init(control), d)
            &&& f.mb_w == blocks_of(h.width as int)
            &&& f.mb_h == blocks_of(h.height as int)
            &&& #[trigger] shows(
                s,
                f.mb_w as int,
                f.mb_h as int,
                frame_read(f, d, after).tiles(f.mb_w as int),
                before(f.mb_w * f.mb_h),
            )
            &&& frame_read(f, d, after).leaves_scratch(s.y, f.mb_w as int, f.mb_h as int)
            &&& planes == frame_filtered(
                s,
                f.mb_w as int,
                frame_read(f, d, after).finfo(f),
                f.filter_type,
                f.mb_h as int,
            )
        }
}

/// How many token partitions a control partition announces.
pub open spec fn announced_parts(control: Seq<u8>) -> int {
    let d = dec_init(control);
    let d1 = dec_step(d, 128).1;
    let d2 = dec_step(d1, 128).1;
    let (seg, d3) = segment_header_read(d2, fresh_segment());
    let (filter, d4) = filter_header_read(d3, fresh_filter());
    partition_count(read_literal_spec(d4, 2).0)
}

/// Whether a payload is too short for its header, for the control partition it
/// announces, or for the sizes of its token partitions.
pub open spec fn is_truncated(payload: Seq<u8>) -> bool {
    ||| payload.len() < 10
    ||| is_key_frame_header(payload) && {
        let size = header_fields(payload).first_partition_size as int;
        ||| payload.len() < 10 + size
        ||| payload.len() - 10 - size < 3 * (announced_parts(payload.subrange(10, 10 + size)) - 1)
    }
}

/// Parse the control header behind the segment and filter headers.
fn read_head<'a>(
    frame: &mut Frame,
    br: &mut BoolDecoder<'_>,
    after: &'a [u8],
    Ghost(control): Ghost<Seq<u8>>,
) -> (r: Result<Vec<&'a [u8]>>)
    requires
        old(br).wf(),
        old(br)@ == dec_init(control),
        old(frame).wf(),
        segment_state(*old(frame)) == fresh_segment(),
        filter_state(*old(frame)) == fresh_filter(),
        old(frame).proba.skip_p == 0,
        segment_bounded(*old(frame)),
        filter_bounded(*old(frame)),
    ensures
        final(br).wf(),
        match r {
            Ok(parts) => {
                &&& after@.len() >= 3 * (announced_parts(control) - 1)
                &&& is_head(*final(frame), dec_init(control), final(br)@)
                &&& final(frame).wf()
                &&& segment_bounded(*final(frame))
                &&& filter_bounded(*final(frame))
                &&& final(frame).mb_w == old(frame).mb_w
                &&& final(frame).mb_h == old(frame).mb_h
                &&& final(frame).intra_t@ == old(frame).intra_t@
                &&& final(frame).intra_l == old(frame).intra_l
                &&& final(frame).mb_info@ == old(frame).mb_info@
                &&& final(frame).mb_data@ == old(frame).mb_data@
                &&& parts@.len() == final(frame).num_parts
                &&& 1 <= final(frame).num_parts
                &&& forall|p: int|
                    0 <= p < parts@.len() ==> (#[trigger] parts@[p])@ == partition_bytes(
                        after@,
                        final(frame).num_parts as int,
                        p,
                    )
            },
            Err(e) => {
                &&& e == Error::Truncated
                &&& after@.len() < 3 * (announced_parts(control) - 1)
            },
        },
{
    frame.parse_headers(br);
    let ghost f1 = *frame;
    match frame.parse_partitions(br, after) {
        Ok(parts) => {
            frame.parse_quant(br);
            let _refresh: bool = br.read_flag();
            let ghost f2 = *frame;
            frame.parse_proba(br);
            proof {
                let f = *frame;
                assert(f.segment == f1.segment);
                assert(segment_state(f) =~= segment_state(f1));
                assert(filter_state(f) =~= filter_state(f1));
                assert forall|base: int, i: int| #[trigger] segment_q(f, base, i) == segment_q(
                    f1,
                    base,
                    i,
                ) by {}
            }
            Ok(parts)
        },
        Err(e) => Err(e),
    }
}

/// Decode a key frame into planes, and its width and height.
///
/// # Errors
///
/// [`Error::Truncated`] if the payload is too short, or [`Error::InvalidBitstream`] if
/// its header is not a key frame's.
#[verifier::rlimit(60)]
pub fn reconstruct_to_planes(payload: &[u8]) -> (r: Result<(Planes, usize, usize)>)
    ensures
        match r {
            Ok((planes, width, height)) => {
                &&& !is_truncated(payload@)
                &&& is_key_frame_header(payload@)
                &&& width == header_fields(payload@).width
                &&& height == header_fields(payload@).height
                &&& planes.wf(blocks_of(width as int), blocks_of(height as int))
                &&& is_decode(payload@, planes@)
            },
            Err(Error::Truncated) => is_truncated(payload@),
            Err(Error::InvalidBitstream { codec }) => {
                &&& codec == crate::error::Codec::Lossy
                &&& payload@.len() >= 10
                &&& !is_key_frame_header(payload@)
            },
            Err(Error::InvalidDimensions) => false,
        },
{
    let h: FrameHeader = match FrameHeader::parse_key_frame(payload) {
        Ok(h) => h,
        Err(e) => {
            return Err(e);
        },
    };
    let size: u32 = h.first_partition_size;
    let rest: usize = payload.len() - 10;
    if (rest as u64) < size as u64 {
        return Err(Error::Truncated);
    }
    let start: usize = 10 + size as usize;
    let control: &[u8] = vstd::slice::slice_subrange(payload, 10, start);
    let after: &[u8] = vstd::slice::slice_subrange(payload, start, payload.len());
    let width: usize = h.width as usize;
    let height: usize = h.height as usize;
    let mb_w: usize = (width + 15) / 16;
    let mb_h: usize = (height + 15) / 16;
    proof {
        crate::frame::lemma_grid_small(width as int, height as int);
    }
    let mut frame: Frame = match Frame::new(h) {
        Ok(frame) => frame,
        Err(e) => {
            return Err(e);
        },
    };
    let mut br: BoolDecoder<'_> = BoolDecoder::new(control);
    proof {
        assert(segment_state(frame) =~= fresh_segment());
        assert(filter_state(frame) =~= fresh_filter());
    }
    let ghost f0 = frame;
    let parts: Vec<&[u8]> = match read_head(&mut frame, &mut br, after, Ghost(control@)) {
        Ok(parts) => parts,
        Err(e) => {
            return Err(e);
        },
    };
    let mut decs: Vec<BoolDecoder<'_>> = Vec::new();
    let ghost part_states = Seq::new(
        frame.num_parts as nat,
        |p: int| dec_init(partition_bytes(after@, frame.num_parts as int, p)),
    );
    let mut p: usize = 0;
    while p < parts.len()
        invariant
            p <= parts@.len(),
            part_states.len() == parts@.len(),
            forall|j: int| 0 <= j < parts@.len() ==> dec_init((#[trigger] parts@[j])@) == part_states[j],
            decs@.len() == p,
            forall|j: int| 0 <= j < p ==> (#[trigger] decs@[j]).wf() && decs@[j]@ == part_states[j],
        decreases parts@.len() - p,
    {
        assert(dec_init(parts@[p as int]@) == part_states[p as int]);
        decs.push(BoolDecoder::new(parts[p]));
        p = p + 1;
    }
    let ghost src = Source { head: frame, d: br@, parts: part_states };
    proof {
        lemma_head_small(frame);
    }
    let table: [[FInfo; 2]; 4] = compute_fstrengths(&frame.segment, &frame.filter);
    let mut planes: Planes = Planes::new(mb_w, mb_h);
    let mut finfo: Vec<FInfo> = Vec::new();
    proof {
        lemma_empty_shows(mb_w as int, mb_h as int, src.tiles(), before(0));
        assert(src.at_row(frame, 0)) by {
            lemma_start(src, frame);
        }
        assert(0 * src.mb_w() == 0);
        reveal(Source::leaves);
    }
    let mut mb_y: usize = 0;
    while mb_y < mb_h
        invariant
            src.wf(),
            mb_y <= mb_h,
            mb_h == src.head.mb_h,
            mb_w == src.mb_w(),
            br.wf(),
            br@ == src.modes(mb_y * src.mb_w()).d,
            src.at_row(frame, mb_y as int),
            decoders_are(decs@, src.residuals(mb_y * src.mb_w()).parts),
            is_table(table, src.head.segment, src.head.filter),
            finfo_are(src, finfo@, mb_y * src.mb_w()),
            planes.wf(mb_w as int, mb_h as int),
            shows(planes@, mb_w as int, mb_h as int, src.tiles(), before(mb_y * src.mb_w())),
            src.leaves(planes@.y, mb_y * src.mb_w()),
        decreases mb_h - mb_y,
    {
        read_row(
            &mut frame,
            &mut br,
            &mut decs,
            &mut planes,
            &table,
            &mut finfo,
            mb_y,
            Ghost(src),
        );
        mb_y = mb_y + 1;
    }
    let ghost unfiltered = planes@;
    assert(mb_h * mb_w == mb_w * mb_h) by (nonlinear_arith);
    filter_frame(&mut planes, finfo.as_slice(), mb_w, mb_h, frame.filter_type);
    proof {
        let fr = frame_read(src.head, src.d, after@);
        lemma_modes_prefix(mode_coding(src.head), src.d, src.mb_w(), src.n(), src.n());
        assert(fr.infos == src.infos());
        assert(fr.blocks == src.blocks());
        assert(finfo@ =~= fr.finfo(src.head));
        assert(is_head(src.head, dec_init(control@), src.d));
        assert(shows(
            unfiltered,
            src.head.mb_w as int,
            src.head.mb_h as int,
            fr.tiles(src.head.mb_w as int),
            before(src.head.mb_w * src.head.mb_h),
        ));
        reveal(Source::leaves);
        assert(fr.leaves_scratch(unfiltered.y, src.mb_w(), src.head.mb_h as int));
    }
    Ok((planes, width, height))
}

/// Filter levels that are bounded add up.
proof fn lemma_head_small(frame: Frame)
    requires
        segment_bounded(frame),
        filter_bounded(frame),
    ensures
        filter_small(frame.filter),
        segment_small(frame.segment),
{
    assert(-65536 <= frame.filter.ref_lf_delta@[0] <= 65536);
    assert forall|s: int| 0 <= s < 4 implies -0x100_0000
        <= #[trigger] frame.segment.filter_strength@[s] <= 0x100_0000 by {
        assert(-65536 <= frame.segment.quantizer@[s] <= 65536);
    }
}

/// A fresh frame stands at the first row.
proof fn lemma_start(src: Source, frame: Frame)
    requires
        src.wf(),
        src.head == frame,
        frame.wf(),
        forall|i: int| 0 <= i < 4 * frame.mb_w ==> #[trigger] frame.intra_t@[i] == 0,
        frame.intra_l@ == no_left(),
        forall|i: int|
            0 <= i <= frame.mb_w ==> #[trigger] frame.mb_info@[i] == (MbInfo { nz: 0, nz_dc: 0 }),
        forall|i: int|
            0 <= i < frame.mb_w ==> crate::decode::mb_data_blank(#[trigger] frame.mb_data@[i]),
    ensures
        src.at_row(frame, 0),
{
    assert(0 * src.mb_w() == 0);
    let m = src.modes(0);
    assert(frame.intra_t@ =~= m.top);
    assert forall|x: int| 0 <= x < src.mb_w() implies mode_of(#[trigger] frame.mb_data@[x])
        == kept_info(m.infos, src.mb_w(), 0 + x) by {
        assert(crate::decode::mb_data_blank(frame.mb_data@[x]));
        assert(mode_of(frame.mb_data@[x]) =~= blank_info());
    }
}

/// Decode a key frame into a picture.
///
/// # Errors
///
/// [`Error::Truncated`] if the payload is too short, or [`Error::InvalidBitstream`] if
/// its header is not a key frame's.
pub fn decode_frame(payload: &[u8]) -> (r: Result<Image>)
    ensures
        match r {
            Ok(image) => {
                let h = header_fields(payload@);
                &&& !is_truncated(payload@)
                &&& is_key_frame_header(payload@)
                &&& image.wf()
                &&& image.dims.width == h.width
                &&& image.dims.height == h.height
                &&& image.layout == PixelLayout::Rgba8
                &&& exists|planes: Samples| #[trigger]
                    is_decode(payload@, planes) && image.bytes@ == rgba_image(
                        picture_of(planes, blocks_of(h.width as int)),
                        h.width as int,
                        h.height as int,
                    )
            },
            Err(Error::Truncated) => is_truncated(payload@),
            Err(Error::InvalidBitstream { codec }) => {
                &&& codec == crate::error::Codec::Lossy
                &&& payload@.len() >= 10
                &&& !is_key_frame_header(payload@)
            },
            Err(Error::InvalidDimensions) => false,
        },
{
    let (planes, width, height) = match reconstruct_to_planes(payload) {
        Ok(v) => v,
        Err(e) => {
            return Err(e);
        },
    };
    let mb_w: usize = (width + 15) / 16;
    let mb_h: usize = (height + 15) / 16;
    proof {
        assert(width * 4 * height <= 0x8000_0000) by (nonlinear_arith)
            requires
                width <= 16383,
                height <= 16383,
        ;
    }
    to_image(&planes, width, height, mb_w, mb_h)
}

} // verus!
