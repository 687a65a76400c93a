//! What the bytes and fields of files, frames and their headers mean.

use vstd::arithmetic::power2::{lemma2_to64, lemma_pow2_unfold, pow2};
use vstd::prelude::*;

use crate::bool_dec::{read_literal_spec, read_signed_spec};
use crate::coder::{dec_step, DecState};
use crate::constants::{ac_table, dc_table};
use crate::container::{le32, padding, riff, unwrapped, webp_vp8, wrapped};
use crate::decode::{FilterHeader, Frame, QuantMatrix, SegmentHeader};
use crate::error::{Codec, Error};
use crate::frame_header::{header_fields, is_key_frame_header};
use crate::frame_read::read_finfo;
use crate::header::{
    filter_type_spec, partition_bytes, partition_count, partition_start, segment_q, steps_of,
    QuantDeltas,
};
use crate::image::unpacked;
use crate::mb::ModeInfo;
use crate::quant::{quantizer_of, Quantizer};

verus! {

/// The ten bytes of a frame header: a tag of 24 bits, a start code, and two sizes of 14 bits
/// with two bits of scaling each.
pub proof fn frame_header_layout(b: Seq<u8>)
    requires
        b.len() >= 10,
    ensures
        ({
            let h = header_fields(b);
            let tag = b[0] + 256 * b[1] + 65536 * b[2];
            &&& h.key_frame == (tag % 2 == 0)
            &&& h.version == (tag / 2) % 4
            &&& h.show_frame == ((tag / 16) % 2 == 1)
            &&& h.first_partition_size == tag / 32
            &&& h.width + 16384 * h.x_scale == b[6] + 256 * b[7]
            &&& h.height + 16384 * h.y_scale == b[8] + 256 * b[9]
            &&& h.width < 16384
            &&& h.height < 16384
        }),
        is_key_frame_header(b) <==> b[0] % 2 == 0 && b[3] == 0x9d && b[4] == 0x01 && b[5] == 0x2a && (
        b[6] + 256 * b[7]) % 16384 != 0 && (b[8] + 256 * b[9]) % 16384 != 0,
{
    assert(b[7] / 64 < 4 && b[9] / 64 < 4);
}

/// A file starts with `RIFF`, its size less eight, `WEBP`, `VP8 ` and the size of the
/// payload; the payload follows, and a zero where its size is odd.
pub proof fn file_layout(payload: Seq<u8>)
    requires
        payload.len() <= 0xffff_0000,
    ensures
        ({
            let f = wrapped(payload);
            let n = payload.len() as int;
            &&& f.len() == 20 + n + n % 2
            &&& f[0] == 0x52 && f[1] == 0x49 && f[2] == 0x46 && f[3] == 0x46
            &&& f[4] + 256 * f[5] + 65536 * f[6] + 16777216 * f[7] == f.len() - 8
            &&& f[8] == 0x57 && f[9] == 0x45 && f[10] == 0x42 && f[11] == 0x50
            &&& f[12] == 0x56 && f[13] == 0x50 && f[14] == 0x38 && f[15] == 0x20
            &&& f[16] + 256 * f[17] + 65536 * f[18] + 16777216 * f[19] == n
            &&& forall|i: int| 0 <= i < n ==> #[trigger] f[20 + i] == payload[i]
            &&& n % 2 == 1 ==> f[20 + n] == 0
        }),
{
    let n = payload.len() as int;
    let size = 12 + n + n % 2;
    lemma_le32(size);
    lemma_le32(n);
    let a = le32(size);
    let b = le32(n);
    let f = wrapped(payload);
    let h1 = riff() + a;
    let h2 = h1 + webp_vp8();
    let h3 = h2 + b;
    let h4 = h3 + payload;
    assert(f == h4 + padding(n));
    assert(h1.len() == 8 && h2.len() == 16 && h3.len() == 20 && h4.len() == 20 + n);
    assert forall|i: int| 0 <= i < 20 implies #[trigger] f[i] == h3[i] by {
        assert(f[i] == h4[i]);
    }
    assert forall|i: int| 0 <= i < 16 implies #[trigger] h3[i] == h2[i] by {}
    assert forall|i: int| 0 <= i < 8 implies #[trigger] h2[i] == h1[i] by {}
    assert(f[16] == b[0] && f[17] == b[1] && f[18] == b[2] && f[19] == b[3]);
    assert(h2[4] == a[0] && h2[5] == a[1] && h2[6] == a[2] && h2[7] == a[3]);
    assert(f[4] == h3[4] && f[5] == h3[5] && f[6] == h3[6] && f[7] == h3[7]);
    assert(h3[8] == webp_vp8()[0] && h3[9] == webp_vp8()[1] && h3[10] == webp_vp8()[2] && h3[11]
        == webp_vp8()[3] && h3[12] == webp_vp8()[4] && h3[13] == webp_vp8()[5] && h3[14]
        == webp_vp8()[6] && h3[15] == webp_vp8()[7]);
    assert(h1[0] == riff()[0] && h1[1] == riff()[1] && h1[2] == riff()[2] && h1[3] == riff()[3]);
    assert(h2[0] == h1[0] && h2[1] == h1[1] && h2[2] == h1[2] && h2[3] == h1[3]);
    assert forall|i: int| 0 <= i < n implies #[trigger] f[20 + i] == payload[i] by {
        assert(f[20 + i] == h4[20 + i]);
    }
}

/// The bytes of a 32-bit number, the lowest first.
proof fn lemma_le32(n: int)
    requires
        0 <= n <= 0xffff_ffff,
    ensures
        le32(n).len() == 4,
        le32(n)[0] + 256 * le32(n)[1] + 65536 * le32(n)[2] + 16777216 * le32(n)[3] == n,
{
    let a = n / 256;
    let b = a / 256;
    assert(n / 65536 == b);
    assert(n / 16777216 == b / 256);
}

/// What a file unwraps to: the bytes after the first twenty, as many as it announces.
pub proof fn file_contents(file: Seq<u8>)
    ensures
        ({
            let named = file[0] == 0x52 && file[1] == 0x49 && file[2] == 0x46 && file[3] == 0x46
                && file[8] == 0x57 && file[9] == 0x45 && file[10] == 0x42 && file[11] == 0x50
                && file[12] == 0x56 && file[13] == 0x50 && file[14] == 0x38 && file[15] == 0x20;
            let n = file[16] + 256 * file[17] + 65536 * file[18] + 16777216 * file[19];
            match unwrapped(file) {
                Ok(p) => file.len() >= 20 && named && p.len() == n && 20 + n <= file.len() && forall|
                    i: int,
                |
                    0 <= i < n ==> #[trigger] p[i] == file[20 + i],
                Err(e) => if file.len() < 20 || (named && file.len() < 20 + n) {
                    e == Error::Truncated
                } else {
                    !named && e == (Error::InvalidBitstream { codec: Codec::Lossy })
                },
            }
        }),
{
    if file.len() >= 20 {
        let a = file.subrange(0, 4);
        let b = file.subrange(8, 16);
        assert(a[0] == file[0] && a[1] == file[1] && a[2] == file[2] && a[3] == file[3]);
        assert(b[0] == file[8] && b[1] == file[9] && b[2] == file[10] && b[3] == file[11]);
        assert(b[4] == file[12] && b[5] == file[13] && b[6] == file[14] && b[7] == file[15]);
        assert(a =~= riff() <==> a[0] == 0x52 && a[1] == 0x49 && a[2] == 0x46
            && a[3] == 0x46);
        assert(b =~= webp_vp8() <==> b[0] == 0x57 && b[1] == 0x45 && b[2] == 0x42
            && b[3] == 0x50 && b[4] == 0x56 && b[5] == 0x50 && b[6] == 0x38 && b[7] == 0x20);
    }
}

/// The token partitions lie one behind the other after the table of their sizes, three
/// bytes each but for the last; each has the size announced as far as the bytes reach, and
/// the last one all that is left.
pub proof fn partitions_follow_each_other(after: Seq<u8>, count: int, p: int)
    requires
        1 <= count,
        0 <= p < count,
        3 * (count - 1) <= after.len(),
    ensures
        partition_start(after, count, 0) == 3 * (count - 1),
        0 <= partition_start(after, count, p) <= after.len(),
        p + 1 < count ==> ({
            let size = after[3 * p] + 256 * after[3 * p + 1] + 65536 * after[3 * p + 2];
            let left = after.len() - partition_start(after, count, p);
            partition_start(after, count, p + 1) == partition_start(after, count, p) + (if size
                < left {
                size
            } else {
                left
            })
        }),
        partition_bytes(after, count, p) == after.subrange(
            partition_start(after, count, p),
            if p == count - 1 {
                after.len() as int
            } else {
                partition_start(after, count, p + 1)
            },
        ),
        partition_count(0) == 1 && partition_count(1) == 2 && partition_count(2) == 4
            && partition_count(3) == 8,
    decreases p,
{
    if p > 0 {
        partitions_follow_each_other(after, count, p - 1);
    }
}

/// A literal is read from its highest bit on: reading `n` bits and then `m` is reading
/// `n + m`.
pub proof fn literals_join(d: DecState, n: nat, m: nat)
    ensures
        ({
            let (a, d1) = read_literal_spec(d, n);
            let (b, d2) = read_literal_spec(d1, m);
            &&& read_literal_spec(d, n + m) == (a * pow2(m) + b, d2)
            &&& 0 <= b < pow2(m)
        }),
    decreases m,
{
    lemma2_to64();
    let (a, d1) = read_literal_spec(d, n);
    if m == 0 {
        assert(a * pow2(0) == a) by (nonlinear_arith)
            requires
                pow2(0) == 1,
        ;
    } else {
        let k = (m - 1) as nat;
        literals_join(d, n, k);
        lemma_pow2_unfold(m);
        let p = pow2(k) as int;
        assert(2 * (a * p) == a * (2 * p)) by (nonlinear_arith);
        assert((n + m - 1) as nat == n + k);
    }
}

/// One bit is read at even odds, and a signed value is its magnitude and then its sign.
pub proof fn signed_values_end_with_their_sign(d: DecState, n: nat)
    ensures
        read_literal_spec(d, 1) == (if dec_step(d, 128).0 {
            1int
        } else {
            0int
        }, dec_step(d, 128).1),
        ({
            let (v, d1) = read_literal_spec(d, n);
            read_signed_spec(d, n) == (if dec_step(d1, 128).0 {
                -v
            } else {
                v
            }, dec_step(d1, 128).1)
        }),
{
    reveal_with_fuel(read_literal_spec, 2);
}

/// A quantizer index, kept in `0..=hi`.
pub open spec fn index_in(q: int, hi: int) -> int {
    if q < 0 {
        0
    } else if q > hi {
        hi
    } else {
        q
    }
}

/// The six dequantization steps of a segment: each index is its own delta away from the
/// segment's and kept in the table, the chroma DC one below 118; the second-order DC step is
/// doubled, the AC step half as large again and a bit, and at least eight.
pub proof fn steps_of_a_segment(m: QuantMatrix, q: int, e: QuantDeltas)
    requires
        steps_of(m, q, e),
    ensures
        m.y1@[0] == dc_table(index_in(q + e.y1_dc, 127)),
        m.y1@[1] == ac_table(index_in(q, 127)),
        m.y2@[0] == 2 * dc_table(index_in(q + e.y2_dc, 127)),
        ({
            let s = (ac_table(index_in(q + e.y2_ac, 127)) * 101581) / 65536;
            m.y2@[1] == (if s < 8 {
                8
            } else {
                s
            })
        }),
        m.uv@[0] == dc_table(index_in(q + e.uv_dc, 117)),
        m.uv@[1] == ac_table(index_in(q + e.uv_ac, 127)),
{
}

/// The encoder's steps are those of a segment without deltas.
pub proof fn steps_of_a_quantizer(r: Quantizer, q: int)
    requires
        quantizer_of(r, q),
    ensures
        r.y1.dc.q == dc_table(index_in(q, 127)),
        r.y1.ac.q == ac_table(index_in(q, 127)),
        r.y2.dc.q == 2 * dc_table(index_in(q, 127)),
        ({
            let s = (ac_table(index_in(q, 127)) * 101581) / 65536;
            r.y2.ac.q == (if s < 8 {
                8
            } else {
                s
            })
        }),
        r.uv.dc.q == dc_table(index_in(q, 117)),
        r.uv.ac.q == ac_table(index_in(q, 127)),
{
}

/// A segment's quantizer index: the frame's without segments, else its own value, alone or
/// on top of the frame's.
pub proof fn index_of_a_segment(f: Frame, base: int, i: int)
    ensures
        segment_q(f, base, i) == (if !f.segment.use_segment {
            base
        } else if f.segment.absolute_delta {
            f.segment.quantizer@[i] as int
        } else {
            base + f.segment.quantizer@[i]
        }),
{
}

/// The filter level of a macroblock: its segment's, alone or on top of the frame's, with the
/// deltas of its kind, kept in `0..=63`.
pub open spec fn mb_level(segment: SegmentHeader, filter: FilterHeader, s: int, i4x4: bool) -> int {
    let own = if !segment.use_segment {
        filter.level as int
    } else if segment.absolute_delta {
        segment.filter_strength@[s] as int
    } else {
        filter.level + segment.filter_strength@[s]
    };
    let moved = if !filter.use_lf_delta {
        own
    } else if i4x4 {
        own + filter.ref_lf_delta@[0] + filter.mode_lf_delta@[0]
    } else {
        own + filter.ref_lf_delta@[0]
    };
    index_in(moved, 63)
}

/// The interior limit of a level: the level itself, halved from sharpness one on, halved
/// again from five on, then at most `9 - sharpness`, and at least one.
pub open spec fn inner_limit(level: int, sharpness: int) -> int {
    let l = if sharpness > 4 {
        level / 4
    } else if sharpness > 0 {
        level / 2
    } else {
        level
    };
    let m = if sharpness > 0 && l > 9 - sharpness {
        9 - sharpness
    } else {
        l
    };
    if m < 1 {
        1
    } else {
        m
    }
}

/// A macroblock's filter: off at level zero; else limits that grow with the level, a
/// threshold for real boundaries from levels 15 and 40 on, and interior edges where the
/// macroblock is predicted in 4x4 blocks or has coefficients.
pub proof fn filter_of_a_macroblock(
    segment: SegmentHeader,
    filter: FilterHeader,
    use_skip: bool,
    m: ModeInfo,
    b: crate::frame_read::Residual,
)
    requires
        0 <= filter.sharpness <= 7,
    ensures
        ({
            let f = read_finfo(segment, filter, use_skip, m, b);
            let level = mb_level(segment, filter, m.segment as int, m.is_i4x4);
            let inner = inner_limit(level, filter.sharpness as int);
            &&& (f.f_limit == 0) == (level == 0)
            &&& level > 0 ==> f.f_limit == 2 * level + inner && f.f_ilevel == inner
            &&& level > 0 ==> f.hev_thresh == (if level < 15 {
                0int
            } else if level < 40 {
                1
            } else {
                2
            })
            &&& f.f_inner == (m.is_i4x4 || (!(use_skip && m.skip) && (b.code_y != 0 || b.code_uv
                != 0)))
        }),
{
}

/// The kind of loop filter: none at level zero, the simple one where the header says so,
/// else the normal one.
pub proof fn kind_of_filter(level: int, simple: bool)
    ensures
        filter_type_spec(level, simple) == (if level == 0 {
            0int
        } else if simple {
            1
        } else {
            2
        }),
{
}

/// A packed pixel holds alpha, red, green and blue from its highest byte on.
pub proof fn packed_pixels(bytes: Seq<u8>, i: int)
    requires
        0 <= i < bytes.len() / 4,
    ensures
        unpacked(bytes).len() == bytes.len() / 4,
        unpacked(bytes)[i] == 16777216 * bytes[4 * i + 3] + 65536 * bytes[4 * i] + 256 * bytes[4 * i
            + 1] + bytes[4 * i + 2],
{
}

} // verus!
