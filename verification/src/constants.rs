//! The fixed tables and enumerations of the VP8 key-frame bitstream.
//!
//! Table lookups are specified by indexing the tables themselves; the range facts
//! that callers need (quantizer steps are positive, zig-zag positions are below
//! sixteen, ...) are proved here once.

use vstd::prelude::*;

pub use crate::proba_tables::{
    bmode_probas, bmodes_proba, coeffs_proba_0, coeffs_update_proba, default_proba, default_probas,
    update_proba, BMODES_PROBA, COEFFS_PROBA_0, COEFFS_UPDATE_PROBA,
};

verus! {

/// A boolean-coder probability: the chance, in 256ths, that a bit is zero.
pub type Prob = u8;

/// Number of coefficient plane types.
pub const NUM_TYPES: usize = 4;

/// Number of coefficient bands.
pub const NUM_BANDS: usize = 8;

/// Number of neighbour contexts.
pub const NUM_CTX: usize = 3;

/// Number of main-tree node probabilities.
pub const NUM_PROBAS: usize = 11;

/// One probability per `(type, band, context, node)`.
pub type CoeffProbas = [[[[Prob; 11]; 3]; 8]; 4];

/// How often each `(type, band, context, node)` coded a zero and a one.
pub type CoeffStats = [[[[[u64; 2]; 11]; 3]; 8]; 4];

/// Which `(type, band, context, node)` probabilities are transmitted.
pub type CoeffUpdateFlags = [[[[bool; 11]; 3]; 8]; 4];

/// Intra 4x4 DC prediction.
pub const B_DC_PRED: u8 = 0;

/// Intra 4x4 TrueMotion prediction.
pub const B_TM_PRED: u8 = 1;

/// Intra 4x4 vertical prediction.
pub const B_VE_PRED: u8 = 2;

/// Intra 4x4 horizontal prediction.
pub const B_HE_PRED: u8 = 3;

/// Intra 4x4 right-down diagonal prediction.
pub const B_RD_PRED: u8 = 4;

/// Intra 4x4 vertical-right prediction.
pub const B_VR_PRED: u8 = 5;

/// Intra 4x4 left-down diagonal prediction.
pub const B_LD_PRED: u8 = 6;

/// Intra 4x4 vertical-left prediction.
pub const B_VL_PRED: u8 = 7;

/// Intra 4x4 horizontal-down prediction.
pub const B_HD_PRED: u8 = 8;

/// Intra 4x4 horizontal-up prediction.
pub const B_HU_PRED: u8 = 9;

/// Whole-block DC prediction (16x16 luma and 8x8 chroma).
pub const DC_PRED: u8 = 0;

/// Whole-block TrueMotion prediction (16x16 luma and 8x8 chroma).
pub const TM_PRED: u8 = 1;

/// Whole-block vertical prediction (16x16 luma and 8x8 chroma).
pub const V_PRED: u8 = 2;

/// Whole-block horizontal prediction (16x16 luma and 8x8 chroma).
pub const H_PRED: u8 = 3;

/// Raster position of each zig-zag coefficient.
pub const ZIGZAG: [usize; 16] = [0, 1, 4, 8, 5, 2, 3, 6, 9, 12, 13, 10, 7, 11, 14, 15];

/// Band of each zig-zag coefficient; the last entry is a sentinel for position 16.
pub const BANDS: [usize; 17] = [0, 1, 2, 3, 6, 4, 5, 6, 6, 6, 6, 6, 6, 6, 6, 7, 0];

/// Number of extra bits of value categories three to six.
pub const CAT_BITS: [usize; 4] = [3, 4, 5, 11];

/// Probabilities of the extra bits of value categories three to six, most
/// significant first; only the first `CAT_BITS[i]` entries of row `i` are used.
pub const CAT_3456: [[Prob; 11]; 4] = [
    [173, 148, 140, 0, 0, 0, 0, 0, 0, 0, 0],
    [176, 155, 140, 135, 0, 0, 0, 0, 0, 0, 0],
    [180, 157, 141, 134, 130, 0, 0, 0, 0, 0, 0],
    [254, 254, 243, 230, 196, 177, 153, 140, 133, 130, 129],
];

/// DC dequantization step per quantizer index.
pub const DC_TABLE: [u16; 128] = [
    4, 5, 6, 7, 8, 9, 10, 10, 11, 12, 13, 14, 15, 16, 17, 17,
    18, 19, 20, 20, 21, 21, 22, 22, 23, 23, 24, 25, 25, 26, 27, 28,
    29, 30, 31, 32, 33, 34, 35, 36, 37, 37, 38, 39, 40, 41, 42, 43,
    44, 45, 46, 46, 47, 48, 49, 50, 51, 52, 53, 54, 55, 56, 57, 58,
    59, 60, 61, 62, 63, 64, 65, 66, 67, 68, 69, 70, 71, 72, 73, 74,
    75, 76, 76, 77, 78, 79, 80, 81, 82, 83, 84, 85, 86, 87, 88, 89,
    91, 93, 95, 96, 98, 100, 101, 102, 104, 106, 108, 110, 112, 114, 116, 118,
    122, 124, 126, 128, 130, 132, 134, 136, 138, 140, 143, 145, 148, 151, 154, 157,
];

/// AC dequantization step per quantizer index.
pub const AC_TABLE: [u16; 128] = [
    4, 5, 6, 7, 8, 9, 10, 11, 12, 13, 14, 15, 16, 17, 18, 19,
    20, 21, 22, 23, 24, 25, 26, 27, 28, 29, 30, 31, 32, 33, 34, 35,
    36, 37, 38, 39, 40, 41, 42, 43, 44, 45, 46, 47, 48, 49, 50, 51,
    52, 53, 54, 55, 56, 57, 58, 60, 62, 64, 66, 68, 70, 72, 74, 76,
    78, 80, 82, 84, 86, 88, 90, 92, 94, 96, 98, 100, 102, 104, 106, 108,
    110, 112, 114, 116, 119, 122, 125, 128, 131, 134, 137, 140, 143, 146, 149, 152,
    155, 158, 161, 164, 167, 170, 173, 177, 181, 185, 189, 193, 197, 201, 205, 209,
    213, 217, 221, 225, 229, 234, 239, 245, 249, 254, 259, 264, 269, 274, 279, 284,
];

/// Cost, in 256ths of a bit, of an event of probability `i / 256`.
pub const ENTROPY_COST: [u16; 257] = [
    2048, 2048, 1792, 1642, 1536, 1454, 1386, 1329, 1280, 1236, 1198, 1162, 1130, 1101, 1073, 1048,
    1024, 1002, 980, 961, 942, 924, 906, 890, 874, 859, 845, 831, 817, 804, 792, 780,
    768, 757, 746, 735, 724, 714, 705, 695, 686, 676, 668, 659, 650, 642, 634, 626,
    618, 611, 603, 596, 589, 582, 575, 568, 561, 555, 548, 542, 536, 530, 524, 518,
    512, 506, 501, 495, 490, 484, 479, 474, 468, 463, 458, 453, 449, 444, 439, 434,
    430, 425, 420, 416, 412, 407, 403, 399, 394, 390, 386, 382, 378, 374, 370, 366,
    362, 358, 355, 351, 347, 343, 340, 336, 333, 329, 326, 322, 319, 315, 312, 309,
    305, 302, 299, 296, 292, 289, 286, 283, 280, 277, 274, 271, 268, 265, 262, 259,
    256, 253, 250, 247, 245, 242, 239, 236, 234, 231, 228, 226, 223, 220, 218, 215,
    212, 210, 207, 205, 202, 200, 197, 195, 193, 190, 188, 185, 183, 181, 178, 176,
    174, 171, 169, 167, 164, 162, 160, 158, 156, 153, 151, 149, 147, 145, 143, 140,
    138, 136, 134, 132, 130, 128, 126, 124, 122, 120, 118, 116, 114, 112, 110, 108,
    106, 104, 102, 101, 99, 97, 95, 93, 91, 89, 87, 86, 84, 82, 80, 78,
    77, 75, 73, 71, 70, 68, 66, 64, 63, 61, 59, 58, 56, 54, 53, 51,
    49, 48, 46, 44, 43, 41, 40, 38, 36, 35, 33, 32, 30, 28, 27, 25,
    24, 22, 21, 19, 18, 16, 15, 13, 12, 10, 9, 7, 6, 4, 3, 1,
    0,
];

/// Base quantizer index per quality setting `0..=100`: finer steps at high quality.
pub const QUALITY_TO_BASE_Q: [u8; 101] = [
    127, 103, 96, 92, 89, 86, 83, 81, 79, 77, 75, 73, 72, 70, 69, 68, 66, 65, 64, 63,
    62, 61, 60, 59, 58, 57, 56, 55, 54, 53, 52, 51, 51, 50, 49, 48, 48, 47, 46, 45,
    45, 44, 43, 43, 42, 41, 41, 40, 40, 39, 38, 38, 37, 37, 36, 36, 35, 35, 34, 33,
    33, 32, 32, 31, 31, 30, 30, 29, 29, 28, 28, 28, 27, 27, 26, 26, 24, 23, 22, 21,
    19, 18, 17, 16, 15, 14, 13, 12, 11, 10, 9, 8, 7, 6, 5, 4, 3, 2, 1, 0,
    0,
];

/// The DC step of quantizer index `i`; `reveal` it where its numbers matter.
#[verifier::opaque]
pub open spec fn dc_table(i: int) -> u16 {
    DC_TABLE[i]
}

/// The AC step of quantizer index `i`; `reveal` it where its numbers matter.
#[verifier::opaque]
pub open spec fn ac_table(i: int) -> u16 {
    AC_TABLE[i]
}

/// The cost of an event of probability `i / 256`; `reveal` it where its numbers matter.
#[verifier::opaque]
pub open spec fn entropy_cost(i: int) -> u16 {
    ENTROPY_COST[i]
}

/// The base quantizer index of quality `i`; `reveal` it where its numbers matter.
#[verifier::opaque]
pub open spec fn quality_curve(i: int) -> u8 {
    QUALITY_TO_BASE_Q[i]
}

/// The DC step of quantizer index `i`.
pub fn dc_step(i: usize) -> (r: u16)
    requires
        i < 128,
    ensures
        r == dc_table(i as int),
        4 <= r <= 157,
{
    proof {
        reveal(dc_table);
        lemma_dc_range(i as int);
    }
    DC_TABLE[i]
}

/// The AC step of quantizer index `i`.
pub fn ac_step(i: usize) -> (r: u16)
    requires
        i < 128,
    ensures
        r == ac_table(i as int),
        4 <= r <= 284,
{
    proof {
        reveal(ac_table);
        lemma_ac_range(i as int);
    }
    AC_TABLE[i]
}

/// The cost of an event of probability `i / 256`.
pub fn event_cost(i: usize) -> (r: u16)
    requires
        i <= 256,
    ensures
        r == entropy_cost(i as int),
        r <= 2048,
{
    proof {
        reveal(entropy_cost);
        lemma_entropy_cost_range(i as int);
    }
    ENTROPY_COST[i]
}

/// The base quantizer index of quality `i`.
pub fn quality_index(i: usize) -> (r: u8)
    requires
        i <= 100,
    ensures
        r == quality_curve(i as int),
        r <= 127,
{
    proof {
        reveal(quality_curve);
        lemma_quality_curve(i as int, i as int);
    }
    QUALITY_TO_BASE_Q[i]
}

/// DC steps lie in `4..=157`.
pub proof fn lemma_dc_range(i: int)
    requires
        0 <= i < 128,
    ensures
        4 <= dc_table(i) <= 157,
{
    reveal(dc_table);
}

/// AC steps lie in `4..=284`.
pub proof fn lemma_ac_range(i: int)
    requires
        0 <= i < 128,
    ensures
        4 <= ac_table(i) <= 284,
{
    reveal(ac_table);
}

/// An event at even odds costs one bit.
pub proof fn lemma_even_cost()
    ensures
        entropy_cost(128) == 256,
{
    reveal(entropy_cost);
}

/// No event costs more than eight bits.
pub proof fn lemma_entropy_cost_range(i: int)
    requires
        0 <= i < 257,
    ensures
        entropy_cost(i) <= 2048,
{
    reveal(entropy_cost);
}

/// A higher quality never has a higher quantizer index; the ends of the scale are the
/// ends of the index range.
pub proof fn lemma_quality_curve(i: int, j: int)
    requires
        0 <= i <= j <= 100,
    ensures
        quality_curve(j) <= quality_curve(i) <= 127,
        quality_curve(0) == 127,
        quality_curve(100) == 0,
    decreases j - i,
{
    reveal(quality_curve);
    if i < j {
        lemma_quality_curve(i, j - 1);
        lemma_quality_step(j);
    }
}

proof fn lemma_quality_step(j: int)
    requires
        1 <= j <= 100,
    ensures
        quality_curve(j) <= quality_curve(j - 1),
{
    reveal(quality_curve);
}

} // verus!
