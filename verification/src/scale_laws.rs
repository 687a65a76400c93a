//! The committed scales, entry by entry.

use vstd::prelude::*;

use crate::constants::{ac_table, dc_table, entropy_cost, quality_curve};

verus! {

/// The quantizer index of each quality: every step of the scale, `99 - q` near its fine
/// end, and strictly finer from quality 75 to quality 99.
pub proof fn quality_steps(q: int, p: int)
    requires
        0 <= q <= 100,
        0 <= p <= 100,
    ensures
        quality_curve(q) == seq![
            127int, 103, 96, 92, 89, 86, 83, 81, 79, 77, 75, 73, 72, 70, 69, 68, 66, 65, 64,
            63, 62, 61, 60, 59, 58, 57, 56, 55, 54, 53, 52, 51, 51, 50, 49, 48, 48, 47, 46, 45,
            45, 44, 43, 43, 42, 41, 41, 40, 40, 39, 38, 38, 37, 37, 36, 36, 35, 35, 34, 33, 33,
            32, 32, 31, 31, 30, 30, 29, 29, 28, 28, 28, 27, 27, 26, 26, 24, 23, 22, 21, 19, 18,
            17, 16, 15, 14, 13, 12, 11, 10, 9, 8, 7, 6, 5, 4, 3, 2, 1, 0, 0,
        ][q],
        80 <= q <= 99 ==> quality_curve(q) == 99 - q,
        75 <= q < p <= 99 ==> quality_curve(p) < quality_curve(q),
        q <= p ==> quality_curve(p) <= quality_curve(q),
{
    reveal(quality_curve);
    crate::constants::lemma_quality_curve(if q <= p {
        q
    } else {
        p
    }, if q <= p {
        p
    } else {
        q
    });
}

/// The DC step of each quantizer index; steps never shrink.
pub proof fn dc_steps(i: int)
    requires
        0 <= i < 128,
    ensures
        dc_table(i) == seq![
            4int, 5, 6, 7, 8, 9, 10, 10, 11, 12, 13, 14, 15, 16, 17, 17, 18, 19, 20, 20, 21,
            21, 22, 22, 23, 23, 24, 25, 25, 26, 27, 28, 29, 30, 31, 32, 33, 34, 35, 36, 37, 37,
            38, 39, 40, 41, 42, 43, 44, 45, 46, 46, 47, 48, 49, 50, 51, 52, 53, 54, 55, 56, 57,
            58, 59, 60, 61, 62, 63, 64, 65, 66, 67, 68, 69, 70, 71, 72, 73, 74, 75, 76, 76, 77,
            78, 79, 80, 81, 82, 83, 84, 85, 86, 87, 88, 89, 91, 93, 95, 96, 98, 100, 101, 102,
            104, 106, 108, 110, 112, 114, 116, 118, 122, 124, 126, 128, 130, 132, 134, 136,
            138, 140, 143, 145, 148, 151, 154, 157,
        ][i],
        i > 0 ==> dc_table(i - 1) <= dc_table(i),
{
    reveal(dc_table);
}

/// The AC step of each quantizer index; steps never shrink.
pub proof fn ac_steps(i: int)
    requires
        0 <= i < 128,
    ensures
        ac_table(i) == seq![
            4int, 5, 6, 7, 8, 9, 10, 11, 12, 13, 14, 15, 16, 17, 18, 19, 20, 21, 22, 23, 24,
            25, 26, 27, 28, 29, 30, 31, 32, 33, 34, 35, 36, 37, 38, 39, 40, 41, 42, 43, 44, 45,
            46, 47, 48, 49, 50, 51, 52, 53, 54, 55, 56, 57, 58, 60, 62, 64, 66, 68, 70, 72, 74,
            76, 78, 80, 82, 84, 86, 88, 90, 92, 94, 96, 98, 100, 102, 104, 106, 108, 110, 112,
            114, 116, 119, 122, 125, 128, 131, 134, 137, 140, 143, 146, 149, 152, 155, 158,
            161, 164, 167, 170, 173, 177, 181, 185, 189, 193, 197, 201, 205, 209, 213, 217,
            221, 225, 229, 234, 239, 245, 249, 254, 259, 264, 269, 274, 279, 284,
        ][i],
        i > 0 ==> ac_table(i - 1) <= ac_table(i),
{
    reveal(ac_table);
}

/// The cost of each probability: `256 * log2(256 / i)` to the nearest number, so that
/// halving a probability costs one bit more.
pub proof fn event_costs(i: int)
    requires
        0 <= i <= 256,
    ensures
        entropy_cost(i) == seq![
            2048int, 2048, 1792, 1642, 1536, 1454, 1386, 1329, 1280, 1236, 1198, 1162, 1130,
            1101, 1073, 1048, 1024, 1002, 980, 961, 942, 924, 906, 890, 874, 859, 845, 831,
            817, 804, 792, 780, 768, 757, 746, 735, 724, 714, 705, 695, 686, 676, 668, 659,
            650, 642, 634, 626, 618, 611, 603, 596, 589, 582, 575, 568, 561, 555, 548, 542,
            536, 530, 524, 518, 512, 506, 501, 495, 490, 484, 479, 474, 468, 463, 458, 453,
            449, 444, 439, 434, 430, 425, 420, 416, 412, 407, 403, 399, 394, 390, 386, 382,
            378, 374, 370, 366, 362, 358, 355, 351, 347, 343, 340, 336, 333, 329, 326, 322,
            319, 315, 312, 309, 305, 302, 299, 296, 292, 289, 286, 283, 280, 277, 274, 271,
            268, 265, 262, 259, 256, 253, 250, 247, 245, 242, 239, 236, 234, 231, 228, 226,
            223, 220, 218, 215, 212, 210, 207, 205, 202, 200, 197, 195, 193, 190, 188, 185,
            183, 181, 178, 176, 174, 171, 169, 167, 164, 162, 160, 158, 156, 153, 151, 149,
            147, 145, 143, 140, 138, 136, 134, 132, 130, 128, 126, 124, 122, 120, 118, 116,
            114, 112, 110, 108, 106, 104, 102, 101, 99, 97, 95, 93, 91, 89, 87, 86, 84, 82, 80,
            78, 77, 75, 73, 71, 70, 68, 66, 64, 63, 61, 59, 58, 56, 54, 53, 51, 49, 48, 46, 44,
            43, 41, 40, 38, 36, 35, 33, 32, 30, 28, 27, 25, 24, 22, 21, 19, 18, 16, 15, 13, 12,
            10, 9, 7, 6, 4, 3, 1, 0,
        ][i],
        i > 0 ==> entropy_cost(i) <= entropy_cost(i - 1),
        1 <= i <= 128 ==> entropy_cost(i) == entropy_cost(2 * i) + 256,
        entropy_cost(256) == 0,
{
    reveal(entropy_cost);
}

} // verus!
