//! What the predictors predict, sample by sample.

use vstd::prelude::*;

use crate::constants::{
    B_DC_PRED, B_HD_PRED, B_HE_PRED, B_HU_PRED, B_LD_PRED, B_RD_PRED, B_TM_PRED, B_VE_PRED,
    B_VL_PRED, B_VR_PRED, DC_PRED, H_PRED, TM_PRED, V_PRED,
};
use crate::predict::{block4, dc_value, sum_first, whole_block};
use crate::recon_block::{predicted, Edge};

verus! {

/// The samples along the edge of a 4x4 block: 0 is the corner, positive numbers run to the
/// right above it, negative ones down its left side, whose last sample goes on.
pub open spec fn along(e: Seq<u8>, k: int) -> int {
    if k >= 0 {
        e[4 + k] as int
    } else if k >= -4 {
        e[-k - 1] as int
    } else {
        e[3] as int
    }
}

/// The samples above a 4x4 block, the last of eight going on.
pub open spec fn above(e: Seq<u8>, k: int) -> int {
    if k < 8 {
        e[5 + k] as int
    } else {
        e[12] as int
    }
}

/// The samples left of a 4x4 block, the last one going on.
pub open spec fn left_of(e: Seq<u8>, k: int) -> int {
    if k < 4 {
        e[k] as int
    } else {
        e[3] as int
    }
}

/// The rounded mean of two.
pub open spec fn mean2(a: int, b: int) -> int {
    (a + b + 1) / 2
}

/// The rounded mean of three, the middle one twice.
pub open spec fn mean3(a: int, b: int, c: int) -> int {
    (a + 2 * b + c + 2) / 4
}

/// The edge smoothed at `k`.
pub open spec fn soft(e: Seq<u8>, k: int) -> int {
    mean3(along(e, k - 1), along(e, k), along(e, k + 1))
}

/// Sample (`x`, `y`) of a 4x4 prediction, for each of the ten modes: the mean of the edge;
/// above plus left less the corner; the smoothed edge above or beside the sample; or the
/// edge where a line through the sample in the mode's direction meets it.
pub proof fn small_predictions(mode: u8, e: Seq<u8>, x: int, y: int)
    requires
        e.len() == 13,
        0 <= x < 4,
        0 <= y < 4,
    ensures
        ({
            let p = block4(mode, e)[4 * y + x] as int;
            let t = above(e, x) + left_of(e, y) - along(e, 0);
            &&& mode == B_DC_PRED ==> p == (e[0] + e[1] + e[2] + e[3] + e[5] + e[6] + e[7] + e[8]
                + 4) / 8
            &&& mode == B_TM_PRED ==> p == (if t < 0 {
                0
            } else if t > 255 {
                255
            } else {
                t
            })
            &&& mode == B_VE_PRED ==> p == soft(e, x + 1)
            &&& mode == B_HE_PRED ==> p == soft(e, -y - 1)
            &&& mode == B_RD_PRED ==> p == soft(e, x - y)
            &&& mode == B_LD_PRED ==> p == mean3(
                above(e, x + y),
                above(e, x + y + 1),
                above(e, x + y + 2),
            )
            &&& mode == B_VR_PRED ==> p == (if 2 * x - y < -1 {
                soft(e, 2 * x - y + 1)
            } else if y % 2 == 0 {
                mean2(along(e, x - y / 2), along(e, x - y / 2 + 1))
            } else {
                soft(e, x - y / 2)
            })
            &&& mode == B_HD_PRED ==> p == (if 2 * y - x < -1 {
                soft(e, x - 2 * y - 1)
            } else if x % 2 == 0 {
                mean2(along(e, x / 2 - y), along(e, x / 2 - y - 1))
            } else {
                soft(e, x / 2 - y)
            })
            &&& mode == B_VL_PRED ==> p == (if x == 3 && y >= 2 {
                mean3(above(e, y + 2), above(e, y + 3), above(e, y + 4))
            } else if y % 2 == 0 {
                mean2(above(e, x + y / 2), above(e, x + y / 2 + 1))
            } else {
                mean3(above(e, x + y / 2), above(e, x + y / 2 + 1), above(e, x + y / 2 + 2))
            })
            &&& mode == B_HU_PRED ==> p == (if x % 2 == 0 {
                mean2(left_of(e, y + x / 2), left_of(e, y + x / 2 + 1))
            } else {
                mean3(
                    left_of(e, y + x / 2),
                    left_of(e, y + x / 2 + 1),
                    left_of(e, y + x / 2 + 2),
                )
            })
        }),
{
    if mode == B_DC_PRED {
        lemma_dc(e, x, y);
    }
    if mode == B_TM_PRED {
        lemma_tm(e, x, y);
    }
    if mode == B_VE_PRED {
        lemma_ve(e, x, y);
    }
    if mode == B_HE_PRED {
        lemma_he(e, x, y);
    }
    if mode == B_RD_PRED {
        lemma_rd(e, x, y);
    }
    if mode == B_LD_PRED {
        lemma_ld(e, x, y);
    }
    if mode == B_VR_PRED {
        lemma_vr(e, x, y);
    }
    if mode == B_HD_PRED {
        lemma_hd(e, x, y);
    }
    if mode == B_VL_PRED {
        lemma_vl(e, x, y);
    }
    if mode == B_HU_PRED {
        lemma_hu(e, x, y);
    }
}

proof fn lemma_dc(e: Seq<u8>, x: int, y: int)
    requires
        e.len() == 13,
        0 <= x < 4,
        0 <= y < 4,
    ensures
        ({
            let p = block4(B_DC_PRED, e)[4 * y + x] as int;
            let t = above(e, x) + left_of(e, y) - along(e, 0);
            p == (e[0] + e[1] + e[2] + e[3] + e[5] + e[6] + e[7] + e[8]
                + 4) / 8
        }),
{
    if y == 0 {
        assert(x == 0 || x == 1 || x == 2 || x == 3);
    } else if y == 1 {
        assert(x == 0 || x == 1 || x == 2 || x == 3);
    } else if y == 2 {
        assert(x == 0 || x == 1 || x == 2 || x == 3);
    } else {
        assert(x == 0 || x == 1 || x == 2 || x == 3);
    }
}

proof fn lemma_tm(e: Seq<u8>, x: int, y: int)
    requires
        e.len() == 13,
        0 <= x < 4,
        0 <= y < 4,
    ensures
        ({
            let p = block4(B_TM_PRED, e)[4 * y + x] as int;
            let t = above(e, x) + left_of(e, y) - along(e, 0);
            p == (if t < 0 {
                0
            } else if t > 255 {
                255
            } else {
                t
            })
        }),
{
    if y == 0 {
        assert(x == 0 || x == 1 || x == 2 || x == 3);
    } else if y == 1 {
        assert(x == 0 || x == 1 || x == 2 || x == 3);
    } else if y == 2 {
        assert(x == 0 || x == 1 || x == 2 || x == 3);
    } else {
        assert(x == 0 || x == 1 || x == 2 || x == 3);
    }
}

proof fn lemma_ve(e: Seq<u8>, x: int, y: int)
    requires
        e.len() == 13,
        0 <= x < 4,
        0 <= y < 4,
    ensures
        ({
            let p = block4(B_VE_PRED, e)[4 * y + x] as int;
            let t = above(e, x) + left_of(e, y) - along(e, 0);
            p == soft(e, x + 1)
        }),
{
    if y == 0 {
        assert(x == 0 || x == 1 || x == 2 || x == 3);
    } else if y == 1 {
        assert(x == 0 || x == 1 || x == 2 || x == 3);
    } else if y == 2 {
        assert(x == 0 || x == 1 || x == 2 || x == 3);
    } else {
        assert(x == 0 || x == 1 || x == 2 || x == 3);
    }
}

proof fn lemma_he(e: Seq<u8>, x: int, y: int)
    requires
        e.len() == 13,
        0 <= x < 4,
        0 <= y < 4,
    ensures
        ({
            let p = block4(B_HE_PRED, e)[4 * y + x] as int;
            let t = above(e, x) + left_of(e, y) - along(e, 0);
            p == soft(e, -y - 1)
        }),
{
    if y == 0 {
        assert(x == 0 || x == 1 || x == 2 || x == 3);
    } else if y == 1 {
        assert(x == 0 || x == 1 || x == 2 || x == 3);
    } else if y == 2 {
        assert(x == 0 || x == 1 || x == 2 || x == 3);
    } else {
        assert(x == 0 || x == 1 || x == 2 || x == 3);
    }
}

proof fn lemma_rd(e: Seq<u8>, x: int, y: int)
    requires
        e.len() == 13,
        0 <= x < 4,
        0 <= y < 4,
    ensures
        ({
            let p = block4(B_RD_PRED, e)[4 * y + x] as int;
            let t = above(e, x) + left_of(e, y) - along(e, 0);
            p == soft(e, x - y)
        }),
{
    if y == 0 {
        assert(x == 0 || x == 1 || x == 2 || x == 3);
    } else if y == 1 {
        assert(x == 0 || x == 1 || x == 2 || x == 3);
    } else if y == 2 {
        assert(x == 0 || x == 1 || x == 2 || x == 3);
    } else {
        assert(x == 0 || x == 1 || x == 2 || x == 3);
    }
}

proof fn lemma_ld(e: Seq<u8>, x: int, y: int)
    requires
        e.len() == 13,
        0 <= x < 4,
        0 <= y < 4,
    ensures
        ({
            let p = block4(B_LD_PRED, e)[4 * y + x] as int;
            let t = above(e, x) + left_of(e, y) - along(e, 0);
            p == mean3(
                above(e, x + y),
                above(e, x + y + 1),
                above(e, x + y + 2),
            )
        }),
{
    if y == 0 {
        assert(x == 0 || x == 1 || x == 2 || x == 3);
    } else if y == 1 {
        assert(x == 0 || x == 1 || x == 2 || x == 3);
    } else if y == 2 {
        assert(x == 0 || x == 1 || x == 2 || x == 3);
    } else {
        assert(x == 0 || x == 1 || x == 2 || x == 3);
    }
}

proof fn lemma_vr(e: Seq<u8>, x: int, y: int)
    requires
        e.len() == 13,
        0 <= x < 4,
        0 <= y < 4,
    ensures
        ({
            let p = block4(B_VR_PRED, e)[4 * y + x] as int;
            let t = above(e, x) + left_of(e, y) - along(e, 0);
            p == (if 2 * x - y < -1 {
                soft(e, 2 * x - y + 1)
            } else if y % 2 == 0 {
                mean2(along(e, x - y / 2), along(e, x - y / 2 + 1))
            } else {
                soft(e, x - y / 2)
            })
        }),
{
    if y == 0 {
        assert(x == 0 || x == 1 || x == 2 || x == 3);
    } else if y == 1 {
        assert(x == 0 || x == 1 || x == 2 || x == 3);
    } else if y == 2 {
        assert(x == 0 || x == 1 || x == 2 || x == 3);
    } else {
        assert(x == 0 || x == 1 || x == 2 || x == 3);
    }
}

proof fn lemma_hd(e: Seq<u8>, x: int, y: int)
    requires
        e.len() == 13,
        0 <= x < 4,
        0 <= y < 4,
    ensures
        ({
            let p = block4(B_HD_PRED, e)[4 * y + x] as int;
            let t = above(e, x) + left_of(e, y) - along(e, 0);
            p == (if 2 * y - x < -1 {
                soft(e, x - 2 * y - 1)
            } else if x % 2 == 0 {
                mean2(along(e, x / 2 - y), along(e, x / 2 - y - 1))
            } else {
                soft(e, x / 2 - y)
            })
        }),
{
    if y == 0 {
        assert(x == 0 || x == 1 || x == 2 || x == 3);
    } else if y == 1 {
        assert(x == 0 || x == 1 || x == 2 || x == 3);
    } else if y == 2 {
        assert(x == 0 || x == 1 || x == 2 || x == 3);
    } else {
        assert(x == 0 || x == 1 || x == 2 || x == 3);
    }
}

proof fn lemma_vl(e: Seq<u8>, x: int, y: int)
    requires
        e.len() == 13,
        0 <= x < 4,
        0 <= y < 4,
    ensures
        ({
            let p = block4(B_VL_PRED, e)[4 * y + x] as int;
            let t = above(e, x) + left_of(e, y) - along(e, 0);
            p == (if x == 3 && y >= 2 {
                mean3(above(e, y + 2), above(e, y + 3), above(e, y + 4))
            } else if y % 2 == 0 {
                mean2(above(e, x + y / 2), above(e, x + y / 2 + 1))
            } else {
                mean3(above(e, x + y / 2), above(e, x + y / 2 + 1), above(e, x + y / 2 + 2))
            })
        }),
{
    if y == 0 {
        assert(x == 0 || x == 1 || x == 2 || x == 3);
    } else if y == 1 {
        assert(x == 0 || x == 1 || x == 2 || x == 3);
    } else if y == 2 {
        assert(x == 0 || x == 1 || x == 2 || x == 3);
    } else {
        assert(x == 0 || x == 1 || x == 2 || x == 3);
    }
}

proof fn lemma_hu(e: Seq<u8>, x: int, y: int)
    requires
        e.len() == 13,
        0 <= x < 4,
        0 <= y < 4,
    ensures
        ({
            let p = block4(B_HU_PRED, e)[4 * y + x] as int;
            let t = above(e, x) + left_of(e, y) - along(e, 0);
            p == (if x % 2 == 0 {
                mean2(left_of(e, y + x / 2), left_of(e, y + x / 2 + 1))
            } else {
                mean3(
                    left_of(e, y + x / 2),
                    left_of(e, y + x / 2 + 1),
                    left_of(e, y + x / 2 + 2),
                )
            })
        }),
{
    if y == 0 {
        assert(x == 0 || x == 1 || x == 2 || x == 3);
    } else if y == 1 {
        assert(x == 0 || x == 1 || x == 2 || x == 3);
    } else if y == 2 {
        assert(x == 0 || x == 1 || x == 2 || x == 3);
    } else {
        assert(x == 0 || x == 1 || x == 2 || x == 3);
    }
}

/// Sample (`x`, `y`) of a whole-block prediction: the mean of what is there of the row above
/// and the column to the left, 128 without either; above plus left less the corner; the
/// sample above; or the sample to the left.
pub proof fn whole_predictions(
    n: int,
    mode: u8,
    top: Seq<u8>,
    left: Seq<u8>,
    corner: u8,
    has_top: bool,
    has_left: bool,
    x: int,
    y: int,
)
    requires
        n == 8 || n == 16,
        0 <= x < n,
        0 <= y < n,
    ensures
        ({
            let p = whole_block(n, mode, top, left, corner, has_top, has_left)[n * y + x] as int;
            let t = top[x] + left[y] - corner;
            &&& mode == V_PRED ==> p == top[x]
            &&& mode == H_PRED ==> p == left[y]
            &&& mode == TM_PRED ==> p == (if t < 0 {
                0
            } else if t > 255 {
                255
            } else {
                t
            })
            &&& mode == DC_PRED ==> p == (if has_top && has_left {
                (total(top, n) + total(left, n) + n) / (2 * n)
            } else if has_top {
                (total(top, n) + n / 2) / n
            } else if has_left {
                (total(left, n) + n / 2) / n
            } else {
                128
            })
        }),
{
    lemma_total(top, n);
    lemma_total(left, n);
    lemma_mean(n, top, left, has_top, has_left);
    vstd::arithmetic::div_mod::lemma_fundamental_div_mod_converse(n * y + x, n, y, x);
    assert(0 <= n * y + x < n * n) by (nonlinear_arith)
        requires
            0 <= x < n,
            0 <= y < n,
    ;
}

/// The mean of what is there of an edge.
proof fn lemma_mean(n: int, top: Seq<u8>, left: Seq<u8>, has_top: bool, has_left: bool)
    requires
        n == 8 || n == 16,
    ensures
        dc_value(n, top, left, has_top, has_left) == (if has_top && has_left {
            (total(top, n) + total(left, n) + n) / (2 * n)
        } else if has_top {
            (total(top, n) + n / 2) / n
        } else if has_left {
            (total(left, n) + n / 2) / n
        } else {
            128
        }),
{
    lemma_total(top, n);
    lemma_total(left, n);
    let a = total(top, n);
    let b = total(left, n);
    if n == 8 {
        assert(0 <= (a + b + 8) / 16 <= 255 && 0 <= (a + 4) / 8 <= 255 && 0 <= (b + 4) / 8 <= 255);
    } else {
        assert(0 <= (a + b + 16) / 32 <= 255 && 0 <= (a + 8) / 16 <= 255 && 0 <= (b + 8) / 16 <= 255);
    }
}

/// The sum of eight or of sixteen samples.
pub open spec fn total(s: Seq<u8>, n: int) -> int {
    s[0] + s[1] + s[2] + s[3] + s[4] + s[5] + s[6] + s[7] + (if n == 8 {
        0
    } else {
        s[8] + s[9] + s[10] + s[11] + s[12] + s[13] + s[14] + s[15]
    })
}

proof fn lemma_total(s: Seq<u8>, n: int)
    requires
        n == 8 || n == 16,
    ensures
        sum_first(s, n) == total(s, n),
        0 <= total(s, n) <= 255 * n,
{
    reveal_with_fuel(sum_first, 17);
}

/// A macroblock's prediction takes the samples along its own edge.
pub proof fn predictions_take_their_edge(
    n: int,
    e: Edge,
    mode: u8,
    has_top: bool,
    has_left: bool,
    x: int,
    y: int,
)
    requires
        n == 8 || n == 16,
        0 <= x < n,
        0 <= y < n,
        e.top.len() >= n,
        e.left.len() >= n,
    ensures
        ({
            let p = predicted(n, e, mode, has_top, has_left)[n * y + x] as int;
            let t = e.top[x] + e.left[y] - e.corner;
            &&& mode == V_PRED ==> p == e.top[x]
            &&& mode == H_PRED ==> p == e.left[y]
            &&& mode == TM_PRED ==> p == (if t < 0 {
                0
            } else if t > 255 {
                255
            } else {
                t
            })
            &&& mode == DC_PRED && !has_top && !has_left ==> p == 128
            &&& mode == DC_PRED && has_top && has_left ==> p == (total(e.top, n) + total(e.left, n)
                + n) / (2 * n)
            &&& mode == DC_PRED && has_top && !has_left ==> p == (total(e.top, n) + n / 2) / n
            &&& mode == DC_PRED && !has_top && has_left ==> p == (total(e.left, n) + n / 2) / n
        }),
{
    whole_predictions(n, mode, e.top.take(n), e.left, e.corner, has_top, has_left, x, y);
    assert(total(e.top.take(n), n) == total(e.top, n));
}

} // verus!
