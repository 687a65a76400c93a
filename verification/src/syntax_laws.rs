//! How modes and levels are spelled, symbol by symbol.

use vstd::prelude::*;

use crate::coder::Sym;
use crate::constants::{Prob, BANDS, CAT_3456, CAT_BITS, ZIGZAG};
use crate::mb::{bmode_prob, bmodes_syms, mode_syms, ModeCoding, ModeInfo};
use crate::proba_tables::bmodes_proba;
use crate::token::{dequant, nz_code, y2_spread};
use crate::tokens::{
    bmode_syms, bottom_flags, cat_base, cat_of, chroma_ctx, coeff_syms, extra_syms, large_syms, level_syms, luma_ctx,
    right_flags, run_syms, segment_syms, uvmode_syms, ymode16_syms,
};

verus! {

/// Bit `i` of a number.
pub open spec fn bit(v: int, i: nat) -> bool
    decreases i,
{
    if i == 0 {
        v % 2 == 1
    } else {
        bit(v / 2, (i - 1) as nat)
    }
}

/// The magnitude of a level.
pub open spec fn magnitude(level: int) -> int {
    if level < 0 {
        -level
    } else {
        level
    }
}

/// The symbols of the magnitudes one to ten: a path through a fixed tree.
pub proof fn small_levels_are_spelled(p: [Prob; 11], level: int)
    requires
        level != 0,
        -10 <= level <= 10,
    ensures
        ({
            let v = magnitude(level);
            let s = (128u8, level < 0);
            level_syms(p, level) =~= (if v == 1 {
                seq![(p[2], false), s]
            } else if v == 2 {
                seq![(p[2], true), (p[3], false), (p[4], false), s]
            } else if v <= 4 {
                seq![(p[2], true), (p[3], false), (p[4], true), (p[5], v == 4), s]
            } else if v <= 6 {
                seq![(p[2], true), (p[3], true), (p[6], false), (p[7], false), (159u8, v == 6), s]
            } else {
                seq![
                    (p[2], true),
                    (p[3], true),
                    (p[6], false),
                    (p[7], true),
                    (165u8, v >= 9),
                    (145u8, v % 2 == 0),
                    s,
                ]
            })
        }),
{
    let v = magnitude(level);
    let s = (128u8, level < 0);
    let all = level_syms(p, level);
    reveal(level_syms);
    reveal(large_syms);
    assert(crate::arith::abs_int(level) == v);
    if v == 1 {
        assert(all =~= seq![(p[2], false), s]);
    } else if v == 2 {
        assert(all =~= seq![(p[2], true), (p[3], false), (p[4], false), s]);
    } else if v <= 4 {
        assert(all =~= seq![(p[2], true), (p[3], false), (p[4], true), (p[5], v == 4), s]);
    } else if v <= 6 {
        assert(all =~= seq![
            (p[2], true),
            (p[3], true),
            (p[6], false),
            (p[7], false),
            (159u8, v == 6),
            s,
        ]);
    } else {
        assert((v == 8 || v == 10) == (v % 2 == 0));
        assert(all =~= seq![
            (p[2], true),
            (p[3], true),
            (p[6], false),
            (p[7], true),
            (165u8, v >= 9),
            (145u8, v % 2 == 0),
            s,
        ]);
    }
}

/// The symbols of the magnitudes from eleven on: a category, then what is above its least
/// magnitude (11, 19, 35 or 67) in 3, 4, 5 or 11 bits, the highest first, each with its own
/// probability.
pub proof fn large_levels_are_spelled(p: [Prob; 11], level: int)
    requires
        11 <= magnitude(level) <= 2114,
    ensures
        ({
            let v = magnitude(level);
            let s = (128u8, level < 0);
            level_syms(p, level) =~= (if v <= 18 {
                seq![
                    (p[2], true),
                    (p[3], true),
                    (p[6], true),
                    (p[8], false),
                    (p[9], false),
                    (173u8, bit(v - 11, 2)),
                    (148u8, bit(v - 11, 1)),
                    (140u8, bit(v - 11, 0)),
                    s,
                ]
            } else if v <= 34 {
                seq![
                    (p[2], true),
                    (p[3], true),
                    (p[6], true),
                    (p[8], false),
                    (p[9], true),
                    (176u8, bit(v - 19, 3)),
                    (155u8, bit(v - 19, 2)),
                    (140u8, bit(v - 19, 1)),
                    (135u8, bit(v - 19, 0)),
                    s,
                ]
            } else if v <= 66 {
                seq![
                    (p[2], true),
                    (p[3], true),
                    (p[6], true),
                    (p[8], true),
                    (p[10], false),
                    (180u8, bit(v - 35, 4)),
                    (157u8, bit(v - 35, 3)),
                    (141u8, bit(v - 35, 2)),
                    (134u8, bit(v - 35, 1)),
                    (130u8, bit(v - 35, 0)),
                    s,
                ]
            } else {
                seq![
                    (p[2], true),
                    (p[3], true),
                    (p[6], true),
                    (p[8], true),
                    (p[10], true),
                    (254u8, bit(v - 67, 10)),
                    (254u8, bit(v - 67, 9)),
                    (243u8, bit(v - 67, 8)),
                    (230u8, bit(v - 67, 7)),
                    (196u8, bit(v - 67, 6)),
                    (177u8, bit(v - 67, 5)),
                    (153u8, bit(v - 67, 4)),
                    (140u8, bit(v - 67, 3)),
                    (133u8, bit(v - 67, 2)),
                    (130u8, bit(v - 67, 1)),
                    (129u8, bit(v - 67, 0)),
                    s,
                ]
            })
        }),
{
    let v = magnitude(level);
    let cat: int = if v <= 18 {
        0
    } else if v <= 34 {
        1
    } else if v <= 66 {
        2
    } else {
        3
    };
    let base: int = if v <= 18 {
        11
    } else if v <= 34 {
        19
    } else if v <= 66 {
        35
    } else {
        67
    };
    let n = CAT_BITS[cat] as nat;
    lemma_extra(cat, v - base, n);
    let e = extra_syms(cat, v - base, n);
    let head: Seq<Sym> = seq![
        (p[2], true),
        (p[3], true),
        (p[6], true),
        (p[8], cat >= 2),
        (p[9 + cat / 2], cat % 2 == 1),
    ];
    assert(crate::arith::abs_int(level) == v);
    reveal(level_syms);
    reveal(large_syms);
    assert(cat_of(v) == cat && cat_base(cat) == base);
    assert(large_syms(p, v) =~= head.drop_first() + e);
    assert(level_syms(p, level) =~= head + e + seq![(128u8, level < 0)]);
    assert forall|i: int| 0 <= i < n implies level_syms(p, level)[5 + i] == #[trigger] e[i] by {}
    assert(e[0] == (CAT_3456[cat][0], bit(v - base, (n - 1) as nat)));
    assert(e[1] == (CAT_3456[cat][1], bit(v - base, (n - 2) as nat)));
    assert(e[2] == (CAT_3456[cat][2], bit(v - base, (n - 3) as nat)));
    if cat >= 1 {
        assert(e[3] == (CAT_3456[cat][3], bit(v - base, (n - 4) as nat)));
    }
    if cat >= 2 {
        assert(e[4] == (CAT_3456[cat][4], bit(v - base, (n - 5) as nat)));
    }
    if cat >= 3 {
        assert(e[5] == (CAT_3456[cat][5], bit(v - base, (n - 6) as nat)));
        assert(e[6] == (CAT_3456[cat][6], bit(v - base, (n - 7) as nat)));
        assert(e[7] == (CAT_3456[cat][7], bit(v - base, (n - 8) as nat)));
        assert(e[8] == (CAT_3456[cat][8], bit(v - base, (n - 9) as nat)));
        assert(e[9] == (CAT_3456[cat][9], bit(v - base, (n - 10) as nat)));
        assert(e[10] == (CAT_3456[cat][10], bit(v - base, (n - 11) as nat)));
    }
}

proof fn lemma_extra(cat: int, v: int, k: nat)
    ensures
        extra_syms(cat, v, k).len() == k,
        forall|i: int|
            0 <= i < k ==> #[trigger] extra_syms(cat, v, k)[i] == (CAT_3456[cat][i], bit(
                v,
                (k - 1 - i) as nat,
            )),
    decreases k,
{
    if k > 0 {
        let n = (k - 1) as nat;
        lemma_extra(cat, v / 2, n);
        assert forall|i: int| 0 <= i < k implies #[trigger] extra_syms(cat, v, k)[i] == (
            CAT_3456[cat][i],
            bit(v, (k - 1 - i) as nat),
        ) by {
            if i < n {
                assert(extra_syms(cat, v / 2, n)[i] == (CAT_3456[cat][i], bit(
                    v / 2,
                    (n - 1 - i) as nat,
                )));
                assert((k - 1 - i) as nat - 1 == n - 1 - i);
            }
        }
    }
}

/// The four whole-block modes, the ten 4x4 modes and the four segments, each a path through
/// its tree.
pub proof fn modes_are_spelled(p: [Prob; 9], s: [Prob; 3])
    ensures
        ymode16_syms(0) =~= seq![(156u8, false), (163u8, false)],
        ymode16_syms(1) =~= seq![(156u8, true), (128u8, true)],
        ymode16_syms(2) =~= seq![(156u8, false), (163u8, true)],
        ymode16_syms(3) =~= seq![(156u8, true), (128u8, false)],
        uvmode_syms(0) =~= seq![(142u8, false)],
        uvmode_syms(1) =~= seq![(142u8, true), (114u8, true), (183u8, true)],
        uvmode_syms(2) =~= seq![(142u8, true), (114u8, false)],
        uvmode_syms(3) =~= seq![(142u8, true), (114u8, true), (183u8, false)],
        bmode_syms(p, 0) =~= seq![(p[0], false)],
        bmode_syms(p, 1) =~= seq![(p[0], true), (p[1], false)],
        bmode_syms(p, 2) =~= seq![(p[0], true), (p[1], true), (p[2], false)],
        bmode_syms(p, 3) =~= seq![
            (p[0], true),
            (p[1], true),
            (p[2], true),
            (p[3], false),
            (p[4], false),
        ],
        bmode_syms(p, 4) =~= seq![
            (p[0], true),
            (p[1], true),
            (p[2], true),
            (p[3], false),
            (p[4], true),
            (p[5], false),
        ],
        bmode_syms(p, 5) =~= seq![
            (p[0], true),
            (p[1], true),
            (p[2], true),
            (p[3], false),
            (p[4], true),
            (p[5], true),
        ],
        bmode_syms(p, 6) =~= seq![
            (p[0], true),
            (p[1], true),
            (p[2], true),
            (p[3], true),
            (p[6], false),
        ],
        bmode_syms(p, 7) =~= seq![
            (p[0], true),
            (p[1], true),
            (p[2], true),
            (p[3], true),
            (p[6], true),
            (p[7], false),
        ],
        bmode_syms(p, 8) =~= seq![
            (p[0], true),
            (p[1], true),
            (p[2], true),
            (p[3], true),
            (p[6], true),
            (p[7], true),
            (p[8], false),
        ],
        bmode_syms(p, 9) =~= seq![
            (p[0], true),
            (p[1], true),
            (p[2], true),
            (p[3], true),
            (p[6], true),
            (p[7], true),
            (p[8], true),
        ],
        segment_syms(s, 0) =~= seq![(s[0], false), (s[1], false)],
        segment_syms(s, 1) =~= seq![(s[0], false), (s[1], true)],
        segment_syms(s, 2) =~= seq![(s[0], true), (s[2], false)],
        segment_syms(s, 3) =~= seq![(s[0], true), (s[2], true)],
{
}

/// The order of coefficients and the bands of their probabilities.
pub proof fn coefficient_order(n: int)
    requires
        0 <= n < 16,
    ensures
        ZIGZAG[n] == seq![0int, 1, 4, 8, 5, 2, 3, 6, 9, 12, 13, 10, 7, 11, 14, 15][n],
        BANDS[n] == seq![0int, 1, 2, 3, 6, 4, 5, 6, 6, 6, 6, 6, 6, 6, 6, 7][n],
{
}

/// A level stands for itself times the step of its place, the first coefficient's or the
/// others'.
pub proof fn levels_scale_with_the_step(level: int, dq: [i32; 2], n: int)
    requires
        0 <= n,
        -32768 <= level * dq[if n == 0 {
            0int
        } else {
            1
        }] <= 32767,
    ensures
        dequant(level, dq, n) == level * dq[if n == 0 {
            0int
        } else {
            1
        }],
{
}

/// A block's symbols, coefficient by coefficient: an end where nothing follows, zeros one by
/// one and without asking for the end again, and each level with the band of its place and
/// the size of the level before it.
pub proof fn blocks_are_spelled(
    pb: [[[Prob; 11]; 3]; 8],
    levels: Seq<i16>,
    last: int,
    n: int,
    ctx: int,
)
    requires
        0 <= n < 16,
        0 <= ctx < 3,
    ensures
        ({
            let p = pb[seq![0int, 1, 2, 3, 6, 4, 5, 6, 6, 6, 6, 6, 6, 6, 6, 7][n]][ctx];
            let next: int = if levels[n] == 0 {
                0
            } else if magnitude(levels[n] as int) == 1 {
                1
            } else {
                2
            };
            &&& n > last ==> coeff_syms(pb, levels, last, n, ctx) =~= seq![(p[0], false)]
            &&& n <= last ==> coeff_syms(pb, levels, last, n, ctx) =~= seq![(p[0], true)]
                + run_syms(pb, levels, last, n, ctx)
            &&& levels[n] == 0 ==> run_syms(pb, levels, last, n, ctx) =~= seq![(p[1], false)]
                + run_syms(pb, levels, last, n + 1, 0)
            &&& levels[n] != 0 ==> run_syms(pb, levels, last, n, ctx) =~= seq![(p[1], true)]
                + level_syms(p, levels[n] as int) + coeff_syms(pb, levels, last, n + 1, next)
            &&& coeff_syms(pb, levels, last, 16, ctx).len() == 0
        }),
{
    coefficient_order(n);
}

/// The context of a block counts which of the blocks above and to the left have
/// coefficients; at the edges of the macroblock those of the neighbours.
pub proof fn contexts_count_neighbours(
    flags: Seq<bool>,
    top: Seq<bool>,
    left: Seq<bool>,
    x: int,
    y: int,
    c: int,
)
    requires
        0 <= x < 4,
        0 <= y < 4,
        0 <= c < 2,
    ensures
        ({
            let up = if y == 0 {
                top[x]
            } else {
                flags[4 * (y - 1) + x]
            };
            let beside = if x == 0 {
                left[y]
            } else {
                flags[4 * y + x - 1]
            };
            luma_ctx(flags, top, left, 4 * y + x) == (if up {
                1int
            } else {
                0
            }) + (if beside {
                1int
            } else {
                0
            })
        }),
        x < 2 && y < 2 ==> ({
            let up = if y == 0 {
                top[4 + 2 * c + x]
            } else {
                flags[4 * c + x]
            };
            let beside = if x == 0 {
                left[4 + 2 * c + y]
            } else {
                flags[4 * c + 2 * y]
            };
            chroma_ctx(flags, top, left, 4 * c + 2 * y + x) == (if up {
                1int
            } else {
                0
            }) + (if beside {
                1int
            } else {
                0
            })
        }),
{
    assert((4 * y + x) / 4 == y && (4 * y + x) % 4 == x);
    if x < 2 && y < 2 {
        let i = 4 * c + 2 * y + x;
        assert(i / 4 == c && i % 4 == 2 * y + x && i % 2 == x);
    }
}

/// A macroblock hands on the flags of its last row below and of its last column to the
/// right, four of luma and two of either chroma.
pub proof fn flags_are_handed_on(luma: Seq<bool>, chroma: Seq<bool>, i: int, c: int)
    requires
        0 <= i < 4,
        0 <= c < 2,
    ensures
        bottom_flags(luma, chroma)[i] == luma[12 + i],
        right_flags(luma, chroma)[i] == luma[4 * i + 3],
        i < 2 ==> bottom_flags(luma, chroma)[4 + 2 * c + i] == chroma[4 * c + 2 + i],
        i < 2 ==> right_flags(luma, chroma)[4 + 2 * c + i] == chroma[4 * c + 2 * i + 1],
{
    assert(i == 0 || i == 1 || i == 2 || i == 3);
    assert(c == 0 || c == 1);
}

/// A macroblock's modes are spelled one after the other: its segment and whether it is
/// skipped, as far as the frame codes them, whether it is predicted whole, its luma modes
/// and its chroma mode.
pub proof fn macroblock_modes_are_spelled(
    c: ModeCoding,
    m: ModeInfo,
    top: Seq<u8>,
    left: Seq<u8>,
)
    ensures
        ({
            let a = match c.segments {
                Some(p) => segment_syms(p, m.segment),
                None => Seq::<Sym>::empty(),
            };
            let b = match c.skip {
                Some(p) => seq![(p, m.skip)],
                None => Seq::<Sym>::empty(),
            };
            let l = if m.is_i4x4 {
                bmodes_syms(m.imodes, top, left, 16)
            } else {
                ymode16_syms(m.imodes[0])
            };
            mode_syms(c, m, top, left) == a + b + seq![(145u8, !m.is_i4x4)] + l + uvmode_syms(
                m.uvmode,
            )
        }),
{
}

/// A 4x4 mode is spelled with the probabilities of the modes above and to the left of its
/// block, those of the neighbours at the edges of the macroblock.
pub proof fn small_modes_depend_on_neighbours(
    modes: Seq<u8>,
    top: Seq<u8>,
    left: Seq<u8>,
    x: int,
    y: int,
)
    requires
        0 <= x < 4,
        0 <= y < 4,
    ensures
        ({
            let up = if y == 0 {
                top[x]
            } else {
                modes[4 * (y - 1) + x]
            };
            let beside = if x == 0 {
                left[y]
            } else {
                modes[4 * y + x - 1]
            };
            let k = 4 * y + x;
            &&& bmode_prob(modes, top, left, k) == bmodes_proba()[up as int][beside as int]
            &&& bmodes_syms(modes, top, left, k + 1) == bmodes_syms(modes, top, left, k) + bmode_syms(
                bmodes_proba()[up as int][beside as int],
                modes[k],
            )
            &&& bmodes_syms(modes, top, left, 0).len() == 0
        }),
{
    assert((4 * y + x) / 4 == y && (4 * y + x) % 4 == x);
}

/// The second-order block is spread over the sixteen luma blocks: by the transform where it
/// has more than its first coefficient, evenly otherwise.
pub proof fn second_order_is_spread(nz: int, dc: Seq<i16>, k: int)
    requires
        0 <= k < 16,
    ensures
        y2_spread(nz, dc).len() == 384,
        y2_spread(nz, dc)[16 * k] == (if nz > 1 {
            crate::idct::wht_dc(dc, k)
        } else {
            ((dc[0] + 3) / 8) as i16
        }),
        forall|i: int|
            0 <= i < 384 && (i % 16 != 0 || i >= 256) ==> #[trigger] y2_spread(nz, dc)[i] == 0,
{
    assert((16 * k) % 16 == 0 && (16 * k) / 16 == k);
}

/// How much of a block is there: 3 for more than three coefficients, 2 for more than one,
/// else whether the first one is there.
pub proof fn blocks_are_graded(nz: int, dc: bool)
    ensures
        nz > 3 ==> nz_code(nz, dc) == 3,
        1 < nz <= 3 ==> nz_code(nz, dc) == 2,
        nz <= 1 ==> nz_code(nz, dc) == (if dc {
            1int
        } else {
            0
        }),
{
}

} // verus!
