//! What each macroblock of a frame sees of its neighbours.

use vstd::prelude::*;

use crate::coder::DecState;
use crate::emit::{
    lemma_next_column, mode_context, modes_syms, nz_context, no_left, residual_syms, tokens_syms,
    Nz,
};
use crate::frame_read::{
    blank_info, lemma_info_range, lemma_modes_prefix, lemma_parts_len, lemma_residuals_prefix,
    modes_read, residual_read, residuals_read, ResidualCoding,
};
use crate::mb::{column, mode_read, mode_syms, modes_below, modes_right, set_column, ModeCoding, ModeInfo};
use crate::plan::MbPlan;
use crate::tokens::{bottom_flags, flags_word, mb_chroma_flags, mb_luma_flags, right_flags};

verus! {

/// The modes of the 4x4 blocks along the lower edge of a macroblock: the last four of
/// sixteen, or the whole block's mode four times.
pub open spec fn lower(m: ModeInfo, i: int) -> u8 {
    if m.is_i4x4 {
        m.imodes[12 + i]
    } else {
        m.imodes[0]
    }
}

/// The modes of the 4x4 blocks along the right edge of a macroblock.
pub open spec fn right(m: ModeInfo, j: int) -> u8 {
    if m.is_i4x4 {
        m.imodes[4 * j + 3]
    } else {
        m.imodes[0]
    }
}

proof fn lemma_edges_of_modes(m: ModeInfo, i: int)
    requires
        m.imodes.len() == 16,
        0 <= i < 4,
    ensures
        modes_below(m)[i] == lower(m, i),
        modes_right(m)[i] == right(m, i),
        modes_below(m).len() == 4,
        modes_right(m).len() == 4,
{
    assert(i == 0 || i == 1 || i == 2 || i == 3);
}

/// Setting one column leaves the others.
proof fn lemma_column(s: Seq<u8>, mb_w: int, x: int, y: int, four: Seq<u8>)
    requires
        s.len() == 4 * mb_w,
        0 <= x < mb_w,
        0 <= y < mb_w,
        four.len() == 4,
    ensures
        set_column(s, x, four).len() == s.len(),
        column(set_column(s, x, four), y) == (if x == y {
            four
        } else {
            column(s, y)
        }),
{
    let c = column(set_column(s, x, four), y);
    if x == y {
        assert(c =~= four);
    } else {
        assert(c =~= column(s, y));
    }
}

/// The position of a macroblock in the row below or beside.
proof fn lemma_next(mb_w: int, k: int)
    requires
        1 <= mb_w,
        0 <= k,
    ensures
        0 <= k % mb_w < mb_w,
        k % mb_w == mb_w - 1 <==> (k + 1) % mb_w == 0,
        k % mb_w != mb_w - 1 ==> (k + 1) % mb_w == k % mb_w + 1,
{
    assert(0 <= k % mb_w < mb_w) by (nonlinear_arith)
        requires
            1 <= mb_w,
    ;
    lemma_next_column(k, mb_w);
    let y = k / mb_w;
    vstd::arithmetic::div_mod::lemma_fundamental_div_mod(k, mb_w);
    if k % mb_w == mb_w - 1 {
        assert(k + 1 == (y + 1) * mb_w + 0) by (nonlinear_arith)
            requires
                k == mb_w * y + (mb_w - 1),
        ;
        vstd::arithmetic::div_mod::lemma_fundamental_div_mod_converse(k + 1, mb_w, y + 1, 0);
    } else {
        assert(k + 1 == y * mb_w + (k % mb_w + 1)) by (nonlinear_arith)
            requires
                k == mb_w * y + k % mb_w,
        ;
        vstd::arithmetic::div_mod::lemma_fundamental_div_mod_converse(
            k + 1,
            mb_w,
            y,
            k % mb_w + 1,
        );
    }
}

/// The column of the macroblock `j` places back.
proof fn lemma_same_column(mb_w: int, k: int, j: int)
    requires
        1 <= mb_w,
        0 <= k,
        1 <= j <= mb_w,
        j <= k,
    ensures
        (k - j) % mb_w == k % mb_w <==> j == mb_w,
{
    let a = k % mb_w;
    let y = k / mb_w;
    vstd::arithmetic::div_mod::lemma_fundamental_div_mod(k, mb_w);
    assert(0 <= a < mb_w) by (nonlinear_arith)
        requires
            a == k % mb_w,
            1 <= mb_w,
    ;
    if j <= a {
        assert(k - j == y * mb_w + (a - j)) by (nonlinear_arith)
            requires
                k == mb_w * y + a,
        ;
        vstd::arithmetic::div_mod::lemma_fundamental_div_mod_converse(k - j, mb_w, y, a - j);
    } else {
        assert(k - j == (y - 1) * mb_w + (a - j + mb_w)) by (nonlinear_arith)
            requires
                k == mb_w * y + a,
        ;
        vstd::arithmetic::div_mod::lemma_fundamental_div_mod_converse(
            k - j,
            mb_w,
            y - 1,
            a - j + mb_w,
        );
    }
}

/// What the mode contexts hold after `k` macroblocks: in each column the lower modes of the
/// last macroblock there.
proof fn lemma_mode_context(infos: Seq<ModeInfo>, mb_w: int, k: int, j: int)
    requires
        1 <= mb_w,
        0 <= k <= infos.len(),
        1 <= j <= mb_w,
        forall|i: int| 0 <= i < infos.len() ==> (#[trigger] infos[i]).imodes.len() == 16,
    ensures
        mode_context(infos, mb_w, k).top.len() == 4 * mb_w,
        j <= k ==> column(mode_context(infos, mb_w, k).top, (k - j) % mb_w) == modes_below(
            infos[k - j],
        ),
        forall|x: int|
            k <= x < mb_w ==> #[trigger] column(mode_context(infos, mb_w, k).top, x) == no_left(),
    decreases k,
{
    if k > 0 {
        let c = mode_context(infos, mb_w, k - 1);
        let x = (k - 1) % mb_w;
        lemma_next(mb_w, k - 1);
        lemma_edges_of_modes(infos[k - 1], 0);
        lemma_mode_context(infos, mb_w, k - 1, if j > 1 {
            j - 1
        } else {
            1
        });
        if j <= k {
            if j == 1 {
                lemma_column(c.top, mb_w, x, x, modes_below(infos[k - 1]));
            } else {
                lemma_next(mb_w, k - j);
                lemma_same_column(mb_w, k - 1, j - 1);
                assert((k - 1) - (j - 1) == k - j);
                lemma_column(c.top, mb_w, x, (k - j) % mb_w, modes_below(infos[k - 1]));
            }
        }
        assert forall|y: int| k <= y < mb_w implies #[trigger] column(
            mode_context(infos, mb_w, k).top,
            y,
        ) == no_left() by {
            assert(x == k - 1) by (nonlinear_arith)
                requires
                    x == (k - 1) % mb_w,
                    0 <= k - 1 < mb_w,
            ;
            lemma_column(c.top, mb_w, x, y, modes_below(infos[k - 1]));
            assert(column(c.top, y) == no_left());
        }
    } else {
        assert forall|x: int| 0 <= x < mb_w implies #[trigger] column(
            mode_context(infos, mb_w, k).top,
            x,
        ) == no_left() by {
            assert(column(mode_context(infos, mb_w, k).top, x) =~= no_left());
        }
    }
}

/// A macroblock's modes are written with the lower modes of the macroblock above and the
/// right modes of the one to the left; outside the frame with mode zero.
pub proof fn modes_are_written_beside_their_neighbours(
    c: ModeCoding,
    infos: Seq<ModeInfo>,
    mb_w: int,
    k: int,
)
    requires
        1 <= mb_w,
        0 <= k < infos.len(),
        forall|i: int| 0 <= i < infos.len() ==> (#[trigger] infos[i]).imodes.len() == 16,
    ensures
        ({
            let top = Seq::new(
                4,
                |i: int|
                    if k < mb_w {
                        0u8
                    } else {
                        lower(infos[k - mb_w], i)
                    },
            );
            let left = Seq::new(
                4,
                |i: int|
                    if k % mb_w == 0 {
                        0u8
                    } else {
                        right(infos[k - 1], i)
                    },
            );
            modes_syms(c, infos, mb_w, k + 1) == modes_syms(c, infos, mb_w, k) + mode_syms(
                c,
                infos[k],
                top,
                left,
            )
        }),
{
    let ctx = mode_context(infos, mb_w, k);
    lemma_mode_context(infos, mb_w, k, mb_w);
    lemma_next(mb_w, k);
    let top = Seq::new(
        4,
        |i: int|
            if k < mb_w {
                0u8
            } else {
                lower(infos[k - mb_w], i)
            },
    );
    let left = Seq::new(
        4,
        |i: int|
            if k % mb_w == 0 {
                0u8
            } else {
                right(infos[k - 1], i)
            },
    );
    let x = k % mb_w;
    if k < mb_w {
        assert(x == k) by (nonlinear_arith)
            requires
                x == k % mb_w,
                0 <= k < mb_w,
        ;
        assert(column(ctx.top, x) =~= top);
    } else {
        lemma_same_column(mb_w, k, mb_w);
        assert forall|i: int| 0 <= i < 4 implies modes_below(infos[k - mb_w])[i] == top[i] by {
            lemma_edges_of_modes(infos[k - mb_w], i);
        }
        lemma_edges_of_modes(infos[k - mb_w], 0);
        assert(column(ctx.top, x) =~= top);
    }
    if k == 0 {
        assert(ctx.left =~= left);
    } else if k % mb_w == 0 {
        assert(ctx.left =~= left);
    } else {
        assert forall|i: int| 0 <= i < 4 implies modes_right(infos[k - 1])[i] == left[i] by {
            lemma_edges_of_modes(infos[k - 1], i);
        }
        lemma_edges_of_modes(infos[k - 1], 0);
        assert(ctx.left =~= left);
    }
}

/// What a macroblock hands down: the flags of its lower blocks, none where it is skipped.
pub open spec fn handed_down(p: MbPlan, use_skip: bool) -> u32 {
    if use_skip && p.skippable {
        0
    } else {
        flags_word(bottom_flags(mb_luma_flags(p.tokens), mb_chroma_flags(p.tokens)))
    }
}

/// What a macroblock hands on to the right.
pub open spec fn handed_right(p: MbPlan, use_skip: bool) -> u32 {
    if use_skip && p.skippable {
        0
    } else {
        flags_word(right_flags(mb_luma_flags(p.tokens), mb_chroma_flags(p.tokens)))
    }
}

/// What a macroblock hands down and on of second-order flags, `old` where it has none of its
/// own.
pub open spec fn handed_dc(p: MbPlan, use_skip: bool, old: u32) -> u32 {
    if use_skip && p.skippable {
        0
    } else if p.tokens.is_i4x4 {
        old
    } else if p.tokens.y2.last >= 0 {
        1
    } else {
        0
    }
}

proof fn lemma_nz_context(plans: Seq<MbPlan>, use_skip: bool, mb_w: int, k: int, j: int)
    requires
        1 <= mb_w,
        0 <= k <= plans.len(),
        1 <= j <= mb_w,
    ensures
        ({
            let s = nz_context(plans, use_skip, mb_w, k);
            &&& s.top.len() == mb_w
            &&& s.top_dc.len() == mb_w
            &&& j <= k ==> s.top[(k - j) % mb_w] == handed_down(plans[k - j], use_skip)
            &&& j <= k ==> s.top_dc[(k - j) % mb_w] == handed_dc(
                plans[k - j],
                use_skip,
                nz_context(plans, use_skip, mb_w, k - j).top_dc[(k - j) % mb_w],
            )
            &&& forall|x: int| k <= x < mb_w ==> #[trigger] s.top[x] == 0
            &&& forall|x: int| k <= x < mb_w ==> #[trigger] s.top_dc[x] == 0
        }),
    decreases k,
{
    if k > 0 {
        let x = (k - 1) % mb_w;
        lemma_next(mb_w, k - 1);
        lemma_nz_context(plans, use_skip, mb_w, k - 1, if j > 1 {
            j - 1
        } else {
            1
        });
        if j <= k && j > 1 {
            lemma_next(mb_w, k - j);
            lemma_same_column(mb_w, k - 1, j - 1);
            assert((k - 1) - (j - 1) == k - j);
        }
        if k <= mb_w {
            assert(x == k - 1) by (nonlinear_arith)
                requires
                    x == (k - 1) % mb_w,
                    0 <= k - 1 < mb_w,
            ;
        }
    }
}

/// A macroblock's levels are written with what the macroblocks above and to the left have
/// handed on, nothing from outside the frame.
pub proof fn levels_are_written_beside_their_neighbours(
    plans: Seq<MbPlan>,
    use_skip: bool,
    mb_w: int,
    k: int,
)
    requires
        1 <= mb_w,
        0 <= k < plans.len(),
    ensures
        ({
            let s = nz_context(plans, use_skip, mb_w, k);
            let x = k % mb_w;
            &&& s.top[x] == (if k < mb_w {
                0
            } else {
                handed_down(plans[k - mb_w], use_skip)
            })
            &&& s.left == (if x == 0 {
                0
            } else {
                handed_right(plans[k - 1], use_skip)
            })
            &&& s.top_dc[x] == (if k < mb_w {
                0
            } else {
                handed_dc(
                    plans[k - mb_w],
                    use_skip,
                    nz_context(plans, use_skip, mb_w, k - mb_w).top_dc[x],
                )
            })
            &&& s.left_dc == (if x == 0 {
                0
            } else {
                handed_dc(plans[k - 1], use_skip, nz_context(plans, use_skip, mb_w, k - 1).left_dc)
            })
        }),
        forall|bands: crate::constants::CoeffProbas| #[trigger]
            tokens_syms(bands, plans, use_skip, mb_w, k + 1) == tokens_syms(
                bands,
                plans,
                use_skip,
                mb_w,
                k,
            ) + residual_syms(
                bands,
                plans[k],
                use_skip,
                nz_context(plans, use_skip, mb_w, k),
                k % mb_w,
            ),
{
    lemma_nz_context(plans, use_skip, mb_w, k, mb_w);
    lemma_next(mb_w, k);
    let x = k % mb_w;
    if k < mb_w {
        assert(x == k) by (nonlinear_arith)
            requires
                x == k % mb_w,
                0 <= k < mb_w,
        ;
    } else {
        lemma_same_column(mb_w, k, mb_w);
    }
    if k > 0 {
        lemma_next(mb_w, k - 1);
    }
}

/// What the mode contexts hold after `k` macroblocks are read.
proof fn lemma_read_modes(c: ModeCoding, d: DecState, mb_w: int, k: int, j: int)
    requires
        1 <= mb_w,
        0 <= k,
        1 <= j <= mb_w,
    ensures
        ({
            let r = modes_read(c, d, mb_w, k);
            &&& r.infos.len() == k
            &&& r.top.len() == 4 * mb_w
            &&& j <= k ==> column(r.top, (k - j) % mb_w) == modes_below(r.infos[k - j])
            &&& forall|x: int| k <= x < mb_w ==> #[trigger] column(r.top, x) == no_left()
            &&& r.left == (if k % mb_w == 0 {
                no_left()
            } else {
                modes_right(r.infos[k - 1])
            })
        }),
    decreases k,
{
    if k > 0 {
        let r = modes_read(c, d, mb_w, k - 1);
        let x = (k - 1) % mb_w;
        lemma_next(mb_w, k - 1);
        lemma_read_modes(c, d, mb_w, k - 1, if j > 1 {
            j - 1
        } else {
            1
        });
        let info = modes_read(c, d, mb_w, k).infos[k - 1];
        lemma_info_range(c, d, mb_w, k, k - 1);
        lemma_edges_of_modes(info, 0);
        if j <= k {
            if j == 1 {
                lemma_column(r.top, mb_w, x, x, modes_below(info));
            } else {
                lemma_next(mb_w, k - j);
                lemma_same_column(mb_w, k - 1, j - 1);
                assert((k - 1) - (j - 1) == k - j);
                lemma_column(r.top, mb_w, x, (k - j) % mb_w, modes_below(info));
            }
        }
        assert forall|y: int| k <= y < mb_w implies #[trigger] column(
            modes_read(c, d, mb_w, k).top,
            y,
        ) == no_left() by {
            assert(x == k - 1) by (nonlinear_arith)
                requires
                    x == (k - 1) % mb_w,
                    0 <= k - 1 < mb_w,
            ;
            lemma_column(r.top, mb_w, x, y, modes_below(info));
            assert(column(r.top, y) == no_left());
        }
    } else {
        assert(0int % mb_w == 0) by (nonlinear_arith)
            requires
                1 <= mb_w,
        ;
        assert forall|x: int| 0 <= x < mb_w implies #[trigger] column(
            modes_read(c, d, mb_w, k).top,
            x,
        ) == no_left() by {
            assert(column(modes_read(c, d, mb_w, k).top, x) =~= no_left());
        }
    }
}

/// A macroblock's modes are read with the lower modes of the macroblock above and the right
/// modes of the one to the left, mode zero outside the frame, where the one before ended;
/// what is not coded stays as in the macroblock above.
pub proof fn modes_are_read_beside_their_neighbours(
    c: ModeCoding,
    d: DecState,
    mb_w: int,
    n: int,
    k: int,
)
    requires
        1 <= mb_w,
        0 <= k < n,
    ensures
        ({
            let infos = modes_read(c, d, mb_w, n).infos;
            let top = Seq::new(
                4,
                |i: int|
                    if k < mb_w {
                        0u8
                    } else {
                        lower(infos[k - mb_w], i)
                    },
            );
            let left = Seq::new(
                4,
                |i: int|
                    if k % mb_w == 0 {
                        0u8
                    } else {
                        right(infos[k - 1], i)
                    },
            );
            let prev = if k < mb_w {
                blank_info()
            } else {
                infos[k - mb_w]
            };
            let (info, end) = mode_read(modes_read(c, d, mb_w, k).d, c, prev, top, left);
            &&& infos[k] == info
            &&& modes_read(c, d, mb_w, k + 1).d == end
            &&& modes_read(c, d, mb_w, 0).d == d
        }),
{
    let infos = modes_read(c, d, mb_w, n).infos;
    let r = modes_read(c, d, mb_w, k);
    lemma_modes_prefix(c, d, mb_w, k, n);
    lemma_modes_prefix(c, d, mb_w, k + 1, n);
    lemma_read_modes(c, d, mb_w, k, mb_w);
    lemma_next(mb_w, k);
    let top = Seq::new(
        4,
        |i: int|
            if k < mb_w {
                0u8
            } else {
                lower(infos[k - mb_w], i)
            },
    );
    let left = Seq::new(
        4,
        |i: int|
            if k % mb_w == 0 {
                0u8
            } else {
                right(infos[k - 1], i)
            },
    );
    let x = k % mb_w;
    if k < mb_w {
        assert(x == k) by (nonlinear_arith)
            requires
                x == k % mb_w,
                0 <= k < mb_w,
        ;
        assert(column(r.top, x) =~= top);
    } else {
        lemma_same_column(mb_w, k, mb_w);
        assert(r.infos[k - mb_w] == infos[k - mb_w]);
        lemma_info_range(c, d, mb_w, n, k - mb_w);
        assert forall|i: int| 0 <= i < 4 implies modes_below(infos[k - mb_w])[i] == top[i] by {
            lemma_edges_of_modes(infos[k - mb_w], i);
        }
        lemma_edges_of_modes(infos[k - mb_w], 0);
        assert(column(r.top, x) =~= top);
    }
    if k % mb_w == 0 {
        assert(r.left =~= left);
    } else {
        assert(r.infos[k - 1] == infos[k - 1]);
        lemma_info_range(c, d, mb_w, n, k - 1);
        assert forall|i: int| 0 <= i < 4 implies modes_right(infos[k - 1])[i] == left[i] by {
            lemma_edges_of_modes(infos[k - 1], i);
        }
        lemma_edges_of_modes(infos[k - 1], 0);
        assert(r.left =~= left);
    }
    assert(modes_read(c, d, mb_w, k + 1).infos[k] == infos[k]);
}

/// What reading macroblock `k` yields.
pub open spec fn reading(
    c: ResidualCoding,
    infos: Seq<ModeInfo>,
    parts: Seq<DecState>,
    k: int,
) -> (crate::frame_read::Residual, Nz, DecState) {
    let r = residuals_read(c, infos, parts, k);
    residual_read(c, infos[k], r.nz, k % c.mb_w, r.parts[(k / c.mb_w) % c.count])
}

proof fn lemma_read_residuals(
    c: ResidualCoding,
    infos: Seq<ModeInfo>,
    parts: Seq<DecState>,
    k: int,
    j: int,
)
    requires
        1 <= c.mb_w,
        0 <= k,
        1 <= j <= c.mb_w,
    ensures
        ({
            let r = residuals_read(c, infos, parts, k);
            &&& r.nz.top.len() == c.mb_w
            &&& r.nz.top_dc.len() == c.mb_w
            &&& j <= k ==> r.nz.top[(k - j) % c.mb_w] == reading(c, infos, parts, k - j).1.top[(k - j)
                % c.mb_w]
            &&& j <= k ==> r.nz.top_dc[(k - j) % c.mb_w] == reading(
                c,
                infos,
                parts,
                k - j,
            ).1.top_dc[(k - j) % c.mb_w]
            &&& forall|x: int| k <= x < c.mb_w ==> #[trigger] r.nz.top[x] == 0
            &&& forall|x: int| k <= x < c.mb_w ==> #[trigger] r.nz.top_dc[x] == 0
            &&& k % c.mb_w == 0 ==> r.nz.left == 0 && r.nz.left_dc == 0
            &&& k % c.mb_w != 0 ==> r.nz.left == reading(c, infos, parts, k - 1).1.left
                && r.nz.left_dc == reading(c, infos, parts, k - 1).1.left_dc
        }),
    decreases k,
{
    let mb_w = c.mb_w;
    if k > 0 {
        let x = (k - 1) % mb_w;
        lemma_next(mb_w, k - 1);
        lemma_read_residuals(c, infos, parts, k - 1, if j > 1 {
            j - 1
        } else {
            1
        });
        if j <= k && j > 1 {
            lemma_next(mb_w, k - j);
            lemma_same_column(mb_w, k - 1, j - 1);
            assert((k - 1) - (j - 1) == k - j);
        }
        if k <= mb_w {
            assert(x == k - 1) by (nonlinear_arith)
                requires
                    x == (k - 1) % mb_w,
                    0 <= k - 1 < mb_w,
            ;
        }
    }
}

/// A macroblock's levels are read with what the macroblocks above and to the left have
/// handed on, nothing from outside the frame.
#[verifier::rlimit(60)]
pub proof fn levels_are_read_beside_their_neighbours(
    c: ResidualCoding,
    infos: Seq<ModeInfo>,
    parts: Seq<DecState>,
    k: int,
)
    requires
        1 <= c.mb_w,
        0 <= k,
    ensures
        ({
            let nz = residuals_read(c, infos, parts, k).nz;
            let x = k % c.mb_w;
            &&& nz.top[x] == (if k < c.mb_w {
                0
            } else {
                reading(c, infos, parts, k - c.mb_w).1.top[x]
            })
            &&& nz.top_dc[x] == (if k < c.mb_w {
                0
            } else {
                reading(c, infos, parts, k - c.mb_w).1.top_dc[x]
            })
            &&& nz.left == (if x == 0 {
                0
            } else {
                reading(c, infos, parts, k - 1).1.left
            })
            &&& nz.left_dc == (if x == 0 {
                0
            } else {
                reading(c, infos, parts, k - 1).1.left_dc
            })
        }),
{
    let mb_w = c.mb_w;
    lemma_read_residuals(c, infos, parts, k, mb_w);
    lemma_next(mb_w, k);
    let x = k % mb_w;
    if k < mb_w {
        assert(x == k) by (nonlinear_arith)
            requires
                x == k % mb_w,
                0 <= k < mb_w,
        ;
    } else {
        lemma_same_column(mb_w, k, mb_w);
        assert((k - mb_w) % mb_w == x);
    }
}

/// The rows of macroblocks take turns over the partitions: row `y` is read from partition
/// `y % count`, where the macroblock before it in that partition ended.
#[verifier::rlimit(60)]
pub proof fn rows_take_turns_over_partitions(
    c: ResidualCoding,
    infos: Seq<ModeInfo>,
    parts: Seq<DecState>,
    n: int,
    k: int,
    p: int,
)
    requires
        1 <= c.mb_w,
        1 <= c.count,
        c.count == parts.len(),
        0 <= k < n,
        0 <= p < c.count,
    ensures
        residuals_read(c, infos, parts, n).blocks[k] == reading(c, infos, parts, k).0,
        residuals_read(c, infos, parts, 0).parts == parts,
        residuals_read(c, infos, parts, k + 1).parts[p] == (if p == (k / c.mb_w) % c.count {
            reading(c, infos, parts, k).2
        } else {
            residuals_read(c, infos, parts, k).parts[p]
        }),
{
    lemma_residuals_prefix(c, infos, parts, k + 1, n);
    lemma_residuals_prefix(c, infos, parts, k, k);
    lemma_parts_len(c, infos, parts, k);
    let row = k / c.mb_w;
    assert(0 <= row % c.count < c.count) by (nonlinear_arith)
        requires
            1 <= c.count,
    ;
    assert(residuals_read(c, infos, parts, k + 1).blocks[k] == reading(c, infos, parts, k).0);
}

/// A skipped macroblock has no coefficients and hands on empty flags, but for the
/// second-order one where it is predicted in 4x4 blocks.
pub proof fn skipped_macroblocks_are_empty(
    c: ResidualCoding,
    info: ModeInfo,
    s: Nz,
    x: int,
    d: DecState,
)
    requires
        info.skip,
        0 <= x < s.top.len(),
        s.top.len() == s.top_dc.len(),
    ensures
        ({
            let (b, nz, end) = residual_read(c, info, s, x, d);
            &&& end == d
            &&& b.coeffs.len() == 384
            &&& forall|i: int| 0 <= i < 384 ==> #[trigger] b.coeffs[i] == 0
            &&& b.code_y == 0 && b.code_uv == 0
            &&& nz.top[x] == 0 && nz.left == 0
            &&& nz.top_dc[x] == (if info.is_i4x4 {
                s.top_dc[x]
            } else {
                0
            })
            &&& nz.left_dc == (if info.is_i4x4 {
                s.left_dc
            } else {
                0
            })
        }),
{
}

} // verus!
