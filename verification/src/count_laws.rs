//! Counting token decisions.

use vstd::prelude::*;

use crate::constants::CoeffStats;
use crate::tokens::{
    chroma_events, coeff_events, lemma_occurrences_bound, lemma_occurrences_concat, luma_events,
    luma_first, luma_type, mb_events, occurrences, stats_counted, Block, MbTokens, NodeEvent,
    NzContext,
};

verus! {

/// A block decides nothing at the nodes of the large-value tree.
proof fn lemma_block_nodes(
    plane: int,
    levels: Seq<i16>,
    last: int,
    n: int,
    ctx: int,
    zero_run: bool,
    key: NodeEvent,
)
    requires
        key.3 >= 3,
    ensures
        occurrences(coeff_events(plane, levels, last, n, ctx, zero_run), key) == 0,
    decreases 16 - n,
{
    if n < 16 {
        let e = coeff_events(plane, levels, last, n, ctx, zero_run);
        let band = crate::constants::BANDS[n] as int;
        if !zero_run && n > last {
            lemma_few(e, key);
        } else {
            let head = if zero_run {
                Seq::<NodeEvent>::empty()
            } else {
                seq![(plane, band, ctx, 0int, 1int)]
            };
            lemma_few(head, key);
            let next = crate::tokens::next_ctx(levels[n] as int);
            if levels[n] == 0 {
                let mid: Seq<NodeEvent> = seq![(plane, band, ctx, 1int, 0int)];
                let rest = coeff_events(plane, levels, last, n + 1, 0, true);
                lemma_block_nodes(plane, levels, last, n + 1, 0, true, key);
                lemma_few(mid, key);
                lemma_occurrences_concat(mid, rest, key);
                lemma_occurrences_concat(head, mid + rest, key);
            } else {
                let two = if crate::arith::abs_int(levels[n] as int) == 1 {
                    0int
                } else {
                    1int
                };
                let mid: Seq<NodeEvent> = seq![
                    (plane, band, ctx, 1int, 1int),
                    (plane, band, ctx, 2int, two),
                ];
                let rest = coeff_events(plane, levels, last, n + 1, next, false);
                lemma_block_nodes(plane, levels, last, n + 1, next, false, key);
                lemma_few(mid, key);
                lemma_occurrences_concat(mid, rest, key);
                lemma_occurrences_concat(head, mid + rest, key);
            }
        }
    }
}

/// Events at other nodes are not occurrences of `key`.
proof fn lemma_few(e: Seq<NodeEvent>, key: NodeEvent)
    requires
        forall|i: int| 0 <= i < e.len() ==> #[trigger] e[i] != key,
    ensures
        occurrences(e, key) == 0,
    decreases e.len(),
{
    if e.len() > 0 {
        lemma_few(e.drop_last(), key);
        assert(e[e.len() - 1] != key);
    }
}

proof fn lemma_luma_nodes(
    plane: int,
    blocks: Seq<Block>,
    first: int,
    top: Seq<bool>,
    left: Seq<bool>,
    k: int,
    key: NodeEvent,
)
    requires
        key.3 >= 3,
    ensures
        occurrences(luma_events(plane, blocks, first, top, left, k), key) == 0,
    decreases k,
{
    if k > 0 {
        lemma_luma_nodes(plane, blocks, first, top, left, k - 1, key);
        let ctx = crate::tokens::luma_ctx(
            crate::tokens::block_flags(blocks, first),
            top,
            left,
            k - 1,
        );
        let b = blocks[k - 1];
        lemma_block_nodes(plane, b.levels@, b.last as int, first, ctx, false, key);
        lemma_occurrences_concat(
            luma_events(plane, blocks, first, top, left, k - 1),
            coeff_events(plane, b.levels@, b.last as int, first, ctx, false),
            key,
        );
    }
}

proof fn lemma_chroma_nodes(
    blocks: Seq<Block>,
    top: Seq<bool>,
    left: Seq<bool>,
    k: int,
    key: NodeEvent,
)
    requires
        key.3 >= 3,
    ensures
        occurrences(chroma_events(blocks, top, left, k), key) == 0,
    decreases k,
{
    if k > 0 {
        lemma_chroma_nodes(blocks, top, left, k - 1, key);
        let ctx = crate::tokens::chroma_ctx(
            crate::tokens::block_flags(blocks, 0),
            top,
            left,
            k - 1,
        );
        let b = blocks[k - 1];
        lemma_block_nodes(2, b.levels@, b.last as int, 0, ctx, false, key);
        lemma_occurrences_concat(
            chroma_events(blocks, top, left, k - 1),
            coeff_events(2, b.levels@, b.last as int, 0, ctx, false),
            key,
        );
    }
}

/// Counting a macroblock lowers no counter, and leaves those of the large-value tree
/// (nodes three and above) as they were.
pub proof fn counting_keeps_large_nodes(
    before: CoeffStats,
    after: CoeffStats,
    mb: MbTokens,
    top: Seq<bool>,
    left: Seq<bool>,
    dc_ctx: int,
    key: NodeEvent,
)
    requires
        stats_counted(before, after, mb_events(mb, top, left, dc_ctx)),
        0 <= key.0 < 4,
        0 <= key.1 < 8,
        0 <= key.2 < 3,
        0 <= key.3 < 11,
        0 <= key.4 < 2,
    ensures
        after[key.0][key.1][key.2][key.3][key.4] >= before[key.0][key.1][key.2][key.3][key.4],
        key.3 >= 3 ==> after[key.0][key.1][key.2][key.3][key.4]
            == before[key.0][key.1][key.2][key.3][key.4],
{
    let e = mb_events(mb, top, left, dc_ctx);
    lemma_occurrences_bound(e, key);
    assert(after[key.0][key.1][key.2][key.3][key.4] == before[key.0][key.1][key.2][key.3][key.4]
        + occurrences(e, (key.0, key.1, key.2, key.3, key.4)));
    assert((key.0, key.1, key.2, key.3, key.4) == key);
    if key.3 >= 3 {
        let y2 = if mb.is_i4x4 {
            Seq::<NodeEvent>::empty()
        } else {
            coeff_events(1, mb.y2.levels@, mb.y2.last as int, 0, dc_ctx, false)
        };
        let plane = luma_type(mb.is_i4x4);
        let first = luma_first(mb.is_i4x4);
        let luma = luma_events(plane, mb.luma@, first, top, left, 16);
        let chroma = chroma_events(mb.chroma@, top, left, 8);
        if !mb.is_i4x4 {
            lemma_block_nodes(1, mb.y2.levels@, mb.y2.last as int, 0, dc_ctx, false, key);
        }
        lemma_luma_nodes(plane, mb.luma@, first, top, left, 16, key);
        lemma_chroma_nodes(mb.chroma@, top, left, 8, key);
        lemma_occurrences_concat(y2, luma, key);
        lemma_occurrences_concat(y2 + luma, chroma, key);
    }
}

/// Counting and emitting a macroblock roll equal contexts alike.
pub proof fn counting_rolls_the_context_like_emitting(
    a: NzContext,
    b: NzContext,
    a_next: NzContext,
    b_next: NzContext,
    mb: MbTokens,
    mb_x: int,
)
    requires
        a.top@ == b.top@,
        a.top_dc@ == b.top_dc@,
        a.left == b.left,
        a.left_dc == b.left_dc,
        a.after_mb(&a_next, mb, mb_x),
        b.after_mb(&b_next, mb, mb_x),
    ensures
        a_next.top@ == b_next.top@,
        a_next.top_dc@ == b_next.top_dc@,
        a_next.left == b_next.left,
        a_next.left_dc == b_next.left_dc,
{
}

} // verus!
