//! Coefficient-probability optimization: which probabilities are worth transmitting.
//!
//! Costs are in 256ths of a bit, read off the fixed entropy table.

use vstd::prelude::*;

use crate::arith::clamp_int;
use crate::coder::Sym;
use crate::constants::{
    coeffs_proba_0, coeffs_update_proba, default_proba, default_probas, entropy_cost, event_cost,
    update_proba, CoeffProbas, CoeffStats, CoeffUpdateFlags,
};
use crate::enc_header::{update_entry, updates_cover};
use crate::header::{lemma_proba_coords, proba_entry};
use crate::tokens::stats_bounded;

verus! {

/// The cost of coding `bit` at probability `prob` of being zero.
pub open spec fn bit_cost_spec(bit: bool, prob: u8) -> int {
    entropy_cost(
        if bit {
            256 - prob
        } else {
            prob as int
        },
    ) as int
}

/// The cost of a symbol sequence.
pub open spec fn syms_cost(s: Seq<Sym>) -> int
    decreases s.len(),
{
    if s.len() == 0 {
        0
    } else {
        syms_cost(s.drop_last()) + bit_cost_spec(s.last().1, s.last().0)
    }
}

/// The cost of a concatenation is the sum of the costs.
pub proof fn lemma_syms_cost_concat(a: Seq<Sym>, b: Seq<Sym>)
    ensures
        syms_cost(a + b) == syms_cost(a) + syms_cost(b),
    decreases b.len(),
{
    if b.len() == 0 {
        assert(a + b =~= a);
    } else {
        assert((a + b).drop_last() =~= a + b.drop_last());
        lemma_syms_cost_concat(a, b.drop_last());
    }
}

/// The cost of one symbol.
pub proof fn lemma_syms_cost_one(sym: Sym)
    ensures
        syms_cost(seq![sym]) == bit_cost_spec(sym.1, sym.0),
{
    let s = seq![sym];
    assert(s.drop_last() =~= Seq::<Sym>::empty());
    reveal_with_fuel(syms_cost, 2);
}

/// A symbol costs at most eight bits.
pub proof fn lemma_syms_cost_bound(s: Seq<Sym>)
    ensures
        0 <= syms_cost(s) <= 2048 * s.len(),
    decreases s.len(),
{
    if s.len() > 0 {
        lemma_syms_cost_bound(s.drop_last());
        let i = if s.last().1 {
            256 - s.last().0
        } else {
            s.last().0 as int
        };
        crate::constants::lemma_entropy_cost_range(i);
    }
}

/// The cost of coding `bit` at probability `prob` of being zero.
pub fn bit_cost(bit: bool, prob: u8) -> (r: u32)
    ensures
        r == bit_cost_spec(bit, prob),
        r <= 2048,
{
    let idx: usize = if bit {
        256 - prob as usize
    } else {
        prob as usize
    };
    event_cost(idx) as u32
}

/// The empirical probability of zero for the given counts, rounded and limited to
/// `1..=255`.
pub open spec fn empirical_prob(c0: int, c1: int) -> u8 {
    let total = c0 + c1;
    clamp_int((256 * c0 + total / 2) / total, 1, 255) as u8
}

/// The cost of coding `c0` zeros and `c1` ones at probability `p`.
pub open spec fn counts_cost(c0: int, c1: int, p: u8) -> int {
    c0 * bit_cost_spec(false, p) + c1 * bit_cost_spec(true, p)
}

/// The decision for one node: the empirical probability is sent exactly when it saves
/// more than the update costs.
pub open spec fn node_choice(c0: int, c1: int, default_p: u8, update_p: u8) -> (u8, bool) {
    let new_p = empirical_prob(c0, c1);
    let sent = counts_cost(c0, c1, new_p) + bit_cost_spec(true, update_p) + 8 * 256;
    let kept = counts_cost(c0, c1, default_p) + bit_cost_spec(false, update_p);
    if c0 + c1 > 0 && sent < kept {
        (new_p, true)
    } else {
        (default_p, false)
    }
}

fn counts_cost_exec(c0: u64, c1: u64, p: u8) -> (r: u64)
    requires
        c0 <= 0x8_0000_0000_0000,
        c1 <= 0x8_0000_0000_0000,
    ensures
        r == counts_cost(c0 as int, c1 as int, p),
        r <= 0x8000_0000_0000_0000,
{
    let a: u64 = bit_cost(false, p) as u64;
    let b: u64 = bit_cost(true, p) as u64;
    assert(0 <= c0 * a <= 0x8_0000_0000_0000 * 2048 && 0 <= c1 * b <= 0x8_0000_0000_0000 * 2048)
        by (nonlinear_arith)
        requires
            0 <= c0 <= 0x8_0000_0000_0000,
            0 <= c1 <= 0x8_0000_0000_0000,
            0 <= a <= 2048,
            0 <= b <= 2048,
    ;
    c0 * a + c1 * b
}

/// Decide one node from its counts: the probability to use and whether to send it.
pub fn optimize_node(c0: u64, c1: u64, default_p: u8, update_p: u8) -> (r: (u8, bool))
    requires
        c0 <= 0x8_0000_0000_0000,
        c1 <= 0x8_0000_0000_0000,
    ensures
        r == node_choice(c0 as int, c1 as int, default_p, update_p),
{
    let total: u64 = c0 + c1;
    if total == 0 {
        return (default_p, false);
    }
    let ratio: u64 = (256 * c0 + total / 2) / total;
    let new_p: u8 = if ratio < 1 {
        1
    } else if ratio > 255 {
        255
    } else {
        ratio as u8
    };
    let cost_default: u64 = counts_cost_exec(c0, c1, default_p);
    let cost_new: u64 = counts_cost_exec(c0, c1, new_p);
    let cost_keep: u64 = bit_cost(false, update_p) as u64;
    let cost_update: u64 = bit_cost(true, update_p) as u64 + 8 * 256;
    if cost_new + cost_update < cost_default + cost_keep {
        (new_p, true)
    } else {
        (default_p, false)
    }
}

/// The decision for entry `k` of a statistics table.
pub open spec fn entry_choice(stats: CoeffStats, k: int) -> (u8, bool) {
    let n = stats[k / 264][(k / 33) % 8][(k / 11) % 3][k % 11];
    node_choice(
        n[0] as int,
        n[1] as int,
        proba_entry(coeffs_proba_0(), k),
        proba_entry(coeffs_update_proba(), k),
    )
}

/// Whether a table and its update flags are the decisions for `stats`.
pub open spec fn optimized(stats: CoeffStats, probas: CoeffProbas, updated: CoeffUpdateFlags) -> bool {
    forall|k: int|
        0 <= k < 1056 ==> (#[trigger] proba_entry(probas, k), update_entry(updated, k))
            == entry_choice(stats, k)
}

/// Decide every node of a statistics table.
pub fn optimize_probas(stats: &CoeffStats) -> (r: (CoeffProbas, CoeffUpdateFlags))
    requires
        stats_bounded(*stats, 0x8_0000_0000_0000),
    ensures
        optimized(*stats, r.0, r.1),
        updates_cover(r.0, r.1),
{
    let mut probas: CoeffProbas = default_probas();
    let mut updated: CoeffUpdateFlags = [[[[false; 11]; 3]; 8]; 4];
    let mut k: usize = 0;
    while k < 1056
        invariant
            k <= 1056,
            stats_bounded(*stats, 0x8_0000_0000_0000),
            forall|j: int|
                0 <= j < k ==> (#[trigger] proba_entry(probas, j), update_entry(updated, j))
                    == entry_choice(*stats, j),
        decreases 1056 - k,
    {
        let t: usize = k / 264;
        let b: usize = (k / 33) % 8;
        let c: usize = (k / 11) % 3;
        let p: usize = k % 11;
        let ghost probas0 = probas;
        let ghost updated0 = updated;
        assert(stats[t as int][b as int][c as int][p as int][0] <= 0x8_0000_0000_0000);
        assert(stats[t as int][b as int][c as int][p as int][1] <= 0x8_0000_0000_0000);
        let (prob, upd) = optimize_node(
            stats[t][b][c][p][0],
            stats[t][b][c][p][1],
            default_proba(t, b, c, p),
            update_proba(t, b, c, p),
        );
        probas[t][b][c][p] = prob;
        updated[t][b][c][p] = upd;
        proof {
            assert forall|j: int| 0 <= j < k + 1 implies (
            #[trigger] proba_entry(probas, j), update_entry(updated, j)) == entry_choice(*stats, j) by {
                lemma_proba_coords(j);
                lemma_proba_coords(k as int);
                if j < k {
                    assert(proba_entry(probas, j) == proba_entry(probas0, j));
                    assert(update_entry(updated, j) == update_entry(updated0, j));
                }
            }
        }
        k = k + 1;
    }
    proof {
        assert forall|j: int| 0 <= j < 1056 implies #[trigger] update_entry(updated, j)
            || proba_entry(probas, j) == proba_entry(coeffs_proba_0(), j) by {
            let e = proba_entry(probas, j);
        }
    }
    (probas, updated)
}

/// Keeping the default never loses: a node's chosen coding, update included, costs no
/// more than the default coding.
pub proof fn node_choice_never_costs_more(c0: int, c1: int, default_p: u8, update_p: u8)
    requires
        0 <= c0,
        0 <= c1,
    ensures
        ({
            let (p, sent) = node_choice(c0, c1, default_p, update_p);
            counts_cost(c0, c1, p) + (if sent {
                bit_cost_spec(true, update_p) + 8 * 256
            } else {
                bit_cost_spec(false, update_p)
            }) <= counts_cost(c0, c1, default_p) + bit_cost_spec(false, update_p)
        }),
{
}

} // verus!
