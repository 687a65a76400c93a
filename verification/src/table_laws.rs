//! The probability tables that a frame is written with can be read back.

use vstd::prelude::*;

use crate::constants::{coeffs_proba_0, coeffs_update_proba, CoeffProbas, CoeffUpdateFlags};
use crate::emit::{
    default_tables, fits_events, kept_tables, node_count, sends_nothing, tables_cover, tables_of,
    tokens_events, SkipCoding,
};
use crate::enc_header::{update_entry, HeaderParams};
use crate::header::proba_entry;
use crate::plan::MbPlan;
use crate::prob_opt::node_choice;
use crate::tokens::NodeEvent;

verus! {

/// Eleven values in an array.
spec fn eleven<T>(f: spec_fn(int) -> T) -> [T; 11] {
    [f(0), f(1), f(2), f(3), f(4), f(5), f(6), f(7), f(8), f(9), f(10)]
}

/// Three values in an array.
spec fn three<T>(f: spec_fn(int) -> T) -> [T; 3] {
    [f(0), f(1), f(2)]
}

/// Eight values in an array.
spec fn eight<T>(f: spec_fn(int) -> T) -> [T; 8] {
    [f(0), f(1), f(2), f(3), f(4), f(5), f(6), f(7)]
}

/// Four values in an array.
spec fn four<T>(f: spec_fn(int) -> T) -> [T; 4] {
    [f(0), f(1), f(2), f(3)]
}

/// The table whose entry `k` is `f(k)`.
#[verifier::opaque]
spec fn table<T>(f: spec_fn(int) -> T) -> [[[[T; 11]; 3]; 8]; 4] {
    four(
        |t: int|
            eight(|b: int| three(|c: int| eleven(|p: int| f(t * 264 + b * 33 + c * 11 + p)))),
    )
}

proof fn lemma_table<T>(f: spec_fn(int) -> T, k: int)
    requires
        0 <= k < 1056,
    ensures
        table(f)[k / 264][(k / 33) % 8][(k / 11) % 3][k % 11] == f(k),
{
    reveal(table);
    let t = k / 264;
    let b = (k / 33) % 8;
    let c = (k / 11) % 3;
    let p = k % 11;
    assert(k == t * 264 + b * 33 + c * 11 + p);
    let by_p = |p: int| f(t * 264 + b * 33 + c * 11 + p);
    let by_c = |c: int| eleven(|p: int| f(t * 264 + b * 33 + c * 11 + p));
    let by_b = |b: int| three(|c: int| eleven(|p: int| f(t * 264 + b * 33 + c * 11 + p)));
    let by_t = |t: int|
        eight(|b: int| three(|c: int| eleven(|p: int| f(t * 264 + b * 33 + c * 11 + p))));
    assert(four(by_t)[t] == by_t(t));
    assert(eight(by_b)[b] == by_b(b));
    assert(three(by_c)[c] == by_c(c));
    assert(eleven(by_p)[p] == by_p(p));
}

/// The choice for entry `k` of the table.
pub open spec fn entry_choice(events: Seq<NodeEvent>, k: int) -> (u8, bool) {
    node_choice(
        node_count(events, k, 0),
        node_count(events, k, 1),
        proba_entry(coeffs_proba_0(), k),
        proba_entry(coeffs_update_proba(), k),
    )
}

/// There is a best table for any decisions, and a reader of its flags arrives at it.
pub proof fn best_table_is_readable(events: Seq<NodeEvent>)
    ensures
        fits_events(events, tables_of(events).0, tables_of(events).1),
        tables_cover(tables_of(events)),
{
    let p = |k: int| entry_choice(events, k).0;
    let u = |k: int| entry_choice(events, k).1;
    let probas: CoeffProbas = table(p);
    let updated: CoeffUpdateFlags = table(u);
    assert forall|k: int| 0 <= k < 1056 implies (#[trigger] proba_entry(probas, k), update_entry(updated, k))
        == entry_choice(events, k) by {
        lemma_table(p, k);
        lemma_table(u, k);
    }
    let t = (probas, updated);
    assert(fits_events(events, t.0, t.1));
    let u = tables_of(events);
    assert(fits_events(events, u.0, u.1));
    assert forall|k: int| 0 <= k < 1056 implies #[trigger] update_entry(u.1, k) || proba_entry(u.0, k)
        == proba_entry(coeffs_proba_0(), k) by {
        assert((proba_entry(u.0, k), update_entry(u.1, k)) == entry_choice(events, k));
    }
}

/// A reader of the flags arrives at whichever table is kept.
pub proof fn kept_tables_are_readable(
    plans: Seq<MbPlan>,
    mb_w: int,
    header: HeaderParams<'_>,
    skip: SkipCoding,
)
    ensures
        tables_cover(default_tables()),
        tables_cover(kept_tables(plans, mb_w, header, skip)),
{
    let none: CoeffUpdateFlags = table(|k: int| false);
    assert forall|k: int| 0 <= k < 1056 implies !#[trigger] update_entry(none, k) by {
        lemma_table(|k: int| false, k);
    }
    assert(sends_nothing(none));
    best_table_is_readable(tokens_events(plans, skip.use_skip, mb_w, plans.len() as int));
}

} // verus!
