use webpkit::prob_opt::{optimize_node, optimize_probas};
use webpkit::constants::{
    COEFFS_PROBA_0, CoeffStats, NUM_BANDS, NUM_CTX, NUM_PROBAS, NUM_TYPES,
};

// The exact-value tests below pin `optimize_node`'s integer arithmetic. The
// constants are derived by hand from `ENTROPY_COST`: bit_cost(bit, p) reads
// ENTROPY_COST[if bit { 256 - p } else { p }], and E[128]=256, E[192]=106,
// E[64]=512, E[194]=102, E[62]=524, E[250]=9, E[255]=1.

#[test]
fn optimize_node_pins_rounded_probability_and_update() {
    // 3000 zeros / 1000 ones. Empirical prob of bit0 rounds to
    //   ((3000 << 8) + 4000/2) / 4000 = 770000 / 4000 = 192.
    // Against a 50/50 default (128) the saving clears the update overhead, so
    // the optimizer transmits exactly 192. This pins the whole ratio
    // expression (`<< 8`, `+ total/2`, `/ total`) and the cost_default terms.
    assert_eq!(optimize_node(3000, 1000, 128, 128), (192, true));
}

#[test]
fn optimize_node_keeps_default_until_saving_beats_overhead() {
    assert_eq!(optimize_node(1000, 1000, 128, 128), (128, false));
}

#[test]
fn optimize_node_update_boundary_is_strict() {
    // A hand-tuned exact tie: 256 zeros (new_p clamps to 255) against default
    // 250 with update_proba 128 gives
    //   cost_new + cost_update = 256*1 + (256 + 2048) = 2560
    //   cost_default + cost_keep = 256*9 + 256          = 2560.
    // The decision is strictly `<`, so an equal cost must KEEP the default
    // (250, false); relaxing the comparison to `<=` would transmit (255, true).
    assert_eq!(optimize_node(256, 0, 250, 128), (250, false));
}

#[test]
fn all_zero_stats_keep_every_default() {
    // With no observed tokens every node must fall back to the defaults and
    // transmit no update.
    let stats = Box::<CoeffStats>::default();
    let (probas, updated) = optimize_probas(&stats);
    assert_eq!(probas, COEFFS_PROBA_0, "empty stats must keep the defaults");
    for plane in &updated {
        for band in plane {
            for ctx in band {
                for &u in ctx {
                    assert!(!u, "no node may be updated on empty stats");
                }
            }
        }
    }
}

#[test]
fn a_skewed_node_is_updated_toward_its_empirical_probability() {
    // One node overwhelmingly codes bit == 0: its probability of a zero should
    // optimize near 255 and be worth transmitting; every other node is left at
    // its default and unflagged.
    let mut stats = Box::<CoeffStats>::default();
    stats[0][1][0][0] = [10_000, 5];
    let (probas, updated) = optimize_probas(&stats);
    assert!(updated[0][1][0][0], "the skewed node must be updated");
    assert!(
        probas[0][1][0][0] >= 250,
        "empirical prob of bit0 near 255, got {}",
        probas[0][1][0][0]
    );
    for t in 0..NUM_TYPES {
        for b in 0..NUM_BANDS {
            for c in 0..NUM_CTX {
                for p in 0..NUM_PROBAS {
                    if (t, b, c, p) != (0, 1, 0, 0) {
                        assert_eq!(
                            probas[t][b][c][p], COEFFS_PROBA_0[t][b][c][p],
                            "untouched node ({t},{b},{c},{p}) changed"
                        );
                        assert!(!updated[t][b][c][p], "node ({t},{b},{c},{p}) updated");
                    }
                }
            }
        }
    }
}
