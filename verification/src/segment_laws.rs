//! What holds of every clustering: clusters follow the order of the values, each mean is its
//! cluster's, and every pass moves the centroids to the means of the nearest values.

use vstd::prelude::*;

use crate::arith::abs_int;
use crate::quant::div_toward_zero;
use crate::segment::{
    assigned, centroids_ok, cluster_count, cluster_sum, clusters_of, displacement,
    even_centroids, highest, lemma_counted, lemma_used_range, lowest, moved, nearest, refined, updated, used_clusters,
    used_means, values_ok, KMEANS_ITERS, MAX_VALUE,
};

verus! {

/// Whether the first `nb` centroids rise.
spec fn rising(cen: Seq<i64>, nb: int) -> bool {
    forall|j: int, l: int| 0 <= j < l < nb ==> #[trigger] cen[j] < #[trigger] cen[l]
}

/// Whether the first `nb` centroids do not fall and every value is one of them.
spec fn exact(values: Seq<i64>, cen: Seq<i64>, nb: int) -> bool {
    &&& forall|j: int, l: int| 0 <= j < l < nb ==> #[trigger] cen[j] <= #[trigger] cen[l]
    &&& forall|i: int|
        0 <= i < values.len() ==> exists|j: int| 0 <= j < nb && cen[j] == #[trigger] values[i]
}

/// What every pass keeps of the centroids.
spec fn ordered(values: Seq<i64>, cen: Seq<i64>, nb: int) -> bool {
    centroids_ok(cen) && (rising(cen, nb) || exact(values, cen, nb))
}

proof fn lemma_nearest(c: int, cen: Seq<i64>, k: int)
    requires
        1 <= k,
    ensures
        0 <= nearest(c, cen, k) < k,
        forall|j: int|
            0 <= j < k ==> abs_int(c - cen[nearest(c, cen, k)]) <= abs_int(c - #[trigger] cen[j]),
        forall|j: int|
            0 <= j < nearest(c, cen, k) ==> abs_int(c - cen[nearest(c, cen, k)]) < abs_int(
                c - #[trigger] cen[j],
            ),
    decreases k,
{
    if k > 1 {
        lemma_nearest(c, cen, k - 1);
    }
}

/// A larger value is not nearest to a lower centroid.
proof fn lemma_nearest_rises(v: int, w: int, values: Seq<i64>, cen: Seq<i64>, nb: int)
    requires
        1 <= nb <= 4,
        ordered(values, cen, nb),
        v <= w,
    ensures
        nearest(v, cen, nb) <= nearest(w, cen, nb),
{
    lemma_nearest(v, cen, nb);
    lemma_nearest(w, cen, nb);
    let a = nearest(v, cen, nb);
    let b = nearest(w, cen, nb);
    if b < a {
        assert(cen[b] <= cen[a]);
        assert(abs_int(v - cen[a]) < abs_int(v - cen[b]));
        assert(abs_int(w - cen[b]) <= abs_int(w - cen[a]));
    }
}

/// A cluster's sum lies between its bounds times its count.
proof fn lemma_sum_bounds(values: Seq<i64>, assign: Seq<u8>, k: int, n: int, lo: int, hi: int)
    requires
        n <= values.len(),
        forall|i: int| 0 <= i < n && assign[i] == k ==> lo <= #[trigger] values[i] <= hi,
    ensures
        lo * cluster_count(assign, k, n) <= cluster_sum(values, assign, k, n) <= hi * cluster_count(
            assign,
            k,
            n,
        ),
        0 <= cluster_count(assign, k, n),
    decreases n,
{
    if n > 0 {
        lemma_sum_bounds(values, assign, k, n - 1, lo, hi);
        let c = cluster_count(assign, k, n - 1);
        assert(lo * (c + 1) == lo * c + lo) by (nonlinear_arith);
        assert(hi * (c + 1) == hi * c + hi) by (nonlinear_arith);
        if assign[n - 1] == k {
            assert(lo <= values[n - 1] <= hi);
        }
    } else {
        assert(lo * 0 == 0 && hi * 0 == 0);
    }
}

/// A mean lies between its bounds.
proof fn lemma_mean_bounds(s: int, c: int, lo: int, hi: int)
    requires
        0 < c,
        lo * c <= s <= hi * c,
    ensures
        lo <= div_toward_zero(s, c) <= hi,
{
    if s < 0 {
        let q = (-s) / c;
        assert(-hi <= q <= -lo) by (nonlinear_arith)
            requires
                q == (-s) / c,
                0 < c,
                0 < -s,
                lo * c <= s <= hi * c,
        ;
    } else {
        let q = s / c;
        assert(lo <= q <= hi) by (nonlinear_arith)
            requires
                q == s / c,
                0 < c,
                0 <= s,
                lo * c <= s <= hi * c,
        ;
    }
}

/// A centroid moves within the bounds of its cluster and itself.
proof fn lemma_moved(values: Seq<i64>, assign: Seq<u8>, cen: Seq<i64>, k: int, lo: int, hi: int)
    requires
        lo <= cen[k] <= hi,
        forall|i: int|
            0 <= i < values.len() && assign[i] == k ==> lo <= #[trigger] values[i] <= hi,
    ensures
        lo <= moved(values, assign, cen, k) <= hi,
{
    let n = values.len() as int;
    lemma_sum_bounds(values, assign, k, n, lo, hi);
    if cluster_count(assign, k, n) > 0 {
        lemma_mean_bounds(
            cluster_sum(values, assign, k, n),
            cluster_count(assign, k, n),
            lo,
            hi,
        );
    }
}

/// One pass keeps rising centroids rising.
proof fn lemma_pass_rises(values: Seq<i64>, cen: Seq<i64>, nb: int, j: int, l: int)
    requires
        1 <= nb <= 4,
        values_ok(values),
        centroids_ok(cen),
        rising(cen, nb),
        0 <= j < l < nb,
    ensures
        moved(values, assigned(values, cen, nb), cen, j) < moved(
            values,
            assigned(values, cen, nb),
            cen,
            l,
        ),
{
    let assign = assigned(values, cen, nb);
    let t = (cen[j] + cen[l]) / 2;
    assert(cen[j] < cen[l]);
    assert forall|i: int| 0 <= i < values.len() && assign[i] == j implies -MAX_VALUE
        <= #[trigger] values[i] <= t by {
        lemma_nearest(values[i] as int, cen, nb);
        assert(abs_int(values[i] - cen[j]) <= abs_int(values[i] - cen[l]));
    }
    lemma_moved(values, assign, cen, j, -MAX_VALUE as int, t);
    assert forall|i: int| 0 <= i < values.len() && assign[i] == l implies t + 1
        <= #[trigger] values[i] <= MAX_VALUE by {
        lemma_nearest(values[i] as int, cen, nb);
        assert(abs_int(values[i] - cen[l]) < abs_int(values[i] - cen[j]));
    }
    lemma_moved(values, assign, cen, l, t + 1, MAX_VALUE as int);
}

/// One pass keeps the order.
proof fn lemma_pass(values: Seq<i64>, cen: Seq<i64>, nb: int)
    requires
        1 <= nb <= 4,
        values_ok(values),
        ordered(values, cen, nb),
    ensures
        ordered(values, updated(values, assigned(values, cen, nb), cen, nb), nb),
{
    let assign = assigned(values, cen, nb);
    let next = updated(values, assign, cen, nb);
    assert forall|k: int| 0 <= k < 4 implies -MAX_VALUE <= #[trigger] next[k] <= MAX_VALUE && (k < nb
        ==> next[k] == moved(values, assign, cen, k)) by {
        lemma_moved(values, assign, cen, k, -MAX_VALUE as int, MAX_VALUE as int);
    }
    if rising(cen, nb) {
        assert forall|j: int, l: int| 0 <= j < l < nb implies #[trigger] next[j] < #[trigger] next[l] by {
            lemma_pass_rises(values, cen, nb, j, l);
        }
    } else {
        assert forall|k: int| 0 <= k < nb implies #[trigger] next[k] == cen[k] by {
            assert forall|i: int| 0 <= i < values.len() && assign[i] == k implies cen[k]
                <= #[trigger] values[i] <= cen[k] by {
                lemma_nearest(values[i] as int, cen, nb);
                let j = choose|j: int| 0 <= j < nb && cen[j] == values[i];
                assert(abs_int(values[i] - cen[k]) <= abs_int(values[i] - cen[j]));
            }
            lemma_moved(values, assign, cen, k, cen[k] as int, cen[k] as int);
        }
        assert forall|i: int| 0 <= i < values.len() implies exists|j: int|
            0 <= j < nb && next[j] == #[trigger] values[i] by {
            let j = choose|j: int| 0 <= j < nb && cen[j] == values[i];
            assert(next[j] == values[i]);
        }
    }
}

/// All passes keep the order.
proof fn lemma_refined(values: Seq<i64>, cen: Seq<i64>, nb: int, iters: nat)
    requires
        1 <= nb <= 4,
        values_ok(values),
        ordered(values, cen, nb),
    ensures
        ordered(values, refined(values, cen, nb, iters), nb),
    decreases iters,
{
    if iters > 0 {
        lemma_pass(values, cen, nb);
        lemma_refined(
            values,
            updated(values, assigned(values, cen, nb), cen, nb),
            nb,
            (iters - 1) as nat,
        );
    }
}

proof fn lemma_bounds(values: Seq<i64>, n: int)
    requires
        n <= values.len(),
    ensures
        forall|i: int|
            0 <= i < n ==> lowest(values, n) <= #[trigger] values[i] <= highest(values, n),
        n >= 1 ==> exists|i: int| 0 <= i < n && #[trigger] values[i] == lowest(values, n),
        n >= 1 ==> exists|i: int| 0 <= i < n && #[trigger] values[i] == highest(values, n),
    decreases n,
{
    if n > 0 {
        lemma_bounds(values, n - 1);
        if n > 1 {
            let a = choose|i: int| 0 <= i < n - 1 && #[trigger] values[i] == lowest(values, n - 1);
            let b = choose|i: int| 0 <= i < n - 1 && #[trigger] values[i] == highest(values, n - 1);
            assert(values[a] == lowest(values, n - 1));
            assert(values[b] == highest(values, n - 1));
        }
        assert(values[n - 1] == values[n - 1]);
    }
}

/// The even centroids are ordered.
proof fn lemma_even(values: Seq<i64>, nb: int)
    requires
        2 <= nb <= 4,
        values_ok(values),
        values.len() > 0,
        lowest(values, values.len() as int) < highest(values, values.len() as int),
    ensures
        ordered(
            values,
            even_centroids(
                lowest(values, values.len() as int),
                highest(values, values.len() as int),
                nb,
            ),
            nb,
        ),
{
    let n = values.len() as int;
    lemma_bounds(values, n);
    let lo = lowest(values, n);
    let hi = highest(values, n);
    let span = hi - lo;
    let cen = even_centroids(lo, hi, nb);
    assert(-MAX_VALUE <= lo <= hi <= MAX_VALUE);
    assert(span * 0 == 0 && span * 1 == span && span * 2 == span + span && span * 3 == span + span
        + span);
    assert(cen[0] == lo);
    if nb == 2 {
        assert(cen[1] == lo + span / 1);
    } else if nb == 3 {
        assert(cen[1] == lo + span / 2);
        assert(cen[2] == lo + (span + span) / 2);
    } else {
        assert(cen[1] == lo + span / 3);
        assert(cen[2] == lo + (span + span) / 3);
        assert(cen[3] == lo + (span + span + span) / 3);
    }
    if span >= nb - 1 {
        assert(rising(cen, nb));
    } else {
        assert forall|i: int| 0 <= i < values.len() implies exists|j: int|
            0 <= j < nb && cen[j] == #[trigger] values[i] by {
            assert(lo <= values[i] <= hi);
            if values[i] == lo {
                assert(cen[0] == values[i]);
            } else if values[i] == hi {
                assert(cen[nb - 1] == values[i]);
            } else {
                assert(nb == 4 && cen[2] == values[i]);
            }
        }
        assert(exact(values, cen, nb));
    }
}

/// The new index of a used cluster is below that of any later one.
proof fn lemma_used_rises(assign: Seq<u8>, j: int, l: int)
    requires
        0 <= j < l,
    ensures
        used_clusters(assign, j) <= used_clusters(assign, l),
        cluster_count(assign, j, assign.len() as int) > 0 ==> used_clusters(assign, j) < used_clusters(
            assign,
            l,
        ),
    decreases l,
{
    if j < l - 1 {
        lemma_used_rises(assign, j, l - 1);
    }
}

/// The cluster that an index stands for.
proof fn lemma_used_index(assign: Seq<u8>, nb: int, k: int) -> (j: int)
    requires
        0 <= k < used_clusters(assign, nb),
    ensures
        0 <= j < nb,
        cluster_count(assign, j, assign.len() as int) > 0,
        used_clusters(assign, j) == k,
    decreases nb,
{
    if k < used_clusters(assign, nb - 1) {
        lemma_used_index(assign, nb - 1, k)
    } else {
        nb - 1
    }
}

/// The mean of a used cluster is at its new index.
proof fn lemma_used_mean(values: Seq<i64>, assign: Seq<u8>, nb: int, j: int)
    requires
        0 <= j < nb <= 4,
        cluster_count(assign, j, assign.len() as int) > 0,
    ensures
        used_means(values, assign, nb)[used_clusters(assign, j)] == div_toward_zero(
            cluster_sum(values, assign, j, assign.len() as int),
            cluster_count(assign, j, assign.len() as int),
        ) as i64,
    decreases nb,
{
    lemma_used_range(assign, nb - 1);
    lemma_used_range(assign, j);
    lemma_means_len(values, assign, nb - 1);
    if j < nb - 1 {
        lemma_used_mean(values, assign, nb - 1, j);
        lemma_used_rises(assign, j, nb - 1);
    }
}

proof fn lemma_means_len(values: Seq<i64>, assign: Seq<u8>, nb: int)
    requires
        nb <= 4,
    ensures
        used_means(values, assign, nb).len() == 4,
    decreases nb,
{
    if nb > 0 {
        lemma_used_range(assign, nb - 1);
        lemma_means_len(values, assign, nb - 1);
    }
}

/// Renumbering keeps sums and counts.
proof fn lemma_same_cluster(
    values: Seq<i64>,
    a: Seq<u8>,
    b: Seq<u8>,
    j: int,
    k: int,
    n: int,
)
    requires
        forall|i: int| 0 <= i < n ==> (#[trigger] a[i] == j <==> b[i] == k),
    ensures
        cluster_sum(values, a, j, n) == cluster_sum(values, b, k, n),
        cluster_count(a, j, n) == cluster_count(b, k, n),
    decreases n,
{
    if n > 0 {
        lemma_same_cluster(values, a, b, j, k, n - 1);
        assert(a[n - 1] == j <==> b[n - 1] == k);
    }
}

/// Clusters follow the order of the values: of two values the larger one has no lower
/// cluster.
pub proof fn clusters_follow_the_values(values: Seq<i64>, nb: int, i: int, j: int)
    requires
        values_ok(values),
        1 <= nb <= 4,
        0 <= i < values.len(),
        0 <= j < values.len(),
        values[i] <= values[j],
    ensures
        clusters_of(values, nb).ids[i] <= clusters_of(values, nb).ids[j],
{
    let n = values.len() as int;
    let lo = lowest(values, n);
    let hi = highest(values, n);
    lemma_bounds(values, n);
    if !(nb <= 1 || lo == hi) {
        lemma_even(values, nb);
        let seeds = even_centroids(lo, hi, nb);
        lemma_refined(values, seeds, nb, KMEANS_ITERS as nat);
        let cen = refined(values, seeds, nb, KMEANS_ITERS as nat);
        lemma_nearest_rises(values[i] as int, values[j] as int, values, cen, nb);
        lemma_nearest(values[i] as int, cen, nb);
        lemma_nearest(values[j] as int, cen, nb);
        let assign = assigned(values, cen, nb);
        lemma_used_range(assign, assign[i] as int);
        lemma_used_range(assign, assign[j] as int);
        if assign[i] < assign[j] {
            lemma_used_rises(assign, assign[i] as int, assign[j] as int);
        }
    }
}

/// Every cluster holds a value, and its mean, rounded toward zero, is that of the values
/// it holds. (A clustering into one cluster of values that differ gives their smallest.)
pub proof fn means_are_of_the_clusters(values: Seq<i64>, nb: int, k: int)
    requires
        values_ok(values),
        values.len() > 0,
        2 <= nb <= 4,
        0 <= k < clusters_of(values, nb).count,
    ensures
        ({
            let c = clusters_of(values, nb);
            let n = values.len() as int;
            &&& cluster_count(c.ids, k, n) > 0
            &&& c.means[k] == div_toward_zero(
                cluster_sum(values, c.ids, k, n),
                cluster_count(c.ids, k, n),
            )
        }),
{
    let n = values.len() as int;
    let lo = lowest(values, n);
    let hi = highest(values, n);
    let c = clusters_of(values, nb);
    lemma_bounds(values, n);
    if lo == hi {
        lemma_counted(c.ids, 0, n);
        lemma_sum_bounds(values, c.ids, 0, n, lo, lo);
        lemma_mean_bounds(cluster_sum(values, c.ids, 0, n), cluster_count(c.ids, 0, n), lo, lo);
        assert(exists|i: int| 0 <= i < n && #[trigger] values[i] == lo);
    } else {
        let cen = refined(values, even_centroids(lo, hi, nb), nb, KMEANS_ITERS as nat);
        let assign = assigned(values, cen, nb);
        let j = lemma_used_index(assign, nb, k);
        assert forall|i: int| 0 <= i < n implies (#[trigger] assign[i] == j <==> c.ids[i] == k) by {
            lemma_nearest(values[i] as int, cen, nb);
            lemma_counted(assign, i, n);
            lemma_used_range(assign, assign[i] as int);
            if assign[i] < j {
                lemma_used_rises(assign, assign[i] as int, j);
            } else if j < assign[i] {
                lemma_used_rises(assign, j, assign[i] as int);
            }
        }
        lemma_same_cluster(values, assign, c.ids, j, k, n);
        lemma_used_mean(values, assign, nb, j);
        lemma_sum_bounds(values, assign, j, n, -MAX_VALUE as int, MAX_VALUE as int);
        lemma_mean_bounds(
            cluster_sum(values, assign, j, n),
            cluster_count(assign, j, n),
            -MAX_VALUE as int,
            MAX_VALUE as int,
        );
    }
}

/// A value joins the nearest centroid, and the first of those that are equally near.
pub proof fn values_join_the_nearest(values: Seq<i64>, cen: Seq<i64>, nb: int, i: int, j: int)
    requires
        1 <= nb <= 4,
        0 <= i < values.len(),
        0 <= j < nb,
    ensures
        ({
            let own = assigned(values, cen, nb)[i] as int;
            let near = if values[i] < cen[own] {
                cen[own] - values[i]
            } else {
                values[i] - cen[own]
            };
            let far = if values[i] < cen[j] {
                cen[j] - values[i]
            } else {
                values[i] - cen[j]
            };
            &&& 0 <= own < nb
            &&& near <= far
            &&& j < own ==> near < far
        }),
{
    lemma_nearest(values[i] as int, cen, nb);
}

/// The seeds reach from the smallest value to the largest, at even distances.
pub proof fn seeds_are_even(values: Seq<i64>, nb: int, k: int)
    requires
        values_ok(values),
        values.len() > 0,
        2 <= nb <= 4,
        0 <= k < nb,
    ensures
        ({
            let n = values.len() as int;
            let lo = lowest(values, n);
            let hi = highest(values, n);
            let seeds = even_centroids(lo, hi, nb);
            &&& forall|i: int| 0 <= i < n ==> lo <= #[trigger] values[i] <= hi
            &&& exists|i: int| 0 <= i < n && #[trigger] values[i] == lo
            &&& exists|i: int| 0 <= i < n && #[trigger] values[i] == hi
            &&& seeds[0] == lo
            &&& seeds[nb - 1] == hi
            &&& (nb - 1) * (seeds[k] - lo) <= k * (hi - lo)
            &&& k * (hi - lo) < (nb - 1) * (seeds[k] - lo + 1)
        }),
{
    let n = values.len() as int;
    lemma_bounds(values, n);
    let lo = lowest(values, n);
    let hi = highest(values, n);
    assert(exists|i: int| 0 <= i < n && #[trigger] values[i] == lo);
    assert(exists|i: int| 0 <= i < n && #[trigger] values[i] == hi);
    assert(-MAX_VALUE <= lo && hi <= MAX_VALUE);
    let d = hi - lo;
    assert(nb == 2 || nb == 3 || nb == 4);
    assert(k == 0 || k == 1 || k == 2 || k == 3);
    assert(d * 0 == 0 && d * 1 == d && d * 2 == 2 * d && d * 3 == 3 * d);
    assert(d / 1 == d && (2 * d) / 2 == d && (3 * d) / 3 == d);
    assert(k * d == d * k) by (nonlinear_arith);
}

/// A pass moves each centroid to the mean of its values, cut toward zero; one without values
/// stays.
pub proof fn a_pass_moves_to_the_means(
    values: Seq<i64>,
    assign: Seq<u8>,
    cen: Seq<i64>,
    nb: int,
    k: int,
)
    requires
        values_ok(values),
        assign.len() == values.len(),
        1 <= nb <= 4,
        0 <= k < nb,
    ensures
        ({
            let n = values.len() as int;
            let next = updated(values, assign, cen, nb)[k] as int;
            let sum = cluster_sum(values, assign, k, n);
            let count = cluster_count(assign, k, n);
            &&& count == 0 ==> next == cen[k]
            &&& count > 0 && sum >= 0 ==> next * count <= sum < (next + 1) * count
            &&& count > 0 && sum <= 0 ==> (next - 1) * count < sum <= next * count
        }),
{
    let n = values.len() as int;
    let sum = cluster_sum(values, assign, k, n);
    let count = cluster_count(assign, k, n);
    lemma_sum_bounds(values, assign, k, n, -MAX_VALUE as int, MAX_VALUE as int);
    if count > 0 {
        lemma_mean_bounds(sum, count, -MAX_VALUE as int, MAX_VALUE as int);
        let next = div_toward_zero(sum, count);
        assert(updated(values, assign, cen, nb)[k] == next);
        if sum >= 0 {
            assert(next * count <= sum < (next + 1) * count) by (nonlinear_arith)
                requires
                    next == sum / count,
                    count > 0,
            ;
        }
        if sum <= 0 {
            let q = (-sum) / count;
            assert(q * count <= -sum < (q + 1) * count) by (nonlinear_arith)
                requires
                    q == (-sum) / count,
                    count > 0,
            ;
            if sum == 0 {
                assert(0int / count == 0) by (nonlinear_arith)
                    requires
                        count > 0,
                ;
            }
            assert(next == -q);
            assert(next * count == -(q * count)) by (nonlinear_arith)
                requires
                    next == -q,
            ;
            assert((next - 1) * count == -((q + 1) * count)) by (nonlinear_arith)
                requires
                    next == -q,
            ;
        }
    }
}

/// Every value is counted once and added once.
pub proof fn clusters_share_the_values(values: Seq<i64>, assign: Seq<u8>, n: int)
    requires
        0 <= n <= values.len(),
        assign.len() == values.len(),
        forall|i: int| 0 <= i < n ==> #[trigger] assign[i] < 4,
    ensures
        cluster_count(assign, 0, n) + cluster_count(assign, 1, n) + cluster_count(assign, 2, n)
            + cluster_count(assign, 3, n) == n,
        cluster_sum(values, assign, 0, n) + cluster_sum(values, assign, 1, n) + cluster_sum(
            values,
            assign,
            2,
            n,
        ) + cluster_sum(values, assign, 3, n) == values.take(n).fold_left(
            0int,
            |s: int, v: i64| s + v,
        ),
    decreases n,
{
    let f = |s: int, v: i64| s + v;
    if n > 0 {
        assert(assign[n - 1] < 4);
        clusters_share_the_values(values, assign, n - 1);
        assert(values.take(n).drop_last() =~= values.take(n - 1));
        assert(values.take(n).last() == values[n - 1]);
        reveal_with_fuel(Seq::fold_left, 2);
    } else {
        reveal_with_fuel(Seq::fold_left, 2);
    }
}

/// The centroids after `n` passes.
pub open spec fn after_passes(values: Seq<i64>, cen: Seq<i64>, nb: int, n: nat) -> Seq<i64>
    decreases n,
{
    if n == 0 {
        cen
    } else {
        let c = after_passes(values, cen, nb, (n - 1) as nat);
        updated(values, assigned(values, c, nb), c, nb)
    }
}

proof fn lemma_first_pass(values: Seq<i64>, cen: Seq<i64>, nb: int, n: nat)
    ensures
        after_passes(values, updated(values, assigned(values, cen, nb), cen, nb), nb, n)
            == after_passes(values, cen, nb, n + 1),
    decreases n,
{
    reveal_with_fuel(after_passes, 3);
    if n > 0 {
        lemma_first_pass(values, cen, nb, (n - 1) as nat);
    }
}

proof fn lemma_passes(values: Seq<i64>, cen: Seq<i64>, nb: int, iters: nat) -> (n: nat)
    ensures
        n <= iters,
        iters > 0 ==> n > 0,
        refined(values, cen, nb, iters) == after_passes(values, cen, nb, n),
        forall|m: nat|
            m + 1 < n ==> displacement(
                #[trigger] after_passes(values, cen, nb, m),
                after_passes(values, cen, nb, m + 1),
                nb,
            ) >= 5,
        0 < n < iters ==> displacement(
            after_passes(values, cen, nb, (n - 1) as nat),
            after_passes(values, cen, nb, n),
            nb,
        ) < 5,
    decreases iters,
{
    if iters == 0 {
        0
    } else {
        reveal_with_fuel(after_passes, 2);
        let next = updated(values, assigned(values, cen, nb), cen, nb);
        assert(after_passes(values, cen, nb, 0) == cen);
        assert(after_passes(values, cen, nb, 1) == next);
        if displacement(cen, next, nb) < 5 {
            1
        } else {
            let n = lemma_passes(values, next, nb, (iters - 1) as nat);
            lemma_first_pass(values, cen, nb, n);
            if n > 0 {
                lemma_first_pass(values, cen, nb, (n - 1) as nat);
            }
            assert forall|m: nat| m + 1 < n + 1 implies displacement(
                #[trigger] after_passes(values, cen, nb, m),
                after_passes(values, cen, nb, m + 1),
                nb,
            ) >= 5 by {
                if m > 0 {
                    let l = (m - 1) as nat;
                    lemma_first_pass(values, cen, nb, l);
                    lemma_first_pass(values, cen, nb, m);
                    assert(after_passes(values, next, nb, l) == after_passes(values, cen, nb, m));
                }
            }
            n + 1
        }
    }
}

/// There are at most six passes; they stop early after the first in which the centroids
/// move by less than five in all.
pub proof fn passes_stop_when_still(values: Seq<i64>, cen: Seq<i64>, nb: int) -> (n: nat)
    ensures
        1 <= n <= 6,
        refined(values, cen, nb, KMEANS_ITERS as nat) == after_passes(values, cen, nb, n),
        forall|m: nat|
            m + 1 < n ==> displacement(
                #[trigger] after_passes(values, cen, nb, m),
                after_passes(values, cen, nb, m + 1),
                nb,
            ) >= 5,
        n < 6 ==> displacement(
            after_passes(values, cen, nb, (n - 1) as nat),
            after_passes(values, cen, nb, n),
            nb,
        ) < 5,
{
    lemma_passes(values, cen, nb, KMEANS_ITERS as nat)
}

/// The way that centroids moved is the sum of their distances.
pub proof fn ways_add_up(a: Seq<i64>, b: Seq<i64>, nb: int)
    requires
        2 <= nb <= 4,
    ensures
        ({
            let far = |k: int|
                if a[k] < b[k] {
                    b[k] - a[k]
                } else {
                    a[k] - b[k]
                };
            displacement(a, b, nb) == far(0) + far(1) + (if nb > 2 {
                far(2)
            } else {
                0
            }) + (if nb > 3 {
                far(3)
            } else {
                0
            })
        }),
{
    reveal_with_fuel(displacement, 5);
}

} // verus!
