//! Partitioning a frame's macroblocks into quantizer segments.
//!
//! Each macroblock's luma texture is scored, the scores are clustered by an integer
//! k-means, and each cluster gets a quantizer index: finer for flat macroblocks, coarser
//! for busy ones. Every step is integer and bounded, so the partition is a function of
//! the source.

use vstd::prelude::*;

use crate::arith::{abs_int, clamp_int};
use crate::block::sub_block;
use crate::effort::FrameTuning;
use crate::enc_header::SegmentParams;
use crate::fdct::{fdct4x4, fdct_spec};
use crate::mode_search::{luma_src_at, src_mb};
use crate::perceptual::{gather4, widen, PlaneWindow};
use crate::quant::{div_toward_zero, sns_quant_delta};
use crate::rgb_to_yuv::SourceYuv;

verus! {

/// The most k-means passes.
pub const KMEANS_ITERS: usize = 6;

/// The total centroid displacement below which k-means stops.
pub const KMEANS_MIN_DISPLACEMENT: i64 = 5;

/// The largest value magnitude that k-means accepts.
pub const MAX_VALUE: i64 = 0x1_0000_0000;

/// The largest of the first `k` bins, at least zero.
pub open spec fn max_bin(dist: Seq<i32>, k: int) -> int
    decreases k,
{
    if k <= 0 {
        0
    } else {
        let m = max_bin(dist, k - 1);
        if dist[k - 1] > m {
            dist[k - 1] as int
        } else {
            m
        }
    }
}

/// The last populated bin of the first `k`; one if there is none.
pub open spec fn last_bin(dist: Seq<i32>, k: int) -> int
    decreases k,
{
    if k <= 0 {
        1
    } else if dist[k - 1] > 0 {
        k - 1
    } else {
        last_bin(dist, k - 1)
    }
}

/// The score of a histogram: how far it reaches against how much it piles up.
pub open spec fn alpha_of(dist: Seq<i32>) -> int {
    let m = max_bin(dist, 32);
    if m > 1 {
        clamp_int((510 * last_bin(dist, 32)) / m, 0, 255)
    } else {
        0
    }
}

/// The score of a histogram, `0..=255`.
pub fn get_alpha(dist: [i32; 32]) -> (r: u8)
    ensures
        r == alpha_of(dist@),
{
    let mut max_value: i32 = 0;
    let mut last_non_zero: usize = 1;
    let mut k: usize = 0;
    while k < 32
        invariant
            k <= 32,
            max_value == max_bin(dist@, k as int),
            0 <= max_value,
            last_non_zero == last_bin(dist@, k as int),
            last_non_zero <= 31,
        decreases 32 - k,
    {
        let value: i32 = dist[k];
        if value > 0 {
            if value > max_value {
                max_value = value;
            }
            last_non_zero = k;
        }
        k = k + 1;
    }
    if max_value > 1 {
        let alpha: i32 = (510 * last_non_zero as i32) / max_value;
        assert(0 <= alpha) by (nonlinear_arith)
            requires
                alpha == (510 * last_non_zero) / (max_value as int),
                max_value > 1,
        ;
        if alpha > 255 {
            255
        } else {
            alpha as u8
        }
    } else {
        0
    }
}

/// Samples as residuals.
pub open spec fn as_coeffs(b: Seq<u8>) -> Seq<i16> {
    Seq::new(b.len(), |i: int| b[i] as i16)
}

/// The histogram bin of coefficient `t % 16` of sub-block `t / 16` of a macroblock; DC
/// coefficients count as zero.
pub open spec fn bin_at(s: Seq<u8>, t: int) -> int {
    let c = if t % 16 == 0 {
        0
    } else {
        abs_int(fdct_spec(as_coeffs(sub_block(s, 16, t / 16)))[t % 16] as int)
    };
    if c / 8 > 31 {
        31
    } else {
        c / 8
    }
}

/// How many of the first `t` coefficients fall into bin `b`.
pub open spec fn bin_count(s: Seq<u8>, b: int, t: int) -> int
    decreases t,
{
    if t <= 0 {
        0
    } else {
        bin_count(s, b, t - 1) + (if bin_at(s, t - 1) == b {
            1int
        } else {
            0
        })
    }
}

/// The coefficient histogram of a macroblock.
pub open spec fn histogram(s: Seq<u8>) -> Seq<i32> {
    Seq::new(32, |b: int| bin_count(s, b, 256) as i32)
}

/// The texture score of a macroblock.
pub open spec fn activity_of(s: Seq<u8>) -> int {
    alpha_of(histogram(s))
}

/// Count a sub-block's coefficients into the histogram.
fn count_block(dist: &mut [i32; 32], coeffs: &[i16; 16], Ghost(s): Ghost<Seq<u8>>, Ghost(n): Ghost<int>)
    requires
        0 <= n < 16,
        coeffs@ == fdct_spec(as_coeffs(sub_block(s, 16, n))),
        forall|b: int| 0 <= b < 32 ==> #[trigger] old(dist)@[b] == bin_count(s, b, 16 * n),
        forall|b: int| 0 <= b < 32 ==> 0 <= #[trigger] old(dist)@[b] <= 16 * n,
    ensures
        forall|b: int| 0 <= b < 32 ==> #[trigger] final(dist)@[b] == bin_count(s, b, 16 * n + 16),
        forall|b: int| 0 <= b < 32 ==> 0 <= #[trigger] final(dist)@[b] <= 16 * n + 16,
{
    let mut i: usize = 0;
    while i < 16
        invariant
            i <= 16,
            0 <= n < 16,
            coeffs@ == fdct_spec(as_coeffs(sub_block(s, 16, n))),
            forall|b: int| 0 <= b < 32 ==> #[trigger] dist@[b] == bin_count(s, b, 16 * n + i),
            forall|b: int| 0 <= b < 32 ==> 0 <= #[trigger] dist@[b] <= 16 * n + i,
        decreases 16 - i,
    {
        let c: i32 = if i == 0 {
            0
        } else {
            coeffs[i] as i32
        };
        let mag: i32 = if c < 0 {
            -c
        } else {
            c
        };
        let bin: usize = if mag / 8 > 31 {
            31
        } else {
            (mag / 8) as usize
        };
        proof {
            let t = 16 * n + i;
            assert(t % 16 == i && t / 16 == n);
            assert(bin == bin_at(s, t));
        }
        dist[bin] = dist[bin] + 1;
        i = i + 1;
    }
}

/// The texture score of macroblock (`mb_x`, `mb_y`), `0..=255`.
pub fn mb_activity(src: &SourceYuv, mb_x: usize, mb_y: usize) -> (r: u8)
    requires
        src.wf(),
        mb_x < src.mb_w,
        mb_y < src.mb_h,
    ensures
        r == activity_of(src_mb(*src, mb_x as int, mb_y as int).y),
{
    let ghost s = src_mb(*src, mb_x as int, mb_y as int).y;
    let at: usize = luma_src_at(src, mb_x, mb_y);
    let w = PlaneWindow::new(&src.y, at, src.y_stride());
    let mut dist: [i32; 32] = [0i32; 32];
    let mut n: usize = 0;
    while n < 16
        invariant
            n <= 16,
            w.wf(),
            w.block() == s,
            forall|b: int| 0 <= b < 32 ==> #[trigger] dist@[b] == bin_count(s, b, 16 * n),
            forall|b: int| 0 <= b < 32 ==> 0 <= #[trigger] dist@[b] <= 16 * n,
        decreases 16 - n,
    {
        let g: [i32; 16] = gather4(&w, n);
        let mut block: [i16; 16] = [0i16; 16];
        let mut i: usize = 0;
        while i < 16
            invariant
                i <= 16,
                g@ == widen(sub_block(s, 16, n as int)),
                forall|j: int| 0 <= j < i ==> #[trigger] block@[j] == sub_block(s, 16, n as int)[j],
            decreases 16 - i,
        {
            block[i] = g[i] as i16;
            i = i + 1;
        }
        assert(block@ =~= as_coeffs(sub_block(s, 16, n as int)));
        let coeffs: [i16; 16] = fdct4x4(block);
        count_block(&mut dist, &coeffs, Ghost(s), Ghost(n as int));
        n = n + 1;
    }
    assert(dist@ =~= histogram(s));
    get_alpha(dist)
}

/// The nearest of the first `k` centroids; the lowest index wins ties.
pub open spec fn nearest(c: int, cen: Seq<i64>, k: int) -> int
    decreases k,
{
    if k <= 1 {
        0
    } else {
        let best = nearest(c, cen, k - 1);
        if abs_int(c - cen[k - 1]) < abs_int(c - cen[best]) {
            k - 1
        } else {
            best
        }
    }
}

/// Every value's nearest centroid.
pub open spec fn assigned(values: Seq<i64>, cen: Seq<i64>, nb: int) -> Seq<u8> {
    Seq::new(values.len(), |i: int| nearest(values[i] as int, cen, nb) as u8)
}

/// Whether values are small enough to be summed.
pub open spec fn values_ok(values: Seq<i64>) -> bool {
    &&& values.len() <= 0x4000_0000
    &&& forall|i: int| 0 <= i < values.len() ==> -MAX_VALUE <= #[trigger] values[i] <= MAX_VALUE
}

/// Whether centroids are small enough to be compared.
pub open spec fn centroids_ok(cen: Seq<i64>) -> bool {
    &&& cen.len() == 4
    &&& forall|k: int| 0 <= k < 4 ==> -MAX_VALUE <= #[trigger] cen[k] <= MAX_VALUE
}

proof fn lemma_nearest_range(c: int, cen: Seq<i64>, k: int)
    requires
        1 <= k,
    ensures
        0 <= nearest(c, cen, k) < k,
    decreases k,
{
    if k > 1 {
        lemma_nearest_range(c, cen, k - 1);
    }
}

/// Assign each value to its nearest of the first `nb` centroids.
pub fn assign_nearest(values: &[i64], centroids: [i64; 4], nb: usize, assign: &mut [u8])
    requires
        values_ok(values@),
        centroids_ok(centroids@),
        1 <= nb <= 4,
        old(assign)@.len() == values@.len(),
    ensures
        final(assign)@ == assigned(values@, centroids@, nb as int),
        forall|i: int| 0 <= i < values@.len() ==> #[trigger] final(assign)@[i] < nb,
{
    let n: usize = values.len();
    let mut i: usize = 0;
    while i < n
        invariant
            i <= n,
            n == values@.len(),
            assign@.len() == n,
            values_ok(values@),
            centroids_ok(centroids@),
            1 <= nb <= 4,
            forall|j: int|
                0 <= j < i ==> #[trigger] assign@[j] == nearest(
                    values@[j] as int,
                    centroids@,
                    nb as int,
                ) && assign@[j] < nb,
        decreases n - i,
    {
        let c: i64 = values[i];
        let mut best: usize = 0;
        let mut best_d: i64 = 0;
        let mut k: usize = 0;
        while k < nb
            invariant
                k <= nb <= 4,
                1 <= nb,
                -MAX_VALUE <= c <= MAX_VALUE,
                centroids_ok(centroids@),
                k >= 1 ==> best == nearest(c as int, centroids@, k as int),
                k >= 1 ==> best_d == abs_int(c - centroids@[best as int]),
                best < 4,
                k >= 1 ==> best < k,
            decreases nb - k,
        {
            let cen: i64 = centroids[k];
            let d: i64 = if c < cen {
                cen - c
            } else {
                c - cen
            };
            if k == 0 || d < best_d {
                best_d = d;
                best = k;
            }
            k = k + 1;
        }
        assign[i] = best as u8;
        i = i + 1;
    }
    assert(assign@ =~= assigned(values@, centroids@, nb as int));
}

/// The sum of the first `n` values assigned to cluster `k`.
pub open spec fn cluster_sum(values: Seq<i64>, assign: Seq<u8>, k: int, n: int) -> int
    decreases n,
{
    if n <= 0 {
        0
    } else {
        cluster_sum(values, assign, k, n - 1) + (if assign[n - 1] == k {
            values[n - 1] as int
        } else {
            0
        })
    }
}

/// How many of the first `n` values are assigned to cluster `k`.
pub open spec fn cluster_count(assign: Seq<u8>, k: int, n: int) -> int
    decreases n,
{
    if n <= 0 {
        0
    } else {
        cluster_count(assign, k, n - 1) + (if assign[n - 1] == k {
            1int
        } else {
            0
        })
    }
}

/// Each cluster's sum and count.
pub fn cluster_sums(values: &[i64], assign: &[u8]) -> (r: ([i64; 4], [i64; 4]))
    requires
        values_ok(values@),
        assign@.len() == values@.len(),
        forall|i: int| 0 <= i < assign@.len() ==> #[trigger] assign@[i] < 4,
    ensures
        forall|k: int|
            0 <= k < 4 ==> #[trigger] r.0@[k] == cluster_sum(
                values@,
                assign@,
                k,
                values@.len() as int,
            ),
        forall|k: int|
            0 <= k < 4 ==> #[trigger] r.1@[k] == cluster_count(assign@, k, values@.len() as int),
        forall|k: int|
            0 <= k < 4 ==> -MAX_VALUE * #[trigger] r.1@[k] <= r.0@[k] <= MAX_VALUE * r.1@[k] && 0
                <= r.1@[k],
{
    let n: usize = values.len();
    let mut sum: [i64; 4] = [0i64; 4];
    let mut cnt: [i64; 4] = [0i64; 4];
    let mut i: usize = 0;
    while i < n
        invariant
            i <= n,
            n == values@.len(),
            assign@.len() == n,
            values_ok(values@),
            forall|j: int| 0 <= j < n ==> #[trigger] assign@[j] < 4,
            forall|k: int|
                0 <= k < 4 ==> #[trigger] sum@[k] == cluster_sum(values@, assign@, k, i as int),
            forall|k: int| 0 <= k < 4 ==> #[trigger] cnt@[k] == cluster_count(assign@, k, i as int),
            forall|k: int|
                0 <= k < 4 ==> -MAX_VALUE * #[trigger] cnt@[k] <= sum@[k] <= MAX_VALUE * cnt@[k]
                    && 0 <= cnt@[k] <= i,
        decreases n - i,
    {
        let k: usize = assign[i] as usize;
        assert(0 <= cnt@[k as int] <= i);
        sum[k] = sum[k] + values[i];
        cnt[k] = cnt[k] + 1;
        i = i + 1;
    }
    (sum, cnt)
}

/// Where centroid `k` moves to: its cluster's mean, or nowhere if the cluster is empty.
pub open spec fn moved(values: Seq<i64>, assign: Seq<u8>, cen: Seq<i64>, k: int) -> int {
    let n = values.len() as int;
    if cluster_count(assign, k, n) > 0 {
        div_toward_zero(cluster_sum(values, assign, k, n), cluster_count(assign, k, n))
    } else {
        cen[k] as int
    }
}

/// The centroids after one update of the first `nb`.
pub open spec fn updated(values: Seq<i64>, assign: Seq<u8>, cen: Seq<i64>, nb: int) -> Seq<i64> {
    Seq::new(
        4,
        |k: int|
            if k < nb {
                moved(values, assign, cen, k) as i64
            } else {
                cen[k]
            },
    )
}

/// The total displacement of the first `k` centroids.
pub open spec fn displacement(a: Seq<i64>, b: Seq<i64>, k: int) -> int
    decreases k,
{
    if k <= 0 {
        0
    } else {
        displacement(a, b, k - 1) + abs_int(b[k - 1] - a[k - 1])
    }
}

/// The quotient of signed numbers, rounded toward zero.
fn quotient(a: i64, b: i64) -> (r: i64)
    requires
        0 < b,
        -0x4000_0000_0000_0000 <= a,
    ensures
        r == div_toward_zero(a as int, b as int),
{
    if a < 0 {
        proof {
            assert(0 <= (-a) / (b as int) <= -a) by (nonlinear_arith)
                requires
                    a < 0,
                    0 < b,
            ;
        }
        -((-a) / b)
    } else {
        a / b
    }
}

proof fn lemma_mean_range(s: int, c: int, bound: int)
    requires
        0 < c,
        0 <= bound,
        -bound * c <= s <= bound * c,
    ensures
        -bound <= div_toward_zero(s, c) <= bound,
{
    if s < 0 {
        let q = (-s) / c;
        assert(-bound * c == -(bound * c)) by (nonlinear_arith);
        assert(0 <= q <= bound) by (nonlinear_arith)
            requires
                q == (-s) / c,
                0 < c,
                0 <= -s <= bound * c,
                0 <= bound,
        ;
    } else {
        let q = s / c;
        assert(0 <= q <= bound) by (nonlinear_arith)
            requires
                q == s / c,
                0 < c,
                0 <= s <= bound * c,
                0 <= bound,
        ;
    }
}

/// Move the first `nb` centroids to their clusters' means and return the total
/// displacement.
pub fn update_centroids(values: &[i64], assign: &[u8], centroids: &mut [i64; 4], nb: usize) -> (r: i64)
    requires
        values_ok(values@),
        centroids_ok(old(centroids)@),
        1 <= nb <= 4,
        assign@.len() == values@.len(),
        forall|i: int| 0 <= i < assign@.len() ==> #[trigger] assign@[i] < 4,
    ensures
        final(centroids)@ == updated(values@, assign@, old(centroids)@, nb as int),
        centroids_ok(final(centroids)@),
        r == displacement(old(centroids)@, final(centroids)@, nb as int),
{
    let (sum, cnt) = cluster_sums(values, assign);
    let ghost c0 = centroids@;
    let ghost want = updated(values@, assign@, c0, nb as int);
    let mut total: i64 = 0;
    let mut k: usize = 0;
    while k < nb
        invariant
            k <= nb <= 4,
            values_ok(values@),
            centroids_ok(c0),
            want == updated(values@, assign@, c0, nb as int),
            forall|j: int|
                0 <= j < 4 ==> #[trigger] sum@[j] == cluster_sum(
                    values@,
                    assign@,
                    j,
                    values@.len() as int,
                ),
            forall|j: int|
                0 <= j < 4 ==> #[trigger] cnt@[j] == cluster_count(assign@, j, values@.len() as int),
            forall|j: int|
                0 <= j < 4 ==> -MAX_VALUE * #[trigger] cnt@[j] <= sum@[j] <= MAX_VALUE * cnt@[j]
                    && 0 <= cnt@[j],
            centroids_ok(centroids@),
            forall|j: int| 0 <= j < k ==> #[trigger] centroids@[j] == want[j],
            forall|j: int| k <= j < 4 ==> #[trigger] centroids@[j] == c0[j],
            total == displacement(c0, want, k as int),
            0 <= total <= 0x2_0000_0000 * k,
        decreases nb - k,
    {
        let c: i64 = cnt[k];
        let s: i64 = sum[k];
        let cen: i64 = centroids[k];
        assert(-MAX_VALUE * cnt@[k as int] <= s);
        if c > 0 {
            proof {
                lemma_mean_range(s as int, c as int, MAX_VALUE as int);
                lemma_count_range(assign@, k as int, values@.len() as int);
            }
            let m: i64 = quotient(s, c);
            let d: i64 = if m < cen {
                cen - m
            } else {
                m - cen
            };
            total = total + d;
            centroids[k] = m;
        }
        assert(want[k as int] == centroids@[k as int]);
        k = k + 1;
    }
    assert(centroids@ =~= want);
    proof {
        lemma_displacement_ext(c0, want, centroids@, nb as int);
    }
    total
}

proof fn lemma_displacement_ext(a: Seq<i64>, b: Seq<i64>, c: Seq<i64>, k: int)
    requires
        b == c,
    ensures
        displacement(a, b, k) == displacement(a, c, k),
{
}

proof fn lemma_count_range(assign: Seq<u8>, k: int, n: int)
    requires
        0 <= n,
    ensures
        0 <= cluster_count(assign, k, n) <= n,
    decreases n,
{
    if n > 0 {
        lemma_count_range(assign, k, n - 1);
    }
}

/// The smallest of the first `n` values; zero of none.
pub open spec fn lowest(values: Seq<i64>, n: int) -> int
    decreases n,
{
    if n <= 0 {
        0
    } else if n == 1 || values[n - 1] < lowest(values, n - 1) {
        values[n - 1] as int
    } else {
        lowest(values, n - 1)
    }
}

/// The largest of the first `n` values; zero of none.
pub open spec fn highest(values: Seq<i64>, n: int) -> int
    decreases n,
{
    if n <= 0 {
        0
    } else if n == 1 || values[n - 1] > highest(values, n - 1) {
        values[n - 1] as int
    } else {
        highest(values, n - 1)
    }
}

/// `nb` centroids spread evenly over `lo..=hi`.
pub open spec fn even_centroids(lo: int, hi: int, nb: int) -> Seq<i64> {
    Seq::new(
        4,
        |k: int|
            if k < nb {
                (lo + ((hi - lo) * k) / (nb - 1)) as i64
            } else {
                0
            },
    )
}

/// At most `iters` k-means passes, stopped when the centroids hardly move.
pub open spec fn refined(values: Seq<i64>, cen: Seq<i64>, nb: int, iters: nat) -> Seq<i64>
    decreases iters,
{
    if iters == 0 {
        cen
    } else {
        let next = updated(values, assigned(values, cen, nb), cen, nb);
        if displacement(cen, next, nb) < KMEANS_MIN_DISPLACEMENT {
            next
        } else {
            refined(values, next, nb, (iters - 1) as nat)
        }
    }
}

/// How many of the first `k` clusters hold a value.
pub open spec fn used_clusters(assign: Seq<u8>, k: int) -> int
    decreases k,
{
    if k <= 0 {
        0
    } else {
        used_clusters(assign, k - 1) + (if cluster_count(assign, k - 1, assign.len() as int) > 0 {
            1int
        } else {
            0
        })
    }
}

/// The means of the used ones of the first `k` clusters, in order, padded with zeros.
pub open spec fn used_means(values: Seq<i64>, assign: Seq<u8>, k: int) -> Seq<i64>
    decreases k,
{
    if k <= 0 {
        seq![0i64, 0i64, 0i64, 0i64]
    } else if cluster_count(assign, k - 1, assign.len() as int) > 0 {
        used_means(values, assign, k - 1).update(
            used_clusters(assign, k - 1),
            div_toward_zero(
                cluster_sum(values, assign, k - 1, assign.len() as int),
                cluster_count(assign, k - 1, assign.len() as int),
            ) as i64,
        )
    } else {
        used_means(values, assign, k - 1)
    }
}

/// A clustering of values.
pub struct Clusters {
    /// Each value's cluster.
    pub ids: Seq<u8>,
    /// Number of clusters.
    pub count: int,
    /// Each cluster's mean, padded to four.
    pub means: Seq<i64>,
}

/// The clustering of `values` into at most `nb` clusters.
pub open spec fn clusters_of(values: Seq<i64>, nb: int) -> Clusters {
    let n = values.len() as int;
    let lo = lowest(values, n);
    let hi = highest(values, n);
    if n == 0 || nb <= 1 || lo == hi {
        Clusters {
            ids: Seq::new(values.len(), |i: int| 0u8),
            count: 1,
            means: Seq::new(4, |k: int| lo as i64),
        }
    } else {
        let cen = refined(values, even_centroids(lo, hi, nb), nb, KMEANS_ITERS as nat);
        let assign = assigned(values, cen, nb);
        Clusters {
            ids: Seq::new(values.len(), |i: int| used_clusters(assign, assign[i] as int) as u8),
            count: used_clusters(assign, nb),
            means: used_means(values, assign, nb),
        }
    }
}

proof fn lemma_extremes(values: Seq<i64>, n: int)
    requires
        0 <= n <= values.len(),
        values_ok(values),
    ensures
        -MAX_VALUE <= lowest(values, n) <= highest(values, n) <= MAX_VALUE,
    decreases n,
{
    if n > 0 {
        lemma_extremes(values, n - 1);
        assert(-MAX_VALUE <= values[n - 1] <= MAX_VALUE);
    }
}

/// The smallest and the largest value.
fn extremes(values: &[i64]) -> (r: (i64, i64))
    requires
        values_ok(values@),
    ensures
        r.0 == lowest(values@, values@.len() as int),
        r.1 == highest(values@, values@.len() as int),
        -MAX_VALUE <= r.0 <= r.1 <= MAX_VALUE,
{
    let mut lo: i64 = 0;
    let mut hi: i64 = 0;
    let mut i: usize = 0;
    while i < values.len()
        invariant
            i <= values@.len(),
            lo == lowest(values@, i as int),
            hi == highest(values@, i as int),
        decreases values@.len() - i,
    {
        let v: i64 = values[i];
        if i == 0 || v < lo {
            lo = v;
        }
        if i == 0 || v > hi {
            hi = v;
        }
        i = i + 1;
    }
    proof {
        lemma_extremes(values@, values@.len() as int);
    }
    (lo, hi)
}

/// The evenly spread initial centroids.
fn spread_centroids(lo: i64, hi: i64, nb: usize) -> (r: [i64; 4])
    requires
        -MAX_VALUE <= lo <= hi <= MAX_VALUE,
        2 <= nb <= 4,
    ensures
        r@ == even_centroids(lo as int, hi as int, nb as int),
        centroids_ok(r@),
{
    let mut cen: [i64; 4] = [0i64; 4];
    let span: i64 = hi - lo;
    let mut k: usize = 0;
    while k < nb
        invariant
            k <= nb,
            2 <= nb <= 4,
            -MAX_VALUE <= lo <= hi <= MAX_VALUE,
            span == hi - lo,
            forall|j: int|
                0 <= j < k ==> #[trigger] cen@[j] == even_centroids(
                    lo as int,
                    hi as int,
                    nb as int,
                )[j],
            forall|j: int| k <= j < 4 ==> #[trigger] cen@[j] == 0,
            centroids_ok(cen@),
        decreases nb - k,
    {
        assert(0 <= span * k <= span * (nb - 1)) by (nonlinear_arith)
            requires
                0 <= span,
                0 <= k <= nb - 1,
        ;
        assert(span * (nb - 1) <= 0x2_0000_0000 * 3) by (nonlinear_arith)
            requires
                0 <= span <= 0x2_0000_0000,
                1 <= nb - 1 <= 3,
        ;
        let part: i64 = span * k as i64;
        let step: i64 = part / (nb as i64 - 1);
        assert(0 <= step <= span) by (nonlinear_arith)
            requires
                step == (part as int) / (nb - 1),
                0 <= part <= span * (nb - 1),
                1 <= nb - 1,
        ;
        cen[k] = lo + step;
        k = k + 1;
    }
    assert(cen@ =~= even_centroids(lo as int, hi as int, nb as int));
    cen
}

/// There are no more used clusters than clusters.
pub proof fn lemma_used_range(assign: Seq<u8>, k: int)
    requires
        0 <= k,
    ensures
        0 <= used_clusters(assign, k) <= k,
    decreases k,
{
    if k > 0 {
        lemma_used_range(assign, k - 1);
    }
}

proof fn lemma_used_mono(assign: Seq<u8>, a: int, b: int)
    requires
        0 <= a <= b,
    ensures
        used_clusters(assign, a) <= used_clusters(assign, b),
    decreases b,
{
    if a < b {
        lemma_used_mono(assign, a, b - 1);
    }
}

/// The cluster of a value is not empty.
pub proof fn lemma_counted(assign: Seq<u8>, i: int, n: int)
    requires
        0 <= i < n <= assign.len(),
    ensures
        cluster_count(assign, assign[i] as int, n) > 0,
    decreases n,
{
    lemma_count_range(assign, assign[i] as int, n - 1);
    if i < n - 1 {
        lemma_counted(assign, i, n - 1);
    }
}

/// A used cluster's new index is below the number of used clusters.
proof fn lemma_rank(assign: Seq<u8>, i: int, nb: int)
    requires
        0 <= i < assign.len(),
        assign[i] < nb,
    ensures
        0 <= used_clusters(assign, assign[i] as int) < used_clusters(assign, nb),
{
    let k = assign[i] as int;
    lemma_counted(assign, i, assign.len() as int);
    lemma_used_range(assign, k);
    assert(used_clusters(assign, k + 1) == used_clusters(assign, k) + 1);
    lemma_used_mono(assign, k + 1, nb);
}

/// Renumber the used clusters and collect their means.
fn collapse(values: &[i64], assign: &[u8], nb: usize) -> (r: (Vec<u8>, usize, [i64; 4]))
    requires
        values_ok(values@),
        1 <= nb <= 4,
        assign@.len() == values@.len(),
        values@.len() >= 1,
        forall|i: int| 0 <= i < assign@.len() ==> #[trigger] assign@[i] < nb,
    ensures
        r.0@ == Seq::new(
            values@.len(),
            |i: int| used_clusters(assign@, assign@[i] as int) as u8,
        ),
        r.1 == used_clusters(assign@, nb as int),
        r.2@ == used_means(values@, assign@, nb as int),
        1 <= r.1 <= nb,
        forall|i: int| 0 <= i < r.0@.len() ==> #[trigger] r.0@[i] < r.1,
{
    let (sum, cnt) = cluster_sums(values, assign);
    let mut remap: [u8; 4] = [0u8; 4];
    let mut means: [i64; 4] = [0i64; 4];
    let mut count: usize = 0;
    let mut k: usize = 0;
    assert(means@ =~= used_means(values@, assign@, 0));
    while k < nb
        invariant
            k <= nb <= 4,
            values_ok(values@),
            assign@.len() == values@.len(),
            forall|j: int|
                0 <= j < 4 ==> #[trigger] sum@[j] == cluster_sum(
                    values@,
                    assign@,
                    j,
                    values@.len() as int,
                ),
            forall|j: int|
                0 <= j < 4 ==> #[trigger] cnt@[j] == cluster_count(assign@, j, values@.len() as int),
            forall|j: int|
                0 <= j < 4 ==> -MAX_VALUE * #[trigger] cnt@[j] <= sum@[j] <= MAX_VALUE * cnt@[j]
                    && 0 <= cnt@[j],
            count == used_clusters(assign@, k as int),
            count <= k,
            means@ == used_means(values@, assign@, k as int),
            forall|j: int|
                0 <= j < k && cnt@[j] > 0 ==> #[trigger] remap@[j] == used_clusters(assign@, j),
        decreases nb - k,
    {
        let c: i64 = cnt[k];
        let s: i64 = sum[k];
        assert(-MAX_VALUE * cnt@[k as int] <= s);
        if c > 0 {
            proof {
                lemma_mean_range(s as int, c as int, MAX_VALUE as int);
                lemma_count_range(assign@, k as int, values@.len() as int);
            }
            remap[k] = count as u8;
            means[count] = quotient(s, c);
            count = count + 1;
        }
        k = k + 1;
        assert(means@ =~= used_means(values@, assign@, k as int));
    }
    let mut ids: Vec<u8> = Vec::with_capacity(assign.len());
    let mut i: usize = 0;
    while i < assign.len()
        invariant
            i <= assign@.len(),
            nb <= 4,
            assign@.len() == values@.len(),
            forall|j: int| 0 <= j < assign@.len() ==> #[trigger] assign@[j] < nb,
            forall|j: int|
                0 <= j < 4 ==> #[trigger] cnt@[j] == cluster_count(assign@, j, values@.len() as int),
            forall|j: int|
                0 <= j < nb && cnt@[j] > 0 ==> #[trigger] remap@[j] == used_clusters(assign@, j),
            count == used_clusters(assign@, nb as int),
            ids@.len() == i,
            forall|j: int|
                0 <= j < i ==> #[trigger] ids@[j] == used_clusters(assign@, assign@[j] as int)
                    && ids@[j] < count,
        decreases assign@.len() - i,
    {
        proof {
            lemma_counted(assign@, i as int, assign@.len() as int);
            lemma_rank(assign@, i as int, nb as int);
            assert(cnt@[assign@[i as int] as int] > 0);
        }
        ids.push(remap[assign[i] as usize]);
        i = i + 1;
    }
    proof {
        lemma_rank(assign@, 0, nb as int);
        lemma_used_range(assign@, nb as int);
        assert(ids@ =~= Seq::new(
            values@.len(),
            |i: int| used_clusters(assign@, assign@[i] as int) as u8,
        ));
    }
    (ids, count, means)
}

/// Cluster values into at most `nb` (clamped to `1..=4`) clusters by an integer k-means:
/// each value's cluster, the number of clusters, and each cluster's mean. Values that are
/// all equal form one cluster.
pub fn kmeans_segments(activity: &[i64], nb: usize) -> (r: (Vec<u8>, usize, [i64; 4]))
    requires
        values_ok(activity@),
    ensures
        ({
            let c = clusters_of(activity@, clamp_int(nb as int, 1, 4));
            r.0@ == c.ids && r.1 == c.count && r.2@ == c.means
        }),
        1 <= r.1 <= 4,
        r.0@.len() == activity@.len(),
        forall|i: int| 0 <= i < r.0@.len() ==> #[trigger] r.0@[i] < r.1,
{
    let n: usize = activity.len();
    let nb: usize = if nb < 1 {
        1
    } else if nb > 4 {
        4
    } else {
        nb
    };
    let (lo, hi) = extremes(activity);
    if n == 0 || nb <= 1 || lo == hi {
        let ids: Vec<u8> = vec![0u8; n];
        let means: [i64; 4] = [lo; 4];
        assert(ids@ =~= clusters_of(activity@, nb as int).ids);
        assert(means@ =~= clusters_of(activity@, nb as int).means);
        return (ids, 1, means);
    }
    let mut centroids: [i64; 4] = spread_centroids(lo, hi, nb);
    let ghost start = centroids@;
    let mut assign: Vec<u8> = vec![0u8; n];
    let mut left: usize = KMEANS_ITERS;
    let mut moving: bool = true;
    while moving && left > 0
        invariant
            values_ok(activity@),
            centroids_ok(centroids@),
            1 <= nb <= 4,
            assign@.len() == activity@.len(),
            left <= KMEANS_ITERS,
            moving ==> refined(activity@, start, nb as int, KMEANS_ITERS as nat) == refined(
                activity@,
                centroids@,
                nb as int,
                left as nat,
            ),
            !moving ==> refined(activity@, start, nb as int, KMEANS_ITERS as nat) == centroids@,
        decreases left,
    {
        assign_nearest(activity, centroids, nb, assign.as_mut_slice());
        let d: i64 = update_centroids(activity, assign.as_slice(), &mut centroids, nb);
        moving = d >= KMEANS_MIN_DISPLACEMENT;
        left = left - 1;
    }
    assign_nearest(activity, centroids, nb, assign.as_mut_slice());
    collapse(activity, assign.as_slice(), nb)
}

/// The quantizer index of a segment with mean activity `a`.
pub open spec fn segment_index(base_q: int, a: int, sns_strength: int) -> int {
    clamp_int(
        base_q + div_toward_zero((clamp_int(a, 0, 255) - 128) * sns_strength, 512),
        0,
        127,
    )
}

/// Each of the `count` segments' quantizer index; the rest keep `base_q`.
pub fn segment_base_qs(base_q: i32, count: usize, seg_a: [i64; 4], sns_strength: u8) -> (r: [i32; 4])
    requires
        0 <= base_q <= 127,
    ensures
        forall|k: int|
            0 <= k < 4 ==> #[trigger] r@[k] == (if k < count {
                segment_index(base_q as int, seg_a@[k] as int, sns_strength as int)
            } else {
                base_q as int
            }) && 0 <= r@[k] <= 127,
{
    let mut qs: [i32; 4] = [base_q; 4];
    let mut k: usize = 0;
    while k < 4 && k < count
        invariant
            k <= 4,
            k <= count,
            0 <= base_q <= 127,
            forall|j: int|
                0 <= j < k ==> #[trigger] qs@[j] == segment_index(
                    base_q as int,
                    seg_a@[j] as int,
                    sns_strength as int,
                ) && 0 <= qs@[j] <= 127,
            forall|j: int| k <= j < 4 ==> #[trigger] qs@[j] == base_q,
        decreases 4 - k,
    {
        let a: i64 = seg_a[k];
        let activity: u8 = if a < 0 {
            0
        } else if a > 255 {
            255
        } else {
            a as u8
        };
        let q: i32 = base_q + sns_quant_delta(activity, sns_strength);
        qs[k] = if q < 0 {
            0
        } else if q > 127 {
            127
        } else {
            q
        };
        k = k + 1;
    }
    qs
}

/// The probability, out of 256, that a tree bit is zero; an empty branch is neutral.
pub open spec fn tree_prob_spec(zeros: int, total: int) -> int {
    if total == 0 {
        128
    } else {
        clamp_int((zeros * 255) / total, 1, 255)
    }
}

/// The probability, out of 256, that a tree bit is zero, given `zeros` zero outcomes out
/// of `total`.
pub fn tree_prob(zeros: u64, total: u64) -> (r: u8)
    requires
        zeros <= 0x0080_0000_0000_0000,
    ensures
        r == tree_prob_spec(zeros as int, total as int),
{
    if total == 0 {
        return 128;
    }
    let p: u64 = (zeros * 255) / total;
    if p < 1 {
        1
    } else if p > 255 {
        255
    } else {
        p as u8
    }
}

/// The segment-id tree probabilities that fit the segments' populations.
pub open spec fn tree_probs_of(ids: Seq<u8>) -> Seq<u8> {
    let n = ids.len() as int;
    let c0 = cluster_count(ids, 0, n);
    let c1 = cluster_count(ids, 1, n);
    let c2 = cluster_count(ids, 2, n);
    let c3 = cluster_count(ids, 3, n);
    seq![
        tree_prob_spec(c0 + c1, c0 + c1 + c2 + c3) as u8,
        tree_prob_spec(c0, c0 + c1) as u8,
        tree_prob_spec(c2, c2 + c3) as u8,
    ]
}

/// The three segment-id tree probabilities for the populations of `seg_ids`.
pub fn segment_tree_probs(seg_ids: &[u8]) -> (r: [u8; 3])
    requires
        seg_ids@.len() <= 0x1_0000_0000,
        forall|i: int| 0 <= i < seg_ids@.len() ==> #[trigger] seg_ids@[i] < 4,
    ensures
        r@ == tree_probs_of(seg_ids@),
{
    let mut cnt: [u64; 4] = [0u64; 4];
    let mut i: usize = 0;
    while i < seg_ids.len()
        invariant
            i <= seg_ids@.len() <= 0x1_0000_0000,
            forall|j: int| 0 <= j < seg_ids@.len() ==> #[trigger] seg_ids@[j] < 4,
            forall|k: int|
                0 <= k < 4 ==> #[trigger] cnt@[k] == cluster_count(seg_ids@, k, i as int),
            forall|k: int| 0 <= k < 4 ==> #[trigger] cnt@[k] <= i,
        decreases seg_ids@.len() - i,
    {
        let k: usize = seg_ids[i] as usize;
        cnt[k] = cnt[k] + 1;
        i = i + 1;
    }
    let n01: u64 = cnt[0] + cnt[1];
    let n23: u64 = cnt[2] + cnt[3];
    let r: [u8; 3] = [
        tree_prob(n01, n01 + n23),
        tree_prob(cnt[0], n01),
        tree_prob(cnt[2], n23),
    ];
    assert(r@ =~= tree_probs_of(seg_ids@));
    r
}

/// A frame's partition into segments.
pub struct Segmentation {
    /// Segment of each macroblock, row by row.
    pub seg_ids: Vec<u8>,
    /// Quantizer index of each segment.
    pub base_q: [i32; 4],
    /// The segment header, or nothing for a single segment.
    pub params: Option<SegmentParams>,
}

/// The texture scores of the first `n` macroblocks.
pub open spec fn activities(src: SourceYuv, n: int) -> Seq<i64> {
    Seq::new(
        n as nat,
        |k: int| activity_of(src_mb(src, k % (src.mb_w as int), k / (src.mb_w as int)).y) as i64,
    )
}

/// Whether clusters would all get the quantizer index `base_q`.
pub open spec fn buys_nothing(c: Clusters, base_q: int, sns_strength: int) -> bool {
    c.count <= 1 || forall|k: int|
        0 <= k < c.count ==> segment_index(base_q, #[trigger] c.means[k] as int, sns_strength)
            == base_q
}

impl Segmentation {
    /// One segment at `base_q`.
    pub open spec fn is_single(&self, n: int, base_q: int) -> bool {
        &&& self.seg_ids@ == Seq::new(n as nat, |k: int| 0u8)
        &&& forall|k: int| 0 <= k < 4 ==> #[trigger] self.base_q@[k] == base_q
        &&& self.params is None
    }

    /// The segments that `c` asks for.
    pub open spec fn follows(&self, c: Clusters, base_q: int, sns_strength: int) -> bool {
        &&& self.seg_ids@ == c.ids
        &&& forall|k: int|
            0 <= k < 4 ==> #[trigger] self.base_q@[k] == (if k < c.count {
                segment_index(base_q, c.means[k] as int, sns_strength)
            } else {
                base_q
            })
        &&& self.params matches Some(p) && {
            &&& forall|k: int| 0 <= k < 4 ==> #[trigger] p.quantizer@[k] == self.base_q@[k] - base_q
            &&& forall|k: int| 0 <= k < 4 ==> #[trigger] p.filter_strength@[k] == 0
            &&& p.tree_probs@ == tree_probs_of(c.ids)
        }
    }

    /// The segmentation of a source.
    pub open spec fn is_plan(
        &self,
        src: SourceYuv,
        base_q: int,
        enabled: bool,
        tuning: FrameTuning,
    ) -> bool {
        let n = src.mb_w * src.mb_h;
        let nb = clamp_int(tuning.segments as int, 1, 4);
        let c = clusters_of(activities(src, n), nb);
        if !enabled || nb <= 1 || tuning.sns_strength == 0 || buys_nothing(
            c,
            base_q,
            tuning.sns_strength as int,
        ) {
            self.is_single(n, base_q)
        } else {
            self.follows(c, base_q, tuning.sns_strength as int)
        }
    }

    /// What every segmentation of `n` macroblocks satisfies.
    pub open spec fn wf(&self, n: int, base_q: int) -> bool {
        &&& self.seg_ids@.len() == n
        &&& forall|k: int| 0 <= k < n ==> #[trigger] self.seg_ids@[k] < 4
        &&& forall|k: int| 0 <= k < 4 ==> 0 <= #[trigger] self.base_q@[k] <= 127
        &&& match self.params {
            None => {
                &&& forall|k: int| 0 <= k < n ==> #[trigger] self.seg_ids@[k] == 0
                &&& forall|k: int| 0 <= k < 4 ==> #[trigger] self.base_q@[k] == base_q
            },
            Some(p) => {
                &&& forall|k: int|
                    0 <= k < 4 ==> #[trigger] p.quantizer@[k] == self.base_q@[k] - base_q
                &&& forall|k: int| 0 <= k < 4 ==> #[trigger] p.filter_strength@[k] == 0
            },
        }
    }
}

/// One segment for `n` macroblocks.
fn single_segment(n: usize, base_q: i32) -> (r: Segmentation)
    requires
        0 <= base_q <= 127,
    ensures
        r.is_single(n as int, base_q as int),
        r.wf(n as int, base_q as int),
{
    let seg_ids: Vec<u8> = vec![0u8; n];
    assert(seg_ids@ =~= Seq::new(n as nat, |k: int| 0u8));
    Segmentation { seg_ids, base_q: [base_q; 4], params: None }
}

/// The texture scores of all macroblocks.
fn all_activities(src: &SourceYuv) -> (r: Vec<i64>)
    requires
        src.wf(),
        src.mb_w * src.mb_h <= 0x4000_0000,
    ensures
        r@ == activities(*src, src.mb_w * src.mb_h),
        values_ok(r@),
{
    let mut out: Vec<i64> = Vec::new();
    let mut mb_y: usize = 0;
    while mb_y < src.mb_h
        invariant
            mb_y <= src.mb_h,
            src.wf(),
            src.mb_w * src.mb_h <= 0x4000_0000,
            out@ == activities(*src, src.mb_w * mb_y),
            forall|j: int| 0 <= j < out@.len() ==> 0 <= #[trigger] out@[j] <= 255,
        decreases src.mb_h - mb_y,
    {
        let mut mb_x: usize = 0;
        proof {
            assert(0 <= src.mb_w * mb_y) by (nonlinear_arith);
        }
        while mb_x < src.mb_w
            invariant
                mb_x <= src.mb_w,
                mb_y < src.mb_h,
                src.wf(),
                0 <= src.mb_w * mb_y,
                out@ == activities(*src, src.mb_w * mb_y + mb_x),
                forall|j: int| 0 <= j < out@.len() ==> 0 <= #[trigger] out@[j] <= 255,
            decreases src.mb_w - mb_x,
        {
            let a: u8 = mb_activity(src, mb_x, mb_y);
            proof {
                let k = src.mb_w * mb_y + mb_x;
                lemma_raster(mb_x as int, mb_y as int, src.mb_w as int);
                assert(a as i64 == activities(*src, k + 1)[k]);
            }
            out.push(a as i64);
            mb_x = mb_x + 1;
            assert(out@ =~= activities(*src, src.mb_w * mb_y + mb_x));
        }
        assert(src.mb_w * mb_y + src.mb_w == src.mb_w * (mb_y + 1)) by (nonlinear_arith);
        mb_y = mb_y + 1;
    }
    out
}

proof fn lemma_raster(x: int, y: int, w: int)
    requires
        0 <= x < w,
        0 <= y,
    ensures
        (w * y + x) % w == x,
        (w * y + x) / w == y,
{
    assert(w * y == y * w) by (nonlinear_arith);
    vstd::arithmetic::div_mod::lemma_fundamental_div_mod_converse(w * y + x, w, y, x);
}

/// Whether the first `count` quantizer indices are all `base_q`.
fn all_same(
    qs: &[i32; 4],
    count: usize,
    base_q: i32,
    Ghost(c): Ghost<Clusters>,
    Ghost(sns): Ghost<int>,
) -> (r: bool)
    requires
        1 <= count <= 4,
        c.count == count,
        forall|k: int|
            0 <= k < count ==> #[trigger] qs@[k] == segment_index(
                base_q as int,
                c.means[k] as int,
                sns,
            ),
    ensures
        (r || count <= 1) == buys_nothing(c, base_q as int, sns),
{
    let mut k: usize = 0;
    while k < count
        invariant
            k <= count <= 4,
            c.count == count,
            forall|j: int|
                0 <= j < count ==> #[trigger] qs@[j] == segment_index(
                    base_q as int,
                    c.means[j] as int,
                    sns,
                ),
            forall|j: int| 0 <= j < k ==> #[trigger] qs@[j] == base_q,
        decreases count - k,
    {
        if qs[k] != base_q {
            assert(segment_index(base_q as int, c.means[k as int] as int, sns) != base_q);
            return false;
        }
        k = k + 1;
    }
    assert forall|j: int| 0 <= j < c.count implies segment_index(
        base_q as int,
        #[trigger] c.means[j] as int,
        sns,
    ) == base_q by {
        assert(qs@[j] == base_q);
    }
    true
}

/// Partition the macroblocks into up to `tuning.segments` segments by texture, each with
/// a quantizer index for its mean activity. The frame stays one segment at `base_q` when
/// segments are not `enabled`, when the tuning asks for none, or when they would all get
/// `base_q`.
pub fn plan_segmentation(
    src: &SourceYuv,
    base_q: i32,
    enabled: bool,
    tuning: FrameTuning,
) -> (r: Segmentation)
    requires
        src.wf(),
        src.mb_w * src.mb_h <= 0x4000_0000,
        0 <= base_q <= 127,
    ensures
        r.is_plan(*src, base_q as int, enabled, tuning),
        r.wf(src.mb_w * src.mb_h, base_q as int),
{
    assert(0 <= src.mb_w * src.mb_h) by (nonlinear_arith);
    let n: usize = src.mb_w * src.mb_h;
    let nb: usize = if tuning.segments < 1 {
        1
    } else if tuning.segments > 4 {
        4
    } else {
        tuning.segments as usize
    };
    if !enabled || nb <= 1 || tuning.sns_strength == 0 {
        return single_segment(n, base_q);
    }
    let activity: Vec<i64> = all_activities(src);
    let (seg_ids, count, seg_a) = kmeans_segments(activity.as_slice(), nb);
    let qs: [i32; 4] = segment_base_qs(base_q, count, seg_a, tuning.sns_strength);
    let ghost c = clusters_of(activities(*src, n as int), nb as int);
    let same: bool = all_same(
        &qs,
        count,
        base_q,
        Ghost(c),
        Ghost(tuning.sns_strength as int),
    );
    if count <= 1 || same {
        return single_segment(n, base_q);
    }
    let quantizer: [i32; 4] = [
        qs[0] - base_q,
        qs[1] - base_q,
        qs[2] - base_q,
        qs[3] - base_q,
    ];
    let tree_probs: [u8; 3] = segment_tree_probs(seg_ids.as_slice());
    let r = Segmentation {
        seg_ids,
        base_q: qs,
        params: Some(SegmentParams { quantizer, filter_strength: [0i32; 4], tree_probs }),
    };
    assert(activity@ == activities(*src, src.mb_w * src.mb_h));
    assert(r.follows(c, base_q as int, tuning.sns_strength as int));
    r
}

} // verus!
